use vstd::prelude::*;

verus! {

/// The half-open label range `[begin, end)`.
#[derive(Clone, Copy, Debug, PartialEq, Eq, Hash, Default, Structural)]
pub struct IntInterval {
    pub begin: usize,
    pub end: usize,
}

impl IntInterval {
    pub open spec fn contains(self, l: int) -> bool {
        self.begin <= l < self.end
    }

    pub fn new(begin: usize, end: usize) -> (r: Self)
        ensures
            r == (IntInterval { begin, end }),
    {
        IntInterval { begin, end }
    }
}

/// `l` lies in one of the intervals of `s`.
pub open spec fn covers(s: Seq<IntInterval>, l: int) -> bool {
    exists|k: int| 0 <= k < s.len() && #[trigger] s[k].contains(l)
}

/// Every interval is non-empty, and each one ends strictly before the next
/// begins: the intervals are sorted, disjoint and not adjacent.
pub open spec fn sorted_disjoint(s: Seq<IntInterval>) -> bool {
    &&& forall|k: int| 0 <= k < s.len() ==> (#[trigger] s[k]).begin < s[k].end
    &&& forall|i: int, j: int| 0 <= i < j < s.len() ==> (#[trigger] s[i]).end < (#[trigger] s[j]).begin
}

/// A set of labels held as sorted, disjoint intervals.
#[derive(Clone, Debug, PartialEq, Eq, Default)]
pub struct IntervalSet {
    pub intervals: Vec<IntInterval>,
}

impl IntervalSet {
    pub open spec fn view_set(&self) -> Seq<IntInterval> {
        self.intervals@
    }

    pub open spec fn wf(&self) -> bool {
        sorted_disjoint(self.intervals@)
    }

    /// The empty set.
    pub fn new() -> (r: Self)
        ensures
            r.wf(),
            r.intervals@.len() == 0,
    {
        IntervalSet { intervals: Vec::new() }
    }

    /// The set `{l}`.
    pub fn singleton(l: usize) -> (r: Self)
        requires
            l < usize::MAX,
        ensures
            r.wf(),
            r.intervals@ == seq![IntInterval { begin: l, end: (l + 1) as usize }],
    {
        let mut intervals = Vec::new();
        intervals.push(IntInterval { begin: l, end: l + 1 });
        IntervalSet { intervals }
    }

    /// Number of intervals.
    pub fn len(&self) -> (r: usize)
        ensures
            r == self.intervals@.len(),
    {
        self.intervals.len()
    }

    /// Membership by binary search over the interval ends.
    pub fn member(&self, label: usize) -> (r: bool)
        requires
            self.wf(),
        ensures
            r == covers(self.intervals@, label as int),
    {
        let n = self.intervals.len();
        let mut low: usize = 0;
        let mut high: usize = n;
        while low < high
            invariant
                0 <= low <= high <= n,
                n == self.intervals@.len(),
                self.wf(),
                forall|k: int| 0 <= k < low ==> (#[trigger] self.intervals@[k]).end <= label,
                forall|k: int| high <= k < n ==> label < (#[trigger] self.intervals@[k]).end,
            decreases high - low,
        {
            let mid = low + (high - low) / 2;
            if self.intervals[mid].end <= label {
                low = mid + 1;
            } else {
                high = mid;
            }
        }
        if low < n && self.intervals[low].begin <= label {
            assert(self.intervals@[low as int].contains(label as int));
            true
        } else {
            proof {
                assert forall|k: int| 0 <= k < n implies !(#[trigger] self.intervals@[k]).contains(label as int) by {
                    if k > low {
                        assert(self.intervals@[low as int].end < self.intervals@[k].begin);
                    }
                }
            }
            false
        }
    }

    /// Replaces the set with its union with `other`, by a linear merge that
    /// coalesces overlapping and adjacent intervals.
    pub fn union(&mut self, other: &IntervalSet)
        requires
            old(self).wf(),
            other.wf(),
        ensures
            final(self).wf(),
            forall|l: int|
                covers(final(self).intervals@, l) <==> (covers(old(self).intervals@, l) || covers(
                    other.intervals@,
                    l,
                )),
    {
        let a = &self.intervals;
        let b = &other.intervals;
        let mut out: Vec<IntInterval> = Vec::new();
        let mut i: usize = 0;
        let mut j: usize = 0;
        while i < a.len() || j < b.len()
            invariant
                0 <= i <= a@.len(),
                0 <= j <= b@.len(),
                sorted_disjoint(a@),
                sorted_disjoint(b@),
                sorted_disjoint(out@),
                out@.len() > 0 ==> (i < a@.len() ==> out@.last().begin <= a@[i as int].begin),
                out@.len() > 0 ==> (j < b@.len() ==> out@.last().begin <= b@[j as int].begin),
                forall|l: int|
                    covers(out@, l) <==> (covers(a@.subrange(0, i as int), l) || covers(
                        b@.subrange(0, j as int),
                        l,
                    )),
            decreases a@.len() + b@.len() - i - j,
        {
            let take_a = j >= b.len() || (i < a.len() && a[i].begin <= b[j].begin);
            let cur = if take_a {
                a[i]
            } else {
                b[j]
            };
            let ghost old_out = out@;
            let ghost pa = a@.subrange(0, i as int);
            let ghost pb = b@.subrange(0, j as int);
            if take_a {
                i = i + 1;
            } else {
                j = j + 1;
            }
            proof {
                if take_a {
                    assert(a@.subrange(0, i as int) == pa.push(cur));
                } else {
                    assert(b@.subrange(0, j as int) == pb.push(cur));
                }
            }
            let n = out.len();
            if n > 0 && out[n - 1].end >= cur.begin {
                let last = out[n - 1];
                let new_end = if cur.end > last.end {
                    cur.end
                } else {
                    last.end
                };
                out.set(n - 1, IntInterval { begin: last.begin, end: new_end });
                proof {
                    assert forall|l: int| covers(out@, l) <==> (covers(old_out, l) || cur.contains(l)) by {
                        if covers(out@, l) {
                            let k = choose|k: int| 0 <= k < out@.len() && #[trigger] out@[k].contains(l);
                            if k != n - 1 {
                                assert(old_out[k].contains(l));
                            } else if !last.contains(l) {
                                assert(cur.contains(l));
                            }
                        }
                        if covers(old_out, l) {
                            let k = choose|k: int| 0 <= k < old_out.len() && #[trigger] old_out[k].contains(l);
                            assert(out@[k].contains(l));
                        }
                        if cur.contains(l) {
                            assert(out@[n - 1].contains(l));
                        }
                    }
                }
            } else {
                out.push(cur);
                proof {
                    assert forall|l: int| covers(out@, l) <==> (covers(old_out, l) || cur.contains(l)) by {
                        if covers(out@, l) {
                            let k = choose|k: int| 0 <= k < out@.len() && #[trigger] out@[k].contains(l);
                            if k < n {
                                assert(old_out[k].contains(l));
                            }
                        }
                        if covers(old_out, l) {
                            let k = choose|k: int| 0 <= k < old_out.len() && #[trigger] old_out[k].contains(l);
                            assert(out@[k].contains(l));
                        }
                        if cur.contains(l) {
                            assert(out@[n as int].contains(l));
                        }
                    }
                }
            }
            proof {
                assert forall|l: int| #![auto] covers(pa.push(cur), l) <==> (covers(pa, l) || cur.contains(l)) by {
                    if covers(pa.push(cur), l) {
                        let k = choose|k: int| 0 <= k < pa.push(cur).len() && #[trigger] pa.push(cur)[k].contains(l);
                        if k < pa.len() {
                            assert(pa[k].contains(l));
                        }
                    }
                    if covers(pa, l) {
                        let k = choose|k: int| 0 <= k < pa.len() && #[trigger] pa[k].contains(l);
                        assert(pa.push(cur)[k].contains(l));
                    }
                    if cur.contains(l) {
                        assert(pa.push(cur)[pa.len() as int].contains(l));
                    }
                }
                assert forall|l: int| #![auto] covers(pb.push(cur), l) <==> (covers(pb, l) || cur.contains(l)) by {
                    if covers(pb.push(cur), l) {
                        let k = choose|k: int| 0 <= k < pb.push(cur).len() && #[trigger] pb.push(cur)[k].contains(l);
                        if k < pb.len() {
                            assert(pb[k].contains(l));
                        }
                    }
                    if covers(pb, l) {
                        let k = choose|k: int| 0 <= k < pb.len() && #[trigger] pb[k].contains(l);
                        assert(pb.push(cur)[k].contains(l));
                    }
                    if cur.contains(l) {
                        assert(pb.push(cur)[pb.len() as int].contains(l));
                    }
                }
                assert forall|l: int|
                    covers(out@, l) <==> (covers(a@.subrange(0, i as int), l) || covers(
                        b@.subrange(0, j as int),
                        l,
                    )) by {
                    assert(covers(out@, l) <==> (covers(old_out, l) || cur.contains(l)));
                    assert(covers(old_out, l) <==> (covers(pa, l) || covers(pb, l)));
                    if take_a {
                        assert(covers(pa.push(cur), l) <==> (covers(pa, l) || cur.contains(l)));
                    } else {
                        assert(covers(pb.push(cur), l) <==> (covers(pb, l) || cur.contains(l)));
                    }
                }
                if i < a@.len() && take_a {
                    assert(a@[i - 1].end < a@[i as int].begin);
                }
                if j < b@.len() && !take_a {
                    assert(b@[j - 1].end < b@[j as int].begin);
                }
            }
        }
        proof {
            assert(a@.subrange(0, i as int) == a@);
            assert(b@.subrange(0, j as int) == b@);
        }
        self.intervals = out;
    }
}

} // verus!

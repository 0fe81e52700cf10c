use vstd::prelude::*;
use crate::arc::{Arc, Label, StateId, EPS_LABEL, NO_LABEL, UNASSIGNED};
use crate::semiring::Semiring;
use crate::fst::{copy_arc, sort_arcs, FstState, VectorFst};
use crate::label_transform::{arcs_before, is_label_transform, lemma_arcs_before_mono, total_arcs, transform_fst};
use crate::state_reachable::{is_sink, lemma_sink_count_le, reaches_index, sinks_before, StateReachable};
use crate::error::FstError;
use crate::interval_set::{covers, sorted_disjoint, IntInterval, IntervalSet};

verus! {

/// No two pairs share a first component.
pub open spec fn keys_unique(p: Seq<(Label, Label)>) -> bool {
    forall|i: int, j: int| 0 <= i < j < p.len() ==> (#[trigger] p[i]).0 != (#[trigger] p[j]).0
}

/// Some pair has `l` as first component.
pub open spec fn has_key(p: Seq<(Label, Label)>, l: Label) -> bool {
    exists|i: int| 0 <= i < p.len() && (#[trigger] p[i]).0 == l
}

/// The pairs of `p` whose index differs from `final_label`, in order.
pub open spec fn non_final_pairs(p: Seq<(Label, Label)>, final_label: Label) -> Seq<(Label, Label)> {
    p.filter(|e: (Label, Label)| e.1 != final_label)
}

/// Labels `i` of `lo..=hi` that are unmapped, or mapped to `final_label`,
/// each paired with `fresh`, in increasing order of `i`.
pub open spec fn collision_pairs(
    p: Seq<(Label, Label)>,
    final_label: Label,
    lo: int,
    hi: int,
    fresh: Label,
) -> Seq<(Label, Label)>
    decreases hi - lo + 1,
{
    if hi < lo {
        seq![]
    } else {
        let rest = collision_pairs(p, final_label, lo, hi - 1, fresh);
        if !has_key(p, hi as Label) || p.contains((hi as Label, final_label)) {
            rest.push((hi as Label, fresh))
        } else {
            rest
        }
    }
}

/// The label of `a` on the side being reached.
pub open spec fn side_label<W>(a: Arc<W>, input: bool) -> Label {
    if input {
        a.ilabel
    } else {
        a.olabel
    }
}

/// Whether `reach` counts a label as reachable: as `reach_label` does, a
/// label other than `EPS_LABEL` that the intervals cover.
pub open spec fn reach_selects(iset: Seq<IntInterval>, l: Label) -> bool {
    l != EPS_LABEL && covers(iset, l as int)
}

/// The `plus`-sum, from left to right, of the weights of the arcs of
/// `arcs[lo..hi]` that `reach` selects.
pub open spec fn reach_sum<W: Semiring>(
    arcs: Seq<Arc<W>>,
    input: bool,
    iset: Seq<IntInterval>,
    lo: int,
    hi: int,
) -> W
    decreases hi - lo,
{
    if hi <= lo {
        W::zero_spec()
    } else {
        let prev = reach_sum(arcs, input, iset, lo, hi - 1);
        if reach_selects(iset, side_label(arcs[hi - 1], input)) {
            prev.plus_spec(arcs[hi - 1].weight)
        } else {
            prev
        }
    }
}

/// Positions `lo..hi` of `arcs` are sorted on the side label.
pub open spec fn sorted_on<W>(arcs: Seq<Arc<W>>, input: bool, lo: int, hi: int) -> bool {
    forall|i: int, j: int|
        lo <= i <= j < hi ==> side_label(#[trigger] arcs[i], input) <= side_label(#[trigger] arcs[j], input)
}

/// A sum over a range with no selected arc adds nothing.
proof fn lemma_reach_sum_skip<W: Semiring>(
    arcs: Seq<Arc<W>>,
    input: bool,
    iset: Seq<IntInterval>,
    lo: int,
    mid: int,
    hi: int,
)
    requires
        lo <= mid <= hi,
        forall|k: int| mid <= k < hi ==> !reach_selects(iset, side_label(#[trigger] arcs[k], input)),
    ensures
        reach_sum(arcs, input, iset, lo, hi) == reach_sum(arcs, input, iset, lo, mid),
    decreases hi - mid,
{
    if hi > mid {
        lemma_reach_sum_skip(arcs, input, iset, lo, mid, hi - 1);
    }
}

/// A label that no interval before `t` reaches up to and that lies below the
/// begin of interval `t` (or past the last interval) is not covered.
proof fn lemma_not_covered_between(s: Seq<IntInterval>, t: int, l: int)
    requires
        sorted_disjoint(s),
        0 <= t <= s.len(),
        t > 0 ==> s[t - 1].end <= l,
        t < s.len() ==> l < s[t].begin,
    ensures
        !covers(s, l),
{
    if covers(s, l) {
        let k = choose|k: int| 0 <= k < s.len() && #[trigger] s[k].contains(l);
        if k < t - 1 {
            assert(s[k].end < s[t - 1].begin);
        } else if k > t {
            assert(s[t].end < s[k].begin);
        }
    }
}

/// The index `StateReachable` gives state `t` of `states`.
pub open spec fn sink_index<W: Semiring>(states: Seq<crate::fst::FstState<W>>, t: int) -> usize {
    if is_sink(states[t]) {
        (sinks_before(states, t) + 1) as usize
    } else {
        UNASSIGNED
    }
}

/// The indices of all states of `out`.
pub open spec fn sink_indices<W: Semiring>(out: VectorFst<W>) -> Seq<usize> {
    Seq::new(out.states@.len(), |t: int| sink_index(out.states@, t))
}

/// `d` holds what label reachability computes from the transformed `out`
/// of an operand with `ins` states: each label's index is that of its
/// final state, and a state's intervals cover exactly the indices of the
/// final states it reaches.
pub open spec fn built_from<W: Semiring>(out: VectorFst<W>, l2s: Seq<(Label, StateId)>, ins: int, d: LabelReachableData) -> bool {
    let s2i = sink_indices(out);
    &&& d.label2index@.len() == l2s.len()
    &&& forall|i: int| 0 <= i < l2s.len() ==> #[trigger] d.label2index@[i] == (l2s[i].0, s2i[l2s[i].1 as int])
    &&& forall|i: int| 0 <= i < l2s.len() && (#[trigger] l2s[i]).0 == NO_LABEL ==> d.final_label == s2i[l2s[i].1 as int]
    &&& !has_key(l2s, NO_LABEL) ==> d.final_label == NO_LABEL
    &&& d.interval_sets@.len() == ins
    &&& forall|s: int, i: int| 0 <= s < ins ==> (#[trigger] covers(d.interval_sets@[s].intervals@, i)
        <==> reaches_index(out.states@, s2i, s, out.states@.len(), i))
}

/// The index `p` maps label `l` to; `EPS_LABEL` stays itself.
pub open spec fn index_of(p: Seq<(Label, Label)>, l: Label) -> Label {
    if l == EPS_LABEL {
        EPS_LABEL
    } else {
        p[choose|i: int| 0 <= i < p.len() && (#[trigger] p[i]).0 == l].1
    }
}

/// `a` with its label on the chosen side replaced by its index in `p`.
pub open spec fn relabeled<W>(p: Seq<(Label, Label)>, a: Arc<W>, input: bool) -> Arc<W> {
    if input {
        Arc { ilabel: index_of(p, a.ilabel), ..a }
    } else {
        Arc { olabel: index_of(p, a.olabel), ..a }
    }
}

proof fn lemma_index_of(p: Seq<(Label, Label)>, l: Label, v: Label)
    requires
        keys_unique(p),
        l != EPS_LABEL,
        p.contains((l, v)),
    ensures
        index_of(p, l) == v,
{
    let i = choose|i: int| 0 <= i < p.len() && p[i] == (l, v);
    assert(p[i].0 == l);
    let c = choose|i: int| 0 <= i < p.len() && (#[trigger] p[i]).0 == l;
    assert(c == i);
}

proof fn lemma_has_key_grow(p: Seq<(Label, Label)>, q: Seq<(Label, Label)>, l: Label)
    requires
        q.len() >= p.len(),
        q.subrange(0, p.len() as int) == p,
        has_key(p, l),
    ensures
        has_key(q, l),
{
    let i = choose|i: int| 0 <= i < p.len() && (#[trigger] p[i]).0 == l;
    assert(q.subrange(0, p.len() as int)[i] == q[i]);
}

/// A prefix of a prefix is a prefix.
pub proof fn lemma_extends_trans<T>(p: Seq<T>, q: Seq<T>, r: Seq<T>)
    requires
        q.len() >= p.len(),
        q.subrange(0, p.len() as int) == p,
        r.len() >= q.len(),
        r.subrange(0, q.len() as int) == q,
    ensures
        r.len() >= p.len(),
        r.subrange(0, p.len() as int) == p,
{
    assert forall|m: int| 0 <= m < p.len() implies r[m] == p[m] by {
        assert(r.subrange(0, q.len() as int)[m] == r[m]);
        assert(q.subrange(0, p.len() as int)[m] == q[m]);
    }
    assert(r.subrange(0, p.len() as int) =~= p);
}

/// Relabeling by a map is unchanged when the map grows, as long as the
/// label was already in it and keys stay unique.
proof fn lemma_relabeled_stable<W>(p: Seq<(Label, Label)>, q: Seq<(Label, Label)>, a: Arc<W>, input: bool)
    requires
        keys_unique(q),
        q.len() >= p.len(),
        q.subrange(0, p.len() as int) == p,
        side_label(a, input) == EPS_LABEL || has_key(p, side_label(a, input)),
    ensures
        relabeled(p, a, input) == relabeled(q, a, input),
{
    let l = side_label(a, input);
    if l != EPS_LABEL {
        let i = choose|i: int| 0 <= i < p.len() && (#[trigger] p[i]).0 == l;
        assert(q[i] == p[i]);
        assert(keys_unique(p)) by {
            assert forall|x: int, y: int| 0 <= x < y < p.len() implies (#[trigger] p[x]).0 != (#[trigger] p[y]).0 by {
                assert(q[x] == p[x]);
                assert(q[y] == p[y]);
            }
        }
        lemma_index_of(p, l, p[i].1);
        assert(q.contains((l, p[i].1)));
        lemma_index_of(q, l, p[i].1);
    }
}

proof fn lemma_relabeled_map_stable<W>(p: Seq<(Label, Label)>, q: Seq<(Label, Label)>, arcs: Seq<Arc<W>>, input: bool)
    requires
        keys_unique(q),
        q.len() >= p.len(),
        q.subrange(0, p.len() as int) == p,
        forall|m: int| 0 <= m < arcs.len() ==> side_label(#[trigger] arcs[m], input) == EPS_LABEL || has_key(p, side_label(arcs[m], input)),
    ensures
        arcs.map_values(|a: Arc<W>| relabeled(p, a, input)) == arcs.map_values(|a: Arc<W>| relabeled(q, a, input)),
{
    assert forall|m: int| 0 <= m < arcs.len() implies relabeled(p, #[trigger] arcs[m], input) == relabeled(q, arcs[m], input) by {
        lemma_relabeled_stable(p, q, arcs[m], input);
    }
    assert(arcs.map_values(|a: Arc<W>| relabeled(p, a, input)) =~= arcs.map_values(|a: Arc<W>| relabeled(q, a, input)));
}

/// Per-state reachable-label intervals, and the map from labels to the
/// internal indices those intervals are expressed in.
#[derive(Clone, Debug, PartialEq, Eq)]
pub struct LabelReachableData {
    pub reach_input: bool,
    pub final_label: Label,
    pub label2index: Vec<(Label, Label)>,
    pub interval_sets: Vec<IntervalSet>,
}

impl LabelReachableData {
    pub open spec fn wf(&self) -> bool {
        &&& keys_unique(self.label2index@)
        &&& forall|s: int| 0 <= s < self.interval_sets@.len() ==> (#[trigger] self.interval_sets@[s]).wf()
        &&& forall|s: int| 0 <= s < self.interval_sets@.len() ==> !covers(#[trigger] self.interval_sets@[s].intervals@, EPS_LABEL as int)
    }

    pub fn new(reach_input: bool) -> (r: Self)
        ensures
            r.wf(),
            r.reach_input == reach_input,
            r.final_label == NO_LABEL,
            r.label2index@.len() == 0,
            r.interval_sets@.len() == 0,
    {
        LabelReachableData {
            reach_input,
            final_label: NO_LABEL,
            label2index: Vec::new(),
            interval_sets: Vec::new(),
        }
    }

    /// The interval set of state `s`.
    pub fn interval_set(&self, s: StateId) -> (r: Result<&IntervalSet, FstError>)
        ensures
            s < self.interval_sets@.len() ==> r == Ok::<&IntervalSet, FstError>(&self.interval_sets@[s as int]),
            s >= self.interval_sets@.len() ==> r == Err::<&IntervalSet, FstError>(FstError::InvalidState),
    {
        if s < self.interval_sets.len() {
            Ok(&self.interval_sets[s])
        } else {
            Err(FstError::InvalidState)
        }
    }

    pub fn final_label(&self) -> (r: Label)
        ensures
            r == self.final_label,
    {
        self.final_label
    }

    pub fn label2index(&self) -> (r: &Vec<(Label, Label)>)
        ensures
            r@ == self.label2index@,
    {
        &self.label2index
    }

    pub fn reach_input(&self) -> (r: bool)
        ensures
            r == self.reach_input,
    {
        self.reach_input
    }
}

/// Label reachability over one operand: answers whether a (relabeled) label,
/// or a final state, can be reached from a state.
#[derive(Clone, Debug, PartialEq, Eq)]
pub struct LabelReachable {
    pub data: LabelReachableData,
    pub reach_fst_input: bool,
}

impl LabelReachable {
    pub open spec fn wf(&self) -> bool {
        self.data.wf()
    }

    pub fn new_from_data(data: LabelReachableData) -> (r: Self)
        ensures
            r.data == data,
            !r.reach_fst_input,
    {
        LabelReachable { data, reach_fst_input: false }
    }

    pub fn data(&self) -> (r: &LabelReachableData)
        ensures
            *r == self.data,
    {
        &self.data
    }

    pub fn reach_input(&self) -> (r: bool)
        ensures
            r == self.data.reach_input,
    {
        self.data.reach_input
    }

    /// Computes label reachability on `fst` for its input labels
    /// (`reach_input`) or its output labels.
    pub fn new<W: Semiring>(fst: &VectorFst<W>, reach_input: bool) -> (r: Result<Self, FstError>)
        requires
            fst.wf(),
        ensures
            r matches Ok(lr) ==> {
                &&& lr.wf()
                &&& lr.data.reach_input == reach_input
                &&& !lr.reach_fst_input
                &&& exists|out: VectorFst<W>, l2s: Seq<(Label, StateId)>|
                    is_label_transform(*fst, reach_input, out, l2s) && built_from(out, l2s, fst.states@.len() as int, lr.data)
            },
            !crate::fst::fst_free_of_no_label(*fst, reach_input) ==> r == Err::<LabelReachable, FstError>(FstError::DomainMismatch),
            crate::fst::fst_free_of_no_label(*fst, reach_input) && r is Err ==> r == Err::<LabelReachable, FstError>(FstError::Internal),
            crate::fst::fst_free_of_no_label(*fst, reach_input) && 2 * fst.states@.len() + total_arcs(*fst) + 4 < usize::MAX ==> r is Ok,
    {
        if !crate::fst::check_fst_free_of_no_label(fst, reach_input) {
            return Err(FstError::DomainMismatch);
        }
        let (out, l2s) = match transform_fst(fst, reach_input) {
            Ok(p) => p,
            Err(e) => return Err(e),
        };
        let sr = match StateReachable::new(&out) {
            Ok(sr) => sr,
            Err(e) => return Err(e),
        };
        let ins = fst.states.len();
        let mut data = LabelReachableData::new(reach_input);
        let ghost s2i = sink_indices(out);
        proof {
            assert(sr.state2index@ =~= s2i);
        }
        Self::find_intervals(&out, &l2s, sr, ins, &mut data);
        proof {
            assert(is_label_transform(*fst, reach_input, out, l2s@) && built_from(out, l2s@, ins as int, data));
        }
        Ok(LabelReachable { data, reach_fst_input: false })
    }

    /// Fills `data` from the reachability of the transformed operand: the
    /// interval sets of the first `ins` states, and each label's index.
    fn find_intervals<W: Semiring>(out: &VectorFst<W>, l2s: &Vec<(Label, StateId)>, sr: StateReachable, ins: usize, data: &mut LabelReachableData)
        requires
            old(data).label2index@.len() == 0,
            old(data).final_label == NO_LABEL,
            keys_unique(l2s@),
            ins <= out.states@.len(),
            out.states@.len() < usize::MAX - 2,
            forall|i: int| 0 <= i < l2s@.len() ==> (#[trigger] l2s@[i]).1 < out.states@.len(),
            sr.state2index@ == sink_indices(*out),
            sr.isets@.len() == out.states@.len(),
            forall|u: int| 0 <= u < out.states@.len() ==> (#[trigger] sr.isets@[u]).wf(),
            forall|u: int, i: int| 0 <= u < out.states@.len() ==> (#[trigger] covers(sr.isets@[u].intervals@, i)
                <==> reaches_index(out.states@, sr.state2index@, u, out.states@.len(), i)),
        ensures
            final(data).wf(),
            final(data).reach_input == old(data).reach_input,
            built_from(*out, l2s@, ins as int, *final(data)),
    {
        let StateReachable { state2index, isets } = sr;
        let mut isets = isets;
        let ghost full = isets@;
        isets.truncate(ins);
        data.interval_sets = isets;
        let mut i: usize = 0;
        while i < l2s.len()
            invariant
                0 <= i <= l2s@.len(),
                keys_unique(l2s@),
                forall|j: int| 0 <= j < l2s@.len() ==> (#[trigger] l2s@[j]).1 < out.states@.len(),
                state2index@ == sink_indices(*out),
                data.reach_input == old(data).reach_input,
                data.interval_sets@ == full.subrange(0, ins as int),
                data.label2index@.len() == i,
                forall|j: int| 0 <= j < i ==> #[trigger] data.label2index@[j] == (l2s@[j].0, state2index@[l2s@[j].1 as int]),
                forall|j: int| 0 <= j < i && (#[trigger] l2s@[j]).0 == NO_LABEL ==> data.final_label == state2index@[l2s@[j].1 as int],
                !(exists|j: int| 0 <= j < i && (#[trigger] l2s@[j]).0 == NO_LABEL) ==> data.final_label == NO_LABEL,
            decreases l2s@.len() - i,
        {
            let (label, state) = l2s[i];
            let index = state2index[state];
            data.label2index.push((label, index));
            if label == NO_LABEL {
                data.final_label = index;
                proof {
                    assert forall|j: int| 0 <= j < i + 1 && (#[trigger] l2s@[j]).0 == NO_LABEL implies data.final_label == state2index@[l2s@[j].1 as int] by {
                        if j < i {
                            assert(l2s@[j].0 == l2s@[i as int].0);
                        }
                    }
                }
            }
            i = i + 1;
        }
        proof {
            assert forall|u: int| 0 <= u < data.interval_sets@.len() implies !covers(#[trigger] data.interval_sets@[u].intervals@, EPS_LABEL as int) by {
                assert(data.interval_sets@[u] == full[u]);
                if covers(full[u].intervals@, 0) {
                    let t = choose|t: int| 0 <= t < out.states@.len() && is_sink(#[trigger] out.states@[t]) && state2index@[t] == 0
                        && crate::state_reachable::reaches_within(out.states@, u, t, out.states@.len());
                    lemma_sink_count_le(out.states@, t);
                }
            }
            let p = data.label2index@;
            assert forall|a: int, b: int| 0 <= a < b < p.len() implies (#[trigger] p[a]).0 != (#[trigger] p[b]).0 by {
                assert(p[a].0 == l2s@[a].0);
                assert(p[b].0 == l2s@[b].0);
            }
            if !has_key(l2s@, NO_LABEL) {
                assert(!(exists|j: int| 0 <= j < l2s@.len() && (#[trigger] l2s@[j]).0 == NO_LABEL));
            }
        }
    }

    /// Rewrites the labels on the chosen side of every arc of `fst` to their
    /// indices (see `relabel`), then sorts each state's arcs on that side.
    pub fn relabel_fst<W: Semiring>(&mut self, fst: &mut VectorFst<W>, relabel_input: bool) -> (r: Result<(), FstError>)
        requires
            old(self).wf(),
            old(fst).wf(),
        ensures
            final(self).wf(),
            final(self).reach_fst_input == old(self).reach_fst_input,
            final(self).data.reach_input == old(self).data.reach_input,
            final(self).data.final_label == old(self).data.final_label,
            final(self).data.interval_sets == old(self).data.interval_sets,
            final(self).data.label2index@.len() >= old(self).data.label2index@.len(),
            final(self).data.label2index@.subrange(0, old(self).data.label2index@.len() as int) == old(self).data.label2index@,
            r is Err ==> r == Err::<(), FstError>(FstError::Internal),
            old(self).data.label2index@.len() + total_arcs(*old(fst)) + 2 < usize::MAX ==> r is Ok,
            r is Ok ==> {
                &&& final(fst).wf()
                &&& final(fst).start == old(fst).start
                &&& final(fst).states@.len() == old(fst).states@.len()
                &&& forall|s: int| 0 <= s < old(fst).states@.len() ==> {
                    &&& (#[trigger] final(fst).states@[s]).final_weight == old(fst).states@[s].final_weight
                    &&& sorted_on(final(fst).states@[s].arcs@, relabel_input, 0, final(fst).states@[s].arcs@.len() as int)
                    &&& final(fst).states@[s].arcs@.to_multiset() == old(fst).states@[s].arcs@.map_values(
                        |a: Arc<W>| relabeled(final(self).data.label2index@, a, relabel_input),
                    ).to_multiset()
                }
            },
    {
        let n = fst.states.len();
        let ghost p0 = self.data.label2index@;
        let mut s: usize = 0;
        while s < n
            invariant
                self.wf(),
                fst.wf(),
                n == fst.states@.len(),
                n == old(fst).states@.len(),
                fst.start == old(fst).start,
                0 <= s <= n,
                self.reach_fst_input == old(self).reach_fst_input,
                self.data.reach_input == old(self).data.reach_input,
                self.data.final_label == old(self).data.final_label,
                self.data.interval_sets == old(self).data.interval_sets,
                p0 == old(self).data.label2index@,
                self.data.label2index@.len() >= p0.len(),
                self.data.label2index@.subrange(0, p0.len() as int) == p0,
                self.data.label2index@.len() <= p0.len() + arcs_before(old(fst).states@, s as int),
                forall|t: int| s <= t < n ==> #[trigger] fst.states@[t] == old(fst).states@[t],
                forall|t: int, m: int| 0 <= t < s && 0 <= m < old(fst).states@[t].arcs@.len() ==> side_label(
                    #[trigger] old(fst).states@[t].arcs@[m],
                    relabel_input,
                ) == EPS_LABEL || has_key(self.data.label2index@, side_label(old(fst).states@[t].arcs@[m], relabel_input)),
                forall|t: int| 0 <= t < s ==> {
                    &&& (#[trigger] fst.states@[t]).final_weight == old(fst).states@[t].final_weight
                    &&& sorted_on(fst.states@[t].arcs@, relabel_input, 0, fst.states@[t].arcs@.len() as int)
                    &&& fst.states@[t].arcs@.to_multiset() == old(fst).states@[t].arcs@.map_values(
                        |a: Arc<W>| relabeled(self.data.label2index@, a, relabel_input),
                    ).to_multiset()
                },
            decreases n - s,
        {
            let arcs = &fst.states[s].arcs;
            let ghost src = arcs@;
            let ghost p_start = self.data.label2index@;
            let mut new_arcs: Vec<Arc<W>> = Vec::new();
            let mut k: usize = 0;
            while k < arcs.len()
                invariant
                    self.wf(),
                    0 <= k <= arcs@.len(),
                    arcs@ == src,
                    new_arcs@.len() == k,
                    self.reach_fst_input == old(self).reach_fst_input,
                    self.data.reach_input == old(self).data.reach_input,
                    self.data.final_label == old(self).data.final_label,
                    self.data.interval_sets == old(self).data.interval_sets,
                    self.data.label2index@.len() >= p_start.len(),
                    self.data.label2index@.subrange(0, p_start.len() as int) == p_start,
                    forall|m: int| 0 <= m < k ==> #[trigger] new_arcs@[m] == relabeled(self.data.label2index@, src[m], relabel_input),
                    forall|m: int| 0 <= m < k ==> side_label(#[trigger] src[m], relabel_input) == EPS_LABEL || has_key(
                        self.data.label2index@,
                        side_label(src[m], relabel_input),
                    ),
                    p0 == old(self).data.label2index@,
                    p_start.len() >= p0.len(),
                    p_start.subrange(0, p0.len() as int) == p0,
                    s < n,
                    n == old(fst).states@.len(),
                    src == old(fst).states@[s as int].arcs@,
                    self.data.label2index@.len() <= p0.len() + arcs_before(old(fst).states@, s as int) + k,
                decreases arcs@.len() - k,
            {
                proof {
                    lemma_arcs_before_mono(old(fst).states@, s + 1, n as int);
                    assert(arcs_before(old(fst).states@, s + 1) == arcs_before(old(fst).states@, s as int) + src.len());
                }
                if self.data.label2index.len() >= usize::MAX - 1 {
                    proof {
                        lemma_extends_trans(p0, p_start, self.data.label2index@);
                    }
                    return Err(FstError::Internal);
                }
                let a = &arcs[k];
                let l = crate::fst::label_of(a, relabel_input);
                let ghost p_before = self.data.label2index@;
                let nl = self.relabel(l);
                proof {
                    let p = self.data.label2index@;
                    assert(p.subrange(0, p_before.len() as int) == p_before);
                    assert forall|m: int| 0 <= m < k implies #[trigger] new_arcs@[m] == relabeled(p, src[m], relabel_input) by {
                        lemma_relabeled_stable(p_before, p, src[m], relabel_input);
                    }
                    assert forall|m: int| 0 <= m < k implies side_label(#[trigger] src[m], relabel_input) == EPS_LABEL || has_key(
                        p,
                        side_label(src[m], relabel_input),
                    ) by {
                        if side_label(src[m], relabel_input) != EPS_LABEL {
                            lemma_has_key_grow(p_before, p, side_label(src[m], relabel_input));
                        }
                    }
                    if l != EPS_LABEL {
                        assert(has_key(p, l)) by {
                            if has_key(p_before, l) {
                                lemma_has_key_grow(p_before, p, l);
                            } else {
                                assert(p[p.len() - 1].0 == l);
                            }
                        }
                    }
                    if l != EPS_LABEL {
                        if has_key(p_before, l) {
                            let i = choose|i: int| 0 <= i < p_before.len() && p_before[i] == (l, nl);
                            assert(p[i] == p_before[i]);
                        } else {
                            assert(p[p.len() - 1] == (l, nl));
                        }
                        lemma_index_of(p, l, nl);
                    }
                    assert(p.subrange(0, p_start.len() as int) =~= p_start) by {
                        assert forall|m: int| 0 <= m < p_start.len() implies p[m] == p_start[m] by {
                            assert(p[m] == p_before[m]);
                            assert(p_before[m] == p_start[m]);
                        }
                    }
                }
                let mut b = copy_arc(a);
                if relabel_input {
                    b.ilabel = nl;
                } else {
                    b.olabel = nl;
                }
                new_arcs.push(b);
                k = k + 1;
            }
            let ghost unsorted = new_arcs@;
            proof {
                assert(unsorted =~= src.map_values(|a: Arc<W>| relabeled(self.data.label2index@, a, relabel_input)));
            }
            sort_arcs(&mut new_arcs, relabel_input);
            proof {
                broadcast use vstd::seq_lib::to_multiset_contains;
                assert forall|m: int| 0 <= m < new_arcs@.len() implies (#[trigger] new_arcs@[m]).nextstate < n by {
                    assert(new_arcs@.contains(new_arcs@[m]));
                    assert(unsorted.to_multiset().count(new_arcs@[m]) > 0);
                    assert(unsorted.contains(new_arcs@[m]));
                    let x = choose|x: int| 0 <= x < unsorted.len() && unsorted[x] == new_arcs@[m];
                    assert(src[x].nextstate < n);
                }
            }
            let ghost before_states = fst.states@;
            fst.states[s].arcs = new_arcs;
            proof {
                let p = self.data.label2index@;
                lemma_extends_trans(p0, p_start, p);
                assert forall|t: int, m: int| 0 <= t < s + 1 && 0 <= m < old(fst).states@[t].arcs@.len() implies side_label(
                    #[trigger] old(fst).states@[t].arcs@[m],
                    relabel_input,
                ) == EPS_LABEL || has_key(p, side_label(old(fst).states@[t].arcs@[m], relabel_input)) by {
                    if t < s && side_label(old(fst).states@[t].arcs@[m], relabel_input) != EPS_LABEL {
                        lemma_has_key_grow(p_start, p, side_label(old(fst).states@[t].arcs@[m], relabel_input));
                    }
                }
                assert forall|t: int, m: int|
                    0 <= t < fst.states@.len() && 0 <= m < fst.states@[t].arcs@.len() implies (
                    #[trigger] fst.states@[t].arcs@[m]).nextstate < fst.states@.len() by {
                    if t != s {
                        assert(fst.states@[t] == before_states[t]);
                    }
                }
                assert forall|t: int| 0 <= t < s + 1 implies {
                    &&& (#[trigger] fst.states@[t]).final_weight == old(fst).states@[t].final_weight
                    &&& sorted_on(fst.states@[t].arcs@, relabel_input, 0, fst.states@[t].arcs@.len() as int)
                    &&& fst.states@[t].arcs@.to_multiset() == old(fst).states@[t].arcs@.map_values(
                        |a: Arc<W>| relabeled(p, a, relabel_input),
                    ).to_multiset()
                } by {
                    if t < s {
                        assert(fst.states@[t] == before_states[t]);
                        lemma_relabeled_map_stable(p_start, p, old(fst).states@[t].arcs@, relabel_input);
                    }
                }
            }
            s = s + 1;
        }
        Ok(())
    }

    /// Maps `label` to its internal index; a label not seen before gets the
    /// next fresh index `n + 1`, `n` being the number of labels known.
    pub fn relabel(&mut self, label: Label) -> (r: Label)
        requires
            old(self).wf(),
            old(self).data.label2index@.len() < usize::MAX,
        ensures
            final(self).wf(),
            final(self).reach_fst_input == old(self).reach_fst_input,
            final(self).data.reach_input == old(self).data.reach_input,
            final(self).data.final_label == old(self).data.final_label,
            final(self).data.interval_sets == old(self).data.interval_sets,
            label == EPS_LABEL ==> r == EPS_LABEL && final(self).data.label2index@
                == old(self).data.label2index@,
            label != EPS_LABEL && has_key(old(self).data.label2index@, label) ==> {
                &&& final(self).data.label2index@ == old(self).data.label2index@
                &&& old(self).data.label2index@.contains((label, r))
            },
            label != EPS_LABEL && !has_key(old(self).data.label2index@, label) ==> {
                &&& r == old(self).data.label2index@.len() + 1
                &&& final(self).data.label2index@ == old(self).data.label2index@.push((label, r))
            },
    {
        if label == EPS_LABEL {
            return EPS_LABEL;
        }
        let n = self.data.label2index.len();
        let mut i: usize = 0;
        while i < n
            invariant
                0 <= i <= n,
                n == self.data.label2index@.len(),
                forall|k: int| 0 <= k < i ==> (#[trigger] self.data.label2index@[k]).0 != label,
                *self == *old(self),
                self.wf(),
                label != EPS_LABEL,
            decreases n - i,
        {
            if self.data.label2index[i].0 == label {
                let r = self.data.label2index[i].1;
                assert(self.data.label2index@[i as int] == (label, r));
                return r;
            }
            i = i + 1;
        }
        let r = n + 1;
        self.data.label2index.push((label, r));
        proof {
            let p = self.data.label2index@;
            assert forall|a: int, b: int| 0 <= a < b < p.len() implies (#[trigger] p[a]).0 != (#[trigger] p[b]).0 by {
                if b == n {
                    assert(p[a] == old(self).data.label2index@[a]);
                } else {
                    assert(p[a] == old(self).data.label2index@[a]);
                    assert(p[b] == old(self).data.label2index@[b]);
                }
            }
        }
        r
    }

    /// Relabeling pairs: every known `(label, index)` whose index is not the
    /// final label; with `avoid_collisions`, also `(i, n + 1)` for each
    /// `i` in `1..=n` that is unmapped or mapped to the final label.
    pub fn relabel_pairs(&self, avoid_collisions: bool) -> (r: Vec<(Label, Label)>)
        requires
            self.wf(),
            self.data.label2index@.len() < usize::MAX,
        ensures
            avoid_collisions ==> r@ == non_final_pairs(self.data.label2index@, self.data.final_label)
                + collision_pairs(
                self.data.label2index@,
                self.data.final_label,
                1,
                self.data.label2index@.len() as int,
                (self.data.label2index@.len() + 1) as Label,
            ),
            !avoid_collisions ==> r@ == non_final_pairs(
                self.data.label2index@,
                self.data.final_label,
            ),
    {
        let pairs = &self.data.label2index;
        let final_label = self.data.final_label;
        let n = pairs.len();
        let mut out: Vec<(Label, Label)> = Vec::new();
        let mut i: usize = 0;
        while i < n
            invariant
                0 <= i <= n,
                n == pairs@.len(),
                out@ == non_final_pairs(pairs@.subrange(0, i as int), final_label),
            decreases n - i,
        {
            let e = pairs[i];
            proof {
                let pre = pairs@.subrange(0, i as int);
                assert(pairs@.subrange(0, i + 1) == pre.push(e));
                assert(pre.push(e).drop_last() == pre);
                assert(pre.push(e).last() == e);
                reveal(Seq::filter);
            }
            if e.1 != final_label {
                out.push(e);
            }
            i = i + 1;
        }
        assert(pairs@.subrange(0, n as int) == pairs@);
        if avoid_collisions {
            let ghost base = out@;
            let mut k: usize = 1;
            while k <= n
                invariant
                    1 <= k <= n + 1,
                    n == pairs@.len(),
                    n < usize::MAX,
                    out@ == base + collision_pairs(pairs@, final_label, 1, k - 1, (n + 1) as Label),
                decreases n + 1 - k,
            {
                let mut found = false;
                let mut is_final = false;
                let mut m: usize = 0;
                while m < n
                    invariant
                        0 <= m <= n,
                        n == pairs@.len(),
                        found == exists|x: int| 0 <= x < m && (#[trigger] pairs@[x]).0 == k,
                        is_final == exists|x: int| 0 <= x < m && #[trigger] pairs@[x] == (k, final_label),
                    decreases n - m,
                {
                    if pairs[m].0 == k {
                        found = true;
                        if pairs[m].1 == final_label {
                            is_final = true;
                        }
                    }
                    m = m + 1;
                }
                proof {
                    if is_final {
                        let x = choose|x: int| 0 <= x < n && #[trigger] pairs@[x] == (k, final_label);
                        assert(pairs@.contains((k, final_label)));
                    }
                    if pairs@.contains((k, final_label)) {
                        let x = choose|x: int| 0 <= x < n && pairs@[x] == (k, final_label);
                        assert(pairs@[x] == (k, final_label));
                    }
                }
                if !found || is_final {
                    out.push((k, n + 1));
                }
                proof {
                    assert(out@ == base + collision_pairs(pairs@, final_label, 1, k as int, (n + 1) as Label));
                }
                k = k + 1;
            }
        }
        out
    }

    /// Records the side `fst` will be queried on, and checks that `fst` is
    /// sorted on it (input labels when `reach_input`).
    pub fn reach_init<W>(&mut self, fst: &VectorFst<W>, reach_input: bool) -> (r: Result<(), FstError>)
        ensures
            final(self).reach_fst_input == reach_input,
            final(self).data == old(self).data,
            r is Ok <==> crate::fst::fst_sorted_on(*fst, reach_input),
            r is Err ==> r == Err::<(), FstError>(FstError::DomainMismatch),
    {
        self.reach_fst_input = reach_input;
        if !fst.is_sorted_on(reach_input) {
            return Err(FstError::DomainMismatch);
        }
        Ok(())
    }

    /// Can the (relabeled) `label` be reached from `current_state`?
    pub fn reach_label(&self, current_state: StateId, label: Label) -> (r: Result<bool, FstError>)
        requires
            self.wf(),
        ensures
            label == EPS_LABEL ==> r == Ok::<bool, FstError>(false),
            label != EPS_LABEL && current_state >= self.data.interval_sets@.len() ==> r == Err::<
                bool,
                FstError,
            >(FstError::InvalidState),
            label != EPS_LABEL && current_state < self.data.interval_sets@.len() ==> r == Ok::<
                bool,
                FstError,
            >(covers(self.data.interval_sets@[current_state as int].intervals@, label as int)),
    {
        if label == EPS_LABEL {
            return Ok(false);
        }
        let iset = self.data.interval_set(current_state)?;
        Ok(iset.member(label))
    }

    /// Can a final state be reached from `current_state`?
    pub fn reach_final(&self, current_state: StateId) -> (r: Result<bool, FstError>)
        requires
            self.wf(),
        ensures
            current_state >= self.data.interval_sets@.len() ==> r == Err::<bool, FstError>(
                FstError::InvalidState,
            ),
            current_state < self.data.interval_sets@.len() ==> r == Ok::<bool, FstError>(
                covers(
                    self.data.interval_sets@[current_state as int].intervals@,
                    self.data.final_label as int,
                ),
            ),
    {
        let iset = self.data.interval_set(current_state)?;
        Ok(iset.member(self.data.final_label))
    }

    /// Among `arcs[aiter_begin..aiter_end]`, sorted on the side label, finds
    /// the arcs whose label is reachable from `current_state`: the position
    /// of the first, one past the last, and (with `compute_weight`) the
    /// `plus`-sum of their weights. Scans the arcs when they are fewer than
    /// half the intervals, else scans the intervals with binary search.
    pub fn reach<W: Semiring>(
        &self,
        current_state: StateId,
        arcs: &[Arc<W>],
        aiter_begin: usize,
        aiter_end: usize,
        compute_weight: bool,
    ) -> (r: Result<Option<(usize, usize, W)>, FstError>)
        requires
            self.wf(),
            aiter_begin <= aiter_end <= arcs@.len(),
            sorted_on(arcs@, self.reach_fst_input, aiter_begin as int, aiter_end as int),
            forall|k: int|
                aiter_begin <= k < aiter_end ==> side_label(#[trigger] arcs@[k], self.reach_fst_input)
                    != NO_LABEL,
        ensures
            current_state >= self.data.interval_sets@.len() ==> r is Err && r == Err::<
                Option<(usize, usize, W)>,
                FstError,
            >(FstError::InvalidState),
            current_state < self.data.interval_sets@.len() ==> ({
                let iset = self.data.interval_sets@[current_state as int].intervals@;
                let input = self.reach_fst_input;
                &&& r is Ok
                &&& (r->Ok_0 is None <==> forall|k: int| aiter_begin <= k < aiter_end ==> !reach_selects(iset, side_label(#[trigger] arcs@[k], input)))
                &&& (r->Ok_0 matches Some((b, e, w)) ==> {
                    &&& aiter_begin <= b < e <= aiter_end
                    &&& reach_selects(iset, side_label(arcs@[b as int], input))
                    &&& reach_selects(iset, side_label(arcs@[e - 1], input))
                    &&& forall|k: int| aiter_begin <= k < b ==> !reach_selects(iset, side_label(#[trigger] arcs@[k], input))
                    &&& forall|k: int| e <= k < aiter_end ==> !reach_selects(iset, side_label(#[trigger] arcs@[k], input))
                    &&& w == (if compute_weight {
                        reach_sum(arcs@, input, iset, aiter_begin as int, aiter_end as int)
                    } else {
                        W::zero_spec()
                    })
                })
            }),
    {
        let interval_set = self.data.interval_set(current_state)?;
        let ghost iset = interval_set.intervals@;
        let ghost input = self.reach_fst_input;
        let mut reach_begin: usize = UNASSIGNED;
        let mut reach_end: usize = UNASSIGNED;
        let mut reach_weight = W::zero();
        let scan = ((aiter_end - aiter_begin) as u128) * 2 < interval_set.len() as u128;
        if scan {
            let mut last_label: Label = NO_LABEL;
            let mut pos: usize = aiter_begin;
            while pos < aiter_end
                invariant
                    self.wf(),
                    current_state < self.data.interval_sets@.len(),
                    iset == self.data.interval_sets@[current_state as int].intervals@,
                    iset == interval_set.intervals@,
                    sorted_disjoint(iset),
                    input == self.reach_fst_input,
                    scan,
                    aiter_begin <= pos <= aiter_end <= arcs@.len(),
                    forall|k: int|
                        aiter_begin <= k < aiter_end ==> side_label(#[trigger] arcs@[k], input) != NO_LABEL,
                    last_label == NO_LABEL || reach_selects(iset, last_label),
                    reach_begin == UNASSIGNED ==> forall|k: int|
                        aiter_begin <= k < pos ==> !reach_selects(iset, side_label(#[trigger] arcs@[k], input)),
                    reach_begin != UNASSIGNED ==> {
                        &&& aiter_begin <= reach_begin < reach_end <= pos
                        &&& reach_selects(iset, side_label(arcs@[reach_begin as int], input))
                        &&& reach_selects(iset, side_label(arcs@[reach_end - 1], input))
                        &&& forall|k: int|
                            aiter_begin <= k < reach_begin ==> !reach_selects(iset, side_label(#[trigger] arcs@[k], input))
                        &&& forall|k: int|
                            reach_end <= k < pos ==> !reach_selects(iset, side_label(#[trigger] arcs@[k], input))
                    },
                    reach_weight == (if compute_weight {
                        reach_sum(arcs@, input, iset, aiter_begin as int, pos as int)
                    } else {
                        W::zero_spec()
                    }),
                decreases aiter_end - pos,
            {
                let arc = &arcs[pos];
                let label = if self.reach_fst_input {
                    arc.ilabel
                } else {
                    arc.olabel
                };
                assert(side_label(arcs@[pos as int], input) != NO_LABEL);
                let hit = if label == last_label {
                    true
                } else if label == EPS_LABEL {
                    false
                } else {
                    interval_set.member(label)
                };
                if hit {
                    last_label = label;
                    if reach_begin == UNASSIGNED {
                        reach_begin = pos;
                    }
                    reach_end = pos + 1;
                    if compute_weight {
                        reach_weight = reach_weight.plus(&arc.weight);
                    }
                }
                pos = pos + 1;
            }
        } else {
            let mut end_low: usize = aiter_begin;
            let n = interval_set.len();
            let mut t: usize = 0;
            while t < n
                invariant
                    self.wf(),
                    current_state < self.data.interval_sets@.len(),
                    iset == self.data.interval_sets@[current_state as int].intervals@,
                    iset == interval_set.intervals@,
                    sorted_disjoint(iset),
                    n == iset.len(),
                    input == self.reach_fst_input,
                    !scan,
                    !covers(iset, EPS_LABEL as int),
                    0 <= t <= n,
                    aiter_begin <= end_low <= aiter_end <= arcs@.len(),
                    sorted_on(arcs@, input, aiter_begin as int, aiter_end as int),
                    forall|k: int|
                        aiter_begin <= k < aiter_end ==> side_label(#[trigger] arcs@[k], input) != NO_LABEL,
                    t > 0 ==> forall|k: int|
                        end_low <= k < aiter_end ==> iset[t - 1].end <= side_label(#[trigger] arcs@[k], input),
                    reach_begin == UNASSIGNED ==> forall|k: int|
                        aiter_begin <= k < end_low ==> !reach_selects(iset, side_label(#[trigger] arcs@[k], input)),
                    reach_begin != UNASSIGNED ==> {
                        &&& aiter_begin <= reach_begin < reach_end <= end_low
                        &&& reach_selects(iset, side_label(arcs@[reach_begin as int], input))
                        &&& reach_selects(iset, side_label(arcs@[reach_end - 1], input))
                        &&& forall|k: int|
                            aiter_begin <= k < reach_begin ==> !reach_selects(iset, side_label(#[trigger] arcs@[k], input))
                        &&& forall|k: int|
                            reach_end <= k < end_low ==> !reach_selects(iset, side_label(#[trigger] arcs@[k], input))
                    },
                    reach_weight == (if compute_weight {
                        reach_sum(arcs@, input, iset, aiter_begin as int, end_low as int)
                    } else {
                        W::zero_spec()
                    }),
                decreases n - t,
            {
                let interval = interval_set.intervals[t];
                let ghost prev_end = end_low;
                let begin_low = self.lower_bound(arcs, end_low, aiter_end, interval.begin);
                end_low = self.lower_bound(arcs, begin_low, aiter_end, interval.end);
                proof {
                    assert forall|k: int| prev_end <= k < begin_low implies !reach_selects(iset, side_label(#[trigger] arcs@[k], input)) by {
                        lemma_not_covered_between(iset, t as int, side_label(arcs@[k], input) as int);
                    }
                    assert forall|k: int| begin_low <= k < end_low implies reach_selects(iset, side_label(#[trigger] arcs@[k], input)) by {
                        assert(iset[t as int].contains(side_label(arcs@[k], input) as int));
                    }
                    lemma_reach_sum_skip(arcs@, input, iset, aiter_begin as int, prev_end as int, begin_low as int);
                }
                if end_low > begin_low {
                    if reach_begin == UNASSIGNED {
                        reach_begin = begin_low;
                    }
                    reach_end = end_low;
                    if compute_weight {
                        let mut i: usize = begin_low;
                        while i < end_low
                            invariant
                                begin_low <= i <= end_low <= aiter_end <= arcs@.len(),
                                forall|k: int| begin_low <= k < end_low ==> reach_selects(iset, side_label(#[trigger] arcs@[k], input)),
                                reach_weight == reach_sum(arcs@, input, iset, aiter_begin as int, i as int),
                                aiter_begin <= begin_low,
                            decreases end_low - i,
                        {
                            reach_weight = reach_weight.plus(&arcs[i].weight);
                            i = i + 1;
                        }
                    }
                }
                t = t + 1;
            }
            proof {
                assert forall|k: int| end_low <= k < aiter_end implies !reach_selects(iset, side_label(#[trigger] arcs@[k], input)) by {
                    lemma_not_covered_between(iset, n as int, side_label(arcs@[k], input) as int);
                }
                lemma_reach_sum_skip(arcs@, input, iset, aiter_begin as int, end_low as int, aiter_end as int);
            }
        }
        if reach_begin != UNASSIGNED {
            Ok(Some((reach_begin, reach_end, reach_weight)))
        } else {
            Ok(None)
        }
    }

    /// The first position of `arcs[aiter_begin..aiter_end]` whose side label
    /// is not below `match_label`, by binary search.
    fn lower_bound<W>(&self, arcs: &[Arc<W>], aiter_begin: usize, aiter_end: usize, match_label: Label) -> (r: usize)
        requires
            aiter_begin <= aiter_end <= arcs@.len(),
            sorted_on(arcs@, self.reach_fst_input, aiter_begin as int, aiter_end as int),
        ensures
            aiter_begin <= r <= aiter_end,
            forall|k: int| aiter_begin <= k < r ==> side_label(#[trigger] arcs@[k], self.reach_fst_input) < match_label,
            forall|k: int| r <= k < aiter_end ==> match_label <= side_label(#[trigger] arcs@[k], self.reach_fst_input),
    {
        let mut low = aiter_begin;
        let mut high = aiter_end;
        while low < high
            invariant
                aiter_begin <= low <= high <= aiter_end <= arcs@.len(),
                sorted_on(arcs@, self.reach_fst_input, aiter_begin as int, aiter_end as int),
                forall|k: int| aiter_begin <= k < low ==> side_label(#[trigger] arcs@[k], self.reach_fst_input) < match_label,
                forall|k: int| high <= k < aiter_end ==> match_label <= side_label(#[trigger] arcs@[k], self.reach_fst_input),
            decreases high - low,
        {
            let mid = low + (high - low) / 2;
            let arc = &arcs[mid];
            let label = if self.reach_fst_input {
                arc.ilabel
            } else {
                arc.olabel
            };
            if label < match_label {
                proof {
                    assert forall|k: int| aiter_begin <= k < mid + 1 implies side_label(#[trigger] arcs@[k], self.reach_fst_input) < match_label by {
                        assert(side_label(arcs@[k], self.reach_fst_input) <= side_label(arcs@[mid as int], self.reach_fst_input));
                    }
                }
                low = mid + 1;
            } else {
                proof {
                    assert forall|k: int| mid <= k < aiter_end implies match_label <= side_label(#[trigger] arcs@[k], self.reach_fst_input) by {
                        assert(side_label(arcs@[mid as int], self.reach_fst_input) <= side_label(arcs@[k], self.reach_fst_input));
                    }
                }
                high = mid;
            }
        }
        low
    }
}

} // verus!

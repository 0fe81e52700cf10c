use vstd::prelude::*;
use crate::arc::{Arc, StateId, EPS_LABEL};
use crate::error::FstError;

verus! {

/// One state of a [`VectorFst`]: its outgoing arcs, in order, and its final
/// weight if it is final.
#[derive(Clone, Debug, PartialEq, Eq)]
pub struct FstState<W> {
    pub arcs: Vec<Arc<W>>,
    pub final_weight: Option<W>,
}

/// A mutable transducer stored as a vector of states.
#[derive(Clone, Debug, PartialEq, Eq)]
pub struct VectorFst<W> {
    pub states: Vec<FstState<W>>,
    pub start: Option<StateId>,
}

/// The number of arcs of `arcs` whose output label is `EPS_LABEL`.
pub open spec fn count_output_eps<W>(arcs: Seq<Arc<W>>) -> nat
    decreases arcs.len(),
{
    if arcs.len() == 0 {
        0
    } else {
        count_output_eps(arcs.drop_last()) + (if arcs.last().olabel == EPS_LABEL {
            1nat
        } else {
            0nat
        })
    }
}

/// No more epsilon-output arcs than arcs.
pub proof fn lemma_count_output_eps_le<W>(arcs: Seq<Arc<W>>)
    ensures
        count_output_eps(arcs) <= arcs.len(),
    decreases arcs.len(),
{
    if arcs.len() > 0 {
        lemma_count_output_eps_le(arcs.drop_last());
    }
}

/// The number of arcs of `arcs` whose input label is `EPS_LABEL`.
pub open spec fn count_input_eps<W>(arcs: Seq<Arc<W>>) -> nat
    decreases arcs.len(),
{
    if arcs.len() == 0 {
        0
    } else {
        count_input_eps(arcs.drop_last()) + (if arcs.last().ilabel == EPS_LABEL {
            1nat
        } else {
            0nat
        })
    }
}

impl<W> VectorFst<W> {
    /// The start state, if any, is a state, and every arc leads to a state.
    pub open spec fn wf(&self) -> bool {
        &&& (self.start matches Some(s) ==> s < self.states@.len())
        &&& forall|s: int, k: int|
            0 <= s < self.states@.len() && 0 <= k < self.states@[s].arcs@.len() ==> (
            #[trigger] self.states@[s].arcs@[k]).nextstate < self.states@.len()
    }

    pub open spec fn arcs_of(&self, s: int) -> Seq<Arc<W>> {
        self.states@[s].arcs@
    }

    /// An empty transducer: no state, no start.
    pub fn new() -> (r: Self)
        ensures
            r.wf(),
            r.states@.len() == 0,
            r.start is None,
    {
        VectorFst { states: Vec::new(), start: None }
    }

    pub fn num_states(&self) -> (r: usize)
        ensures
            r == self.states@.len(),
    {
        self.states.len()
    }

    pub fn start(&self) -> (r: Option<StateId>)
        ensures
            r == self.start,
    {
        self.start
    }

    /// Adds a state with no arcs, not final, and returns its id.
    pub fn add_state(&mut self) -> (r: StateId)
        requires
            old(self).wf(),
        ensures
            final(self).wf(),
            r == old(self).states@.len(),
            final(self).start == old(self).start,
            final(self).states@ == old(self).states@.push(FstState { arcs: final(self).states@[r as int].arcs, final_weight: None }),
            final(self).states@[r as int].arcs@.len() == 0,
    {
        let r = self.states.len();
        self.states.push(FstState { arcs: Vec::new(), final_weight: None });
        proof {
            assert forall|s: int, k: int|
                0 <= s < self.states@.len() && 0 <= k < self.states@[s].arcs@.len() implies (
                #[trigger] self.states@[s].arcs@[k]).nextstate < self.states@.len() by {
                assert(self.states@[s] == old(self).states@[s]);
            }
        }
        r
    }

    pub fn set_start(&mut self, s: StateId) -> (r: Result<(), FstError>)
        requires
            old(self).wf(),
        ensures
            final(self).wf(),
            s < old(self).states@.len() ==> r is Ok && *final(self) == (VectorFst { start: Some(s), ..*old(self) }),
            s >= old(self).states@.len() ==> r == Err::<(), FstError>(FstError::InvalidState) && *final(self) == *old(self),
    {
        if s >= self.states.len() {
            return Err(FstError::InvalidState);
        }
        self.start = Some(s);
        Ok(())
    }

    pub fn num_arcs(&self, s: StateId) -> (r: Result<usize, FstError>)
        ensures
            s < self.states@.len() ==> r == Ok::<usize, FstError>(self.states@[s as int].arcs@.len() as usize),
            s >= self.states@.len() ==> r == Err::<usize, FstError>(FstError::InvalidState),
    {
        if s >= self.states.len() {
            return Err(FstError::InvalidState);
        }
        Ok(self.states[s].arcs.len())
    }

    /// The arcs leaving `s`, in order.
    pub fn arcs(&self, s: StateId) -> (r: Result<&[Arc<W>], FstError>)
        ensures
            s < self.states@.len() ==> r is Ok && r->Ok_0@ == self.states@[s as int].arcs@,
            s >= self.states@.len() ==> r is Err && r == Err::<&[Arc<W>], FstError>(FstError::InvalidState),
    {
        if s >= self.states.len() {
            return Err(FstError::InvalidState);
        }
        Ok(self.states[s].arcs.as_slice())
    }

    pub fn final_weight(&self, s: StateId) -> (r: Result<Option<&W>, FstError>)
        ensures
            s < self.states@.len() ==> r is Ok && r->Ok_0 == match self.states@[s as int].final_weight {
                Some(w) => Some(&w),
                None => None::<&W>,
            },
            s >= self.states@.len() ==> r is Err && r == Err::<Option<&W>, FstError>(FstError::InvalidState),
    {
        if s >= self.states.len() {
            return Err(FstError::InvalidState);
        }
        match &self.states[s].final_weight {
            Some(w) => Ok(Some(w)),
            None => Ok(None),
        }
    }

    pub fn is_final(&self, s: StateId) -> (r: Result<bool, FstError>)
        ensures
            s < self.states@.len() ==> r == Ok::<bool, FstError>(self.states@[s as int].final_weight is Some),
            s >= self.states@.len() ==> r == Err::<bool, FstError>(FstError::InvalidState),
    {
        if s >= self.states.len() {
            return Err(FstError::InvalidState);
        }
        Ok(self.states[s].final_weight.is_some())
    }

    /// Makes `s` final with weight `w`.
    pub fn set_final(&mut self, s: StateId, w: W) -> (r: Result<(), FstError>)
        requires
            old(self).wf(),
        ensures
            final(self).wf(),
            final(self).start == old(self).start,
            s < old(self).states@.len() ==> r is Ok && final(self).states@ == old(self).states@.update(
                s as int,
                FstState { final_weight: Some(w), ..old(self).states@[s as int] },
            ),
            s >= old(self).states@.len() ==> r == Err::<(), FstError>(FstError::InvalidState) && *final(self) == *old(self),
    {
        if s >= self.states.len() {
            return Err(FstError::InvalidState);
        }
        self.states[s].final_weight = Some(w);
        proof {
            assert forall|t: int, k: int|
                0 <= t < self.states@.len() && 0 <= k < self.states@[t].arcs@.len() implies (
                #[trigger] self.states@[t].arcs@[k]).nextstate < self.states@.len() by {
                assert(self.states@[t].arcs@ == old(self).states@[t].arcs@);
            }
        }
        Ok(())
    }

    /// Makes `s` non-final.
    pub fn delete_final_weight(&mut self, s: StateId) -> (r: Result<(), FstError>)
        requires
            old(self).wf(),
        ensures
            final(self).wf(),
            final(self).start == old(self).start,
            s < old(self).states@.len() ==> r is Ok && final(self).states@ == old(self).states@.update(
                s as int,
                FstState { final_weight: None, ..old(self).states@[s as int] },
            ),
            s >= old(self).states@.len() ==> r == Err::<(), FstError>(FstError::InvalidState) && *final(self) == *old(self),
    {
        if s >= self.states.len() {
            return Err(FstError::InvalidState);
        }
        self.states[s].final_weight = None;
        proof {
            assert forall|t: int, k: int|
                0 <= t < self.states@.len() && 0 <= k < self.states@[t].arcs@.len() implies (
                #[trigger] self.states@[t].arcs@[k]).nextstate < self.states@.len() by {
                assert(self.states@[t].arcs@ == old(self).states@[t].arcs@);
            }
        }
        Ok(())
    }

    /// Appends `arc` to the arcs of `s`.
    pub fn add_arc(&mut self, s: StateId, arc: Arc<W>) -> (r: Result<(), FstError>)
        requires
            old(self).wf(),
        ensures
            final(self).wf(),
            final(self).start == old(self).start,
            s < old(self).states@.len() && arc.nextstate < old(self).states@.len() ==> r is Ok
                && final(self).states@.len() == old(self).states@.len()
                && (forall|t: int| 0 <= t < old(self).states@.len() && t != s ==> #[trigger] final(self).states@[t] == old(self).states@[t])
                && final(self).states@[s as int].final_weight == old(self).states@[s as int].final_weight
                && final(self).states@[s as int].arcs@ == old(self).states@[s as int].arcs@.push(arc),
            !(s < old(self).states@.len() && arc.nextstate < old(self).states@.len()) ==> r == Err::<(), FstError>(FstError::InvalidState) && *final(self) == *old(self),
    {
        if s >= self.states.len() || arc.nextstate >= self.states.len() {
            return Err(FstError::InvalidState);
        }
        self.states[s].arcs.push(arc);
        proof {
            assert forall|t: int, k: int|
                0 <= t < self.states@.len() && 0 <= k < self.states@[t].arcs@.len() implies (
                #[trigger] self.states@[t].arcs@[k]).nextstate < self.states@.len() by {
                if t != s {
                    assert(self.states@[t] == old(self).states@[t]);
                } else if k < old(self).states@[t].arcs@.len() {
                    assert(self.states@[t].arcs@[k] == old(self).states@[t].arcs@[k]);
                }
            }
        }
        Ok(())
    }

    /// The number of arcs of `s` whose output label is `EPS_LABEL`.
    pub fn num_output_epsilons(&self, s: StateId) -> (r: Result<usize, FstError>)
        ensures
            s < self.states@.len() ==> r == Ok::<usize, FstError>(count_output_eps(self.states@[s as int].arcs@) as usize),
            s >= self.states@.len() ==> r == Err::<usize, FstError>(FstError::InvalidState),
    {
        if s >= self.states.len() {
            return Err(FstError::InvalidState);
        }
        let arcs = &self.states[s].arcs;
        let mut count: usize = 0;
        let mut i: usize = 0;
        while i < arcs.len()
            invariant
                0 <= i <= arcs@.len(),
                count == count_output_eps(arcs@.subrange(0, i as int)),
                count <= i,
            decreases arcs@.len() - i,
        {
            assert(arcs@.subrange(0, i + 1).drop_last() == arcs@.subrange(0, i as int));
            if arcs[i].olabel == EPS_LABEL {
                count = count + 1;
            }
            i = i + 1;
        }
        assert(arcs@.subrange(0, i as int) == arcs@);
        Ok(count)
    }

    /// The number of arcs of `s` whose input label is `EPS_LABEL`.
    pub fn num_input_epsilons(&self, s: StateId) -> (r: Result<usize, FstError>)
        ensures
            s < self.states@.len() ==> r == Ok::<usize, FstError>(count_input_eps(self.states@[s as int].arcs@) as usize),
            s >= self.states@.len() ==> r == Err::<usize, FstError>(FstError::InvalidState),
    {
        if s >= self.states.len() {
            return Err(FstError::InvalidState);
        }
        let arcs = &self.states[s].arcs;
        let mut count: usize = 0;
        let mut i: usize = 0;
        while i < arcs.len()
            invariant
                0 <= i <= arcs@.len(),
                count == count_input_eps(arcs@.subrange(0, i as int)),
                count <= i,
            decreases arcs@.len() - i,
        {
            assert(arcs@.subrange(0, i + 1).drop_last() == arcs@.subrange(0, i as int));
            if arcs[i].ilabel == EPS_LABEL {
                count = count + 1;
            }
            i = i + 1;
        }
        assert(arcs@.subrange(0, i as int) == arcs@);
        Ok(count)
    }
}

} // verus!

verus! {

/// Every state's arcs are sorted on the input (`input`) or output label.
pub open spec fn fst_sorted_on<W>(f: VectorFst<W>, input: bool) -> bool {
    forall|s: int| 0 <= s < f.states@.len() ==> #[trigger] crate::label_reachable::sorted_on(f.states@[s].arcs@, input, 0, f.states@[s].arcs@.len() as int)
}

impl<W> VectorFst<W> {
    /// Whether every state's arcs are sorted on the chosen label.
    pub fn is_sorted_on(&self, input: bool) -> (r: bool)
        ensures
            r == fst_sorted_on(*self, input),
    {
        let mut s: usize = 0;
        while s < self.states.len()
            invariant
                0 <= s <= self.states@.len(),
                forall|t: int| 0 <= t < s ==> #[trigger] crate::label_reachable::sorted_on(self.states@[t].arcs@, input, 0, self.states@[t].arcs@.len() as int),
            decreases self.states@.len() - s,
        {
            let arcs = &self.states[s].arcs;
            let mut k: usize = 1;
            while k < arcs.len()
                invariant
                    1 <= k,
                    k <= arcs@.len() || arcs@.len() == 0,
                    *arcs == self.states@[s as int].arcs,
                    s < self.states@.len(),
                    crate::label_reachable::sorted_on(arcs@, input, 0, if k <= arcs@.len() { k as int } else { arcs@.len() as int }),
                decreases arcs@.len() - k,
            {
                let prev = if input {
                    arcs[k - 1].ilabel
                } else {
                    arcs[k - 1].olabel
                };
                let cur = if input {
                    arcs[k].ilabel
                } else {
                    arcs[k].olabel
                };
                if prev > cur {
                    assert(!crate::label_reachable::sorted_on(arcs@, input, 0, arcs@.len() as int)) by {
                        assert(crate::label_reachable::side_label(arcs@[k - 1], input) > crate::label_reachable::side_label(arcs@[k as int], input));
                    }
                    assert(!crate::label_reachable::sorted_on(self.states@[s as int].arcs@, input, 0, self.states@[s as int].arcs@.len() as int));
                    return false;
                }
                proof {
                    assert forall|i: int, j: int| 0 <= i <= j < k + 1 implies crate::label_reachable::side_label(#[trigger] arcs@[i], input)
                        <= crate::label_reachable::side_label(#[trigger] arcs@[j], input) by {
                        if j == k && i < k {
                            assert(crate::label_reachable::side_label(arcs@[i], input) <= crate::label_reachable::side_label(arcs@[k - 1], input));
                        }
                    }
                }
                k = k + 1;
            }
            s = s + 1;
        }
        true
    }
}

/// No arc of `arcs` carries `NO_LABEL` on the chosen side.
pub open spec fn free_of_no_label<W>(arcs: Seq<Arc<W>>, input: bool) -> bool {
    forall|k: int| 0 <= k < arcs.len() ==> crate::label_reachable::side_label(#[trigger] arcs[k], input) != crate::arc::NO_LABEL
}

/// Whether no arc of `arcs` carries `NO_LABEL` on the chosen side.
pub fn check_free_of_no_label<W>(arcs: &[Arc<W>], input: bool) -> (r: bool)
    ensures
        r == free_of_no_label(arcs@, input),
{
    let mut k: usize = 0;
    while k < arcs.len()
        invariant
            0 <= k <= arcs@.len(),
            forall|j: int| 0 <= j < k ==> crate::label_reachable::side_label(#[trigger] arcs@[j], input) != crate::arc::NO_LABEL,
        decreases arcs@.len() - k,
    {
        let l = if input {
            arcs[k].ilabel
        } else {
            arcs[k].olabel
        };
        if l == crate::arc::NO_LABEL {
            assert(crate::label_reachable::side_label(arcs@[k as int], input) == crate::arc::NO_LABEL);
            return false;
        }
        k = k + 1;
    }
    true
}

} // verus!

verus! {

/// An equal copy of `a`.
pub fn copy_arc<W: crate::semiring::Semiring>(a: &Arc<W>) -> (r: Arc<W>)
    ensures
        r == *a,
{
    Arc { ilabel: a.ilabel, olabel: a.olabel, weight: a.weight.duplicate(), nextstate: a.nextstate }
}

/// An equal copy of `arcs`.
pub fn copy_arcs<W: crate::semiring::Semiring>(arcs: &[Arc<W>]) -> (r: Vec<Arc<W>>)
    ensures
        r@ == arcs@,
{
    let mut out: Vec<Arc<W>> = Vec::new();
    let mut k: usize = 0;
    while k < arcs.len()
        invariant
            0 <= k <= arcs@.len(),
            out@ == arcs@.subrange(0, k as int),
        decreases arcs@.len() - k,
    {
        out.push(copy_arc(&arcs[k]));
        proof {
            assert(arcs@.subrange(0, k + 1) =~= arcs@.subrange(0, k as int).push(arcs@[k as int]));
        }
        k = k + 1;
    }
    proof {
        assert(arcs@.subrange(0, k as int) =~= arcs@);
    }
    out
}

/// Sorts `arcs` on the chosen label.
pub fn sort_arcs<W: crate::semiring::Semiring>(arcs: &mut Vec<Arc<W>>, input: bool)
    ensures
        final(arcs)@.len() == old(arcs)@.len(),
        crate::label_reachable::sorted_on(final(arcs)@, input, 0, final(arcs)@.len() as int),
        final(arcs)@.to_multiset() == old(arcs)@.to_multiset(),
{
    broadcast use {vstd::seq_lib::to_multiset_update, vstd::multiset::group_multiset_axioms};

    let n = arcs.len();
    let mut i: usize = 1;
    while i < n
        invariant
            n == arcs@.len(),
            1 <= i || n == 0,
            i <= n || n == 0,
            arcs@.to_multiset() == old(arcs)@.to_multiset(),
            crate::label_reachable::sorted_on(arcs@, input, 0, if i <= n { i as int } else { n as int }),
        decreases n - i,
    {
        let mut j: usize = i;
        while j > 0 && label_of(&arcs[j - 1], input) > label_of(&arcs[j], input)
            invariant
                n == arcs@.len(),
                0 <= j <= i < n,
                arcs@.to_multiset() == old(arcs)@.to_multiset(),
                forall|a: int, b: int|
                    0 <= a <= b <= i && a != j && b != j ==> crate::label_reachable::side_label(#[trigger] arcs@[a], input)
                        <= crate::label_reachable::side_label(#[trigger] arcs@[b], input),
                forall|k: int|
                    j < k <= i ==> crate::label_reachable::side_label(arcs@[j as int], input) < crate::label_reachable::side_label(
                        #[trigger] arcs@[k],
                        input,
                    ),
            decreases j,
        {
            let x = copy_arc(&arcs[j]);
            let y = copy_arc(&arcs[j - 1]);
            let ghost before = arcs@;
            arcs.set(j - 1, x);
            arcs.set(j, y);
            proof {
                let mid = before.update(j - 1, x);
                assert(arcs@ == mid.update(j as int, y));
                assert(before[j - 1] == y);
                assert(mid[j as int] == x);
                vstd::seq_lib::to_multiset_update(before, j - 1, x);
                vstd::seq_lib::to_multiset_update(mid, j as int, y);
                let m = before.to_multiset();
                assert(before.contains(y)) by {
                    assert(before[j - 1] == y);
                }
                vstd::seq_lib::to_multiset_contains(before, y);
                assert(m.count(y) > 0);
                assert(m.insert(x).remove(y).insert(y).remove(x) =~= m);
            }
            j = j - 1;
        }
        proof {
            assert forall|a: int, b: int| 0 <= a <= b < i + 1 implies crate::label_reachable::side_label(#[trigger] arcs@[a], input)
                <= crate::label_reachable::side_label(#[trigger] arcs@[b], input) by {
                if a == j && b != j {
                } else if b == j && a != j {
                    assert(crate::label_reachable::side_label(arcs@[a], input) <= crate::label_reachable::side_label(arcs@[j - 1], input));
                }
            }
        }
        i = i + 1;
    }
}

/// The label of `a` on the chosen side.
pub fn label_of<W>(a: &Arc<W>, input: bool) -> (r: crate::arc::Label)
    ensures
        r == crate::label_reachable::side_label(*a, input),
{
    if input {
        a.ilabel
    } else {
        a.olabel
    }
}

} // verus!

verus! {

/// Swaps the input and output label of every arc.
pub fn invert<W>(fst: &mut VectorFst<W>)
    requires
        old(fst).wf(),
    ensures
        final(fst).wf(),
        final(fst).start == old(fst).start,
        final(fst).states@.len() == old(fst).states@.len(),
        forall|s: int| 0 <= s < old(fst).states@.len() ==> {
            &&& (#[trigger] final(fst).states@[s]).final_weight == old(fst).states@[s].final_weight
            &&& final(fst).states@[s].arcs@.len() == old(fst).states@[s].arcs@.len()
            &&& forall|k: int| 0 <= k < old(fst).states@[s].arcs@.len() ==> #[trigger] final(fst).states@[s].arcs@[k] == (Arc {
                ilabel: old(fst).states@[s].arcs@[k].olabel,
                olabel: old(fst).states@[s].arcs@[k].ilabel,
                ..old(fst).states@[s].arcs@[k]
            })
        },
{
    let n = fst.states.len();
    let mut s: usize = 0;
    while s < n
        invariant
            fst.wf(),
            0 <= s <= n,
            n == fst.states@.len(),
            n == old(fst).states@.len(),
            fst.start == old(fst).start,
            forall|t: int| s <= t < n ==> #[trigger] fst.states@[t] == old(fst).states@[t],
            forall|t: int| 0 <= t < s ==> {
                &&& (#[trigger] fst.states@[t]).final_weight == old(fst).states@[t].final_weight
                &&& fst.states@[t].arcs@.len() == old(fst).states@[t].arcs@.len()
                &&& forall|k: int| 0 <= k < old(fst).states@[t].arcs@.len() ==> #[trigger] fst.states@[t].arcs@[k] == (Arc {
                    ilabel: old(fst).states@[t].arcs@[k].olabel,
                    olabel: old(fst).states@[t].arcs@[k].ilabel,
                    ..old(fst).states@[t].arcs@[k]
                })
            },
        decreases n - s,
    {
        let m = fst.states[s].arcs.len();
        let mut k: usize = 0;
        while k < m
            invariant
                fst.wf(),
                0 <= k <= m,
                s < n,
                n == fst.states@.len(),
                n == old(fst).states@.len(),
                fst.start == old(fst).start,
                m == old(fst).states@[s as int].arcs@.len(),
                fst.states@[s as int].arcs@.len() == m,
                fst.states@[s as int].final_weight == old(fst).states@[s as int].final_weight,
                forall|t: int| s < t < n ==> #[trigger] fst.states@[t] == old(fst).states@[t],
                forall|t: int| 0 <= t < s ==> {
                    &&& (#[trigger] fst.states@[t]).final_weight == old(fst).states@[t].final_weight
                    &&& fst.states@[t].arcs@.len() == old(fst).states@[t].arcs@.len()
                    &&& forall|j: int| 0 <= j < old(fst).states@[t].arcs@.len() ==> #[trigger] fst.states@[t].arcs@[j] == (Arc {
                        ilabel: old(fst).states@[t].arcs@[j].olabel,
                        olabel: old(fst).states@[t].arcs@[j].ilabel,
                        ..old(fst).states@[t].arcs@[j]
                    })
                },
                forall|j: int| 0 <= j < k ==> #[trigger] fst.states@[s as int].arcs@[j] == (Arc {
                    ilabel: old(fst).states@[s as int].arcs@[j].olabel,
                    olabel: old(fst).states@[s as int].arcs@[j].ilabel,
                    ..old(fst).states@[s as int].arcs@[j]
                }),
                forall|j: int| k <= j < m ==> #[trigger] fst.states@[s as int].arcs@[j] == old(fst).states@[s as int].arcs@[j],
            decreases m - k,
        {
            let ghost before = fst.states@;
            let a = &fst.states[s].arcs[k];
            let il = a.ilabel;
            let ol = a.olabel;
            fst.states[s].arcs[k].ilabel = ol;
            fst.states[s].arcs[k].olabel = il;
            proof {
                assert forall|t: int, j: int|
                    0 <= t < fst.states@.len() && 0 <= j < fst.states@[t].arcs@.len() implies (
                    #[trigger] fst.states@[t].arcs@[j]).nextstate < fst.states@.len() by {
                    if t != s {
                        assert(fst.states@[t] == before[t]);
                    } else if j != k {
                        assert(fst.states@[t].arcs@[j] == before[t].arcs@[j]);
                    }
                }
                assert forall|t: int| 0 <= t < s implies #[trigger] fst.states@[t] == before[t] by {
                }
            }
            k = k + 1;
        }
        s = s + 1;
    }
}

} // verus!

verus! {

/// Following the arcs at positions `ks` from state `s` stays inside `f`.
pub open spec fn path_valid<W>(f: VectorFst<W>, s: int, ks: Seq<int>) -> bool
    decreases ks.len(),
{
    ks.len() == 0 || (0 <= s < f.states@.len() && 0 <= ks[0] < f.states@[s].arcs@.len() && path_valid(
        f,
        f.states@[s].arcs@[ks[0]].nextstate as int,
        ks.drop_first(),
    ))
}

/// The state the path ends in.
pub open spec fn path_end<W>(f: VectorFst<W>, s: int, ks: Seq<int>) -> int
    decreases ks.len(),
{
    if ks.len() == 0 {
        s
    } else {
        path_end(f, f.states@[s].arcs@[ks[0]].nextstate as int, ks.drop_first())
    }
}

/// The `times`-product of the path's arc weights.
pub open spec fn path_weight<W: crate::semiring::Semiring>(f: VectorFst<W>, s: int, ks: Seq<int>) -> W
    decreases ks.len(),
{
    if ks.len() == 0 {
        W::one_spec()
    } else {
        let a = f.states@[s].arcs@[ks[0]];
        a.weight.times_spec(path_weight(f, a.nextstate as int, ks.drop_first()))
    }
}

/// The input labels read along the path, epsilons left out.
pub open spec fn path_input<W>(f: VectorFst<W>, s: int, ks: Seq<int>) -> Seq<crate::arc::Label>
    decreases ks.len(),
{
    if ks.len() == 0 {
        seq![]
    } else {
        let a = f.states@[s].arcs@[ks[0]];
        (if a.ilabel == EPS_LABEL { seq![] } else { seq![a.ilabel] }) + path_input(f, a.nextstate as int, ks.drop_first())
    }
}

/// The output labels written along the path, epsilons left out.
pub open spec fn path_output<W>(f: VectorFst<W>, s: int, ks: Seq<int>) -> Seq<crate::arc::Label>
    decreases ks.len(),
{
    if ks.len() == 0 {
        seq![]
    } else {
        let a = f.states@[s].arcs@[ks[0]];
        (if a.olabel == EPS_LABEL { seq![] } else { seq![a.olabel] }) + path_output(f, a.nextstate as int, ks.drop_first())
    }
}

/// The path from the start ends in a final state.
pub open spec fn accepting<W>(f: VectorFst<W>, ks: Seq<int>) -> bool {
    &&& f.start is Some
    &&& path_valid(f, f.start->Some_0 as int, ks)
    &&& 0 <= path_end(f, f.start->Some_0 as int, ks) < f.states@.len()
    &&& f.states@[path_end(f, f.start->Some_0 as int, ks)].final_weight is Some
}

/// The weight of an accepting path: its arc weights times the final weight.
pub open spec fn accepted_weight<W: crate::semiring::Semiring>(f: VectorFst<W>, ks: Seq<int>) -> W {
    let s = f.start->Some_0 as int;
    path_weight(f, s, ks).times_spec(f.states@[path_end(f, s, ks)].final_weight->Some_0)
}

/// Following `ks1` then `ks2` is following `ks1`, then `ks2` from where
/// `ks1` ended.
pub proof fn lemma_path_concat<W: crate::semiring::Semiring>(f: VectorFst<W>, s: int, ks1: Seq<int>, ks2: Seq<int>)
    requires
        path_valid(f, s, ks1),
    ensures
        path_valid(f, s, ks1 + ks2) == path_valid(f, path_end(f, s, ks1), ks2),
        path_end(f, s, ks1 + ks2) == path_end(f, path_end(f, s, ks1), ks2),
        path_weight(f, s, ks1 + ks2) == path_weight(f, s, ks1).times_spec(path_weight(f, path_end(f, s, ks1), ks2)),
        path_input(f, s, ks1 + ks2) == path_input(f, s, ks1) + path_input(f, path_end(f, s, ks1), ks2),
        path_output(f, s, ks1 + ks2) == path_output(f, s, ks1) + path_output(f, path_end(f, s, ks1), ks2),
    decreases ks1.len(),
{
    if ks1.len() == 0 {
        assert(ks1 + ks2 =~= ks2);
        W::lemma_times_one(path_weight(f, s, ks2));
    } else {
        let a = f.states@[s].arcs@[ks1[0]];
        let t = a.nextstate as int;
        assert((ks1 + ks2).drop_first() =~= ks1.drop_first() + ks2);
        assert((ks1 + ks2)[0] == ks1[0]);
        lemma_path_concat(f, t, ks1.drop_first(), ks2);
        W::lemma_times_assoc(a.weight, path_weight(f, t, ks1.drop_first()), path_weight(f, path_end(f, s, ks1), ks2));
        let head_i: Seq<crate::arc::Label> = if a.ilabel == EPS_LABEL { seq![] } else { seq![a.ilabel] };
        let head_o: Seq<crate::arc::Label> = if a.olabel == EPS_LABEL { seq![] } else { seq![a.olabel] };
        assert(head_i + (path_input(f, t, ks1.drop_first()) + path_input(f, path_end(f, s, ks1), ks2)) =~= (head_i + path_input(
            f,
            t,
            ks1.drop_first(),
        )) + path_input(f, path_end(f, s, ks1), ks2));
        assert(head_o + (path_output(f, t, ks1.drop_first()) + path_output(f, path_end(f, s, ks1), ks2)) =~= (head_o
            + path_output(f, t, ks1.drop_first())) + path_output(f, path_end(f, s, ks1), ks2));
    }
}

/// A path of `f` is a path of any `g` whose states keep `f`'s arcs as a
/// prefix of theirs, with the same end, weight and labels.
pub proof fn lemma_path_transfer<W: crate::semiring::Semiring>(f: VectorFst<W>, g: VectorFst<W>, s: int, ks: Seq<int>)
    requires
        path_valid(f, s, ks),
        g.states@.len() >= f.states@.len(),
        forall|t: int| 0 <= t < f.states@.len() ==> (#[trigger] g.states@[t]).arcs@.len() >= f.states@[t].arcs@.len()
            && g.states@[t].arcs@.subrange(0, f.states@[t].arcs@.len() as int) == f.states@[t].arcs@,
    ensures
        path_valid(g, s, ks),
        path_end(g, s, ks) == path_end(f, s, ks),
        path_weight(g, s, ks) == path_weight(f, s, ks),
        path_input(g, s, ks) == path_input(f, s, ks),
        path_output(g, s, ks) == path_output(f, s, ks),
    decreases ks.len(),
{
    if ks.len() > 0 {
        assert(g.states@[s].arcs@.subrange(0, f.states@[s].arcs@.len() as int)[ks[0]] == g.states@[s].arcs@[ks[0]]);
        let a = f.states@[s].arcs@[ks[0]];
        lemma_path_transfer(f, g, a.nextstate as int, ks.drop_first());
    }
}

} // verus!

verus! {

/// No arc of `f` carries `NO_LABEL` on the chosen side.
pub open spec fn fst_free_of_no_label<W>(f: VectorFst<W>, input: bool) -> bool {
    forall|s: int| 0 <= s < f.states@.len() ==> #[trigger] free_of_no_label(f.states@[s].arcs@, input)
}

/// Whether no arc of `f` carries `NO_LABEL` on the chosen side.
pub fn check_fst_free_of_no_label<W>(f: &VectorFst<W>, input: bool) -> (r: bool)
    ensures
        r == fst_free_of_no_label(*f, input),
{
    let mut s: usize = 0;
    while s < f.states.len()
        invariant
            0 <= s <= f.states@.len(),
            forall|t: int| 0 <= t < s ==> #[trigger] free_of_no_label(f.states@[t].arcs@, input),
        decreases f.states@.len() - s,
    {
        if !check_free_of_no_label(f.states[s].arcs.as_slice(), input) {
            return false;
        }
        s = s + 1;
    }
    true
}

} // verus!

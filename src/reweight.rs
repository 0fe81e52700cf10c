use vstd::prelude::*;
use crate::arc::{Arc, StateId};
use crate::error::FstError;
use crate::fst::VectorFst;
use crate::semiring::{DivideType, Semiring, WeaklyDivisibleSemiring};

verus! {

/// Toward which end of the paths the weights are pushed.
#[derive(Clone, Copy, Debug, PartialEq, Eq, Structural)]
pub enum ReweightType {
    ReweightToInitial,
    ReweightToFinal,
}

/// The potential of `s`, `zero` past the end of `p`.
pub open spec fn potential<W: Semiring>(p: Seq<W>, s: int) -> W {
    if 0 <= s < p.len() {
        p[s]
    } else {
        W::zero_spec()
    }
}

/// An arc leaving `s` after the first pass: `π(s)⁻¹ ⊗ w ⊗ π(q)` toward the
/// initial state, `π(s) ⊗ w ⊗ π(q)⁻¹` toward the final states; unchanged
/// when either potential is `zero` or `s` has none.
pub open spec fn reweighted_arc<W: WeaklyDivisibleSemiring>(p: Seq<W>, t: ReweightType, s: int, a: Arc<W>) -> Arc<W> {
    let d_s = potential(p, s);
    let d_ns = potential(p, a.nextstate as int);
    if s >= p.len() || d_s == W::zero_spec() || d_ns == W::zero_spec() {
        a
    } else {
        Arc {
            weight: match t {
                ReweightType::ReweightToInitial => a.weight.times_spec(d_ns).divide_spec(d_s, DivideType::DivideLeft),
                ReweightType::ReweightToFinal => d_s.times_spec(a.weight).divide_spec(d_ns, DivideType::DivideRight),
            },
            ..a
        }
    }
}

/// The final weight of `s` after the first two passes.
pub open spec fn reweighted_final<W: WeaklyDivisibleSemiring>(p: Seq<W>, t: ReweightType, s: int, fw: W) -> W {
    let d_s = potential(p, s);
    match t {
        ReweightType::ReweightToFinal => if s >= p.len() {
            W::zero_spec().times_spec(fw).times_spec(d_s)
        } else {
            fw.times_spec(d_s)
        },
        ReweightType::ReweightToInitial => if d_s == W::zero_spec() {
            fw
        } else {
            fw.divide_spec(d_s, DivideType::DivideLeft)
        },
    }
}

/// Whether the start state's arcs and final weight get the last pass.
pub open spec fn start_adjusted<W: WeaklyDivisibleSemiring>(p: Seq<W>, start: Option<StateId>, s: int) -> bool {
    start == Some(s as StateId) && potential(p, s) != W::one_spec() && potential(p, s) != W::zero_spec()
}

/// The last pass on a weight of the start state `s`.
pub open spec fn start_weight<W: WeaklyDivisibleSemiring>(p: Seq<W>, t: ReweightType, s: int, w: W) -> W {
    let d_s = potential(p, s);
    match t {
        ReweightType::ReweightToInitial => d_s.times_spec(w),
        ReweightType::ReweightToFinal => W::one_spec().divide_spec(d_s, DivideType::DivideRight).times_spec(w),
    }
}

/// The arc at position `k` of `s` once reweighting is complete.
pub open spec fn final_arc<W: WeaklyDivisibleSemiring>(p: Seq<W>, t: ReweightType, start: Option<StateId>, s: int, a: Arc<W>) -> Arc<W> {
    let b = reweighted_arc(p, t, s, a);
    if start_adjusted(p, start, s) {
        Arc { weight: start_weight(p, t, s, b.weight), ..b }
    } else {
        b
    }
}

/// The final weight of `s` once reweighting is complete.
pub open spec fn final_final<W: WeaklyDivisibleSemiring>(p: Seq<W>, t: ReweightType, start: Option<StateId>, s: int, f: Option<W>) -> Option<W> {
    match f {
        None => None,
        Some(fw) => {
            let g = reweighted_final(p, t, s, fw);
            if start_adjusted(p, start, s) {
                Some(start_weight(p, t, s, g))
            } else {
                Some(g)
            }
        },
    }
}

/// `after` is `before` reweighted by the potentials `p` toward `t`.
pub open spec fn is_reweighted<W: WeaklyDivisibleSemiring>(before: VectorFst<W>, after: VectorFst<W>, p: Seq<W>, t: ReweightType) -> bool {
    &&& after.start == before.start
    &&& after.states@.len() == before.states@.len()
    &&& forall|s: int| 0 <= s < before.states@.len() ==> {
        &&& (#[trigger] after.states@[s]).arcs@.len() == before.states@[s].arcs@.len()
        &&& after.states@[s].final_weight == final_final(p, t, before.start, s, before.states@[s].final_weight)
        &&& forall|k: int| 0 <= k < before.states@[s].arcs@.len() ==> #[trigger] after.states@[s].arcs@[k]
            == final_arc(p, t, before.start, s, before.states@[s].arcs@[k])
    }
}

/// Reweights `fst` by the potentials: each arc `p → q` of weight `w` becomes
/// `π(p)⁻¹ ⊗ w ⊗ π(q)` (toward the initial state) or `π(p) ⊗ w ⊗ π(q)⁻¹`
/// (toward the final states), final weights and the start state's weights
/// following. A `zero` potential leaves what it touches as it is.
pub fn reweight<W: WeaklyDivisibleSemiring>(fst: &mut VectorFst<W>, potentials: &[W], reweight_type: ReweightType) -> (r: Result<(), FstError>)
    requires
        old(fst).wf(),
    ensures
        r is Ok,
        final(fst).wf(),
        is_reweighted(*old(fst), *final(fst), potentials@, reweight_type),
{
    let ghost p = potentials@;
    let ghost t = reweight_type;
    let ghost orig = *fst;
    let zero = W::zero();
    let num_states = fst.states.len();
    let plen = potentials.len();
    let mut state: usize = 0;
    while state < num_states
        invariant
            fst.wf(),
            0 <= state <= num_states,
            num_states == fst.states@.len(),
            num_states == orig.states@.len(),
            fst.start == orig.start,
            p == potentials@,
            plen == p.len(),
            t == reweight_type,
            zero == W::zero_spec(),
            forall|s: int| 0 <= s < num_states ==> (#[trigger] fst.states@[s]).arcs@.len() == orig.states@[s].arcs@.len(),
            forall|s: int, k: int| 0 <= s < state && 0 <= k < orig.states@[s].arcs@.len() ==> #[trigger] fst.states@[s].arcs@[k]
                == reweighted_arc(p, t, s, orig.states@[s].arcs@[k]),
            forall|s: int, k: int| state <= s < num_states && 0 <= k < orig.states@[s].arcs@.len() ==> #[trigger] fst.states@[s].arcs@[k]
                == orig.states@[s].arcs@[k],
            forall|s: int| 0 <= s < state ==> (#[trigger] fst.states@[s]).final_weight == match orig.states@[s].final_weight {
                Some(fw) => if s >= p.len() && t == ReweightType::ReweightToFinal {
                    Some(W::zero_spec().times_spec(fw))
                } else {
                    Some(fw)
                },
                None => None,
            },
            forall|s: int| state <= s < num_states ==> (#[trigger] fst.states@[s]).final_weight == orig.states@[s].final_weight,
        decreases num_states - state,
    {
        if state >= plen {
            if reweight_type == ReweightType::ReweightToFinal {
                let new_final = match &fst.states[state].final_weight {
                    Some(fw) => Some(zero.times(fw)),
                    None => None,
                };
                fst.states[state].final_weight = new_final;
            }
        } else {
            let d_s = &potentials[state];
            if !d_s.is_zero() {
                let n_arcs = fst.states[state].arcs.len();
                let mut k: usize = 0;
                while k < n_arcs
                    invariant
                        fst.wf(),
                        0 <= k <= n_arcs,
                        state < num_states,
                        state < plen,
                        num_states == fst.states@.len(),
                        n_arcs == orig.states@[state as int].arcs@.len(),
                        fst.start == orig.start,
                        p == potentials@,
                        plen == p.len(),
                        t == reweight_type,
                        *d_s == p[state as int],
                        *d_s != W::zero_spec(),
                        forall|s: int| 0 <= s < num_states ==> (#[trigger] fst.states@[s]).arcs@.len() == orig.states@[s].arcs@.len(),
                        forall|s: int, j: int| 0 <= s < state && 0 <= j < orig.states@[s].arcs@.len() ==> #[trigger] fst.states@[s].arcs@[j]
                            == reweighted_arc(p, t, s, orig.states@[s].arcs@[j]),
                        forall|s: int, j: int| state < s < num_states && 0 <= j < orig.states@[s].arcs@.len() ==> #[trigger] fst.states@[s].arcs@[j]
                            == orig.states@[s].arcs@[j],
                        forall|j: int| 0 <= j < k ==> #[trigger] fst.states@[state as int].arcs@[j]
                            == reweighted_arc(p, t, state as int, orig.states@[state as int].arcs@[j]),
                        forall|j: int| k <= j < n_arcs ==> #[trigger] fst.states@[state as int].arcs@[j]
                            == orig.states@[state as int].arcs@[j],
                        forall|s: int| 0 <= s < num_states ==> (#[trigger] fst.states@[s]).final_weight == old_final_of(orig, p, t, state as int, s),
                    decreases n_arcs - k,
                {
                    let arc = &fst.states[state].arcs[k];
                    let ns = arc.nextstate;
                    if ns < plen && !potentials[ns].is_zero() {
                        let d_ns = &potentials[ns];
                        let w = match reweight_type {
                            ReweightType::ReweightToInitial => arc.weight.times(d_ns).divide(d_s, DivideType::DivideLeft),
                            ReweightType::ReweightToFinal => d_s.times(&arc.weight).divide(d_ns, DivideType::DivideRight),
                        };
                        let new_arc = Arc { ilabel: arc.ilabel, olabel: arc.olabel, weight: w, nextstate: ns };
                        fst.states[state].arcs.set(k, new_arc);
                    }
                    k = k + 1;
                }
            }
        }
        state = state + 1;
    }
    state = 0;
    while state < num_states
        invariant
            fst.wf(),
            0 <= state <= num_states,
            num_states == fst.states@.len(),
            num_states == orig.states@.len(),
            fst.start == orig.start,
            p == potentials@,
            plen == p.len(),
            t == reweight_type,
            zero == W::zero_spec(),
            forall|s: int| 0 <= s < num_states ==> (#[trigger] fst.states@[s]).arcs@.len() == orig.states@[s].arcs@.len(),
            forall|s: int, k: int| 0 <= s < num_states && 0 <= k < orig.states@[s].arcs@.len() ==> #[trigger] fst.states@[s].arcs@[k]
                == reweighted_arc(p, t, s, orig.states@[s].arcs@[k]),
            forall|s: int| 0 <= s < state ==> (#[trigger] fst.states@[s]).final_weight == match orig.states@[s].final_weight {
                Some(fw) => Some(reweighted_final(p, t, s, fw)),
                None => None,
            },
            forall|s: int| state <= s < num_states ==> (#[trigger] fst.states@[s]).final_weight == old_final_of(orig, p, t, num_states as int, s),
        decreases num_states - state,
    {
        let d_s = if state < plen {
            &potentials[state]
        } else {
            &zero
        };
        let new_final = match &fst.states[state].final_weight {
            Some(fw) => match reweight_type {
                ReweightType::ReweightToFinal => Some(fw.times(d_s)),
                ReweightType::ReweightToInitial => if d_s.is_zero() {
                    Some(fw.duplicate())
                } else {
                    Some(fw.divide(d_s, DivideType::DivideLeft))
                },
            },
            None => None,
        };
        fst.states[state].final_weight = new_final;
        state = state + 1;
    }
    if let Some(start_state) = fst.start {
        let d_s = if start_state < plen {
            &potentials[start_state]
        } else {
            &zero
        };
        if !d_s.is_one() && !d_s.is_zero() {
            let factor = match reweight_type {
                ReweightType::ReweightToInitial => d_s.duplicate(),
                ReweightType::ReweightToFinal => W::one().divide(d_s, DivideType::DivideRight),
            };
            let n_arcs = fst.states[start_state].arcs.len();
            let mut k: usize = 0;
            while k < n_arcs
                invariant
                    fst.wf(),
                    0 <= k <= n_arcs,
                    start_state < num_states,
                    num_states == fst.states@.len(),
                    num_states == orig.states@.len(),
                    fst.start == orig.start,
                    orig.start == Some(start_state),
                    n_arcs == orig.states@[start_state as int].arcs@.len(),
                    start_adjusted(p, orig.start, start_state as int),
                    forall|w: W| factor.times_spec(w) == start_weight(p, t, start_state as int, w),
                    forall|s: int| 0 <= s < num_states ==> (#[trigger] fst.states@[s]).arcs@.len() == orig.states@[s].arcs@.len(),
                    forall|s: int, j: int| 0 <= s < num_states && s != start_state && 0 <= j < orig.states@[s].arcs@.len() ==> #[trigger] fst.states@[s].arcs@[j]
                        == reweighted_arc(p, t, s, orig.states@[s].arcs@[j]),
                    forall|j: int| 0 <= j < k ==> #[trigger] fst.states@[start_state as int].arcs@[j]
                        == final_arc(p, t, orig.start, start_state as int, orig.states@[start_state as int].arcs@[j]),
                    forall|j: int| k <= j < n_arcs ==> #[trigger] fst.states@[start_state as int].arcs@[j]
                        == reweighted_arc(p, t, start_state as int, orig.states@[start_state as int].arcs@[j]),
                    forall|s: int| 0 <= s < num_states ==> (#[trigger] fst.states@[s]).final_weight == match orig.states@[s].final_weight {
                        Some(fw) => Some(reweighted_final(p, t, s, fw)),
                        None => None,
                    },
                decreases n_arcs - k,
            {
                let arc = &fst.states[start_state].arcs[k];
                let new_arc = Arc { ilabel: arc.ilabel, olabel: arc.olabel, weight: factor.times(&arc.weight), nextstate: arc.nextstate };
                fst.states[start_state].arcs.set(k, new_arc);
                k = k + 1;
            }
            let new_final = match &fst.states[start_state].final_weight {
                Some(fw) => Some(factor.times(fw)),
                None => None,
            };
            fst.states[start_state].final_weight = new_final;
        }
    }
    Ok(())
}

/// Reweighting with every potential equal to `one`, in either direction,
/// gives back the transducer it started from.
pub proof fn lemma_reweight_identity<W: WeaklyDivisibleSemiring>(before: VectorFst<W>, after: VectorFst<W>, p: Seq<W>, t: ReweightType)
    requires
        before.wf(),
        is_reweighted(before, after, p, t),
        p.len() >= before.states@.len(),
        forall|s: int| 0 <= s < p.len() ==> #[trigger] p[s] == W::one_spec(),
    ensures
        after.start == before.start,
        after.states@.len() == before.states@.len(),
        forall|s: int| 0 <= s < before.states@.len() ==> (#[trigger] after.states@[s]).arcs@ == before.states@[s].arcs@
            && after.states@[s].final_weight == before.states@[s].final_weight,
{
    let one = W::one_spec();
    assert forall|s: int| 0 <= s < before.states@.len() implies (#[trigger] after.states@[s]).arcs@ == before.states@[s].arcs@
        && after.states@[s].final_weight == before.states@[s].final_weight by {
        assert(!start_adjusted(p, before.start, s));
        assert forall|k: int| 0 <= k < before.states@[s].arcs@.len() implies after.states@[s].arcs@[k] == before.states@[s].arcs@[k] by {
            let a = before.states@[s].arcs@[k];
            assert(a.nextstate < before.states@.len());
            assert(potential(p, a.nextstate as int) == one);
            W::lemma_times_one(a.weight);
            W::lemma_divide_one(a.weight, DivideType::DivideLeft);
            W::lemma_divide_one(a.weight, DivideType::DivideRight);
            assert(after.states@[s].arcs@[k] == final_arc(p, t, before.start, s, a));
        }
        assert(after.states@[s].arcs@ =~= before.states@[s].arcs@);
        if let Some(fw) = before.states@[s].final_weight {
            W::lemma_times_one(fw);
            W::lemma_divide_one(fw, DivideType::DivideLeft);
        }
    }
}

/// Reweighting keeps every final weight when each final state, and the start
/// state, has potential `one`.
pub proof fn lemma_reweight_keeps_unit_finals<W: WeaklyDivisibleSemiring>(before: VectorFst<W>, after: VectorFst<W>, p: Seq<W>, t: ReweightType)
    requires
        before.wf(),
        is_reweighted(before, after, p, t),
        p.len() >= before.states@.len(),
        forall|s: int| 0 <= s < before.states@.len() && before.states@[s].final_weight is Some ==> #[trigger] p[s] == W::one_spec(),
        before.start matches Some(st) ==> p[st as int] == W::one_spec(),
    ensures
        forall|s: int| 0 <= s < before.states@.len() ==> (#[trigger] after.states@[s]).final_weight == before.states@[s].final_weight,
{
    assert forall|s: int| 0 <= s < before.states@.len() implies (#[trigger] after.states@[s]).final_weight == before.states@[s].final_weight by {
        if let Some(fw) = before.states@[s].final_weight {
            assert(p[s] == W::one_spec());
            W::lemma_times_one(fw);
            W::lemma_divide_one(fw, DivideType::DivideLeft);
            assert(!start_adjusted(p, before.start, s));
        }
    }
}

/// The final weight of `s` while the first pass is at state `cur`.
spec fn old_final_of<W: WeaklyDivisibleSemiring>(orig: VectorFst<W>, p: Seq<W>, t: ReweightType, cur: int, s: int) -> Option<W> {
    if s <= cur {
        match orig.states@[s].final_weight {
            Some(fw) => if s >= p.len() && t == ReweightType::ReweightToFinal {
                Some(W::zero_spec().times_spec(fw))
            } else {
                Some(fw)
            },
            None => None,
        }
    } else {
        orig.states@[s].final_weight
    }
}

} // verus!

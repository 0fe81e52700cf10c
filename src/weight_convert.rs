use vstd::prelude::*;
use crate::arc::{Arc, Label, StateId, EPS_LABEL};
use crate::error::FstError;
use crate::fst::{FstState, VectorFst};
use crate::semiring::Semiring;

verus! {

/// A final weight seen as an arc to a super-final state.
#[derive(Clone, Copy, Debug, PartialEq, Eq)]
pub struct FinalArc<W> {
    pub ilabel: Label,
    pub olabel: Label,
    pub weight: W,
}

/// What to do with final weights whose mapped arc carries labels.
#[derive(Clone, Copy, Debug, PartialEq, Eq, Structural)]
pub enum MapFinalAction {
    /// Mapped final arcs must keep epsilon labels; they stay final weights.
    MapNoSuperfinal,
    /// A super-final state is added when a mapped final arc has labels.
    MapAllowSuperfinal,
    /// Every final weight becomes an arc to a super-final state.
    MapRequireSuperfinal,
}

/// How the weights of one semiring are turned into those of another.
pub trait WeightConverter<SI: Semiring, SO: Semiring> {
    spec fn arc_map_spec(&self, arc: Arc<SI>) -> Option<Arc<SO>>;

    spec fn final_arc_map_spec(&self, final_arc: FinalArc<SI>) -> Option<FinalArc<SO>>;

    fn arc_map(&self, arc: &Arc<SI>) -> (r: Result<Arc<SO>, FstError>)
        ensures
            self.arc_map_spec(*arc) matches Some(a) ==> r == Ok::<Arc<SO>, FstError>(a),
            self.arc_map_spec(*arc) is None ==> r is Err,
    ;

    fn final_arc_map(&self, final_arc: &FinalArc<SI>) -> (r: Result<FinalArc<SO>, FstError>)
        ensures
            self.final_arc_map_spec(*final_arc) matches Some(a) ==> r == Ok::<FinalArc<SO>, FstError>(a),
            self.final_arc_map_spec(*final_arc) is None ==> r is Err,
    ;

    spec fn final_action_spec(&self) -> MapFinalAction;

    fn final_action(&self) -> (r: MapFinalAction)
        ensures
            r == self.final_action_spec(),
    ;
}

/// Maps every weight to its reverse.
#[derive(Clone, Copy, Debug, PartialEq, Eq)]
pub struct ReverseWeightConverter;

impl<W: Semiring> WeightConverter<W, W> for ReverseWeightConverter {
    open spec fn arc_map_spec(&self, arc: Arc<W>) -> Option<Arc<W>> {
        Some(Arc { weight: arc.weight.reverse_spec(), ..arc })
    }

    open spec fn final_arc_map_spec(&self, final_arc: FinalArc<W>) -> Option<FinalArc<W>> {
        Some(FinalArc { weight: final_arc.weight.reverse_spec(), ..final_arc })
    }

    fn arc_map(&self, arc: &Arc<W>) -> (r: Result<Arc<W>, FstError>) {
        Ok(Arc { ilabel: arc.ilabel, olabel: arc.olabel, weight: arc.weight.reverse(), nextstate: arc.nextstate })
    }

    fn final_arc_map(&self, final_arc: &FinalArc<W>) -> (r: Result<FinalArc<W>, FstError>) {
        Ok(FinalArc { ilabel: final_arc.ilabel, olabel: final_arc.olabel, weight: final_arc.weight.reverse() })
    }

    open spec fn final_action_spec(&self) -> MapFinalAction {
        MapFinalAction::MapNoSuperfinal
    }

    fn final_action(&self) -> (r: MapFinalAction) {
        MapFinalAction::MapNoSuperfinal
    }
}

/// The mapped final arc of a final weight `w`.
pub open spec fn mapped_final<SI: Semiring, SO: Semiring, M: WeightConverter<SI, SO>>(m: M, w: SI) -> Option<FinalArc<SO>> {
    m.final_arc_map_spec(FinalArc { ilabel: EPS_LABEL, olabel: EPS_LABEL, weight: w })
}

/// The mapped final arc carries a label.
pub open spec fn labelled<W>(fa: FinalArc<W>) -> bool {
    fa.ilabel != EPS_LABEL || fa.olabel != EPS_LABEL
}

/// State `s` of `out` is state `s` of `f` converted, with `sf` the id of
/// the super-final state.
pub open spec fn state_converted<SI: Semiring, SO: Semiring, M: WeightConverter<SI, SO>>(
    m: M,
    action: MapFinalAction,
    f: VectorFst<SI>,
    st: FstState<SO>,
    s: int,
    sf: StateId,
) -> bool {
    let a = f.states@[s].arcs@;
    let b = st.arcs@;
    &&& b.len() >= a.len()
    &&& forall|k: int| 0 <= k < a.len() ==> m.arc_map_spec(#[trigger] a[k]) == Some(b[k])
    &&& match f.states@[s].final_weight {
        None => b.len() == a.len() && st.final_weight is None,
        Some(w) => {
            let fa = mapped_final(m, w)->Some_0;
            let extra = Arc { ilabel: fa.ilabel, olabel: fa.olabel, weight: fa.weight, nextstate: sf };
            match action {
                MapFinalAction::MapNoSuperfinal => b.len() == a.len() && st.final_weight == Some(fa.weight),
                MapFinalAction::MapAllowSuperfinal => if labelled(fa) {
                    b.len() == a.len() + 1 && b[a.len() as int] == extra && st.final_weight is None
                } else {
                    b.len() == a.len() && st.final_weight == Some(fa.weight)
                },
                MapFinalAction::MapRequireSuperfinal => st.final_weight is None && if labelled(fa) || fa.weight != SO::zero_spec() {
                    b.len() == a.len() + 1 && b[a.len() as int] == extra
                } else {
                    b.len() == a.len()
                },
            }
        },
    }
}

/// Every arc and final weight of `f` can be mapped, and with
/// `MapNoSuperfinal` no mapped final arc carries a label.
pub open spec fn convertible<SI: Semiring, SO: Semiring, M: WeightConverter<SI, SO>>(m: M, action: MapFinalAction, f: VectorFst<SI>) -> bool {
    forall|s: int| 0 <= s < f.states@.len() ==> state_ok(m, action, #[trigger] f.states@[s], f.states@.len())
}

/// Some final weight of `f` maps to a labelled arc.
pub open spec fn needs_superfinal<SI: Semiring, SO: Semiring, M: WeightConverter<SI, SO>>(m: M, f: VectorFst<SI>) -> bool {
    exists|s: int| 0 <= s < f.states@.len() && ((#[trigger] f.states@[s]).final_weight matches Some(w) && labelled(mapped_final(m, w)->Some_0))
}


/// Converts `fst_in` to another semiring with `mapper`: each arc is mapped,
/// and each final weight, mapped as an epsilon arc, stays a final weight or
/// becomes an arc to a super-final state (numbered after the others, final
/// with weight `one`), as the mapper's final action says.
pub fn weight_convert<SI: Semiring, SO: Semiring, M: WeightConverter<SI, SO>>(fst_in: &VectorFst<SI>, mapper: &M) -> (r: Result<VectorFst<SO>, FstError>)
    requires
        fst_in.wf(),
        fst_in.states@.len() < usize::MAX,
    ensures
        fst_in.start is None ==> (r matches Ok(out) && out.states@.len() == 0 && out.start is None),
        fst_in.start is Some ==> (r is Ok <==> convertible(*mapper, mapper.final_action_spec(), *fst_in)),
        fst_in.start is Some ==> (r matches Ok(out) ==> {
            let n = fst_in.states@.len();
            let action = mapper.final_action_spec();
            let has_super = action == MapFinalAction::MapRequireSuperfinal || (action == MapFinalAction::MapAllowSuperfinal
                && needs_superfinal(*mapper, *fst_in));
            &&& out.wf()
            &&& out.start == fst_in.start
            &&& out.states@.len() == if has_super { n + 1 } else { n }
            &&& forall|s: int| 0 <= s < n ==> #[trigger] state_converted(*mapper, action, *fst_in, out.states@[s], s, n as StateId)
            &&& has_super ==> out.states@[n as int].arcs@.len() == 0 && out.states@[n as int].final_weight == Some(SO::one_spec())
        }),
{
    if fst_in.start.is_none() {
        return Ok(VectorFst::new());
    }
    let n = fst_in.states.len();
    let action = mapper.final_action();
    let mut states: Vec<FstState<SO>> = Vec::new();
    let mut need_super = false;
    let mut s: usize = 0;
    while s < n
        invariant
            fst_in.wf(),
            fst_in.start is Some,
            n == fst_in.states@.len(),
            n < usize::MAX,
            action == mapper.final_action_spec(),
            0 <= s <= n,
            states@.len() == s,
            forall|t: int| 0 <= t < s ==> #[trigger] state_converted(*mapper, action, *fst_in, states@[t], t, n as StateId),
            forall|t: int| 0 <= t < s ==> state_ok(*mapper, action, #[trigger] fst_in.states@[t], n as nat),
            forall|t: int, k: int| 0 <= t < s && 0 <= k < states@[t].arcs@.len() ==> (#[trigger] states@[t].arcs@[k]).nextstate <= n,
            need_super == exists|t: int| 0 <= t < s && ((#[trigger] fst_in.states@[t]).final_weight matches Some(w) && labelled(
                mapped_final(*mapper, w)->Some_0,
            )) && action == MapFinalAction::MapAllowSuperfinal,
        decreases n - s,
    {
        let src = &fst_in.states[s];
        let mut arcs: Vec<Arc<SO>> = Vec::new();
        let mut k: usize = 0;
        while k < src.arcs.len()
            invariant
                0 <= k <= src.arcs@.len(),
                fst_in.start is Some,
                s < n,
                n == fst_in.states@.len(),
                *src == fst_in.states@[s as int],
                arcs@.len() == k,
                forall|j: int| 0 <= j < k ==> mapper.arc_map_spec(#[trigger] src.arcs@[j]) == Some(arcs@[j]),
                forall|j: int| 0 <= j < k ==> (#[trigger] arcs@[j]).nextstate < n,
            decreases src.arcs@.len() - k,
        {
            let a = match mapper.arc_map(&src.arcs[k]) {
                Ok(a) => a,
                Err(e) => {
                    proof {
                        assert(!state_ok(*mapper, action, fst_in.states@[s as int], n as nat));
                        assert(!convertible(*mapper, action, *fst_in));
                    }
                    return Err(e);
                },
            };
            if a.nextstate >= n {
                proof {
                    assert(!state_ok(*mapper, action, fst_in.states@[s as int], n as nat));
                    assert(!convertible(*mapper, action, *fst_in));
                }
                return Err(FstError::InvalidState);
            }
            arcs.push(a);
            k = k + 1;
        }
        let mut final_weight: Option<SO> = None;
        match &src.final_weight {
            Some(w) => {
                let fa = match mapper.final_arc_map(&FinalArc { ilabel: EPS_LABEL, olabel: EPS_LABEL, weight: w.duplicate() }) {
                    Ok(fa) => fa,
                    Err(e) => {
                        proof {
                            assert(!state_ok(*mapper, action, fst_in.states@[s as int], n as nat));
                            assert(!convertible(*mapper, action, *fst_in));
                        }
                        return Err(e);
                    },
                };
                let labelled_arc = fa.ilabel != EPS_LABEL || fa.olabel != EPS_LABEL;
                match action {
                    MapFinalAction::MapNoSuperfinal => {
                        if labelled_arc {
                            proof {
                                assert(!state_ok(*mapper, action, fst_in.states@[s as int], n as nat));
                                assert(!convertible(*mapper, action, *fst_in));
                            }
                            return Err(FstError::DomainMismatch);
                        }
                        final_weight = Some(fa.weight);
                    },
                    MapFinalAction::MapAllowSuperfinal => {
                        if labelled_arc {
                            need_super = true;
                            arcs.push(Arc { ilabel: fa.ilabel, olabel: fa.olabel, weight: fa.weight, nextstate: n });
                        } else {
                            final_weight = Some(fa.weight);
                        }
                    },
                    MapFinalAction::MapRequireSuperfinal => {
                        if labelled_arc || !fa.weight.is_zero() {
                            arcs.push(Arc { ilabel: fa.ilabel, olabel: fa.olabel, weight: fa.weight, nextstate: n });
                        }
                    },
                }
            },
            None => {},
        }
        let ghost prev = states@;
        states.push(FstState { arcs, final_weight });
        proof {
            assert forall|t: int| 0 <= t < s + 1 implies #[trigger] state_converted(*mapper, action, *fst_in, states@[t], t, n as StateId) by {
                if t < s {
                    assert(states@[t] == prev[t]);
                }
            }
            assert forall|t: int, k2: int| 0 <= t < s + 1 && 0 <= k2 < states@[t].arcs@.len() implies (#[trigger] states@[t].arcs@[k2]).nextstate <= n by {
                if t < s {
                    assert(states@[t] == prev[t]);
                }
            }
        }
        s = s + 1;
    }
    proof {
        assert(convertible(*mapper, action, *fst_in));
    }
    let has_super = match action {
        MapFinalAction::MapRequireSuperfinal => true,
        MapFinalAction::MapAllowSuperfinal => need_super,
        MapFinalAction::MapNoSuperfinal => false,
    };
    let ghost built = states@;
    if has_super {
        states.push(FstState { arcs: Vec::new(), final_weight: Some(SO::one()) });
    }
    let out = VectorFst { states, start: fst_in.start };
    proof {
        assert forall|t: int| 0 <= t < n implies #[trigger] state_converted(*mapper, action, *fst_in, out.states@[t], t, n as StateId) by {
            assert(out.states@[t] == built[t]);
        }
        if action == MapFinalAction::MapAllowSuperfinal && needs_superfinal(*mapper, *fst_in) {
            let t = choose|t: int| 0 <= t < n && ((#[trigger] fst_in.states@[t]).final_weight matches Some(w) && labelled(mapped_final(*mapper, w)->Some_0));
        }
        assert forall|t: int, k2: int|
            0 <= t < out.states@.len() && 0 <= k2 < out.states@[t].arcs@.len() implies (
            #[trigger] out.states@[t].arcs@[k2]).nextstate < out.states@.len() by {
            if t < n {
                assert(out.states@[t] == built[t]);
                let b = built[t].arcs@;
                let a = fst_in.states@[t].arcs@;
                assert(state_converted(*mapper, action, *fst_in, built[t], t, n as StateId));
                if k2 < a.len() {
                    assert(mapper.arc_map_spec(a[k2]) == Some(b[k2]));
                    assert(state_ok(*mapper, action, fst_in.states@[t], n as nat));
                } else {
                    match fst_in.states@[t].final_weight {
                        Some(w) => {
                            if action == MapFinalAction::MapAllowSuperfinal {
                                assert(labelled(mapped_final(*mapper, w)->Some_0));
                                assert(need_super);
                            }
                        },
                        None => {},
                    }
                    assert(has_super);
                }
            }
        }
    }
    Ok(out)
}

/// State `st` of the operand can be converted.
pub open spec fn state_ok<SI: Semiring, SO: Semiring, M: WeightConverter<SI, SO>>(m: M, action: MapFinalAction, st: FstState<SI>, n: nat) -> bool {
    &&& forall|k: int| 0 <= k < st.arcs@.len() ==> m.arc_map_spec(#[trigger] st.arcs@[k]) is Some && m.arc_map_spec(st.arcs@[k])->Some_0.nextstate < n
    &&& st.final_weight matches Some(w) ==> (mapped_final(m, w) is Some && (action == MapFinalAction::MapNoSuperfinal
        ==> !labelled(mapped_final(m, w)->Some_0)))
}

} // verus!

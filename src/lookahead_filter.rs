use vstd::prelude::*;
use crate::arc::{Arc, StateId, EPS_LABEL, NO_STATE_ID};
use crate::compose_filters::{sequence_next, SequenceComposeFilter};
use crate::error::FstError;
use crate::fst::VectorFst;
use crate::label_reachable::LabelReachable;
use crate::lookahead_matcher::LabelLookAheadMatcher;
use crate::matchers::{
    contains_flag, has_flag, lookahead_match_type, MatchType, LOOKAHEAD_EPSILONS, LOOKAHEAD_NON_EPSILONS,
};
use crate::semiring::Semiring;

verus! {

/// Whether look-ahead runs on FST1's output labels (else FST2's input
/// labels), given the configured side `smt` and the side found possible.
pub open spec fn looks_ahead_on_output(smt: MatchType, lookahead_type: MatchType) -> bool {
    smt == MatchType::MatchOutput || (smt != MatchType::MatchInput && lookahead_type == MatchType::MatchOutput)
}

/// A sequence filter that also drops a pair when the look-ahead matcher of
/// the selected side finds no way to go on from the pair's targets.
#[derive(Clone, Debug, PartialEq, Eq)]
pub struct LookAheadComposeFilter<W> {
    pub filter: SequenceComposeFilter,
    pub matcher1: LabelLookAheadMatcher<W>,
    pub matcher2: LabelLookAheadMatcher<W>,
    /// The side asked for: input, output, or both (decide from the matchers).
    pub smt: MatchType,
    pub lookahead_type: MatchType,
    pub flags: u32,
    pub lookahead_arc: bool,
}

impl<W: Semiring> LookAheadComposeFilter<W> {
    pub open spec fn wf(&self) -> bool {
        self.matcher1.wf() && self.matcher2.wf()
    }

    pub open spec fn output_side(&self) -> bool {
        looks_ahead_on_output(self.smt, self.lookahead_type)
    }

    /// The selected matcher is prepared against its partner FST.
    pub open spec fn ready(&self, fst1: VectorFst<W>, fst2: VectorFst<W>) -> bool {
        if self.output_side() {
            self.matcher1.ready_for(fst2)
        } else {
            self.matcher2.ready_for(fst1)
        }
    }

    /// Builds the filter over FST1 and FST2. The look-ahead side is `smt`,
    /// or for `MatchBoth` the one the matchers allow; the selected matcher
    /// is prepared against the other FST.
    pub fn new(
        fst1: &VectorFst<W>,
        fst2: &VectorFst<W>,
        matcher1: LabelLookAheadMatcher<W>,
        matcher2: LabelLookAheadMatcher<W>,
        smt: MatchType,
    ) -> (r: Result<Self, FstError>)
        requires
            matcher1.wf(),
            matcher2.wf(),
        ensures
            ({
                let lt = if smt == MatchType::MatchBoth {
                    if matcher1.match_type == MatchType::MatchOutput && has_flag(matcher1.flags_spec(), crate::matchers::OUTPUT_LOOKAHEAD_MATCHER) {
                        MatchType::MatchOutput
                    } else if matcher2.match_type == MatchType::MatchInput && has_flag(matcher2.flags_spec(), crate::matchers::INPUT_LOOKAHEAD_MATCHER) {
                        MatchType::MatchInput
                    } else {
                        MatchType::MatchNone
                    }
                } else {
                    smt
                };
                let out = looks_ahead_on_output(smt, lt);
                let sel = if out { matcher1 } else { matcher2 };
                let lf = if out { *fst2 } else { *fst1 };
                &&& lt == MatchType::MatchNone ==> r == Err::<Self, FstError>(FstError::InvalidConfiguration)
                &&& lt != MatchType::MatchNone ==> {
                    &&& (r is Ok <==> (sel.reachable is Some ==> crate::fst::fst_sorted_on(lf, sel.partner_input())))
                    &&& (r is Err ==> r == Err::<Self, FstError>(FstError::DomainMismatch))
                }
                &&& r matches Ok(f) ==> {
                    &&& f.wf()
                    &&& f.ready(*fst1, *fst2)
                    &&& f.smt == smt
                    &&& f.lookahead_type == lt
                    &&& f.flags == if lt == MatchType::MatchOutput { matcher1.flags_spec() } else { matcher2.flags_spec() }
                    &&& !f.lookahead_arc
                    &&& f.filter == SequenceComposeFilter { s1: NO_STATE_ID, s2: NO_STATE_ID, fs: NO_STATE_ID, alleps1: false, noeps1: false }
                    &&& (if out { f.matcher2 == matcher2 } else { f.matcher1 == matcher1 })
                    &&& (if out { f.matcher1 } else { f.matcher2 }) == LabelLookAheadMatcher {
                        reachable: match sel.reachable {
                            Some(rr) => Some(LabelReachable { reach_fst_input: sel.partner_input(), ..rr }),
                            None => None,
                        },
                        ..sel
                    }
                    &&& f.matcher1.match_type == matcher1.match_type
                    &&& f.matcher2.match_type == matcher2.match_type
                    &&& f.matcher1.mft_flags == matcher1.mft_flags
                    &&& f.matcher2.mft_flags == matcher2.mft_flags
                }
            }),
    {
        let lookahead_type = if smt == MatchType::MatchBoth {
            lookahead_match_type(matcher1.match_type(), matcher1.flags(), matcher2.match_type(), matcher2.flags())
        } else {
            smt
        };
        let flags = if lookahead_type == MatchType::MatchOutput {
            matcher1.flags()
        } else {
            matcher2.flags()
        };
        if lookahead_type == MatchType::MatchNone {
            return Err(FstError::InvalidConfiguration);
        }
        let mut matcher1 = matcher1;
        let mut matcher2 = matcher2;
        let output = smt == MatchType::MatchOutput || (smt != MatchType::MatchInput && lookahead_type
            == MatchType::MatchOutput);
        let init = if output {
            matcher1.init_lookahead_fst(fst2)
        } else {
            matcher2.init_lookahead_fst(fst1)
        };
        match init {
            Ok(()) => {},
            Err(e) => return Err(e),
        }
        Ok(LookAheadComposeFilter {
            filter: SequenceComposeFilter::new(),
            matcher1,
            matcher2,
            smt,
            lookahead_type,
            flags,
            lookahead_arc: false,
        })
    }

    pub fn start(&self) -> (r: StateId)
        ensures
            r == 0,
    {
        self.filter.start()
    }

    pub fn lookahead_output(&self) -> (r: bool)
        ensures
            r == self.output_side(),
    {
        if self.smt == MatchType::MatchOutput {
            true
        } else if self.smt == MatchType::MatchInput {
            false
        } else {
            self.lookahead_type == MatchType::MatchOutput
        }
    }

    pub fn set_state(&mut self, fst1: &VectorFst<W>, s1: StateId, s2: StateId, filter_state: StateId) -> (r: Result<(), FstError>)
        ensures
            final(self).matcher1 == old(self).matcher1,
            final(self).matcher2 == old(self).matcher2,
            final(self).smt == old(self).smt,
            final(self).lookahead_type == old(self).lookahead_type,
            final(self).flags == old(self).flags,
            final(self).lookahead_arc == old(self).lookahead_arc,
            old(self).filter.s1 == s1 && old(self).filter.s2 == s2 && old(self).filter.fs == filter_state ==> r is Ok && final(self).filter == old(self).filter,
            s1 >= fst1.states@.len() && !(old(self).filter.s1 == s1 && old(self).filter.s2 == s2 && old(self).filter.fs == filter_state) ==> r is Err,
            s1 < fst1.states@.len() ==> r is Ok && final(self).filter.s1 == s1 && final(self).filter.s2 == s2 && final(self).filter.fs == filter_state,
            r is Ok && !(old(self).filter.s1 == s1 && old(self).filter.s2 == s2 && old(self).filter.fs == filter_state) ==> {
                let ne1 = crate::fst::count_output_eps(fst1.states@[s1 as int].arcs@);
                &&& final(self).filter.alleps1 == (fst1.states@[s1 as int].arcs@.len() == ne1 && fst1.states@[s1 as int].final_weight is None)
                &&& final(self).filter.noeps1 == (ne1 == 0)
            },
    {
        self.filter.set_state(fst1, s1, s2, filter_state)
    }

    /// The next filter state for `(arc1, arc2)`: that of the sequence filter,
    /// unless the look-ahead of the selected side finds no way on from the
    /// arcs' targets (then `NO_STATE_ID`). Arcs whose label on the
    /// look-ahead side is epsilon (or not) skip the look-ahead unless the
    /// flags ask for it.
    pub fn filter_arc(&mut self, fst1: &VectorFst<W>, fst2: &VectorFst<W>, arc1: &Arc<W>, arc2: &Arc<W>) -> (r: Result<StateId, FstError>)
        requires
            old(self).wf(),
            fst1.wf(),
            fst2.wf(),
            old(self).ready(*fst1, *fst2),
        ensures
            final(self).wf(),
            final(self).ready(*fst1, *fst2),
            final(self).filter == old(self).filter,
            final(self).smt == old(self).smt,
            final(self).lookahead_type == old(self).lookahead_type,
            final(self).flags == old(self).flags,
            final(self).matcher1.match_type == old(self).matcher1.match_type,
            final(self).matcher2.match_type == old(self).matcher2.match_type,
            final(self).matcher1.reachable is Some <==> old(self).matcher1.reachable is Some,
            final(self).matcher2.reachable is Some <==> old(self).matcher2.reachable is Some,
            old(self).matcher1.reachable matches Some(r) ==> r.data == final(self).matcher1.reachable->Some_0.data,
            old(self).matcher2.reachable matches Some(r) ==> r.data == final(self).matcher2.reachable->Some_0.data,
            ({
                let f = *old(self);
                let fs = sequence_next(f.filter.alleps1, f.filter.noeps1, f.filter.fs, arc1.olabel, arc2.ilabel);
                let out = f.output_side();
                let a = if out { *arc1 } else { *arc2 };
                let b = if out { *arc2 } else { *arc1 };
                let label = if out { a.olabel } else { a.ilabel };
                let skip = (label != EPS_LABEL && !has_flag(f.flags, LOOKAHEAD_NON_EPSILONS)) || (label == EPS_LABEL
                    && !has_flag(f.flags, LOOKAHEAD_EPSILONS));
                let m = if out { f.matcher1 } else { f.matcher2 };
                let lf = if out { *fst2 } else { *fst1 };
                &&& fs == NO_STATE_ID ==> r == Ok::<StateId, FstError>(NO_STATE_ID) && !final(self).lookahead_arc
                &&& fs != NO_STATE_ID && skip ==> r == Ok::<StateId, FstError>(fs) && !final(self).lookahead_arc
                &&& (fs == NO_STATE_ID || skip) ==> final(self).matcher1 == f.matcher1 && final(self).matcher2 == f.matcher2
                &&& (fs != NO_STATE_ID && !skip) ==> if out {
                    f.matcher1.looked_ahead(a.nextstate, lf, b.nextstate, final(self).matcher1, r is Ok) && final(self).matcher2 == f.matcher2
                } else {
                    f.matcher2.looked_ahead(a.nextstate, lf, b.nextstate, final(self).matcher2, r is Ok) && final(self).matcher1 == f.matcher1
                }
                &&& fs != NO_STATE_ID && !skip ==> {
                    &&& final(self).lookahead_arc
                    &&& (r is Ok <==> m.lookahead_ok(a.nextstate, lf, b.nextstate))
                    &&& (r is Ok ==> r == Ok::<StateId, FstError>(if m.lookahead_value(a.nextstate, lf, b.nextstate) {
                        fs
                    } else {
                        NO_STATE_ID
                    }))
                }
            }),
    {
        self.lookahead_arc = false;
        let fs = self.filter.filter_arc(arc1, arc2);
        if fs == NO_STATE_ID {
            return Ok(NO_STATE_ID);
        }
        let output = self.lookahead_output();
        let (arca, arcb) = if output {
            (arc1, arc2)
        } else {
            (arc2, arc1)
        };
        let labela = if output {
            arca.olabel
        } else {
            arca.ilabel
        };
        if labela != EPS_LABEL && !contains_flag(self.flags, LOOKAHEAD_NON_EPSILONS) {
            return Ok(fs);
        }
        if labela == EPS_LABEL && !contains_flag(self.flags, LOOKAHEAD_EPSILONS) {
            return Ok(fs);
        }
        self.lookahead_arc = true;
        let res = if output {
            self.matcher1.lookahead_fst(arca.nextstate, fst2, arcb.nextstate)
        } else {
            self.matcher2.lookahead_fst(arca.nextstate, fst1, arcb.nextstate)
        };
        match res {
            Ok(true) => Ok(fs),
            Ok(false) => Ok(NO_STATE_ID),
            Err(e) => Err(e),
        }
    }
}

} // verus!

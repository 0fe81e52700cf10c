use vstd::prelude::*;
use crate::arc::{Arc, Label, StateId, EPS_LABEL, NO_LABEL, NO_STATE_ID};
use crate::error::FstError;
use crate::fst::{count_output_eps, lemma_count_output_eps_le, VectorFst};

verus! {

/// The filter state the sequence filter moves to on `(arc1, arc2)`, given
/// the flags of the current FST1 state; `NO_STATE_ID` blocks the pair.
pub open spec fn sequence_next(alleps1: bool, noeps1: bool, fs: StateId, olabel1: Label, ilabel2: Label) -> StateId {
    if olabel1 == NO_LABEL {
        if alleps1 {
            NO_STATE_ID
        } else if noeps1 {
            0
        } else {
            1
        }
    } else if ilabel2 == NO_LABEL {
        if fs != 0 {
            NO_STATE_ID
        } else {
            0
        }
    } else if olabel1 == EPS_LABEL {
        NO_STATE_ID
    } else {
        0
    }
}

/// Composition filter that lets epsilons of FST1 be read before epsilons of
/// FST2, so that each epsilon path is taken once.
#[derive(Clone, Debug, PartialEq, Eq)]
pub struct SequenceComposeFilter {
    pub s1: StateId,
    pub s2: StateId,
    pub fs: StateId,
    /// Only epsilons leave `s1`, and it is not final.
    pub alleps1: bool,
    /// No epsilon leaves `s1`.
    pub noeps1: bool,
}

impl SequenceComposeFilter {
    pub fn new() -> (r: Self)
        ensures
            r == (SequenceComposeFilter { s1: NO_STATE_ID, s2: NO_STATE_ID, fs: NO_STATE_ID, alleps1: false, noeps1: false }),
    {
        SequenceComposeFilter { s1: NO_STATE_ID, s2: NO_STATE_ID, fs: NO_STATE_ID, alleps1: false, noeps1: false }
    }

    /// The filter state of the composed start state.
    pub fn start(&self) -> (r: StateId)
        ensures
            r == 0,
    {
        0
    }

    /// Moves to product state `(s1, s2, filter_state)`, computing the
    /// epsilon flags of `s1` in `fst1`.
    pub fn set_state<W>(&mut self, fst1: &VectorFst<W>, s1: StateId, s2: StateId, filter_state: StateId) -> (r: Result<(), FstError>)
        ensures
            old(self).s1 == s1 && old(self).s2 == s2 && old(self).fs == filter_state ==> r is Ok && *final(self) == *old(self),
            !(old(self).s1 == s1 && old(self).s2 == s2 && old(self).fs == filter_state) && s1 >= fst1.states@.len() ==> r == Err::<(), FstError>(FstError::InvalidState),
            !(old(self).s1 == s1 && old(self).s2 == s2 && old(self).fs == filter_state) && s1 < fst1.states@.len() ==> {
                let arcs = fst1.states@[s1 as int].arcs@;
                let ne1 = count_output_eps(arcs);
                &&& r is Ok
                &&& final(self).s1 == s1
                &&& final(self).s2 == s2
                &&& final(self).fs == filter_state
                &&& final(self).alleps1 == (arcs.len() == ne1 && fst1.states@[s1 as int].final_weight is None)
                &&& final(self).noeps1 == (ne1 == 0)
            },
    {
        if !(self.s1 == s1 && self.s2 == s2 && self.fs == filter_state) {
            if s1 >= fst1.num_states() {
                return Err(FstError::InvalidState);
            }
            let na1 = fst1.states[s1].arcs.len();
            let ne1 = match fst1.num_output_epsilons(s1) {
                Ok(n) => n,
                Err(e) => return Err(e),
            };
            let fin1 = fst1.states[s1].final_weight.is_some();
            proof {
                lemma_count_output_eps_le(fst1.states@[s1 as int].arcs@);
            }
            self.s1 = s1;
            self.s2 = s2;
            self.fs = filter_state;
            self.alleps1 = na1 == ne1 && !fin1;
            self.noeps1 = ne1 == 0;
        }
        Ok(())
    }

    /// The next filter state for the candidate pair, `NO_STATE_ID` if the
    /// pair is blocked. An `olabel` of `NO_LABEL` on `arc1` (or `ilabel` on
    /// `arc2`) marks the epsilon self-loop of that side.
    pub fn filter_arc<W>(&self, arc1: &Arc<W>, arc2: &Arc<W>) -> (r: StateId)
        ensures
            r == sequence_next(self.alleps1, self.noeps1, self.fs, arc1.olabel, arc2.ilabel),
    {
        if arc1.olabel == NO_LABEL {
            if self.alleps1 {
                NO_STATE_ID
            } else if self.noeps1 {
                0
            } else {
                1
            }
        } else if arc2.ilabel == NO_LABEL {
            if self.fs != 0 {
                NO_STATE_ID
            } else {
                0
            }
        } else if arc1.olabel == EPS_LABEL {
            NO_STATE_ID
        } else {
            0
        }
    }
}

/// Composition filter that only rejects a joint epsilon move.
#[derive(Clone, Copy, Debug, PartialEq, Eq, Structural)]
pub struct NoMatchComposeFilter {}

impl NoMatchComposeFilter {
    pub fn new() -> (r: Self) {
        NoMatchComposeFilter {}
    }

    pub fn start(&self) -> (r: bool)
        ensures
            r,
    {
        true
    }

    /// `false` (blocked) exactly when `arc1` outputs and `arc2` reads epsilon.
    pub fn filter_arc<W>(&self, arc1: &Arc<W>, arc2: &Arc<W>) -> (r: bool)
        ensures
            r == (arc1.olabel != EPS_LABEL || arc2.ilabel != EPS_LABEL),
    {
        arc1.olabel != EPS_LABEL || arc2.ilabel != EPS_LABEL
    }
}

} // verus!

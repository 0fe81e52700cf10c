use vstd::prelude::*;
use crate::arc::{Arc, Label, StateId, EPS_LABEL, NO_STATE_ID};
use crate::error::FstError;
use crate::label_transform::total_arcs;
use crate::fst::{check_free_of_no_label, free_of_no_label, fst_sorted_on, VectorFst};
use crate::interval_set::covers;
use crate::label_reachable::{reach_selects, reach_sum, side_label, LabelReachable, LabelReachableData};
use crate::matchers::{
    contains_flag, has_flag, MatchType, INPUT_LOOKAHEAD_MATCHER, LOOKAHEAD_PREFIX, LOOKAHEAD_WEIGHT,
    OUTPUT_LOOKAHEAD_MATCHER,
};
use crate::semiring::Semiring;

verus! {

/// A matcher that can look ahead: given a state of its own FST and a state of
/// the partner FST, it tells whether some label the partner can read next is
/// still reachable, and can give the weight of the way there.
#[derive(Clone, Debug, PartialEq, Eq)]
pub struct LabelLookAheadMatcher<W> {
    pub match_type: MatchType,
    /// The look-ahead behaviour this matcher was configured with.
    pub mft_flags: u32,
    pub reachable: Option<LabelReachable>,
    pub lookahead_weight: W,
    pub prefix_arc: Arc<W>,
}

/// The arcs of `arcs` that `reach` selects against `iset`.
pub open spec fn selected<W>(arcs: Seq<Arc<W>>, input: bool, iset: Seq<crate::interval_set::IntInterval>, k: int) -> bool {
    reach_selects(iset, side_label(arcs[k], input))
}

pub open spec fn any_selected<W>(arcs: Seq<Arc<W>>, input: bool, iset: Seq<crate::interval_set::IntInterval>) -> bool {
    exists|k: int| 0 <= k < arcs.len() && #[trigger] selected(arcs, input, iset, k)
}

/// Exactly one arc of `arcs` is selected.
pub open spec fn one_selected<W>(arcs: Seq<Arc<W>>, input: bool, iset: Seq<crate::interval_set::IntInterval>) -> bool {
    exists|b: int| 0 <= b < arcs.len() && #[trigger] selected(arcs, input, iset, b)
        && forall|k: int| 0 <= k < arcs.len() && #[trigger] selected(arcs, input, iset, k) ==> k == b
}

impl<W: Semiring> LabelLookAheadMatcher<W> {
    /// The label side on which the partner FST is queried.
    pub open spec fn partner_input(&self) -> bool {
        self.match_type == MatchType::MatchOutput
    }

    pub open spec fn wf(&self) -> bool {
        self.reachable matches Some(r) ==> r.wf()
    }

    pub open spec fn flags_spec(&self) -> u32 {
        match self.reachable {
            Some(r) => if r.data.reach_input {
                self.mft_flags | INPUT_LOOKAHEAD_MATCHER
            } else {
                self.mft_flags | OUTPUT_LOOKAHEAD_MATCHER
            },
            None => 0,
        }
    }

    /// Whether `lookahead_fst` succeeds on these arguments: the partner is
    /// sorted on the queried side, both states exist, and no arc of the
    /// partner state carries the reserved label.
    pub open spec fn lookahead_ok(&self, matcher_state: StateId, lfst: VectorFst<W>, lfst_state: StateId) -> bool {
        self.reachable matches Some(r) ==> {
            &&& lfst_state < lfst.states@.len()
            &&& matcher_state < r.data.interval_sets@.len()
            &&& free_of_no_label(lfst.states@[lfst_state as int].arcs@, self.partner_input())
        }
    }

    /// `init_lookahead_fst` has prepared the matcher against `lfst`: it
    /// queries the partner side, and `lfst` is sorted on it.
    pub open spec fn ready_for(&self, lfst: VectorFst<W>) -> bool {
        self.reachable matches Some(r) ==> r.reach_fst_input == self.partner_input() && fst_sorted_on(lfst, self.partner_input())
    }

    /// The partner state is final with a non-zero weight, and a final state
    /// is reachable from the matcher state.
    pub open spec fn final_reached(&self, r: LabelReachable, matcher_state: StateId, lfst: VectorFst<W>, lfst_state: StateId) -> bool {
        &&& lfst.states@[lfst_state as int].final_weight matches Some(w) && w != W::zero_spec()
        &&& covers(r.data.interval_sets@[matcher_state as int].intervals@, r.data.final_label as int)
    }

    /// What `lookahead_fst` answers when it succeeds.
    pub open spec fn lookahead_value(&self, matcher_state: StateId, lfst: VectorFst<W>, lfst_state: StateId) -> bool {
        match self.reachable {
            Some(rr) => any_selected(
                lfst.states@[lfst_state as int].arcs@,
                self.partner_input(),
                rr.data.interval_sets@[matcher_state as int].intervals@,
            ) || self.final_reached(rr, matcher_state, lfst, lfst_state),
            None => true,
        }
    }

    pub fn new_from_parts(match_type: MatchType, mft_flags: u32, reachable: Option<LabelReachable>) -> (r: Self)
        ensures
            r.match_type == match_type,
            r.mft_flags == mft_flags,
            r.reachable == reachable,
            r.lookahead_weight == W::one_spec(),
            r.prefix_arc == (Arc { ilabel: 0, olabel: 0, weight: W::one_spec(), nextstate: NO_STATE_ID }),
    {
        LabelLookAheadMatcher {
            match_type,
            mft_flags,
            reachable,
            lookahead_weight: W::one(),
            prefix_arc: Arc { ilabel: 0, olabel: 0, weight: W::one(), nextstate: NO_STATE_ID },
        }
    }

    /// A look-ahead matcher on `fst`. It needs `mft_flags` to allow input or
    /// output look-ahead. Reachability comes from `data` when given and on
    /// the matched side, else it is computed on `fst` if the flags allow
    /// look-ahead on that side.
    pub fn new_with_data(fst: &VectorFst<W>, match_type: MatchType, mft_flags: u32, data: Option<LabelReachableData>) -> (r: Result<Self, FstError>)
        requires
            fst.wf(),
            data matches Some(d) ==> d.wf(),
        ensures
            !(has_flag(mft_flags, INPUT_LOOKAHEAD_MATCHER) || has_flag(mft_flags, OUTPUT_LOOKAHEAD_MATCHER)) ==> r
                == Err::<Self, FstError>(FstError::InvalidConfiguration),
            r matches Ok(m) ==> {
                let reach_input = match_type == MatchType::MatchInput;
                &&& m.wf()
                &&& m.match_type == match_type
                &&& m.mft_flags == mft_flags
                &&& m.lookahead_weight == W::one_spec()
                &&& m.prefix_arc == (Arc { ilabel: 0, olabel: 0, weight: W::one_spec(), nextstate: NO_STATE_ID })
                &&& match data {
                    Some(d) => m.reachable == if d.reach_input == reach_input {
                        Some(LabelReachable { data: d, reach_fst_input: false })
                    } else {
                        None::<LabelReachable>
                    },
                    None => {
                        let wanted = (reach_input && has_flag(mft_flags, INPUT_LOOKAHEAD_MATCHER)) || (!reach_input
                            && has_flag(mft_flags, OUTPUT_LOOKAHEAD_MATCHER));
                        &&& (m.reachable is Some <==> wanted)
                        &&& (m.reachable matches Some(lr) ==> lr.data.reach_input == reach_input && !lr.reach_fst_input)
                    },
                }
            },
            r is Err ==> (r == Err::<Self, FstError>(FstError::InvalidConfiguration) || r == Err::<Self, FstError>(
                FstError::Internal,
            ) || r == Err::<Self, FstError>(FstError::DomainMismatch)),
            (has_flag(mft_flags, INPUT_LOOKAHEAD_MATCHER) || has_flag(mft_flags, OUTPUT_LOOKAHEAD_MATCHER)) && (data is Some || (crate::fst::fst_free_of_no_label(*fst, match_type == MatchType::MatchInput) && 2
                * fst.states@.len() + total_arcs(*fst) + 4 < usize::MAX)) ==> r is Ok,
    {
        if !(contains_flag(mft_flags, INPUT_LOOKAHEAD_MATCHER) || contains_flag(mft_flags, OUTPUT_LOOKAHEAD_MATCHER)) {
            return Err(FstError::InvalidConfiguration);
        }
        let reach_input = match_type == MatchType::MatchInput;
        let reachable = match data {
            Some(d) => if reach_input == d.reach_input {
                Some(LabelReachable::new_from_data(d))
            } else {
                None
            },
            None => match Self::create_data(fst, match_type, mft_flags) {
                Ok(opt) => match opt {
                    Some(d) => Some(LabelReachable::new_from_data(d)),
                    None => None,
                },
                Err(e) => return Err(e),
            },
        };
        Ok(Self::new_from_parts(match_type, mft_flags, reachable))
    }

    /// Reachability data for `fst` on the matched side, if the flags allow
    /// look-ahead there.
    pub fn create_data(fst: &VectorFst<W>, match_type: MatchType, mft_flags: u32) -> (r: Result<Option<LabelReachableData>, FstError>)
        requires
            fst.wf(),
        ensures
            r is Err ==> r == Err::<Option<LabelReachableData>, FstError>(FstError::Internal) || r == Err::<
                Option<LabelReachableData>,
                FstError,
            >(FstError::DomainMismatch),
            crate::fst::fst_free_of_no_label(*fst, match_type == MatchType::MatchInput) && 2 * fst.states@.len() + total_arcs(*fst) + 4 < usize::MAX ==> r is Ok,
            r matches Ok(o) ==> {
                let reach_input = match_type == MatchType::MatchInput;
                let wanted = (reach_input && has_flag(mft_flags, INPUT_LOOKAHEAD_MATCHER)) || (!reach_input
                    && has_flag(mft_flags, OUTPUT_LOOKAHEAD_MATCHER));
                &&& (o is Some <==> wanted)
                &&& (o matches Some(d) ==> d.wf() && d.reach_input == reach_input)
            },
    {
        let reach_input = match_type == MatchType::MatchInput;
        if (reach_input && contains_flag(mft_flags, INPUT_LOOKAHEAD_MATCHER)) || (!reach_input && contains_flag(
            mft_flags,
            OUTPUT_LOOKAHEAD_MATCHER,
        )) {
            match LabelReachable::new(fst, reach_input) {
                Ok(lr) => Ok(Some(lr.data)),
                Err(e) => Err(e),
            }
        } else {
            Ok(None)
        }
    }

    /// The reachability data, if the matcher has any.
    pub fn data(&self) -> (r: Option<&LabelReachableData>)
        ensures
            match self.reachable {
                Some(rr) => r == Some(&rr.data),
                None => r is None,
            },
    {
        match &self.reachable {
            Some(rr) => Some(&rr.data),
            None => None,
        }
    }

    pub fn match_type(&self) -> (r: MatchType)
        ensures
            r == self.match_type,
    {
        self.match_type
    }

    /// The matcher's capability flags: the configured look-ahead flags plus
    /// the side it looks ahead on, when it has reachability data.
    pub fn flags(&self) -> (r: u32)
        ensures
            r == self.flags_spec(),
    {
        match &self.reachable {
            Some(r) => if r.data.reach_input {
                self.mft_flags | INPUT_LOOKAHEAD_MATCHER
            } else {
                self.mft_flags | OUTPUT_LOOKAHEAD_MATCHER
            },
            None => 0,
        }
    }

    /// Prepares look-ahead against the partner `lfst`, which must be sorted
    /// on the label it will be queried on.
    pub fn init_lookahead_fst(&mut self, lfst: &VectorFst<W>) -> (r: Result<(), FstError>)
        requires
            old(self).wf(),
        ensures
            final(self).wf(),
            final(self).match_type == old(self).match_type,
            final(self).mft_flags == old(self).mft_flags,
            final(self).lookahead_weight == old(self).lookahead_weight,
            final(self).prefix_arc == old(self).prefix_arc,
            match old(self).reachable {
                Some(rr) => {
                    &&& final(self).reachable == Some(LabelReachable { reach_fst_input: old(self).partner_input(), ..rr })
                    &&& (r is Ok <==> fst_sorted_on(*lfst, old(self).partner_input()))
                    &&& (r is Err ==> r == Err::<(), FstError>(FstError::DomainMismatch))
                },
                None => r is Ok && final(self).reachable is None,
            },
            r is Ok ==> final(self).ready_for(*lfst),
    {
        let reach_input = self.match_type == MatchType::MatchOutput;
        match self.reachable.take() {
            Some(mut reachable) => {
                let res = reachable.reach_init(lfst, reach_input);
                self.reachable = Some(reachable);
                res
            },
            None => Ok(()),
        }
    }

    /// What a call of `lookahead_fst` leaves in the matcher (`after`), given
    /// whether it succeeded.
    pub open spec fn looked_ahead(&self, matcher_state: StateId, lfst: VectorFst<W>, lfst_state: StateId, after: Self, ok: bool) -> bool {
        &&& after.match_type == self.match_type
        &&& after.mft_flags == self.mft_flags
        &&& self.reachable is None ==> after.reachable is None && after.lookahead_weight == W::one_spec()
            && after.prefix_arc == (Arc { nextstate: NO_STATE_ID, ..self.prefix_arc })
        &&& self.reachable matches Some(rr) ==> ({
                let input = self.partner_input();
                let rr2 = LabelReachable { reach_fst_input: input, ..rr };
                let arcs = lfst.states@[lfst_state as int].arcs@;
                let iset = rr.data.interval_sets@[matcher_state as int].intervals@;
                let any = any_selected(arcs, input, iset);
                let fin = self.final_reached(rr, matcher_state, lfst, lfst_state);
                let fw = lfst.states@[lfst_state as int].final_weight->Some_0;
                let cw = has_flag(self.mft_flags, LOOKAHEAD_WEIGHT);
                let cp = has_flag(self.mft_flags, LOOKAHEAD_PREFIX);
                let prefix = any && cp && one_selected(arcs, input, iset) && !fin;
                let sum = reach_sum(arcs, input, iset, 0, arcs.len() as int);
                let w1 = if any && !prefix {
                    if cw {
                        sum
                    } else {
                        W::zero_spec()
                    }
                } else {
                    W::one_spec()
                };
                &&& after.reachable == Some(rr2)
                &&& ok ==> {
                    &&& after.prefix_arc == if prefix {
                        arcs[choose|b: int| 0 <= b < arcs.len() && #[trigger] selected(arcs, input, iset, b)]
                    } else {
                        Arc { nextstate: NO_STATE_ID, ..self.prefix_arc }
                    }
                    &&& after.lookahead_weight == if fin && cw && !prefix {
                        if any {
                            w1.plus_spec(fw)
                        } else {
                            fw
                        }
                    } else {
                        w1
                    }
                }
            })
    }

    /// Can the partner `lfst`, from `lfst_state`, still read a label that is
    /// reachable from `matcher_state`, or end where a final state is
    /// reachable? Records, per the flags, the look-ahead weight or the single
    /// arc that witnesses the way on (the prefix arc).
    pub fn lookahead_fst(&mut self, matcher_state: StateId, lfst: &VectorFst<W>, lfst_state: StateId) -> (r: Result<bool, FstError>)
        requires
            old(self).wf(),
            old(self).ready_for(*lfst),
            lfst.wf(),
        ensures
            final(self).wf(),
            final(self).ready_for(*lfst),
            final(self).match_type == old(self).match_type,
            final(self).mft_flags == old(self).mft_flags,
            r is Ok <==> old(self).lookahead_ok(matcher_state, *lfst, lfst_state),
            r is Ok ==> r == Ok::<bool, FstError>(old(self).lookahead_value(matcher_state, *lfst, lfst_state)),
            old(self).looked_ahead(matcher_state, *lfst, lfst_state, *final(self), r is Ok),
    {
        self.lookahead_weight = W::one();
        self.prefix_arc.nextstate = NO_STATE_ID;
        if self.reachable.is_none() {
            return Ok(true);
        }
        let input = self.match_type == MatchType::MatchOutput;
        let arcs = match lfst.arcs(lfst_state) {
            Ok(a) => a,
            Err(e) => return Err(e),
        };
        if !check_free_of_no_label(arcs, input) {
            return Err(FstError::DomainMismatch);
        }
        let compute_weight = contains_flag(self.mft_flags, LOOKAHEAD_WEIGHT);
        let compute_prefix = contains_flag(self.mft_flags, LOOKAHEAD_PREFIX);
        let reachable = match &self.reachable {
            Some(r) => r,
            None => return Ok(true),
        };
        proof {
            assert(crate::label_reachable::sorted_on(lfst.states@[lfst_state as int].arcs@, input, 0, arcs@.len() as int));
        }
        let reach_arc = match reachable.reach(matcher_state, arcs, 0, arcs.len(), compute_weight) {
            Ok(x) => x,
            Err(e) => return Err(e),
        };
        let reach_final = match lfst.final_weight(lfst_state) {
            Ok(Some(w)) => if w.is_zero() {
                false
            } else {
                match reachable.reach_final(matcher_state) {
                    Ok(b) => b,
                    Err(e) => return Err(e),
                }
            },
            Ok(None) => false,
            Err(e) => return Err(e),
        };
        let ghost iset = reachable.data.interval_sets@[matcher_state as int].intervals@;
        let ghost scan = 2 * arcs@.len() < iset.len();
        let mut cw = compute_weight;
        let mut new_weight = W::one();
        let mut new_prefix: Option<Arc<W>> = None;
        let found = reach_arc.is_some();
        match reach_arc {
            Some((reach_begin, reach_end, reach_weight)) => {
                proof {
                    assert(selected(arcs@, input, iset, reach_begin as int));
                    lemma_one_selected(arcs@, input, iset, reach_begin as int, reach_end as int);
                }
                if compute_prefix && reach_end - reach_begin == 1 && !reach_final {
                    let a = &arcs[reach_begin];
                    new_prefix = Some(Arc { ilabel: a.ilabel, olabel: a.olabel, weight: a.weight.duplicate(), nextstate: a.nextstate });
                    cw = false;
                } else {
                    new_weight = reach_weight;
                }
            },
            None => {
                proof {
                    assert forall|k: int| 0 <= k < arcs@.len() implies !#[trigger] selected(arcs@, input, iset, k) by {
                    }
                }
            },
        }
        if reach_final && cw {
            let fw = match lfst.final_weight(lfst_state) {
                Ok(Some(w)) => w,
                _ => return Err(FstError::Internal),
            };
            if found {
                new_weight = new_weight.plus(fw);
            } else {
                new_weight = fw.duplicate();
            }
        }
        self.lookahead_weight = new_weight;
        match new_prefix {
            Some(a) => {
                self.prefix_arc = a;
            },
            None => {},
        }
        Ok(found || reach_final)
    }

    /// Can `label` (relabeled) be reached from `current_state`? Epsilon is
    /// always reachable; without reachability data everything is.
    pub fn lookahead_label(&self, current_state: StateId, label: Label) -> (r: Result<bool, FstError>)
        requires
            self.wf(),
        ensures
            label == EPS_LABEL ==> r == Ok::<bool, FstError>(true),
            label != EPS_LABEL && self.reachable is None ==> r == Ok::<bool, FstError>(true),
            label != EPS_LABEL ==> (self.reachable matches Some(rr) ==> {
                &&& current_state >= rr.data.interval_sets@.len() ==> r == Err::<bool, FstError>(FstError::InvalidState)
                &&& current_state < rr.data.interval_sets@.len() ==> r == Ok::<bool, FstError>(
                    covers(rr.data.interval_sets@[current_state as int].intervals@, label as int),
                )
            }),
    {
        if label == EPS_LABEL {
            return Ok(true);
        }
        match &self.reachable {
            Some(reachable) => reachable.reach_label(current_state, label),
            None => Ok(true),
        }
    }

    /// Hands out the recorded prefix arc, if one was recorded.
    pub fn lookahead_prefix(&self, arc: &mut Arc<W>) -> (r: bool)
        ensures
            r == (self.prefix_arc.nextstate != NO_STATE_ID),
            r ==> *final(arc) == self.prefix_arc,
            !r ==> *final(arc) == *old(arc),
    {
        if self.prefix_arc.nextstate != NO_STATE_ID {
            *arc = Arc {
                ilabel: self.prefix_arc.ilabel,
                olabel: self.prefix_arc.olabel,
                weight: self.prefix_arc.weight.duplicate(),
                nextstate: self.prefix_arc.nextstate,
            };
            true
        } else {
            false
        }
    }

    pub fn lookahead_weight(&self) -> (r: &W)
        ensures
            *r == self.lookahead_weight,
    {
        &self.lookahead_weight
    }

    pub fn prefix_arc(&self) -> (r: &Arc<W>)
        ensures
            *r == self.prefix_arc,
    {
        &self.prefix_arc
    }
}

/// With `b` the first and `e - 1` the last selected arc, exactly one arc is
/// selected when `e - b == 1`, and then it is `b`.
proof fn lemma_one_selected<W>(arcs: Seq<Arc<W>>, input: bool, iset: Seq<crate::interval_set::IntInterval>, b: int, e: int)
    requires
        0 <= b < e <= arcs.len(),
        selected(arcs, input, iset, b),
        selected(arcs, input, iset, e - 1),
        forall|k: int| 0 <= k < b ==> !#[trigger] selected(arcs, input, iset, k),
        forall|k: int| e <= k < arcs.len() ==> !#[trigger] selected(arcs, input, iset, k),
    ensures
        one_selected(arcs, input, iset) <==> e - b == 1,
        e - b == 1 ==> (choose|x: int| 0 <= x < arcs.len() && #[trigger] selected(arcs, input, iset, x)) == b,
{
    if e - b == 1 {
        assert forall|k: int| 0 <= k < arcs.len() && #[trigger] selected(arcs, input, iset, k) implies k == b by {
        }
        let x = choose|x: int| 0 <= x < arcs.len() && #[trigger] selected(arcs, input, iset, x);
        assert(x == b);
    } else {
        if one_selected(arcs, input, iset) {
            let c = choose|c: int| 0 <= c < arcs.len() && #[trigger] selected(arcs, input, iset, c)
                && forall|k: int| 0 <= k < arcs.len() && #[trigger] selected(arcs, input, iset, k) ==> k == c;
            assert(b == c);
            assert(e - 1 == c);
        }
    }
}

} // verus!

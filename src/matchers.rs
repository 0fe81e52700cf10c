use vstd::prelude::*;
use crate::arc::{Arc, Label, StateId, EPS_LABEL, NO_LABEL};
use crate::error::FstError;
use crate::semiring::Semiring;

verus! {

/// Which label of the arcs a matcher matches on.
#[derive(Clone, Copy, Debug, PartialEq, Eq, Structural)]
pub enum MatchType {
    /// Match input label.
    MatchInput,
    /// Match output label.
    MatchOutput,
    /// Match input or output label.
    MatchBoth,
    /// Match anything.
    MatchNone,
    /// Otherwise, match unknown.
    MatchUnknown,
}

/// Matcher capability bits.
pub const REQUIRE_MATCH: u32 = 1;
pub const INPUT_LOOKAHEAD_MATCHER: u32 = 16;
pub const OUTPUT_LOOKAHEAD_MATCHER: u32 = 32;
pub const LOOKAHEAD_WEIGHT: u32 = 64;
pub const LOOKAHEAD_PREFIX: u32 = 128;
pub const LOOKAHEAD_NON_EPSILONS: u32 = 256;
pub const LOOKAHEAD_EPSILONS: u32 = 512;
pub const LOOKAHEAD_NON_EPSILON_PREFIX: u32 = 1024;

/// The priority that forces a matcher to be used.
pub const REQUIRE_PRIORITY: usize = usize::MAX;

/// `flags` has every bit of `bit`.
pub open spec fn has_flag(flags: u32, bit: u32) -> bool {
    flags & bit == bit
}

/// Tests whether `flags` holds every bit of `bit`.
pub fn contains_flag(flags: u32, bit: u32) -> (r: bool)
    ensures
        r == has_flag(flags, bit),
{
    flags & bit == bit
}

/// The side on which look-ahead can run, given each matcher's match type and
/// flags: FST1's output if its matcher is an output look-ahead matcher, else
/// FST2's input if its matcher is an input look-ahead matcher, else none.
pub fn lookahead_match_type(type1: MatchType, flags1: u32, type2: MatchType, flags2: u32) -> (r: MatchType)
    ensures
        r == (if type1 == MatchType::MatchOutput && has_flag(flags1, OUTPUT_LOOKAHEAD_MATCHER) {
            MatchType::MatchOutput
        } else if type2 == MatchType::MatchInput && has_flag(flags2, INPUT_LOOKAHEAD_MATCHER) {
            MatchType::MatchInput
        } else {
            MatchType::MatchNone
        }),
{
    if type1 == MatchType::MatchOutput && contains_flag(flags1, OUTPUT_LOOKAHEAD_MATCHER) {
        MatchType::MatchOutput
    } else if type2 == MatchType::MatchInput && contains_flag(flags2, INPUT_LOOKAHEAD_MATCHER) {
        MatchType::MatchInput
    } else {
        MatchType::MatchNone
    }
}

/// The epsilon self-loop a matcher offers at `state`: `NO_LABEL` on the
/// matched side, `EPS_LABEL` on the other, weight `one`.
pub fn eps_loop<W: Semiring>(state: StateId, match_type: MatchType) -> (r: Result<Arc<W>, FstError>)
    ensures
        match_type == MatchType::MatchInput ==> r == Ok::<Arc<W>, FstError>(
            Arc { ilabel: NO_LABEL, olabel: EPS_LABEL, weight: W::one_spec(), nextstate: state },
        ),
        match_type == MatchType::MatchOutput ==> r == Ok::<Arc<W>, FstError>(
            Arc { ilabel: EPS_LABEL, olabel: NO_LABEL, weight: W::one_spec(), nextstate: state },
        ),
        match_type != MatchType::MatchInput && match_type != MatchType::MatchOutput ==> r
            == Err::<Arc<W>, FstError>(FstError::InvalidConfiguration),
{
    match match_type {
        MatchType::MatchInput => Ok(Arc { ilabel: NO_LABEL, olabel: EPS_LABEL, weight: W::one(), nextstate: state }),
        MatchType::MatchOutput => Ok(Arc { ilabel: EPS_LABEL, olabel: NO_LABEL, weight: W::one(), nextstate: state }),
        _ => Err(FstError::InvalidConfiguration),
    }
}

/// What a matcher hands out: an arc of its FST, or its epsilon self-loop.
#[derive(Clone, Debug, PartialEq, Eq)]
pub enum IterItemMatcher<W> {
    Arc(Arc<W>),
    EpsLoop,
}

impl<W: Semiring> IterItemMatcher<W> {
    /// The arc, the self-loop being made at `state` for `match_type`.
    pub fn into_arc(self, state: StateId, match_type: MatchType) -> (r: Result<Arc<W>, FstError>)
        ensures
            self matches IterItemMatcher::Arc(a) ==> r == Ok::<Arc<W>, FstError>(a),
            self is EpsLoop ==> match match_type {
                MatchType::MatchInput => r == Ok::<Arc<W>, FstError>(
                    Arc { ilabel: NO_LABEL, olabel: EPS_LABEL, weight: W::one_spec(), nextstate: state },
                ),
                MatchType::MatchOutput => r == Ok::<Arc<W>, FstError>(
                    Arc { ilabel: EPS_LABEL, olabel: NO_LABEL, weight: W::one_spec(), nextstate: state },
                ),
                _ => r == Err::<Arc<W>, FstError>(FstError::InvalidConfiguration),
            },
    {
        match self {
            IterItemMatcher::Arc(a) => Ok(a),
            IterItemMatcher::EpsLoop => eps_loop(state, match_type),
        }
    }
}

} // verus!

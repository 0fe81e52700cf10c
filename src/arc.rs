use vstd::prelude::*;

verus! {

/// A label: a non-negative integer.
pub type Label = usize;

/// A dense state identifier.
pub type StateId = usize;

/// The empty symbol.
pub const EPS_LABEL: Label = 0;

/// Reserved label: "no label", also used for super-final transitions.
pub const NO_LABEL: Label = usize::MAX;

/// Reserved state identifier: "no state".
pub const NO_STATE_ID: StateId = usize::MAX;

/// Marker for a position that has not been assigned yet.
pub const UNASSIGNED: usize = usize::MAX;

/// A transition `(ilabel, olabel, weight, nextstate)`.
#[derive(Clone, Copy, Debug, PartialEq, Eq, Hash)]
pub struct Arc<W> {
    pub ilabel: Label,
    pub olabel: Label,
    pub weight: W,
    pub nextstate: StateId,
}

impl<W> Arc<W> {
    pub fn new(ilabel: Label, olabel: Label, weight: W, nextstate: StateId) -> (r: Self)
        ensures
            r == (Arc { ilabel, olabel, weight, nextstate }),
    {
        Arc { ilabel, olabel, weight, nextstate }
    }
}

} // verus!

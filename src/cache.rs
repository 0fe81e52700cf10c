use vstd::prelude::*;
use crate::arc::Arc;

verus! {

/// The cached part of one state of a lazily expanded transducer: its arcs,
/// its final weight, and whether each of the two is complete.
#[derive(Clone, Debug, PartialEq, Eq)]
pub struct CacheState<W> {
    arcs: Vec<Arc<W>>,
    final_weight: Option<W>,
    cache_arcs: bool,
    cache_final: bool,
}

impl<W> CacheState<W> {
    pub closed spec fn arcs_spec(&self) -> Seq<Arc<W>> {
        self.arcs@
    }

    pub closed spec fn final_spec(&self) -> Option<W> {
        self.final_weight
    }

    pub closed spec fn expanded_spec(&self) -> bool {
        self.cache_arcs
    }

    pub closed spec fn has_final_spec(&self) -> bool {
        self.cache_final
    }

    /// A state about which nothing is cached yet.
    pub fn new() -> (r: Self)
        ensures
            r.arcs_spec().len() == 0,
            r.final_spec() is None,
            !r.expanded_spec(),
            !r.has_final_spec(),
    {
        CacheState { arcs: Vec::new(), final_weight: None, cache_arcs: false, cache_final: false }
    }

    pub fn has_final(&self) -> (r: bool)
        ensures
            r == self.has_final_spec(),
    {
        self.cache_final
    }

    pub fn expanded(&self) -> (r: bool)
        ensures
            r == self.expanded_spec(),
    {
        self.cache_arcs
    }

    /// Records that the arc list is complete; it can no longer grow.
    pub fn mark_expanded(&mut self)
        ensures
            final(self).expanded_spec(),
            final(self).arcs_spec() == old(self).arcs_spec(),
            final(self).final_spec() == old(self).final_spec(),
            final(self).has_final_spec() == old(self).has_final_spec(),
    {
        self.cache_arcs = true;
    }

    /// Records the final weight (`None`: not final) as authoritative.
    pub fn set_final_weight(&mut self, final_weight: Option<W>)
        ensures
            final(self).has_final_spec(),
            final(self).final_spec() == final_weight,
            final(self).arcs_spec() == old(self).arcs_spec(),
            final(self).expanded_spec() == old(self).expanded_spec(),
    {
        self.final_weight = final_weight;
        self.cache_final = true;
    }

    pub fn final_weight(&self) -> (r: Option<&W>)
        ensures
            r == match self.final_spec() {
                Some(w) => Some(&w),
                None => None::<&W>,
            },
    {
        match &self.final_weight {
            Some(w) => Some(w),
            None => None,
        }
    }

    /// Appends an arc while the state is being expanded.
    pub fn push_arc(&mut self, arc: Arc<W>)
        requires
            !old(self).expanded_spec(),
        ensures
            final(self).arcs_spec() == old(self).arcs_spec().push(arc),
            final(self).final_spec() == old(self).final_spec(),
            final(self).expanded_spec() == old(self).expanded_spec(),
            final(self).has_final_spec() == old(self).has_final_spec(),
    {
        self.arcs.push(arc);
    }

    /// Stores the arcs of a state that has none yet.
    pub fn set_arcs(&mut self, arcs: Vec<Arc<W>>)
        requires
            !old(self).expanded_spec(),
            old(self).arcs_spec().len() == 0,
        ensures
            final(self).arcs_spec() == arcs@,
            final(self).final_spec() == old(self).final_spec(),
            final(self).expanded_spec() == old(self).expanded_spec(),
            final(self).has_final_spec() == old(self).has_final_spec(),
    {
        self.arcs = arcs;
    }

    /// Makes room for `n` more arcs; nothing observable changes.
    pub fn reserve_arcs(&mut self, n: usize)
        ensures
            final(self).arcs_spec() == old(self).arcs_spec(),
            final(self).final_spec() == old(self).final_spec(),
            final(self).expanded_spec() == old(self).expanded_spec(),
            final(self).has_final_spec() == old(self).has_final_spec(),
    {
        self.arcs.reserve(n);
    }

    pub fn num_arcs(&self) -> (r: usize)
        ensures
            r == self.arcs_spec().len(),
    {
        self.arcs.len()
    }

    /// The cached arcs, in the order they were pushed.
    pub fn arcs(&self) -> (r: &[Arc<W>])
        ensures
            r@ == self.arcs_spec(),
    {
        self.arcs.as_slice()
    }

    pub fn get_arc(&self, n: usize) -> (r: &Arc<W>)
        requires
            n < self.arcs_spec().len(),
        ensures
            *r == self.arcs_spec()[n as int],
    {
        &self.arcs[n]
    }
}

} // verus!

use wfst::arc::Arc;
use wfst::cache::CacheState;
use wfst::semiring::{BooleanWeight, Semiring};

#[test]
fn cache_state_records_arcs_then_freezes() {
    let mut c: CacheState<BooleanWeight> = CacheState::new();
    assert!(!c.expanded());
    assert!(!c.has_final());
    c.push_arc(Arc::new(1, 2, BooleanWeight::one(), 3));
    c.push_arc(Arc::new(4, 5, BooleanWeight::zero(), 6));
    c.mark_expanded();
    assert!(c.expanded());
    assert_eq!(c.num_arcs(), 2);
    assert_eq!(c.get_arc(1).nextstate, 6);
    assert_eq!(c.arcs()[0].ilabel, 1);
    c.set_final_weight(Some(BooleanWeight::one()));
    assert!(c.has_final());
    assert_eq!(c.final_weight(), Some(&BooleanWeight::one()));
    assert_eq!(c.num_arcs(), 2);
}

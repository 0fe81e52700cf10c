use wfst::arc::{Arc, EPS_LABEL, NO_LABEL, NO_STATE_ID};
use wfst::compose_filters::{NoMatchComposeFilter, SequenceComposeFilter};
use wfst::fst::VectorFst;
use wfst::semiring::{BooleanWeight, Semiring};

fn arc(i: usize, o: usize) -> Arc<BooleanWeight> {
    Arc::new(i, o, BooleanWeight::one(), 0)
}

#[test]
fn sequence_filter_transitions() {
    // State 0 has one epsilon-output arc and one labelled arc.
    let mut f: VectorFst<BooleanWeight> = VectorFst::new();
    f.add_state();
    f.add_state();
    f.add_arc(0, Arc::new(1, EPS_LABEL, BooleanWeight::one(), 1)).unwrap();
    f.add_arc(0, Arc::new(1, 2, BooleanWeight::one(), 1)).unwrap();
    let mut filter = SequenceComposeFilter::new();
    assert_eq!(filter.start(), 0);
    filter.set_state(&f, 0, 0, 0).unwrap();
    assert!(!filter.alleps1);
    assert!(!filter.noeps1);
    // Self-loop on side 1: neither all nor no epsilons, so state 1.
    assert_eq!(filter.filter_arc(&arc(EPS_LABEL, NO_LABEL), &arc(EPS_LABEL, 3)), 1);
    // Self-loop on side 2 at filter state 0.
    assert_eq!(filter.filter_arc(&arc(1, EPS_LABEL), &arc(NO_LABEL, EPS_LABEL)), 0);
    // Real match on a label, and the blocked joint epsilon.
    assert_eq!(filter.filter_arc(&arc(1, 2), &arc(2, 3)), 0);
    assert_eq!(filter.filter_arc(&arc(1, EPS_LABEL), &arc(EPS_LABEL, 3)), NO_STATE_ID);
    // At filter state 1 the side-2 self-loop is blocked.
    filter.set_state(&f, 0, 0, 1).unwrap();
    assert_eq!(filter.filter_arc(&arc(1, EPS_LABEL), &arc(NO_LABEL, EPS_LABEL)), NO_STATE_ID);
}

#[test]
fn sequence_filter_all_epsilon_state_blocks_loop() {
    let mut f: VectorFst<BooleanWeight> = VectorFst::new();
    f.add_state();
    f.add_state();
    f.add_arc(0, Arc::new(1, EPS_LABEL, BooleanWeight::one(), 1)).unwrap();
    let mut filter = SequenceComposeFilter::new();
    filter.set_state(&f, 0, 0, 0).unwrap();
    assert!(filter.alleps1);
    assert_eq!(filter.filter_arc(&arc(EPS_LABEL, NO_LABEL), &arc(EPS_LABEL, 3)), NO_STATE_ID);
    // A state with no epsilon arcs goes back to filter state 0.
    filter.set_state(&f, 1, 0, 0).unwrap();
    assert!(filter.noeps1);
    assert!(filter.set_state(&f, 5, 0, 1).is_err());
}

#[test]
fn no_match_filter_rejects_joint_epsilon_only() {
    let filter = NoMatchComposeFilter::new();
    assert!(filter.start());
    assert!(!filter.filter_arc(&arc(1, EPS_LABEL), &arc(EPS_LABEL, 2)));
    assert!(filter.filter_arc(&arc(1, 3), &arc(EPS_LABEL, 2)));
    assert!(filter.filter_arc(&arc(1, EPS_LABEL), &arc(3, 2)));
}

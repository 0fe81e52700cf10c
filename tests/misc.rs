use wfst::arc::{Arc, EPS_LABEL, NO_LABEL};
use wfst::cache::CacheState;
use wfst::closure::{ClosureFst, ClosureType};
use wfst::fst::{invert, VectorFst};
use wfst::interval_set::{IntInterval, IntervalSet};
use wfst::label_reachable::{LabelReachable, LabelReachableData};
use wfst::lookahead_matcher::LabelLookAheadMatcher;
use wfst::matchers::{IterItemMatcher, MatchType, OUTPUT_LOOKAHEAD_MATCHER};
use wfst::semiring::{BooleanWeight, Semiring, TropicalWeight, WeightQuantize};
use wfst::factor_weight::{FactorWeightOptions, FactorWeightType};

fn w(v: u64) -> TropicalWeight {
    TropicalWeight::new(v)
}

#[test]
fn invert_swaps_labels() {
    let mut f = VectorFst::new();
    f.add_state();
    f.add_state();
    f.add_arc(0, Arc::new(1, 2, w(5), 1)).unwrap();
    f.set_final(1, w(0)).unwrap();
    invert(&mut f);
    let a = &f.arcs(0).unwrap()[0];
    assert_eq!((a.ilabel, a.olabel, a.weight, a.nextstate), (2, 1, w(5), 1));
    assert_eq!(f.final_weight(1).unwrap(), Some(&w(0)));
}

#[test]
fn closure_fst_of_empty_star() {
    let c = ClosureFst::new(VectorFst::<TropicalWeight>::new(), ClosureType::ClosureStar);
    assert_eq!(c.fst().start(), Some(0));
    assert_eq!(c.fst().final_weight(0).unwrap(), Some(&TropicalWeight::one()));
}

#[test]
fn iter_item_into_arc() {
    let a = IterItemMatcher::Arc(Arc::new(3, 4, BooleanWeight::one(), 7));
    assert_eq!(a.into_arc(0, MatchType::MatchInput).unwrap().nextstate, 7);
    let l = IterItemMatcher::<BooleanWeight>::EpsLoop.into_arc(2, MatchType::MatchInput).unwrap();
    assert_eq!((l.ilabel, l.olabel, l.nextstate), (NO_LABEL, EPS_LABEL, 2));
    assert!(IterItemMatcher::<BooleanWeight>::EpsLoop.into_arc(2, MatchType::MatchNone).is_err());
}

fn data_with_intervals(ranges: &[(usize, usize)]) -> LabelReachableData {
    let mut d = LabelReachableData::new(true);
    d.interval_sets = vec![IntervalSet { intervals: ranges.iter().map(|&(b, e)| IntInterval::new(b, e)).collect() }];
    d
}

#[test]
fn reach_scans_arcs_when_they_are_few() {
    // Three intervals, one arc: 2 * 1 < 3, so the arcs are scanned.
    let mut lr = LabelReachable::new_from_data(data_with_intervals(&[(1, 2), (3, 4), (5, 6)]));
    lr.reach_init(&VectorFst::<TropicalWeight>::new(), true).unwrap();
    let arcs = vec![Arc::new(3, 0, w(4), 0)];
    assert_eq!(lr.reach(0, &arcs, 0, 1, true), Ok(Some((0, 1, w(4)))));
    // Epsilon is never reachable.
    let eps = vec![Arc::new(EPS_LABEL, 0, w(4), 0)];
    assert_eq!(lr.reach(0, &eps, 0, 1, true), Ok(None));
}

#[test]
fn reach_scans_intervals_when_arcs_are_many() {
    // One interval [1, 3), three arcs: the intervals are scanned; epsilon is
    // not reachable, labels 1 and 2 are.
    let mut lr = LabelReachable::new_from_data(data_with_intervals(&[(1, 3)]));
    lr.reach_init(&VectorFst::<TropicalWeight>::new(), true).unwrap();
    let arcs = vec![Arc::new(EPS_LABEL, 0, w(1), 0), Arc::new(1, 0, w(4), 0), Arc::new(2, 0, w(2), 0), Arc::new(5, 0, w(1), 0)];
    assert_eq!(lr.reach(0, &arcs, 0, 4, true), Ok(Some((1, 3, w(2)))));
    assert_eq!(lr.reach(0, &arcs, 2, 3, true), Ok(Some((2, 3, w(2)))));
    assert_eq!(lr.reach(0, &arcs, 3, 4, true), Ok(None));
}

#[test]
fn lookahead_matcher_needs_lookahead_flags() {
    let mut f: VectorFst<TropicalWeight> = VectorFst::new();
    f.add_state();
    assert!(LabelLookAheadMatcher::new_with_data(&f, MatchType::MatchOutput, 0, None).is_err());
    let m = LabelLookAheadMatcher::new_with_data(&f, MatchType::MatchOutput, OUTPUT_LOOKAHEAD_MATCHER, None).unwrap();
    assert!(m.data().is_some());
    assert_eq!(m.flags() & OUTPUT_LOOKAHEAD_MATCHER, OUTPUT_LOOKAHEAD_MATCHER);
    // Data for the other side is not used.
    let m2 = LabelLookAheadMatcher::new_with_data(&f, MatchType::MatchInput, OUTPUT_LOOKAHEAD_MATCHER, Some(LabelReachableData::new(false))).unwrap();
    assert!(m2.data().is_none());
    assert_eq!(m2.lookahead_label(0, 5), Ok(true));
}

#[test]
fn cache_reserve_keeps_state() {
    let mut c: CacheState<TropicalWeight> = CacheState::new();
    c.push_arc(Arc::new(1, 1, w(1), 0));
    c.reserve_arcs(10);
    assert_eq!(c.num_arcs(), 1);
}

#[test]
fn tropical_weight_operations() {
    assert_eq!(w(3).plus(&w(5)), w(3));
    assert_eq!(w(3).times(&w(5)), w(8));
    assert_eq!(w(3).times(&TropicalWeight::zero()), TropicalWeight::zero());
    assert_eq!(w(3).times(&TropicalWeight::one()), w(3));
    assert!(TropicalWeight::zero().is_zero());
    assert!(w(u64::MAX - 1).times(&w(5)).is_zero());
}

#[test]
fn tropical_quantize_rounds_down_to_quantum() {
    assert_eq!(w(17).quantize(5), w(15));
    assert_eq!(w(17).quantize(0), w(17));
    assert_eq!(w(17).quantize(1), w(17));
    assert_eq!(TropicalWeight::zero().quantize(5), TropicalWeight::zero());
}

#[test]
fn factor_mode_without_known_flags_is_empty() {
    let odd = FactorWeightType { bits: 4 };
    assert!(odd.is_empty());
    assert!(FactorWeightOptions::new(odd).check().is_err());
}

#[test]
fn reachability_rejects_reserved_label_on_reached_side() {
    let mut f = VectorFst::new();
    f.add_state();
    f.add_state();
    f.add_arc(0, Arc::new(1, NO_LABEL, w(0), 1)).unwrap();
    assert!(LabelReachable::new(&f, false).is_err());
    assert!(LabelReachable::new(&f, true).is_ok());
}

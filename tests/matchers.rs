use wfst::arc::{EPS_LABEL, NO_LABEL};
use wfst::factor_weight::{FactorWeightOptions, FactorWeightType, FACTOR_ARC_WEIGHTS, FACTOR_FINAL_WEIGHTS};
use wfst::matchers::{eps_loop, lookahead_match_type, MatchType, INPUT_LOOKAHEAD_MATCHER, OUTPUT_LOOKAHEAD_MATCHER};
use wfst::semiring::{BooleanWeight, Semiring};

#[test]
fn lookahead_side_follows_matcher_flags() {
    assert_eq!(lookahead_match_type(MatchType::MatchOutput, OUTPUT_LOOKAHEAD_MATCHER, MatchType::MatchInput, 0), MatchType::MatchOutput);
    assert_eq!(lookahead_match_type(MatchType::MatchOutput, 0, MatchType::MatchInput, INPUT_LOOKAHEAD_MATCHER), MatchType::MatchInput);
    assert_eq!(lookahead_match_type(MatchType::MatchOutput, 0, MatchType::MatchInput, 0), MatchType::MatchNone);
}

#[test]
fn eps_loop_marks_matched_side() {
    let a = eps_loop::<BooleanWeight>(4, MatchType::MatchInput).unwrap();
    assert_eq!((a.ilabel, a.olabel, a.nextstate), (NO_LABEL, EPS_LABEL, 4));
    let b = eps_loop::<BooleanWeight>(4, MatchType::MatchOutput).unwrap();
    assert_eq!((b.ilabel, b.olabel), (EPS_LABEL, NO_LABEL));
    assert_eq!(b.weight, BooleanWeight::one());
    assert!(eps_loop::<BooleanWeight>(4, MatchType::MatchBoth).is_err());
}

#[test]
fn factor_weight_type_from_bools() {
    assert_eq!(FactorWeightType::from_bools(true, true).bits, FACTOR_FINAL_WEIGHTS | FACTOR_ARC_WEIGHTS);
    assert_eq!(FactorWeightType::from_bools(true, false).bits, FACTOR_FINAL_WEIGHTS);
    assert_eq!(FactorWeightType::from_bools(false, true).bits, FACTOR_ARC_WEIGHTS);
    assert!(FactorWeightType::from_bools(false, false).is_empty());
    assert!(FactorWeightOptions::new(FactorWeightType::empty()).check().is_err());
    assert!(FactorWeightOptions::new(FactorWeightType::from_bools(true, false)).check().is_ok());
}

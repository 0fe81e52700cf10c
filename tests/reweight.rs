use wfst::arc::Arc;
use wfst::fst::VectorFst;
use wfst::reweight::{reweight, ReweightType};
use wfst::semiring::{BooleanWeight, Semiring};

fn b(v: bool) -> BooleanWeight {
    BooleanWeight::new(v)
}

fn sample() -> VectorFst<BooleanWeight> {
    let mut f = VectorFst::new();
    for _ in 0..3 {
        f.add_state();
    }
    f.set_start(0).unwrap();
    f.add_arc(0, Arc::new(1, 1, b(true), 1)).unwrap();
    f.add_arc(1, Arc::new(2, 2, b(false), 2)).unwrap();
    f.add_arc(0, Arc::new(3, 3, b(true), 2)).unwrap();
    f.set_final(2, b(true)).unwrap();
    f.set_final(0, b(false)).unwrap();
    f
}

#[test]
fn reweight_with_unit_potentials_is_identity() {
    for t in [ReweightType::ReweightToInitial, ReweightType::ReweightToFinal] {
        let mut f = sample();
        let before = sample();
        reweight(&mut f, &[b(true), b(true), b(true)], t).unwrap();
        assert_eq!(f, before);
    }
}

#[test]
fn reweight_to_final_zeroes_finals_without_potential() {
    let mut f = sample();
    // Only state 0 has a potential; state 2's final weight becomes zero.
    reweight(&mut f, &[b(true)], ReweightType::ReweightToFinal).unwrap();
    assert_eq!(f.states[2].final_weight, Some(b(false)));
    assert_eq!(f.states[0].arcs[0].weight, b(true));
}

#[test]
fn reweight_to_final_multiplies_final_by_potential() {
    let mut f = sample();
    reweight(&mut f, &[b(true), b(true), b(false)], ReweightType::ReweightToFinal).unwrap();
    // pi(2) = zero: the final weight of 2 becomes final times zero.
    assert_eq!(f.states[2].final_weight, Some(b(false)));
    // Arcs into a state with zero potential are left alone.
    assert_eq!(f.states[0].arcs[1].weight, b(true));
}

#[test]
fn reweight_empty_fst() {
    let mut f: VectorFst<BooleanWeight> = VectorFst::new();
    assert!(reweight(&mut f, &[], ReweightType::ReweightToInitial).is_ok());
    assert_eq!(f.num_states(), 0);
}

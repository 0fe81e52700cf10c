use wfst::arc::{Arc, EPS_LABEL};
use wfst::closure::{closure, ClosureType};
use wfst::fst::VectorFst;
use wfst::semiring::{Semiring, TropicalWeight};

#[test]
fn closure_star_of_empty_accepts_only_empty_string() {
    let mut f: VectorFst<TropicalWeight> = VectorFst::new();
    closure(&mut f, ClosureType::ClosureStar);
    assert_eq!(f.num_states(), 1);
    assert_eq!(f.start(), Some(0));
    assert_eq!(f.final_weight(0).unwrap(), Some(&TropicalWeight::one()));
    assert_eq!(f.num_arcs(0).unwrap(), 0);
}

fn one_arc() -> VectorFst<TropicalWeight> {
    let mut f = VectorFst::new();
    f.add_state();
    f.add_state();
    f.set_start(0).unwrap();
    f.add_arc(0, Arc::new(1, 1, TropicalWeight::new(2), 1)).unwrap();
    f.set_final(1, TropicalWeight::new(3)).unwrap();
    f
}

#[test]
fn closure_plus_loops_final_back_to_start() {
    let mut f = one_arc();
    closure(&mut f, ClosureType::ClosurePlus);
    assert_eq!(f.num_states(), 2);
    assert_eq!(f.start(), Some(0));
    let back = &f.arcs(1).unwrap()[0];
    assert_eq!((back.ilabel, back.olabel, back.nextstate), (EPS_LABEL, EPS_LABEL, 0));
    assert_eq!(back.weight, TropicalWeight::new(3));
    assert_eq!(f.final_weight(1).unwrap(), Some(&TropicalWeight::new(3)));
}

#[test]
fn closure_star_adds_final_start() {
    let mut f = one_arc();
    closure(&mut f, ClosureType::ClosureStar);
    assert_eq!(f.num_states(), 3);
    assert_eq!(f.start(), Some(2));
    assert_eq!(f.final_weight(2).unwrap(), Some(&TropicalWeight::one()));
    let a = &f.arcs(2).unwrap()[0];
    assert_eq!((a.ilabel, a.olabel, a.nextstate), (EPS_LABEL, EPS_LABEL, 0));
}

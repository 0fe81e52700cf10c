use wfst::arc::Arc;
use wfst::fst::VectorFst;
use wfst::semiring::TropicalWeight;
use wfst::weight_convert::{weight_convert, ReverseWeightConverter};

#[test]
fn reverse_conversion_keeps_commutative_weights() {
    let mut f = VectorFst::new();
    f.add_state();
    f.add_state();
    f.set_start(0).unwrap();
    f.add_arc(0, Arc::new(1, 2, TropicalWeight::new(4), 1)).unwrap();
    f.set_final(1, TropicalWeight::new(6)).unwrap();
    let g: VectorFst<TropicalWeight> = weight_convert(&f, &ReverseWeightConverter).unwrap();
    assert_eq!(g, f);
}

#[test]
fn converting_fst_without_start_gives_empty() {
    let mut f: VectorFst<TropicalWeight> = VectorFst::new();
    f.add_state();
    let g: VectorFst<TropicalWeight> = weight_convert(&f, &ReverseWeightConverter).unwrap();
    assert_eq!(g.num_states(), 0);
    assert_eq!(g.start(), None);
}

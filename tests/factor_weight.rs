use wfst::arc::Arc;
use wfst::factor_weight::{factor_weight, FactorWeightFst, FactorWeightOptions, FactorWeightType, IdentityFactor};
use wfst::fst::VectorFst;
use wfst::semiring::{Semiring, TropicalWeight};

fn w(v: u64) -> TropicalWeight {
    TropicalWeight::new(v)
}

/// Start arc (1, 1, 2) to a final state of weight 3.
fn sample() -> VectorFst<TropicalWeight> {
    let mut f = VectorFst::new();
    f.add_state();
    f.add_state();
    f.set_start(0).unwrap();
    f.add_arc(0, Arc::new(1, 1, w(2), 1)).unwrap();
    f.set_final(1, w(3)).unwrap();
    f
}

fn total_weight(fw: &mut FactorWeightFst<TropicalWeight, IdentityFactor>) -> Option<u64> {
    let s = fw.start().unwrap()?;
    let mut best: Option<u64> = None;
    let mut stack = vec![(s, 0u64, 0usize)];
    while let Some((q, cost, d)) = stack.pop() {
        if let Some(f) = fw.final_weight(q).unwrap() {
            let t = cost + f.value();
            best = Some(best.map_or(t, |b| b.min(t)));
        }
        if d < 8 {
            for a in fw.arcs(q).unwrap() {
                stack.push((a.nextstate, cost + a.weight.value(), d + 1));
            }
        }
    }
    best
}

#[test]
fn factoring_final_weights_keeps_language_weight() {
    let opts = FactorWeightOptions::new(FactorWeightType::from_bools(true, false));
    let mut fw: FactorWeightFst<TropicalWeight, IdentityFactor> = FactorWeightFst::new(sample(), opts).unwrap();
    assert_eq!(total_weight(&mut fw), Some(5));
    let s = fw.start().unwrap().unwrap();
    let arcs = fw.arcs(s).unwrap();
    assert_eq!(arcs.len(), 1);
    assert_eq!((arcs[0].ilabel, arcs[0].olabel, arcs[0].weight), (1, 1, w(2)));
    assert_eq!(fw.final_weight(s).unwrap(), None);
    assert_eq!(fw.final_weight(arcs[0].nextstate).unwrap(), Some(w(3)));
}

#[test]
fn factoring_arc_weights_with_identity_factor() {
    let opts = FactorWeightOptions::new(FactorWeightType::from_bools(false, true));
    let mut fw: FactorWeightFst<TropicalWeight, IdentityFactor> = FactorWeightFst::new(sample(), opts).unwrap();
    assert_eq!(total_weight(&mut fw), Some(5));
    assert!(fw.expand(0).is_err());
    assert!(fw.expand(42).is_err());
}

#[test]
fn factoring_nothing_is_refused() {
    let opts = FactorWeightOptions::new(FactorWeightType::empty());
    let r: Result<FactorWeightFst<TropicalWeight, IdentityFactor>, _> = FactorWeightFst::new(sample(), opts);
    assert!(r.is_err());
}

#[test]
fn eager_factoring_builds_every_state() {
    let opts = FactorWeightOptions::new(FactorWeightType::from_bools(true, false));
    let out = factor_weight::<TropicalWeight, IdentityFactor>(sample(), opts).unwrap();
    assert_eq!(out.num_states(), 2);
    assert_eq!(out.start(), Some(0));
    let a = &out.arcs(0).unwrap()[0];
    assert_eq!((a.ilabel, a.olabel, a.weight), (1, 1, w(2)));
    assert_eq!(out.final_weight(a.nextstate).unwrap(), Some(&w(3)));
    assert_eq!(out.final_weight(0).unwrap(), None);
    assert!(factor_weight::<TropicalWeight, IdentityFactor>(sample(), FactorWeightOptions::new(FactorWeightType::empty())).is_err());
}

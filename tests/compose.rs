use wfst::arc::{Arc, EPS_LABEL};
use wfst::compose::{ComposeFilterKind, ComposeFst};
use wfst::compose_filters::SequenceComposeFilter;
use wfst::fst::VectorFst;
use wfst::lookahead_filter::LookAheadComposeFilter;
use wfst::lookahead_matcher::LabelLookAheadMatcher;
use wfst::matchers::{MatchType, INPUT_LOOKAHEAD_MATCHER, LOOKAHEAD_EPSILONS, LOOKAHEAD_NON_EPSILONS, OUTPUT_LOOKAHEAD_MATCHER};
use wfst::semiring::{Semiring, TropicalWeight};

fn w(v: u64) -> TropicalWeight {
    TropicalWeight::new(v)
}

/// A linear transducer: one arc per `(ilabel, olabel, cost)`, last state final with cost 0.
fn linear(arcs: &[(usize, usize, u64)]) -> VectorFst<TropicalWeight> {
    let mut f = VectorFst::new();
    for _ in 0..=arcs.len() {
        f.add_state();
    }
    f.set_start(0).unwrap();
    for (k, &(i, o, c)) in arcs.iter().enumerate() {
        f.add_arc(k, Arc::new(i, o, w(c), k + 1)).unwrap();
    }
    f.set_final(arcs.len(), TropicalWeight::one()).unwrap();
    f
}

/// Every accepting path of the composition of at most `depth` arcs:
/// (input labels, output labels, total cost), epsilons dropped.
fn paths(c: &mut ComposeFst<TropicalWeight>, depth: usize) -> Vec<(Vec<usize>, Vec<usize>, u64)> {
    let mut out = vec![];
    let start = match c.start().unwrap() {
        Some(s) => s,
        None => return out,
    };
    let mut stack = vec![(start, vec![], vec![], 0u64, 0usize)];
    while let Some((s, ins, outs, cost, d)) = stack.pop() {
        if let Some(fw) = c.final_weight(s).unwrap() {
            out.push((ins.clone(), outs.clone(), cost + fw.value()));
        }
        if d == depth {
            continue;
        }
        for a in c.arcs(s).unwrap() {
            let mut i2 = ins.clone();
            let mut o2 = outs.clone();
            if a.ilabel != EPS_LABEL {
                i2.push(a.ilabel);
            }
            if a.olabel != EPS_LABEL {
                o2.push(a.olabel);
            }
            stack.push((a.nextstate, i2, o2, cost + a.weight.value(), d + 1));
        }
    }
    out
}

fn sequence_compose(a: VectorFst<TropicalWeight>, b: VectorFst<TropicalWeight>) -> ComposeFst<TropicalWeight> {
    ComposeFst::new(a, b, ComposeFilterKind::Sequence(SequenceComposeFilter::new()), MatchType::MatchBoth)
}

#[test]
fn compose_single_arc_transducers() {
    let a = linear(&[(1, 2, 3)]);
    let b = linear(&[(2, 3, 4)]);
    let mut c = sequence_compose(a, b);
    let p = paths(&mut c, 4);
    assert_eq!(p, vec![(vec![1], vec![3], 7)]);
}

#[test]
fn compose_aligns_epsilons_once() {
    let a = linear(&[(1, EPS_LABEL, 1), (EPS_LABEL, 2, 2)]);
    let b = linear(&[(2, 3, 5)]);
    let mut c = sequence_compose(a, b);
    let p = paths(&mut c, 6);
    assert_eq!(p, vec![(vec![1], vec![3], 8)]);
}

#[test]
fn compose_mismatched_labels_accepts_nothing() {
    let a = linear(&[(1, 2, 3)]);
    let b = linear(&[(5, 3, 4)]);
    let mut c = sequence_compose(a, b);
    assert!(paths(&mut c, 4).is_empty());
    let s = c.start().unwrap().unwrap();
    assert!(c.arcs(s).unwrap().is_empty());
}

#[test]
fn expanding_twice_is_refused_and_arcs_stay() {
    let a = linear(&[(1, 2, 3)]);
    let b = linear(&[(2, 3, 4)]);
    let mut c = sequence_compose(a, b);
    let s = c.start().unwrap().unwrap();
    let first = c.arcs(s).unwrap();
    assert!(c.is_expanded(s));
    assert!(c.expand(s).is_err());
    assert_eq!(c.arcs(s).unwrap(), first);
    assert!(c.expand(99).is_err());
}

#[test]
fn compose_without_start_is_empty() {
    let a: VectorFst<TropicalWeight> = VectorFst::new();
    let b = linear(&[(2, 3, 4)]);
    let mut c = sequence_compose(a, b);
    assert_eq!(c.start().unwrap(), None);
}

/// Start state with three arcs whose output labels are 9, 8 and 7, each to a final state.
fn fan() -> VectorFst<TropicalWeight> {
    let mut f = VectorFst::new();
    for _ in 0..4 {
        f.add_state();
    }
    f.set_start(0).unwrap();
    f.add_arc(0, Arc::new(1, 9, w(1), 1)).unwrap();
    f.add_arc(0, Arc::new(2, 8, w(1), 2)).unwrap();
    f.add_arc(0, Arc::new(3, 7, w(1), 3)).unwrap();
    for s in 1..4 {
        f.set_final(s, TropicalWeight::one()).unwrap();
    }
    f
}

#[test]
fn lookahead_prunes_start_expansion() {
    let a = fan();
    assert_eq!(a.num_arcs(0).unwrap(), 3);
    let flags = OUTPUT_LOOKAHEAD_MATCHER | LOOKAHEAD_NON_EPSILONS | LOOKAHEAD_EPSILONS;
    let mut m1 = LabelLookAheadMatcher::new_with_data(&a, MatchType::MatchOutput, flags, None).unwrap();
    // FST2's labels are rewritten into FST1's reachability indices.
    let mut b = linear(&[(7, 7, 0)]);
    let mut relabeler = m1.reachable.clone().unwrap();
    relabeler.relabel_fst(&mut b, true).unwrap();
    m1.reachable = Some(relabeler);
    let m2 = LabelLookAheadMatcher::new_with_data(&b, MatchType::MatchInput, INPUT_LOOKAHEAD_MATCHER, None).unwrap();
    // FST1's output labels are rewritten the same way.
    let mut a2 = a.clone();
    let mut r2 = m1.reachable.clone().unwrap();
    r2.relabel_fst(&mut a2, false).unwrap();
    let filter = LookAheadComposeFilter::new(&a2, &b, m1, m2, MatchType::MatchOutput).unwrap();
    let mut c = ComposeFst::new(a2, b, ComposeFilterKind::LookAhead(filter), MatchType::MatchBoth);
    let s = c.start().unwrap().unwrap();
    let arcs = c.arcs(s).unwrap();
    assert!(arcs.len() <= 1);
    let p = paths(&mut c, 4);
    assert_eq!(p.len(), 1);
    assert_eq!(p[0].2, 1);
}

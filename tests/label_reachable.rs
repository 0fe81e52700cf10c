use wfst::arc::{Arc, EPS_LABEL, NO_LABEL};
use wfst::fst::VectorFst;
use wfst::label_reachable::{LabelReachable, LabelReachableData};
use wfst::semiring::{Semiring, TropicalWeight};

fn w(v: u64) -> TropicalWeight {
    TropicalWeight::new(v)
}

/// 0 -a:9-> 1 -b:8-> 2 -c:7-> 3 (final)
fn chain() -> VectorFst<TropicalWeight> {
    let mut f = VectorFst::new();
    for _ in 0..4 {
        f.add_state();
    }
    f.set_start(0).unwrap();
    f.add_arc(0, Arc::new(1, 9, w(1), 1)).unwrap();
    f.add_arc(1, Arc::new(2, 8, w(1), 2)).unwrap();
    f.add_arc(2, Arc::new(3, 7, w(1), 3)).unwrap();
    f.set_final(3, TropicalWeight::one()).unwrap();
    f
}

fn index(lr: &LabelReachable, label: usize) -> usize {
    lr.data().label2index().iter().find(|p| p.0 == label).unwrap().1
}

#[test]
fn reachability_on_output_labels() {
    let f = chain();
    let lr = LabelReachable::new(&f, false).unwrap();
    assert!(!lr.reach_input());
    let i9 = index(&lr, 9);
    let i8 = index(&lr, 8);
    let i7 = index(&lr, 7);
    // Each state reaches exactly the label of its own outgoing arc.
    assert_eq!(lr.reach_label(0, i9), Ok(true));
    assert_eq!(lr.reach_label(0, i7), Ok(false));
    assert_eq!(lr.reach_label(1, i8), Ok(true));
    assert_eq!(lr.reach_label(2, i7), Ok(true));
    assert_eq!(lr.reach_label(2, i9), Ok(false));
    assert_eq!(lr.reach_label(0, EPS_LABEL), Ok(false));
    // Only the final state reaches the final label.
    assert_eq!(lr.reach_final(3), Ok(true));
    assert_eq!(lr.reach_final(0), Ok(false));
    assert!(lr.reach_label(9, i9).is_err());
    assert!(lr.data().final_label() != NO_LABEL);
}

#[test]
fn epsilon_arcs_pass_reachability_through() {
    // 0 -eps-> 1 -x:5-> 2 (final)
    let mut f = VectorFst::new();
    for _ in 0..3 {
        f.add_state();
    }
    f.set_start(0).unwrap();
    f.add_arc(0, Arc::new(1, EPS_LABEL, w(0), 1)).unwrap();
    f.add_arc(1, Arc::new(2, 5, w(0), 2)).unwrap();
    f.set_final(2, w(0)).unwrap();
    let lr = LabelReachable::new(&f, false).unwrap();
    let i5 = index(&lr, 5);
    assert_eq!(lr.reach_label(0, i5), Ok(true));
    assert_eq!(lr.reach_final(0), Ok(false));
}

#[test]
fn relabel_assigns_fresh_indices() {
    let mut lr = LabelReachable::new_from_data(LabelReachableData::new(true));
    assert_eq!(lr.relabel(EPS_LABEL), EPS_LABEL);
    assert_eq!(lr.relabel(42), 1);
    assert_eq!(lr.relabel(17), 2);
    assert_eq!(lr.relabel(42), 1);
    assert_eq!(lr.data().label2index().len(), 2);
}

#[test]
fn relabel_pairs_with_and_without_collisions() {
    let mut data = LabelReachableData::new(true);
    data.label2index = vec![(10, 1), (20, 3), (30, 2)];
    data.final_label = 2;
    let lr = LabelReachable::new_from_data(data);
    assert_eq!(lr.relabel_pairs(false), vec![(10, 1), (20, 3)]);
    // Label 1 is unmapped, 2 unmapped, 3 unmapped: each pairs with n + 1 = 4.
    assert_eq!(lr.relabel_pairs(true), vec![(10, 1), (20, 3), (1, 4), (2, 4), (3, 4)]);
}

#[test]
fn reach_init_needs_sorted_operand() {
    let mut lr = LabelReachable::new_from_data(LabelReachableData::new(false));
    // Sorted on input labels, not on output labels.
    let mut f = VectorFst::new();
    f.add_state();
    f.add_arc(0, Arc::new(1, 5, w(0), 0)).unwrap();
    f.add_arc(0, Arc::new(2, 3, w(0), 0)).unwrap();
    assert!(lr.reach_init(&f, true).is_ok());
    assert!(lr.reach_fst_input);
    assert!(lr.reach_init(&f, false).is_err());
}

#[test]
fn reach_finds_reachable_arc_range_and_weight() {
    let f = chain();
    let lr0 = LabelReachable::new(&f, false).unwrap();
    let i9 = index(&lr0, 9);
    let i8 = index(&lr0, 8);
    let mut lr = LabelReachable::new_from_data(lr0.data().clone());
    lr.reach_init(&VectorFst::<TropicalWeight>::new(), true).unwrap();
    // Arcs sorted on input label, the labels being reachability indices.
    let mut arcs = vec![
        Arc::new(i9.min(i8), 0, w(3), 0),
        Arc::new(i9.max(i8), 0, w(5), 0),
        Arc::new(100, 0, w(7), 0),
    ];
    arcs.sort_by_key(|a| a.ilabel);
    // From state 0 only the label of its own arc (9) is reachable.
    let r = lr.reach(0, &arcs, 0, 3, true).unwrap().unwrap();
    let pos = arcs.iter().position(|a| a.ilabel == i9).unwrap();
    assert_eq!((r.0, r.1), (pos, pos + 1));
    assert_eq!(r.2, arcs[pos].weight);
    // Without the weight, zero is returned.
    let r2 = lr.reach(0, &arcs, 0, 3, false).unwrap().unwrap();
    assert_eq!(r2.2, TropicalWeight::zero());
    // Nothing is reachable from the final state.
    assert_eq!(lr.reach(3, &arcs, 0, 3, true), Ok(None));
    assert!(lr.reach(17, &arcs, 0, 3, true).is_err());
}

#[test]
fn relabel_fst_rewrites_and_sorts() {
    let mut lr = LabelReachable::new_from_data(LabelReachableData::new(true));
    let mut f = VectorFst::new();
    f.add_state();
    f.add_state();
    f.add_arc(0, Arc::new(50, 1, w(0), 1)).unwrap();
    f.add_arc(0, Arc::new(40, 2, w(0), 1)).unwrap();
    f.add_arc(0, Arc::new(50, 3, w(0), 1)).unwrap();
    lr.relabel_fst(&mut f, true).unwrap();
    let labels: Vec<(usize, usize)> = f.arcs(0).unwrap().iter().map(|a| (a.ilabel, a.olabel)).collect();
    // 50 -> 1, 40 -> 2; sorted by the new input label, stable.
    assert_eq!(labels, vec![(1, 1), (1, 3), (2, 2)]);
}

use vstd::prelude::*;
use crate::arc::{Arc, Label, StateId, EPS_LABEL, NO_LABEL};
use crate::fst::{FstState, VectorFst};
use crate::label_reachable::{keys_unique, has_key, side_label};
use crate::semiring::Semiring;
use crate::error::FstError;

verus! {

/// Some pair of `p` is `(l, v)`.
pub open spec fn maps_to(p: Seq<(Label, StateId)>, l: Label, v: StateId) -> bool {
    exists|i: int| 0 <= i < p.len() && p[i] == (l, v)
}

/// No arc of the states `0..n` of `states` enters `t`.
pub open spec fn no_incoming<W>(states: Seq<FstState<W>>, n: int, t: int) -> bool {
    forall|s: int, k: int| 0 <= s < n && 0 <= k < states[s].arcs@.len() ==> (#[trigger] states[s].arcs@[k]).nextstate != t
}

/// The states `t < m` that no arc of the states `0..n` enters, in order.
pub open spec fn unentered<W>(states: Seq<FstState<W>>, n: int, m: int) -> Seq<StateId>
    decreases m,
{
    if m <= 0 {
        seq![]
    } else if no_incoming(states, n, m - 1) {
        unentered(states, n, m - 1).push((m - 1) as StateId)
    } else {
        unentered(states, n, m - 1)
    }
}

/// `l` labels (on the chosen side) some arc of `f`, or is `NO_LABEL` and
/// some state of `f` has a non-zero final weight.
pub open spec fn label_sourced<W: Semiring>(f: VectorFst<W>, reach_input: bool, l: Label) -> bool {
    (exists|s: int, k: int|
        0 <= s < f.states@.len() && 0 <= k < f.states@[s].arcs@.len() && side_label(#[trigger] f.states@[s].arcs@[k], reach_input) == l)
        || (l == NO_LABEL && exists|s: int|
        0 <= s < f.states@.len() && ((#[trigger] f.states@[s]).final_weight matches Some(w) && w != W::zero_spec()))
}

/// The number of arcs of the states `0..n`.
pub open spec fn arcs_before<W>(states: Seq<FstState<W>>, n: int) -> nat
    decreases n,
{
    if n <= 0 {
        0
    } else {
        arcs_before(states, n - 1) + states[n - 1].arcs@.len()
    }
}

/// The number of arcs of `f`.
pub open spec fn total_arcs<W>(f: VectorFst<W>) -> nat {
    arcs_before(f.states@, f.states@.len() as int)
}

pub proof fn lemma_arcs_before_mono<W>(states: Seq<FstState<W>>, a: int, b: int)
    requires
        0 <= a <= b,
    ensures
        arcs_before(states, a) <= arcs_before(states, b),
    decreases b - a,
{
    if a < b {
        lemma_arcs_before_mono(states, a, b - 1);
    }
}

/// `out` is `f` with its labelled arcs (on the side `reach_input` names)
/// sent to one new final state per label, each final state of non-zero
/// weight given an arc labelled `NO_LABEL` to the state of `NO_LABEL`, and a
/// new start state with an epsilon arc to every state nothing enters.
/// `l2s` pairs each such label with its new state.
pub open spec fn is_label_transform<W: Semiring>(f: VectorFst<W>, reach_input: bool, out: VectorFst<W>, l2s: Seq<(Label, StateId)>) -> bool {
    let ins = f.states@.len() as int;
    let ons = ins + l2s.len();
    &&& keys_unique(l2s)
    &&& forall|i: int| 0 <= i < l2s.len() ==> (#[trigger] l2s[i]).1 == ins + i
    &&& out.states@.len() == ons + 1
    &&& out.start == Some(ons as StateId)
    &&& forall|s: int| 0 <= s < ins ==> #[trigger] state_done(f, reach_input, out.states@[s], l2s, s)
    &&& forall|t: int| ins <= t < ons ==> (#[trigger] out.states@[t]).arcs@.len() == 0
        && out.states@[t].final_weight == Some(W::one_spec())
    &&& out.states@[ons].final_weight is None
    &&& out.states@[ons].arcs@ == unentered(out.states@, ons, ons).map_values(
        |t: StateId| Arc { ilabel: EPS_LABEL, olabel: EPS_LABEL, weight: W::one_spec(), nextstate: t },
    )
    &&& forall|i: int| 0 <= i < l2s.len() ==> (#[trigger] l2s[i]).0 != EPS_LABEL
    &&& forall|i: int| 0 <= i < l2s.len() ==> label_sourced(f, reach_input, (#[trigger] l2s[i]).0)
}

/// `b` is arc `a` with its target redirected as the transform does.
pub open spec fn arc_done<W>(a: Arc<W>, b: Arc<W>, reach_input: bool, l2s: Seq<(Label, StateId)>) -> bool {
    &&& b.ilabel == a.ilabel
    &&& b.olabel == a.olabel
    &&& b.weight == a.weight
    &&& (side_label(a, reach_input) == EPS_LABEL ==> b.nextstate == a.nextstate)
    &&& (side_label(a, reach_input) != EPS_LABEL ==> maps_to(l2s, side_label(a, reach_input), b.nextstate))
}

/// State `s` of `states` is state `s` of `f` transformed.
pub open spec fn state_done<W: Semiring>(f: VectorFst<W>, reach_input: bool, st: FstState<W>, l2s: Seq<(Label, StateId)>, s: int) -> bool {
    let a = f.states@[s].arcs@;
    let b = st.arcs@;
    &&& forall|k: int| 0 <= k < a.len() ==> arc_done(a[k], #[trigger] b[k], reach_input, l2s)
    &&& match f.states@[s].final_weight {
        Some(fw) => if fw != W::zero_spec() {
            &&& b.len() == a.len() + 1
            &&& b[a.len() as int].ilabel == NO_LABEL
            &&& b[a.len() as int].olabel == NO_LABEL
            &&& b[a.len() as int].weight == fw
            &&& maps_to(l2s, NO_LABEL, b[a.len() as int].nextstate)
            &&& st.final_weight is None
        } else {
            b.len() == a.len() && st.final_weight == Some(fw)
        },
        None => b.len() == a.len() && st.final_weight is None,
    }
}

proof fn lemma_state_done_push<W: Semiring>(f: VectorFst<W>, reach_input: bool, states: Seq<FstState<W>>, l2s: Seq<(Label, StateId)>, e: (Label, StateId), s: int)
    requires
        state_done(f, reach_input, states[s], l2s, s),
    ensures
        state_done(f, reach_input, states[s], l2s.push(e), s),
{
    let a = f.states@[s].arcs@;
    let b = states[s].arcs@;
    assert forall|k: int| 0 <= k < a.len() implies arc_done(a[k], #[trigger] b[k], reach_input, l2s.push(e)) by {
        if side_label(a[k], reach_input) != EPS_LABEL {
            lemma_maps_to_push(l2s, e, side_label(a[k], reach_input), b[k].nextstate);
        }
    }
    if let Some(fw) = f.states@[s].final_weight {
        if fw != W::zero_spec() {
            lemma_maps_to_push(l2s, e, NO_LABEL, b[a.len() as int].nextstate);
        }
    }
}

/// Every arc of the states `0..n` leads to a state below `m`.
pub open spec fn bounded<W>(states: Seq<FstState<W>>, n: int, m: int) -> bool {
    forall|s: int, k: int| 0 <= s < n && 0 <= k < states[s].arcs@.len() ==> (#[trigger] states[s].arcs@[k]).nextstate < m
}

proof fn lemma_done_bounded<W: Semiring>(f: VectorFst<W>, reach_input: bool, states: Seq<FstState<W>>, l2s: Seq<(Label, StateId)>)
    requires
        f.wf(),
        states.len() >= f.states@.len(),
        forall|i: int| 0 <= i < l2s.len() ==> (#[trigger] l2s[i]).1 == f.states@.len() + i,
        forall|u: int| 0 <= u < f.states@.len() ==> state_done(f, reach_input, states[u], l2s, u),
        forall|u: int| f.states@.len() <= u < states.len() ==> (#[trigger] states[u]).arcs@.len() == 0,
    ensures
        bounded(states, states.len() as int, (f.states@.len() + l2s.len()) as int),
{
    let m = (f.states@.len() + l2s.len()) as int;
    assert forall|s: int, k: int| 0 <= s < states.len() && 0 <= k < states[s].arcs@.len() implies (#[trigger] states[s].arcs@[k]).nextstate < m by {
        if s < f.states@.len() {
            assert(state_done(f, reach_input, states[s], l2s, s));
            let a = f.states@[s].arcs@;
            let b = states[s].arcs@;
            if k < a.len() {
                assert(arc_done(a[k], b[k], reach_input, l2s));
                if side_label(a[k], reach_input) != EPS_LABEL {
                    let i = choose|i: int| 0 <= i < l2s.len() && l2s[i] == (side_label(a[k], reach_input), b[k].nextstate);
                }
            } else {
                let i = choose|i: int| 0 <= i < l2s.len() && l2s[i] == (NO_LABEL, b[k].nextstate);
            }
        }
    }
}

/// For each `x < n`, whether some arc of the states `0..n` enters `x`.
fn entered_states<W>(states: &Vec<FstState<W>>, n: usize) -> (r: Vec<bool>)
    requires
        n <= states@.len(),
        bounded(states@, n as int, n as int),
    ensures
        r@.len() == n,
        forall|x: int| 0 <= x < n ==> #[trigger] r@[x] == !no_incoming(states@, n as int, x),
{
    let mut has_in: Vec<bool> = Vec::new();
    let mut x: usize = 0;
    while x < n
        invariant
            0 <= x <= n,
            has_in@.len() == x,
            forall|y: int| 0 <= y < x ==> !(#[trigger] has_in@[y]),
        decreases n - x,
    {
        has_in.push(false);
        x = x + 1;
    }
    let mut s: usize = 0;
    while s < n
        invariant
            0 <= s <= n,
            n <= states@.len(),
            bounded(states@, n as int, n as int),
            has_in@.len() == n,
            forall|y: int| 0 <= y < n ==> #[trigger] has_in@[y] == !no_incoming(states@, s as int, y),
        decreases n - s,
    {
        let arcs = &states[s].arcs;
        let mut k: usize = 0;
        while k < arcs.len()
            invariant
                0 <= k <= arcs@.len(),
                s < n,
                n <= states@.len(),
                *arcs == states@[s as int].arcs,
                bounded(states@, n as int, n as int),
                has_in@.len() == n,
                forall|y: int| 0 <= y < n ==> #[trigger] has_in@[y] == (!no_incoming(states@, s as int, y)
                    || exists|j: int| 0 <= j < k && (#[trigger] arcs@[j]).nextstate == y),
            decreases arcs@.len() - k,
        {
            let t = arcs[k].nextstate;
            assert(states@[s as int].arcs@[k as int].nextstate < n);
            has_in.set(t, true);
            proof {
                assert forall|y: int| 0 <= y < n implies #[trigger] has_in@[y] == (!no_incoming(states@, s as int, y)
                    || exists|j: int| 0 <= j < k + 1 && (#[trigger] arcs@[j]).nextstate == y) by {
                    if y == t {
                        assert(arcs@[k as int].nextstate == y);
                    }
                }
            }
            k = k + 1;
        }
        proof {
            assert forall|y: int| 0 <= y < n implies #[trigger] has_in@[y] == !no_incoming(states@, s + 1, y) by {
                if !no_incoming(states@, s + 1, y) {
                    let (s2, k2) = choose|s2: int, k2: int| 0 <= s2 < s + 1 && 0 <= k2 < states@[s2].arcs@.len() && (#[trigger] states@[s2].arcs@[k2]).nextstate == y;
                    if s2 < s {
                        assert(!no_incoming(states@, s as int, y));
                    } else {
                        assert(arcs@[k2].nextstate == y);
                    }
                }
                if exists|j: int| 0 <= j < arcs@.len() && (#[trigger] arcs@[j]).nextstate == y {
                    let j = choose|j: int| 0 <= j < arcs@.len() && (#[trigger] arcs@[j]).nextstate == y;
                    assert(states@[s as int].arcs@[j].nextstate == y);
                }
                if !no_incoming(states@, s as int, y) {
                    let (s2, k2) = choose|s2: int, k2: int| 0 <= s2 < s && 0 <= k2 < states@[s2].arcs@.len() && (#[trigger] states@[s2].arcs@[k2]).nextstate == y;
                    assert(states@[s2].arcs@[k2].nextstate == y);
                }
            }
        }
        s = s + 1;
    }
    has_in
}

proof fn lemma_unentered_same<W>(a: Seq<FstState<W>>, b: Seq<FstState<W>>, n: int, m: int)
    requires
        forall|x: int| 0 <= x < m ==> no_incoming(a, n, x) == no_incoming(b, n, x),
    ensures
        unentered(a, n, m) == unentered(b, n, m),
    decreases m,
{
    if m > 0 {
        lemma_unentered_same(a, b, n, m - 1);
    }
}

proof fn lemma_unentered_below<W>(a: Seq<FstState<W>>, n: int, m: int)
    ensures
        forall|i: int| 0 <= i < unentered(a, n, m).len() ==> (#[trigger] unentered(a, n, m)[i]) < m,
    decreases m,
{
    if m > 0 {
        lemma_unentered_below(a, n, m - 1);
        let p = unentered(a, n, m - 1);
        if no_incoming(a, n, m - 1) {
            assert(unentered(a, n, m) == p.push((m - 1) as StateId));
        }
    }
}

proof fn lemma_maps_to_push(p: Seq<(Label, StateId)>, e: (Label, StateId), l: Label, v: StateId)
    requires
        maps_to(p, l, v),
    ensures
        maps_to(p.push(e), l, v),
{
    let i = choose|i: int| 0 <= i < p.len() && p[i] == (l, v);
    assert(p.push(e)[i] == (l, v));
}

/// The state of `label` in `l2s`, added as state `ins + l2s.len()` if new.
fn state_of_label(l2s: &mut Vec<(Label, StateId)>, ins: usize, label: Label) -> (r: StateId)
    requires
        keys_unique(old(l2s)@),
        forall|i: int| 0 <= i < old(l2s)@.len() ==> (#[trigger] old(l2s)@[i]).1 == ins + i,
        forall|i: int| 0 <= i < old(l2s)@.len() ==> (#[trigger] old(l2s)@[i]).0 != EPS_LABEL,
        label != EPS_LABEL,
        ins + old(l2s)@.len() + 2 < usize::MAX,
    ensures
        keys_unique(final(l2s)@),
        forall|i: int| 0 <= i < final(l2s)@.len() ==> (#[trigger] final(l2s)@[i]).1 == ins + i,
        forall|i: int| 0 <= i < final(l2s)@.len() ==> (#[trigger] final(l2s)@[i]).0 != EPS_LABEL,
        maps_to(final(l2s)@, label, r),
        r < ins + final(l2s)@.len(),
        final(l2s)@ == old(l2s)@ || final(l2s)@ == old(l2s)@.push((label, r)),
{
    match find_label(l2s, label) {
        Some(i) => {
            let r = l2s[i].1;
            assert(l2s@[i as int] == (label, r));
            r
        },
        None => {
            let r = ins + l2s.len();
            l2s.push((label, r));
            proof {
                let p = l2s@;
                assert(p[p.len() - 1] == (label, r));
                assert forall|a: int, b: int| 0 <= a < b < p.len() implies (#[trigger] p[a]).0 != (#[trigger] p[b]).0 by {
                    if b == p.len() - 1 {
                        assert(p[a] == old(l2s)@[a]);
                    } else {
                        assert(p[a] == old(l2s)@[a]);
                        assert(p[b] == old(l2s)@[b]);
                    }
                }
            }
            r
        },
    }
}

/// Builds the transformed copy of `f` that label reachability is computed
/// on (see `is_label_transform`), with the pairs `(label, state)` of its
/// label-specific final states. Fails only when the state count would not
/// fit in a `usize`.
pub fn transform_fst<W: Semiring>(f: &VectorFst<W>, reach_input: bool) -> (r: Result<(VectorFst<W>, Vec<(Label, StateId)>), FstError>)
    requires
        f.wf(),
    ensures
        r matches Ok((out, l2s)) ==> is_label_transform(*f, reach_input, out, l2s@) && out.wf(),
        r matches Ok((out, l2s)) ==> l2s@.len() <= f.states@.len() + total_arcs(*f),
        r is Err ==> r == Err::<(VectorFst<W>, Vec<(Label, StateId)>), FstError>(FstError::Internal),
        2 * f.states@.len() + total_arcs(*f) + 4 < usize::MAX ==> r is Ok,
{
    let ins = f.states.len();
    if ins >= usize::MAX - 3 {
        return Err(FstError::Internal);
    }
    let mut l2s: Vec<(Label, StateId)> = Vec::new();
    let mut states: Vec<FstState<W>> = Vec::new();
    let mut s: usize = 0;
    while s < ins
        invariant
            f.wf(),
            ins == f.states@.len(),
            0 <= s <= ins,
            states@.len() == s,
            ins + l2s@.len() < usize::MAX - 1,
            ins < usize::MAX - 3,
            keys_unique(l2s@),
            forall|i: int| 0 <= i < l2s@.len() ==> (#[trigger] l2s@[i]).1 == ins + i,
            forall|i: int| 0 <= i < l2s@.len() ==> (#[trigger] l2s@[i]).0 != EPS_LABEL,
            forall|t: int| 0 <= t < s ==> state_done(*f, reach_input, states@[t], l2s@, t),
            forall|i: int| 0 <= i < l2s@.len() ==> label_sourced(*f, reach_input, (#[trigger] l2s@[i]).0),
            l2s@.len() <= arcs_before(f.states@, s as int) + s,
        decreases ins - s,
    {
        let src = &f.states[s];
        let n_arcs = src.arcs.len();
        let mut arcs: Vec<Arc<W>> = Vec::new();
        let mut k: usize = 0;
        while k < n_arcs
            invariant
                f.wf(),
                ins == f.states@.len(),
                s < ins,
                *src == f.states@[s as int],
                ins < usize::MAX - 3,
                n_arcs == src.arcs@.len(),
                0 <= k <= n_arcs,
                arcs@.len() == k,
                states@.len() == s,
                ins + l2s@.len() < usize::MAX - 1,
                keys_unique(l2s@),
                forall|i: int| 0 <= i < l2s@.len() ==> (#[trigger] l2s@[i]).1 == ins + i,
                forall|i: int| 0 <= i < l2s@.len() ==> (#[trigger] l2s@[i]).0 != EPS_LABEL,
                forall|t: int| 0 <= t < s ==> state_done(*f, reach_input, states@[t], l2s@, t),
                forall|j: int| 0 <= j < k ==> arc_done(src.arcs@[j], #[trigger] arcs@[j], reach_input, l2s@),
                forall|i: int| 0 <= i < l2s@.len() ==> label_sourced(*f, reach_input, (#[trigger] l2s@[i]).0),
                l2s@.len() <= arcs_before(f.states@, s as int) + k + s,
            decreases n_arcs - k,
        {
            let a = &src.arcs[k];
            let label = if reach_input {
                a.ilabel
            } else {
                a.olabel
            };
            let next = if label != EPS_LABEL {
                proof {
                    lemma_arcs_before_mono(f.states@, s + 1, ins as int);
                    assert(arcs_before(f.states@, s + 1) == arcs_before(f.states@, s as int) + n_arcs);
                }
                if l2s.len() >= usize::MAX - 3 - ins {
                    return Err(FstError::Internal);
                }
                let ghost before = l2s@;
                let v = state_of_label(&mut l2s, ins, label);
                proof {
                    assert forall|i: int| 0 <= i < l2s@.len() implies label_sourced(*f, reach_input, (#[trigger] l2s@[i]).0) by {
                        if i < before.len() {
                            assert(l2s@[i] == before[i]);
                        } else {
                            assert(side_label(f.states@[s as int].arcs@[k as int], reach_input) == label);
                        }
                    }
                }
                proof {
                    if l2s@ != before {
                        assert forall|t: int| 0 <= t < s implies state_done(*f, reach_input, states@[t], l2s@, t) by {
                            lemma_state_done_push(*f, reach_input, states@, before, (label, v), t);
                        }
                        assert forall|j: int| 0 <= j < k implies arc_done(src.arcs@[j], #[trigger] arcs@[j], reach_input, l2s@) by {
                            if side_label(src.arcs@[j], reach_input) != EPS_LABEL {
                                lemma_maps_to_push(before, (label, v), side_label(src.arcs@[j], reach_input), arcs@[j].nextstate);
                            }
                        }
                    }
                }
                v
            } else {
                a.nextstate
            };
            arcs.push(Arc { ilabel: a.ilabel, olabel: a.olabel, weight: a.weight.duplicate(), nextstate: next });
            k = k + 1;
        }
        let mut final_weight: Option<W> = None;
        match &src.final_weight {
            Some(fw) => {
                if !fw.is_zero() {
                    proof {
                        lemma_arcs_before_mono(f.states@, s + 1, ins as int);
                        assert(arcs_before(f.states@, s + 1) == arcs_before(f.states@, s as int) + n_arcs);
                    }
                    if l2s.len() >= usize::MAX - 3 - ins {
                        return Err(FstError::Internal);
                    }
                    let ghost before = l2s@;
                    let v = state_of_label(&mut l2s, ins, NO_LABEL);
                    proof {
                        assert forall|i: int| 0 <= i < l2s@.len() implies label_sourced(*f, reach_input, (#[trigger] l2s@[i]).0) by {
                            if i < before.len() {
                                assert(l2s@[i] == before[i]);
                            } else {
                                assert(f.states@[s as int].final_weight == Some(*fw));
                            }
                        }
                    }
                    proof {
                        if l2s@ != before {
                            assert forall|t: int| 0 <= t < s implies state_done(*f, reach_input, states@[t], l2s@, t) by {
                                lemma_state_done_push(*f, reach_input, states@, before, (NO_LABEL, v), t);
                            }
                            assert forall|j: int| 0 <= j < k implies arc_done(src.arcs@[j], #[trigger] arcs@[j], reach_input, l2s@) by {
                                if side_label(src.arcs@[j], reach_input) != EPS_LABEL {
                                    lemma_maps_to_push(before, (NO_LABEL, v), side_label(src.arcs@[j], reach_input), arcs@[j].nextstate);
                                }
                            }
                        }
                    }
                    arcs.push(Arc { ilabel: NO_LABEL, olabel: NO_LABEL, weight: fw.duplicate(), nextstate: v });
                } else {
                    final_weight = Some(fw.duplicate());
                }
            },
            None => {},
        }
        let ghost prev = states@;
        states.push(FstState { arcs, final_weight });
        proof {
            assert forall|t: int| 0 <= t < s + 1 implies state_done(*f, reach_input, states@[t], l2s@, t) by {
                if t < s {
                    assert(states@[t] == prev[t]);
                } else {
                    assert(states@[t].arcs@ == arcs@);
                }
            }
        }
        s = s + 1;
    }
    let ons = ins + l2s.len();
    let mut t: usize = ins;
    while t < ons
        invariant
            ins <= t <= ons,
            ins == f.states@.len(),
            ons == ins + l2s@.len(),
            ons < usize::MAX - 1,
            states@.len() == t,
            forall|u: int| 0 <= u < ins ==> state_done(*f, reach_input, states@[u], l2s@, u),
            forall|u: int| ins <= u < t ==> (#[trigger] states@[u]).arcs@.len() == 0
                && states@[u].final_weight == Some(W::one_spec()),
        decreases ons - t,
    {
        let ghost prev = states@;
        states.push(FstState { arcs: Vec::new(), final_weight: Some(W::one()) });
        proof {
            assert forall|u: int| 0 <= u < ins implies state_done(*f, reach_input, states@[u], l2s@, u) by {
                assert(states@[u] == prev[u]);
            }
        }
        t = t + 1;
    }
    proof {
        lemma_done_bounded(*f, reach_input, states@, l2s@);
    }
    let has_in = entered_states(&states, ons);
    let mut start_arcs: Vec<Arc<W>> = Vec::new();
    let mut u: usize = 0;
    while u < ons
        invariant
            0 <= u <= ons,
            ons == states@.len(),
            has_in@.len() == ons,
            forall|x: int| 0 <= x < ons ==> #[trigger] has_in@[x] == !no_incoming(states@, ons as int, x),
            start_arcs@ == unentered(states@, ons as int, u as int).map_values(
                |t: StateId| Arc { ilabel: EPS_LABEL, olabel: EPS_LABEL, weight: W::one_spec(), nextstate: t },
            ),
        decreases ons - u,
    {
        if !has_in[u] {
            start_arcs.push(Arc { ilabel: EPS_LABEL, olabel: EPS_LABEL, weight: W::one(), nextstate: u });
        }
        proof {
            let g = |t: StateId| Arc { ilabel: EPS_LABEL, olabel: EPS_LABEL, weight: W::one_spec(), nextstate: t };
            let prev = unentered(states@, ons as int, u as int);
            if no_incoming(states@, ons as int, u as int) {
                assert(unentered(states@, ons as int, u + 1) == prev.push(u as StateId));
                assert(prev.push(u as StateId).map_values(g) =~= prev.map_values(g).push(g(u as StateId)));
            }
        }
        u = u + 1;
    }
    let ghost built = states@;
    states.push(FstState { arcs: start_arcs, final_weight: None });
    let out = VectorFst { states, start: Some(ons) };
    proof {
        assert forall|x: int| 0 <= x < ons implies no_incoming(out.states@, ons as int, x) == no_incoming(built, ons as int, x) by {
            if no_incoming(built, ons as int, x) {
                assert forall|s2: int, k2: int| 0 <= s2 < ons && 0 <= k2 < out.states@[s2].arcs@.len() implies (#[trigger] out.states@[s2].arcs@[k2]).nextstate != x by {
                    assert(out.states@[s2] == built[s2]);
                }
            } else {
                let (s2, k2) = choose|s2: int, k2: int| 0 <= s2 < ons && 0 <= k2 < built[s2].arcs@.len() && (#[trigger] built[s2].arcs@[k2]).nextstate == x;
                assert(out.states@[s2] == built[s2]);
                assert(out.states@[s2].arcs@[k2].nextstate == x);
            }
        }
        lemma_unentered_same(built, out.states@, ons as int, ons as int);
        assert forall|u2: int| 0 <= u2 < ins implies #[trigger] state_done(*f, reach_input, out.states@[u2], l2s@, u2) by {
            assert(out.states@[u2] == built[u2]);
        }
        assert forall|u2: int| ins <= u2 < ons implies (#[trigger] out.states@[u2]).arcs@.len() == 0
            && out.states@[u2].final_weight == Some(W::one_spec()) by {
            assert(out.states@[u2] == built[u2]);
        }
        lemma_unentered_below(built, ons as int, ons as int);
        assert forall|s2: int, k2: int|
            0 <= s2 < out.states@.len() && 0 <= k2 < out.states@[s2].arcs@.len() implies (
            #[trigger] out.states@[s2].arcs@[k2]).nextstate < out.states@.len() by {
            if s2 < ons {
                assert(out.states@[s2] == built[s2]);
                assert(built[s2].arcs@[k2].nextstate < ons);
            } else {
                let g = |t: StateId| Arc { ilabel: EPS_LABEL, olabel: EPS_LABEL, weight: W::one_spec(), nextstate: t };
                assert(out.states@[s2].arcs@[k2] == g(unentered(built, ons as int, ons as int)[k2]));
            }
        }
    }
    Ok((out, l2s))
}

/// Position of `label` among the first components of `l2s`, if any.
fn find_label(l2s: &Vec<(Label, StateId)>, label: Label) -> (r: Option<usize>)
    ensures
        r matches Some(i) ==> i < l2s@.len() && l2s@[i as int].0 == label,
        r is None ==> !has_key(l2s@, label),
{
    let mut i: usize = 0;
    while i < l2s.len()
        invariant
            0 <= i <= l2s@.len(),
            forall|k: int| 0 <= k < i ==> (#[trigger] l2s@[k]).0 != label,
        decreases l2s@.len() - i,
    {
        if l2s[i].0 == label {
            return Some(i);
        }
        i = i + 1;
    }
    None
}

} // verus!

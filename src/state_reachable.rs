use vstd::prelude::*;
use crate::arc::UNASSIGNED;
use crate::error::FstError;
use crate::fst::{FstState, VectorFst};
use crate::interval_set::{covers, IntervalSet};
use crate::semiring::Semiring;

verus! {

/// `t` can be reached from `s` along at most `r` arcs.
pub open spec fn reaches_within<W>(states: Seq<FstState<W>>, s: int, t: int, r: nat) -> bool
    decreases r,
{
    s == t || (r > 0 && exists|k: int|
        0 <= k < states[s].arcs@.len() && reaches_within(states, (#[trigger] states[s].arcs@[k]).nextstate as int, t, (r - 1) as nat))
}

/// A final state of non-zero weight.
pub open spec fn is_sink<W: Semiring>(st: FstState<W>) -> bool {
    st.final_weight matches Some(w) && w != W::zero_spec()
}

/// The number of sinks among the states `0..t`.
pub open spec fn sinks_before<W: Semiring>(states: Seq<FstState<W>>, t: int) -> nat
    decreases t,
{
    if t <= 0 {
        0
    } else {
        sinks_before(states, t - 1) + if is_sink(states[t - 1]) {
            1nat
        } else {
            0nat
        }
    }
}

/// Index `i` is that of a sink reachable from `u` along at most `r` arcs.
pub open spec fn reaches_index<W: Semiring>(states: Seq<FstState<W>>, s2i: Seq<usize>, u: int, r: nat, i: int) -> bool {
    exists|t: int| 0 <= t < states.len() && is_sink(#[trigger] states[t]) && s2i[t] == i && reaches_within(states, u, t, r)
}

/// For each state, the set of indices of the sinks it can reach.
#[derive(Clone, Debug, PartialEq, Eq)]
pub struct StateReachable {
    /// Index of each sink (final state of non-zero weight), counting from 1
    /// in state order; `UNASSIGNED` for the other states.
    pub state2index: Vec<usize>,
    /// The reachable sink indices of each state.
    pub isets: Vec<IntervalSet>,
}

impl StateReachable {
    /// Computes, for every state of `fst`, the indices of the sinks reachable
    /// from it along at most as many arcs as `fst` has states: each state
    /// starts from its own index, then takes the union of its targets' sets,
    /// once per state of `fst`.
    pub fn new<W: Semiring>(fst: &VectorFst<W>) -> (r: Result<Self, FstError>)
        requires
            fst.wf(),
        ensures
            r matches Ok(sr) ==> {
                let states = fst.states@;
                &&& sr.state2index@.len() == states.len()
                &&& sr.isets@.len() == states.len()
                &&& forall|t: int| 0 <= t < states.len() ==> (#[trigger] sr.state2index@[t]) == if is_sink(states[t]) {
                    (sinks_before(states, t) + 1) as usize
                } else {
                    UNASSIGNED
                }
                &&& forall|u: int| 0 <= u < states.len() ==> (#[trigger] sr.isets@[u]).wf()
                &&& forall|u: int, i: int| 0 <= u < states.len() ==> (#[trigger] covers(sr.isets@[u].intervals@, i)
                    <==> reaches_index(states, sr.state2index@, u, states.len(), i))
            },
            r is Err ==> r == Err::<StateReachable, FstError>(FstError::Internal),
            r is Err <==> fst.states@.len() >= usize::MAX - 2,
    {
        let n = fst.states.len();
        if n >= usize::MAX - 2 {
            return Err(FstError::Internal);
        }
        let ghost states = fst.states@;
        let mut state2index: Vec<usize> = Vec::new();
        let mut isets: Vec<IntervalSet> = Vec::new();
        let mut next_index: usize = 1;
        let mut t: usize = 0;
        while t < n
            invariant
                0 <= t <= n,
                n == states.len(),
                states == fst.states@,
                n < usize::MAX - 2,
                next_index == sinks_before(states, t as int) + 1,
                sinks_before(states, t as int) <= t,
                state2index@.len() == t,
                isets@.len() == t,
                forall|x: int| 0 <= x < t ==> (#[trigger] state2index@[x]) == if is_sink(states[x]) {
                    (sinks_before(states, x) + 1) as usize
                } else {
                    UNASSIGNED
                },
                forall|x: int| 0 <= x < t ==> (#[trigger] isets@[x]).wf(),
                forall|x: int, i: int| 0 <= x < t ==> (#[trigger] covers(isets@[x].intervals@, i) <==> (is_sink(states[x]) && i == sinks_before(states, x) + 1)),
            decreases n - t,
        {
            let sink = match &fst.states[t].final_weight {
                Some(w) => !w.is_zero(),
                None => false,
            };
            if sink {
                state2index.push(next_index);
                let single = IntervalSet::singleton(next_index);
                proof {
                    assert forall|i: int| covers(single.intervals@, i) <==> i == next_index by {
                        if i == next_index {
                            assert(single.intervals@[0].contains(i));
                        }
                    }
                }
                isets.push(single);
                next_index = next_index + 1;
            } else {
                state2index.push(UNASSIGNED);
                isets.push(IntervalSet::new());
            }
            t = t + 1;
        }
        proof {
            assert forall|x: int| 0 <= x < n implies sinks_before(states, x) <= x by {
                lemma_sink_count_le(states, x);
            }
            lemma_sink_index_unique(states, state2index@);
            assert forall|x: int, i: int| 0 <= x < n implies (#[trigger] covers(isets@[x].intervals@, i)
                <==> reaches_index(states, state2index@, x, 0, i)) by {
                lemma_sink_count_le(states, x);
                if covers(isets@[x].intervals@, i) {
                    assert(reaches_within(states, x, x, 0));
                    assert(is_sink(states[x]) && state2index@[x] == i);
                }
                if reaches_index(states, state2index@, x, 0, i) {
                    let t = choose|t: int| 0 <= t < states.len() && is_sink(#[trigger] states[t]) && state2index@[t] == i && reaches_within(states, x, t, 0);
                    assert(t == x);
                }
            }
        }
        let mut round: usize = 0;
        while round < n
            invariant
                0 <= round <= n,
                n == states.len(),
                states == fst.states@,
                fst.wf(),
                state2index@.len() == n,
                isets@.len() == n,
                forall|x: int| 0 <= x < n ==> (#[trigger] state2index@[x]) == if is_sink(states[x]) {
                    (sinks_before(states, x) + 1) as usize
                } else {
                    UNASSIGNED
                },
                forall|x: int| 0 <= x < n ==> sinks_before(states, x) <= x,
                n < usize::MAX - 2,
                forall|a: int, b: int| 0 <= a < n && 0 <= b < n && is_sink(states[a]) && is_sink(states[b]) && #[trigger] state2index@[a] == #[trigger] state2index@[b] ==> a == b,
                forall|x: int| 0 <= x < n ==> (#[trigger] isets@[x]).wf(),
                forall|x: int, i: int| 0 <= x < n ==> (#[trigger] covers(isets@[x].intervals@, i) <==> reaches_index(states, state2index@, x, round as nat, i)),
            decreases n - round,
        {
            let mut next: Vec<IntervalSet> = Vec::new();
            let mut s: usize = 0;
            while s < n
                invariant
                    0 <= s <= n,
                    round < n,
                    n == states.len(),
                    states == fst.states@,
                    fst.wf(),
                    state2index@.len() == n,
                    isets@.len() == n,
                    next@.len() == s,
                    forall|x: int| 0 <= x < n ==> sinks_before(states, x) <= x,
                    n < usize::MAX - 2,
                    forall|x: int| 0 <= x < n ==> (#[trigger] state2index@[x]) == if is_sink(states[x]) {
                        (sinks_before(states, x) + 1) as usize
                    } else {
                        UNASSIGNED
                    },
                    forall|a: int, b: int| 0 <= a < n && 0 <= b < n && is_sink(states[a]) && is_sink(states[b]) && #[trigger] state2index@[a] == #[trigger] state2index@[b] ==> a == b,
                    forall|x: int| 0 <= x < n ==> (#[trigger] isets@[x]).wf(),
                    forall|x: int, i: int| 0 <= x < n ==> (#[trigger] covers(isets@[x].intervals@, i) <==> reaches_index(states, state2index@, x, round as nat, i)),
                    forall|x: int| 0 <= x < s ==> (#[trigger] next@[x]).wf(),
                    forall|x: int, i: int| 0 <= x < s ==> (#[trigger] covers(next@[x].intervals@, i) <==> reaches_index(states, state2index@, x, (round + 1) as nat, i)),
                decreases n - s,
            {
                let sink = is_sink_state(&fst.states[s]);
                let mut acc = if sink {
                    IntervalSet::singleton(state2index[s])
                } else {
                    IntervalSet::new()
                };
                proof {
                    assert forall|i: int| covers(acc.intervals@, i) <==> (sink && i == state2index@[s as int]) by {
                        if sink && i == state2index@[s as int] {
                            assert(acc.intervals@[0].contains(i));
                        }
                    }
                }
                let arcs = &fst.states[s].arcs;
                let mut k: usize = 0;
                while k < arcs.len()
                    invariant
                        0 <= k <= arcs@.len(),
                        s < n,
                        n == states.len(),
                        states == fst.states@,
                        *arcs == states[s as int].arcs,
                        fst.wf(),
                        isets@.len() == n,
                        forall|x: int| 0 <= x < n ==> (#[trigger] isets@[x]).wf(),
                        acc.wf(),
                        forall|i: int| covers(acc.intervals@, i) <==> ((is_sink(states[s as int]) && i == state2index@[s as int])
                            || exists|j: int| 0 <= j < k && covers(isets@[(#[trigger] arcs@[j]).nextstate as int].intervals@, i)),
                    decreases arcs@.len() - k,
                {
                    let target = arcs[k].nextstate;
                    assert(states[s as int].arcs@[k as int].nextstate < n);
                    let ghost before = acc.intervals@;
                    acc.union(&isets[target]);
                    proof {
                        assert forall|i: int| covers(acc.intervals@, i) <==> ((is_sink(states[s as int]) && i == state2index@[s as int])
                            || exists|j: int| 0 <= j < k + 1 && covers(isets@[(#[trigger] arcs@[j]).nextstate as int].intervals@, i)) by {
                            if covers(isets@[target as int].intervals@, i) {
                                assert(arcs@[k as int].nextstate == target);
                            }
                            if exists|j: int| 0 <= j < k + 1 && covers(isets@[(#[trigger] arcs@[j]).nextstate as int].intervals@, i) {
                                let j = choose|j: int| 0 <= j < k + 1 && covers(isets@[(#[trigger] arcs@[j]).nextstate as int].intervals@, i);
                                if j < k {
                                    assert(exists|j2: int| 0 <= j2 < k && covers(isets@[(#[trigger] arcs@[j2]).nextstate as int].intervals@, i));
                                }
                            }
                        }
                    }
                    k = k + 1;
                }
                proof {
                    lemma_step(states, state2index@, isets@, s as int, round as nat, acc.intervals@);
                }
                next.push(acc);
                s = s + 1;
            }
            isets = next;
            round = round + 1;
        }
        Ok(StateReachable { state2index, isets })
    }
}

fn is_sink_state<W: Semiring>(st: &FstState<W>) -> (r: bool)
    ensures
        r == is_sink(*st),
{
    match &st.final_weight {
        Some(w) => !w.is_zero(),
        None => false,
    }
}

proof fn lemma_sinks_before_mono<W: Semiring>(states: Seq<FstState<W>>, a: int, b: int)
    requires
        0 <= a <= b,
    ensures
        sinks_before(states, a) <= sinks_before(states, b),
        a < b && is_sink(states[a]) ==> sinks_before(states, a) < sinks_before(states, b),
    decreases b - a,
{
    if a < b {
        lemma_sinks_before_mono(states, a, b - 1);
        if is_sink(states[a]) && a < b - 1 {
            lemma_sinks_before_mono(states, a + 1, b - 1);
        }
    }
}

proof fn lemma_sink_index_unique<W: Semiring>(states: Seq<FstState<W>>, s2i: Seq<usize>)
    requires
        s2i.len() == states.len(),
        states.len() < usize::MAX - 2,
        forall|x: int| 0 <= x < states.len() ==> sinks_before(states, x) <= x,
        forall|x: int| 0 <= x < states.len() ==> (#[trigger] s2i[x]) == if is_sink(states[x]) {
            (sinks_before(states, x) + 1) as usize
        } else {
            UNASSIGNED
        },
    ensures
        forall|a: int, b: int| 0 <= a < states.len() && 0 <= b < states.len() && is_sink(states[a]) && is_sink(states[b]) && #[trigger] s2i[a] == #[trigger] s2i[b] ==> a == b,
{
    assert forall|a: int, b: int| 0 <= a < states.len() && 0 <= b < states.len() && is_sink(states[a]) && is_sink(states[b]) && #[trigger] s2i[a] == #[trigger] s2i[b] implies a == b by {
        lemma_sink_count_le(states, a);
        lemma_sink_count_le(states, b);
        if a < b {
            lemma_sinks_before_mono(states, a, b);
        } else if b < a {
            lemma_sinks_before_mono(states, b, a);
        }
    }
}

pub proof fn lemma_sink_count_le<W: Semiring>(states: Seq<FstState<W>>, t: int)
    requires
        t >= 0,
    ensures
        sinks_before(states, t) <= t,
    decreases t,
{
    if t > 0 {
        lemma_sink_count_le(states, t - 1);
    }
}

/// One round: the sinks reachable from `s` within `r + 1` arcs are its own
/// index and those its targets reach within `r`.
proof fn lemma_step<W: Semiring>(states: Seq<FstState<W>>, s2i: Seq<usize>, cur: Seq<IntervalSet>, s: int, r: nat, acc: Seq<crate::interval_set::IntInterval>)
    requires
        0 <= s < states.len(),
        cur.len() == states.len(),
        s2i.len() == states.len(),
        forall|a: int, b: int| 0 <= a < states.len() && 0 <= b < states.len() && is_sink(states[a]) && is_sink(states[b]) && #[trigger] s2i[a] == #[trigger] s2i[b] ==> a == b,
        forall|x: int, i: int| 0 <= x < states.len() ==> (#[trigger] covers(cur[x].intervals@, i) <==> reaches_index(states, s2i, x, r, i)),
        forall|k: int| 0 <= k < states[s].arcs@.len() ==> (#[trigger] states[s].arcs@[k]).nextstate < states.len(),
        forall|i: int| covers(acc, i) <==> ((is_sink(states[s]) && i == s2i[s])
            || exists|j: int| 0 <= j < states[s].arcs@.len() && covers(cur[(#[trigger] states[s].arcs@[j]).nextstate as int].intervals@, i)),
    ensures
        forall|i: int| covers(acc, i) <==> reaches_index(states, s2i, s, r + 1, i),
{
    assert forall|i: int| covers(acc, i) <==> reaches_index(states, s2i, s, r + 1, i) by {
        if covers(acc, i) {
            if is_sink(states[s]) && i == s2i[s] {
                assert(reaches_within(states, s, s, r + 1));
            } else {
                let j = choose|j: int| 0 <= j < states[s].arcs@.len() && covers(cur[(#[trigger] states[s].arcs@[j]).nextstate as int].intervals@, i);
                let u = states[s].arcs@[j].nextstate as int;
                assert(reaches_index(states, s2i, u, r, i));
                let t = choose|t: int| 0 <= t < states.len() && is_sink(#[trigger] states[t]) && s2i[t] == i && reaches_within(states, u, t, r);
                assert(reaches_within(states, s, t, r + 1));
            }
        }
        if reaches_index(states, s2i, s, r + 1, i) {
            let t = choose|t: int| 0 <= t < states.len() && is_sink(#[trigger] states[t]) && s2i[t] == i && reaches_within(states, s, t, r + 1);
            if s == t {
            } else {
                let k = choose|k: int|
                    0 <= k < states[s].arcs@.len() && reaches_within(states, (#[trigger] states[s].arcs@[k]).nextstate as int, t, r);
                let u = states[s].arcs@[k].nextstate as int;
                assert(reaches_index(states, s2i, u, r, i));
                assert(covers(cur[u].intervals@, i));
            }
        }
    }
}

} // verus!

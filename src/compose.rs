use vstd::prelude::*;
use crate::arc::{Arc, StateId, EPS_LABEL, NO_LABEL, NO_STATE_ID};
use crate::cache::CacheState;
use crate::compose_filters::{sequence_next, SequenceComposeFilter};
use crate::error::FstError;
use crate::fst::{count_output_eps, VectorFst};
use crate::lookahead_filter::LookAheadComposeFilter;
use crate::matchers::{has_flag, MatchType, LOOKAHEAD_EPSILONS, LOOKAHEAD_NON_EPSILONS};
use crate::semiring::Semiring;

verus! {

/// The composition filter an engine runs.
#[derive(Clone, Debug, PartialEq, Eq)]
pub enum ComposeFilterKind<W> {
    Sequence(SequenceComposeFilter),
    LookAhead(LookAheadComposeFilter<W>),
}

/// The epsilon self-loop that holds FST1 in place while FST2 moves.
pub open spec fn loop1<W: Semiring>(s1: StateId) -> Arc<W> {
    Arc { ilabel: EPS_LABEL, olabel: NO_LABEL, weight: W::one_spec(), nextstate: s1 }
}

/// The epsilon self-loop that holds FST2 in place while FST1 moves.
pub open spec fn loop2<W: Semiring>(s2: StateId) -> Arc<W> {
    Arc { ilabel: NO_LABEL, olabel: EPS_LABEL, weight: W::one_spec(), nextstate: s2 }
}

/// The moves of FST1 from `s1`: its self-loop, then its arcs.
pub open spec fn items1<W: Semiring>(f: VectorFst<W>, s1: StateId) -> Seq<Arc<W>> {
    seq![loop1::<W>(s1)] + f.states@[s1 as int].arcs@
}

/// The moves of FST2 from `s2`: its self-loop, then its arcs.
pub open spec fn items2<W: Semiring>(f: VectorFst<W>, s2: StateId) -> Seq<Arc<W>> {
    seq![loop2::<W>(s2)] + f.states@[s2 as int].arcs@
}

/// A move of FST1 and a move of FST2 that can be taken together: the
/// self-loop of one side with an epsilon of the other, or two arcs whose
/// output and input labels agree.
pub open spec fn joins<W>(x1: Arc<W>, x2: Arc<W>) -> bool {
    (x1.olabel == NO_LABEL && x2.ilabel == EPS_LABEL) || (x2.ilabel == NO_LABEL && x1.olabel == EPS_LABEL) || (
    x1.olabel == x2.ilabel && x1.olabel != NO_LABEL)
}

/// What the filter, in the state `set_state` left it in, returns on the
/// pair: `Some` of the next filter state (`NO_STATE_ID` when blocked), or
/// `None` when the filter fails.
#[verifier::opaque]
pub open spec fn filter_outcome<W: Semiring>(f: ComposeFilterKind<W>, fst1: VectorFst<W>, fst2: VectorFst<W>, x1: Arc<W>, x2: Arc<W>) -> Option<StateId> {
    match f {
        ComposeFilterKind::Sequence(sf) => Some(sequence_next(sf.alleps1, sf.noeps1, sf.fs, x1.olabel, x2.ilabel)),
        ComposeFilterKind::LookAhead(lf) => {
            let fs = sequence_next(lf.filter.alleps1, lf.filter.noeps1, lf.filter.fs, x1.olabel, x2.ilabel);
            let out = lf.output_side();
            let a = if out { x1 } else { x2 };
            let b = if out { x2 } else { x1 };
            let label = if out { a.olabel } else { a.ilabel };
            let skip = (label != EPS_LABEL && !has_flag(lf.flags, LOOKAHEAD_NON_EPSILONS)) || (label == EPS_LABEL
                && !has_flag(lf.flags, LOOKAHEAD_EPSILONS));
            let m = if out { lf.matcher1 } else { lf.matcher2 };
            let other = if out { fst2 } else { fst1 };
            if fs == NO_STATE_ID {
                Some(NO_STATE_ID)
            } else if skip {
                Some(fs)
            } else if !m.lookahead_ok(a.nextstate, other, b.nextstate) {
                None
            } else if m.lookahead_value(a.nextstate, other, b.nextstate) {
                Some(fs)
            } else {
                Some(NO_STATE_ID)
            }
        },
    }
}

/// Two filters that give the same outcomes: they differ at most in what
/// look-ahead records between calls.
pub open spec fn same_outcomes<W: Semiring>(f: ComposeFilterKind<W>, g: ComposeFilterKind<W>) -> bool {
    match (f, g) {
        (ComposeFilterKind::Sequence(a), ComposeFilterKind::Sequence(b)) => a == b,
        (ComposeFilterKind::LookAhead(a), ComposeFilterKind::LookAhead(b)) => {
            &&& a.filter == b.filter
            &&& a.smt == b.smt
            &&& a.lookahead_type == b.lookahead_type
            &&& a.flags == b.flags
            &&& a.matcher1.match_type == b.matcher1.match_type
            &&& a.matcher2.match_type == b.matcher2.match_type
            &&& (a.matcher1.reachable is Some <==> b.matcher1.reachable is Some)
            &&& (a.matcher2.reachable is Some <==> b.matcher2.reachable is Some)
            &&& (a.matcher1.reachable matches Some(r) ==> r.data == b.matcher1.reachable->Some_0.data)
            &&& (a.matcher2.reachable matches Some(r) ==> r.data == b.matcher2.reachable->Some_0.data)
        },
        _ => false,
    }
}

/// `arc` is the product arc of the pair, into the state the table gives
/// `(x1.nextstate, x2.nextstate, fs)`.
pub open spec fn product_arc<W: Semiring>(table: Seq<(StateId, StateId, StateId)>, x1: Arc<W>, x2: Arc<W>, fs: StateId, arc: Arc<W>) -> bool {
    &&& arc.ilabel == x1.ilabel
    &&& arc.olabel == x2.olabel
    &&& arc.weight == x1.weight.times_spec(x2.weight)
    &&& arc.nextstate < table.len()
    &&& table[arc.nextstate as int] == (x1.nextstate, x2.nextstate, fs)
}

/// The pair joins and the filter lets it through.
pub open spec fn accepted<W: Semiring>(f: ComposeFilterKind<W>, fst1: VectorFst<W>, fst2: VectorFst<W>, x1: Arc<W>, x2: Arc<W>) -> bool {
    joins(x1, x2) && filter_outcome(f, fst1, fst2, x1, x2) is Some && filter_outcome(f, fst1, fst2, x1, x2)->Some_0 != NO_STATE_ID
}

/// `arc` is the product arc of some joining pair of moves from `(s1, s2)`
/// that the filter lets through.
pub open spec fn from_kept_pair<W: Semiring>(
    f: ComposeFilterKind<W>,
    fst1: VectorFst<W>,
    fst2: VectorFst<W>,
    s1: StateId,
    s2: StateId,
    table: Seq<(StateId, StateId, StateId)>,
    arc: Arc<W>,
) -> bool {
    let i1 = items1(fst1, s1);
    let i2 = items2(fst2, s2);
    exists|a: int, b: int|
        0 <= a < i1.len() && 0 <= b < i2.len() && #[trigger] accepted(f, fst1, fst2, i1[a], i2[b])
            && product_arc(table, i1[a], i2[b], filter_outcome(f, fst1, fst2, i1[a], i2[b])->Some_0, arc)
}

/// The arcs of product state `(s1, s2)` are exactly those of the joining
/// pairs the filter lets through, each once per pair.
pub open spec fn arcs_complete<W: Semiring>(
    f: ComposeFilterKind<W>,
    fst1: VectorFst<W>,
    fst2: VectorFst<W>,
    s1: StateId,
    s2: StateId,
    table: Seq<(StateId, StateId, StateId)>,
    arcs: Seq<Arc<W>>,
) -> bool {
    let i1 = items1(fst1, s1);
    let i2 = items2(fst2, s2);
    &&& forall|k: int| 0 <= k < arcs.len() ==> #[trigger] from_kept_pair(f, fst1, fst2, s1, s2, table, arcs[k])
    &&& forall|a: int, b: int|
        0 <= a < i1.len() && 0 <= b < i2.len() && #[trigger] accepted(f, fst1, fst2, i1[a], i2[b]) ==> exists|k: int|
            0 <= k < arcs.len() && product_arc(table, i1[a], i2[b], filter_outcome(f, fst1, fst2, i1[a], i2[b])->Some_0, #[trigger] arcs[k])
}


/// Whether two moves can be taken together.
fn joins_exec<W>(x1: &Arc<W>, x2: &Arc<W>) -> (r: bool)
    ensures
        r == joins(*x1, *x2),
{
    (x1.olabel == NO_LABEL && x2.ilabel == EPS_LABEL) || (x2.ilabel == NO_LABEL && x1.olabel == EPS_LABEL) || (x1.olabel
        == x2.ilabel && x1.olabel != NO_LABEL)
}

proof fn lemma_same_outcome<W: Semiring>(f: ComposeFilterKind<W>, g: ComposeFilterKind<W>, fst1: VectorFst<W>, fst2: VectorFst<W>, x1: Arc<W>, x2: Arc<W>)
    requires
        same_outcomes(f, g),
    ensures
        filter_outcome(f, fst1, fst2, x1, x2) == filter_outcome(g, fst1, fst2, x1, x2),
{
    reveal(filter_outcome);
}

proof fn lemma_same_outcomes_trans<W: Semiring>(a: ComposeFilterKind<W>, b: ComposeFilterKind<W>, c: ComposeFilterKind<W>)
    requires
        same_outcomes(a, b),
        same_outcomes(b, c),
    ensures
        same_outcomes(a, c),
{
}

/// Every move leads to a state of its FST.
proof fn lemma_items_bounded<W: Semiring>(fst1: VectorFst<W>, fst2: VectorFst<W>, s1: StateId, s2: StateId)
    requires
        fst1.wf(),
        fst2.wf(),
        s1 < fst1.states@.len(),
        s2 < fst2.states@.len(),
    ensures
        forall|a: int| 0 <= a < items1(fst1, s1).len() ==> (#[trigger] items1(fst1, s1)[a]).nextstate < fst1.states@.len(),
        forall|b: int| 0 <= b < items2(fst2, s2).len() ==> (#[trigger] items2(fst2, s2)[b]).nextstate < fst2.states@.len(),
{
    assert forall|a: int| 0 <= a < items1(fst1, s1).len() implies (#[trigger] items1(fst1, s1)[a]).nextstate < fst1.states@.len() by {
        if a > 0 {
            assert(items1(fst1, s1)[a] == fst1.states@[s1 as int].arcs@[a - 1]);
        }
    }
    assert forall|b: int| 0 <= b < items2(fst2, s2).len() implies (#[trigger] items2(fst2, s2)[b]).nextstate < fst2.states@.len() by {
        if b > 0 {
            assert(items2(fst2, s2)[b] == fst2.states@[s2 as int].arcs@[b - 1]);
        }
    }
}

/// Pair `(a, b)` of moves has been handled once the double loop reached
/// outer position `j` and inner position `i`.
pub open spec fn processed(match_input: bool, j: int, i: int, a: int, b: int) -> bool {
    if match_input {
        a < j || (a == j && b < i)
    } else {
        b < j || (b == j && a < i)
    }
}

/// Each arc of `arcs` is the product arc of the handled, kept pair that
/// `origin` names for it.
pub open spec fn pairs_sound<W: Semiring>(
    f: ComposeFilterKind<W>,
    fst1: VectorFst<W>,
    fst2: VectorFst<W>,
    s1: StateId,
    s2: StateId,
    table: Seq<(StateId, StateId, StateId)>,
    arcs: Seq<Arc<W>>,
    origin: Seq<(int, int)>,
    match_input: bool,
    j: int,
    i: int,
) -> bool {
    let i1 = items1(fst1, s1);
    let i2 = items2(fst2, s2);
    &&& origin.len() == arcs.len()
    &&& forall|k: int| #![trigger origin[k]] 0 <= k < arcs.len() ==> {
        let a = origin[k].0;
        let b = origin[k].1;
        &&& 0 <= a < i1.len()
        &&& 0 <= b < i2.len()
        &&& processed(match_input, j, i, a, b)
        &&& accepted(f, fst1, fst2, i1[a], i2[b])
        &&& product_arc(table, i1[a], i2[b], filter_outcome(f, fst1, fst2, i1[a], i2[b])->Some_0, arcs[k])
    }
}

/// Each handled pair that is kept has its product arc in `arcs`.
pub open spec fn pairs_complete<W: Semiring>(
    f: ComposeFilterKind<W>,
    fst1: VectorFst<W>,
    fst2: VectorFst<W>,
    s1: StateId,
    s2: StateId,
    table: Seq<(StateId, StateId, StateId)>,
    arcs: Seq<Arc<W>>,
    match_input: bool,
    j: int,
    i: int,
) -> bool {
    let i1 = items1(fst1, s1);
    let i2 = items2(fst2, s2);
    forall|a: int, b: int|
        0 <= a < i1.len() && 0 <= b < i2.len() && processed(match_input, j, i, a, b) && #[trigger] accepted(f, fst1, fst2, i1[a], i2[b]) ==> exists|k: int|
            0 <= k < arcs.len() && product_arc(table, i1[a], i2[b], filter_outcome(f, fst1, fst2, i1[a], i2[b])->Some_0, #[trigger] arcs[k])
}

/// `arcs` are exactly the product arcs of the handled pairs that are kept.
pub open spec fn pairs_done<W: Semiring>(
    f: ComposeFilterKind<W>,
    fst1: VectorFst<W>,
    fst2: VectorFst<W>,
    s1: StateId,
    s2: StateId,
    table: Seq<(StateId, StateId, StateId)>,
    arcs: Seq<Arc<W>>,
    origin: Seq<(int, int)>,
    match_input: bool,
    j: int,
    i: int,
) -> bool {
    pairs_sound(f, fst1, fst2, s1, s2, table, arcs, origin, match_input, j, i) && pairs_complete(f, fst1, fst2, s1, s2, table, arcs, match_input, j, i)
}

proof fn lemma_product_arc_extend<W: Semiring>(t: Seq<(StateId, StateId, StateId)>, t2: Seq<(StateId, StateId, StateId)>, x1: Arc<W>, x2: Arc<W>, fs: StateId, arc: Arc<W>)
    requires
        t2.len() >= t.len(),
        t2.subrange(0, t.len() as int) == t,
        product_arc(t, x1, x2, fs, arc),
    ensures
        product_arc(t2, x1, x2, fs, arc),
{
    assert(t2.subrange(0, t.len() as int)[arc.nextstate as int] == t2[arc.nextstate as int]);
}

proof fn lemma_pairs_step_sound<W: Semiring>(
    f: ComposeFilterKind<W>,
    fst1: VectorFst<W>,
    fst2: VectorFst<W>,
    s1: StateId,
    s2: StateId,
    t: Seq<(StateId, StateId, StateId)>,
    t2: Seq<(StateId, StateId, StateId)>,
    arcs: Seq<Arc<W>>,
    arcs2: Seq<Arc<W>>,
    origin: Seq<(int, int)>,
    origin2: Seq<(int, int)>,
    match_input: bool,
    j: int,
    i: int,
    new: Option<Arc<W>>,
)
    requires
        pairs_sound(f, fst1, fst2, s1, s2, t, arcs, origin, match_input, j, i),
        t2.len() >= t.len(),
        t2.subrange(0, t.len() as int) == t,
        ({
            let a = if match_input { j } else { i };
            let b = if match_input { i } else { j };
            let x1 = items1(fst1, s1)[a];
            let x2 = items2(fst2, s2)[b];
            &&& 0 <= a < items1(fst1, s1).len()
            &&& 0 <= b < items2(fst2, s2).len()
            &&& match new {
                None => arcs2 == arcs && origin2 == origin,
                Some(arc) => arcs2 == arcs.push(arc) && origin2 == origin.push((a, b)) && accepted(f, fst1, fst2, x1, x2) && product_arc(
                    t2,
                    x1,
                    x2,
                    filter_outcome(f, fst1, fst2, x1, x2)->Some_0,
                    arc,
                ),
            }
        }),
    ensures
        pairs_sound(f, fst1, fst2, s1, s2, t2, arcs2, origin2, match_input, j, i + 1),
{
    let i1 = items1(fst1, s1);
    let i2 = items2(fst2, s2);
    assert forall|k: int| #![trigger origin2[k]] 0 <= k < arcs2.len() implies {
        let a = origin2[k].0;
        let b = origin2[k].1;
        &&& 0 <= a < i1.len()
        &&& 0 <= b < i2.len()
        &&& processed(match_input, j, i + 1, a, b)
        &&& accepted(f, fst1, fst2, i1[a], i2[b])
        &&& product_arc(t2, i1[a], i2[b], filter_outcome(f, fst1, fst2, i1[a], i2[b])->Some_0, arcs2[k])
    } by {
        if k < arcs.len() {
            assert(arcs2[k] == arcs[k]);
            assert(origin2[k] == origin[k]);
            let a = origin[k].0;
            let b = origin[k].1;
            lemma_product_arc_extend(t, t2, i1[a], i2[b], filter_outcome(f, fst1, fst2, i1[a], i2[b])->Some_0, arcs[k]);
        }
    }
}

proof fn lemma_pairs_step_complete<W: Semiring>(
    f: ComposeFilterKind<W>,
    fst1: VectorFst<W>,
    fst2: VectorFst<W>,
    s1: StateId,
    s2: StateId,
    t: Seq<(StateId, StateId, StateId)>,
    t2: Seq<(StateId, StateId, StateId)>,
    arcs: Seq<Arc<W>>,
    arcs2: Seq<Arc<W>>,
    match_input: bool,
    j: int,
    i: int,
    new: Option<Arc<W>>,
)
    requires
        pairs_complete(f, fst1, fst2, s1, s2, t, arcs, match_input, j, i),
        t2.len() >= t.len(),
        t2.subrange(0, t.len() as int) == t,
        ({
            let a = if match_input { j } else { i };
            let b = if match_input { i } else { j };
            let x1 = items1(fst1, s1)[a];
            let x2 = items2(fst2, s2)[b];
            &&& 0 <= a < items1(fst1, s1).len()
            &&& 0 <= b < items2(fst2, s2).len()
            &&& match new {
                None => arcs2 == arcs && !accepted(f, fst1, fst2, x1, x2),
                Some(arc) => arcs2 == arcs.push(arc) && accepted(f, fst1, fst2, x1, x2) && product_arc(
                    t2,
                    x1,
                    x2,
                    filter_outcome(f, fst1, fst2, x1, x2)->Some_0,
                    arc,
                ),
            }
        }),
    ensures
        pairs_complete(f, fst1, fst2, s1, s2, t2, arcs2, match_input, j, i + 1),
{
    let i1 = items1(fst1, s1);
    let i2 = items2(fst2, s2);
    let ca = if match_input { j } else { i };
    let cb = if match_input { i } else { j };
    assert forall|a: int, b: int|
        0 <= a < i1.len() && 0 <= b < i2.len() && processed(match_input, j, i + 1, a, b) && #[trigger] accepted(f, fst1, fst2, i1[a], i2[b]) implies exists|k: int|
            0 <= k < arcs2.len() && product_arc(t2, i1[a], i2[b], filter_outcome(f, fst1, fst2, i1[a], i2[b])->Some_0, #[trigger] arcs2[k]) by {
        if processed(match_input, j, i, a, b) {
            let k = choose|k: int|
                0 <= k < arcs.len() && product_arc(t, i1[a], i2[b], filter_outcome(f, fst1, fst2, i1[a], i2[b])->Some_0, #[trigger] arcs[k]);
            lemma_product_arc_extend(t, t2, i1[a], i2[b], filter_outcome(f, fst1, fst2, i1[a], i2[b])->Some_0, arcs[k]);
            assert(arcs2[k] == arcs[k]);
        } else {
            assert(a == ca && b == cb);
            assert(arcs2[arcs.len() as int] == new->Some_0);
        }
    }
}

proof fn lemma_pairs_row<W: Semiring>(
    f: ComposeFilterKind<W>,
    fst1: VectorFst<W>,
    fst2: VectorFst<W>,
    s1: StateId,
    s2: StateId,
    t: Seq<(StateId, StateId, StateId)>,
    arcs: Seq<Arc<W>>,
    origin: Seq<(int, int)>,
    match_input: bool,
    j: int,
    n_inner: int,
)
    requires
        pairs_done(f, fst1, fst2, s1, s2, t, arcs, origin, match_input, j, n_inner),
        n_inner == if match_input { items2(fst2, s2).len() as int } else { items1(fst1, s1).len() as int },
    ensures
        pairs_done(f, fst1, fst2, s1, s2, t, arcs, origin, match_input, j + 1, 0),
{
    let i1 = items1(fst1, s1);
    let i2 = items2(fst2, s2);
    assert forall|k: int| #![trigger origin[k]] 0 <= k < arcs.len() implies {
        let a = origin[k].0;
        let b = origin[k].1;
        &&& 0 <= a < i1.len()
        &&& 0 <= b < i2.len()
        &&& processed(match_input, j + 1, 0, a, b)
        &&& accepted(f, fst1, fst2, i1[a], i2[b])
        &&& product_arc(t, i1[a], i2[b], filter_outcome(f, fst1, fst2, i1[a], i2[b])->Some_0, arcs[k])
    } by {
        assert(processed(match_input, j, n_inner, origin[k].0, origin[k].1));
    }
    assert forall|a: int, b: int|
        0 <= a < i1.len() && 0 <= b < i2.len() && processed(match_input, j + 1, 0, a, b) && #[trigger] accepted(f, fst1, fst2, i1[a], i2[b]) implies exists|k: int|
            0 <= k < arcs.len() && product_arc(t, i1[a], i2[b], filter_outcome(f, fst1, fst2, i1[a], i2[b])->Some_0, #[trigger] arcs[k]) by {
        assert(processed(match_input, j, n_inner, a, b));
    }
}

proof fn lemma_pairs_all<W: Semiring>(
    f: ComposeFilterKind<W>,
    fst1: VectorFst<W>,
    fst2: VectorFst<W>,
    s1: StateId,
    s2: StateId,
    t: Seq<(StateId, StateId, StateId)>,
    arcs: Seq<Arc<W>>,
    origin: Seq<(int, int)>,
    match_input: bool,
    n_outer: int,
)
    requires
        pairs_done(f, fst1, fst2, s1, s2, t, arcs, origin, match_input, n_outer, 0),
        n_outer == if match_input { items1(fst1, s1).len() as int } else { items2(fst2, s2).len() as int },
    ensures
        arcs_complete(f, fst1, fst2, s1, s2, t, arcs),
{
    let i1 = items1(fst1, s1);
    let i2 = items2(fst2, s2);
    assert forall|a: int, b: int|
        0 <= a < i1.len() && 0 <= b < i2.len() && #[trigger] accepted(f, fst1, fst2, i1[a], i2[b]) implies exists|k: int|
            0 <= k < arcs.len() && product_arc(t, i1[a], i2[b], filter_outcome(f, fst1, fst2, i1[a], i2[b])->Some_0, #[trigger] arcs[k]) by {
        assert(processed(match_input, n_outer, 0, a, b));
    }
    assert forall|k: int| 0 <= k < arcs.len() implies #[trigger] from_kept_pair(f, fst1, fst2, s1, s2, t, arcs[k]) by {
        let a = origin[k].0;
        let b = origin[k].1;
        assert(accepted(f, fst1, fst2, i1[a], i2[b]));
        assert(product_arc(t, i1[a], i2[b], filter_outcome(f, fst1, fst2, i1[a], i2[b])->Some_0, arcs[k]));
    }
}

/// A product state whose joining move pairs the filter all blocks has no
/// outgoing arcs once expanded.
pub proof fn lemma_blocked_state_has_no_arcs<W: Semiring>(
    f: ComposeFilterKind<W>,
    fst1: VectorFst<W>,
    fst2: VectorFst<W>,
    s1: StateId,
    s2: StateId,
    table: Seq<(StateId, StateId, StateId)>,
    arcs: Seq<Arc<W>>,
)
    requires
        arcs_complete(f, fst1, fst2, s1, s2, table, arcs),
        forall|a: int, b: int|
            0 <= a < items1(fst1, s1).len() && 0 <= b < items2(fst2, s2).len() && joins(items1(fst1, s1)[a], items2(fst2, s2)[b])
                ==> #[trigger] filter_outcome(f, fst1, fst2, items1(fst1, s1)[a], items2(fst2, s2)[b]) == Some(NO_STATE_ID),
    ensures
        arcs.len() == 0,
{
    if arcs.len() > 0 {
        assert(from_kept_pair(f, fst1, fst2, s1, s2, table, arcs[0]));
    }
}

/// The filter answers (does not fail on) every joining pair of moves from
/// `(s1, s2)`.
pub open spec fn all_pairs_answered<W: Semiring>(f: ComposeFilterKind<W>, fst1: VectorFst<W>, fst2: VectorFst<W>, s1: StateId, s2: StateId) -> bool {
    forall|a: int, b: int|
        0 <= a < items1(fst1, s1).len() && 0 <= b < items2(fst2, s2).len() && joins(items1(fst1, s1)[a], items2(fst2, s2)[b])
            ==> (#[trigger] filter_outcome(f, fst1, fst2, items1(fst1, s1)[a], items2(fst2, s2)[b])) is Some
}

/// The state table has room for one new state per pair of moves.
pub open spec fn pairs_fit<W: Semiring>(table_len: nat, fst1: VectorFst<W>, fst2: VectorFst<W>, s1: StateId, s2: StateId) -> bool {
    table_len + items1(fst1, s1).len() * items2(fst2, s2).len() < usize::MAX
}

/// Every handled joining pair was answered.
pub open spec fn answered_so_far<W: Semiring>(
    f: ComposeFilterKind<W>,
    fst1: VectorFst<W>,
    fst2: VectorFst<W>,
    s1: StateId,
    s2: StateId,
    match_input: bool,
    j: int,
    i: int,
) -> bool {
    forall|a: int, b: int|
        0 <= a < items1(fst1, s1).len() && 0 <= b < items2(fst2, s2).len() && processed(match_input, j, i, a, b) && joins(
            items1(fst1, s1)[a],
            items2(fst2, s2)[b],
        ) ==> (#[trigger] filter_outcome(f, fst1, fst2, items1(fst1, s1)[a], items2(fst2, s2)[b])) is Some
}

/// The sequence filter never fails.
pub proof fn lemma_sequence_answers_all<W: Semiring>(sf: SequenceComposeFilter, fst1: VectorFst<W>, fst2: VectorFst<W>, s1: StateId, s2: StateId)
    ensures
        all_pairs_answered(ComposeFilterKind::Sequence(sf), fst1, fst2, s1, s2),
{
    reveal(filter_outcome);
}

/// Pair `p` was handled before pair `q` in the double loop.
pub open spec fn handled_before(match_input: bool, p: (int, int), q: (int, int)) -> bool {
    processed(match_input, if match_input { q.0 } else { q.1 }, if match_input { q.1 } else { q.0 }, p.0, p.1)
}

/// The pairs of `origin` come in the order they were handled.
pub open spec fn origin_in_order(origin: Seq<(int, int)>, match_input: bool) -> bool {
    forall|k1: int, k2: int| 0 <= k1 < k2 < origin.len() ==> handled_before(match_input, #[trigger] origin[k1], #[trigger] origin[k2])
}

/// Every handled pair that is kept is named in `origin`.
pub open spec fn origin_covers<W: Semiring>(
    f: ComposeFilterKind<W>,
    fst1: VectorFst<W>,
    fst2: VectorFst<W>,
    s1: StateId,
    s2: StateId,
    origin: Seq<(int, int)>,
    match_input: bool,
    j: int,
    i: int,
) -> bool {
    forall|a: int, b: int|
        0 <= a < items1(fst1, s1).len() && 0 <= b < items2(fst2, s2).len() && processed(match_input, j, i, a, b) && #[trigger] accepted(
            f,
            fst1,
            fst2,
            items1(fst1, s1)[a],
            items2(fst2, s2)[b],
        ) ==> exists|k: int| 0 <= k < origin.len() && origin[k] == (a, b)
}

/// The arcs of product state `(s1, s2)` are the product arcs of the kept
/// joining pairs, exactly one per pair, in the order the pairs are handled
/// (the moves of the matching side outermost).
pub open spec fn arcs_exact<W: Semiring>(
    f: ComposeFilterKind<W>,
    fst1: VectorFst<W>,
    fst2: VectorFst<W>,
    s1: StateId,
    s2: StateId,
    table: Seq<(StateId, StateId, StateId)>,
    arcs: Seq<Arc<W>>,
    match_input: bool,
) -> bool {
    exists|origin: Seq<(int, int)>|
        {
            &&& pairs_sound(f, fst1, fst2, s1, s2, table, arcs, origin, match_input, items1(fst1, s1).len() as int + items2(fst2, s2).len() as int, 0)
            &&& origin_in_order(origin, match_input)
            &&& forall|a: int, b: int|
                0 <= a < items1(fst1, s1).len() && 0 <= b < items2(fst2, s2).len() && #[trigger] accepted(
                    f,
                    fst1,
                    fst2,
                    items1(fst1, s1)[a],
                    items2(fst2, s2)[b],
                ) ==> exists|k: int| 0 <= k < origin.len() && origin[k] == (a, b)
        }
}

/// The epsilon flags the sequence filter computes for FST1 state `s1`.
pub open spec fn seq_filter_at<W>(fst1: VectorFst<W>, s1: StateId, s2: StateId, fs: StateId) -> SequenceComposeFilter {
    let arcs = fst1.states@[s1 as int].arcs@;
    SequenceComposeFilter {
        s1,
        s2,
        fs,
        alleps1: arcs.len() == count_output_eps(arcs) && fst1.states@[s1 as int].final_weight is None,
        noeps1: count_output_eps(arcs) == 0,
    }
}

pub open spec fn inner_filter<W>(f: ComposeFilterKind<W>) -> SequenceComposeFilter {
    match f {
        ComposeFilterKind::Sequence(sf) => sf,
        ComposeFilterKind::LookAhead(lf) => lf.filter,
    }
}

/// The filter once moved to product state `(s1, s2, fs)`.
pub open spec fn filter_at<W>(f: ComposeFilterKind<W>, fst1: VectorFst<W>, s1: StateId, s2: StateId, fs: StateId) -> ComposeFilterKind<W> {
    match f {
        ComposeFilterKind::Sequence(sf) => ComposeFilterKind::Sequence(seq_filter_at(fst1, s1, s2, fs)),
        ComposeFilterKind::LookAhead(lf) => ComposeFilterKind::LookAhead(LookAheadComposeFilter { filter: seq_filter_at(fst1, s1, s2, fs), ..lf }),
    }
}

/// Composition of FST1 and FST2 as a lazily expanded transducer: its states
/// are the triples `(s1, s2, filter state)` met so far, numbered in the order
/// they were met, and each state's arcs are computed on first demand.
#[derive(Clone, Debug, PartialEq, Eq)]
pub struct ComposeFst<W> {
    pub fst1: VectorFst<W>,
    pub fst2: VectorFst<W>,
    pub filter: ComposeFilterKind<W>,
    /// `MatchInput` or `MatchOutput` fixes the side that is matched on;
    /// otherwise each state matches on the side with fewer arcs.
    pub match_type: MatchType,
    pub state_table: Vec<(StateId, StateId, StateId)>,
    pub cache: Vec<CacheState<W>>,
    pub start_state: Option<Option<StateId>>,
}

impl<W: Semiring> ComposeFst<W> {
    pub open spec fn wf(&self) -> bool {
        &&& self.fst1.wf()
        &&& self.fst2.wf()
        &&& self.cache@.len() == self.state_table@.len()
        &&& forall|i: int| 0 <= i < self.state_table@.len() ==> (#[trigger] self.state_table@[i]).0 < self.fst1.states@.len()
            && self.state_table@[i].1 < self.fst2.states@.len()
        &&& inner_filter(self.filter).s1 < self.fst1.states@.len() ==> inner_filter(self.filter) == seq_filter_at(
            self.fst1,
            inner_filter(self.filter).s1,
            inner_filter(self.filter).s2,
            inner_filter(self.filter).fs,
        )
        &&& match self.filter {
            ComposeFilterKind::LookAhead(lf) => lf.wf() && lf.ready(self.fst1, self.fst2),
            _ => true,
        }
        &&& (self.start_state matches Some(Some(st)) ==> st < self.state_table@.len())
        &&& forall|i: int| 0 <= i < self.cache@.len() && !(#[trigger] self.cache@[i]).expanded_spec() ==> self.cache@[i].arcs_spec().len() == 0
    }

    /// A composition with no state met yet.
    pub fn new(fst1: VectorFst<W>, fst2: VectorFst<W>, filter: ComposeFilterKind<W>, match_type: MatchType) -> (r: Self)
        requires
            fst1.wf(),
            fst2.wf(),
            fst1.states@.len() < usize::MAX,
            inner_filter(filter).s1 == NO_STATE_ID,
            filter matches ComposeFilterKind::LookAhead(lf) ==> lf.wf() && lf.ready(fst1, fst2),
        ensures
            r.wf(),
            r.fst1 == fst1,
            r.fst2 == fst2,
            r.filter == filter,
            r.match_type == match_type,
            r.state_table@.len() == 0,
            r.start_state is None,
    {
        ComposeFst { fst1, fst2, filter, match_type, state_table: Vec::new(), cache: Vec::new(), start_state: None }
    }

    /// The id of `tuple`, numbering it next if it is new.
    fn find_id(&mut self, tuple: (StateId, StateId, StateId)) -> (r: Result<StateId, FstError>)
        requires
            old(self).wf(),
            tuple.0 < old(self).fst1.states@.len(),
            tuple.1 < old(self).fst2.states@.len(),
        ensures
            final(self).wf(),
            final(self).fst1 == old(self).fst1,
            final(self).fst2 == old(self).fst2,
            final(self).filter == old(self).filter,
            final(self).match_type == old(self).match_type,
            final(self).start_state == old(self).start_state,
            final(self).state_table@.len() >= old(self).state_table@.len(),
            final(self).state_table@.subrange(0, old(self).state_table@.len() as int) == old(self).state_table@,
            forall|i: int| 0 <= i < old(self).cache@.len() ==> #[trigger] final(self).cache@[i] == old(self).cache@[i],
            forall|i: int| old(self).cache@.len() <= i < final(self).cache@.len() ==> !(#[trigger] final(self).cache@[i]).expanded_spec()
                && !final(self).cache@[i].has_final_spec() && final(self).cache@[i].arcs_spec().len() == 0,
            r matches Ok(id) ==> id < final(self).state_table@.len() && final(self).state_table@[id as int] == tuple,
            r is Ok <==> (old(self).state_table@.contains(tuple) || old(self).state_table@.len() < usize::MAX),
            r is Err ==> r == Err::<StateId, FstError>(FstError::Internal) && *final(self) == *old(self),
            final(self).state_table@.len() <= old(self).state_table@.len() + 1,
    {
        let n = self.state_table.len();
        let mut i: usize = 0;
        while i < n
            invariant
                0 <= i <= n,
                n == self.state_table@.len(),
                *self == *old(self),
                self.wf(),
                forall|k: int| 0 <= k < i ==> #[trigger] self.state_table@[k] != tuple,
            decreases n - i,
        {
            let e = self.state_table[i];
            if e.0 == tuple.0 && e.1 == tuple.1 && e.2 == tuple.2 {
                assert(self.state_table@.subrange(0, n as int) =~= self.state_table@);
                return Ok(i);
            }
            i = i + 1;
        }
        if n == usize::MAX {
            return Err(FstError::Internal);
        }
        self.state_table.push(tuple);
        self.cache.push(CacheState::new());
        proof {
            assert(self.state_table@.subrange(0, n as int) =~= old(self).state_table@);
            assert forall|k: int| 0 <= k < self.state_table@.len() implies (#[trigger] self.state_table@[k]).0 < self.fst1.states@.len()
                && self.state_table@[k].1 < self.fst2.states@.len() by {
                if k < n {
                    assert(self.state_table@[k] == old(self).state_table@[k]);
                }
            }
        }
        Ok(n)
    }

    /// The start state: the triple of the two start states and the filter's
    /// start state, numbered first; `None` if either FST has no start.
    pub fn start(&mut self) -> (r: Result<Option<StateId>, FstError>)
        requires
            old(self).wf(),
        ensures
            final(self).wf(),
            final(self).fst1 == old(self).fst1,
            final(self).fst2 == old(self).fst2,
            final(self).filter == old(self).filter,
            old(self).start_state matches Some(st) ==> r == Ok::<Option<StateId>, FstError>(st) && *final(self) == *old(self),
            old(self).start_state is None && (old(self).fst1.start is None || old(self).fst2.start is None) ==> r == Ok::<Option<StateId>, FstError>(None),
            old(self).start_state is None && old(self).state_table@.len() == 0 && old(self).fst1.start is Some && old(self).fst2.start is Some ==> {
                &&& r == Ok::<Option<StateId>, FstError>(Some(0))
                &&& final(self).state_table@ == seq![(old(self).fst1.start->Some_0, old(self).fst2.start->Some_0, 0usize)]
            },
            r matches Ok(Some(st)) ==> st < final(self).state_table@.len(),
    {
        match self.start_state {
            Some(st) => {
                return Ok(st);
            },
            None => {},
        }
        let st = match (self.fst1.start, self.fst2.start) {
            (Some(s1), Some(s2)) => {
                let fs: StateId = 0;
                match self.find_id((s1, s2, fs)) {
                    Ok(id) => Some(id),
                    Err(e) => return Err(e),
                }
            },
            _ => None,
        };
        self.start_state = Some(st);
        Ok(st)
    }

    /// Whether state `s` uses FST2's input labels for matching (else
    /// FST1's output labels): fixed by `match_type`, else the side with
    /// fewer arcs, FST1 on a tie.
    pub open spec fn match_input_spec(&self, s1: StateId, s2: StateId) -> bool {
        if self.match_type == MatchType::MatchInput {
            true
        } else if self.match_type == MatchType::MatchOutput {
            false
        } else {
            self.fst1.states@[s1 as int].arcs@.len() > self.fst2.states@[s2 as int].arcs@.len()
        }
    }


    /// Runs the filter on a pair.
    fn filter_pair(&mut self, x1: &Arc<W>, x2: &Arc<W>) -> (r: Result<StateId, FstError>)
        requires
            old(self).wf(),
        ensures
            final(self).wf(),
            final(self).fst1 == old(self).fst1,
            final(self).fst2 == old(self).fst2,
            final(self).state_table == old(self).state_table,
            final(self).cache == old(self).cache,
            final(self).match_type == old(self).match_type,
            final(self).start_state == old(self).start_state,
            same_outcomes(old(self).filter, final(self).filter),
            inner_filter(final(self).filter) == inner_filter(old(self).filter),
            filter_outcome(old(self).filter, old(self).fst1, old(self).fst2, *x1, *x2) matches Some(v) ==> r == Ok::<StateId, FstError>(v),
            filter_outcome(old(self).filter, old(self).fst1, old(self).fst2, *x1, *x2) is None ==> r is Err,
            old(self).filter is Sequence ==> r is Ok,
    {
        proof {
            reveal(filter_outcome);
        }
        match &mut self.filter {
            ComposeFilterKind::Sequence(sf) => Ok(sf.filter_arc(x1, x2)),
            ComposeFilterKind::LookAhead(lf) => lf.filter_arc(&self.fst1, &self.fst2, x1, x2),
        }
    }

    /// Moves the filter to product state `(s1, s2, fs)`.
    fn set_filter_state(&mut self, s1: StateId, s2: StateId, fs: StateId)
        requires
            old(self).wf(),
            s1 < old(self).fst1.states@.len(),
        ensures
            final(self).wf(),
            final(self).fst1 == old(self).fst1,
            final(self).fst2 == old(self).fst2,
            final(self).state_table == old(self).state_table,
            final(self).cache == old(self).cache,
            final(self).match_type == old(self).match_type,
            final(self).start_state == old(self).start_state,
            final(self).filter == filter_at(old(self).filter, old(self).fst1, s1, s2, fs),
    {
        match &mut self.filter {
            ComposeFilterKind::Sequence(sf) => {
                let _ = sf.set_state(&self.fst1, s1, s2, fs);
            },
            ComposeFilterKind::LookAhead(lf) => {
                let _ = lf.set_state(&self.fst1, s1, s2, fs);
            },
        }
    }

    /// The number of product states met so far.
    pub fn num_known_states(&self) -> (r: usize)
        ensures
            r == self.state_table@.len(),
    {
        self.state_table.len()
    }

    /// The triple `(s1, s2, filter state)` of product state `s`.
    pub fn state_tuple(&self, s: StateId) -> (r: Result<(StateId, StateId, StateId), FstError>)
        ensures
            s < self.state_table@.len() ==> r == Ok::<(StateId, StateId, StateId), FstError>(self.state_table@[s as int]),
            s >= self.state_table@.len() ==> r == Err::<(StateId, StateId, StateId), FstError>(FstError::InvalidState),
    {
        if s < self.state_table.len() {
            Ok(self.state_table[s])
        } else {
            Err(FstError::InvalidState)
        }
    }

    /// Whether the arcs of `s` are computed.
    pub fn is_expanded(&self, s: StateId) -> (r: bool)
        requires
            self.wf(),
        ensures
            r == (s < self.state_table@.len() && self.cache@[s as int].expanded_spec()),
    {
        s < self.cache.len() && self.cache[s].expanded()
    }

    /// The arcs of product state `s`, computing them on first demand; once
    /// computed they never change.
    pub fn arcs(&mut self, s: StateId) -> (r: Result<Vec<Arc<W>>, FstError>)
        requires
            old(self).wf(),
        ensures
            final(self).wf(),
            final(self).fst1 == old(self).fst1,
            final(self).fst2 == old(self).fst2,
            s >= old(self).state_table@.len() ==> r == Err::<Vec<Arc<W>>, FstError>(FstError::InvalidState),
            s < old(self).state_table@.len() && old(self).cache@[s as int].expanded_spec() ==> r is Ok && r->Ok_0@ == old(
                self,
            ).cache@[s as int].arcs_spec() && *final(self) == *old(self),
            r is Ok ==> s < final(self).state_table@.len() && final(self).cache@[s as int].expanded_spec() && r->Ok_0@
                == final(self).cache@[s as int].arcs_spec(),
            s < old(self).state_table@.len() && !old(self).cache@[s as int].expanded_spec() ==> ({
                let t = old(self).state_table@[s as int];
                let f0 = filter_at(old(self).filter, old(self).fst1, t.0, t.1, t.2);
                &&& (pairs_fit(old(self).state_table@.len(), old(self).fst1, old(self).fst2, t.0, t.1) ==> (r is Ok
                    <==> all_pairs_answered(f0, old(self).fst1, old(self).fst2, t.0, t.1)))
                &&& (f0 is Sequence && pairs_fit(old(self).state_table@.len(), old(self).fst1, old(self).fst2, t.0, t.1)
                    ==> r is Ok)
            }),
            s < old(self).state_table@.len() && !old(self).cache@[s as int].expanded_spec() && r is Ok ==> ({
                let t = old(self).state_table@[s as int];
                arcs_exact(
                    filter_at(old(self).filter, old(self).fst1, t.0, t.1, t.2),
                    old(self).fst1,
                    old(self).fst2,
                    t.0,
                    t.1,
                    final(self).state_table@,
                    r->Ok_0@,
                    old(self).match_input_spec(t.0, t.1),
                )
            }),
            s < old(self).state_table@.len() && !old(self).cache@[s as int].expanded_spec() && r is Ok ==> ({
                let t = old(self).state_table@[s as int];
                arcs_complete(
                    filter_at(old(self).filter, old(self).fst1, t.0, t.1, t.2),
                    old(self).fst1,
                    old(self).fst2,
                    t.0,
                    t.1,
                    final(self).state_table@,
                    r->Ok_0@,
                )
            }),
    {
        if s >= self.state_table.len() {
            return Err(FstError::InvalidState);
        }
        if !self.cache[s].expanded() {
            match self.expand(s) {
                Ok(()) => {},
                Err(e) => return Err(e),
            }
        }
        let cached = self.cache[s].arcs();
        let mut out: Vec<Arc<W>> = Vec::new();
        let mut k: usize = 0;
        while k < cached.len()
            invariant
                0 <= k <= cached@.len(),
                out@ == cached@.subrange(0, k as int),
            decreases cached@.len() - k,
        {
            let a = &cached[k];
            out.push(Arc { ilabel: a.ilabel, olabel: a.olabel, weight: a.weight.duplicate(), nextstate: a.nextstate });
            proof {
                assert(cached@.subrange(0, k + 1) =~= cached@.subrange(0, k as int).push(cached@[k as int]));
            }
            k = k + 1;
        }
        proof {
            assert(cached@.subrange(0, k as int) =~= cached@);
        }
        Ok(out)
    }

    /// The final weight of product state `s`: `w1 ⊗ w2` when both of its
    /// states are final, computed on first demand.
    pub fn final_weight(&mut self, s: StateId) -> (r: Result<Option<W>, FstError>)
        requires
            old(self).wf(),
        ensures
            final(self).wf(),
            final(self).fst1 == old(self).fst1,
            final(self).fst2 == old(self).fst2,
            final(self).state_table == old(self).state_table,
            s >= old(self).state_table@.len() ==> r == Err::<Option<W>, FstError>(FstError::InvalidState),
            s < old(self).state_table@.len() && old(self).cache@[s as int].has_final_spec() ==> r == Ok::<Option<W>, FstError>(
                old(self).cache@[s as int].final_spec(),
            ),
            s < old(self).state_table@.len() && !old(self).cache@[s as int].has_final_spec() ==> ({
                let t = old(self).state_table@[s as int];
                let f1 = old(self).fst1.states@[t.0 as int].final_weight;
                let f2 = old(self).fst2.states@[t.1 as int].final_weight;
                r == Ok::<Option<W>, FstError>(if f1 is Some && f2 is Some {
                    Some(f1->Some_0.times_spec(f2->Some_0))
                } else {
                    None
                })
            }),
    {
        if s >= self.state_table.len() {
            return Err(FstError::InvalidState);
        }
        if !self.cache[s].has_final() {
            let (s1, s2, _fs) = self.state_table[s];
            let w = match (&self.fst1.states[s1].final_weight, &self.fst2.states[s2].final_weight) {
                (Some(w1), Some(w2)) => Some(w1.times(w2)),
                _ => None,
            };
            self.cache[s].set_final_weight(w);
            proof {
                assert forall|i: int| 0 <= i < self.cache@.len() && !(#[trigger] self.cache@[i]).expanded_spec() implies self.cache@[i].arcs_spec().len() == 0 by {
                    if i != s {
                        assert(self.cache@[i] == old(self).cache@[i]);
                    }
                }
            }
        }
        match self.cache[s].final_weight() {
            Some(w) => Ok(Some(w.duplicate())),
            None => Ok(None),
        }
    }

    /// The moves of one side at state `s`: its self-loop, then its arcs.
    fn items_of(fst: &VectorFst<W>, s: StateId, first: bool) -> (r: Vec<Arc<W>>)
        requires
            s < fst.states@.len(),
        ensures
            first ==> r@ == items1(*fst, s),
            !first ==> r@ == items2(*fst, s),
    {
        let mut items: Vec<Arc<W>> = Vec::new();
        if first {
            items.push(Arc { ilabel: EPS_LABEL, olabel: NO_LABEL, weight: W::one(), nextstate: s });
        } else {
            items.push(Arc { ilabel: NO_LABEL, olabel: EPS_LABEL, weight: W::one(), nextstate: s });
        }
        let arcs = &fst.states[s].arcs;
        let mut k: usize = 0;
        while k < arcs.len()
            invariant
                0 <= k <= arcs@.len(),
                *arcs == fst.states@[s as int].arcs,
                items@.len() == k + 1,
                first ==> items@[0] == loop1::<W>(s),
                !first ==> items@[0] == loop2::<W>(s),
                forall|m: int| 1 <= m < k + 1 ==> #[trigger] items@[m] == arcs@[m - 1],
            decreases arcs@.len() - k,
        {
            let a = &arcs[k];
            items.push(Arc { ilabel: a.ilabel, olabel: a.olabel, weight: a.weight.duplicate(), nextstate: a.nextstate });
            k = k + 1;
        }
        proof {
            let base = if first { items1(*fst, s) } else { items2(*fst, s) };
            assert forall|m: int| 0 <= m < items@.len() implies #[trigger] items@[m] == base[m] by {
                if m > 0 {
                    assert(base[m] == arcs@[m - 1]);
                }
            }
            assert(items@ =~= base);
        }
        items
    }

    /// Computes the arcs of product state `s`, once: for each move of the
    /// matching side and each move of the other side with the joining label,
    /// the filter decides, and a kept pair gives the arc
    /// `(x1.ilabel, x2.olabel, x1.weight ⊗ x2.weight)` into the state of
    /// `(x1.nextstate, x2.nextstate, filter state)`.
    pub fn expand(&mut self, s: StateId) -> (r: Result<(), FstError>)
        requires
            old(self).wf(),
        ensures
            final(self).wf(),
            final(self).fst1 == old(self).fst1,
            final(self).fst2 == old(self).fst2,
            final(self).match_type == old(self).match_type,
            final(self).start_state == old(self).start_state,
            final(self).state_table@.len() >= old(self).state_table@.len(),
            final(self).state_table@.subrange(0, old(self).state_table@.len() as int) == old(self).state_table@,
            forall|i: int| 0 <= i < old(self).cache@.len() && i != s ==> #[trigger] final(self).cache@[i] == old(self).cache@[i],
            forall|i: int| old(self).cache@.len() <= i < final(self).cache@.len() ==> !(#[trigger] final(self).cache@[i]).expanded_spec()
                && !final(self).cache@[i].has_final_spec() && final(self).cache@[i].arcs_spec().len() == 0,
            s >= old(self).state_table@.len() ==> r == Err::<(), FstError>(FstError::InvalidState) && *final(self) == *old(self),
            s < old(self).state_table@.len() && old(self).cache@[s as int].expanded_spec() ==> r == Err::<(), FstError>(
                FstError::Internal,
            ) && *final(self) == *old(self),
            s < old(self).state_table@.len() && !old(self).cache@[s as int].expanded_spec() ==> ({
                let t = old(self).state_table@[s as int];
                let f0 = filter_at(old(self).filter, old(self).fst1, t.0, t.1, t.2);
                &&& final(self).cache@[s as int].has_final_spec() == old(self).cache@[s as int].has_final_spec()
                &&& final(self).cache@[s as int].final_spec() == old(self).cache@[s as int].final_spec()
                &&& (r is Ok ==> final(self).cache@[s as int].expanded_spec() && arcs_complete(
                    f0,
                    old(self).fst1,
                    old(self).fst2,
                    t.0,
                    t.1,
                    final(self).state_table@,
                    final(self).cache@[s as int].arcs_spec(),
                ))
                &&& (r is Err ==> !final(self).cache@[s as int].expanded_spec())
                &&& (f0 is Sequence && r is Err ==> r == Err::<(), FstError>(FstError::Internal))
                &&& (pairs_fit(old(self).state_table@.len(), old(self).fst1, old(self).fst2, t.0, t.1) ==> (r is Ok
                    <==> all_pairs_answered(f0, old(self).fst1, old(self).fst2, t.0, t.1)))
                &&& (f0 is Sequence && pairs_fit(old(self).state_table@.len(), old(self).fst1, old(self).fst2, t.0, t.1)
                    ==> r is Ok)
                &&& (r is Ok ==> arcs_exact(
                    f0,
                    old(self).fst1,
                    old(self).fst2,
                    t.0,
                    t.1,
                    final(self).state_table@,
                    final(self).cache@[s as int].arcs_spec(),
                    old(self).match_input_spec(t.0, t.1),
                ))
            }),
    {
        if s >= self.state_table.len() {
            return Err(FstError::InvalidState);
        }
        if self.cache[s].expanded() {
            return Err(FstError::Internal);
        }
        let (s1, s2, fs) = self.state_table[s];
        self.set_filter_state(s1, s2, fs);
        let ghost f0 = self.filter;
        let ghost t0 = self.state_table@;
        let ghost c0 = self.cache@;
        let ghost cs0 = self.cache@[s as int];
        let match_input = if self.match_type == MatchType::MatchInput {
            true
        } else if self.match_type == MatchType::MatchOutput {
            false
        } else {
            self.fst1.states[s1].arcs.len() > self.fst2.states[s2].arcs.len()
        };
        proof {
            lemma_items_bounded(self.fst1, self.fst2, s1, s2);
        }
        let it1 = Self::items_of(&self.fst1, s1, true);
        let it2 = Self::items_of(&self.fst2, s2, false);
        let n_outer = if match_input {
            it1.len()
        } else {
            it2.len()
        };
        let n_inner = if match_input {
            it2.len()
        } else {
            it1.len()
        };
        let mut out: Vec<Arc<W>> = Vec::new();
        let ghost mut origin: Seq<(int, int)> = Seq::empty();
        proof {
            assert(n_outer * n_inner == items1(self.fst1, s1).len() * items2(self.fst2, s2).len()) by (nonlinear_arith)
                requires
                    n_outer == (if match_input { it1@.len() } else { it2@.len() }),
                    n_inner == (if match_input { it2@.len() } else { it1@.len() }),
                    it1@.len() == items1(self.fst1, s1).len(),
                    it2@.len() == items2(self.fst2, s2).len(),
            ;
            assert(0 * n_inner == 0) by (nonlinear_arith);
            if f0 is Sequence {
                lemma_sequence_answers_all(inner_filter(f0), self.fst1, self.fst2, s1, s2);
            }
        }
        let mut j: usize = 0;
        while j < n_outer
            invariant
                self.wf(),
                s < t0.len(),
                t0 == old(self).state_table@,
                self.fst1 == old(self).fst1,
                self.fst2 == old(self).fst2,
                self.match_type == old(self).match_type,
                self.start_state == old(self).start_state,
                same_outcomes(f0, self.filter),
                inner_filter(self.filter) == inner_filter(f0),
                f0 == filter_at(old(self).filter, old(self).fst1, s1, s2, fs),
                it1@ == items1(self.fst1, s1),
                it2@ == items2(self.fst2, s2),
                n_outer == if match_input { it1@.len() } else { it2@.len() },
                n_inner == if match_input { it2@.len() } else { it1@.len() },
                0 <= j <= n_outer,
                self.state_table@.len() >= t0.len(),
                self.state_table@.subrange(0, t0.len() as int) == t0,
                forall|i: int| 0 <= i < t0.len() && i != s ==> #[trigger] self.cache@[i] == c0[i],
                forall|i: int| t0.len() <= i < self.cache@.len() ==> !(#[trigger] self.cache@[i]).expanded_spec()
                    && !self.cache@[i].has_final_spec() && self.cache@[i].arcs_spec().len() == 0,
                !self.cache@[s as int].expanded_spec(),
                self.cache@[s as int].has_final_spec() == cs0.has_final_spec(),
                self.cache@[s as int].final_spec() == cs0.final_spec(),
                c0 == old(self).cache@,
                cs0 == c0[s as int],
                c0.len() == t0.len(),
                forall|a: int| 0 <= a < items1(self.fst1, s1).len() ==> (#[trigger] items1(self.fst1, s1)[a]).nextstate < self.fst1.states@.len(),
                forall|b: int| 0 <= b < items2(self.fst2, s2).len() ==> (#[trigger] items2(self.fst2, s2)[b]).nextstate < self.fst2.states@.len(),
                self.cache@[s as int] == cs0,
                pairs_done(f0, self.fst1, self.fst2, s1, s2, self.state_table@, out@, origin, match_input, j as int, 0),
                answered_so_far(f0, self.fst1, self.fst2, s1, s2, match_input, j as int, 0),
                t0[s as int] == (s1, s2, fs),
                origin_in_order(origin, match_input),
                origin_covers(f0, self.fst1, self.fst2, s1, s2, origin, match_input, j as int, 0),
                self.state_table@.len() <= t0.len() + j * n_inner,
                j * n_inner <= n_outer * n_inner,
                n_outer * n_inner == items1(self.fst1, s1).len() * items2(self.fst2, s2).len(),
            decreases n_outer - j,
        {
            proof {
                assert(j * n_inner + n_inner <= n_outer * n_inner) by (nonlinear_arith)
                    requires
                        j < n_outer,
                ;
            }
            let mut i: usize = 0;
            while i < n_inner
                invariant
                    self.wf(),
                    s < t0.len(),
                    t0 == old(self).state_table@,
                    self.fst1 == old(self).fst1,
                    self.fst2 == old(self).fst2,
                    self.match_type == old(self).match_type,
                    self.start_state == old(self).start_state,
                    same_outcomes(f0, self.filter),
                    inner_filter(self.filter) == inner_filter(f0),
                    f0 == filter_at(old(self).filter, old(self).fst1, s1, s2, fs),
                    it1@ == items1(self.fst1, s1),
                    it2@ == items2(self.fst2, s2),
                    n_outer == if match_input { it1@.len() } else { it2@.len() },
                    n_inner == if match_input { it2@.len() } else { it1@.len() },
                    0 <= j < n_outer,
                    0 <= i <= n_inner,
                    self.state_table@.len() >= t0.len(),
                    self.state_table@.subrange(0, t0.len() as int) == t0,
                    forall|k: int| 0 <= k < t0.len() && k != s ==> #[trigger] self.cache@[k] == c0[k],
                    forall|k: int| t0.len() <= k < self.cache@.len() ==> !(#[trigger] self.cache@[k]).expanded_spec()
                        && !self.cache@[k].has_final_spec() && self.cache@[k].arcs_spec().len() == 0,
                    !self.cache@[s as int].expanded_spec(),
                    self.cache@[s as int].has_final_spec() == cs0.has_final_spec(),
                    self.cache@[s as int].final_spec() == cs0.final_spec(),
                    c0 == old(self).cache@,
                    cs0 == c0[s as int],
                    c0.len() == t0.len(),
                    forall|a: int| 0 <= a < items1(self.fst1, s1).len() ==> (#[trigger] items1(self.fst1, s1)[a]).nextstate < self.fst1.states@.len(),
                    forall|b: int| 0 <= b < items2(self.fst2, s2).len() ==> (#[trigger] items2(self.fst2, s2)[b]).nextstate < self.fst2.states@.len(),
                    self.cache@[s as int] == cs0,
                    pairs_done(f0, self.fst1, self.fst2, s1, s2, self.state_table@, out@, origin, match_input, j as int, i as int),
                    answered_so_far(f0, self.fst1, self.fst2, s1, s2, match_input, j as int, i as int),
                    t0[s as int] == (s1, s2, fs),
                    origin_in_order(origin, match_input),
                    origin_covers(f0, self.fst1, self.fst2, s1, s2, origin, match_input, j as int, i as int),
                    self.state_table@.len() <= t0.len() + j * n_inner + i,
                    j * n_inner + n_inner <= n_outer * n_inner,
                    n_outer * n_inner == items1(self.fst1, s1).len() * items2(self.fst2, s2).len(),
                decreases n_inner - i,
            {
                let (x1, x2) = if match_input {
                    (&it1[j], &it2[i])
                } else {
                    (&it1[i], &it2[j])
                };
                let ghost a = if match_input { j as int } else { i as int };
                let ghost b = if match_input { i as int } else { j as int };
                let ghost tb = self.state_table@;
                let ghost arcs_before = out@;
                let ghost origin_before = origin;
                let ghost f_before = self.filter;
                proof {
                    assert(tb.subrange(0, tb.len() as int) =~= tb);
                    assert(*x1 == items1(self.fst1, s1)[a]);
                    assert(*x2 == items2(self.fst2, s2)[b]);
                }
                if joins_exec(x1, x2) {
                    proof {
                        lemma_same_outcome(f0, self.filter, self.fst1, self.fst2, *x1, *x2);
                    }
                    let res = match self.filter_pair(x1, x2) {
                        Ok(v) => v,
                        Err(e) => {
                            proof {
                                assert(filter_outcome(f0, self.fst1, self.fst2, items1(self.fst1, s1)[a], items2(self.fst2, s2)[b]) is None);
                                assert(joins(items1(self.fst1, s1)[a], items2(self.fst2, s2)[b]));
                                assert(!all_pairs_answered(f0, self.fst1, self.fst2, s1, s2));
                            }
                            return Err(e);
                        },
                    };
                    proof {
                        lemma_same_outcomes_trans(f0, f_before, self.filter);
                    }
                    if res != NO_STATE_ID {
                        proof {
                            assert(j * n_inner + i < n_outer * n_inner);
                            assert(pairs_fit(t0.len(), self.fst1, self.fst2, s1, s2) ==> self.state_table@.len() < usize::MAX);
                        }
                        let id = match self.find_id((x1.nextstate, x2.nextstate, res)) {
                            Ok(id) => id,
                            Err(e) => return Err(e),
                        };
                        let arc = Arc { ilabel: x1.ilabel, olabel: x2.olabel, weight: x1.weight.times(&x2.weight), nextstate: id };
                        out.push(arc);
                        proof {
                            origin = origin.push((a, b));
                            assert forall|k1: int, k2: int| 0 <= k1 < k2 < origin.len() implies handled_before(match_input, #[trigger] origin[k1], #[trigger] origin[k2]) by {
                                if k2 == origin.len() - 1 {
                                    assert(origin[k1] == origin_before[k1]);
                                    assert(pairs_sound(f0, self.fst1, self.fst2, s1, s2, tb, arcs_before, origin_before, match_input, j as int, i as int));
                                    assert(arcs_before[k1] == arcs_before[k1]);
                                } else {
                                    assert(origin[k1] == origin_before[k1]);
                                    assert(origin[k2] == origin_before[k2]);
                                }
                            }
                            assert forall|a2: int, b2: int|
                                0 <= a2 < items1(self.fst1, s1).len() && 0 <= b2 < items2(self.fst2, s2).len() && processed(match_input, j as int, i + 1, a2, b2)
                                    && #[trigger] accepted(f0, self.fst1, self.fst2, items1(self.fst1, s1)[a2], items2(self.fst2, s2)[b2])
                                implies exists|k: int| 0 <= k < origin.len() && origin[k] == (a2, b2) by {
                                if processed(match_input, j as int, i as int, a2, b2) {
                                    let k = choose|k: int| 0 <= k < origin_before.len() && origin_before[k] == (a2, b2);
                                    assert(origin[k] == origin_before[k]);
                                } else {
                                    assert(origin[origin.len() - 1] == (a2, b2));
                                }
                            }
                            lemma_pairs_step_sound(f0, self.fst1, self.fst2, s1, s2, tb, self.state_table@, arcs_before, out@, origin_before, origin, match_input, j as int, i as int, Some(arc));
                            lemma_pairs_step_complete(f0, self.fst1, self.fst2, s1, s2, tb, self.state_table@, arcs_before, out@, match_input, j as int, i as int, Some(arc));
                        }
                    } else {
                        proof {
                            lemma_pairs_step_sound(f0, self.fst1, self.fst2, s1, s2, tb, self.state_table@, arcs_before, out@, origin_before, origin, match_input, j as int, i as int, None);
                            lemma_pairs_step_complete(f0, self.fst1, self.fst2, s1, s2, tb, self.state_table@, arcs_before, out@, match_input, j as int, i as int, None);
                            assert forall|a2: int, b2: int|
                                0 <= a2 < items1(self.fst1, s1).len() && 0 <= b2 < items2(self.fst2, s2).len() && processed(match_input, j as int, i + 1, a2, b2)
                                    && #[trigger] accepted(f0, self.fst1, self.fst2, items1(self.fst1, s1)[a2], items2(self.fst2, s2)[b2])
                                implies exists|k: int| 0 <= k < origin.len() && origin[k] == (a2, b2) by {
                                if !processed(match_input, j as int, i as int, a2, b2) {
                                    assert(a2 == a && b2 == b);
                                }
                            }
                        }
                    }
                } else {
                    proof {
                        lemma_pairs_step_sound(f0, self.fst1, self.fst2, s1, s2, tb, self.state_table@, arcs_before, out@, origin_before, origin, match_input, j as int, i as int, None);
                            lemma_pairs_step_complete(f0, self.fst1, self.fst2, s1, s2, tb, self.state_table@, arcs_before, out@, match_input, j as int, i as int, None);
                            assert forall|a2: int, b2: int|
                                0 <= a2 < items1(self.fst1, s1).len() && 0 <= b2 < items2(self.fst2, s2).len() && processed(match_input, j as int, i + 1, a2, b2)
                                    && #[trigger] accepted(f0, self.fst1, self.fst2, items1(self.fst1, s1)[a2], items2(self.fst2, s2)[b2])
                                implies exists|k: int| 0 <= k < origin.len() && origin[k] == (a2, b2) by {
                                if !processed(match_input, j as int, i as int, a2, b2) {
                                    assert(a2 == a && b2 == b);
                                }
                            }
                    }
                }
                proof {
                    assert forall|a2: int, b2: int|
                        0 <= a2 < items1(self.fst1, s1).len() && 0 <= b2 < items2(self.fst2, s2).len() && processed(match_input, j as int, i + 1, a2, b2)
                            && joins(items1(self.fst1, s1)[a2], items2(self.fst2, s2)[b2]) implies (#[trigger] filter_outcome(
                        f0,
                        self.fst1,
                        self.fst2,
                        items1(self.fst1, s1)[a2],
                        items2(self.fst2, s2)[b2],
                    )) is Some by {
                        if !processed(match_input, j as int, i as int, a2, b2) {
                            assert(a2 == a && b2 == b);
                        }
                    }
                }
                i = i + 1;
            }
            proof {
                assert forall|a2: int, b2: int|
                    0 <= a2 < items1(self.fst1, s1).len() && 0 <= b2 < items2(self.fst2, s2).len() && processed(match_input, j + 1, 0, a2, b2)
                        && joins(items1(self.fst1, s1)[a2], items2(self.fst2, s2)[b2]) implies (#[trigger] filter_outcome(
                    f0,
                    self.fst1,
                    self.fst2,
                    items1(self.fst1, s1)[a2],
                    items2(self.fst2, s2)[b2],
                )) is Some by {
                    assert(processed(match_input, j as int, n_inner as int, a2, b2));
                }
                assert((j + 1) * n_inner == j * n_inner + n_inner) by (nonlinear_arith);
                assert forall|a2: int, b2: int|
                    0 <= a2 < items1(self.fst1, s1).len() && 0 <= b2 < items2(self.fst2, s2).len() && processed(match_input, j + 1, 0, a2, b2)
                        && #[trigger] accepted(f0, self.fst1, self.fst2, items1(self.fst1, s1)[a2], items2(self.fst2, s2)[b2])
                    implies exists|k: int| 0 <= k < origin.len() && origin[k] == (a2, b2) by {
                    assert(processed(match_input, j as int, n_inner as int, a2, b2));
                }
                lemma_pairs_row(f0, self.fst1, self.fst2, s1, s2, self.state_table@, out@, origin, match_input, j as int, n_inner as int);
            }
            j = j + 1;
        }
        proof {
            lemma_pairs_all(f0, self.fst1, self.fst2, s1, s2, self.state_table@, out@, origin, match_input, n_outer as int);
            assert forall|a2: int, b2: int|
                0 <= a2 < items1(self.fst1, s1).len() && 0 <= b2 < items2(self.fst2, s2).len() && joins(items1(self.fst1, s1)[a2], items2(self.fst2, s2)[b2])
                    implies (#[trigger] filter_outcome(f0, self.fst1, self.fst2, items1(self.fst1, s1)[a2], items2(self.fst2, s2)[b2])) is Some by {
                assert(processed(match_input, n_outer as int, 0, a2, b2));
            }
            let big = items1(self.fst1, s1).len() as int + items2(self.fst2, s2).len() as int;
            assert forall|k: int| #![trigger origin[k]] 0 <= k < out@.len() implies processed(match_input, big, 0, origin[k].0, origin[k].1) by {
            }
            assert forall|a2: int, b2: int|
                0 <= a2 < items1(self.fst1, s1).len() && 0 <= b2 < items2(self.fst2, s2).len() && #[trigger] accepted(f0, self.fst1, self.fst2, items1(self.fst1, s1)[a2], items2(self.fst2, s2)[b2])
                implies exists|k: int| 0 <= k < origin.len() && origin[k] == (a2, b2) by {
                assert(processed(match_input, n_outer as int, 0, a2, b2));
            }
            assert(pairs_sound(f0, self.fst1, self.fst2, s1, s2, self.state_table@, out@, origin, match_input, big, 0));
            assert(arcs_exact(f0, self.fst1, self.fst2, s1, s2, self.state_table@, out@, match_input));
        }
        self.cache[s].set_arcs(out);
        self.cache[s].mark_expanded();
        Ok(())
    }

}

} // verus!

use vstd::prelude::*;
use crate::arc::{Arc, Label, StateId};
use crate::cache::CacheState;
use crate::error::FstError;
use crate::fst::{copy_arcs, FstState, VectorFst};
use crate::label_reachable::lemma_extends_trans;
use crate::semiring::{Semiring, WeightQuantize};

verus! {

/// Factor the weights located in the final states.
pub const FACTOR_FINAL_WEIGHTS: u32 = 1;

/// Factor the weights located on the arcs.
pub const FACTOR_ARC_WEIGHTS: u32 = 2;

/// Which weights `factor_weight` factors: a set of the two bits above.
#[derive(Clone, Copy, Debug, PartialEq, Eq, Hash, Structural)]
pub struct FactorWeightType {
    pub bits: u32,
}

impl FactorWeightType {
    pub fn empty() -> (r: Self)
        ensures
            r.bits == 0,
            r.empty_spec(),
    {
        assert(0u32 & (FACTOR_FINAL_WEIGHTS | FACTOR_ARC_WEIGHTS) == 0) by (bit_vector);
        FactorWeightType { bits: 0 }
    }

    pub fn from_bools(factor_final_weights: bool, factor_arc_weights: bool) -> (r: Self)
        ensures
            r.bits == (if factor_final_weights { FACTOR_FINAL_WEIGHTS } else { 0 }) + (if factor_arc_weights {
                FACTOR_ARC_WEIGHTS
            } else {
                0
            }),
    {
        match (factor_final_weights, factor_arc_weights) {
            (true, true) => FactorWeightType { bits: FACTOR_FINAL_WEIGHTS + FACTOR_ARC_WEIGHTS },
            (true, false) => FactorWeightType { bits: FACTOR_FINAL_WEIGHTS },
            (false, true) => FactorWeightType { bits: FACTOR_ARC_WEIGHTS },
            (false, false) => Self::empty(),
        }
    }

    /// Neither arc weights nor final weights are factored.
    pub open spec fn empty_spec(&self) -> bool {
        self.bits & (FACTOR_FINAL_WEIGHTS | FACTOR_ARC_WEIGHTS) == 0
    }

    /// Whether neither kind of weight is factored (other bits are ignored).
    pub fn is_empty(&self) -> (r: bool)
        ensures
            r == self.empty_spec(),
    {
        self.bits & (FACTOR_FINAL_WEIGHTS | FACTOR_ARC_WEIGHTS) == 0
    }

    pub fn factor_final_weights(&self) -> (r: bool)
        ensures
            r == (self.bits & FACTOR_FINAL_WEIGHTS != 0),
    {
        self.bits & FACTOR_FINAL_WEIGHTS != 0
    }

    pub fn factor_arc_weights(&self) -> (r: bool)
        ensures
            r == (self.bits & FACTOR_ARC_WEIGHTS != 0),
    {
        self.bits & FACTOR_ARC_WEIGHTS != 0
    }
}

/// The default quantum of residual weights.
pub const KDELTA: u64 = 1;

/// Configuration of `factor_weight`.
#[derive(Clone, Copy, Debug, PartialEq, Eq, Structural)]
pub struct FactorWeightOptions {
    /// Quantum that residual weights are rounded to before they key a state.
    pub delta: u64,
    /// Factor arc weights and/or final weights.
    pub mode: FactorWeightType,
    /// Input label of the arcs made from final weights.
    pub final_ilabel: Label,
    /// Output label of the arcs made from final weights.
    pub final_olabel: Label,
    /// Make the input labels of parallel final arcs distinct by incrementing.
    pub increment_final_ilabel: bool,
    /// Make the output labels of parallel final arcs distinct by incrementing.
    pub increment_final_olabel: bool,
}

impl FactorWeightOptions {
    pub fn new(mode: FactorWeightType) -> (r: Self)
        ensures
            r == (FactorWeightOptions {
                delta: KDELTA,
                mode,
                final_ilabel: 0,
                final_olabel: 0,
                increment_final_ilabel: false,
                increment_final_olabel: false,
            }),
    {
        FactorWeightOptions { delta: KDELTA, mode, final_ilabel: 0, final_olabel: 0, increment_final_ilabel: false, increment_final_olabel: false }
    }

    /// Rejects a configuration that factors nothing.
    pub fn check(&self) -> (r: Result<(), FstError>)
        ensures
            self.mode.empty_spec() <==> r == Err::<(), FstError>(FstError::InvalidConfiguration),
            !self.mode.empty_spec() <==> r is Ok,
    {
        if self.mode.is_empty() {
            Err(FstError::InvalidConfiguration)
        } else {
            Ok(())
        }
    }
}


/// Splits a weight `w` into pairs `(front, residual)` whose products sum to
/// `w`. A weight that needs no factoring gives no pair.
pub trait FactorIterator<W: Semiring> {
    spec fn factors_spec(w: W) -> Seq<(W, W)>;

    fn factors(w: &W) -> (r: Vec<(W, W)>)
        ensures
            r@ == Self::factors_spec(*w),
    ;
}

/// The factor iterator that never splits: every weight counts as factored.
#[derive(Clone, Copy, Debug, PartialEq, Eq)]
pub struct IdentityFactor;

impl<W: Semiring> FactorIterator<W> for IdentityFactor {
    open spec fn factors_spec(w: W) -> Seq<(W, W)> {
        Seq::empty()
    }

    fn factors(w: &W) -> (r: Vec<(W, W)>) {
        Vec::new()
    }
}

/// A state of the factored transducer: a state of the operand (`None` for
/// the final states made from final weights) and the residual weight still
/// to be put on the way out of it.
pub type Element<W> = (Option<StateId>, W);

/// The arcs made from one arc `a` leaving an element of residual `rw`.
pub open spec fn arc_factors<W: WeightQuantize, FI: FactorIterator<W>>(factor_arcs: bool, delta: u64, rw: W, a: Arc<W>) -> Seq<(Label, Label, W, Element<W>)> {
    let w = rw.times_spec(a.weight);
    let fs = FI::factors_spec(w);
    if !factor_arcs || fs.len() == 0 {
        seq![(a.ilabel, a.olabel, w, (Some(a.nextstate), W::one_spec()))]
    } else {
        fs.map_values(|p: (W, W)| (a.ilabel, a.olabel, p.0, (Some(a.nextstate), p.1.quantize_spec(delta))))
    }
}

/// The arcs made from the arcs `arcs`, in order.
pub open spec fn arcs_factors<W: WeightQuantize, FI: FactorIterator<W>>(factor_arcs: bool, delta: u64, rw: W, arcs: Seq<Arc<W>>) -> Seq<(Label, Label, W, Element<W>)>
    decreases arcs.len(),
{
    if arcs.len() == 0 {
        seq![]
    } else {
        arcs_factors::<W, FI>(factor_arcs, delta, rw, arcs.drop_last()) + arc_factors::<W, FI>(factor_arcs, delta, rw, arcs.last())
    }
}

/// The arcs made from the final weight `w`: one per factor, to a final
/// element, with labels incremented per factor if asked.
pub open spec fn final_factors<W: WeightQuantize, FI: FactorIterator<W>>(opts: FactorWeightOptions, w: W) -> Seq<(Label, Label, W, Element<W>)> {
    let fs = FI::factors_spec(w);
    Seq::new(
        fs.len(),
        |i: int|
            (
                (if opts.increment_final_ilabel { opts.final_ilabel + i } else { opts.final_ilabel as int }) as Label,
                (if opts.increment_final_olabel { opts.final_olabel + i } else { opts.final_olabel as int }) as Label,
                fs[i].0,
                (None::<StateId>, fs[i].1.quantize_spec(opts.delta)),
            ),
    )
}

/// `out` realizes `list`: same labels and weights, each target being the
/// state the table gives the listed element.
pub open spec fn realizes<W>(table: Seq<Element<W>>, out: Seq<Arc<W>>, list: Seq<(Label, Label, W, Element<W>)>) -> bool {
    &&& out.len() == list.len()
    &&& forall|k: int| 0 <= k < out.len() ==> {
        &&& (#[trigger] out[k]).ilabel == list[k].0
        &&& out[k].olabel == list[k].1
        &&& out[k].weight == list[k].2
        &&& out[k].nextstate < table.len()
        &&& table[out[k].nextstate as int] == list[k].3
    }
}

proof fn lemma_realizes_extend<W>(t: Seq<Element<W>>, t2: Seq<Element<W>>, out: Seq<Arc<W>>, list: Seq<(Label, Label, W, Element<W>)>)
    requires
        realizes(t, out, list),
        t2.len() >= t.len(),
        t2.subrange(0, t.len() as int) == t,
    ensures
        realizes(t2, out, list),
{
    assert forall|k: int| 0 <= k < out.len() implies t2[(#[trigger] out[k]).nextstate as int] == list[k].3 by {
        assert(t2.subrange(0, t.len() as int)[out[k].nextstate as int] == t2[out[k].nextstate as int]);
    }
}

proof fn lemma_realizes_push<W>(t: Seq<Element<W>>, out: Seq<Arc<W>>, list: Seq<(Label, Label, W, Element<W>)>, a: Arc<W>, e: (Label, Label, W, Element<W>))
    requires
        realizes(t, out, list),
        a.ilabel == e.0 && a.olabel == e.1 && a.weight == e.2 && a.nextstate < t.len() && t[a.nextstate as int] == e.3,
    ensures
        realizes(t, out.push(a), list.push(e)),
{
    assert forall|k: int| 0 <= k < out.len() + 1 implies {
        &&& (#[trigger] out.push(a)[k]).ilabel == list.push(e)[k].0
        &&& out.push(a)[k].olabel == list.push(e)[k].1
        &&& out.push(a)[k].weight == list.push(e)[k].2
        &&& out.push(a)[k].nextstate < t.len()
        &&& t[out.push(a)[k].nextstate as int] == list.push(e)[k].3
    } by {
        if k < out.len() {
            assert(out.push(a)[k] == out[k]);
            assert(list.push(e)[k] == list[k]);
        }
    }
}

/// What state `elt` of `f`'s operand carries as final weight before
/// factoring: the residual times the operand's final weight (`one` for a
/// state that is not final when used for final arcs).
pub open spec fn element_final<W: Semiring>(fst: VectorFst<W>, elt: Element<W>, missing: W) -> W {
    match elt.0 {
        None => elt.1,
        Some(s) => elt.1.times_spec(match fst.states@[s as int].final_weight {
            Some(fw) => fw,
            None => missing,
        }),
    }
}

/// The arcs of element `elt` once expanded.
pub open spec fn expansion<W: WeightQuantize, FI: FactorIterator<W>>(fst: VectorFst<W>, opts: FactorWeightOptions, elt: Element<W>) -> Seq<(Label, Label, W, Element<W>)> {
    let fa = opts.mode.bits & FACTOR_ARC_WEIGHTS != 0;
    let ff = opts.mode.bits & FACTOR_FINAL_WEIGHTS != 0;
    let arc_part = match elt.0 {
        Some(o) => arcs_factors::<W, FI>(fa, opts.delta, elt.1, fst.states@[o as int].arcs@),
        None => seq![],
    };
    let final_part = if ff && (elt.0 matches Some(o) ==> fst.states@[o as int].final_weight is Some) {
        final_factors::<W, FI>(opts, element_final(fst, elt, W::one_spec()))
    } else {
        seq![]
    };
    arc_part + final_part
}

/// The state table and the final labels have room for the expansion of
/// an element.
pub open spec fn expansion_fits<W: WeightQuantize, FI: FactorIterator<W>>(fst: VectorFst<W>, opts: FactorWeightOptions, elt: Element<W>, table_len: nat) -> bool {
    let n = expansion::<W, FI>(fst, opts, elt).len();
    &&& table_len + n < usize::MAX
    &&& opts.increment_final_ilabel ==> opts.final_ilabel + n < usize::MAX
    &&& opts.increment_final_olabel ==> opts.final_olabel + n < usize::MAX
}

/// The cache entries before `n` are unchanged, and those from `n` on are
/// fresh.
pub open spec fn cache_kept<W>(before: Seq<CacheState<W>>, now: Seq<CacheState<W>>, n: int) -> bool {
    &&& before.len() == n
    &&& now.len() >= n
    &&& forall|i: int| 0 <= i < n ==> #[trigger] now[i] == before[i]
    &&& forall|i: int| n <= i < now.len() ==> !(#[trigger] now[i]).expanded_spec() && !now[i].has_final_spec()
}

proof fn lemma_push_no_dup<T>(s: Seq<T>, e: T)
    requires
        s.no_duplicates(),
        !s.contains(e),
    ensures
        s.push(e).no_duplicates(),
{
    assert forall|i: int, j: int| 0 <= i < j < s.push(e).len() implies s.push(e)[i] != s.push(e)[j] by {
        if j == s.len() {
            assert(s.push(e)[i] == s[i]);
        } else {
            assert(s.push(e)[i] == s[i]);
            assert(s.push(e)[j] == s[j]);
        }
    }
}

/// A sequence without duplicates whose elements all lie in `t` is no
/// longer than `t`.
proof fn lemma_unique_within<T>(s: Seq<T>, t: Seq<T>)
    requires
        s.no_duplicates(),
        forall|i: int| 0 <= i < s.len() ==> t.contains(#[trigger] s[i]),
    ensures
        s.len() <= t.len(),
{
    broadcast use vstd::seq_lib::seq_to_set_is_finite;
    s.unique_seq_to_set();
    t.lemma_cardinality_of_set();
    assert forall|x: T| s.to_set().contains(x) implies t.to_set().contains(x) by {
        let i = choose|i: int| 0 <= i < s.len() && s[i] == x;
    }
    vstd::set_lib::lemma_len_subset(s.to_set(), t.to_set());
}

/// The states the table gained past `n` are elements listed in `list`.
pub open spec fn added_from<W>(n: int, table: Seq<Element<W>>, list: Seq<(Label, Label, W, Element<W>)>) -> bool {
    forall|x: int| #![trigger table[x]] n <= x < table.len() ==> listed(list, table[x])
}

/// `e` is the target element of some entry of `list`.
pub open spec fn listed<W>(list: Seq<(Label, Label, W, Element<W>)>, e: Element<W>) -> bool {
    exists|k: int| 0 <= k < list.len() && list[k].3 == e
}

proof fn lemma_added_from_push<W>(n: int, tb: Seq<Element<W>>, table: Seq<Element<W>>, list: Seq<(Label, Label, W, Element<W>)>, e: (Label, Label, W, Element<W>))
    requires
        n >= 0,
        added_from(n, tb, list),
        table == tb || table == tb.push(e.3),
    ensures
        added_from(n, table, list.push(e)),
{
    assert forall|x: int| #![trigger table[x]] n <= x < table.len() implies listed(list.push(e), table[x]) by {
        if x < tb.len() {
            assert(table[x] == tb[x]);
            assert(listed(list, tb[x]));
            let k = choose|k: int| 0 <= k < list.len() && list[k].3 == tb[x];
            assert(list.push(e)[k] == list[k]);
        } else {
            assert(list.push(e)[list.len() as int] == e);
        }
    }
}

/// A prefix of the arcs gives no more factored arcs than all of them.
proof fn lemma_arcs_factors_prefix<W: WeightQuantize, FI: FactorIterator<W>>(fa: bool, delta: u64, rw: W, arcs: Seq<Arc<W>>, m: int)
    requires
        0 <= m <= arcs.len(),
    ensures
        arcs_factors::<W, FI>(fa, delta, rw, arcs.subrange(0, m)).len() <= arcs_factors::<W, FI>(fa, delta, rw, arcs).len(),
    decreases arcs.len(),
{
    if m == arcs.len() {
        assert(arcs.subrange(0, m) =~= arcs);
    } else {
        assert(arcs.drop_last().subrange(0, m) =~= arcs.subrange(0, m));
        lemma_arcs_factors_prefix::<W, FI>(fa, delta, rw, arcs.drop_last(), m);
    }
}

/// The final weight factoring gives element `elt`: its weight, unless it is
/// `zero` or is to be factored into arcs.
pub open spec fn factored_final<W: WeightQuantize, FI: FactorIterator<W>>(fst: VectorFst<W>, opts: FactorWeightOptions, elt: Element<W>) -> Option<W> {
    let w = element_final(fst, elt, W::zero_spec());
    if w != W::zero_spec() && (!(opts.mode.bits & FACTOR_FINAL_WEIGHTS != 0) || FI::factors_spec(w).len() == 0) {
        Some(w)
    } else {
        None
    }
}

/// `out` is the factoring of `fst`, its states being the elements `table`
/// (the start element first), each with the arcs and final weight that
/// factoring gives it.
pub open spec fn factored_from<W: WeightQuantize, FI: FactorIterator<W>>(fst: VectorFst<W>, opts: FactorWeightOptions, table: Seq<Element<W>>, out: VectorFst<W>) -> bool {
    &&& out.states@.len() == table.len()
    &&& fst.start is None ==> table.len() == 0 && out.start is None
    &&& fst.start is Some ==> table.len() >= 1 && table[0] == (fst.start, W::one_spec()) && out.start == Some(0usize)
    &&& forall|s: int| 0 <= s < table.len() ==> realizes(table, (#[trigger] out.states@[s]).arcs@, expansion::<W, FI>(fst, opts, table[s]))
        && out.states@[s].final_weight == factored_final::<W, FI>(fst, opts, table[s])
}

/// `t` holds the start element of `fst`'s factoring, every element the
/// expansion of one of its elements leads to, and leaves room for a table
/// of its size plus any one expansion.
pub open spec fn closed_table<W: WeightQuantize, FI: FactorIterator<W>>(fst: VectorFst<W>, opts: FactorWeightOptions, t: Seq<Element<W>>) -> bool {
    &&& t.contains((fst.start, W::one_spec()))
    &&& forall|i: int, e: Element<W>| 0 <= i < t.len() && #[trigger] listed(expansion::<W, FI>(fst, opts, t[i]), e) ==> t.contains(e)
    &&& forall|i: int| 0 <= i < t.len() ==> expansion_fits::<W, FI>(fst, opts, #[trigger] t[i], t.len())
}

/// Factors the weights of `fst` into a new transducer, expanding every
/// state reachable from the start.
pub fn factor_weight<W: WeightQuantize, FI: FactorIterator<W>>(fst: VectorFst<W>, opts: FactorWeightOptions) -> (r: Result<VectorFst<W>, FstError>)
    requires
        fst.wf(),
    ensures
        opts.mode.empty_spec() ==> r == Err::<VectorFst<W>, FstError>(FstError::InvalidConfiguration),
        r is Err ==> r == Err::<VectorFst<W>, FstError>(FstError::InvalidConfiguration) || r == Err::<VectorFst<W>, FstError>(
            FstError::Internal,
        ),
        r matches Ok(out) ==> out.wf() && exists|table: Seq<Element<W>>| factored_from::<W, FI>(fst, opts, table, out),
        !opts.mode.empty_spec() && fst.start is None ==> r is Ok,
        !opts.mode.empty_spec() && (exists|t: Seq<Element<W>>| closed_table::<W, FI>(fst, opts, t)) ==> r is Ok,
{
    let ghost fst0 = fst;
    let mut fw: FactorWeightFst<W, FI> = match FactorWeightFst::new(fst, opts) {
        Ok(f) => f,
        Err(e) => return Err(e),
    };
    let st = match fw.start() {
        Ok(st) => st,
        Err(e) => return Err(e),
    };
    if st.is_none() {
        let out = VectorFst::new();
        proof {
            let table = Seq::<Element<W>>::empty();
            assert(factored_from::<W, FI>(fst0, opts, table, out));
        }
        return Ok(out);
    }
    let ghost has_t = exists|t: Seq<Element<W>>| closed_table::<W, FI>(fst0, opts, t);
    let ghost t = if has_t {
        choose|t: Seq<Element<W>>| closed_table::<W, FI>(fst0, opts, t)
    } else {
        Seq::<Element<W>>::empty()
    };
    proof {
        if has_t {
            assert(t.contains(fw.state_table@[0]));
        }
    }
    let mut next: usize = 0;
    while next < fw.state_table.len()
        invariant
            fst0 == fst,
            has_t == exists|t: Seq<Element<W>>| closed_table::<W, FI>(fst0, opts, t),
            has_t ==> closed_table::<W, FI>(fst0, opts, t),
            has_t ==> forall|x: int| 0 <= x < fw.state_table@.len() ==> t.contains(#[trigger] fw.state_table@[x]),
            fw.wf(),
            fw.fst == fst0,
            fw.opts == opts,
            !opts.mode.empty_spec(),
            fst0.start is Some,
            0 <= next <= fw.state_table@.len(),
            fw.state_table@.len() >= 1,
            fw.state_table@[0] == (fst0.start, W::one_spec()),
            forall|i: int| 0 <= i < next ==> {
                &&& (#[trigger] fw.cache@[i]).expanded_spec()
                &&& realizes(fw.state_table@, fw.cache@[i].arcs_spec(), expansion::<W, FI>(fst0, opts, fw.state_table@[i]))
                &&& fw.cache@[i].has_final_spec()
                &&& fw.cache@[i].final_spec() == factored_final::<W, FI>(fst0, opts, fw.state_table@[i])
            },
            forall|i: int| next <= i < fw.cache@.len() ==> !(#[trigger] fw.cache@[i]).expanded_spec() && !fw.cache@[i].has_final_spec(),
        decreases usize::MAX - next,
    {
        let ghost t_before = fw.state_table@;
        proof {
            if has_t {
                lemma_unique_within(fw.state_table@, t);
                let i = choose|i: int| 0 <= i < t.len() && t[i] == fw.state_table@[next as int];
                assert(expansion_fits::<W, FI>(fst0, opts, t[i], t.len()));
            }
        }
        match fw.arcs(next) {
            Ok(_) => {},
            Err(_) => return Err(FstError::Internal),
        }
        proof {
            assert forall|i: int| 0 <= i < next implies realizes(fw.state_table@, fw.cache@[i].arcs_spec(), expansion::<W, FI>(fst0, opts, fw.state_table@[i])) by {
                assert(fw.state_table@[i] == fw.state_table@.subrange(0, t_before.len() as int)[i]);
                lemma_realizes_extend(t_before, fw.state_table@, fw.cache@[i].arcs_spec(), expansion::<W, FI>(fst0, opts, t_before[i]));
            }
            assert(fw.state_table@[next as int] == t_before[next as int]);
            assert(fw.state_table@[0] == t_before[0]);
            if has_t {
                assert forall|x: int| 0 <= x < fw.state_table@.len() implies t.contains(#[trigger] fw.state_table@[x]) by {
                    if x < t_before.len() {
                        assert(fw.state_table@[x] == t_before[x]);
                    } else {
                        let i = choose|i: int| 0 <= i < t.len() && t[i] == t_before[next as int];
                        assert(listed(expansion::<W, FI>(fst0, opts, t[i]), fw.state_table@[x]));
                    }
                }
            }
        }
        match fw.final_weight(next) {
            Ok(_) => {},
            Err(e) => return Err(e),
        }
        next = next + 1;
    }
    let n = fw.state_table.len();
    let mut states: Vec<FstState<W>> = Vec::new();
    let mut s: usize = 0;
    while s < n
        invariant
            fw.wf(),
            n == fw.state_table@.len(),
            0 <= s <= n,
            states@.len() == s,
            forall|i: int| 0 <= i < s ==> (#[trigger] states@[i]).arcs@ == fw.cache@[i].arcs_spec()
                && states@[i].final_weight == fw.cache@[i].final_spec(),
        decreases n - s,
    {
        let arcs = copy_arcs(fw.cache[s].arcs());
        let final_weight = match fw.cache[s].final_weight() {
            Some(w) => Some(w.duplicate()),
            None => None,
        };
        states.push(FstState { arcs, final_weight });
        s = s + 1;
    }
    let out = VectorFst { states, start: Some(0) };
    proof {
        let table = fw.state_table@;
        assert forall|t: int, k: int|
            0 <= t < out.states@.len() && 0 <= k < out.states@[t].arcs@.len() implies (
            #[trigger] out.states@[t].arcs@[k]).nextstate < out.states@.len() by {
            assert(realizes(table, fw.cache@[t].arcs_spec(), expansion::<W, FI>(fst0, opts, table[t])));
            assert(out.states@[t].arcs@[k] == fw.cache@[t].arcs_spec()[k]);
        }
        assert(factored_from::<W, FI>(fst0, opts, table, out));
    }
    Ok(out)
}

/// Weight factoring as a lazily expanded transducer over `fst`.
#[derive(Debug)]
pub struct FactorWeightFst<W, FI> {
    pub fst: VectorFst<W>,
    pub opts: FactorWeightOptions,
    pub state_table: Vec<Element<W>>,
    pub cache: Vec<CacheState<W>>,
    /// Operand states reached with residual `one`, when arc weights are not
    /// factored, and their ids.
    pub unfactored: Vec<(StateId, StateId)>,
    pub start_state: Option<Option<StateId>>,
    pub factor: core::marker::PhantomData<FI>,
}

impl<W: WeightQuantize, FI: FactorIterator<W>> FactorWeightFst<W, FI> {
    pub open spec fn wf(&self) -> bool {
        &&& self.fst.wf()
        &&& self.cache@.len() == self.state_table@.len()
        &&& forall|i: int| 0 <= i < self.state_table@.len() ==> ((#[trigger] self.state_table@[i]).0 matches Some(s) ==> s < self.fst.states@.len())
        &&& forall|i: int| 0 <= i < self.unfactored@.len() ==> (#[trigger] self.unfactored@[i]).1 < self.state_table@.len()
            && self.state_table@[self.unfactored@[i].1 as int] == (Some(self.unfactored@[i].0), W::one_spec())
        &&& forall|i: int| 0 <= i < self.cache@.len() && !(#[trigger] self.cache@[i]).expanded_spec() ==> self.cache@[i].arcs_spec().len() == 0
        &&& (self.start_state matches Some(Some(st)) ==> st < self.state_table@.len())
        &&& self.state_table@.no_duplicates()
        &&& !self.factor_arcs_spec() ==> forall|i: int|
            0 <= i < self.state_table@.len() && (#[trigger] self.state_table@[i]).0 is Some && self.state_table@[i].1 == W::one_spec()
                ==> exists|u: int| 0 <= u < self.unfactored@.len() && self.unfactored@[u] == (self.state_table@[i].0->Some_0, i as StateId)
    }

    pub open spec fn factor_arcs_spec(&self) -> bool {
        self.opts.mode.bits & FACTOR_ARC_WEIGHTS != 0
    }

    pub open spec fn factor_finals_spec(&self) -> bool {
        self.opts.mode.bits & FACTOR_FINAL_WEIGHTS != 0
    }

    /// Factoring of `fst`; fails when the mode factors nothing.
    pub fn new(fst: VectorFst<W>, opts: FactorWeightOptions) -> (r: Result<Self, FstError>)
        requires
            fst.wf(),
        ensures
            opts.mode.empty_spec() ==> r == Err::<Self, FstError>(FstError::InvalidConfiguration),
            !opts.mode.empty_spec() ==> (r matches Ok(f) && f.wf() && f.fst == fst && f.opts == opts && f.state_table@.len() == 0
                && f.start_state is None),
    {
        if opts.mode.is_empty() {
            return Err(FstError::InvalidConfiguration);
        }
        Ok(FactorWeightFst {
            fst,
            opts,
            state_table: Vec::new(),
            cache: Vec::new(),
            unfactored: Vec::new(),
            start_state: None,
            factor: core::marker::PhantomData,
        })
    }

    /// The id of element `elt`, adding it if new. Without arc factoring, an
    /// operand state reached with residual `one` keeps a single id.
    fn find_state(&mut self, elt: Element<W>) -> (r: Result<StateId, FstError>)
        requires
            old(self).wf(),
            elt.0 matches Some(s) ==> s < old(self).fst.states@.len(),
        ensures
            final(self).wf(),
            final(self).fst == old(self).fst,
            final(self).opts == old(self).opts,
            final(self).start_state == old(self).start_state,
            final(self).state_table@.len() >= old(self).state_table@.len(),
            final(self).state_table@.subrange(0, old(self).state_table@.len() as int) == old(self).state_table@,
            forall|i: int| 0 <= i < old(self).cache@.len() ==> #[trigger] final(self).cache@[i] == old(self).cache@[i],
            r matches Ok(id) ==> id < final(self).state_table@.len() && final(self).state_table@[id as int] == elt,
            r is Err ==> r == Err::<StateId, FstError>(FstError::Internal),
            old(self).state_table@.len() < usize::MAX ==> r is Ok,
            final(self).state_table@.len() <= old(self).state_table@.len() + 1,
            forall|i: int| old(self).cache@.len() <= i < final(self).cache@.len() ==> !(#[trigger] final(self).cache@[i]).expanded_spec()
                && !final(self).cache@[i].has_final_spec(),
            final(self).state_table@ == old(self).state_table@ || final(self).state_table@ == old(self).state_table@.push(elt),
    {
        let factor_arcs = self.opts.mode.factor_arc_weights();
        if !factor_arcs && elt.1.is_one() && elt.0.is_some() {
            let old_state = match elt.0 {
                Some(s) => s,
                None => 0,
            };
            let mut i: usize = 0;
            while i < self.unfactored.len()
                invariant
                    0 <= i <= self.unfactored@.len(),
                    *self == *old(self),
                    self.wf(),
                    elt == (Some(old_state), W::one_spec()),
                    !factor_arcs,
                    factor_arcs == self.factor_arcs_spec(),
                    forall|k: int| 0 <= k < i ==> (#[trigger] self.unfactored@[k]).0 != old_state,
                decreases self.unfactored@.len() - i,
            {
                if self.unfactored[i].0 == old_state {
                    let id = self.unfactored[i].1;
                    assert(self.state_table@[id as int] == (Some(self.unfactored@[i as int].0), W::one_spec()));
                    assert(self.state_table@.subrange(0, self.state_table@.len() as int) =~= self.state_table@);
                    return Ok(id);
                }
                i = i + 1;
            }
            proof {
                assert(!self.state_table@.contains(elt)) by {
                    if self.state_table@.contains(elt) {
                        let x = choose|x: int| 0 <= x < self.state_table@.len() && self.state_table@[x] == elt;
                        assert(self.state_table@[x].0 is Some);
                        let u = choose|u: int| 0 <= u < self.unfactored@.len() && self.unfactored@[u] == (self.state_table@[x].0->Some_0, x as StateId);
                        assert(self.unfactored@[u].0 == old_state);
                    }
                }
            }
            let ghost t_before = self.state_table@;
            let ghost u_before = self.unfactored@;
            let id = self.push_element(elt);
            match id {
                Ok(id) => {
                    let ghost before = self.unfactored@;
                    self.unfactored.push((old_state, id));
                    proof {
                        lemma_push_no_dup(t_before, elt);
                        assert forall|x: int|
                            0 <= x < self.state_table@.len() && (#[trigger] self.state_table@[x]).0 is Some && self.state_table@[x].1 == W::one_spec()
                            implies exists|u: int| 0 <= u < self.unfactored@.len() && self.unfactored@[u] == (self.state_table@[x].0->Some_0, x as StateId) by {
                            if x < t_before.len() {
                                assert(self.state_table@[x] == t_before[x]);
                                let u = choose|u: int| 0 <= u < u_before.len() && u_before[u] == (t_before[x].0->Some_0, x as StateId);
                                assert(self.unfactored@[u] == u_before[u]);
                            } else {
                                assert(self.unfactored@[self.unfactored@.len() - 1] == (old_state, id));
                            }
                        }
                        assert forall|k: int| 0 <= k < self.unfactored@.len() implies (#[trigger] self.unfactored@[k]).1 < self.state_table@.len()
                            && self.state_table@[self.unfactored@[k].1 as int] == (Some(self.unfactored@[k].0), W::one_spec()) by {
                            if k < before.len() {
                                assert(self.unfactored@[k] == before[k]);
                            }
                        }
                    }
                    Ok(id)
                },
                Err(e) => Err(e),
            }
        } else {
            let n = self.state_table.len();
            let mut i: usize = 0;
            while i < n
                invariant
                    0 <= i <= n,
                    n == self.state_table@.len(),
                    *self == *old(self),
                    self.wf(),
                    forall|k: int| 0 <= k < i ==> #[trigger] self.state_table@[k] != elt,
                decreases n - i,
            {
                let same_state = match (&self.state_table[i].0, &elt.0) {
                    (Some(a), Some(b)) => *a == *b,
                    (None, None) => true,
                    _ => false,
                };
                if same_state && self.state_table[i].1.equals(&elt.1) {
                    assert(self.state_table@.subrange(0, n as int) =~= self.state_table@);
                    return Ok(i);
                }
                i = i + 1;
            }
            let ghost t_before = self.state_table@;
            proof {
                assert(!t_before.contains(elt));
            }
            let r = self.push_element(elt);
            proof {
                if r is Ok {
                    lemma_push_no_dup(t_before, elt);
                    assert forall|x: int|
                        0 <= x < self.state_table@.len() && (#[trigger] self.state_table@[x]).0 is Some && self.state_table@[x].1 == W::one_spec()
                            && !self.factor_arcs_spec()
                        implies exists|u: int| 0 <= u < self.unfactored@.len() && self.unfactored@[u] == (self.state_table@[x].0->Some_0, x as StateId) by {
                        if x < t_before.len() {
                            assert(self.state_table@[x] == t_before[x]);
                        }
                    }
                }
            }
            r
        }
    }

    /// Adds `elt` as a new state.
    fn push_element(&mut self, elt: Element<W>) -> (r: Result<StateId, FstError>)
        requires
            old(self).wf(),
            elt.0 matches Some(s) ==> s < old(self).fst.states@.len(),
        ensures
            final(self).fst == old(self).fst,
            final(self).opts == old(self).opts,
            final(self).start_state == old(self).start_state,
            final(self).unfactored == old(self).unfactored,
            final(self).state_table@.len() >= old(self).state_table@.len(),
            final(self).state_table@.subrange(0, old(self).state_table@.len() as int) == old(self).state_table@,
            forall|i: int| 0 <= i < old(self).cache@.len() ==> #[trigger] final(self).cache@[i] == old(self).cache@[i],
            r matches Ok(id) ==> id == old(self).state_table@.len() && final(self).state_table@ == old(self).state_table@.push(elt),
            r is Err ==> r == Err::<StateId, FstError>(FstError::Internal) && *final(self) == *old(self),
            r is Err <==> old(self).state_table@.len() == usize::MAX,
            forall|i: int| old(self).cache@.len() <= i < final(self).cache@.len() ==> !(#[trigger] final(self).cache@[i]).expanded_spec()
                && !final(self).cache@[i].has_final_spec(),
            final(self).wf() || r is Ok,
            ({
                let f = *final(self);
                &&& f.fst.wf()
                &&& f.cache@.len() == f.state_table@.len()
                &&& forall|i: int| 0 <= i < f.state_table@.len() ==> ((#[trigger] f.state_table@[i]).0 matches Some(s) ==> s < f.fst.states@.len())
                &&& forall|i: int| 0 <= i < f.unfactored@.len() ==> (#[trigger] f.unfactored@[i]).1 < f.state_table@.len()
                    && f.state_table@[f.unfactored@[i].1 as int] == (Some(f.unfactored@[i].0), W::one_spec())
                &&& forall|i: int| 0 <= i < f.cache@.len() && !(#[trigger] f.cache@[i]).expanded_spec() ==> f.cache@[i].arcs_spec().len() == 0
                &&& (f.start_state matches Some(Some(st)) ==> st < f.state_table@.len())
            }),
    {
        let n = self.state_table.len();
        if n == usize::MAX {
            return Err(FstError::Internal);
        }
        self.state_table.push(elt);
        self.cache.push(CacheState::new());
        proof {
            assert(self.state_table@.subrange(0, n as int) =~= old(self).state_table@);
            assert forall|i: int| 0 <= i < self.state_table@.len() implies ((#[trigger] self.state_table@[i]).0 matches Some(s) ==> s < self.fst.states@.len()) by {
                if i < n {
                    assert(self.state_table@[i] == old(self).state_table@[i]);
                }
            }
            assert forall|i: int| 0 <= i < self.unfactored@.len() implies (#[trigger] self.unfactored@[i]).1 < self.state_table@.len()
                && self.state_table@[self.unfactored@[i].1 as int] == (Some(self.unfactored@[i].0), W::one_spec()) by {
                assert(self.state_table@[self.unfactored@[i].1 as int] == old(self).state_table@[self.unfactored@[i].1 as int]);
            }
            assert forall|i: int| 0 <= i < self.cache@.len() && !(#[trigger] self.cache@[i]).expanded_spec() implies self.cache@[i].arcs_spec().len() == 0 by {
                if i < n {
                    assert(self.cache@[i] == old(self).cache@[i]);
                }
            }
        }
        Ok(n)
    }


    /// The start state: the operand's start with residual `one`.
    pub fn start(&mut self) -> (r: Result<Option<StateId>, FstError>)
        requires
            old(self).wf(),
        ensures
            final(self).wf(),
            final(self).fst == old(self).fst,
            final(self).opts == old(self).opts,
            final(self).state_table@.len() >= old(self).state_table@.len(),
            final(self).state_table@.len() <= old(self).state_table@.len() + 1,
            final(self).state_table@.subrange(0, old(self).state_table@.len() as int) == old(self).state_table@,
            forall|i: int| 0 <= i < old(self).cache@.len() ==> #[trigger] final(self).cache@[i] == old(self).cache@[i],
            forall|i: int| old(self).cache@.len() <= i < final(self).cache@.len() ==> !(#[trigger] final(self).cache@[i]).expanded_spec()
                && !final(self).cache@[i].has_final_spec(),
            r matches Ok(Some(id)) ==> final(self).start_state == Some(Some(id)),
            old(self).start_state matches Some(st) ==> r == Ok::<Option<StateId>, FstError>(st),
            old(self).start_state is None && old(self).fst.start is None ==> r == Ok::<Option<StateId>, FstError>(None),
            old(self).start_state is None && old(self).fst.start is Some ==> (r matches Ok(Some(id)) ==> id < final(self).state_table@.len()
                && final(self).state_table@[id as int] == (old(self).fst.start, W::one_spec())),
            r is Err ==> r == Err::<Option<StateId>, FstError>(FstError::Internal),
            old(self).start_state is None && old(self).fst.start is Some && old(self).state_table@.len() < usize::MAX ==> r matches Ok(
                Some(_),
            ),
    {
        match self.start_state {
            Some(st) => {
                return Ok(st);
            },
            None => {},
        }
        let st = match self.fst.start {
            Some(s0) => match self.find_state((Some(s0), W::one())) {
                Ok(id) => Some(id),
                Err(e) => return Err(e),
            },
            None => None,
        };
        self.start_state = Some(st);
        Ok(st)
    }

    /// The final weight of state `s`: its element's weight (residual times
    /// the operand's final weight), unless it is `zero` or is to be factored
    /// into arcs.
    pub fn final_weight(&mut self, s: StateId) -> (r: Result<Option<W>, FstError>)
        requires
            old(self).wf(),
        ensures
            final(self).wf(),
            final(self).fst == old(self).fst,
            final(self).opts == old(self).opts,
            final(self).state_table == old(self).state_table,
            s >= old(self).state_table@.len() ==> r == Err::<Option<W>, FstError>(FstError::InvalidState),
            final(self).cache@.len() == old(self).cache@.len(),
            forall|i: int| 0 <= i < old(self).cache@.len() && i != s ==> #[trigger] final(self).cache@[i] == old(self).cache@[i],
            s < old(self).state_table@.len() ==> r is Ok && final(self).cache@[s as int].has_final_spec() && r == Ok::<Option<W>, FstError>(final(self).cache@[s as int].final_spec())
                && final(self).cache@[s as int].expanded_spec() == old(self).cache@[s as int].expanded_spec()
                && final(self).cache@[s as int].arcs_spec() == old(self).cache@[s as int].arcs_spec(),
            s < old(self).state_table@.len() && old(self).cache@[s as int].has_final_spec() ==> r == Ok::<Option<W>, FstError>(
                old(self).cache@[s as int].final_spec(),
            ),
            s < old(self).state_table@.len() && !old(self).cache@[s as int].has_final_spec() ==> ({
                let w = element_final(old(self).fst, old(self).state_table@[s as int], W::zero_spec());
                r == Ok::<Option<W>, FstError>(if w != W::zero_spec() && (!old(self).factor_finals_spec() || FI::factors_spec(w).len() == 0) {
                    Some(w)
                } else {
                    None
                })
            }),
    {
        if s >= self.state_table.len() {
            return Err(FstError::InvalidState);
        }
        if !self.cache[s].has_final() {
            let w = match self.state_table[s].0 {
                None => self.state_table[s].1.duplicate(),
                Some(o) => match &self.fst.states[o].final_weight {
                    Some(f) => self.state_table[s].1.times(f),
                    None => self.state_table[s].1.times(&W::zero()),
                },
            };
            let factors = FI::factors(&w);
            let result = if !w.is_zero() && (!self.opts.mode.factor_final_weights() || factors.len() == 0) {
                Some(w)
            } else {
                None
            };
            self.cache[s].set_final_weight(result);
            proof {
                assert forall|i: int| 0 <= i < self.cache@.len() && !(#[trigger] self.cache@[i]).expanded_spec() implies self.cache@[i].arcs_spec().len() == 0 by {
                    if i != s {
                        assert(self.cache@[i] == old(self).cache@[i]);
                    }
                }
            }
        }
        match self.cache[s].final_weight() {
            Some(w) => Ok(Some(w.duplicate())),
            None => Ok(None),
        }
    }

    /// The arcs of state `s`, expanding it on first demand.
    pub fn arcs(&mut self, s: StateId) -> (r: Result<Vec<Arc<W>>, FstError>)
        requires
            old(self).wf(),
        ensures
            final(self).wf(),
            final(self).fst == old(self).fst,
            final(self).opts == old(self).opts,
            s >= old(self).state_table@.len() ==> r == Err::<Vec<Arc<W>>, FstError>(FstError::InvalidState),
            final(self).state_table@.len() >= old(self).state_table@.len(),
            r is Ok && s < old(self).state_table@.len() ==> added_from(
                old(self).state_table@.len() as int,
                final(self).state_table@,
                expansion::<W, FI>(old(self).fst, old(self).opts, old(self).state_table@[s as int]),
            ),
            final(self).state_table@.subrange(0, old(self).state_table@.len() as int) == old(self).state_table@,
            forall|i: int| 0 <= i < old(self).cache@.len() && i != s ==> #[trigger] final(self).cache@[i] == old(self).cache@[i],
            forall|i: int| old(self).cache@.len() <= i < final(self).cache@.len() ==> !(#[trigger] final(self).cache@[i]).expanded_spec()
                && !final(self).cache@[i].has_final_spec(),
            s < old(self).cache@.len() ==> final(self).cache@[s as int].has_final_spec() == old(self).cache@[s as int].has_final_spec()
                && final(self).cache@[s as int].final_spec() == old(self).cache@[s as int].final_spec(),
            r is Ok ==> s < final(self).state_table@.len() && r->Ok_0@ == final(self).cache@[s as int].arcs_spec()
                && final(self).cache@[s as int].expanded_spec(),
            r is Err ==> r == Err::<Vec<Arc<W>>, FstError>(FstError::InvalidState) || r == Err::<Vec<Arc<W>>, FstError>(FstError::Internal),
            s < old(self).state_table@.len() && !old(self).cache@[s as int].expanded_spec() && r is Ok ==> realizes(
                final(self).state_table@,
                r->Ok_0@,
                expansion::<W, FI>(old(self).fst, old(self).opts, old(self).state_table@[s as int]),
            ),
            s < old(self).state_table@.len() && !old(self).cache@[s as int].expanded_spec() && expansion_fits::<W, FI>(
                old(self).fst,
                old(self).opts,
                old(self).state_table@[s as int],
                old(self).state_table@.len(),
            ) ==> r is Ok,
            s < old(self).state_table@.len() && old(self).cache@[s as int].expanded_spec() ==> r is Ok && r->Ok_0@ == old(
                self,
            ).cache@[s as int].arcs_spec(),
    {
        if s >= self.state_table.len() {
            return Err(FstError::InvalidState);
        }
        if !self.cache[s].expanded() {
            match self.expand(s) {
                Ok(()) => {},
                Err(e) => return Err(e),
            }
        } else {
            proof {
                let ex = expansion::<W, FI>(self.fst, self.opts, self.state_table@[s as int]);
                assert forall|x: int| #![trigger self.state_table@[x]] self.state_table@.len() <= x < self.state_table@.len() implies listed(
                    ex,
                    self.state_table@[x],
                ) by {
                }
            }
        }
        let out = copy_arcs(self.cache[s].arcs());
        Ok(out)
    }

    pub fn num_known_states(&self) -> (r: usize)
        ensures
            r == self.state_table@.len(),
    {
        self.state_table.len()
    }

    /// Computes the arcs of state `s`, once: each operand arc, its weight
    /// multiplied by the residual, becomes one arc per factor (or one arc
    /// with residual `one`); a final element's weight becomes one arc per
    /// factor into a final element.
    pub fn expand(&mut self, s: StateId) -> (r: Result<(), FstError>)
        requires
            old(self).wf(),
        ensures
            final(self).wf(),
            final(self).fst == old(self).fst,
            final(self).opts == old(self).opts,
            final(self).state_table@.len() >= old(self).state_table@.len(),
            final(self).state_table@.subrange(0, old(self).state_table@.len() as int) == old(self).state_table@,
            s >= old(self).state_table@.len() ==> r == Err::<(), FstError>(FstError::InvalidState),
            s < old(self).state_table@.len() && old(self).cache@[s as int].expanded_spec() ==> r == Err::<(), FstError>(FstError::Internal)
                && final(self).cache == old(self).cache && final(self).state_table == old(self).state_table,
            r is Err ==> r == Err::<(), FstError>(FstError::InvalidState) || r == Err::<(), FstError>(FstError::Internal),
            r is Err ==> !final(self).cache@[s as int].expanded_spec() || old(self).cache@[s as int].expanded_spec(),
            forall|i: int| 0 <= i < old(self).cache@.len() && i != s ==> #[trigger] final(self).cache@[i] == old(self).cache@[i],
            forall|i: int| old(self).cache@.len() <= i < final(self).cache@.len() ==> !(#[trigger] final(self).cache@[i]).expanded_spec()
                && !final(self).cache@[i].has_final_spec(),
            s < old(self).cache@.len() ==> final(self).cache@[s as int].has_final_spec() == old(self).cache@[s as int].has_final_spec()
                && final(self).cache@[s as int].final_spec() == old(self).cache@[s as int].final_spec(),
            s < old(self).state_table@.len() && !old(self).cache@[s as int].expanded_spec() && expansion_fits::<W, FI>(
                old(self).fst,
                old(self).opts,
                old(self).state_table@[s as int],
                old(self).state_table@.len(),
            ) ==> r is Ok,
            r is Ok ==> s < final(self).state_table@.len() && final(self).cache@[s as int].expanded_spec() && !old(self).cache@[s as int].expanded_spec()
                && realizes(
                final(self).state_table@,
                final(self).cache@[s as int].arcs_spec(),
                expansion::<W, FI>(old(self).fst, old(self).opts, old(self).state_table@[s as int]),
            ),
            r is Ok ==> added_from(
                old(self).state_table@.len() as int,
                final(self).state_table@,
                expansion::<W, FI>(old(self).fst, old(self).opts, old(self).state_table@[s as int]),
            ),
    {
        if s >= self.state_table.len() {
            return Err(FstError::InvalidState);
        }
        if self.cache[s].expanded() {
            return Err(FstError::Internal);
        }
        let elt_state = self.state_table[s].0;
        let elt_weight = self.state_table[s].1.duplicate();
        let ghost elt = self.state_table@[s as int];
        let ghost t0 = self.state_table@;
        let factor_arcs = self.opts.mode.factor_arc_weights();
        let factor_finals = self.opts.mode.factor_final_weights();
        let mut out: Vec<Arc<W>> = Vec::new();
        let ghost mut list: Seq<(Label, Label, W, Element<W>)> = seq![];
        let ghost ex = expansion::<W, FI>(old(self).fst, old(self).opts, elt);
        let ghost fits = expansion_fits::<W, FI>(old(self).fst, old(self).opts, elt, t0.len());
        match elt_state {
            Some(o) => {
                let n_arcs = self.fst.states[o].arcs.len();
                let mut m: usize = 0;
                while m < n_arcs
                    invariant
                        self.wf(),
                        self.fst == old(self).fst,
                        self.opts == old(self).opts,
                        s < t0.len(),
                        t0 == old(self).state_table@,
                        elt == t0[s as int],
                        elt.0 == Some(o),
                        elt_weight == elt.1,
                        o < self.fst.states@.len(),
                        n_arcs == self.fst.states@[o as int].arcs@.len(),
                        factor_arcs == (self.opts.mode.bits & FACTOR_ARC_WEIGHTS != 0),
                        0 <= m <= n_arcs,
                        self.state_table@.len() >= t0.len(),
                        self.state_table@.subrange(0, t0.len() as int) == t0,
                        !self.cache@[s as int].expanded_spec(),
                        s < old(self).cache@.len() && !old(self).cache@[s as int].expanded_spec(),
                        ex == expansion::<W, FI>(old(self).fst, old(self).opts, elt),
                        fits == expansion_fits::<W, FI>(old(self).fst, old(self).opts, elt, t0.len()),
                        self.state_table@.len() <= t0.len() + list.len(),
                    cache_kept(old(self).cache@, self.cache@, t0.len() as int),
                    added_from(t0.len() as int, self.state_table@, list),
                        list == arcs_factors::<W, FI>(factor_arcs, self.opts.delta, elt.1, self.fst.states@[o as int].arcs@.subrange(0, m as int)),
                        realizes(self.state_table@, out@, list),
                    decreases n_arcs - m,
                {
                    let ghost arcs_o = self.fst.states@[o as int].arcs@;
                    let a = &self.fst.states[o].arcs[m];
                    let il = a.ilabel;
                    let ol = a.olabel;
                    let next = a.nextstate;
                    let w = elt_weight.times(&a.weight);
                    let fs = FI::factors(&w);
                    proof {
                        assert(arcs_o.subrange(0, m + 1).drop_last() =~= arcs_o.subrange(0, m as int));
                        assert(arcs_o.subrange(0, m + 1).last() == arcs_o[m as int]);
                        assert(next < self.fst.states@.len());
                    }
                    let ghost piece = arc_factors::<W, FI>(factor_arcs, self.opts.delta, elt.1, arcs_o[m as int]);
                    let ghost base = list;
                    if !factor_arcs || fs.len() == 0 {
                        let ghost tb = self.state_table@;
                        proof {
                            lemma_arcs_factors_prefix::<W, FI>(factor_arcs, self.opts.delta, elt.1, arcs_o, m + 1);
                            assert(base + piece == arcs_factors::<W, FI>(factor_arcs, self.opts.delta, elt.1, arcs_o.subrange(0, m + 1)));
                            assert(piece.len() == 1);
                            assert(ex.len() >= arcs_factors::<W, FI>(factor_arcs, self.opts.delta, elt.1, arcs_o).len());
                            assert(fits ==> self.state_table@.len() < usize::MAX);
                        }
                        let dest = match self.find_state((Some(next), W::one())) {
                            Ok(d) => d,
                            Err(e) => return Err(e),
                        };
                        proof {
                            lemma_extends_trans(t0, tb, self.state_table@);
                            lemma_realizes_extend(tb, self.state_table@, out@, list);
                        }
                        let ghost before = out@;
                        out.push(Arc { ilabel: il, olabel: ol, weight: w, nextstate: dest });
                        proof {
                            lemma_realizes_push(self.state_table@, before, list, out@.last(), piece[0]);
                            assert(before.push(out@.last()) =~= out@);
                            lemma_added_from_push(t0.len() as int, tb, self.state_table@, list, piece[0]);
                            list = list.push(piece[0]);
                            assert(piece =~= seq![piece[0]]);
                            assert(list =~= base + piece);
                        }
                    } else {
                        let mut q: usize = 0;
                        while q < fs.len()
                            invariant
                                self.wf(),
                                self.fst == old(self).fst,
                                self.opts == old(self).opts,
                                s < t0.len(),
                                t0 == old(self).state_table@,
                                next < self.fst.states@.len(),
                                0 <= q <= fs@.len(),
                                factor_arcs,
                                factor_arcs == (self.opts.mode.bits & FACTOR_ARC_WEIGHTS != 0),
                                elt == t0[s as int],
                                fs@.len() > 0,
                                piece == fs@.map_values(|p: (W, W)| (il, ol, p.0, (Some(next), p.1.quantize_spec(self.opts.delta)))),
                                self.state_table@.len() >= t0.len(),
                                self.state_table@.subrange(0, t0.len() as int) == t0,
                                !self.cache@[s as int].expanded_spec(),
                                s < old(self).cache@.len() && !old(self).cache@[s as int].expanded_spec(),
                                ex == expansion::<W, FI>(old(self).fst, old(self).opts, elt),
                                fits == expansion_fits::<W, FI>(old(self).fst, old(self).opts, elt, t0.len()),
                                self.state_table@.len() <= t0.len() + list.len(),
                    cache_kept(old(self).cache@, self.cache@, t0.len() as int),
                    added_from(t0.len() as int, self.state_table@, list),
                                base + piece == arcs_factors::<W, FI>(factor_arcs, self.opts.delta, elt.1, self.fst.states@[o as int].arcs@.subrange(0, m + 1)),
                                elt.0 == Some(o),
                                o < self.fst.states@.len(),
                                m < self.fst.states@[o as int].arcs@.len(),
                                list == base + piece.subrange(0, q as int),
                                realizes(self.state_table@, out@, list),
                            decreases fs@.len() - q,
                        {
                            let ghost tb = self.state_table@;
                            proof {
                                lemma_arcs_factors_prefix::<W, FI>(factor_arcs, self.opts.delta, elt.1, self.fst.states@[o as int].arcs@, m + 1);
                                assert(ex.len() >= arcs_factors::<W, FI>(factor_arcs, self.opts.delta, elt.1, self.fst.states@[o as int].arcs@).len());
                                assert(list.len() < (base + piece).len());
                                assert(fits ==> self.state_table@.len() < usize::MAX);
                            }
                            let dest = match self.find_state((Some(next), fs[q].1.quantize(self.opts.delta))) {
                                Ok(d) => d,
                                Err(e) => return Err(e),
                            };
                            proof {
                                lemma_extends_trans(t0, tb, self.state_table@);
                                lemma_realizes_extend(tb, self.state_table@, out@, list);
                            }
                            let ghost before = out@;
                            out.push(Arc { ilabel: il, olabel: ol, weight: fs[q].0.duplicate(), nextstate: dest });
                            proof {
                                lemma_realizes_push(self.state_table@, before, list, out@.last(), piece[q as int]);
                                assert(before.push(out@.last()) =~= out@);
                                lemma_added_from_push(t0.len() as int, tb, self.state_table@, list, piece[q as int]);
                                lemma_added_from_push(t0.len() as int, tb, self.state_table@, list, piece[q as int]);
                    list = list.push(piece[q as int]);
                                assert(piece.subrange(0, q + 1) =~= piece.subrange(0, q as int).push(piece[q as int]));
                                assert(list =~= base + piece.subrange(0, q + 1));
                            }
                            q = q + 1;
                        }
                        proof {
                            assert(piece.subrange(0, fs@.len() as int) =~= piece);
                        }
                    }
                    m = m + 1;
                }
                proof {
                    assert(self.fst.states@[o as int].arcs@.subrange(0, n_arcs as int) =~= self.fst.states@[o as int].arcs@);
                }
            },
            None => {},
        }
        let ghost arc_list = list;
        let is_final = match elt_state {
            None => true,
            Some(o) => self.fst.states[o].final_weight.is_some(),
        };
        if factor_finals && is_final {
            let fw = match elt_state {
                None => elt_weight.duplicate(),
                Some(o) => match &self.fst.states[o].final_weight {
                    Some(f) => elt_weight.times(f),
                    None => elt_weight.times(&W::one()),
                },
            };
            let fs = FI::factors(&fw);
            let ghost piece = final_factors::<W, FI>(self.opts, fw);
            let final_ilabel = self.opts.final_ilabel;
            let final_olabel = self.opts.final_olabel;
            let inc_i = self.opts.increment_final_ilabel;
            let inc_o = self.opts.increment_final_olabel;
            let mut q: usize = 0;
            while q < fs.len()
                invariant
                    self.wf(),
                    self.fst == old(self).fst,
                    self.opts == old(self).opts,
                    s < t0.len(),
                    t0 == old(self).state_table@,
                    0 <= q <= fs@.len(),
                    fs@ == FI::factors_spec(fw),
                    piece == final_factors::<W, FI>(self.opts, fw),
                    final_ilabel == self.opts.final_ilabel,
                    final_olabel == self.opts.final_olabel,
                    inc_i == self.opts.increment_final_ilabel,
                    inc_o == self.opts.increment_final_olabel,
                    self.state_table@.len() >= t0.len(),
                    self.state_table@.subrange(0, t0.len() as int) == t0,
                    !self.cache@[s as int].expanded_spec(),
                    s < old(self).cache@.len() && !old(self).cache@[s as int].expanded_spec(),
                    ex == expansion::<W, FI>(old(self).fst, old(self).opts, elt),
                    fits == expansion_fits::<W, FI>(old(self).fst, old(self).opts, elt, t0.len()),
                    self.state_table@.len() <= t0.len() + list.len(),
                    cache_kept(old(self).cache@, self.cache@, t0.len() as int),
                    added_from(t0.len() as int, self.state_table@, list),
                    ex == arc_list + piece,
                    elt == t0[s as int],
                    list == arc_list + piece.subrange(0, q as int),
                    realizes(self.state_table@, out@, list),
                decreases fs@.len() - q,
            {
                proof {
                    assert(list.len() < ex.len());
                    assert(fits ==> self.state_table@.len() < usize::MAX);
                    assert(fits ==> !((inc_i && q > usize::MAX - final_ilabel) || (inc_o && q > usize::MAX - final_olabel)));
                }
                if (inc_i && q > usize::MAX - final_ilabel) || (inc_o && q > usize::MAX - final_olabel) {
                    return Err(FstError::Internal);
                }
                let il = if inc_i {
                    final_ilabel + q
                } else {
                    final_ilabel
                };
                let ol = if inc_o {
                    final_olabel + q
                } else {
                    final_olabel
                };
                let ghost tb = self.state_table@;
                let dest = match self.find_state((None, fs[q].1.quantize(self.opts.delta))) {
                    Ok(d) => d,
                    Err(e) => return Err(e),
                };
                proof {
                    lemma_extends_trans(t0, tb, self.state_table@);
                    lemma_realizes_extend(tb, self.state_table@, out@, list);
                }
                let ghost before = out@;
                out.push(Arc { ilabel: il, olabel: ol, weight: fs[q].0.duplicate(), nextstate: dest });
                proof {
                    lemma_realizes_push(self.state_table@, before, list, out@.last(), piece[q as int]);
                    assert(before.push(out@.last()) =~= out@);
                    lemma_added_from_push(t0.len() as int, tb, self.state_table@, list, piece[q as int]);
                    list = list.push(piece[q as int]);
                    assert(piece.subrange(0, q + 1) =~= piece.subrange(0, q as int).push(piece[q as int]));
                    assert(list =~= arc_list + piece.subrange(0, q + 1));
                }
                q = q + 1;
            }
            proof {
                assert(piece.subrange(0, fs@.len() as int) =~= piece);
                assert(fw == element_final(self.fst, elt, W::one_spec()));
            }
        } else {
            proof {
                assert(list =~= list + seq![]);
            }
        }
        proof {
            assert(list == expansion::<W, FI>(old(self).fst, old(self).opts, elt));
        }
        self.cache[s].set_arcs(out);
        self.cache[s].mark_expanded();
        proof {
            assert forall|i: int| 0 <= i < self.cache@.len() && !(#[trigger] self.cache@[i]).expanded_spec() implies self.cache@[i].arcs_spec().len() == 0 by {
            }
        }
        Ok(())
    }
}

} // verus!

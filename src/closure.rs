use vstd::prelude::*;
use crate::arc::{Arc, EPS_LABEL};
use crate::fst::{
    accepted_weight, accepting, lemma_path_concat, lemma_path_transfer, path_end, path_input, path_output, path_valid,
    path_weight, VectorFst,
};
use crate::semiring::Semiring;

verus! {

/// Kleene star (zero or more repetitions) or plus (one or more).
#[derive(Clone, Copy, Debug, PartialEq, Eq, Structural)]
pub enum ClosureType {
    ClosureStar,
    ClosurePlus,
}

/// The arcs of state `s` after the loop-back pass: an epsilon arc carrying
/// the final weight back to the start is appended to each final state.
pub open spec fn looped_arcs<W>(f: VectorFst<W>, s: int) -> Seq<Arc<W>> {
    match (f.start, f.states@[s].final_weight) {
        (Some(st), Some(fw)) => f.states@[s].arcs@.push(Arc { ilabel: EPS_LABEL, olabel: EPS_LABEL, weight: fw, nextstate: st }),
        _ => f.states@[s].arcs@,
    }
}

/// Closes `fst` in place: every final state gets an epsilon arc back to the
/// start, weighted by its final weight; for the star closure, a new start
/// state, final with weight `one`, gets an epsilon arc to the old start.
pub fn closure<W: Semiring>(fst: &mut VectorFst<W>, closure_type: ClosureType)
    requires
        old(fst).wf(),
        old(fst).states@.len() < usize::MAX,
    ensures
        final(fst).wf(),
        forall|s: int| 0 <= s < old(fst).states@.len() ==> (#[trigger] final(fst).states@[s]).arcs@ == looped_arcs(*old(fst), s)
            && final(fst).states@[s].final_weight == old(fst).states@[s].final_weight,
        closure_type == ClosureType::ClosurePlus ==> final(fst).states@.len() == old(fst).states@.len()
            && final(fst).start == old(fst).start,
        closure_type == ClosureType::ClosureStar ==> {
            let n = old(fst).states@.len();
            &&& final(fst).states@.len() == n + 1
            &&& final(fst).start == Some(n as usize)
            &&& final(fst).states@[n as int].final_weight == Some(W::one_spec())
            &&& final(fst).states@[n as int].arcs@ == match old(fst).start {
                Some(st) => seq![Arc { ilabel: EPS_LABEL, olabel: EPS_LABEL, weight: W::one_spec(), nextstate: st }],
                None => Seq::<Arc<W>>::empty(),
            }
        },
{
    let ghost orig = *fst;
    let n = fst.states.len();
    if let Some(start_state) = fst.start {
        let mut s: usize = 0;
        while s < n
            invariant
                fst.wf(),
                0 <= s <= n,
                n == fst.states@.len(),
                n == orig.states@.len(),
                fst.start == orig.start,
                orig.start == Some(start_state),
                forall|t: int| 0 <= t < n ==> (#[trigger] fst.states@[t]).final_weight == orig.states@[t].final_weight,
                forall|t: int| 0 <= t < s ==> (#[trigger] fst.states@[t]).arcs@ == looped_arcs(orig, t),
                forall|t: int| s <= t < n ==> (#[trigger] fst.states@[t]).arcs@ == orig.states@[t].arcs@,
            decreases n - s,
        {
            let fw = match &fst.states[s].final_weight {
                Some(w) => Some(w.duplicate()),
                None => None,
            };
            if let Some(w) = fw {
                let _ = fst.add_arc(s, Arc { ilabel: EPS_LABEL, olabel: EPS_LABEL, weight: w, nextstate: start_state });
            }
            s = s + 1;
        }
    }
    if closure_type == ClosureType::ClosureStar {
        let nstart = fst.add_state();
        if let Some(start_state) = fst.start {
            let _ = fst.add_arc(nstart, Arc { ilabel: EPS_LABEL, olabel: EPS_LABEL, weight: W::one(), nextstate: start_state });
        }
        let _ = fst.set_start(nstart);
        let _ = fst.set_final(nstart, W::one());
        proof {
            assert forall|s: int| 0 <= s < n implies (#[trigger] fst.states@[s]).arcs@ == looped_arcs(orig, s)
                && fst.states@[s].final_weight == orig.states@[s].final_weight by {
            }
        }
    }
}

/// The plus closure concatenates: if it accepts `x` along `ks1` with weight
/// `a`, and `f` accepts `y` along `ks2` with weight `b`, then it accepts
/// `x y` with weight `a ⊗ b`, along `ks1`, the epsilon arc from the end of
/// `ks1` back to the start, then `ks2`. By induction, it accepts
/// `w₁ … wₙ` with weight `F(w₁) ⊗ … ⊗ F(wₙ)` along such paths.
pub proof fn lemma_plus_closure_concatenates<W: Semiring>(f: VectorFst<W>, c: VectorFst<W>, ks1: Seq<int>, ks2: Seq<int>)
    requires
        f.wf(),
        c.states@.len() == f.states@.len(),
        c.start == f.start,
        forall|s: int| 0 <= s < f.states@.len() ==> (#[trigger] c.states@[s]).arcs@ == looped_arcs(f, s)
            && c.states@[s].final_weight == f.states@[s].final_weight,
        accepting(c, ks1),
        accepting(f, ks2),
    ensures
        ({
            let st = f.start->Some_0 as int;
            let e1 = path_end(c, st, ks1);
            let ks = ks1 + (seq![f.states@[e1].arcs@.len() as int] + ks2);
            &&& accepting(c, ks)
            &&& path_input(c, st, ks) == path_input(c, st, ks1) + path_input(f, st, ks2)
            &&& path_output(c, st, ks) == path_output(c, st, ks1) + path_output(f, st, ks2)
            &&& accepted_weight(c, ks) == accepted_weight(c, ks1).times_spec(accepted_weight(f, ks2))
        }),
{
    let st = f.start->Some_0 as int;
    let e1 = path_end(c, st, ks1);
    let fw1 = f.states@[e1].final_weight->Some_0;
    let l = f.states@[e1].arcs@.len() as int;
    let tail = seq![l] + ks2;
    assert forall|t: int| 0 <= t < f.states@.len() implies (#[trigger] c.states@[t]).arcs@.len() >= f.states@[t].arcs@.len()
        && c.states@[t].arcs@.subrange(0, f.states@[t].arcs@.len() as int) == f.states@[t].arcs@ by {
        assert(c.states@[t].arcs@.subrange(0, f.states@[t].arcs@.len() as int) =~= f.states@[t].arcs@);
    }
    lemma_path_transfer(f, c, st, ks2);
    let back = c.states@[e1].arcs@[l];
    assert(back == Arc { ilabel: EPS_LABEL, olabel: EPS_LABEL, weight: fw1, nextstate: st as usize });
    assert(tail[0] == l);
    assert(tail.drop_first() =~= ks2);
    assert(path_valid(c, e1, tail));
    assert(path_end(c, e1, tail) == path_end(c, st, ks2));
    assert(path_weight(c, e1, tail) == fw1.times_spec(path_weight(c, st, ks2)));
    assert(path_input(c, e1, tail) =~= path_input(c, st, ks2));
    assert(path_output(c, e1, tail) =~= path_output(c, st, ks2));
    lemma_path_concat(c, st, ks1, tail);
    let w1 = path_weight(c, st, ks1);
    let w2 = path_weight(c, st, ks2);
    let fw2 = f.states@[path_end(f, st, ks2)].final_weight->Some_0;
    W::lemma_times_assoc(w1, fw1, w2);
    W::lemma_times_assoc(w1.times_spec(fw1), w2, fw2);
}

/// Every accepting path of `f` is one of its plus closure, with the same
/// labels and weight.
pub proof fn lemma_plus_closure_keeps_paths<W: Semiring>(f: VectorFst<W>, c: VectorFst<W>, ks: Seq<int>)
    requires
        f.wf(),
        c.states@.len() == f.states@.len(),
        c.start == f.start,
        forall|s: int| 0 <= s < f.states@.len() ==> (#[trigger] c.states@[s]).arcs@ == looped_arcs(f, s)
            && c.states@[s].final_weight == f.states@[s].final_weight,
        accepting(f, ks),
    ensures
        accepting(c, ks),
        path_input(c, f.start->Some_0 as int, ks) == path_input(f, f.start->Some_0 as int, ks),
        path_output(c, f.start->Some_0 as int, ks) == path_output(f, f.start->Some_0 as int, ks),
        accepted_weight(c, ks) == accepted_weight(f, ks),
{
    assert forall|t: int| 0 <= t < f.states@.len() implies (#[trigger] c.states@[t]).arcs@.len() >= f.states@[t].arcs@.len()
        && c.states@[t].arcs@.subrange(0, f.states@[t].arcs@.len() as int) == f.states@[t].arcs@ by {
        assert(c.states@[t].arcs@.subrange(0, f.states@[t].arcs@.len() as int) =~= f.states@[t].arcs@);
    }
    lemma_path_transfer(f, c, f.start->Some_0 as int, ks);
}

/// The star closure accepts the empty string with weight `one`.
pub proof fn lemma_star_closure_accepts_empty<W: Semiring>(f: VectorFst<W>, c: VectorFst<W>)
    requires
        f.states@.len() < usize::MAX,
        c.states@.len() == f.states@.len() + 1,
        c.start == Some(f.states@.len() as usize),
        c.states@[f.states@.len() as int].final_weight == Some(W::one_spec()),
    ensures
        accepting(c, Seq::<int>::empty()),
        path_input(c, f.states@.len() as int, Seq::<int>::empty()) == Seq::<crate::arc::Label>::empty(),
        accepted_weight(c, Seq::<int>::empty()) == W::one_spec(),
{
    let e = Seq::<int>::empty();
    let n = f.states@.len() as int;
    assert(path_valid(c, n, e));
    assert(path_end(c, n, e) == n);
    assert(path_weight(c, n, e) == W::one_spec());
    W::lemma_times_one(W::one_spec());
}

/// The closure of a transducer, built once from it (see `closure`).
#[derive(Clone, Debug, PartialEq, Eq)]
pub struct ClosureFst<W> {
    pub fst: VectorFst<W>,
}

impl<W: Semiring> ClosureFst<W> {
    /// The star or plus closure of `fst`.
    pub fn new(fst: VectorFst<W>, closure_type: ClosureType) -> (r: Self)
        requires
            fst.wf(),
            fst.states@.len() < usize::MAX,
        ensures
            r.fst.wf(),
            forall|s: int| 0 <= s < fst.states@.len() ==> (#[trigger] r.fst.states@[s]).arcs@ == looped_arcs(fst, s)
                && r.fst.states@[s].final_weight == fst.states@[s].final_weight,
            closure_type == ClosureType::ClosurePlus ==> r.fst.states@.len() == fst.states@.len() && r.fst.start == fst.start,
            closure_type == ClosureType::ClosureStar ==> {
                let n = fst.states@.len();
                &&& r.fst.states@.len() == n + 1
                &&& r.fst.start == Some(n as usize)
                &&& r.fst.states@[n as int].final_weight == Some(W::one_spec())
                &&& r.fst.states@[n as int].arcs@ == match fst.start {
                    Some(st) => seq![Arc { ilabel: EPS_LABEL, olabel: EPS_LABEL, weight: W::one_spec(), nextstate: st }],
                    None => Seq::<Arc<W>>::empty(),
                }
            },
    {
        let mut fst = fst;
        closure(&mut fst, closure_type);
        ClosureFst { fst }
    }

    pub fn fst(&self) -> (r: &VectorFst<W>)
        ensures
            *r == self.fst,
    {
        &self.fst
    }
}

} // verus!

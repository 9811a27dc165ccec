//! The counterexample trace of an unsafe model, read off the chain of proof
//! obligations that reaches the bad states, with every variable taken back
//! to its number in the original model.
use vstd::prelude::*;
use std::collections::BTreeMap;
use crate::lit::{Lit, Var};
use crate::litvec::LitVec;
use crate::frame::litvec_views;

verus! {

/// The literal of the variable that `rst` takes `l`'s variable to, with
/// `l`'s polarity; `None` where `rst` has no entry for it.
pub open spec fn lit_map(rst: Map<u32, u32>, l: Lit) -> Option<Lit> {
    if rst.contains_key(l.spec_var().0) {
        Some(Lit::spec_new(Var(rst[l.spec_var().0]), l.spec_polarity()))
    } else {
        None
    }
}

/// The literals of `s` that `rst` takes back, taken back, in order.
pub open spec fn map_lits(rst: Map<u32, u32>, s: Seq<Lit>) -> Seq<Lit>
    decreases s.len(),
{
    if s.len() == 0 {
        Seq::empty()
    } else {
        let p = map_lits(rst, s.drop_last());
        match lit_map(rst, s.last()) {
            Some(m) => p.push(m),
            None => p,
        }
    }
}

/// The variable `v` is a latch of the system the chain was found in.
pub open spec fn is_latch_var(is_latch: Seq<bool>, v: u32) -> bool {
    v < is_latch.len() && is_latch[v as int]
}

/// The literals of `s` that `rst` takes back, taken back and split in
/// order into those of inputs and those of latches.
pub open spec fn split_lits(rst: Map<u32, u32>, is_latch: Seq<bool>, s: Seq<Lit>) -> (Seq<Lit>, Seq<Lit>)
    decreases s.len(),
{
    if s.len() == 0 {
        (Seq::empty(), Seq::empty())
    } else {
        let (pi, ps) = split_lits(rst, is_latch, s.drop_last());
        match lit_map(rst, s.last()) {
            Some(m) => if is_latch_var(is_latch, s.last().spec_var().0) {
                (pi, ps.push(m))
            } else {
                (pi.push(m), ps)
            },
            None => (pi, ps),
        }
    }
}

/// A proof obligation of the chain, as the trace reads it: its frame, its
/// cube, and its input cubes, one for each step it spans.
pub struct ChainStep {
    pub frame: usize,
    pub lemma: LitVec,
    pub input: Vec<LitVec>,
}

pub open spec fn step_view(s: ChainStep) -> (usize, Seq<Lit>, Seq<Seq<Lit>>) {
    (s.frame, s.lemma@, litvec_views(s.input@))
}

pub open spec fn init_views(v: Seq<(LitVec, LitVec)>) -> Seq<(Seq<Lit>, Seq<Lit>)> {
    v.map_values(|p: (LitVec, LitVec)| (p.0@, p.1@))
}

/// A counterexample: for each step, its input literals and its state
/// literals.
pub struct Witness {
    pub input: Vec<LitVec>,
    pub state: Vec<LitVec>,
}

/// The steps that one obligation adds to the trace, as (inputs, states):
/// first its own (at frame 0 the initial input and state found for it, else
/// its first input cube and its cube, taken back), then one for each later
/// input cube, split into inputs and latches.
pub open spec fn step_trace(
    step: (usize, Seq<Lit>, Seq<Seq<Lit>>),
    init: (Seq<Lit>, Seq<Lit>),
    rst: Map<u32, u32>,
    is_latch: Seq<bool>,
) -> (Seq<Seq<Lit>>, Seq<Seq<Lit>>) {
    let (frame, lemma, input) = step;
    let first_in = if frame == 0 { init.0 } else { map_lits(rst, input[0]) };
    let first_st = if frame == 0 { init.1 } else { map_lits(rst, lemma) };
    let rest = input.drop_first();
    (
        seq![first_in] + rest.map_values(|c: Seq<Lit>| split_lits(rst, is_latch, c).0),
        seq![first_st] + rest.map_values(|c: Seq<Lit>| split_lits(rst, is_latch, c).1),
    )
}

/// The trace of a chain of obligations: their steps, in order; `inits`
/// holds, for each obligation at frame 0, the initial input and state found
/// for it.
pub open spec fn chain_trace(
    chain: Seq<(usize, Seq<Lit>, Seq<Seq<Lit>>)>,
    inits: Seq<(Seq<Lit>, Seq<Lit>)>,
    rst: Map<u32, u32>,
    is_latch: Seq<bool>,
) -> (Seq<Seq<Lit>>, Seq<Seq<Lit>>)
    decreases chain.len(),
{
    if chain.len() == 0 || inits.len() < chain.len() {
        (Seq::empty(), Seq::empty())
    } else {
        let n = chain.len() - 1;
        let (pi, ps) = chain_trace(chain.drop_last(), inits.take(n), rst, is_latch);
        let (si, ss) = step_trace(chain[n], inits[n], rst, is_latch);
        (pi + si, ps + ss)
    }
}

/// A trace has as many input steps as state steps.
pub proof fn lemma_chain_trace_lengths(
    chain: Seq<(usize, Seq<Lit>, Seq<Seq<Lit>>)>,
    inits: Seq<(Seq<Lit>, Seq<Lit>)>,
    rst: Map<u32, u32>,
    is_latch: Seq<bool>,
)
    ensures
        chain_trace(chain, inits, rst, is_latch).0.len() == chain_trace(chain, inits, rst, is_latch).1.len(),
    decreases chain.len(),
{
    if chain.len() > 0 && inits.len() >= chain.len() {
        let n = chain.len() - 1;
        lemma_chain_trace_lengths(chain.drop_last(), inits.take(n), rst, is_latch);
    }
}

/// `rst` takes every variable to one below `0x8000_0000`.
pub open spec fn maps_small(rst: Map<u32, u32>) -> bool {
    forall|v: u32| #[trigger] rst.contains_key(v) ==> rst[v] < 0x8000_0000
}

fn map_lit(rst: &BTreeMap<u32, u32>, l: Lit) -> (r: Option<Lit>)
    requires
        maps_small(rst@),
    ensures
        r == lit_map(rst@, l),
{
    match rst.get(&l.var().0) {
        Some(v) => Some(Lit::new(Var(*v), l.polarity())),
        None => None,
    }
}

/// The literals of `s` taken back through `rst` (see `map_lits`).
pub fn map_cube(rst: &BTreeMap<u32, u32>, s: &LitVec) -> (r: LitVec)
    requires
        maps_small(rst@),
    ensures
        r@ == map_lits(rst@, s@),
{
    let mut r = LitVec::new();
    let mut k: usize = 0;
    while k < s.len()
        invariant
            k <= s@.len(),
            maps_small(rst@),
            r@ == map_lits(rst@, s@.take(k as int)),
        decreases s@.len() - k,
    {
        let l = s.get(k);
        assert(s@.take(k + 1).drop_last() =~= s@.take(k as int));
        assert(s@.take(k + 1).last() == l);
        if let Some(m) = map_lit(rst, l) {
            r.push(m);
        }
        k = k + 1;
    }
    assert(s@.take(s@.len() as int) =~= s@);
    r
}

/// The literals of `s` taken back through `rst` and split into inputs and
/// latches (see `split_lits`).
pub fn split_cube(rst: &BTreeMap<u32, u32>, is_latch: &Vec<bool>, s: &LitVec) -> (r: (LitVec, LitVec))
    requires
        maps_small(rst@),
        forall|k: int| 0 <= k < s@.len() ==> (#[trigger] s@[k]).spec_var().0 < is_latch@.len(),
    ensures
        (r.0@, r.1@) == split_lits(rst@, is_latch@, s@),
{
    let mut input = LitVec::new();
    let mut state = LitVec::new();
    let mut k: usize = 0;
    while k < s.len()
        invariant
            k <= s@.len(),
            maps_small(rst@),
            forall|j: int| 0 <= j < s@.len() ==> (#[trigger] s@[j]).spec_var().0 < is_latch@.len(),
            (input@, state@) == split_lits(rst@, is_latch@, s@.take(k as int)),
        decreases s@.len() - k,
    {
        let l = s.get(k);
        assert(s@.take(k + 1).drop_last() =~= s@.take(k as int));
        assert(s@.take(k + 1).last() == l);
        assert(l.spec_var().0 < is_latch@.len());
        let latch = is_latch[l.var().0 as usize];
        if let Some(m) = map_lit(rst, l) {
            if latch {
                state.push(m);
            } else {
                input.push(m);
            }
        }
        k = k + 1;
    }
    assert(s@.take(s@.len() as int) =~= s@);
    (input, state)
}

/// What the initial state of an obligation at frame 0 must meet: its cube
/// and its first input cube, taken back through `rst`.
pub fn init_assumption(step: &ChainStep, rst: &BTreeMap<u32, u32>) -> (r: LitVec)
    requires
        step.input@.len() > 0,
        maps_small(rst@),
    ensures
        r@ == map_lits(rst@, step.lemma@ + step.input@[0]@),
{
    let mut both = step.lemma.clone();
    let first = &step.input[0];
    let mut k: usize = 0;
    while k < first.len()
        invariant
            k <= first@.len(),
            both@ == step.lemma@ + first@.take(k as int),
        decreases first@.len() - k,
    {
        both.push(first.get(k));
        assert(first@.take(k + 1) =~= first@.take(k as int).push(first@[k as int]));
        assert(step.lemma@ + first@.take(k + 1) =~= (step.lemma@ + first@.take(k as int)).push(first@[k as int]));
        k = k + 1;
    }
    assert(first@.take(first@.len() as int) =~= first@);
    map_cube(rst, &both)
}

/// The trace of a chain of obligations (see `chain_trace`). `inits` has an
/// entry for each obligation; those at frame 0 give the initial input and
/// state found for them, the others are not read.
pub fn witness_trace(
    chain: &Vec<ChainStep>,
    inits: &Vec<(LitVec, LitVec)>,
    rst: &BTreeMap<u32, u32>,
    is_latch: &Vec<bool>,
) -> (w: Witness)
    requires
        inits@.len() == chain@.len(),
        maps_small(rst@),
        forall|i: int| 0 <= i < chain@.len() ==> (#[trigger] chain@[i]).input@.len() > 0,
        forall|i: int, k: int, j: int|
            0 <= i < chain@.len() && 1 <= k < chain@[i].input@.len() && 0 <= j < chain@[i].input@[k]@.len()
                ==> (#[trigger] chain@[i].input@[k]@[j]).spec_var().0 < is_latch@.len(),
    ensures
        (litvec_views(w.input@), litvec_views(w.state@)) == chain_trace(
            chain@.map_values(|s: ChainStep| step_view(s)),
            init_views(inits@),
            rst@,
            is_latch@,
        ),
        w.input@.len() == w.state@.len(),
{
    let ghost cv = chain@.map_values(|s: ChainStep| step_view(s));
    let ghost iv = init_views(inits@);
    let mut input: Vec<LitVec> = Vec::new();
    let mut state: Vec<LitVec> = Vec::new();
    let mut i: usize = 0;
    assert(cv.take(0) =~= Seq::<(usize, Seq<Lit>, Seq<Seq<Lit>>)>::empty());
    assert(litvec_views(input@) =~= Seq::<Seq<Lit>>::empty());
    assert(litvec_views(state@) =~= Seq::<Seq<Lit>>::empty());
    while i < chain.len()
        invariant
            i <= chain@.len(),
            inits@.len() == chain@.len(),
            cv == chain@.map_values(|s: ChainStep| step_view(s)),
            iv == init_views(inits@),
            maps_small(rst@),
            forall|a: int| 0 <= a < chain@.len() ==> (#[trigger] chain@[a]).input@.len() > 0,
            forall|a: int, k: int, j: int|
                0 <= a < chain@.len() && 1 <= k < chain@[a].input@.len() && 0 <= j < chain@[a].input@[k]@.len()
                    ==> (#[trigger] chain@[a].input@[k]@[j]).spec_var().0 < is_latch@.len(),
            (litvec_views(input@), litvec_views(state@)) == chain_trace(cv.take(i as int), iv.take(i as int), rst@, is_latch@),
        decreases chain@.len() - i,
    {
        let step = &chain[i];
        let ghost in0 = litvec_views(input@);
        let ghost st0 = litvec_views(state@);
        let ghost sv = step_view(*step);
        assert(cv[i as int] == sv);
        if step.frame == 0 {
            let (a, b) = (&inits[i].0, &inits[i].1);
            input.push(a.clone());
            state.push(b.clone());
        } else {
            input.push(map_cube(rst, &step.input[0]));
            state.push(map_cube(rst, &step.lemma));
        }
        assert(litvec_views(input@) == in0.push(step_trace(sv, iv[i as int], rst@, is_latch@).0[0])) by {
            assert(litvec_views(input@) =~= in0.push(input@.last()@));
        }
        assert(litvec_views(state@) == st0.push(step_trace(sv, iv[i as int], rst@, is_latch@).1[0])) by {
            assert(litvec_views(state@) =~= st0.push(state@.last()@));
        }
        let ghost rest = sv.2.drop_first();
        let ghost in1 = litvec_views(input@);
        let ghost st1 = litvec_views(state@);
        let mut k: usize = 1;
        while k < step.input.len()
            invariant
                1 <= k <= step.input@.len(),
                sv == step_view(*step),
                rest == sv.2.drop_first(),
                maps_small(rst@),
                forall|k2: int, j: int|
                    1 <= k2 < step.input@.len() && 0 <= j < step.input@[k2]@.len()
                        ==> (#[trigger] step.input@[k2]@[j]).spec_var().0 < is_latch@.len(),
                litvec_views(input@) == in1 + rest.take(k - 1).map_values(|c: Seq<Lit>| split_lits(rst@, is_latch@, c).0),
                litvec_views(state@) == st1 + rest.take(k - 1).map_values(|c: Seq<Lit>| split_lits(rst@, is_latch@, c).1),
            decreases step.input@.len() - k,
        {
            let ghost c = step.input@[k as int]@;
            assert(rest[k - 1] == c);
            let (a, b) = split_cube(rst, is_latch, &step.input[k]);
            let ghost pi = litvec_views(input@);
            let ghost ps = litvec_views(state@);
            input.push(a);
            state.push(b);
            assert(litvec_views(input@) =~= pi.push(a@));
            assert(litvec_views(state@) =~= ps.push(b@));
            assert(rest.take(k as int).map_values(|c: Seq<Lit>| split_lits(rst@, is_latch@, c).0)
                =~= rest.take(k - 1).map_values(|c: Seq<Lit>| split_lits(rst@, is_latch@, c).0).push(split_lits(rst@, is_latch@, c).0));
            assert(rest.take(k as int).map_values(|c: Seq<Lit>| split_lits(rst@, is_latch@, c).1)
                =~= rest.take(k - 1).map_values(|c: Seq<Lit>| split_lits(rst@, is_latch@, c).1).push(split_lits(rst@, is_latch@, c).1));
            assert(in1 + rest.take(k as int).map_values(|c: Seq<Lit>| split_lits(rst@, is_latch@, c).0)
                =~= (in1 + rest.take(k - 1).map_values(|c: Seq<Lit>| split_lits(rst@, is_latch@, c).0)).push(split_lits(rst@, is_latch@, c).0));
            assert(st1 + rest.take(k as int).map_values(|c: Seq<Lit>| split_lits(rst@, is_latch@, c).1)
                =~= (st1 + rest.take(k - 1).map_values(|c: Seq<Lit>| split_lits(rst@, is_latch@, c).1)).push(split_lits(rst@, is_latch@, c).1));
            k = k + 1;
        }
        proof {
            let t = step_trace(sv, iv[i as int], rst@, is_latch@);
            assert(rest.take(rest.len() as int) =~= rest);
            assert(t.0 =~= seq![t.0[0]] + rest.map_values(|c: Seq<Lit>| split_lits(rst@, is_latch@, c).0));
            assert(litvec_views(input@) =~= in0 + t.0);
            assert(litvec_views(state@) =~= st0 + t.1);
            assert(cv.take(i + 1).drop_last() =~= cv.take(i as int));
            assert(iv.take(i + 1).take(i as int) =~= iv.take(i as int));
            assert(cv.take(i + 1)[i as int] == sv);
            assert(iv.take(i + 1)[i as int] == iv[i as int]);
        }
        i = i + 1;
    }
    assert(cv.take(chain@.len() as int) =~= cv);
    assert(iv.take(chain@.len() as int) =~= iv);
    proof {
        lemma_chain_trace_lengths(cv, iv, rst@, is_latch@);
    }
    Witness { input, state }
}

} // verus!

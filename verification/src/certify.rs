//! The clauses and queries that check an inductive invariant: the initial
//! states must satisfy every lemma's clause; with the transition relation,
//! the predicate semantics and the invariant's clauses (and, with symmetry,
//! those of the symmetric lemmas) loaded, no bad state and no successor
//! of a lemma's cube may be reachable. The solver is the caller's; this
//! module builds what it is given.
use vstd::prelude::*;
use crate::lit::{Lit, Var};
use crate::litvec::{negated, sorted, LitVec};
use crate::relation::{symmetric_cube, RelationData};
use crate::transys::var_has_equiv_row;
use crate::var2name::Var2Name;

verus! {

/// The clause that ties latch `v` to its symmetric variable through its
/// equivalence predicate: the negation of `v & !sym & !pred`. None where `v`
/// has no predicate or no symmetric variable.
pub open spec fn predicate_clause_for(relation: &RelationData, names: &Var2Name, v: Var) -> Option<Seq<Lit>> {
    match RelationData::predicate_new_spec(relation.equiv_map@, names, v.0 as usize) {
        Some(p) => match relation.sym_var_new_spec(names, v.0 as usize) {
            Some(s) => Some(
                negated(
                    seq![
                        Lit::spec_new(v, true),
                        Lit::spec_new(Var(s as u32), true).spec_not(),
                        Lit::spec_new(Var(p as u32), true).spec_not(),
                    ],
                ),
            ),
            None => None,
        },
        None => None,
    }
}

/// The predicate clauses of the latches of `latches`, in order.
pub open spec fn predicate_clauses_spec(relation: &RelationData, names: &Var2Name, latches: Seq<Var>) -> Seq<Seq<Lit>>
    decreases latches.len(),
{
    if latches.len() == 0 {
        Seq::empty()
    } else {
        let prev = predicate_clauses_spec(relation, names, latches.drop_last());
        match predicate_clause_for(relation, names, latches.last()) {
            Some(c) => prev.push(c),
            None => prev,
        }
    }
}

pub open spec fn views(v: Seq<LitVec>) -> Seq<Seq<Lit>> {
    v.map_values(|c: LitVec| c@)
}

/// Each cube of `ls` with `init` in front.
pub open spec fn prefix_each(init: Seq<Lit>, ls: Seq<LitVec>) -> Seq<Seq<Lit>> {
    ls.map_values(|l: LitVec| init + l@)
}

/// The predicate semantics of the latches (see `predicate_clauses_spec`).
/// Every latch must have an original number with a row.
pub fn predicate_clauses(latches: &[Var], relation: &RelationData, names: &Var2Name) -> (r: Vec<LitVec>)
    requires
        forall|i: int| 0 <= i < latches@.len() ==> var_has_equiv_row(relation, names, #[trigger] latches@[i]),
    ensures
        views(r@) == predicate_clauses_spec(relation, names, latches@),
{
    let mut r: Vec<LitVec> = Vec::new();
    let mut k: usize = 0;
    assert(latches@.take(0) =~= Seq::<Var>::empty());
    while k < latches.len()
        invariant
            k <= latches@.len(),
            forall|i: int| 0 <= i < latches@.len() ==> var_has_equiv_row(relation, names, #[trigger] latches@[i]),
            views(r@) == predicate_clauses_spec(relation, names, latches@.take(k as int)),
        decreases latches@.len() - k,
    {
        let var = latches[k];
        let ghost before = views(r@);
        proof {
            assert(latches@.take(k + 1).drop_last() =~= latches@.take(k as int));
            assert(latches@.take(k + 1).last() == var);
            assert(var_has_equiv_row(relation, names, latches@[k as int]));
        }
        if let Some(equiv_pred) = relation.get_equiv_predicate_new(names, var.0 as usize) {
            let predicate_var = Var::new(equiv_pred);
            if let Some(sym) = relation.get_sym_var_new(names, var.0 as usize) {
                let sym_var = Var::new(sym);
                let mut constraint = LitVec::new_with(3);
                constraint.push(var.lit());
                constraint.push(sym_var.lit().not());
                constraint.push(predicate_var.lit().not());
                let c = constraint.not();
                assert(constraint@ =~= seq![
                    Lit::spec_new(var, true),
                    Lit::spec_new(Var(sym as u32), true).spec_not(),
                    Lit::spec_new(Var(equiv_pred as u32), true).spec_not(),
                ]);
                assert(predicate_clause_for(relation, names, var) == Some(c@));
                r.push(c);
                assert(views(r@) =~= before.push(c@));
            }
        }
        k = k + 1;
    }
    assert(latches@.take(latches@.len() as int) =~= latches@);
    r
}

/// The clauses of the invariant: for each lemma in turn, its negation, and
/// with `symmetry` the negation of its symmetric cube, sorted. Every
/// variable of the lemmas must have an original number where `symmetry` is
/// set, and every symmetric variable must fit a literal.
pub fn invariant_clauses(invariants: &Vec<LitVec>, symmetry: bool, relation: &RelationData, names: &Var2Name) -> (r: Vec<LitVec>)
    requires
        symmetry ==> forall|k: int, i: int|
            0 <= k < invariants@.len() && 0 <= i < invariants@[k]@.len() ==> names.origin_map().contains_key(
                #[trigger] invariants@[k]@[i].spec_var().0 as usize,
            ),
        symmetry ==> forall|k: int, i: int|
            0 <= k < invariants@.len() && 0 <= i < invariants@[k]@.len() ==> (
            #[trigger] relation.sym_var_new_spec(names, invariants@[k]@[i].spec_var().0 as usize) matches Some(sv) ==> (sv as u32)
                < 0x8000_0000),
    ensures
        r@.len() == if symmetry { 2 * invariants@.len() } else { invariants@.len() },
        !symmetry ==> forall|k: int| 0 <= k < invariants@.len() ==> (#[trigger] r@[k])@ == negated(invariants@[k]@),
        symmetry ==> forall|k: int| 0 <= k < invariants@.len() ==> (#[trigger] r@[2 * k])@ == negated(invariants@[k]@),
        symmetry ==> forall|k: int|
            0 <= k < invariants@.len() ==> {
                &&& sorted(negated((#[trigger] r@[2 * k + 1])@))
                &&& negated(r@[2 * k + 1]@).to_multiset() == relation.sym_cube_spec(names, invariants@[k]@).to_multiset()
            },
{
    let mut r: Vec<LitVec> = Vec::new();
    let mut k: usize = 0;
    while k < invariants.len()
        invariant
            k <= invariants@.len(),
            symmetry ==> forall|j: int, i: int|
                0 <= j < invariants@.len() && 0 <= i < invariants@[j]@.len() ==> names.origin_map().contains_key(
                    #[trigger] invariants@[j]@[i].spec_var().0 as usize,
                ),
            symmetry ==> forall|j: int, i: int|
                0 <= j < invariants@.len() && 0 <= i < invariants@[j]@.len() ==> (
                #[trigger] relation.sym_var_new_spec(names, invariants@[j]@[i].spec_var().0 as usize) matches Some(sv) ==> (sv
                    as u32) < 0x8000_0000),
            r@.len() == if symmetry { 2 * k } else { k as int },
            !symmetry ==> forall|j: int| 0 <= j < k ==> (#[trigger] r@[j])@ == negated(invariants@[j]@),
            symmetry ==> forall|j: int| 0 <= j < k ==> (#[trigger] r@[2 * j])@ == negated(invariants@[j]@),
            symmetry ==> forall|j: int|
                0 <= j < k ==> {
                    &&& sorted(negated((#[trigger] r@[2 * j + 1])@))
                    &&& negated(r@[2 * j + 1]@).to_multiset() == relation.sym_cube_spec(names, invariants@[j]@).to_multiset()
                },
        decreases invariants@.len() - k,
    {
        let lemma = &invariants[k];
        r.push(lemma.not());
        if symmetry {
            proof {
                assert forall|i: int| 0 <= i < lemma@.len() implies names.origin_map().contains_key(
                    #[trigger] lemma@[i].spec_var().0 as usize,
                ) by {
                    assert(invariants@[k as int]@[i] == lemma@[i]);
                }
                assert forall|i: int| 0 <= i < lemma@.len() implies (#[trigger] relation.sym_var_new_spec(
                    names,
                    lemma@[i].spec_var().0 as usize,
                ) matches Some(sv) ==> (sv as u32) < 0x8000_0000) by {
                    assert(invariants@[k as int]@[i] == lemma@[i]);
                }
            }
            let sym = symmetric_cube(lemma, relation, names);
            let sym_lemma = sym.sorted_copy();
            let c = sym_lemma.not();
            proof {
                crate::litvec::lemma_negated_involution(sym_lemma@);
            }
            r.push(c);
        }
        k = k + 1;
    }
    r
}

/// The assumptions that put a lemma's cube on the initial states, one per
/// lemma: the initial literals followed by the cube.
pub fn initial_queries(init: &LitVec, invariants: &Vec<LitVec>) -> (r: Vec<LitVec>)
    ensures
        views(r@) == prefix_each(init@, invariants@),
{
    let mut r: Vec<LitVec> = Vec::new();
    let mut k: usize = 0;
    while k < invariants.len()
        invariant
            k <= invariants@.len(),
            views(r@) == prefix_each(init@, invariants@.take(k as int)),
        decreases invariants@.len() - k,
    {
        let mut q = LitVec::new_from_slice(init.as_slice());
        let lemma = &invariants[k];
        let mut i: usize = 0;
        while i < lemma.len()
            invariant
                i <= lemma@.len(),
                q@ == init@ + lemma@.take(i as int),
            decreases lemma@.len() - i,
        {
            q.push(lemma.get(i));
            assert(lemma@.take(i + 1) =~= lemma@.take(i as int).push(lemma@[i as int]));
            i = i + 1;
        }
        assert(lemma@.take(lemma@.len() as int) =~= lemma@);
        let ghost before = r@;
        r.push(q);
        assert(r@ == before.push(q));
        assert(views(r@) =~= views(before).push(q@));
        assert(invariants@.take(k + 1) =~= invariants@.take(k as int).push(invariants@[k as int]));
        assert(prefix_each(init@, invariants@.take(k + 1)) =~= prefix_each(init@, invariants@.take(k as int)).push(init@ + lemma@));
        k = k + 1;
    }
    assert(invariants@.take(invariants@.len() as int) =~= invariants@);
    r
}

} // verus!

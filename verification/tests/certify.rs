use ric3::certify::{initial_queries, invariant_clauses, predicate_clauses};
use ric3::lit::{Lit, Var};
use ric3::litvec::LitVec;
use ric3::relation::RelationData;
use ric3::var2name::{init_var2name, init_var2name_refine_inv, Var2Name};
use std::collections::BTreeMap;

fn pos(v: u32) -> Lit {
    Lit::new(Var(v), true)
}

fn neg(v: u32) -> Lit {
    Lit::new(Var(v), false)
}

fn lv(lits: &[Lit]) -> LitVec {
    LitVec::new_from_slice(lits)
}

fn all(v: &[LitVec]) -> Vec<Vec<Lit>> {
    v.iter().map(|c| c.as_slice().to_vec()).collect()
}

/// 1 and 2 are symmetric with predicate 7, 3 and 4 with predicate 8; 5 has
/// no predicate.
fn setup() -> (RelationData, Var2Name) {
    let rows: Vec<String> = ["header", "0 1 6 -1", "1 0 6 -1", "2 3 7 -1", "3 2 7 -1", "4 4 -1 -1"]
        .iter()
        .map(|s| s.to_string())
        .collect();
    let relation = RelationData::from_lines(&rows, 0, 8).unwrap();
    let map: Vec<String> = (0..8).map(|i| format!("latch {} 0 v{}", i, i)).collect();
    let mut names = init_var2name(&map, "aag 8 0 8 0 0").unwrap();
    let refine_inv: BTreeMap<usize, usize> = (1..=8).map(|v| (v, v)).collect();
    init_var2name_refine_inv(&mut names, refine_inv.clone(), refine_inv);
    (relation, names)
}

#[test]
fn predicate_semantics_clauses() {
    let (relation, names) = setup();
    let c = predicate_clauses(&[Var(1), Var(2), Var(5)], &relation, &names);
    assert_eq!(all(&c), vec![vec![neg(1), pos(2), pos(7)], vec![neg(2), pos(1), pos(7)]]);
}

#[test]
fn invariant_clauses_with_and_without_symmetry() {
    let (relation, names) = setup();
    let inv = vec![lv(&[pos(3), pos(1)])];
    assert_eq!(all(&invariant_clauses(&inv, false, &relation, &names)), vec![vec![neg(3), neg(1)]]);
    assert_eq!(
        all(&invariant_clauses(&inv, true, &relation, &names)),
        vec![vec![neg(3), neg(1)], vec![neg(2), neg(4)]]
    );
}

#[test]
fn initial_states_meet_each_lemma() {
    let q = initial_queries(&lv(&[neg(5)]), &vec![lv(&[pos(1)]), lv(&[pos(2), pos(3)])]);
    assert_eq!(all(&q), vec![vec![neg(5), pos(1)], vec![neg(5), pos(2), pos(3)]]);
}

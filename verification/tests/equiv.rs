use ric3::equiv::{group_by_equiv_predicate, EquivExhaustiveSearch, EquivIterSearch};
use ric3::lit::{Lit, Var};
use ric3::litvec::LitVec;
use ric3::relation::RelationData;
use ric3::var2name::{init_var2name, init_var2name_refine_inv, Var2Name};
use std::collections::BTreeMap;

fn pos(v: u32) -> Lit {
    Lit::new(Var(v), true)
}

fn neg(v: u32) -> Lit {
    Lit::new(Var(v), false)
}

fn lv(lits: &[Lit]) -> LitVec {
    LitVec::new_from_slice(lits)
}

fn sorted(v: &LitVec) -> Vec<u32> {
    let mut r: Vec<u32> = v.as_slice().iter().map(|l| l.0).collect();
    r.sort();
    r
}

fn codes(lits: &[Lit]) -> Vec<u32> {
    lits.iter().map(|l| l.0).collect()
}

/// Variables 1..=8 keep their numbers. 1 and 2 are symmetric with
/// predicate 7, 3 and 4 with predicate 8; 5 has no predicate.
fn setup() -> (RelationData, Var2Name) {
    let rows: Vec<String> = ["header", "0 1 6 -1", "1 0 6 -1", "2 3 7 -1", "3 2 7 -1", "4 4 -1 -1"]
        .iter()
        .map(|s| s.to_string())
        .collect();
    let relation = RelationData::from_lines(&rows, 0, 8).unwrap();
    let map: Vec<String> = (0..8).map(|i| format!("latch {} 0 v{}", i, i)).collect();
    let mut names = init_var2name(&map, "aag 8 0 8 0 0").unwrap();
    let refine_inv: BTreeMap<usize, usize> = (1..=8).map(|v| (v, v)).collect();
    init_var2name_refine_inv(&mut names, refine_inv.clone(), refine_inv);
    (relation, names)
}

#[test]
fn literals_are_grouped_by_predicate() {
    let (relation, names) = setup();
    let cube = lv(&[pos(1), neg(2), pos(3), pos(4), pos(5)]);
    let mut all = group_by_equiv_predicate(&cube, &relation, &names, false);
    all.sort_by_key(|g| g.0);
    assert_eq!(all, vec![(7, vec![pos(1), neg(2)]), (8, vec![pos(3), pos(4)])]);
    // 3 and 4 have the same polarity, so neither meets its partner
    let paired = group_by_equiv_predicate(&cube, &relation, &names, true);
    assert_eq!(paired, vec![(7, vec![pos(1), neg(2)])]);
}

#[test]
fn iterative_search_replaces_a_matched_pair() {
    let (relation, names) = setup();
    let cube = lv(&[pos(1), neg(2), pos(3), pos(4), pos(5)]);
    let mut s = EquivIterSearch::new(cube, &relation, &names);
    let c = s.next_candidate(&relation, &names).unwrap();
    assert_eq!(c.as_slice(), &[pos(3), pos(4), pos(5), pos(7)]);
    s.on_result(Some(lv(&[pos(3), pos(7)])));
    assert!(s.next_candidate(&relation, &names).is_none());
    assert_eq!(s.into_cube().as_slice(), &[pos(3), pos(7)]);
}

#[test]
fn iterative_search_keeps_the_cube_when_every_check_fails() {
    let (relation, names) = setup();
    let cube = lv(&[pos(1), neg(2), pos(3), neg(4)]);
    let mut s = EquivIterSearch::new(cube, &relation, &names);
    let mut seen = Vec::new();
    while let Some(c) = s.next_candidate(&relation, &names) {
        seen.push(sorted(&c));
        s.on_result(None);
    }
    seen.sort();
    assert_eq!(seen, vec![codes(&[pos(1), neg(2), pos(8)]), codes(&[pos(3), neg(4), pos(7)])]);
    assert_eq!(s.into_cube().as_slice(), &[pos(1), neg(2), pos(3), neg(4)]);
}

#[test]
fn exhaustive_search_drops_one_replacement_at_a_time() {
    let (relation, names) = setup();
    let cube = lv(&[pos(1), neg(2), pos(3), neg(4)]);
    let mut s = EquivExhaustiveSearch::new(cube, &relation, &names);
    let first = s.next_candidate().unwrap();
    assert_eq!(sorted(&first), codes(&[pos(7), pos(8)]));
    s.on_result(None);
    let mut rest = Vec::new();
    while let Some(c) = s.next_candidate() {
        rest.push(sorted(&c));
        s.on_result(None);
    }
    rest.sort();
    assert_eq!(rest, vec![codes(&[pos(1), neg(2), pos(8)]), codes(&[pos(3), neg(4), pos(7)])]);
    assert_eq!(s.into_cube().as_slice(), &[pos(1), neg(2), pos(3), neg(4)]);
}

#[test]
fn exhaustive_search_stops_at_the_first_success() {
    let (relation, names) = setup();
    let cube = lv(&[pos(1), neg(2), pos(3), pos(4), pos(5)]);
    let mut s = EquivExhaustiveSearch::new(cube, &relation, &names);
    let c = s.next_candidate().unwrap();
    assert_eq!(c.as_slice(), &[pos(3), pos(4), pos(5), pos(7)]);
    s.on_result(Some(lv(&[pos(5), pos(7)])));
    assert!(s.next_candidate().is_none());
    assert_eq!(s.into_cube().as_slice(), &[pos(5), pos(7)]);
}

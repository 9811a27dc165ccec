use ric3::lit::{Lit, Var};
use ric3::litvec::LitVec;
use ric3::relation::RelationData;
use ric3::transys::Transys;
use ric3::var2name::{init_var2name, init_var2name_refine_inv, Var2Name};
use std::collections::BTreeMap;

fn pos(v: u32) -> Lit {
    Lit::new(Var(v), true)
}

fn vars(v: &[u32]) -> Vec<Var> {
    v.iter().map(|x| Var(*x)).collect()
}

/// Inputs 1, 2; latches 3, 4, 5 with next states 6, 7, 8; 6 = f(1, 3),
/// 7 = f(2, 4), 8 = f(5), 9 = f(8); latch 3 starts at the constant.
fn system(bad: u32, justice: &[Lit]) -> Transys {
    let mut deps: Vec<Vec<Var>> = vec![Vec::new(); 10];
    deps[6] = vars(&[1, 3]);
    deps[7] = vars(&[2, 4]);
    deps[8] = vars(&[5]);
    deps[9] = vars(&[8]);
    Transys::new(
        vars(&[1, 2]),
        vars(&[3, 4, 5]),
        &[(Var(3), pos(6)), (Var(4), pos(7)), (Var(5), pos(8))],
        &[(Var(3), Lit(0))],
        LitVec::new_from_slice(&[pos(bad)]),
        LitVec::new(),
        LitVec::new_from_slice(justice),
        deps,
    )
}

fn setup(rows: &[&str]) -> (RelationData, Var2Name) {
    let lines: Vec<String> = rows.iter().map(|s| s.to_string()).collect();
    let relation = RelationData::from_lines(&lines, 0, 9).unwrap();
    let map: Vec<String> = (0..9).map(|i| format!("latch {} 0 v{}", i, i)).collect();
    let mut names = init_var2name(&map, "aag 9 0 9 0 0").unwrap();
    let refine_inv: BTreeMap<usize, usize> = (1..=9).map(|v| (v, v)).collect();
    init_var2name_refine_inv(&mut names, refine_inv.clone(), refine_inv);
    (relation, names)
}

#[test]
fn cone_of_the_bad_state() {
    // latch 3 has no predicate
    let (relation, names) = setup(&["header", "2 2 -1 -1"]);
    let mut t = system(6, &[]);
    let deleted = t.coi_refine(&relation, &names);
    assert_eq!(t.input, vars(&[1]));
    assert_eq!(t.latch, vars(&[3]));
    assert_eq!(t.next_of(Var(3)), Some(pos(6)));
    assert_eq!(t.next_of(Var(4)), None);
    assert_eq!(t.next_of(Var(5)), None);
    assert_eq!(t.init_of(Var(3)), Some(Lit(0)));
    assert_eq!(deleted, vars(&[2, 4, 5, 7, 8, 9]));
    assert!(t.deps[7].is_empty() && t.deps[9].is_empty());
    assert_eq!(t.deps[6], vars(&[1, 3]));
}

#[test]
fn predicates_of_kept_latches_are_kept() {
    // the predicate of latch 3 is latch 4, which has none
    let (relation, names) = setup(&["header", "2 2 3 -1", "3 3 -1 -1"]);
    let mut t = system(6, &[]);
    let deleted = t.coi_refine(&relation, &names);
    assert_eq!(t.input, vars(&[1, 2]));
    assert_eq!(t.latch, vars(&[3, 4]));
    assert_eq!(t.next_of(Var(4)), Some(pos(7)));
    assert_eq!(deleted, vars(&[5, 8, 9]));
}

#[test]
fn justice_keeps_every_latch() {
    let (relation, names) = setup(&["header", "2 2 -1 -1", "3 3 -1 -1", "4 4 -1 -1"]);
    let mut t = system(6, &[pos(1)]);
    let deleted = t.coi_refine(&relation, &names);
    assert_eq!(t.latch, vars(&[3, 4, 5]));
    assert_eq!(t.input, vars(&[1, 2]));
    assert_eq!(deleted, vars(&[9]));
}

fn with_constraint() -> Transys {
    let t = system(6, &[]);
    Transys::new(
        t.input.clone(),
        t.latch.clone(),
        &[(Var(3), pos(6)), (Var(4), pos(7)), (Var(5), pos(8))],
        &[(Var(3), Lit(0))],
        LitVec::new_from_slice(&[pos(6)]),
        LitVec::new_from_slice(&[pos(2)]),
        LitVec::new(),
        t.deps.clone(),
    )
}

#[test]
fn variables_kept_by_renumbering_and_simplification() {
    let t = with_constraint();
    assert_eq!(t.rearrange_domain(), vars(&[0, 2, 6, 1, 2, 3, 4, 5, 0, 6, 7, 8]));
    assert_eq!(t.simplify_frozens(), vars(&[0, 6, 2, 1, 2, 3, 4, 5, 0, 6, 7, 8]));
}

#[test]
fn renumbering_renames_every_part() {
    let mut t = with_constraint();
    let dm: BTreeMap<u32, u32> = (0..10u32).map(|v| (v, if v == 0 { 0 } else { 10 - v })).collect();
    let deps: Vec<Vec<Var>> = vec![Vec::new(); 10];
    t.apply_rearrange(&dm, deps.clone());
    assert_eq!(t.input, vars(&[9, 8]));
    assert_eq!(t.latch, vars(&[7, 6, 5]));
    assert_eq!(t.next_of(Var(7)), Some(pos(4)));
    assert_eq!(t.next_of(Var(6)), Some(pos(3)));
    assert_eq!(t.next_of(Var(3)), None);
    assert_eq!(t.init_of(Var(7)), Some(Lit(0)));
    assert_eq!(t.bad.as_slice(), &[pos(4)]);
    assert_eq!(t.constraint.as_slice(), &[pos(8)]);
    assert_eq!(t.deps, deps);
}

#[test]
fn latches_and_their_next_states() {
    let mut t = Transys::new(Vec::new(), Vec::new(), &[], &[], LitVec::new(), LitVec::new(), LitVec::new(), vec![Vec::new(); 8]);
    t.add_input(Var(1));
    t.add_latch(Var(2), Some(Lit(0)), pos(5));
    t.add_latch(Var(3), None, Lit::new(Var(6), false));
    t.latch.push(Var(4));
    t.add_init(Var(4), Lit(1));
    assert_eq!(t.input, vars(&[1]));
    assert_eq!(t.init_of(Var(2)), Some(Lit(0)));
    assert_eq!(t.init_of(Var(3)), None);
    assert_eq!(t.init_of(Var(4)), Some(Lit(1)));
    assert_eq!(t.next(pos(2)), Some(pos(5)));
    assert_eq!(t.next(Lit::new(Var(2), false)), Some(Lit::new(Var(5), false)));
    assert_eq!(t.next(pos(4)), None);
    assert_eq!(t.var_next(Var(3)), Some(Var(6)));
    assert_eq!(t.var_next(Var(4)), None);
    let n = t.lits_next(&[pos(3), pos(4), Lit::new(Var(2), false)]);
    assert_eq!(n.as_slice(), &[Lit::new(Var(6), false), Lit::new(Var(5), false)]);
    assert_eq!(t.latch_had_next(), vars(&[2, 3]));
    assert_eq!(t.latch_no_next(), vars(&[4]));
}

#[test]
fn initial_value_clauses() {
    let mut t = system(6, &[]);
    t.add_init(Var(4), pos(2));
    t.add_init(Var(5), Lit::constant(true));
    let cls: Vec<Vec<Lit>> = t.init_clauses().iter().map(|c| c.as_slice().to_vec()).collect();
    let neg = |v: u32| Lit::new(Var(v), false);
    assert_eq!(cls, vec![vec![neg(3)], vec![pos(4), neg(2)], vec![neg(4), pos(2)], vec![pos(5)]]);
}

#[test]
fn a_later_pair_for_a_variable_wins() {
    let t = Transys::new(
        vars(&[1]),
        vars(&[2, 3]),
        &[(Var(2), pos(4)), (Var(3), pos(5)), (Var(2), Lit::new(Var(6), false))],
        &[(Var(2), Lit(0)), (Var(2), Lit(1))],
        LitVec::new(),
        LitVec::new(),
        LitVec::new(),
        vec![Vec::new(); 7],
    );
    assert_eq!(t.next_of(Var(2)), Some(Lit::new(Var(6), false)));
    assert_eq!(t.next_of(Var(3)), Some(pos(5)));
    assert_eq!(t.next_of(Var(1)), None);
    assert_eq!(t.init_of(Var(2)), Some(Lit(1)));
    assert_eq!(t.init_of(Var(3)), None);
}

#[test]
fn a_second_reduction_changes_nothing() {
    let (relation, names) = setup(&["header", "2 2 3 -1", "3 3 -1 -1"]);
    let mut t = system(6, &[]);
    let first = t.coi_refine(&relation, &names);
    let (input, latch, deps) = (t.input.clone(), t.latch.clone(), t.deps.clone());
    let second = t.coi_refine(&relation, &names);
    assert_eq!(second, first);
    assert_eq!(t.input, input);
    assert_eq!(t.latch, latch);
    assert_eq!(t.deps, deps);
    assert_eq!(t.next_of(Var(3)), Some(pos(6)));
    assert_eq!(t.next_of(Var(4)), Some(pos(7)));
    assert_eq!(t.next_of(Var(5)), None);
    assert_eq!(t.init_of(Var(3)), Some(Lit(0)));
}

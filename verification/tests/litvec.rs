use ric3::lit::{Lit, Var};
use ric3::litvec::LitVec;
use std::cmp::Ordering;

fn pos(v: u32) -> Lit {
    Lit::new(Var(v), true)
}

fn neg(v: u32) -> Lit {
    Lit::new(Var(v), false)
}

fn lv(lits: &[Lit]) -> LitVec {
    LitVec::new_from_slice(lits)
}

fn lits(v: &LitVec) -> Vec<Lit> {
    v.as_slice().to_vec()
}

#[test]
fn lit_encoding() {
    assert_eq!(pos(3).0, 6);
    assert_eq!(neg(3).0, 7);
    assert_eq!(neg(3).var(), Var(3));
    assert!(pos(3).polarity());
    assert!(!neg(3).polarity());
    assert_eq!(pos(3).not(), neg(3));
    assert_eq!(neg(3).not(), pos(3));
    assert_eq!(pos(3).not_if(false), pos(3));
    assert_eq!(pos(3).not_if(true), neg(3));
    assert_eq!(Lit::constant(true), Lit(1));
    assert_eq!(Var(5).lit(), pos(5));
    assert_eq!(Var::new(7), Var(7));
}

#[test]
fn basic_vector_operations() {
    let mut v = LitVec::new();
    assert!(v.is_empty());
    v.push(pos(1));
    v.push(neg(2));
    assert_eq!(v.len(), 2);
    assert_eq!(v.get(1), neg(2));
    assert_eq!(v.last(), neg(2));
    assert!(v.contains(pos(1)));
    assert!(!v.contains(neg(1)));
    let w = v.clone();
    assert_eq!(lits(&w), lits(&v));
    v.clear();
    assert!(v.is_empty());
    assert_eq!(lits(&LitVec::from_lit(pos(4))), vec![pos(4)]);
    assert!(LitVec::new_with(10).is_empty());
}

#[test]
fn subsume_checks_containment_and_length() {
    let a = lv(&[pos(1), neg(2)]);
    assert!(a.subsume(&[neg(2), pos(3), pos(1)]));
    assert!(!a.subsume(&[pos(1), pos(2), pos(3)]));
    assert!(!a.subsume(&[pos(1)]));
    assert!(lv(&[]).subsume(&[]));
}

#[test]
fn subsume_execpt_one_reports_the_flipped_literal() {
    let a = lv(&[pos(1), neg(2)]);
    assert_eq!(a.subsume_execpt_one(&[pos(1), neg(2), pos(3)]), (true, None));
    assert_eq!(a.subsume_execpt_one(&[pos(1), pos(2)]), (false, Some(neg(2))));
    assert_eq!(a.subsume_execpt_one(&[neg(1), pos(2)]), (false, None));
    assert_eq!(a.subsume_execpt_one(&[pos(1), pos(3)]), (false, None));
    assert_eq!(a.subsume_execpt_one(&[pos(1)]), (false, None));
    // the first literal of the variable decides: here the negation comes first
    let b = lv(&[pos(1)]);
    assert_eq!(b.subsume_execpt_one(&[neg(1), pos(1)]), (false, Some(pos(1))));
}

#[test]
fn ordered_subsume_matches_subsume_on_sorted_vectors() {
    let a = lv(&[pos(1), neg(4)]);
    let c = lv(&[pos(1), pos(2), neg(4), pos(7)]);
    assert!(a.ordered_subsume(&c));
    assert!(a.subsume(c.as_slice()));
    let d = lv(&[pos(1), pos(4), pos(7)]);
    assert!(!a.ordered_subsume(&d));
    assert!(!a.subsume(d.as_slice()));
    assert!(!c.ordered_subsume(&a));
}

#[test]
fn ordered_subsume_execpt_one_on_sorted_vectors() {
    let a = lv(&[pos(1), neg(4)]);
    assert_eq!(a.ordered_subsume_execpt_one(&lv(&[pos(1), pos(2), neg(4)])), (true, None));
    assert_eq!(a.ordered_subsume_execpt_one(&lv(&[pos(1), pos(2), pos(4)])), (false, Some(neg(4))));
    assert_eq!(a.ordered_subsume_execpt_one(&lv(&[pos(2), pos(4)])), (false, None));
    assert_eq!(a.ordered_subsume_execpt_one(&lv(&[pos(1)])), (false, None));
}

#[test]
fn ordered_intersection_keeps_common_literals_in_order() {
    let a = lv(&[pos(1), neg(2), pos(5), pos(9)]);
    let c = lv(&[pos(1), pos(2), pos(5), neg(9)]);
    assert_eq!(lits(&a.ordered_intersection(&c)), vec![pos(1), pos(5)]);
    assert_eq!(lits(&a.ordered_intersection(&lv(&[]))), Vec::<Lit>::new());
}

#[test]
fn intersection_holds_common_literals_once() {
    let a = lv(&[pos(1), neg(2), pos(5), pos(1)]);
    let c = lv(&[pos(5), pos(1), pos(2)]);
    let mut r = lits(&a.intersection(&c));
    r.sort_by_key(|l| l.0);
    assert_eq!(r, vec![pos(1), pos(5)]);
}

#[test]
fn resolvent_on_a_variable() {
    // (x1 | x2) and (-x2 | x3) on x2 gives x1, x3
    let a = lv(&[pos(1), pos(2)]);
    let b = lv(&[neg(2), pos(3), pos(4)]);
    let r = a.resolvent(&b, Var(2)).unwrap();
    assert_eq!(lits(&r), vec![pos(1), pos(3), pos(4)]);
    // a literal present on both sides appears once
    let c = lv(&[pos(1), pos(2)]);
    let d = lv(&[pos(1), neg(2), pos(5)]);
    assert_eq!(lits(&c.resolvent(&d, Var(2)).unwrap()), vec![pos(1), pos(5)]);
    // opposite literals on another variable: no resolvent
    let e = lv(&[neg(1), neg(2), pos(6)]);
    assert!(c.resolvent(&e, Var(2)).is_none());
}

#[test]
fn ordered_resolvent_agrees_with_resolvent() {
    let a = lv(&[pos(1), pos(2)]);
    let b = lv(&[neg(2), pos(3), pos(4)]);
    assert_eq!(lits(&a.ordered_resolvent(&b, Var(2)).unwrap()), lits(&a.resolvent(&b, Var(2)).unwrap()));
    let c = lv(&[pos(1), pos(2)]);
    let e = lv(&[neg(1), neg(2), pos(6)]);
    assert!(c.ordered_resolvent(&e, Var(2)).is_none());
    assert!(c.resolvent(&e, Var(2)).is_none());
}

#[test]
fn cls_simp_sorts_dedups_and_detects_tautology() {
    let mut a = lv(&[pos(5), neg(2), pos(5), pos(1)]);
    a.cls_simp();
    assert_eq!(lits(&a), vec![pos(1), neg(2), pos(5)]);
    let mut b = lv(&[pos(5), neg(2), pos(2)]);
    b.cls_simp();
    assert!(b.is_empty());
    // simplifying twice changes nothing
    let before = lits(&a);
    a.cls_simp();
    assert_eq!(lits(&a), before);
}

#[test]
fn not_negates_every_literal_and_is_an_involution() {
    let a = lv(&[pos(1), neg(2)]);
    let n = a.not();
    assert_eq!(lits(&n), vec![neg(1), pos(2)]);
    assert_eq!(lits(&n.not()), lits(&a));
}

#[test]
fn map_applies_the_function() {
    let a = lv(&[pos(1), neg(2)]);
    let m = a.map(|l: Lit| Lit::new(Var(l.var().0 + 10), l.polarity()));
    assert_eq!(lits(&m), vec![pos(11), neg(12)]);
}

#[test]
fn cmp_is_lexicographic_then_by_length() {
    let a = lv(&[pos(1), pos(2)]);
    let b = lv(&[pos(1), pos(3)]);
    let c = lv(&[pos(1)]);
    assert_eq!(a.cmp(&b), Ordering::Less);
    assert_eq!(b.cmp(&a), Ordering::Greater);
    assert_eq!(c.cmp(&a), Ordering::Less);
    assert_eq!(a.cmp(&a.clone()), Ordering::Equal);
}

#[test]
fn sorted_copy_sorts_by_code() {
    let a = lv(&[pos(5), neg(1), pos(1), pos(5)]);
    assert_eq!(lits(&a.sorted_copy()), vec![pos(1), neg(1), pos(5), pos(5)]);
}

#[test]
fn eq_lits_compares_in_order() {
    assert!(lv(&[pos(1), pos(2)]).eq_lits(&lv(&[pos(1), pos(2)])));
    assert!(!lv(&[pos(1), pos(2)]).eq_lits(&lv(&[pos(2), pos(1)])));
}

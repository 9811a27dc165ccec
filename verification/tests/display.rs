use ric3::lit::{Lit, Var};
use ric3::litvec::LitVec;
use ric3::var2name::{init_var2name, init_var2name_refine_inv, Var2Name};
use std::collections::BTreeMap;

fn pos(v: u32) -> Lit {
    Lit::new(Var(v), true)
}

fn neg(v: u32) -> Lit {
    Lit::new(Var(v), false)
}

fn names(map: &[&str], header: &str, vars: usize) -> Var2Name {
    let lines: Vec<String> = map.iter().map(|s| s.to_string()).collect();
    let mut n = init_var2name(&lines, header).unwrap();
    let refine_inv: BTreeMap<usize, usize> = (1..=vars).map(|v| (v, v)).collect();
    let refine = refine_inv.clone();
    init_var2name_refine_inv(&mut n, refine_inv, refine);
    n
}

#[test]
fn literals_without_names() {
    let v = LitVec::new_from_slice(&[pos(1), neg(2), pos(10)]);
    assert_eq!(v.to_text(None), "[1, -2, 10]");
    assert_eq!(LitVec::new().to_text(None), "[]");
}

#[test]
fn vectors_are_grouped_by_name() {
    // inputs 0..3 are nodes 1..4, the latch is node 5
    let n = names(
        &["input 0 0 b", "input 1 1 b", "input 2 2 a", "input 3 3 a", "latch 0 0 z"],
        "aag 9 4 1 0 0",
        5,
    );
    let v = LitVec::new_from_slice(&[pos(5), pos(1), neg(2), neg(3), pos(4), neg(7)]);
    assert_eq!(v.to_text(Some(&n)), "[5, -7, a[3:2]=2, b[1:0]=1]");
}

#[test]
fn a_single_bit_of_a_vector_is_a_literal() {
    let n = names(&["input 0 0 b", "input 1 1 b"], "aag 2 2 0 0 0", 2);
    let v = LitVec::new_from_slice(&[neg(2)]);
    assert_eq!(v.to_text(Some(&n)), "[-2]");
}

#[test]
fn unknown_bits_are_marked() {
    // bits 0 and 2 of c; bit 1 is missing
    let n = names(&["input 0 0 c", "input 1 2 c"], "aag 2 2 0 0 0", 2);
    let v = LitVec::new_from_slice(&[pos(1), neg(2)]);
    assert_eq!(v.to_text(Some(&n)), "[c[2:0]=0x1]");
}

#[test]
fn gaps_read_the_value_after_the_shift() {
    // bits 1 and 3 of e, both positive: the value is shifted down by the
    // lowest bit before the bits are read at their own positions
    let n = names(&["input 0 1 e", "input 1 3 e"], "aag 2 2 0 0 0", 2);
    let v = LitVec::new_from_slice(&[pos(1), pos(2)]);
    assert_eq!(v.to_text(Some(&n)), "[e[3:1]=0x0]");
}

#[test]
fn full_ranges_are_written_in_hex() {
    let lines: Vec<String> = (0..5).map(|i| format!("input {} {} w", i, i)).collect();
    let refs: Vec<&str> = lines.iter().map(|s| s.as_str()).collect();
    let n = names(&refs, "aag 5 5 0 0 0", 5);
    let v = LitVec::new_from_slice(&[pos(1), pos(2), neg(3), pos(4), pos(5)]);
    assert_eq!(v.to_text(Some(&n)), "[w[4:0]=1b]");
}

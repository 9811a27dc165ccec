use ric3::lit::{Lit, Var};
use ric3::litvec::LitVec;
use ric3::relation::{parse_row, symmetric_cube, RelationData, RowParse};
use ric3::var2name::{get_input_latch_num, Var2Name};
use std::collections::BTreeMap;

fn lines(v: &[&str]) -> Vec<String> {
    v.iter().map(|s| s.to_string()).collect()
}

fn sample() -> RelationData {
    // header, then rows: var sym equiv eqinit, shifted by inputs + 1 = 3
    RelationData::from_lines(
        &lines(&["header line", "1 2 5 -1", "2 1 5 7", "short 1", "1 4 -1 -1"]),
        2,
        4,
    )
    .unwrap()
}

#[test]
fn from_lines_skips_header_and_short_lines_and_shifts() {
    let d = sample();
    assert_eq!(d.entries, vec![[4, 5, 8, -1], [5, 4, 8, 10], [4, 7, -1, -1]]);
    assert_eq!(d.get(1), Some(&[5, 4, 8, 10]));
    assert_eq!(d.get(3), None);
}

#[test]
fn later_rows_override_earlier_ones() {
    let d = sample();
    assert_eq!(d.get_sym_var(4), Some(7));
    assert_eq!(d.get_equiv_predicate(4), Some(-1));
    assert_eq!(d.get_eqinit_predicate(5), Some(10));
    assert_eq!(d.get_sym_var(6), None);
}

#[test]
fn unparsable_fields_read_zero() {
    let d = RelationData::from_lines(&lines(&["h", "x y z w"]), 0, 0).unwrap();
    assert_eq!(d.entries, vec![[1, 1, 1, 1]]);
}

#[test]
fn overflow_is_reported() {
    assert!(RelationData::from_lines(&lines(&["h", "9223372036854775807 1 1 1"]), 0, 0).is_none());
    match parse_row("9223372036854775807 1 1 1", 0) {
        RowParse::Overflow => {}
        _ => panic!("expected overflow"),
    }
    match parse_row("a b", 0) {
        RowParse::Skip => {}
        _ => panic!("expected skip"),
    }
}

#[test]
fn header_counts() {
    assert_eq!(get_input_latch_num("aag 10 2 3 1 4\n"), Some((2, 3)));
    assert_eq!(get_input_latch_num("aag 10 2 3 1"), None);
    assert_eq!(get_input_latch_num("aag 10 x 3 1 4"), None);
}

fn names() -> Var2Name {
    let mut n = Var2Name::new(&lines(&[]), "aag 0 0 0 0 0").unwrap();
    // current ids 4,5 map to original 4,5; original 7 is current 9
    let refine_inv: BTreeMap<usize, usize> = [(4, 4), (5, 5), (9, 7)].into_iter().collect();
    let refine: BTreeMap<usize, usize> = [(4, 4), (5, 5), (7, 9)].into_iter().collect();
    n.set_refine(refine_inv, refine);
    n
}

#[test]
fn lookups_through_current_numbers() {
    let d = sample();
    let n = names();
    assert_eq!(d.get_sym_var_new(&n, 4), Some(9));
    assert_eq!(d.get_sym_var_new(&n, 5), Some(4));
    assert_eq!(d.get_equiv_predicate_new(&n, 4), None);
    assert_eq!(d.get_equiv_predicate_new(&n, 5), None);
    assert_eq!(d.get_eqinit_predicate_new(&n, 4), None);
}

#[test]
fn symmetric_cube_keeps_polarity() {
    let d = sample();
    let n = names();
    let cube = LitVec::new_from_slice(&[Lit::new(Var(4), false), Lit::new(Var(5), true), Lit::new(Var(9), true)]);
    let s = symmetric_cube(&cube, &d, &n);
    assert_eq!(s.as_slice().to_vec(), vec![Lit::new(Var(9), false), Lit::new(Var(4), true)]);
}

#[test]
fn map_keys_are_the_first_fields_of_the_rows() {
    let d = sample();
    let firsts: std::collections::BTreeSet<i64> = d.entries.iter().map(|e| e[0]).collect();
    let keys: std::collections::BTreeSet<i64> = d.sym_map.keys().copied().collect();
    assert_eq!(keys, firsts);
    assert_eq!(d.equiv_map.keys().copied().collect::<std::collections::BTreeSet<i64>>(), firsts);
    assert_eq!(d.eqinit_map.keys().copied().collect::<std::collections::BTreeSet<i64>>(), firsts);
    assert_eq!(d.entries.len(), 3);
}

#[test]
fn an_input_count_past_i64_wraps_as_the_cast_does() {
    // `usize::MAX as i64` is -1, so the shift is 0
    let d = RelationData::from_lines(&lines(&["h", "5 6 -1 2"]), usize::MAX, 0).unwrap();
    assert_eq!(d.entries, vec![[5, 6, -1, 2]]);
}

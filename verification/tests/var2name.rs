use ric3::var2name::{collect_vars, init_var2name, init_var2name_refine_inv, parse_var_line, var2info, var2name, Var2Name, VarType};
use std::collections::BTreeMap;

fn lines(v: &[&str]) -> Vec<String> {
    v.iter().map(|s| s.to_string()).collect()
}

fn sample() -> Var2Name {
    // 2 inputs, 1 latch
    let map = lines(&[
        "input 0 0 data\n",
        "input 1 1 data\n",
        "latch 0 0 state_register\n",
        "invlatch 0 0 st\n",
        "wire 0 0 w\n",
    ]);
    let mut n = init_var2name(&map, "aag 7 2 1 0 3\n").unwrap();
    let refine_inv: BTreeMap<usize, usize> = [(1, 1), (2, 2), (3, 4), (4, 3), (8, 99)].into_iter().collect();
    let refine: BTreeMap<usize, usize> = refine_inv.iter().map(|(a, b)| (*b, *a)).collect();
    init_var2name_refine_inv(&mut n, refine_inv, refine);
    n
}

#[test]
fn var_type_words() {
    assert_eq!(VarType::from_str("input"), VarType::Input);
    assert_eq!(VarType::from_str("latch"), VarType::Latch);
    assert_eq!(VarType::from_str("invlatch"), VarType::Latch);
    assert_eq!(VarType::from_str("wire"), VarType::Wire);
}

#[test]
fn parse_lines() {
    let v = parse_var_line("input 3 1 bus").unwrap();
    assert_eq!(v.node_type, VarType::Input);
    assert_eq!((v.id, v.index, v.name.as_str(), v.is_vector), (3, 1, "bus", false));
    assert!(parse_var_line("input 3 1").is_none());
    assert!(parse_var_line("gate 3 1 x").is_none());
    assert!(parse_var_line("input x 1 y").is_none());
    assert!(collect_vars(&lines(&["wire 0 0 a", "bad"])).is_none());
    assert_eq!(collect_vars(&lines(&["wire 0 0 a", "latch 1 2 b"])).unwrap().len(), 2);
}

#[test]
fn names_and_vectors() {
    let n = sample();
    // current 1 -> original 1 = input 0 of "data", a vector of two bits
    assert_eq!(n.get_name(1), "data[0]");
    assert_eq!(n.get_name(2), "data[1]");
    // the latch keeps the shorter of its two names
    assert_eq!(n.get_name(4), "st");
    // wire w is node 1 + 2 + 1 + 0 = 4, current 3
    assert_eq!(n.get_name(3), "w");
    // no original number
    assert_eq!(n.get_name(5), "<5>");
    // an original number without an entry
    assert_eq!(n.get_name(8), "99");
    let info = n.get(1).unwrap();
    assert!(info.is_vector);
    assert_eq!(info.label(), "data[0]");
    assert!(n.get(5).is_none());
    assert_eq!(n.get_origin_id(3), Some(4));
    assert_eq!(n.get_new_id(4), Some(3));
}

#[test]
fn without_names_the_number_is_shown() {
    assert_eq!(var2name(None, 12), "12");
    assert!(var2info(None, 12).is_none());
    let n = sample();
    assert_eq!(var2name(Some(&n), 4), "st");
    assert_eq!(var2info(Some(&n), 3).unwrap().name, "w");
}

#[test]
fn malformed_input_is_refused() {
    assert!(Var2Name::new(&lines(&["input 0 0"]), "aag 1 1 0 0 0").is_none());
    assert!(Var2Name::new(&lines(&[]), "aag 1").is_none());
    assert!(Var2Name::new(&lines(&["wire 18446744073709551615 0 x"]), "aag 1 1 1 0 0").is_none());
}

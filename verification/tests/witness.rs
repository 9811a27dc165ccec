use ric3::lit::{Lit, Var};
use ric3::litvec::LitVec;
use ric3::witness::{init_assumption, map_cube, split_cube, witness_trace, ChainStep};
use std::collections::BTreeMap;

fn pos(v: u32) -> Lit {
    Lit::new(Var(v), true)
}

fn neg(v: u32) -> Lit {
    Lit::new(Var(v), false)
}

fn lv(l: &[Lit]) -> LitVec {
    LitVec::new_from_slice(l)
}

fn rst() -> BTreeMap<u32, u32> {
    (1..=4u32).map(|v| (v, v + 10)).collect()
}

fn is_latch() -> Vec<bool> {
    vec![false, false, false, true, true, false]
}

fn views(v: &[LitVec]) -> Vec<Vec<Lit>> {
    v.iter().map(|c| c.as_slice().to_vec()).collect()
}

#[test]
fn cubes_are_taken_back_through_the_restoration_map() {
    let r = map_cube(&rst(), &lv(&[neg(1), pos(5), pos(4)]));
    assert_eq!(r.as_slice(), &[neg(11), pos(14)]);
    let (input, state) = split_cube(&rst(), &is_latch(), &lv(&[pos(2), pos(3), neg(5), neg(4)]));
    assert_eq!(input.as_slice(), &[pos(12)]);
    assert_eq!(state.as_slice(), &[pos(13), neg(14)]);
}

#[test]
fn trace_of_a_chain() {
    let chain = vec![
        ChainStep { frame: 0, lemma: lv(&[pos(3)]), input: vec![lv(&[pos(1)])] },
        ChainStep {
            frame: 2,
            lemma: lv(&[pos(3), neg(4), pos(5)]),
            input: vec![lv(&[neg(1), pos(5)]), lv(&[pos(2), pos(3), neg(5), neg(4)])],
        },
    ];
    assert_eq!(init_assumption(&chain[0], &rst()).as_slice(), &[pos(13), pos(11)]);
    let inits = vec![(lv(&[pos(11)]), lv(&[neg(13)])), (LitVec::new(), LitVec::new())];
    let w = witness_trace(&chain, &inits, &rst(), &is_latch());
    assert_eq!(views(&w.input), vec![vec![pos(11)], vec![neg(11)], vec![pos(12)]]);
    assert_eq!(views(&w.state), vec![vec![neg(13)], vec![pos(13), neg(14)], vec![pos(13), neg(14)]]);
    assert_eq!(w.input.len(), w.state.len());
}

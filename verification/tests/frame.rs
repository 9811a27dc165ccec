use ric3::frame::{FrameLemma, Frame, Frames, SolverTarget};
use ric3::lit::{Lit, Var};
use ric3::litvec::LitVec;

fn pos(v: u32) -> Lit {
    Lit::new(Var(v), true)
}

fn neg(v: u32) -> Lit {
    Lit::new(Var(v), false)
}

fn lv(l: &[Lit]) -> LitVec {
    LitVec::new_from_slice(l)
}

fn cubes(f: &Frame<u32>) -> Vec<Vec<Lit>> {
    (0..f.len()).map(|j| f.get(j).cube().as_slice().to_vec()).collect()
}

fn frames(n: usize) -> Frames<u32> {
    let mut fs = Frames::new();
    for _ in 0..n {
        fs.push(Frame::new());
    }
    fs
}

#[test]
fn frame_zero_lemma_goes_straight_in() {
    let mut fs = frames(1);
    let plan = fs.add_lemma(0, lv(&[pos(2), pos(1)]), Some(7), None, true, 0, true);
    assert!(!plan.inv_found);
    assert_eq!(cubes(fs.frame(0)), vec![vec![pos(1), pos(2)]]);
    assert_eq!(*fs.frame(0).get(0).po(), Some(7));
    let targets: Vec<SolverTarget> = plan.actions.iter().map(|a| a.target).collect();
    assert_eq!(targets, vec![SolverTarget::Frame(0), SolverTarget::Bad]);
    assert_eq!(plan.actions[0].clause.as_slice().to_vec(), vec![neg(1), neg(2)]);
}

#[test]
fn new_lemma_removes_weaker_ones_and_is_blocked_from_frame_one() {
    let mut fs = frames(3);
    fs.add_lemma(2, lv(&[pos(1), pos(2)]), None, None, true, 2, false);
    fs.add_lemma(1, lv(&[pos(3)]), None, None, true, 2, false);
    // pos(1) subsumes pos(1),pos(2): that lemma leaves frame 2
    let plan = fs.add_lemma(2, lv(&[pos(1)]), None, None, true, 2, false);
    assert_eq!(cubes(fs.frame(2)), vec![vec![pos(1)]]);
    assert_eq!(cubes(fs.frame(1)), vec![vec![pos(3)]]);
    let targets: Vec<SolverTarget> = plan.actions.iter().map(|a| a.target).collect();
    assert_eq!(targets, vec![SolverTarget::Frame(1), SolverTarget::Frame(2)]);
    assert!(!plan.inv_found);
    assert_eq!(fs.early(), 1);
}

#[test]
fn contained_lemma_is_ignored() {
    let mut fs = frames(3);
    fs.add_lemma(2, lv(&[pos(1)]), None, None, true, 2, false);
    let plan = fs.add_lemma(1, lv(&[pos(1), pos(5)]), None, None, true, 2, false);
    assert!(plan.actions.is_empty());
    assert_eq!(cubes(fs.frame(1)), Vec::<Vec<Lit>>::new());
    assert_eq!(fs.trivial_contained(Some(1), &lv(&[pos(1), pos(5)])), Some((Some(2), 0)));
    assert_eq!(fs.trivial_contained(Some(3), &lv(&[pos(1), pos(5)])), None);
}

#[test]
fn pushing_an_equal_lemma_empties_the_lower_frame() {
    let mut fs = frames(3);
    fs.add_lemma(1, lv(&[pos(4)]), None, None, true, 2, false);
    // the same lemma for frame 2 moves it up; frame 1 becomes empty
    let plan = fs.add_lemma(2, lv(&[pos(4)]), None, None, false, 2, false);
    assert!(plan.inv_found);
    assert_eq!(cubes(fs.frame(1)), Vec::<Vec<Lit>>::new());
    assert_eq!(cubes(fs.frame(2)), vec![vec![pos(4)]]);
    let targets: Vec<SolverTarget> = plan.actions.iter().map(|a| a.target).collect();
    assert_eq!(targets, vec![SolverTarget::Frame(2)]);
    let inv: Vec<Vec<Lit>> = fs.invariant_lemmas().iter().map(|c| c.as_slice().to_vec()).collect();
    assert_eq!(inv, vec![vec![pos(4)]]);
}

#[test]
fn strictly_subsumed_lemma_starts_above_the_subsumer() {
    let mut fs = frames(4);
    fs.add_lemma(1, lv(&[pos(1)]), None, None, true, 3, false);
    let plan = fs.add_lemma(3, lv(&[pos(1), pos(2)]), None, Some(lv(&[pos(8), pos(7)])), false, 3, true);
    let targets: Vec<SolverTarget> = plan.actions.iter().map(|a| a.target).collect();
    assert_eq!(
        targets,
        vec![
            SolverTarget::Frame(2),
            SolverTarget::Frame(0),
            SolverTarget::Frame(3),
            SolverTarget::Frame(0),
            SolverTarget::Bad,
            SolverTarget::Bad,
        ]
    );
    assert_eq!(plan.sym_lemma.unwrap().as_slice().to_vec(), vec![pos(7), pos(8)]);
    assert_eq!(fs.early(), 1);
}

#[test]
fn parents_and_statistics() {
    let mut fs = frames(3);
    fs.add_lemma(1, lv(&[pos(1)]), None, None, true, 2, false);
    fs.add_lemma(1, lv(&[pos(2), pos(3)]), None, None, true, 2, false);
    assert_eq!(fs.parent_lemma(&[pos(1), pos(5)], 2).unwrap().as_slice().to_vec(), vec![pos(1)]);
    assert!(fs.parent_lemma(&[pos(5)], 2).is_none());
    assert!(fs.parent_lemma(&[pos(1)], 1).is_none());
    assert_eq!(fs._parent_lemmas(&lv(&[pos(1), pos(2), pos(3)]), 2).len(), 2);
    assert_eq!(fs.statistic(false), "frames [4]: 0 2 0 0 ");
}

#[test]
fn lemma_moves_to_the_infinite_frame() {
    let mut fs = frames(2);
    fs.add_lemma(1, lv(&[pos(1)]), None, None, true, 1, false);
    let clause = fs.add_inf_lemma(lv(&[pos(1)]));
    assert_eq!(clause.as_slice().to_vec(), vec![neg(1)]);
    assert_eq!(fs.frame(1).len(), 0);
    assert_eq!(fs.inf().len(), 1);
    let l: FrameLemma<u32> = FrameLemma::new(lv(&[pos(9)]), Some(3), None);
    assert_eq!(*l.po(), Some(3));
}

fn lits(v: &LitVec) -> Vec<Lit> {
    v.as_slice().to_vec()
}

fn with_lemmas() -> Frames<u32> {
    let mut fs = frames(3);
    let put = |fs: &mut Frames<u32>, i: usize, l: &[Lit]| fs.push_lemma(i, FrameLemma::new(lv(l), None, None));
    put(&mut fs, 0, &[pos(1), pos(2), pos(3)]);
    put(&mut fs, 1, &[pos(1), pos(2), pos(5)]);
    put(&mut fs, 1, &[pos(1), pos(5)]);
    put(&mut fs, 2, &[pos(2), pos(3), pos(4)]);
    put(&mut fs, 2, &[pos(1), pos(2), pos(3), pos(4), pos(6)]);
    put(&mut fs, 2, &[pos(2), pos(1)]);
    put(&mut fs, 2, &[pos(1), pos(2), pos(5), pos(7)]);
    fs
}

#[test]
fn similar_parts_longest_first() {
    let fs = with_lemmas();
    let cube = [pos(1), pos(2), pos(3), pos(4)];
    let r = fs.similar(&cube, 1);
    assert_eq!(r.len(), 3);
    assert_eq!(lits(&r[0]), vec![pos(2), pos(3), pos(4)]);
    let mut rest: Vec<Vec<u32>> = r[1..].iter().map(|c| c.as_slice().iter().map(|l| l.0).collect()).collect();
    rest.sort();
    assert_eq!(rest, vec![vec![pos(1).0, pos(2).0], vec![pos(2).0, pos(1).0]]);
}

#[test]
fn similar_keeps_three_of_the_longest() {
    let fs = with_lemmas();
    let cube = [pos(1), pos(2), pos(3), pos(4)];
    let r = fs.similar(&cube, 0);
    assert_eq!(r.len(), 3);
    let mut top: Vec<Vec<Lit>> = vec![lits(&r[0]), lits(&r[1])];
    top.sort_by_key(|c| c.iter().map(|l| l.0).collect::<Vec<u32>>());
    assert_eq!(top, vec![vec![pos(1), pos(2), pos(3)], vec![pos(2), pos(3), pos(4)]]);
    assert_eq!(r[2].len(), 2);
    assert!(fs.similar(&cube, 3).is_empty());
}

#[test]
fn frames_can_be_changed_in_place() {
    let mut fs = frames(2);
    fs.get_mut().push(Frame::new());
    assert_eq!(fs.len(), 3);
}

#[test]
fn a_lemma_keeps_its_counterexample_to_propagation() {
    let l: FrameLemma<u32> = FrameLemma::new(lv(&[pos(1)]), Some(3), Some(lv(&[neg(2), pos(4)])));
    assert_eq!(l.ctp().as_ref().map(|c| c.as_slice().to_vec()), Some(vec![neg(2), pos(4)]));
    let m: FrameLemma<u32> = FrameLemma::new(lv(&[pos(1)]), None, None);
    assert!(m.ctp().is_none());
}

#[test]
fn swap_remove_moves_the_last_lemma_and_its_obligation() {
    let mut f: Frame<u32> = Frame::new();
    f.push(FrameLemma::new(lv(&[pos(1)]), Some(10), None));
    f.push(FrameLemma::new(lv(&[pos(2)]), Some(20), None));
    f.push(FrameLemma::new(lv(&[pos(3)]), None, None));
    let r = f.swap_remove(0);
    assert_eq!(r.cube().as_slice(), &[pos(1)]);
    assert_eq!(*r.po(), Some(10));
    assert_eq!(cubes(&f), vec![vec![pos(3)], vec![pos(2)]]);
    assert_eq!(*f.get(0).po(), None);
    assert_eq!(*f.get(1).po(), Some(20));
}

fn subsumes(a: &[Lit], b: &[Lit]) -> bool {
    a.len() <= b.len() && a.iter().all(|l| b.contains(l))
}

fn reduced(fs: &Frames<u32>) -> bool {
    let all: Vec<(usize, usize, Vec<Lit>)> = (1..fs.len())
        .flat_map(|i| cubes(fs.frame(i)).into_iter().enumerate().map(move |(x, c)| (i, x, c)))
        .collect();
    all.iter().all(|(i, x, a)| all.iter().all(|(j, y, b)| !(i <= j && (i, x) != (j, y) && subsumes(b, a))))
}

#[test]
fn adding_lemmas_keeps_the_frames_reduced() {
    let mut fs = frames(4);
    let adds: [(usize, Vec<Lit>); 6] = [
        (1, vec![pos(1), pos(2), pos(3)]),
        (2, vec![pos(4), neg(5)]),
        (1, vec![pos(2), pos(3)]),
        (3, vec![pos(4), neg(5)]),
        (2, vec![pos(2)]),
        (3, vec![pos(6)]),
    ];
    for (frame, lemma) in adds.iter() {
        let frame = *frame;
        let mut sorted = lemma.clone();
        sorted.sort_by_key(|l| l.0);
        let blocked_above = (frame..fs.len()).any(|j| cubes(fs.frame(j)).iter().any(|b| subsumes(b, &sorted)));
        assert!(!blocked_above);
        let early = fs.early();
        let plan = fs.add_lemma(frame, lv(lemma), None, None, true, 3, true);
        assert!(reduced(&fs));
        assert_eq!(cubes(fs.frame(frame)).last(), Some(&sorted));
        assert!(fs.early() <= early);
        if plan.inv_found {
            assert!((1..frame).any(|i| fs.frame(i).is_empty()));
        }
    }
    assert_eq!(cubes(fs.frame(1)), Vec::<Vec<Lit>>::new());
    assert_eq!(cubes(fs.frame(2)), vec![vec![pos(2)]]);
    assert_eq!(cubes(fs.frame(3)), vec![vec![pos(4), neg(5)], vec![pos(6)]]);
}

#[test]
fn an_unsorted_lemma_moves_to_the_infinite_frame_sorted() {
    let mut fs = frames(2);
    fs.add_lemma(1, lv(&[pos(3), neg(1)]), None, None, true, 1, false);
    fs.add_lemma(1, lv(&[pos(5)]), None, None, true, 1, false);
    let clause = fs.add_inf_lemma(lv(&[pos(3), neg(1)]));
    assert_eq!(clause.as_slice().to_vec(), vec![pos(1), neg(3)]);
    assert_eq!(cubes(fs.frame(1)), vec![vec![pos(5)]]);
    assert_eq!(cubes(fs.inf()), vec![vec![neg(1), pos(3)]]);
}

#[test]
fn adding_a_lemma_keeps_the_obligations_of_the_others() {
    let mut fs = frames(3);
    fs.add_lemma(1, lv(&[pos(1), pos(2)]), Some(1), None, true, 2, false);
    fs.add_lemma(1, lv(&[pos(3)]), Some(2), None, true, 2, false);
    fs.add_lemma(1, lv(&[pos(4)]), Some(3), None, true, 2, false);
    // pos(1) subsumes the first lemma: it leaves, and the last takes its place
    fs.add_lemma(2, lv(&[pos(1)]), Some(4), None, true, 2, false);
    assert_eq!(cubes(fs.frame(1)), vec![vec![pos(4)], vec![pos(3)]]);
    assert_eq!(*fs.frame(1).get(0).po(), Some(3));
    assert_eq!(*fs.frame(1).get(1).po(), Some(2));
    assert_eq!(*fs.frame(2).get(0).po(), Some(4));
}

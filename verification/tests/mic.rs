use ric3::config::IC3Options;
use ric3::lit::{Lit, Var};
use ric3::litvec::LitVec;
use ric3::mic::{check_down_success, handle_down_success, DropVarParameter, DropVarSearch, MicType};
use ric3::push::LemmaPush;

fn pos(v: u32) -> Lit {
    Lit::new(Var(v), true)
}

fn opts(no_ctg: bool) -> IC3Options {
    IC3Options {
        dynamic: false,
        no_ctg,
        ctg_max: 3,
        ctg_limit: 1,
        ctp: false,
        inn: false,
        abs_cst: false,
        no_pred_prop: false,
        full_bad: false,
        abs_array: false,
    }
}

#[test]
fn parameters() {
    let p = DropVarParameter::new(1, 3, 2);
    let q = p.sub_level();
    assert_eq!((q.limit, q.max, q.level), (1, 3, 1));
    match MicType::from_options(&opts(false)) {
        MicType::DropVar(p) => assert_eq!((p.limit, p.max, p.level), (1, 3, 1)),
        _ => panic!(),
    }
    match MicType::from_options(&opts(true)) {
        MicType::DropVar(p) => assert_eq!((p.limit, p.max, p.level), (0, 0, 0)),
        _ => panic!(),
    }
}

#[test]
fn down_success_continues_after_tried_literals() {
    let cube = LitVec::new_from_slice(&[pos(1), pos(2), pos(3), pos(4)]);
    // literal 2 (index 1) dropped; the core kept 1, 3
    let core = LitVec::new_from_slice(&[pos(3), pos(1)]);
    assert!(check_down_success(&cube, 1, &core));
    let (c, i) = handle_down_success(&cube, 1, &core);
    assert_eq!(c.as_slice().to_vec(), vec![pos(1), pos(3)]);
    assert_eq!(i, 1);
    // a core holding the dropped literal fails the check
    let bad = LitVec::new_from_slice(&[pos(2)]);
    assert!(!check_down_success(&cube, 1, &bad));
}

#[test]
fn drop_var_search_runs_to_a_smaller_cube() {
    let mut s = DropVarSearch::new(LitVec::new_from_slice(&[pos(1), pos(2), pos(3)]));
    // first literal cannot be dropped
    let c = s.next_candidate().unwrap();
    assert_eq!(c.as_slice().to_vec(), vec![pos(2), pos(3)]);
    s.on_result(None);
    // dropping the second works, leaving 1, 3
    let c = s.next_candidate().unwrap();
    assert_eq!(c.as_slice().to_vec(), vec![pos(1), pos(3)]);
    s.on_result(Some(LitVec::new_from_slice(&[pos(1), pos(3)])));
    let c = s.next_candidate().unwrap();
    assert_eq!(c.as_slice().to_vec(), vec![pos(1)]);
    s.on_result(None);
    assert!(s.next_candidate().is_none());
    assert!(s.is_done());
    assert_eq!(s.into_cube().as_slice().to_vec(), vec![pos(1), pos(3)]);
}

#[test]
fn pushing_stops_at_the_first_failed_query() {
    let mut p = LemmaPush::new(1, 4, LitVec::new_from_slice(&[Lit::new(Var(1), true), Lit::new(Var(2), true)]));
    assert_eq!(p.next_query(), Some(2));
    p.on_result(true, Some(LitVec::new_from_slice(&[Lit::new(Var(1), true)])));
    assert_eq!(p.next_query(), Some(3));
    p.on_result(false, None);
    assert_eq!(p.next_query(), None);
    let (frame, cube) = p.result();
    assert_eq!(frame, 3);
    assert_eq!(cube.as_slice(), &[Lit::new(Var(1), true)]);
}

#[test]
fn pushing_past_the_last_frame() {
    let mut p = LemmaPush::new(2, 3, LitVec::new_from_slice(&[Lit::new(Var(5), false)]));
    assert_eq!(p.next_query(), Some(3));
    p.on_result(true, None);
    assert_eq!(p.next_query(), None);
    let (frame, cube) = p.result();
    assert_eq!(frame, 4);
    assert_eq!(cube.as_slice(), &[Lit::new(Var(5), false)]);
}

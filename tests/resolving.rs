use brainrust::resolver::resolve;
use brainrust::token::{BfError, Token};

use Token::{Decrement, Increment, LoopClose, LoopOpen, MoveLeft, MoveRight};

#[test]
fn resolve_single_loop() {
    let p = vec![LoopOpen(0), LoopClose(0)];
    assert_eq!(resolve(&p), Ok(vec![LoopOpen(1), LoopClose(0)]));
}

#[test]
fn resolve_nested_loops() {
    // [[-]>[+]<]
    let p = vec![
        LoopOpen(0),
        LoopOpen(0),
        Decrement,
        LoopClose(0),
        MoveRight,
        LoopOpen(0),
        Increment,
        LoopClose(0),
        MoveLeft,
        LoopClose(0),
    ];
    let r = resolve(&p).unwrap();
    assert_eq!(
        r,
        vec![
            LoopOpen(9),
            LoopOpen(3),
            Decrement,
            LoopClose(1),
            MoveRight,
            LoopOpen(7),
            Increment,
            LoopClose(5),
            MoveLeft,
            LoopClose(0),
        ]
    );
}

#[test]
fn resolved_partners_point_at_each_other() {
    let p = vec![LoopOpen(0), LoopOpen(0), LoopClose(0), LoopOpen(0), LoopClose(0), LoopClose(0)];
    let r = resolve(&p).unwrap();
    for (i, t) in r.iter().enumerate() {
        match *t {
            LoopOpen(j) => assert_eq!(r[j], LoopClose(i)),
            LoopClose(j) => assert_eq!(r[j], LoopOpen(i)),
            _ => {}
        }
    }
}

#[test]
fn resolve_ignores_placeholder_values() {
    let p = vec![LoopOpen(7), Increment, LoopClose(42)];
    assert_eq!(resolve(&p), Ok(vec![LoopOpen(2), Increment, LoopClose(0)]));
}

#[test]
fn resolve_empty_program() {
    assert_eq!(resolve(&Vec::new()), Ok(Vec::new()));
}

#[test]
fn resolve_unmatched_open() {
    assert_eq!(resolve(&vec![LoopOpen(0)]), Err(BfError::UnmatchedOpen(0)));
    assert_eq!(resolve(&vec![LoopOpen(0), LoopOpen(0), LoopClose(0)]), Err(BfError::UnmatchedOpen(0)));
}

#[test]
fn resolve_unmatched_close() {
    assert_eq!(resolve(&vec![LoopClose(0)]), Err(BfError::UnmatchedClose(0)));
    assert_eq!(resolve(&vec![LoopOpen(0), LoopClose(0), LoopClose(0)]), Err(BfError::UnmatchedClose(2)));
}

#[test]
fn resolve_close_before_open_fails() {
    assert_eq!(resolve(&vec![LoopClose(0), LoopOpen(0)]), Err(BfError::UnmatchedClose(0)));
}

#[test]
fn resolve_unmatched_close_after_start_does_not_fall_back() {
    assert_eq!(resolve(&vec![Increment, LoopClose(0)]), Err(BfError::UnmatchedClose(1)));
}

use rs_parliament::lockmachine::{LockMachine, LockOp, LockResult};
use rs_parliament::statemachine::StateMachine;

#[test]
fn lock_free_lock_succeeds() {
    let mut m = LockMachine::init_state();
    assert!(matches!(m.apply_op(&LockOp::TryLock(1, 42)), LockResult::Success));
}

#[test]
fn conflicting_lock_sequence() {
    // two TryLock(1, A) then TryLock(1, B): Success, Success (idempotent
    // owner), Fail
    let mut m = LockMachine::init_state();
    let a = 100;
    let b = 200;
    assert!(matches!(m.apply_op(&LockOp::TryLock(1, a)), LockResult::Success));
    assert!(matches!(m.apply_op(&LockOp::TryLock(1, a)), LockResult::Success));
    assert!(matches!(m.apply_op(&LockOp::TryLock(1, b)), LockResult::Fail));
}

#[test]
fn unlock_by_owner_releases() {
    let mut m = LockMachine::init_state();
    assert!(matches!(m.apply_op(&LockOp::TryLock(1, 7)), LockResult::Success));
    assert!(matches!(m.apply_op(&LockOp::TryUnlock(1, 7)), LockResult::Success));
    // released: someone else may take it now
    assert!(matches!(m.apply_op(&LockOp::TryLock(1, 8)), LockResult::Success));
}

#[test]
fn unlock_by_stranger_fails() {
    let mut m = LockMachine::init_state();
    assert!(matches!(m.apply_op(&LockOp::TryLock(1, 7)), LockResult::Success));
    assert!(matches!(m.apply_op(&LockOp::TryUnlock(1, 9)), LockResult::Fail));
    // still held by 7
    assert!(matches!(m.apply_op(&LockOp::TryLock(1, 9)), LockResult::Fail));
}

#[test]
fn unlock_unheld_fails() {
    let mut m = LockMachine::init_state();
    assert!(matches!(m.apply_op(&LockOp::TryUnlock(5, 7)), LockResult::Fail));
}

#[test]
fn independent_locks() {
    let mut m = LockMachine::init_state();
    assert!(matches!(m.apply_op(&LockOp::TryLock(1, 7)), LockResult::Success));
    assert!(matches!(m.apply_op(&LockOp::TryLock(2, 8)), LockResult::Success));
    assert!(matches!(m.apply_op(&LockOp::TryUnlock(1, 8)), LockResult::Fail));
    assert!(matches!(m.apply_op(&LockOp::TryUnlock(2, 8)), LockResult::Success));
}

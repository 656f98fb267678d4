use rs_parliament::idset::IdSet;
use rs_parliament::lockmachine::{LockMachine, LockOp, LockResult};
use rs_parliament::messages::{Addr, Message};
use rs_parliament::replica::{Replica, WINDOW};
use rs_parliament::statemachine::StateMachine;

type Msg = Message<LockOp, LockResult>;

fn new_replica() -> Replica<LockMachine> {
    Replica::new(&IdSet::from_ids(&vec![10, 11]))
}

fn client(port: u16) -> Addr {
    Addr::new("127.0.0.1", port)
}

#[test]
fn request_is_proposed_to_every_leader() {
    let mut r = new_replica();
    let (to_srv, to_cli) = r.handle_msg(&Msg::Request { cid: client(1), cmd: LockOp::TryLock(1, 42) });
    assert!(to_cli.is_empty());
    assert_eq!(to_srv.len(), 2);
    for (dest, m) in to_srv.iter() {
        assert!([10, 11].contains(dest));
        match m {
            Msg::Propose { slot, cmd } => {
                assert_eq!(*slot, 1);
                assert!(matches!(cmd, LockOp::TryLock(1, 42)));
            },
            _ => panic!("expected Propose"),
        }
    }
    assert_eq!(r.slot_in, 2);
    assert_eq!(r.slot_out, 1);
}

#[test]
fn decisions_apply_in_slot_order_despite_reordering() {
    let mut r = new_replica();
    // decisions arrive 3, 1, 2
    r.handle_msg(&Msg::Decision { slot: 3, cmd: LockOp::TryLock(1, 300) });
    assert_eq!(r.slot_out, 1);  // gap at 1: nothing ran
    r.handle_msg(&Msg::Decision { slot: 1, cmd: LockOp::TryLock(1, 100) });
    assert_eq!(r.slot_out, 2);  // slot 1 ran, gap at 2
    r.handle_msg(&Msg::Decision { slot: 2, cmd: LockOp::TryUnlock(1, 100) });
    assert_eq!(r.slot_out, 4);  // slots 2 and 3 ran back to back
    // the fold: lock(100), unlock(100), lock(300) leaves 300 holding lock 1
    let mut m = LockMachine { locks: r.state.locks };
    assert!(matches!(m.apply_op(&LockOp::TryLock(1, 300)), LockResult::Success));
    assert!(matches!(m.apply_op(&LockOp::TryLock(1, 999)), LockResult::Fail));
}

#[test]
fn duplicate_decision_changes_nothing() {
    let mut r = new_replica();
    r.handle_msg(&Msg::Decision { slot: 1, cmd: LockOp::TryLock(1, 100) });
    assert_eq!(r.slot_out, 2);
    // a slot, once decided, is immutable
    r.handle_msg(&Msg::Decision { slot: 1, cmd: LockOp::TryLock(1, 200) });
    assert_eq!(r.slot_out, 2);
    assert_eq!(r.log.len(), 1);
    let mut m = LockMachine { locks: r.state.locks };
    assert!(matches!(m.apply_op(&LockOp::TryLock(1, 100)), LockResult::Success));
}

#[test]
fn executed_proposal_replies_to_its_client() {
    let mut r = new_replica();
    let cid = client(7);
    r.handle_msg(&Msg::Request { cid: cid.clone(), cmd: LockOp::TryLock(1, 42) });
    let (_, to_cli) = r.handle_msg(&Msg::Decision { slot: 1, cmd: LockOp::TryLock(1, 42) });
    assert_eq!(to_cli.len(), 1);
    assert!(to_cli[0].0 == cid);
    match &to_cli[0].1 {
        Msg::Response { cid: c2, result } => {
            assert!(*c2 == cid);
            assert!(matches!(result, LockResult::Success));
        },
        _ => panic!("expected Response"),
    }
    // the in-flight proposal is retired: a duplicate decision draws no
    // second response
    let (_, again) = r.handle_msg(&Msg::Decision { slot: 1, cmd: LockOp::TryLock(1, 42) });
    assert!(again.is_empty());
}

#[test]
fn decision_beyond_the_gap_keeps_the_owed_response() {
    let mut r = new_replica();
    let ca = client(1);
    let cb = client(2);
    r.handle_msg(&Msg::Request { cid: ca.clone(), cmd: LockOp::TryLock(1, 1) });  // slot 1
    r.handle_msg(&Msg::Request { cid: cb.clone(), cmd: LockOp::TryLock(2, 2) });  // slot 2
    // the decision for slot 2 arrives first: nothing executes yet, and the
    // in-flight proposal for slot 2 must stay until its slot runs
    let (_, early) = r.handle_msg(&Msg::Decision { slot: 2, cmd: LockOp::TryLock(2, 2) });
    assert!(early.is_empty());
    assert_eq!(r.slot_out, 1);
    assert!(r.proposals.get(2).is_some());
    // once the gap fills, both slots execute and both clients are answered
    let (_, late) = r.handle_msg(&Msg::Decision { slot: 1, cmd: LockOp::TryLock(1, 1) });
    assert_eq!(r.slot_out, 3);
    assert_eq!(late.len(), 2);
    assert!(late[0].0 == ca);
    assert!(late[1].0 == cb);
    assert!(matches!(late[0].1, Msg::Response { result: LockResult::Success, .. }));
    assert!(matches!(late[1].1, Msg::Response { result: LockResult::Success, .. }));
    // and both proposals are now retired
    assert!(r.proposals.get(1).is_none());
    assert!(r.proposals.get(2).is_none());
}

#[test]
fn window_bounds_in_flight_slots() {
    let mut r = new_replica();
    let n = WINDOW + 6;
    for i in 0..n {
        r.handle_msg(&Msg::Request { cid: client(1000 + i as u16), cmd: LockOp::TryLock(i, 1) });
    }
    // only WINDOW slots assigned; the rest stay buffered
    assert_eq!(r.proposals.len() as u64, WINDOW);
    assert_eq!(r.requests.len() as u64, n - WINDOW);
    assert_eq!(r.slot_in, 1 + WINDOW);
    for (slot, _) in r.proposals.entries.iter() {
        assert!(*slot < r.slot_out + WINDOW);
    }
}

#[test]
fn resubmitted_identical_request_is_a_noop() {
    let mut r = new_replica();
    // fill the window so nothing further can be assigned
    for i in 0..WINDOW {
        r.handle_msg(&Msg::Request { cid: client(1000 + i as u16), cmd: LockOp::TryLock(i, 1) });
    }
    assert_eq!(r.requests.len(), 0);
    let cid = client(7);
    r.handle_msg(&Msg::Request { cid: cid.clone(), cmd: LockOp::TryLock(99, 9) });
    assert_eq!(r.requests.len(), 1);
    r.handle_msg(&Msg::Request { cid: cid.clone(), cmd: LockOp::TryLock(99, 9) });
    assert_eq!(r.requests.len(), 1);
    // a different command from the same client is a new attempt
    r.handle_msg(&Msg::Request { cid, cmd: LockOp::TryUnlock(99, 9) });
    assert_eq!(r.requests.len(), 2);
}

#[test]
fn freed_window_assigns_buffered_requests() {
    let mut r = new_replica();
    for i in 0..WINDOW + 2 {
        r.handle_msg(&Msg::Request { cid: client(1000 + i as u16), cmd: LockOp::TryLock(i, 1) });
    }
    assert_eq!(r.requests.len(), 2);
    // deciding slot 1 moves the window forward by one slot: exactly one
    // buffered request gets assigned, announced to both leaders
    let (to_srv, _) = r.handle_msg(&Msg::Decision { slot: 1, cmd: LockOp::TryLock(0, 1) });
    assert_eq!(r.slot_out, 2);
    assert_eq!(r.requests.len(), 1);
    assert_eq!(to_srv.len(), 2);
    assert!(matches!(to_srv[0].1, Msg::Propose { slot: 65, .. }));
}

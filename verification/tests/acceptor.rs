use rs_parliament::acceptor::Acceptor;
use rs_parliament::lockmachine::{LockOp, LockResult};
use rs_parliament::messages::{Ballot, Message};

type Msg = Message<LockOp, LockResult>;

#[test]
fn p1a_raises_promise_and_reports_accepted() {
    let mut acc: Acceptor<LockOp> = Acceptor::new(20);
    let b = Ballot::zero(10);
    let out = acc.handle_msg(&Msg::P1a { sender: 10, ballot: b });
    assert_eq!(acc.ballot, b);
    assert_eq!(out.len(), 1);
    assert_eq!(out[0].0, 10);
    match &out[0].1 {
        Msg::P1b { sender, ballot, proposals } => {
            assert_eq!(*sender, 20);
            assert_eq!(*ballot, b);
            assert!(proposals.is_empty());
        },
        _ => panic!("expected a P1b reply"),
    }
}

#[test]
fn p1a_with_lower_ballot_keeps_promise_but_still_replies() {
    let mut acc: Acceptor<LockOp> = Acceptor::new(20);
    let hi = Ballot { server: 11, idx: 3, is_bot: false };
    let lo = Ballot { server: 10, idx: 1, is_bot: false };
    acc.handle_msg(&Msg::P1a { sender: 11, ballot: hi });
    let out = acc.handle_msg(&Msg::P1a { sender: 10, ballot: lo });
    assert_eq!(acc.ballot, hi);
    assert_eq!(out.len(), 1);
    match &out[0].1 {
        Msg::P1b { ballot, .. } => assert_eq!(*ballot, hi),
        _ => panic!("expected a P1b reply"),
    }
}

#[test]
fn p2a_accepts_only_at_promised_ballot() {
    let mut acc: Acceptor<LockOp> = Acceptor::new(20);
    let b = Ballot::zero(10);
    acc.handle_msg(&Msg::P1a { sender: 10, ballot: b });
    let out = acc.handle_msg(&Msg::P2a { sender: 10, ballot: b, slot: 1, cmd: LockOp::TryLock(1, 42) });
    assert_eq!(out.len(), 1);
    match &out[0].1 {
        Msg::P2b { sender, ballot, slot } => {
            assert_eq!(*sender, 20);
            assert_eq!(*ballot, b);
            assert_eq!(*slot, 1);
        },
        _ => panic!("expected a P2b reply"),
    }
    assert_eq!(acc.accepted.len(), 1);
    // the P1b now reports the accepted triple
    let out2 = acc.handle_msg(&Msg::P1a { sender: 10, ballot: b });
    match &out2[0].1 {
        Msg::P1b { proposals, .. } => {
            assert_eq!(proposals.len(), 1);
            assert_eq!(proposals[0].0, 1);
            assert_eq!(proposals[0].1, b);
            assert!(matches!(proposals[0].2, LockOp::TryLock(1, 42)));
        },
        _ => panic!("expected a P1b reply"),
    }
}

#[test]
fn p2a_under_stale_ballot_is_refused_but_answered() {
    let mut acc: Acceptor<LockOp> = Acceptor::new(20);
    let hi = Ballot { server: 11, idx: 3, is_bot: false };
    let lo = Ballot::zero(10);
    acc.handle_msg(&Msg::P1a { sender: 11, ballot: hi });
    let out = acc.handle_msg(&Msg::P2a { sender: 10, ballot: lo, slot: 1, cmd: LockOp::TryLock(1, 42) });
    // nothing recorded, and the reply carries the higher promise so the
    // leader can detect the rejection
    assert_eq!(acc.accepted.len(), 0);
    match &out[0].1 {
        Msg::P2b { ballot, .. } => assert_eq!(*ballot, hi),
        _ => panic!("expected a P2b reply"),
    }
}

#[test]
fn other_messages_draw_no_reply() {
    let mut acc: Acceptor<LockOp> = Acceptor::new(20);
    let out = acc.handle_msg(&Msg::Decision { slot: 1, cmd: LockOp::TryLock(1, 1) });
    assert!(out.is_empty());
    let out2 = acc.handle_msg(&Msg::Tick);
    assert!(out2.is_empty());
}

#[test]
fn remove_before_truncates_low_slots_only() {
    let mut acc: Acceptor<LockOp> = Acceptor::new(20);
    let b = Ballot::zero(10);
    acc.handle_msg(&Msg::P1a { sender: 10, ballot: b });
    for slot in 1..=4u64 {
        acc.handle_msg(&Msg::P2a { sender: 10, ballot: b, slot, cmd: LockOp::TryLock(slot, 1) });
    }
    acc.remove_before(3);
    assert_eq!(acc.accepted.len(), 2);
    assert_eq!(acc.accepted.entries[0].0, 3);
    assert_eq!(acc.accepted.entries[1].0, 4);
    assert_eq!(acc.ballot, b);
}

use rs_parliament::idset::IdSet;
use rs_parliament::leader::Leader;
use rs_parliament::lockmachine::{LockOp, LockResult};
use rs_parliament::messages::{Ballot, Message};

type Msg = Message<LockOp, LockResult>;

fn ids(v: Vec<u64>) -> IdSet {
    IdSet::from_ids(&v)
}

fn new_leader() -> Leader<LockOp> {
    Leader::new(&ids(vec![20, 21, 22]), &ids(vec![0]), 10)
}

#[test]
fn starts_passive_at_zero_ballot() {
    let l = new_leader();
    assert!(!l.is_active);
    assert_eq!(l.ballot, Ballot::zero(10));
    assert_eq!(l.waitfor.ids, vec![20, 21, 22]);
}

#[test]
fn propose_while_passive_buffers_silently() {
    let mut l = new_leader();
    let out = l.handle_msg(&Msg::Propose { slot: 1, cmd: LockOp::TryLock(1, 42) });
    assert!(out.is_empty());
    assert_eq!(l.proposals.len(), 1);
}

#[test]
fn tick_rebroadcasts_p1a_when_pending() {
    let mut l = new_leader();
    // nothing pending: a tick stays silent
    assert!(l.handle_msg(&Msg::Tick).is_empty());
    l.handle_msg(&Msg::Propose { slot: 1, cmd: LockOp::TryLock(1, 42) });
    let out = l.handle_msg(&Msg::Tick);
    assert_eq!(out.len(), 3);
    let before = l.ballot;
    for (dest, m) in out.iter() {
        assert!([20, 21, 22].contains(dest));
        match m {
            Msg::P1a { sender, ballot } => {
                assert_eq!(*sender, 10);
                // the heartbeat never bumps the ballot
                assert_eq!(*ballot, before);
            },
            _ => panic!("expected P1a"),
        }
    }
    assert_eq!(l.ballot, before);
}

#[test]
fn phase_one_completion_opens_phase_two() {
    let mut l = new_leader();
    l.handle_msg(&Msg::Propose { slot: 1, cmd: LockOp::TryLock(1, 42) });
    let b = l.ballot;
    let out20 = l.handle_msg(&Msg::P1b { sender: 20, ballot: b, proposals: vec![] });
    assert!(out20.is_empty());
    assert!(!l.is_active);
    let out21 = l.handle_msg(&Msg::P1b { sender: 21, ballot: b, proposals: vec![] });
    assert!(out21.is_empty());
    let out22 = l.handle_msg(&Msg::P1b { sender: 22, ballot: b, proposals: vec![] });
    assert!(l.is_active);
    // one phase-2 round for the single pending slot
    assert_eq!(out22.len(), 3);
    for (dest, m) in out22.iter() {
        assert!([20, 21, 22].contains(dest));
        match m {
            Msg::P2a { sender, ballot, slot, cmd } => {
                assert_eq!(*sender, 10);
                assert_eq!(*ballot, b);
                assert_eq!(*slot, 1);
                assert!(matches!(cmd, LockOp::TryLock(1, 42)));
            },
            _ => panic!("expected P2a"),
        }
    }
}

#[test]
fn pmax_merge_adopts_highest_ballot_value() {
    let mut l = new_leader();
    let b = l.ballot;
    l.handle_msg(&Msg::Propose { slot: 5, cmd: LockOp::TryLock(5, 1) });
    let b_lo = Ballot { server: 9, idx: 1, is_bot: false };
    let b_hi = Ballot { server: 9, idx: 2, is_bot: false };
    // an acceptor reports a value already accepted for slot 5 under a real
    // ballot: it displaces the leader's own (bottom-ballot) proposal
    l.handle_msg(&Msg::P1b {
        sender: 20,
        ballot: b,
        proposals: vec![(5, b_lo, LockOp::TryLock(5, 2))],
    });
    // a lower or equal report never displaces a higher one
    l.handle_msg(&Msg::P1b {
        sender: 21,
        ballot: b,
        proposals: vec![(5, b_hi, LockOp::TryLock(5, 3)), (6, b_lo, LockOp::TryLock(6, 4))],
    });
    l.handle_msg(&Msg::P1b {
        sender: 22,
        ballot: b,
        proposals: vec![(5, b_lo, LockOp::TryLock(5, 2))],
    });
    let mut found5 = false;
    let mut found6 = false;
    for (slot, pc) in l.proposals.entries.iter() {
        if *slot == 5 {
            found5 = true;
            assert_eq!(pc.bal, b_hi);
            assert!(matches!(pc.cmd, LockOp::TryLock(5, 3)));
        }
        if *slot == 6 {
            found6 = true;
            assert!(matches!(pc.cmd, LockOp::TryLock(6, 4)));
        }
    }
    assert!(found5 && found6);
}

#[test]
fn quorum_of_p2bs_decides_and_announces() {
    let mut l = new_leader();
    l.handle_msg(&Msg::Propose { slot: 1, cmd: LockOp::TryLock(1, 42) });
    let b = l.ballot;
    for a in [20, 21, 22] {
        l.handle_msg(&Msg::P1b { sender: a, ballot: b, proposals: vec![] });
    }
    assert!(l.is_active);
    assert!(l.handle_msg(&Msg::P2b { sender: 20, ballot: b, slot: 1 }).is_empty());
    assert!(l.handle_msg(&Msg::P2b { sender: 21, ballot: b, slot: 1 }).is_empty());
    let out = l.handle_msg(&Msg::P2b { sender: 22, ballot: b, slot: 1 });
    assert_eq!(out.len(), 1);
    assert_eq!(out[0].0, 0);
    match &out[0].1 {
        Msg::Decision { slot, cmd } => {
            assert_eq!(*slot, 1);
            assert!(matches!(cmd, LockOp::TryLock(1, 42)));
        },
        _ => panic!("expected Decision"),
    }
    // the decided slot left the pending map
    assert_eq!(l.proposals.len(), 0);
}

#[test]
fn preemption_steps_back_and_rearms_higher() {
    let mut l = new_leader();
    l.handle_msg(&Msg::Propose { slot: 1, cmd: LockOp::TryLock(1, 42) });
    let b0 = l.ballot;
    // a second leader's ballot for the same round wins the tie break
    let other = Ballot::zero(11);
    assert!(b0 < other);
    let out = l.handle_msg(&Msg::P1b { sender: 20, ballot: other, proposals: vec![] });
    assert!(!l.is_active);
    // the leader adopted a still-higher ballot of its own
    assert!(l.ballot > b0);
    assert_eq!(l.ballot.server, 10);
    assert_eq!(l.ballot.idx, 1);
    // and opened a fresh phase-1 round
    assert_eq!(out.len(), 3);
    for (_, m) in out.iter() {
        match m {
            Msg::P1a { ballot, .. } => assert_eq!(*ballot, l.ballot),
            _ => panic!("expected P1a"),
        }
    }
    // a reply still in flight under the old ballot is now ignored
    let stale = l.handle_msg(&Msg::P1b { sender: 21, ballot: b0, proposals: vec![] });
    assert!(stale.is_empty());
    assert_eq!(l.ballot.idx, 1);
    assert!(!l.is_active);
}

#[test]
fn reactivation_resets_phase_two_wait_sets() {
    let mut l = new_leader();
    l.handle_msg(&Msg::Propose { slot: 1, cmd: LockOp::TryLock(1, 42) });
    let b0 = l.ballot;
    for a in [20, 21, 22] {
        l.handle_msg(&Msg::P1b { sender: a, ballot: b0, proposals: vec![] });
    }
    assert!(l.is_active);
    // two acceptances under the first ballot
    l.handle_msg(&Msg::P2b { sender: 20, ballot: b0, slot: 1 });
    l.handle_msg(&Msg::P2b { sender: 21, ballot: b0, slot: 1 });
    // preemption abandons the round; the pending command survives
    l.handle_msg(&Msg::P2b { sender: 22, ballot: Ballot::zero(11), slot: 1 });
    assert!(!l.is_active);
    let b1 = l.ballot;
    assert!(b0 < b1);
    for a in [20, 21, 22] {
        l.handle_msg(&Msg::P1b { sender: a, ballot: b1, proposals: vec![] });
    }
    assert!(l.is_active);
    // the phase-2 round reopened against the full acceptor set: the old
    // ballot's two acknowledgements count for nothing, so one acceptance
    // under the new ballot must not decide the slot
    assert_eq!(l.proposals.get(1).unwrap().waitfor.ids, vec![20, 21, 22]);
    let out = l.handle_msg(&Msg::P2b { sender: 22, ballot: b1, slot: 1 });
    assert!(out.is_empty());
    assert_eq!(l.proposals.len(), 1);
    // only a quorum counted entirely under the new ballot decides
    l.handle_msg(&Msg::P2b { sender: 20, ballot: b1, slot: 1 });
    let decided = l.handle_msg(&Msg::P2b { sender: 21, ballot: b1, slot: 1 });
    assert_eq!(decided.len(), 1);
    assert!(matches!(decided[0].1, Msg::Decision { slot: 1, .. }));
}

#[test]
fn ballot_never_decreases() {
    let mut l = new_leader();
    let mut last = l.ballot;
    l.handle_msg(&Msg::Propose { slot: 1, cmd: LockOp::TryLock(1, 42) });
    assert!(last <= l.ballot);
    last = l.ballot;
    l.handle_msg(&Msg::P1b { sender: 20, ballot: Ballot::zero(11), proposals: vec![] });
    assert!(last < l.ballot);
    last = l.ballot;
    l.handle_msg(&Msg::P2b { sender: 20, ballot: Ballot { server: 11, idx: 5, is_bot: false }, slot: 1 });
    assert!(last < l.ballot);
    last = l.ballot;
    l.handle_msg(&Msg::Tick);
    assert_eq!(last, l.ballot);
}

#[test]
fn remove_before_drops_low_pending_slots() {
    let mut l = new_leader();
    for s in 1..=4u64 {
        l.handle_msg(&Msg::Propose { slot: s, cmd: LockOp::TryLock(s, 1) });
    }
    l.remove_before(3);
    assert_eq!(l.proposals.len(), 2);
    assert_eq!(l.proposals.entries[0].0, 3);
    assert_eq!(l.proposals.entries[1].0, 4);
}

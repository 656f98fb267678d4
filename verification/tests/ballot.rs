use rs_parliament::messages::Ballot;
use std::cmp::Ordering;

#[test]
fn ballot_zero_and_bot() {
    let z = Ballot::zero(7);
    assert_eq!(z.server, 7);
    assert_eq!(z.idx, 0);
    assert!(!z.is_bot);
    let b = Ballot::bot(7);
    assert!(b.is_bot);
}

#[test]
fn ballot_next_increments_round() {
    let z = Ballot::zero(3);
    let n = z.next().unwrap();
    assert_eq!(n.server, 3);
    assert_eq!(n.idx, 1);
    assert!(!n.is_bot);
    assert!(z < n);
}

#[test]
fn ballot_next_exhausted() {
    let top = Ballot { server: 3, idx: u64::MAX, is_bot: false };
    assert!(top.next().is_none());
}

#[test]
fn ballot_equal_round_ordered_by_proposer() {
    let a = Ballot { server: 1, idx: 5, is_bot: false };
    let b = Ballot { server: 2, idx: 5, is_bot: false };
    assert!(a < b);
    assert!(b > a);
    assert_eq!(a.partial_cmp(&b), Some(Ordering::Less));
    assert_eq!(b.partial_cmp(&a), Some(Ordering::Greater));
}

#[test]
fn ballot_round_dominates_proposer() {
    let a = Ballot { server: 9, idx: 4, is_bot: false };
    let b = Ballot { server: 1, idx: 5, is_bot: false };
    assert!(a < b);
}

#[test]
fn ballot_bottom_below_everything() {
    let bot = Ballot::bot(5);
    let z = Ballot::zero(0);
    assert!(bot < z);
    assert_eq!(bot.partial_cmp(&z), Some(Ordering::Less));
}

#[test]
fn ballot_bottom_compares_equal_to_bottom() {
    let b1 = Ballot::bot(1);
    let b2 = Ballot::bot(2);
    assert_eq!(b1.partial_cmp(&b2), Some(Ordering::Equal));
}

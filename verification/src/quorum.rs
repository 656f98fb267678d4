use vstd::prelude::*;
use vstd::set_lib::lemma_len_subset;
use crate::acceptor::{acceptor_step, lemma_acceptor_no_conflicting_accepts, p2a_agree, Acceptor};
use crate::messages::{Ballot, Message};

verus! {

/// Two disjoint finite sets have a union of exactly the summed size.
proof fn lemma_disjoint_union_len(a: Set<u64>, b: Set<u64>)
    requires
        a.finite(),
        b.finite(),
        a.disjoint(b),
    ensures
        a.union(b).finite(),
        a.union(b).len() == a.len() + b.len(),
    decreases a.len(),
{
    if a.is_empty() {
        assert(a.union(b) =~= b);
    } else {
        let x = a.choose();
        assert(a.union(b).remove(x) =~= a.remove(x).union(b));
        lemma_disjoint_union_len(a.remove(x), b);
        assert(a.union(b) == a.union(b).remove(x).insert(x));
    }
}

/// Any two majorities of the same finite cluster share a member.
///
/// This is the pillar that single-decree safety stands on: a leader decides
/// a slot only after acceptances from more than half of the acceptors, so
/// the quorums behind any two decisions for one slot intersect in an
/// acceptor, and that acceptor's promise/accept discipline forbids it to
/// back two different commands for the slot under one ballot.
pub proof fn lemma_majorities_overlap(u: Set<u64>, a: Set<u64>, b: Set<u64>)
    requires
        u.finite(),
        a.subset_of(u),
        b.subset_of(u),
        a.len() + b.len() > u.len(),
    ensures
        exists|x: u64| a.contains(x) && b.contains(x),
{
    lemma_len_subset(a, u);
    lemma_len_subset(b, u);
    if !(exists|x: u64| a.contains(x) && b.contains(x)) {
        assert(a.disjoint(b));
        lemma_disjoint_union_len(a, b);
        lemma_len_subset(a.union(b), u);
    }
}

/// A set of `k` responders out of `n` acceptors is a majority when fewer
/// than `n / 2` acceptors are still missing: `k > n / 2`, so two such
/// response sets always overlap.
pub proof fn lemma_quorum_threshold(n: int, k1: int, k2: int)
    requires
        k1 > n / 2,
        k2 > n / 2,
    ensures
        k1 + k2 > n,
{
}

/// Splitting off a subset splits the cardinality.
proof fn lemma_split_len(u: Set<u64>, w: Set<u64>)
    requires
        u.finite(),
        w.subset_of(u),
    ensures
        u.difference(w).finite(),
        u.difference(w).len() == u.len() - w.len(),
{
    lemma_len_subset(w, u);
    lemma_disjoint_union_len(u.difference(w), w);
    assert(u.difference(w).union(w) =~= u);
}

/// The decision threshold gives overlapping quorums: a wait set starts at
/// the full acceptor cluster when its round opens (phase 1 on re-election,
/// phase 2 on activation or on a fresh proposal) and shrinks only on replies
/// carrying the round's own ballot, so when it has shrunk below half the
/// cluster, the acceptors heard from within that one round form a majority —
/// and the response sets behind any two such events share an acceptor.
pub proof fn lemma_decision_quorums_overlap(u: Set<u64>, w1: Set<u64>, w2: Set<u64>)
    requires
        u.finite(),
        w1.subset_of(u),
        w2.subset_of(u),
        w1.len() < u.len() / 2,
        w2.len() < u.len() / 2,
    ensures
        exists|x: u64| u.contains(x) && !w1.contains(x) && !w2.contains(x),
{
    let a = u.difference(w1);
    let b = u.difference(w2);
    lemma_split_len(u, w1);
    lemma_split_len(u, w2);
    lemma_majorities_overlap(u, a, b);
    let x = choose|x: u64| a.contains(x) && b.contains(x);
    assert(u.contains(x) && !w1.contains(x) && !w2.contains(x));
}

/// Acceptor `a`'s run (the run at `a`'s index) holds, at some point, the
/// value `(b, c)` accepted for slot `s`.
pub open spec fn accepted_in_run<C>(
    ids: Seq<u64>,
    states: Seq<Seq<Acceptor<C>>>,
    a: u64,
    b: Ballot,
    s: u64,
    c: C,
) -> bool {
    exists|i: int, t: int|
        0 <= i < ids.len() && ids[i] == a && 0 <= t < states[i].len() && (#[trigger] states[i][t]).accepted@.contains_key(s) && states[i][t].accepted@[s] == (b, c)
}

/// One acceptor cluster, one ballot, two majority-backed values for one
/// slot: they are the same command.
///
/// `ids` names the cluster; `states[i]`/`msgs[i]` is the run of acceptor
/// `ids[i]` (every state reached, and the messages that drove it, per the
/// acceptor step relation). The hypothesis that P2a messages pairwise agree
/// holds of protocol runs because a ballot belongs to one leader, which
/// sends one command per slot under it. This is single-decree safety within
/// a ballot; that competing ballots cannot decide conflicting values rests
/// additionally on the leaders' value-picking rule (the p-max merge over a
/// promised majority), which is not folded into this statement.
pub proof fn lemma_same_ballot_decisions_agree<C, R>(
    ids: Seq<u64>,
    states: Seq<Seq<Acceptor<C>>>,
    msgs: Seq<Seq<Message<C, R>>>,
    q1: Set<u64>,
    q2: Set<u64>,
    b: Ballot,
    s: u64,
    c1: C,
    c2: C,
)
    requires
        ids.no_duplicates(),
        states.len() == ids.len(),
        msgs.len() == ids.len(),
        forall|i: int| 0 <= i < ids.len() ==> (#[trigger] states[i]).len() == msgs[i].len() + 1,
        forall|i: int|
            0 <= i < ids.len() ==> (#[trigger] states[i])[0].accepted.entries@.len() == 0,
        forall|i: int, k: int|
            0 <= i < ids.len() && 0 <= k < msgs[i].len() ==> acceptor_step(
                #[trigger] states[i][k],
                msgs[i][k],
                states[i][k + 1],
            ),
        forall|i: int, k1: int, k2: int|
            0 <= i < ids.len() && 0 <= k1 < msgs[i].len() && 0 <= k2 < msgs[i].len() ==> p2a_agree(
                #[trigger] msgs[i][k1],
                #[trigger] msgs[i][k2],
            ),
        q1.subset_of(ids.to_set()),
        q2.subset_of(ids.to_set()),
        q1.len() + q2.len() > ids.len(),
        forall|a: u64| #[trigger] q1.contains(a) ==> accepted_in_run(ids, states, a, b, s, c1),
        forall|a: u64| #[trigger] q2.contains(a) ==> accepted_in_run(ids, states, a, b, s, c2),
    ensures
        c1 == c2,
{
    ids.unique_seq_to_set();
    lemma_majorities_overlap(ids.to_set(), q1, q2);
    let x = choose|x: u64| q1.contains(x) && q2.contains(x);
    assert(accepted_in_run(ids, states, x, b, s, c1));
    assert(accepted_in_run(ids, states, x, b, s, c2));
    let (i1, t1) = choose|i: int, t: int|
        0 <= i < ids.len() && ids[i] == x && 0 <= t < states[i].len() && (#[trigger] states[i][t]).accepted@.contains_key(s) && states[i][t].accepted@[s] == (b, c1);
    let (i2, t2) = choose|i: int, t: int|
        0 <= i < ids.len() && ids[i] == x && 0 <= t < states[i].len() && (#[trigger] states[i][t]).accepted@.contains_key(s) && states[i][t].accepted@[s] == (b, c2);
    assert(i1 == i2) by {
        if i1 != i2 {
            assert(ids[i1] != ids[i2]);
        }
    }
    lemma_acceptor_no_conflicting_accepts(states[i1], msgs[i1], t1, t2, s);
}

} // verus!

use vstd::prelude::*;
use crate::messages::{ballot_le, ballot_lt, Ballot, Message, ServerID};
use crate::value::Val;
use crate::vecmap::{entries_from, VecMap};

verus! {

/// A voting member of the cluster. It remembers the highest ballot it ever
/// promised (or adopted) and, per slot, the command it last accepted with
/// the ballot that accepted it.
pub struct Acceptor<C> {
    pub ballot: Ballot,
    pub accepted: VecMap<(Ballot, C)>,
    pub server_id: ServerID,
}

/// The triples an acceptor reports in a P1b: its whole accepted map, in
/// entry order.
pub open spec fn proposal_triples<C>(s: Seq<(u64, (Ballot, C))>) -> Seq<(u64, Ballot, C)> {
    Seq::new(s.len(), |i: int| (s[i].0, s[i].1.0, s[i].1.1))
}

/// How one delivered message changes an acceptor's state: a P1a may raise
/// the promise and nothing else, a P2a records its command exactly when its
/// ballot equals the promise, and every other message changes nothing.
pub open spec fn acceptor_step<C, R>(
    pre: Acceptor<C>,
    msg: Message<C, R>,
    post: Acceptor<C>,
) -> bool {
    match msg {
        Message::P1a { sender, ballot } => {
            &&& post.ballot == (if ballot_lt(pre.ballot, ballot) {
                ballot
            } else {
                pre.ballot
            })
            &&& post.accepted.entries@ == pre.accepted.entries@
            &&& post.server_id == pre.server_id
        },
        Message::P2a { sender, ballot, slot, cmd } => {
            &&& post.ballot == pre.ballot
            &&& post.server_id == pre.server_id
            &&& (if ballot == pre.ballot {
                post.accepted@ == pre.accepted@.insert(slot, (ballot, cmd))
            } else {
                post.accepted.entries@ == pre.accepted.entries@
            })
        },
        _ => {
            &&& post.ballot == pre.ballot
            &&& post.accepted.entries@ == pre.accepted.entries@
            &&& post.server_id == pre.server_id
        },
    }
}

impl<C> Acceptor<C> {
    /// An acceptor never holds an accepted entry above its promise.
    pub open spec fn wf(self) -> bool {
        &&& self.accepted.wf()
        &&& forall|s: u64| #[trigger]
            self.accepted@.contains_key(s) ==> ballot_le(self.accepted@[s].0, self.ballot)
    }
}

impl<C: Val> Acceptor<C> {
    pub fn new(my_id: ServerID) -> (r: Self)
        ensures
            r.wf(),
            r.ballot == (Ballot { server: my_id, idx: 0, is_bot: true }),
            r.accepted.entries@ =~= Seq::<(u64, (Ballot, C))>::empty(),
            r.server_id == my_id,
    {
        Acceptor { ballot: Ballot::bot(my_id), accepted: VecMap::new(), server_id: my_id }
    }

    /// Truncate history: drop every accepted entry for a slot below `slot`.
    /// The promise is untouched. The caller must know that no prepare will
    /// ever again need the dropped slots.
    pub fn remove_before(&mut self, slot: u64)
        requires
            old(self).wf(),
        ensures
            final(self).wf(),
            final(self).ballot == old(self).ballot,
            final(self).server_id == old(self).server_id,
            final(self).accepted.entries@ == entries_from(old(self).accepted.entries@, slot),
            forall|k: u64|
                #[trigger] final(self).accepted@.contains_key(k) <==> (old(
                    self).accepted@.contains_key(k) && k >= slot),
            forall|k: u64| #[trigger] final(self).accepted@.contains_key(k) ==> final(
                self).accepted@[k] == old(self).accepted@[k],
    {
        self.accepted.retain_from(slot);
    }

    /// Handle one delivered message.
    ///
    /// A P1a is answered with a P1b reporting the (possibly raised) promise
    /// and the full accepted map, whether or not the incoming ballot won; a
    /// P2a is answered with a P2b reporting the promise, which the sending
    /// leader compares to detect rejection. No other message draws a reply.
    #[verifier::loop_isolation(false)]
    pub fn handle_msg<R>(&mut self, msg: &Message<C, R>) -> (ret: Vec<(ServerID, Message<C, R>)>)
        requires
            old(self).wf(),
        ensures
            final(self).wf(),
            acceptor_step(*old(self), *msg, *final(self)),
            ballot_le(old(self).ballot, final(self).ballot),
            match *msg {
                Message::P1a { sender, ballot } => {
                    &&& ret@.len() == 1
                    &&& ret@[0].0 == sender
                    &&& (ret@[0].1 matches Message::P1b { sender: s2, ballot: b2, proposals }
                        && s2 == old(self).server_id && b2 == final(self).ballot && proposals@
                        == proposal_triples(old(self).accepted.entries@))
                },
                Message::P2a { sender, ballot, slot, cmd } => {
                    &&& ret@.len() == 1
                    &&& ret@[0].0 == sender
                    &&& ret@[0].1 == (Message::P2b::<C, R> {
                        sender: old(self).server_id,
                        ballot: final(self).ballot,
                        slot,
                    })
                },
                _ => ret@.len() == 0,
            },
    {
        let mut ret: Vec<(ServerID, Message<C, R>)> = Vec::new();
        match msg {
            Message::P1a { sender, ballot } => {
                if *ballot > self.ballot {
                    self.ballot = *ballot;
                }
                let mut proposals: Vec<(u64, Ballot, C)> = Vec::new();
                let n = self.accepted.len();
                let mut i: usize = 0;
                while i < n
                    invariant
                        n == self.accepted.entries@.len(),
                        0 <= i <= n,
                        proposals@.len() == i,
                        forall|j: int| 0 <= j < i ==> proposals@[j] == (
                            #[trigger] self.accepted.entries@[j].0,
                            self.accepted.entries@[j].1.0,
                            self.accepted.entries@[j].1.1,
                        ),
                    decreases n - i,
                {
                    let e = &self.accepted.entries[i];
                    let cmd = e.1.1.dup();
                    proposals.push((e.0, e.1.0, cmd));
                    i = i + 1;
                }
                proof {
                    assert(proposals@ =~= proposal_triples(old(self).accepted.entries@));
                }
                ret.push(
                    (
                        *sender,
                        Message::P1b {
                            sender: self.server_id,
                            ballot: self.ballot,
                            proposals,
                        },
                    ),
                );
            },
            Message::P2a { sender, ballot, slot, cmd } => {
                if *ballot == self.ballot {
                    let c = cmd.dup();
                    self.accepted.insert(*slot, (self.ballot, c));
                }
                ret.push(
                    (
                        *sender,
                        Message::P2b { sender: self.server_id, ballot: self.ballot, slot: *slot },
                    ),
                );
            },
            _ => {},
        }
        ret
    }
}

/// Over any sequence of delivered messages, an acceptor that starts fresh
/// keeps three facts at every point of the run: its promise never goes down;
/// every accepted entry sits at or below the promise (it never accepts under
/// a ballot lower than what it promised); and every accepted entry was
/// carried by some P2a delivered earlier in the run.
pub proof fn lemma_acceptor_run_safe<C, R>(states: Seq<Acceptor<C>>, msgs: Seq<Message<C, R>>)
    requires
        states.len() == msgs.len() + 1,
        states[0].accepted.entries@.len() == 0,
        forall|i: int|
            0 <= i < msgs.len() ==> acceptor_step(states[i], msgs[i], #[trigger] states[i + 1]),
    ensures
        forall|i: int, j: int|
            0 <= i <= j < states.len() ==> ballot_le(
                #[trigger] states[i].ballot,
                #[trigger] states[j].ballot,
            ),
        forall|i: int, s: u64|
            0 <= i < states.len() && #[trigger] states[i].accepted@.contains_key(s) ==> ballot_le(
                states[i].accepted@[s].0,
                states[i].ballot,
            ),
        forall|i: int, s: u64|
            0 <= i < states.len() && #[trigger] states[i].accepted@.contains_key(s) ==> exists|
                k: int,
            |
                0 <= k < i && (#[trigger] msgs[k] matches Message::P2a { sender, ballot, slot, cmd }
                    && slot == s && ballot == states[i].accepted@[s].0 && cmd
                    == states[i].accepted@[s].1),
    decreases msgs.len(),
{
    if msgs.len() == 0 {
        assert(states[0].accepted@ =~= Map::<u64, (Ballot, C)>::empty());
    } else {
        let n = msgs.len() as int;
        lemma_acceptor_run_safe(states.drop_last(), msgs.drop_last());
        assert forall|i: int| 0 <= i < n - 1 implies acceptor_step(
            states.drop_last()[i],
            msgs.drop_last()[i],
            #[trigger] states.drop_last()[i + 1],
        ) by {
            assert(acceptor_step(states[i], msgs[i], states[i + 1]));
        }
        let pre = states[n - 1];
        let post = states[n];
        let m = msgs[n - 1];
        assert(acceptor_step(pre, m, post));
        // restate the induction hypothesis over the full sequences
        assert forall|i: int, j: int| 0 <= i <= j < n implies ballot_le(
            #[trigger] states[i].ballot,
            #[trigger] states[j].ballot,
        ) by {
            assert(states.drop_last()[i] == states[i]);
            assert(states.drop_last()[j] == states[j]);
            assert(ballot_le(states.drop_last()[i].ballot, states.drop_last()[j].ballot));
        }
        assert forall|i: int, s: u64|
            0 <= i < n && #[trigger] states[i].accepted@.contains_key(s) implies ballot_le(
            states[i].accepted@[s].0,
            states[i].ballot,
        ) && (exists|k: int|
            0 <= k < i && (#[trigger] msgs[k] matches Message::P2a { sender, ballot, slot, cmd }
                && slot == s && ballot == states[i].accepted@[s].0 && cmd
                == states[i].accepted@[s].1)) by {
            assert(states.drop_last()[i] == states[i]);
            assert(states.drop_last()[i].accepted@.contains_key(s));
            let k = choose|k: int|
                0 <= k < i && (#[trigger] msgs.drop_last()[k] matches Message::P2a {
                    sender,
                    ballot,
                    slot,
                    cmd,
                } && slot == s && ballot == states.drop_last()[i].accepted@[s].0 && cmd
                    == states.drop_last()[i].accepted@[s].1);
            assert(msgs.drop_last()[k] == msgs[k]);
        }
        // extend to the new last state
        assert forall|i: int| 0 <= i <= n implies ballot_le(
            #[trigger] states[i].ballot,
            states[n].ballot,
        ) by {
            if i < n {
                assert(ballot_le(states[i].ballot, pre.ballot));
                assert(ballot_le(pre.ballot, post.ballot));
            }
        }
        assert forall|s: u64| #[trigger] post.accepted@.contains_key(s) implies ballot_le(
            post.accepted@[s].0,
            post.ballot,
        ) && (exists|k: int|
            0 <= k < n && (#[trigger] msgs[k] matches Message::P2a { sender, ballot, slot, cmd }
                && slot == s && ballot == post.accepted@[s].0 && cmd
                == post.accepted@[s].1)) by {
            match m {
                Message::P2a { sender, ballot, slot, cmd } => {
                    if ballot == pre.ballot && s == slot {
                        assert(0 <= n - 1 < n && (msgs[n - 1] matches Message::P2a {
                            sender: se2,
                            ballot: b2,
                            slot: s2,
                            cmd: c2,
                        } && s2 == s && b2 == post.accepted@[s].0 && c2 == post.accepted@[s].1));
                    } else {
                        if ballot == pre.ballot {
                            assert(post.accepted@ == pre.accepted@.insert(slot, (ballot, cmd)));
                            assert(pre.accepted@.contains_key(s) && post.accepted@[s]
                                == pre.accepted@[s]);
                        } else {
                            assert(post.accepted@ == pre.accepted@);
                        }
                        assert(ballot_le(pre.accepted@[s].0, pre.ballot));
                        assert(ballot_le(pre.ballot, post.ballot));
                    }
                },
                _ => {
                    assert(post.accepted@ == pre.accepted@);
                    assert(ballot_le(pre.accepted@[s].0, pre.ballot));
                    assert(ballot_le(pre.ballot, post.ballot));
                },
            }
        }
    }
}

/// Two P2a messages agree when, carrying the same ballot and the same slot,
/// they carry the same command. Any pair of messages where one is not a P2a
/// agrees trivially.
pub open spec fn p2a_agree<C, R>(m1: Message<C, R>, m2: Message<C, R>) -> bool {
    match (m1, m2) {
        (
            Message::P2a { sender: se1, ballot: b1, slot: s1, cmd: c1 },
            Message::P2a { sender: se2, ballot: b2, slot: s2, cmd: c2 },
        ) => b1 == b2 && s1 == s2 ==> c1 == c2,
        _ => true,
    }
}

/// No acceptor state in a run holds two different commands for one slot
/// under one ballot, provided the run's P2a messages pairwise agree: the
/// protocol has each ballot belong to one leader, which sends a single
/// command per slot under it, so deliveries (with any duplication and
/// reordering) satisfy that hypothesis.
pub proof fn lemma_acceptor_no_conflicting_accepts<C, R>(
    states: Seq<Acceptor<C>>,
    msgs: Seq<Message<C, R>>,
    i: int,
    j: int,
    s: u64,
)
    requires
        states.len() == msgs.len() + 1,
        states[0].accepted.entries@.len() == 0,
        forall|k: int|
            0 <= k < msgs.len() ==> acceptor_step(states[k], msgs[k], #[trigger] states[k + 1]),
        forall|k1: int, k2: int|
            0 <= k1 < msgs.len() && 0 <= k2 < msgs.len() ==> p2a_agree(
                #[trigger] msgs[k1],
                #[trigger] msgs[k2],
            ),
        0 <= i < states.len(),
        0 <= j < states.len(),
        states[i].accepted@.contains_key(s),
        states[j].accepted@.contains_key(s),
        states[i].accepted@[s].0 == states[j].accepted@[s].0,
    ensures
        states[i].accepted@[s].1 == states[j].accepted@[s].1,
{
    lemma_acceptor_run_safe(states, msgs);
    let k1 = choose|k: int|
        0 <= k < i && (#[trigger] msgs[k] matches Message::P2a { sender, ballot, slot, cmd } && slot
            == s && ballot == states[i].accepted@[s].0 && cmd == states[i].accepted@[s].1);
    let k2 = choose|k: int|
        0 <= k < j && (#[trigger] msgs[k] matches Message::P2a { sender, ballot, slot, cmd } && slot
            == s && ballot == states[j].accepted@[s].0 && cmd == states[j].accepted@[s].1);
    assert(p2a_agree(msgs[k1], msgs[k2]));
}

} // verus!

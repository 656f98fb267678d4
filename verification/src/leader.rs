use vstd::prelude::*;
use crate::idset::{seq_remove_id, IdSet};
use crate::messages::{ballot_le, ballot_lt, Ballot, Message, ServerID};
use crate::value::Val;
use crate::vecmap::{entries_from, seq_to_map, VecMap};

verus! {

/// One not-yet-decided command a leader is driving: the ballot it was
/// learned under (bottom for a fresh client proposal, the reporting ballot
/// for a value adopted from a P1b), the command, and the acceptors whose
/// acceptance for it is still awaited.
pub struct PendingCmd<C> {
    pub bal: Ballot,
    pub cmd: C,
    pub waitfor: IdSet,
}

/// A leader combines the classical scout (phase 1) and commander (phase 2)
/// roles: one ballot governs every slot it currently manages. It starts
/// Passive at its zero ballot with a phase-1 round implicitly in flight
/// (`waitfor` holding every acceptor).
pub struct Leader<C> {
    pub acceptors: IdSet,
    pub replicas: IdSet,
    pub waitfor: IdSet,
    pub is_active: bool,
    pub ballot: Ballot,
    pub proposals: VecMap<PendingCmd<C>>,
    pub server_id: ServerID,
}

/// A phase-2 round for one slot: a P2a to every acceptor, in acceptor order.
pub open spec fn p2a_round<C, R>(
    accs: Seq<u64>,
    me: ServerID,
    bal: Ballot,
    slot: u64,
    cmd: C,
) -> Seq<(ServerID, Message<C, R>)> {
    Seq::new(accs.len(), |i: int| (accs[i], Message::P2a { sender: me, ballot: bal, slot, cmd }))
}

/// A phase-1 round: a P1a to every acceptor, in acceptor order.
pub open spec fn p1a_round<C, R>(accs: Seq<u64>, me: ServerID, bal: Ballot) -> Seq<
    (ServerID, Message<C, R>),
> {
    Seq::new(accs.len(), |i: int| (accs[i], Message::P1a { sender: me, ballot: bal }))
}

/// The decision for one slot announced to every replica, in replica order.
pub open spec fn decision_round<C, R>(reps: Seq<u64>, slot: u64, cmd: C) -> Seq<
    (ServerID, Message<C, R>),
> {
    Seq::new(reps.len(), |i: int| (reps[i], Message::Decision { slot, cmd }))
}

/// Phase-2 rounds for every pending entry, in entry order.
pub open spec fn p2a_burst<C, R>(
    entries: Seq<(u64, PendingCmd<C>)>,
    accs: Seq<u64>,
    me: ServerID,
    bal: Ballot,
) -> Seq<(ServerID, Message<C, R>)>
    decreases entries.len(),
{
    if entries.len() == 0 {
        Seq::empty()
    } else {
        p2a_burst(entries.drop_last(), accs, me, bal) + p2a_round(
            accs,
            me,
            bal,
            entries.last().0,
            entries.last().1.cmd,
        )
    }
}

/// The ballot/command part of a pending map, with the wait sets stripped.
pub open spec fn pending_bc<C>(m: VecMap<PendingCmd<C>>) -> Map<u64, (Ballot, C)> {
    Map::new(|k: u64| m@.contains_key(k), |k: u64| (m@[k].bal, m@[k].cmd))
}

/// The paxos p-max rule, folded left over the reported triples: for each
/// slot keep the highest-ballot value seen, counting the value already
/// pending locally; a report only displaces it when its ballot is strictly
/// higher.
pub open spec fn pmax_merge<C>(m: Map<u64, (Ballot, C)>, inc: Seq<(u64, Ballot, C)>) -> Map<
    u64,
    (Ballot, C),
>
    decreases inc.len(),
{
    if inc.len() == 0 {
        m
    } else {
        let m1 = pmax_merge(m, inc.drop_last());
        let t = inc.last();
        if !m1.contains_key(t.0) || ballot_lt(m1[t.0].0, t.1) {
            m1.insert(t.0, (t.1, t.2))
        } else {
            m1
        }
    }
}

impl<C> Leader<C> {
    pub open spec fn wf(self) -> bool {
        &&& self.acceptors.wf()
        &&& self.replicas.wf()
        &&& self.waitfor.wf()
        &&& self.proposals.wf()
        &&& self.waitfor.to_set().subset_of(self.acceptors.to_set())
        &&& forall|s: u64| #[trigger]
            self.proposals@.contains_key(s) ==> self.proposals@[s].waitfor.wf()
                && self.proposals@[s].waitfor.to_set().subset_of(self.acceptors.to_set())
        &&& self.ballot.server == self.server_id
        &&& !self.ballot.is_bot
    }
}

impl<C: Val> Leader<C> {
    /// A fresh leader: Passive, at its zero ballot, waiting on a promise
    /// from every acceptor, with nothing pending. The peer sets are a
    /// snapshot taken at start-up; membership never changes at runtime.
    pub fn new(acceptors: &IdSet, replicas: &IdSet, my_id: ServerID) -> (r: Self)
        requires
            acceptors.wf(),
            replicas.wf(),
        ensures
            r.wf(),
            r.acceptors@ == acceptors@,
            r.replicas@ == replicas@,
            r.waitfor@ == acceptors@,
            r.is_active == false,
            r.ballot == (Ballot { server: my_id, idx: 0, is_bot: false }),
            r.proposals.entries@ =~= Seq::<(u64, PendingCmd<C>)>::empty(),
            r.server_id == my_id,
    {
        Leader {
            acceptors: acceptors.dup(),
            replicas: replicas.dup(),
            waitfor: acceptors.dup(),
            is_active: false,
            ballot: Ballot::zero(my_id),
            proposals: VecMap::new(),
            server_id: my_id,
        }
    }

    /// Truncate history: drop every pending entry for a slot below `slot`.
    pub fn remove_before(&mut self, slot: u64)
        requires
            old(self).wf(),
        ensures
            final(self).wf(),
            final(self).ballot == old(self).ballot,
            final(self).is_active == old(self).is_active,
            final(self).server_id == old(self).server_id,
            final(self).acceptors@ == old(self).acceptors@,
            final(self).replicas@ == old(self).replicas@,
            final(self).waitfor@ == old(self).waitfor@,
            final(self).proposals.entries@ == entries_from(old(self).proposals.entries@, slot),
            forall|k: u64|
                #[trigger] final(self).proposals@.contains_key(k) <==> (old(
                    self).proposals@.contains_key(k) && k >= slot),
            forall|k: u64| #[trigger] final(self).proposals@.contains_key(k) ==> final(
                self).proposals@[k] == old(self).proposals@[k],
    {
        self.proposals.retain_from(slot);
    }

    /// React to a reply that carries ballot `b`: when `b` is above the
    /// current ballot some other leader holds a higher promise, so step back
    /// to Passive, advance to the successor of the current ballot, and open
    /// a fresh phase-1 round with every acceptor. A reply at or below the
    /// current ballot is stale and changes nothing.
    #[verifier::loop_isolation(false)]
    pub fn preempted<R>(&mut self, b: &Ballot) -> (r: Vec<(ServerID, Message<C, R>)>)
        requires
            old(self).wf(),
            // exhaustion of the round counter is fatal and excluded: only a
            // reply that actually preempts needs a successor ballot
            ballot_lt(old(self).ballot, *b) ==> old(self).ballot.idx < u64::MAX,
        ensures
            final(self).wf(),
            ballot_le(old(self).ballot, final(self).ballot),
            final(self).server_id == old(self).server_id,
            final(self).acceptors@ == old(self).acceptors@,
            final(self).replicas@ == old(self).replicas@,
            final(self).proposals == old(self).proposals,
            if ballot_lt(old(self).ballot, *b) {
                &&& final(self).is_active == false
                &&& final(self).ballot == (Ballot {
                    server: old(self).ballot.server,
                    idx: (old(self).ballot.idx + 1) as u64,
                    is_bot: false,
                })
                &&& final(self).waitfor@ == old(self).acceptors@
                &&& r@ == p1a_round::<C, R>(
                    old(self).acceptors@,
                    old(self).server_id,
                    final(self).ballot,
                )
            } else {
                &&& *final(self) == *old(self)
                &&& r@.len() == 0
            },
    {
        if self.ballot < *b {
            self.is_active = false;
            self.ballot = match self.ballot.next() {
                Some(nb) => nb,
                None => vstd::pervasive::unreached(),
            };
            self.waitfor = self.acceptors.dup();
            let mut r: Vec<(ServerID, Message<C, R>)> = Vec::new();
            let ghost round = p1a_round::<C, R>(self.acceptors@, self.server_id, self.ballot);
            let n = self.acceptors.len();
            let mut i: usize = 0;
            while i < n
                invariant
                    0 <= i <= n,
                    r@ == round.take(i as int),
                decreases n - i,
            {
                let a = self.acceptors.at(i);
                r.push((a, Message::P1a { sender: self.server_id, ballot: self.ballot }));
                proof {
                    assert(r@ =~= round.take(i + 1));
                }
                i = i + 1;
            }
            proof {
                assert(round.take(n as int) == round);
            }
            r
        } else {
            Vec::new()
        }
    }
}

/// What preemption by a higher ballot leaves behind: Passive, the successor
/// ballot, a fresh phase-1 round with every acceptor, pending commands kept.
pub open spec fn preempt_post<C, R>(
    pre: Leader<C>,
    post: Leader<C>,
    out: Seq<(ServerID, Message<C, R>)>,
) -> bool {
    &&& post.is_active == false
    &&& post.ballot == (Ballot {
        server: pre.ballot.server,
        idx: (pre.ballot.idx + 1) as u64,
        is_bot: false,
    })
    &&& post.waitfor@ == pre.acceptors@
    &&& post.proposals == pre.proposals
    &&& out == p1a_round::<C, R>(pre.acceptors@, pre.server_id, post.ballot)
}

impl<C: Val> Leader<C> {
    /// Handle one delivered message.
    ///
    /// `Propose` records the command (under the bottom ballot, awaiting every
    /// acceptor) and, when Active, opens its phase-2 round at once. A `P1b`
    /// matching the current ballot while Passive merges the reported values
    /// by the p-max rule and retires the sender from the phase-1 wait set;
    /// on a majority the leader turns Active and opens a phase-2 round for
    /// everything pending, each against the full acceptor set — wait sets
    /// left over from rounds under earlier ballots are reset, so a slot's
    /// acceptance quorum is never mixed from two ballots. A `P2b` matching
    /// the current ballot while Active
    /// retires the sender from that slot's wait set; on a majority the slot
    /// is decided: announced to every replica and dropped from the pending
    /// map. A P1b or P2b carrying a higher ballot preempts the leader
    /// instead, and a stale one changes nothing. `Tick` re-broadcasts P1a
    /// whenever something is pending, to recover from lost replies; it never
    /// changes the ballot.
    #[verifier::loop_isolation(false)]
    #[verifier::rlimit(60)]
    pub fn handle_msg<R>(&mut self, msg: &Message<C, R>) -> (ret: Vec<(ServerID, Message<C, R>)>)
        requires
            old(self).wf(),
            // exhaustion of the round counter is fatal and excluded: only a
            // reply whose higher ballot would force a re-election needs the
            // successor of the current ballot to exist
            match *msg {
                Message::P1b { sender, ballot, proposals } => ballot_lt(old(self).ballot, ballot)
                    ==> old(self).ballot.idx < u64::MAX,
                Message::P2b { sender, ballot, slot } => ballot_lt(old(self).ballot, ballot)
                    ==> old(self).ballot.idx < u64::MAX,
                _ => true,
            },
        ensures
            final(self).wf(),
            ballot_le(old(self).ballot, final(self).ballot),
            final(self).server_id == old(self).server_id,
            final(self).acceptors@ == old(self).acceptors@,
            final(self).replicas@ == old(self).replicas@,
            match *msg {
                Message::Propose { slot, cmd } => {
                    &&& final(self).ballot == old(self).ballot
                    &&& final(self).is_active == old(self).is_active
                    &&& final(self).waitfor@ == old(self).waitfor@
                    &&& forall|k: u64|
                        #[trigger] final(self).proposals@.contains_key(k) <==> (old(
                            self).proposals@.contains_key(k) || k == slot)
                    &&& final(self).proposals@[slot].bal.is_bot
                    &&& final(self).proposals@[slot].cmd == cmd
                    &&& final(self).proposals@[slot].waitfor@ == old(self).acceptors@
                    &&& forall|k: u64|
                        #[trigger] final(self).proposals@.contains_key(k) && k != slot ==> final(
                            self).proposals@[k] == old(self).proposals@[k]
                    &&& (if old(self).is_active {
                        ret@ == p2a_round::<C, R>(
                            old(self).acceptors@,
                            old(self).server_id,
                            old(self).ballot,
                            slot,
                            cmd,
                        )
                    } else {
                        ret@.len() == 0
                    })
                },
                Message::P1b { sender, ballot, proposals } => {
                    if ballot == old(self).ballot && !old(self).is_active {
                        &&& final(self).ballot == old(self).ballot
                        &&& pending_bc(final(self).proposals) == pmax_merge(
                            pending_bc(old(self).proposals),
                            proposals@,
                        )
                        &&& forall|k: u64|
                            #[trigger] final(self).proposals@.contains_key(k) ==> ((old(
                                self).proposals@.contains_key(k) && final(self).proposals@[k]
                                == old(self).proposals@[k]) || final(self).proposals@[k].waitfor@
                                == old(self).acceptors@)
                        &&& (if seq_remove_id(old(self).waitfor@, sender).len() < old(
                            self,
                        ).acceptors@.len() / 2 {
                            &&& final(self).is_active == true
                            &&& final(self).waitfor@.len() == 0
                            &&& forall|k: u64|
                                #[trigger] final(self).proposals@.contains_key(k) ==> final(
                                    self).proposals@[k].waitfor@ == old(self).acceptors@
                            &&& ret@ == p2a_burst::<C, R>(
                                final(self).proposals.entries@,
                                old(self).acceptors@,
                                old(self).server_id,
                                old(self).ballot,
                            )
                        } else {
                            &&& final(self).is_active == false
                            &&& final(self).waitfor@ == seq_remove_id(old(self).waitfor@, sender)
                            &&& ret@.len() == 0
                        })
                    } else if ballot_lt(old(self).ballot, ballot) {
                        preempt_post(*old(self), *final(self), ret@)
                    } else {
                        *final(self) == *old(self) && ret@.len() == 0
                    }
                },
                Message::P2b { sender, ballot, slot } => {
                    if ballot == old(self).ballot && old(self).is_active && old(
                        self,
                    ).proposals@.contains_key(slot) {
                        let waitrest = seq_remove_id(old(self).proposals@[slot].waitfor@, sender);
                        &&& final(self).ballot == old(self).ballot
                        &&& final(self).is_active == true
                        &&& final(self).waitfor@ == old(self).waitfor@
                        &&& (if waitrest.len() < old(self).acceptors@.len() / 2 {
                            &&& forall|k: u64|
                                #[trigger] final(self).proposals@.contains_key(k) <==> (old(
                                    self).proposals@.contains_key(k) && k != slot)
                            &&& forall|k: u64|
                                #[trigger] final(self).proposals@.contains_key(k) ==> final(
                                    self).proposals@[k] == old(self).proposals@[k]
                            &&& ret@ == decision_round::<C, R>(
                                old(self).replicas@,
                                slot,
                                old(self).proposals@[slot].cmd,
                            )
                        } else {
                            &&& forall|k: u64|
                                #[trigger] final(self).proposals@.contains_key(k) <==> old(
                                    self).proposals@.contains_key(k)
                            &&& forall|k: u64|
                                #[trigger] final(self).proposals@.contains_key(k) && k != slot
                                    ==> final(self).proposals@[k] == old(self).proposals@[k]
                            &&& final(self).proposals@[slot].bal == old(self).proposals@[slot].bal
                            &&& final(self).proposals@[slot].cmd == old(self).proposals@[slot].cmd
                            &&& final(self).proposals@[slot].waitfor@ == waitrest
                            &&& ret@.len() == 0
                        })
                    } else if ballot_lt(old(self).ballot, ballot) {
                        preempt_post(*old(self), *final(self), ret@)
                    } else {
                        *final(self) == *old(self) && ret@.len() == 0
                    }
                },
                Message::Tick => {
                    &&& *final(self) == *old(self)
                    &&& (if old(self).proposals.entries@.len() > 0 {
                        ret@ == p1a_round::<C, R>(
                            old(self).acceptors@,
                            old(self).server_id,
                            old(self).ballot,
                        )
                    } else {
                        ret@.len() == 0
                    })
                },
                _ => *final(self) == *old(self) && ret@.len() == 0,
            },
    {
        let mut ret: Vec<(ServerID, Message<C, R>)> = Vec::new();
        match msg {
            Message::Propose { slot, cmd } => {
                self.proposals.insert(
                    *slot,
                    PendingCmd {
                        bal: Ballot::bot(self.server_id),
                        cmd: cmd.dup(),
                        waitfor: self.acceptors.dup(),
                    },
                );
                if self.is_active {
                    let ghost round = p2a_round::<C, R>(
                        self.acceptors@,
                        self.server_id,
                        self.ballot,
                        *slot,
                        *cmd,
                    );
                    let na = self.acceptors.len();
                    let mut j: usize = 0;
                    while j < na
                        invariant
                            0 <= j <= na,
                            ret@ == round.take(j as int),
                        decreases na - j,
                    {
                        let a = self.acceptors.at(j);
                        let c = cmd.dup();
                        ret.push(
                            (
                                a,
                                Message::P2a {
                                    sender: self.server_id,
                                    ballot: self.ballot,
                                    slot: *slot,
                                    cmd: c,
                                },
                            ),
                        );
                        proof {
                            assert(ret@ =~= round.take(j + 1));
                        }
                        j = j + 1;
                    }
                    proof {
                        assert(round.take(na as int) == round);
                    }
                }
            },
            Message::P1b { sender, ballot, proposals } => {
                if *ballot == self.ballot && !self.is_active {
                    let ghost bc0 = pending_bc(old(self).proposals);
                    let n = proposals.len();
                    let mut i: usize = 0;
                    while i < n
                        invariant
                            0 <= i <= n,
                            n == proposals@.len(),
                            self.proposals.wf(),
                            pending_bc(self.proposals) == pmax_merge(
                                bc0,
                                proposals@.take(i as int),
                            ),
                            forall|k: u64|
                                #[trigger] self.proposals@.contains_key(k) ==> ((old(
                                    self).proposals@.contains_key(k) && self.proposals@[k] == old(
                                    self).proposals@[k]) || (self.proposals@[k].waitfor.wf()
                                    && self.proposals@[k].waitfor@ == old(self).acceptors@)),
                            self.ballot == old(self).ballot,
                            self.is_active == old(self).is_active,
                            self.waitfor == old(self).waitfor,
                            self.acceptors == old(self).acceptors,
                            self.replicas == old(self).replicas,
                            self.server_id == old(self).server_id,
                        decreases n - i,
                    {
                        let t_slot = proposals[i].0;
                        let t_bal = proposals[i].1;
                        let replace = match self.proposals.get(t_slot) {
                            Some(p) => p.bal < t_bal,
                            None => true,
                        };
                        if replace {
                            let c = proposals[i].2.dup();
                            self.proposals.insert(
                                t_slot,
                                PendingCmd { bal: t_bal, cmd: c, waitfor: self.acceptors.dup() },
                            );
                        }
                        proof {
                            assert(proposals@.take(i + 1).drop_last() == proposals@.take(i as int));
                            assert(proposals@.take(i + 1).last() == proposals@[i as int]);
                            assert(pending_bc(self.proposals) =~= pmax_merge(
                                bc0,
                                proposals@.take(i + 1),
                            ));
                        }
                        i = i + 1;
                    }
                    proof {
                        assert(proposals@.take(n as int) == proposals@);
                    }
                    self.waitfor.remove(*sender);
                    if self.waitfor.len() < self.acceptors.len() / 2 {
                        self.waitfor.clear();
                        // reopen every pending entry's phase-2 round against
                        // the full acceptor set: a slot's acceptance quorum
                        // is counted within one ballot's round, never mixed
                        // from rounds under different ballots
                        let ghost merged = self.proposals;
                        let ghost merged_entries = self.proposals.entries@;
                        let np0 = self.proposals.len();
                        let mut ri: usize = 0;
                        while ri < np0
                            invariant
                                0 <= ri <= np0,
                                np0 == merged_entries.len(),
                                self.proposals.wf(),
                                self.proposals.entries@.len() == merged_entries.len(),
                                forall|j: int|
                                    0 <= j < merged_entries.len() ==> (
                                    #[trigger] self.proposals.entries@[j]).0
                                        == merged_entries[j].0,
                                forall|j: int|
                                    0 <= j < ri ==> (#[trigger] self.proposals.entries@[j]).1.bal
                                        == merged_entries[j].1.bal
                                        && self.proposals.entries@[j].1.cmd
                                        == merged_entries[j].1.cmd
                                        && self.proposals.entries@[j].1.waitfor.wf()
                                        && self.proposals.entries@[j].1.waitfor@ == old(
                                        self).acceptors@,
                                forall|j: int|
                                    ri <= j < merged_entries.len() ==> (
                                    #[trigger] self.proposals.entries@[j]) == merged_entries[j],
                                self.ballot == old(self).ballot,
                                self.is_active == old(self).is_active,
                                self.waitfor@.len() == 0,
                                self.acceptors == old(self).acceptors,
                                self.replicas == old(self).replicas,
                                self.server_id == old(self).server_id,
                            decreases np0 - ri,
                        {
                            let (balx, cmdx) = {
                                let e = &self.proposals.entries[ri].1;
                                (e.bal, e.cmd.dup())
                            };
                            let w = self.acceptors.dup();
                            self.proposals.set_value_at(
                                ri,
                                PendingCmd { bal: balx, cmd: cmdx, waitfor: w },
                            );
                            ri = ri + 1;
                        }
                        proof {
                            let post = self.proposals.entries@;
                            assert forall|k: u64|
                                #[trigger] self.proposals@.contains_key(k) == merged@.contains_key(
                                k,
                            ) by {
                                crate::vecmap::lemma_seq_to_map_domain(post, k);
                                crate::vecmap::lemma_seq_to_map_domain(merged_entries, k);
                                if seq_to_map(post).contains_key(k) {
                                    let j = choose|j: int|
                                        0 <= j < post.len() && post[j].0 == k;
                                    assert(merged_entries[j].0 == k);
                                }
                                if seq_to_map(merged_entries).contains_key(k) {
                                    let j = choose|j: int|
                                        0 <= j < merged_entries.len() && merged_entries[j].0 == k;
                                    assert(post[j].0 == k);
                                }
                            }
                            assert forall|k: u64|
                                #[trigger] self.proposals@.contains_key(k) implies self.proposals@[k].bal
                                == merged@[k].bal && self.proposals@[k].cmd == merged@[k].cmd
                                && self.proposals@[k].waitfor.wf() && self.proposals@[k].waitfor@
                                == old(self).acceptors@ by {
                                crate::vecmap::lemma_seq_to_map_domain(post, k);
                                let j = choose|j: int| 0 <= j < post.len() && post[j].0 == k;
                                crate::vecmap::lemma_seq_to_map_index(post, j);
                                assert(merged_entries[j].0 == k);
                                crate::vecmap::lemma_seq_to_map_index(merged_entries, j);
                            }
                            assert(pending_bc(self.proposals) =~= pending_bc(merged));
                        }
                        let ghost entries = self.proposals.entries@;
                        let np = self.proposals.len();
                        let mut i: usize = 0;
                        while i < np
                            invariant
                                0 <= i <= np,
                                np == entries.len(),
                                ret@ == p2a_burst::<C, R>(
                                    entries.take(i as int),
                                    self.acceptors@,
                                    self.server_id,
                                    self.ballot,
                                ),
                            decreases np - i,
                        {
                            let slot2 = self.proposals.entries[i].0;
                            let ghost round = p2a_round::<C, R>(
                                self.acceptors@,
                                self.server_id,
                                self.ballot,
                                entries[i as int].0,
                                entries[i as int].1.cmd,
                            );
                            let na = self.acceptors.len();
                            let mut j: usize = 0;
                            while j < na
                                invariant
                                    0 <= j <= na,
                                    ret@ == p2a_burst::<C, R>(
                                        entries.take(i as int),
                                        self.acceptors@,
                                        self.server_id,
                                        self.ballot,
                                    ) + round.take(j as int),
                                decreases na - j,
                            {
                                let a = self.acceptors.at(j);
                                let c = self.proposals.entries[i].1.cmd.dup();
                                ret.push(
                                    (
                                        a,
                                        Message::P2a {
                                            sender: self.server_id,
                                            ballot: self.ballot,
                                            slot: slot2,
                                            cmd: c,
                                        },
                                    ),
                                );
                                proof {
                                    assert(ret@ =~= p2a_burst::<C, R>(
                                        entries.take(i as int),
                                        self.acceptors@,
                                        self.server_id,
                                        self.ballot,
                                    ) + round.take(j + 1));
                                }
                                j = j + 1;
                            }
                            proof {
                                assert(round.take(na as int) == round);
                                assert(entries.take(i + 1).drop_last() == entries.take(i as int));
                                assert(entries.take(i + 1).last() == entries[i as int]);
                                assert(ret@ =~= p2a_burst::<C, R>(
                                    entries.take(i + 1),
                                    self.acceptors@,
                                    self.server_id,
                                    self.ballot,
                                ));
                            }
                            i = i + 1;
                        }
                        proof {
                            assert(entries.take(np as int) == entries);
                        }
                        self.is_active = true;
                    }
                } else {
                    return self.preempted(ballot);
                }
            },
            Message::P2b { sender, ballot, slot } => {
                let in_pending = self.proposals.contains_key(*slot);
                if *ballot == self.ballot && self.is_active && in_pending {
                    let (bal2, cmd2, wf0) = match self.proposals.get(*slot) {
                        Some(p) => (p.bal, p.cmd.dup(), p.waitfor.dup()),
                        None => vstd::pervasive::unreached(),
                    };
                    let mut wf2 = wf0;
                    wf2.remove(*sender);
                    if wf2.len() < self.acceptors.len() / 2 {
                        let ghost round = decision_round::<C, R>(
                            self.replicas@,
                            *slot,
                            old(self).proposals@[*slot].cmd,
                        );
                        let nr = self.replicas.len();
                        let mut j: usize = 0;
                        while j < nr
                            invariant
                                0 <= j <= nr,
                                ret@ == round.take(j as int),
                            decreases nr - j,
                        {
                            let rep = self.replicas.at(j);
                            let c = cmd2.dup();
                            ret.push((rep, Message::Decision { slot: *slot, cmd: c }));
                            proof {
                                assert(ret@ =~= round.take(j + 1));
                            }
                            j = j + 1;
                        }
                        proof {
                            assert(round.take(nr as int) == round);
                        }
                        self.proposals.remove(*slot);
                    } else {
                        self.proposals.insert(
                            *slot,
                            PendingCmd { bal: bal2, cmd: cmd2, waitfor: wf2 },
                        );
                    }
                } else {
                    return self.preempted(ballot);
                }
            },
            Message::Tick => {
                if !self.proposals.is_empty() {
                    let ghost round = p1a_round::<C, R>(
                        self.acceptors@,
                        self.server_id,
                        self.ballot,
                    );
                    let na = self.acceptors.len();
                    let mut j: usize = 0;
                    while j < na
                        invariant
                            0 <= j <= na,
                            ret@ == round.take(j as int),
                        decreases na - j,
                    {
                        let a = self.acceptors.at(j);
                        ret.push((a, Message::P1a { sender: self.server_id, ballot: self.ballot }));
                        proof {
                            assert(ret@ =~= round.take(j + 1));
                        }
                        j = j + 1;
                    }
                    proof {
                        assert(round.take(na as int) == round);
                    }
                }
            },
            _ => {},
        }
        ret
    }
}

/// A ballot that never goes down at each step never goes down across a whole
/// run: the composition behind a leader's lifetime monotonicity.
pub proof fn lemma_ballot_monotone_run(ballots: Seq<Ballot>)
    requires
        forall|i: int| 0 <= i < ballots.len() - 1 ==> ballot_le(
            #[trigger] ballots[i],
            ballots[i + 1],
        ),
    ensures
        forall|i: int, j: int|
            0 <= i <= j < ballots.len() ==> ballot_le(#[trigger] ballots[i], #[trigger] ballots[j]),
    decreases ballots.len(),
{
    if ballots.len() > 1 {
        lemma_ballot_monotone_run(ballots.drop_last());
        assert forall|i: int| 0 <= i < ballots.len() - 2 implies ballot_le(
            #[trigger] ballots.drop_last()[i],
            ballots.drop_last()[i + 1],
        ) by {
            assert(ballot_le(ballots[i], ballots[i + 1]));
        }
        assert forall|i: int, j: int| 0 <= i <= j < ballots.len() implies ballot_le(
            #[trigger] ballots[i],
            #[trigger] ballots[j],
        ) by {
            if j < ballots.len() - 1 {
                assert(ballots.drop_last()[i] == ballots[i]);
                assert(ballots.drop_last()[j] == ballots[j]);
                assert(ballot_le(ballots.drop_last()[i], ballots.drop_last()[j]));
            } else if i < j {
                assert(ballots.drop_last()[i] == ballots[i]);
                assert(ballots.drop_last()[j - 1] == ballots[j - 1]);
                assert(ballot_le(ballots.drop_last()[i], ballots.drop_last()[j - 1]));
                assert(ballot_le(ballots[j - 1], ballots[j]));
            }
        }
    }
}

} // verus!

use vstd::prelude::*;
use vstd::string::StringExecFns;
use core::cmp::Ordering;
use crate::value::Val;

verus! {

/// Identifier of a paxos server role instance (acceptor, leader or replica).
pub type ServerID = u64;

/// Clients are identified by the endpoint they expect the reply on.
pub type ClientID = Addr;

/// A network endpoint, host text plus port. The consensus core only carries
/// these values through; the transport in front of the library interprets
/// them.
#[derive(Clone, Debug, Hash)]
pub struct Addr {
    pub addr: String,
    pub port: u16,
}

/// Two addresses name the same endpoint: same host text, same port.
pub open spec fn addr_eqv(a: Addr, b: Addr) -> bool {
    a.addr@ == b.addr@ && a.port == b.port
}

impl Addr {
    pub fn new(a: &str, p: u16) -> (r: Addr)
        ensures
            r.addr@ == a@,
            r.port == p,
    {
        Addr { addr: String::from_str(a), port: p }
    }
}

impl PartialEq for Addr {
    fn eq(&self, other: &Addr) -> (r: bool) {
        self.addr == other.addr && self.port == other.port
    }
}

impl Eq for Addr {}

impl vstd::std_specs::cmp::PartialEqSpecImpl for Addr {
    open spec fn obeys_eq_spec() -> bool {
        true
    }

    open spec fn eq_spec(&self, other: &Addr) -> bool {
        addr_eqv(*self, *other)
    }
}

impl Val for Addr {
    open spec fn veq(&self, other: &Self) -> bool {
        addr_eqv(*self, *other)
    }

    fn dup(&self) -> (r: Self) {
        Addr { addr: self.addr.clone(), port: self.port }
    }

    fn eq_val(&self, other: &Self) -> (r: bool) {
        self == other
    }
}

/// A ballot linearizes competing leadership attempts: a round counter `idx`
/// with the proposer id `server` as tie break, plus a distinguished bottom
/// value that every proper ballot exceeds.
#[derive(PartialEq, Eq, Structural, Clone, Copy, Debug)]
pub struct Ballot {
    pub server: ServerID,
    pub idx: u64,
    pub is_bot: bool,
}

/// Total order on ballots: bottom sorts below every proper ballot and equal
/// to bottom; proper ballots compare by round, then by proposer id.
pub open spec fn ballot_cmp(a: Ballot, b: Ballot) -> Ordering {
    if a.is_bot && b.is_bot {
        Ordering::Equal
    } else if a.is_bot {
        Ordering::Less
    } else if b.is_bot {
        Ordering::Greater
    } else if a.idx != b.idx {
        if a.idx < b.idx {
            Ordering::Less
        } else {
            Ordering::Greater
        }
    } else if a.server != b.server {
        if a.server < b.server {
            Ordering::Less
        } else {
            Ordering::Greater
        }
    } else {
        Ordering::Equal
    }
}

pub open spec fn ballot_lt(a: Ballot, b: Ballot) -> bool {
    ballot_cmp(a, b) == Ordering::Less
}

pub open spec fn ballot_le(a: Ballot, b: Ballot) -> bool {
    ballot_cmp(a, b) != Ordering::Greater
}

impl Ballot {
    /// The successor ballot of the same proposer, one round up; `None` once
    /// the round counter is exhausted (wrapping around would break the total
    /// order that safety rests on).
    pub fn next(&self) -> (r: Option<Ballot>)
        ensures
            match r {
                Some(b) => self.idx < u64::MAX && b == (Ballot {
                    server: self.server,
                    idx: (self.idx + 1) as u64,
                    is_bot: false,
                }),
                None => self.idx == u64::MAX,
            },
    {
        if self.idx != u64::MAX {
            Some(Ballot { server: self.server, idx: self.idx + 1, is_bot: false })
        } else {
            None
        }
    }

    /// The first proper ballot of proposer `self_id`.
    pub fn zero(self_id: ServerID) -> (r: Ballot)
        ensures
            r == (Ballot { server: self_id, idx: 0, is_bot: false }),
    {
        Ballot { server: self_id, idx: 0, is_bot: false }
    }

    /// The bottom ballot; acceptors start out having promised nothing more.
    pub fn bot(self_id: ServerID) -> (r: Ballot)
        ensures
            r == (Ballot { server: self_id, idx: 0, is_bot: true }),
            r.is_bot,
    {
        Ballot { server: self_id, idx: 0, is_bot: true }
    }
}

impl PartialOrd for Ballot {
    fn partial_cmp(&self, other: &Ballot) -> (r: Option<Ordering>) {
        if self.is_bot {
            if other.is_bot {
                Some(Ordering::Equal)
            } else {
                Some(Ordering::Less)
            }
        } else if other.is_bot {
            Some(Ordering::Greater)
        } else if self.idx != other.idx {
            if self.idx < other.idx {
                Some(Ordering::Less)
            } else {
                Some(Ordering::Greater)
            }
        } else if self.server != other.server {
            if self.server < other.server {
                Some(Ordering::Less)
            } else {
                Some(Ordering::Greater)
            }
        } else {
            Some(Ordering::Equal)
        }
    }
}

impl vstd::std_specs::cmp::PartialOrdSpecImpl for Ballot {
    open spec fn obeys_partial_cmp_spec() -> bool {
        true
    }

    open spec fn partial_cmp_spec(&self, other: &Ballot) -> Option<Ordering> {
        Some(ballot_cmp(*self, *other))
    }
}

/// Ballots with equal round are ordered by proposer id; bottom sorts below
/// every proper ballot; bottom compares equal to bottom.
pub proof fn lemma_ballot_order(b1: Ballot, b2: Ballot)
    ensures
        !b1.is_bot && !b2.is_bot && b1.idx == b2.idx ==> ballot_cmp(b1, b2) == (
        if b1.server < b2.server {
            Ordering::Less
        } else if b1.server == b2.server {
            Ordering::Equal
        } else {
            Ordering::Greater
        }),
        b1.is_bot && !b2.is_bot ==> ballot_lt(b1, b2),
        b1.is_bot && b2.is_bot ==> ballot_cmp(b1, b2) == Ordering::Equal,
{
}

/// The ballot order is total: `ballot_le` is transitive and any two ballots
/// compare.
pub proof fn lemma_ballot_le_trans(a: Ballot, b: Ballot, c: Ballot)
    requires
        ballot_le(a, b),
        ballot_le(b, c),
    ensures
        ballot_le(a, c),
{
}

/// A proper ballot sorts strictly below its successor.
pub proof fn lemma_ballot_lt_next(b: Ballot, n: Ballot)
    requires
        b.idx < u64::MAX,
        n == (Ballot { server: b.server, idx: (b.idx + 1) as u64, is_bot: false }),
    ensures
        ballot_lt(b, n),
{
}

/// The closed set of messages the roles exchange. `C` is the command type of
/// the replicated state machine, `R` its result type.
#[derive(Clone, Debug)]
pub enum Message<C, R> {
    /// Client asks a replica to get `cmd` decided and executed.
    Request { cid: ClientID, cmd: C },
    /// Replica reports the state machine's result back to the client.
    Response { cid: ClientID, result: R },
    /// Replica asks every leader to drive `cmd` into log slot `slot`.
    Propose { slot: u64, cmd: C },
    /// A value adopted for a slot under a ballot (reserved by the protocol).
    Adopted { slot: u64, ballot: Ballot, cmd: C },
    /// Leader announces that `cmd` is chosen for `slot`.
    Decision { slot: u64, cmd: C },
    /// Phase 1: leader asks acceptors to promise `ballot`.
    P1a { sender: ServerID, ballot: Ballot },
    /// Phase 1 reply: promised ballot plus everything accepted so far.
    P1b { sender: ServerID, ballot: Ballot, proposals: Vec<(u64, Ballot, C)> },
    /// Phase 2: leader asks acceptors to accept `cmd` for `slot` at `ballot`.
    P2a { sender: ServerID, ballot: Ballot, slot: u64, cmd: C },
    /// Phase 2 reply: the acceptor's promised ballot for `slot`.
    P2b { sender: ServerID, ballot: Ballot, slot: u64 },
    /// Timer event: the event loop delivers one when no message arrived
    /// within the poll interval, or when the re-broadcast interval elapsed.
    Tick,
}

} // verus!

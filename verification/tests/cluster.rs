use rs_parliament::acceptor::Acceptor;
use rs_parliament::idset::IdSet;
use rs_parliament::leader::Leader;
use rs_parliament::lockmachine::{LockMachine, LockOp, LockResult};
use rs_parliament::messages::{Addr, Message, ServerID};
use rs_parliament::replica::Replica;

type Msg = Message<LockOp, LockResult>;

const ACCEPTOR_IDS: [u64; 3] = [20, 21, 22];

struct Cluster {
    acceptors: Vec<(ServerID, Acceptor<LockOp>)>,
    leaders: Vec<(ServerID, Leader<LockOp>)>,
    replicas: Vec<(ServerID, Replica<LockMachine>)>,
    decided: Vec<(u64, LockOp)>,
    responses: Vec<(Addr, LockResult)>,
}

fn new_cluster(leader_ids: &[u64], replica_ids: &[u64]) -> Cluster {
    let accs = IdSet::from_ids(&ACCEPTOR_IDS.to_vec());
    let reps = IdSet::from_ids(&replica_ids.to_vec());
    let lds = IdSet::from_ids(&leader_ids.to_vec());
    Cluster {
        acceptors: ACCEPTOR_IDS.iter().map(|id| (*id, Acceptor::new(*id))).collect(),
        leaders: leader_ids.iter().map(|id| (*id, Leader::new(&accs, &reps, *id))).collect(),
        replicas: replica_ids.iter().map(|id| (*id, Replica::new(&lds))).collect(),
        decided: Vec::new(),
        responses: Vec::new(),
    }
}

impl Cluster {
    /// Deliver one message; returns the messages it caused. Checks, on every
    /// decision announced, that no earlier decision for the same slot
    /// carried a different command.
    fn deliver(&mut self, dest: u64, msg: &Msg) -> Vec<(u64, Msg)> {
        for (id, a) in self.acceptors.iter_mut() {
            if *id == dest {
                return a.handle_msg(msg);
            }
        }
        for (id, l) in self.leaders.iter_mut() {
            if *id == dest {
                let out = l.handle_msg(msg);
                for (_, m) in out.iter() {
                    if let Msg::Decision { slot, cmd } = m {
                        for (s0, c0) in self.decided.iter() {
                            if *s0 == *slot {
                                assert_eq!(c0, cmd, "two commands decided for slot {}", slot);
                            }
                        }
                        self.decided.push((*slot, *cmd));
                    }
                }
                return out;
            }
        }
        for (id, r) in self.replicas.iter_mut() {
            if *id == dest {
                let (to_srv, to_cli) = r.handle_msg(msg);
                for (cid, m) in to_cli.into_iter() {
                    if let Msg::Response { result, .. } = m {
                        self.responses.push((cid, result));
                    }
                }
                return to_srv;
            }
        }
        Vec::new()
    }
}

#[test]
fn happy_path_decides_and_responds() {
    // 3 acceptors, 1 leader, 1 replica; the client submits TryLock(1, 42)
    let mut c = new_cluster(&[10], &[0]);
    let client = Addr::new("127.0.0.1", 9000);
    let mut queue: Vec<(u64, Msg)> =
        vec![(0, Msg::Request { cid: client.clone(), cmd: LockOp::TryLock(1, 42) })];
    let mut ticks = 0;
    while !queue.is_empty() || (c.responses.is_empty() && ticks < 5) {
        if queue.is_empty() {
            // the poll timed out: the event loop hands the leader a tick
            queue.push((10, Msg::Tick));
            ticks += 1;
        }
        let (dest, msg) = queue.remove(0);
        let out = c.deliver(dest, &msg);
        queue.extend(out);
    }
    assert!(c.decided.iter().any(|(_, cmd)| matches!(cmd, LockOp::TryLock(1, 42))));
    assert_eq!(c.responses.len(), 1);
    assert!(c.responses[0].0 == client);
    assert!(matches!(c.responses[0].1, LockResult::Success));
}

#[test]
fn contending_leaders_never_decide_two_commands_for_one_slot() {
    // two replicas assign competing commands to the same slot and two
    // leaders drive them under competing ballots, while the scheduler
    // duplicates, drops and reorders messages
    let mut c = new_cluster(&[10, 11], &[0, 1]);
    let ca = Addr::new("127.0.0.1", 9000);
    let cb = Addr::new("127.0.0.1", 9001);
    let mut pool: Vec<(u64, Msg)> = vec![
        (0, Msg::Request { cid: ca, cmd: LockOp::TryLock(1, 111) }),
        (1, Msg::Request { cid: cb, cmd: LockOp::TryLock(1, 222) }),
    ];
    let mut seed: u64 = 0x2545f4914f6cdd1d;
    let mut steps = 0;
    while steps < 50000 {
        steps += 1;
        seed = seed.wrapping_mul(6364136223846793005).wrapping_add(1442695040888963407);
        let r = seed;
        if pool.is_empty() || (r >> 33) % 13 == 0 {
            let leader = if (r >> 8) % 2 == 0 { 10 } else { 11 };
            let out = c.deliver(leader, &Msg::Tick);
            pool.extend(out);
            continue;
        }
        // mostly in arrival order, with occasional reordering
        let idx = if (r >> 25) % 4 == 0 {
            ((r >> 12) % pool.len() as u64) as usize
        } else {
            0
        };
        match (r >> 45) % 20 {
            0 => {
                // lost in transit
                pool.remove(idx);
            },
            1 => {
                // duplicated: delivered but also left in flight
                let (dest, msg) = pool[idx].clone();
                let out = c.deliver(dest, &msg);
                pool.extend(out);
            },
            _ => {
                // delivered once
                let (dest, msg) = pool.remove(idx);
                let out = c.deliver(dest, &msg);
                pool.extend(out);
            },
        }
    }
    // safety was checked on every decision; the run must also have decided
    // the contended slot at least once
    assert!(c.decided.iter().any(|(s, _)| *s == 1));
    // replicas that executed a common slot executed the same command
    let log0 = &c.replicas[0].1.log;
    let log1 = &c.replicas[1].1.log;
    for (s0, c0) in log0.entries.iter() {
        for (s1, c1) in log1.entries.iter() {
            if s0 == s1 {
                assert_eq!(c0, c1);
            }
        }
    }
}

use vstd::prelude::*;
use crate::statemachine::StateMachine;
use crate::value::Val;
use crate::vecmap::VecMap;

verus! {

/// Commands of the lock service: both carry the lock id and the claiming or
/// releasing owner id.
#[derive(PartialEq, Eq, Structural, Clone, Copy, Debug, Hash)]
pub enum LockOp {
    TryLock(u64, u64),
    TryUnlock(u64, u64),
}

#[derive(PartialEq, Eq, Structural, Clone, Copy, Debug)]
pub enum LockResult {
    Success,
    Fail,
}

impl Val for LockOp {
    open spec fn veq(&self, other: &Self) -> bool {
        *self == *other
    }

    fn dup(&self) -> (r: Self) {
        *self
    }

    fn eq_val(&self, other: &Self) -> (r: bool) {
        *self == *other
    }
}

impl Val for LockResult {
    open spec fn veq(&self, other: &Self) -> bool {
        *self == *other
    }

    fn dup(&self) -> (r: Self) {
        *self
    }

    fn eq_val(&self, other: &Self) -> (r: bool) {
        *self == *other
    }
}

/// The reference state machine: a lock service. `TryLock(l, c)` succeeds
/// when `l` is free or already owned by `c`; `TryUnlock(l, c)` succeeds and
/// releases `l` only when `c` owns it.
pub struct LockMachine {
    pub locks: VecMap<u64>,
}

impl StateMachine for LockMachine {
    type Op = LockOp;

    type Result = LockResult;

    type Abs = Map<u64, u64>;

    open spec fn inv(&self) -> bool {
        self.locks.wf()
    }

    open spec fn abs(&self) -> Map<u64, u64> {
        self.locks@
    }

    open spec fn init_abs() -> Map<u64, u64> {
        Map::empty()
    }

    open spec fn next_abs(pre: Map<u64, u64>, op: LockOp) -> Map<u64, u64> {
        match op {
            LockOp::TryLock(lockid, cid) => if pre.contains_key(lockid) {
                pre
            } else {
                pre.insert(lockid, cid)
            },
            LockOp::TryUnlock(lockid, cid) => if pre.contains_key(lockid) && pre[lockid] == cid {
                pre.remove(lockid)
            } else {
                pre
            },
        }
    }

    open spec fn result_abs(pre: Map<u64, u64>, op: LockOp) -> LockResult {
        match op {
            LockOp::TryLock(lockid, cid) => if !pre.contains_key(lockid) || pre[lockid] == cid {
                LockResult::Success
            } else {
                LockResult::Fail
            },
            LockOp::TryUnlock(lockid, cid) => if pre.contains_key(lockid) && pre[lockid] == cid {
                LockResult::Success
            } else {
                LockResult::Fail
            },
        }
    }

    fn init_state() -> (r: Self) {
        LockMachine { locks: VecMap::new() }
    }

    fn apply_op(&mut self, op: &Self::Op) -> (r: Self::Result) {
        match op {
            LockOp::TryLock(lockid, cid) => {
                let cur: Option<u64> = match self.locks.get(*lockid) {
                    Some(c) => Some(*c),
                    None => None,
                };
                match cur {
                    Some(c) => {
                        if c == *cid {
                            LockResult::Success
                        } else {
                            LockResult::Fail
                        }
                    },
                    None => {
                        self.locks.insert(*lockid, *cid);
                        LockResult::Success
                    },
                }
            },
            LockOp::TryUnlock(lockid, cid) => {
                let cur: Option<u64> = match self.locks.get(*lockid) {
                    Some(c) => Some(*c),
                    None => None,
                };
                match cur {
                    Some(c) => {
                        if c == *cid {
                            self.locks.remove(*lockid);
                            LockResult::Success
                        } else {
                            LockResult::Fail
                        }
                    },
                    None => LockResult::Fail,
                }
            },
        }
    }
}

} // verus!

use vstd::prelude::*;
use crate::value::Val;

verus! {

/// The pluggable deterministic state machine a replica drives.
///
/// The abstract level (`Abs`, `next_abs`, `result_abs`) makes determinism a
/// theorem rather than a convention: the state after a command and the
/// result handed back to the client are spec-level functions of the abstract
/// state and the command alone, so replicas that apply the same decided log
/// in the same order pass through the same abstract states and return the
/// same results.
pub trait StateMachine: Sized {
    type Op: Val;

    type Result;

    type Abs;

    /// Representation invariant of the executable state.
    spec fn inv(&self) -> bool;

    /// The abstract state the executable state stands for.
    spec fn abs(&self) -> Self::Abs;

    /// The abstract state a fresh instance starts in.
    spec fn init_abs() -> Self::Abs;

    /// Abstract transition: the state after applying `op` in state `pre`.
    spec fn next_abs(pre: Self::Abs, op: Self::Op) -> Self::Abs;

    /// Abstract result: what applying `op` in state `pre` returns.
    spec fn result_abs(pre: Self::Abs, op: Self::Op) -> Self::Result;

    fn init_state() -> (r: Self)
        ensures
            r.inv(),
            r.abs() == Self::init_abs(),
    ;

    fn apply_op(&mut self, op: &Self::Op) -> (r: Self::Result)
        requires
            old(self).inv(),
        ensures
            final(self).inv(),
            final(self).abs() == Self::next_abs(old(self).abs(), *op),
            r == Self::result_abs(old(self).abs(), *op),
    ;
}

} // verus!

use vstd::prelude::*;

verus! {

/// Capability bundle for the payload values the consensus core carries:
/// commands are duplicated (the same command goes out to several peers) and
/// compared (buffered client requests form a set).
pub trait Val: Sized {
    /// When two values count as the same payload.
    spec fn veq(&self, other: &Self) -> bool;

    /// An exact copy of the value.
    fn dup(&self) -> (r: Self)
        ensures
            r == *self,
    ;

    /// Decides `veq`.
    fn eq_val(&self, other: &Self) -> (r: bool)
        ensures
            r == self.veq(other),
    ;
}

} // verus!

use vstd::prelude::*;

verus! {

/// A small set of server ids, kept as a duplicate-free vector.
///
/// Each role holds the cluster membership (its acceptors, leaders or
/// replicas) and its quorum-tracking wait sets in these. The iteration order
/// is deterministic, so a role's contract can pin the exact order in which a
/// broadcast emits messages.
pub struct IdSet {
    pub ids: Vec<u64>,
}

/// The position of `id` in a duplicate-free id sequence.
pub open spec fn id_index(s: Seq<u64>, id: u64) -> int {
    choose|i: int| 0 <= i < s.len() && s[i] == id
}

/// The sequence with `id` taken out (and unchanged where `id` is absent).
pub open spec fn seq_remove_id(s: Seq<u64>, id: u64) -> Seq<u64> {
    if s.contains(id) {
        s.remove(id_index(s, id))
    } else {
        s
    }
}

impl View for IdSet {
    type V = Seq<u64>;

    open spec fn view(&self) -> Seq<u64> {
        self.ids@
    }
}

impl IdSet {
    pub open spec fn wf(self) -> bool {
        self.ids@.no_duplicates()
    }

    pub open spec fn to_set(self) -> Set<u64> {
        self.ids@.to_set()
    }

    pub fn new() -> (r: IdSet)
        ensures
            r.wf(),
            r@ =~= Seq::<u64>::empty(),
    {
        IdSet { ids: Vec::new() }
    }

    /// The set of the given ids, duplicates dropped, first occurrences in
    /// their given order.
    #[verifier::loop_isolation(false)]
    pub fn from_ids(v: &Vec<u64>) -> (r: IdSet)
        ensures
            r.wf(),
            r.to_set() == v@.to_set(),
    {
        let mut r = IdSet::new();
        let n = v.len();
        let mut i: usize = 0;
        proof {
            assert(r.to_set() =~= v@.take(0).to_set());
        }
        while i < n
            invariant
                0 <= i <= n,
                r.wf(),
                r.to_set() == v@.take(i as int).to_set(),
            decreases n - i,
        {
            let ghost pre = r.to_set();
            r.insert(v[i]);
            proof {
                assert(v@.take(i + 1).drop_last() == v@.take(i as int));
                assert(v@.take(i + 1).last() == v@[i as int]);
                assert forall|x: u64| #[trigger] v@.take(i + 1).to_set().contains(x)
                    <==> pre.insert(v@[i as int]).contains(x) by {
                    if v@.take(i + 1).contains(x) {
                        let j = choose|j: int| 0 <= j < i + 1 && #[trigger] v@.take(i + 1)[j] == x;
                        if j < i {
                            assert(v@.take(i as int)[j] == x);
                        }
                    }
                    if pre.contains(x) {
                        let j = choose|j: int| 0 <= j < i && v@.take(i as int)[j] == x;
                        assert(v@.take(i + 1)[j] == x);
                    } else if x == v@[i as int] {
                        assert(v@.take(i + 1)[i as int] == x);
                    }
                }
                assert(r.to_set() =~= v@.take(i + 1).to_set());
            }
            i = i + 1;
        }
        proof {
            assert(v@.take(n as int) == v@);
        }
        r
    }

    pub fn len(&self) -> (r: usize)
        ensures
            r == self@.len(),
    {
        self.ids.len()
    }

    pub fn is_empty(&self) -> (r: bool)
        ensures
            r == (self@.len() == 0),
    {
        self.ids.len() == 0
    }

    #[verifier::loop_isolation(false)]
    pub fn contains(&self, id: u64) -> (r: bool)
        ensures
            r == self@.contains(id),
    {
        let n = self.ids.len();
        let mut i: usize = 0;
        while i < n
            invariant
                n == self@.len(),
                0 <= i <= n,
                forall|j: int| 0 <= j < i ==> self@[j] != id,
            decreases n - i,
        {
            if self.ids[i] == id {
                return true;
            }
            i = i + 1;
        }
        false
    }

    /// Add `id`; adding a member again is a no-op.
    pub fn insert(&mut self, id: u64)
        requires
            old(self).wf(),
        ensures
            final(self).wf(),
            final(self)@ == (if old(self)@.contains(id) {
                old(self)@
            } else {
                old(self)@.push(id)
            }),
            final(self).to_set() == old(self).to_set().insert(id),
    {
        let present = self.contains(id);
        if !present {
            self.ids.push(id);
        }
        proof {
            if !old(self)@.contains(id) {
                assert(self@.drop_last() == old(self)@);
                assert forall|x: u64| self@.contains(x) <==> (old(self)@.contains(x) || x
                    == id) by {
                    if self@.contains(x) {
                        let j = choose|j: int| 0 <= j < self@.len() && self@[j] == x;
                        if j < self@.len() - 1 {
                            assert(old(self)@[j] == x);
                        }
                    }
                    if old(self)@.contains(x) {
                        let j = choose|j: int|
                            0 <= j < old(self)@.len() && old(self)@[j] == x;
                        assert(self@[j] == x);
                    }
                    if x == id {
                        assert(self@[self@.len() - 1] == x);
                    }
                }
            }
            assert(self.to_set() =~= old(self).to_set().insert(id));
        }
    }

    /// Drop `id`, if present; the order of the rest is unchanged.
    #[verifier::loop_isolation(false)]
    pub fn remove(&mut self, id: u64)
        requires
            old(self).wf(),
        ensures
            final(self).wf(),
            old(self)@.contains(id) ==> final(self)@ == old(self)@.remove(
                id_index(old(self)@, id),
            ) && final(self)@.len() == old(self)@.len() - 1,
            !old(self)@.contains(id) ==> final(self)@ == old(self)@,
            final(self)@ == seq_remove_id(old(self)@, id),
            !final(self)@.contains(id),
            final(self).to_set() == old(self).to_set().remove(id),
    {
        let ghost s0 = self.ids@;
        let n = self.ids.len();
        let mut i: usize = 0;
        while i < n
            invariant
                n == self.ids@.len(),
                self.ids@ == s0,
                0 <= i <= n,
                forall|j: int| 0 <= j < i ==> self.ids@[j] != id,
            decreases n - i,
        {
            if self.ids[i] == id {
                proof {
                    assert(exists|j: int| 0 <= j < s0.len() && s0[j] == id) by {
                        assert(s0[i as int] == id);
                    }
                    assert(id_index(s0, id) == i as int) by {
                        let ki = id_index(s0, id);
                        assert(0 <= ki < s0.len() && s0[ki] == id);
                        if ki != i as int {
                            assert(s0[ki] != s0[i as int]);
                        }
                    }
                }
                self.ids.remove(i);
                proof {
                    let s2 = self.ids@;
                    assert forall|j1: int, j2: int|
                        0 <= j1 < j2 < s2.len() implies s2[j1] != s2[j2] by {
                        let o1 = if j1 < i as int { j1 } else { j1 + 1 };
                        let o2 = if j2 < i as int { j2 } else { j2 + 1 };
                        assert(s0[o1] != s0[o2]);
                    }
                    assert forall|j: int| 0 <= j < s2.len() implies s2[j] != id by {
                        let o = if j < i as int { j } else { j + 1 };
                        assert(s2[j] == s0[o]);
                    }
                    assert forall|x: u64| #[trigger] s2.to_set().contains(x) <==> s0.to_set().remove(
                        id,
                    ).contains(x) by {
                        if s2.contains(x) {
                            let j = choose|j: int| 0 <= j < s2.len() && s2[j] == x;
                            let o = if j < i as int { j } else { j + 1 };
                            assert(s0[o] == x);
                        }
                        if s0.to_set().remove(id).contains(x) {
                            let j = choose|j: int| 0 <= j < s0.len() && s0[j] == x;
                            let o = if j < i as int { j } else { j - 1 };
                            assert(s2[o] == x);
                        }
                    }
                    assert(self.to_set() =~= old(self).to_set().remove(id));
                }
                return ;
            }
            i = i + 1;
        }
        proof {
            assert(!s0.contains(id));
            assert(self.to_set() =~= old(self).to_set().remove(id));
        }
    }

    pub fn clear(&mut self)
        ensures
            final(self).wf(),
            final(self)@ =~= Seq::<u64>::empty(),
    {
        self.ids = Vec::new();
    }

    /// An exact copy (same members, same order).
    #[verifier::loop_isolation(false)]
    pub fn dup(&self) -> (r: IdSet)
        ensures
            r@ == self@,
    {
        let mut out: Vec<u64> = Vec::new();
        let n = self.ids.len();
        let mut i: usize = 0;
        while i < n
            invariant
                n == self.ids@.len(),
                0 <= i <= n,
                out@ == self.ids@.take(i as int),
            decreases n - i,
        {
            out.push(self.ids[i]);
            proof {
                assert(out@ =~= self.ids@.take(i + 1));
            }
            i = i + 1;
        }
        proof {
            assert(self.ids@.take(n as int) == self.ids@);
        }
        IdSet { ids: out }
    }

    pub fn at(&self, i: usize) -> (r: u64)
        requires
            i < self@.len(),
        ensures
            r == self@[i as int],
    {
        self.ids[i]
    }
}

} // verus!

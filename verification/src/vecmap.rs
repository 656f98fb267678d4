use vstd::prelude::*;

verus! {

/// An association list from `u64` keys to values, with unique keys.
///
/// The consensus roles keep their per-slot bookkeeping (an acceptor's
/// accepted values, a leader's pending commands, a replica's log) in these.
/// Unlike a hash map, iteration order is the insertion order, which lets the
/// roles' contracts pin the exact message sequences they emit.
pub struct VecMap<T> {
    pub entries: Vec<(u64, T)>,
}

/// The map a key/value sequence denotes (with unique keys the order of the
/// entries does not matter).
pub open spec fn seq_to_map<T>(s: Seq<(u64, T)>) -> Map<u64, T>
    decreases s.len(),
{
    if s.len() == 0 {
        Map::empty()
    } else {
        seq_to_map(s.drop_last()).insert(s.last().0, s.last().1)
    }
}

/// The unique position of key `k` in an entry sequence with unique keys.
pub open spec fn key_index<T>(s: Seq<(u64, T)>, k: u64) -> int {
    choose|i: int| 0 <= i < s.len() && s[i].0 == k
}

pub open spec fn uniq_keys<T>(s: Seq<(u64, T)>) -> bool {
    forall|i: int, j: int| 0 <= i < j < s.len() ==> s[i].0 != s[j].0
}

/// A key is in the denoted map exactly when some entry carries it.
pub proof fn lemma_seq_to_map_domain<T>(s: Seq<(u64, T)>, k: u64)
    ensures
        seq_to_map(s).contains_key(k) <==> exists|i: int| 0 <= i < s.len() && s[i].0 == k,
    decreases s.len(),
{
    if s.len() > 0 {
        lemma_seq_to_map_domain(s.drop_last(), k);
        if seq_to_map(s).contains_key(k) && s.last().0 != k {
            let i = choose|i: int| 0 <= i < s.drop_last().len() && s.drop_last()[i].0 == k;
            assert(s[i].0 == k);
        }
        if exists|i: int| 0 <= i < s.len() && s[i].0 == k {
            let i = choose|i: int| 0 <= i < s.len() && s[i].0 == k;
            if i < s.len() - 1 {
                assert(s.drop_last()[i].0 == k);
            }
        }
    }
}

/// With unique keys, the entry holding a key gives its value in the map.
pub proof fn lemma_seq_to_map_index<T>(s: Seq<(u64, T)>, i: int)
    requires
        uniq_keys(s),
        0 <= i < s.len(),
    ensures
        seq_to_map(s).contains_key(s[i].0),
        seq_to_map(s)[s[i].0] == s[i].1,
    decreases s.len(),
{
    if i < s.len() - 1 {
        assert(s.drop_last()[i] == s[i]);
        lemma_seq_to_map_index(s.drop_last(), i);
    }
}

pub broadcast proof fn lemma_seq_to_map_finite<T>(s: Seq<(u64, T)>)
    ensures
        #[trigger] seq_to_map(s).dom().finite(),
    decreases s.len(),
{
    if s.len() > 0 {
        lemma_seq_to_map_finite(s.drop_last());
    }
}

impl<T> View for VecMap<T> {
    type V = Map<u64, T>;

    open spec fn view(&self) -> Map<u64, T> {
        seq_to_map(self.entries@)
    }
}

impl<T> VecMap<T> {
    pub open spec fn wf(self) -> bool {
        uniq_keys(self.entries@)
    }

    pub fn new() -> (r: VecMap<T>)
        ensures
            r.wf(),
            r@ == Map::<u64, T>::empty(),
            r.entries@ =~= Seq::<(u64, T)>::empty(),
    {
        VecMap { entries: Vec::new() }
    }

    pub fn len(&self) -> (r: usize)
        ensures
            r == self.entries@.len(),
    {
        self.entries.len()
    }

    pub fn is_empty(&self) -> (r: bool)
        ensures
            r == (self.entries@.len() == 0),
    {
        self.entries.len() == 0
    }

    #[verifier::loop_isolation(false)]
    pub fn contains_key(&self, k: u64) -> (r: bool)
        ensures
            r == self@.contains_key(k),
    {
        proof {
            lemma_seq_to_map_domain(self.entries@, k);
        }
        let n = self.entries.len();
        let mut i: usize = 0;
        while i < n
            invariant
                n == self.entries@.len(),
                0 <= i <= n,
                forall|j: int| 0 <= j < i ==> self.entries@[j].0 != k,
            decreases n - i,
        {
            if self.entries[i].0 == k {
                return true;
            }
            i = i + 1;
        }
        false
    }

    #[verifier::loop_isolation(false)]
    pub fn get(&self, k: u64) -> (r: Option<&T>)
        requires
            self.wf(),
        ensures
            match r {
                Some(v) => self@.contains_key(k) && *v == self@[k],
                None => !self@.contains_key(k),
            },
    {
        proof {
            lemma_seq_to_map_domain(self.entries@, k);
        }
        let n = self.entries.len();
        let mut i: usize = 0;
        while i < n
            invariant
                n == self.entries@.len(),
                0 <= i <= n,
                forall|j: int| 0 <= j < i ==> self.entries@[j].0 != k,
            decreases n - i,
        {
            if self.entries[i].0 == k {
                proof {
                    lemma_seq_to_map_index(self.entries@, i as int);
                }
                return Some(&self.entries[i].1);
            }
            i = i + 1;
        }
        None
    }

    /// Bind `k` to `v`: an existing entry is updated in place, a fresh key is
    /// appended at the end.
    #[verifier::loop_isolation(false)]
    pub fn insert(&mut self, k: u64, v: T)
        requires
            old(self).wf(),
        ensures
            final(self).wf(),
            final(self)@ == old(self)@.insert(k, v),
            old(self)@.contains_key(k) ==> final(self).entries@ == old(self).entries@.update(
                key_index(old(self).entries@, k),
                (k, v),
            ),
            !old(self)@.contains_key(k) ==> final(self).entries@ == old(self).entries@.push(
                (k, v),
            ),
    {
        proof {
            lemma_seq_to_map_domain(self.entries@, k);
        }
        let ghost s0 = self.entries@;
        let n = self.entries.len();
        let mut i: usize = 0;
        while i < n
            invariant
                n == self.entries@.len(),
                self.entries@ == s0,
                0 <= i <= n,
                forall|j: int| 0 <= j < i ==> self.entries@[j].0 != k,
            decreases n - i,
        {
            if self.entries[i].0 == k {
                proof {
                    assert(exists|j: int| 0 <= j < s0.len() && s0[j].0 == k) by {
                        assert(s0[i as int].0 == k);
                    }
                    assert(key_index(s0, k) == i as int) by {
                        let ki = key_index(s0, k);
                        assert(0 <= ki < s0.len() && s0[ki].0 == k);
                        if ki != i as int {
                            assert(s0[ki].0 != s0[i as int].0);
                        }
                    }
                }
                self.entries.set(i, (k, v));
                proof {
                    lemma_update_key(s0, i as int, v);
                }
                return ;
            }
            i = i + 1;
        }
        proof {
            assert(!old(self)@.contains_key(k));
        }
        self.entries.push((k, v));
        proof {
            assert(self.entries@.drop_last() == s0);
            assert forall|a: int, b: int|
                0 <= a < b < self.entries@.len() implies self.entries@[a].0
                != self.entries@[b].0 by {
                if b == self.entries@.len() - 1 {
                    assert(self.entries@[a] == s0[a]);
                } else {
                    assert(self.entries@[a] == s0[a] && self.entries@[b] == s0[b]);
                }
            }
        }
    }

    /// Replace the value at position `i`, keeping its key and the order.
    pub fn set_value_at(&mut self, i: usize, v: T)
        requires
            old(self).wf(),
            i < old(self).entries@.len(),
        ensures
            final(self).wf(),
            final(self).entries@ == old(self).entries@.update(
                i as int,
                (old(self).entries@[i as int].0, v),
            ),
            final(self)@ == old(self)@.insert(old(self).entries@[i as int].0, v),
    {
        let k = self.entries[i].0;
        self.entries.set(i, (k, v));
        proof {
            lemma_update_key(old(self).entries@, i as int, v);
        }
    }

    /// Drop the entry for `k`, if any; the order of the rest is unchanged.
    #[verifier::loop_isolation(false)]
    pub fn remove(&mut self, k: u64)
        requires
            old(self).wf(),
        ensures
            final(self).wf(),
            final(self)@ == old(self)@.remove(k),
            old(self)@.contains_key(k) ==> final(self).entries@ == old(self).entries@.remove(
                key_index(old(self).entries@, k),
            ),
            !old(self)@.contains_key(k) ==> final(self).entries@ == old(self).entries@,
    {
        proof {
            lemma_seq_to_map_domain(self.entries@, k);
        }
        let ghost s0 = self.entries@;
        let n = self.entries.len();
        let mut i: usize = 0;
        while i < n
            invariant
                n == self.entries@.len(),
                self.entries@ == s0,
                0 <= i <= n,
                forall|j: int| 0 <= j < i ==> self.entries@[j].0 != k,
            decreases n - i,
        {
            if self.entries[i].0 == k {
                proof {
                    assert(exists|j: int| 0 <= j < s0.len() && s0[j].0 == k) by {
                        assert(s0[i as int].0 == k);
                    }
                    assert(key_index(s0, k) == i as int) by {
                        let ki = key_index(s0, k);
                        assert(0 <= ki < s0.len() && s0[ki].0 == k);
                        if ki != i as int {
                            assert(s0[ki].0 != s0[i as int].0);
                        }
                    }
                }
                self.entries.remove(i);
                proof {
                    lemma_remove_key(s0, i as int);
                }
                return ;
            }
            i = i + 1;
        }
        proof {
            assert(!old(self)@.contains_key(k));
            assert(final(self)@ =~= old(self)@.remove(k));
        }
    }
}

/// The subsequence of entries with keys at or above `lo`, in order.
pub open spec fn entries_from<T>(s: Seq<(u64, T)>, lo: u64) -> Seq<(u64, T)>
    decreases s.len(),
{
    if s.len() == 0 {
        s
    } else {
        let rest = entries_from(s.drop_last(), lo);
        if s.last().0 >= lo {
            rest.push(s.last())
        } else {
            rest
        }
    }
}

/// Keeping the entries at or above `lo` keeps key uniqueness and restricts
/// the denoted map to the keys at or above `lo`.
pub proof fn lemma_entries_from<T>(s: Seq<(u64, T)>, lo: u64)
    requires
        uniq_keys(s),
    ensures
        uniq_keys(entries_from(s, lo)),
        forall|k: u64| #[trigger] seq_to_map(entries_from(s, lo)).contains_key(k) <==> (seq_to_map(
            s,
        ).contains_key(k) && k >= lo),
        forall|k: u64| #[trigger] seq_to_map(entries_from(s, lo)).contains_key(k) ==> seq_to_map(
            entries_from(s, lo),
        )[k] == seq_to_map(s)[k],
    decreases s.len(),
{
    if s.len() > 0 {
        let sd = s.drop_last();
        let fd = entries_from(sd, lo);
        let f = entries_from(s, lo);
        lemma_entries_from(sd, lo);
        assert forall|j: int| 0 <= j < fd.len() implies fd[j].0 != s.last().0 by {
            lemma_seq_to_map_domain(fd, fd[j].0);
            assert(seq_to_map(fd).contains_key(fd[j].0));
            lemma_seq_to_map_domain(sd, fd[j].0);
            let w = choose|w: int| 0 <= w < sd.len() && sd[w].0 == fd[j].0;
            assert(s[w].0 == fd[j].0);
            assert(s[w].0 != s.last().0);
        }
        assert(seq_to_map(s) == seq_to_map(sd).insert(s.last().0, s.last().1));
        if s.last().0 >= lo {
            assert(f == fd.push(s.last()));
            assert(f.drop_last() == fd);
            assert(seq_to_map(f) == seq_to_map(fd).insert(s.last().0, s.last().1));
            assert forall|j1: int, j2: int| 0 <= j1 < j2 < f.len() implies f[j1].0 != f[j2].0 by {
                if j2 < f.len() - 1 {
                    assert(fd[j1].0 != fd[j2].0);
                } else {
                    assert(f[j1] == fd[j1]);
                }
            }
            assert forall|k: u64| #[trigger] seq_to_map(f).contains_key(k) implies (seq_to_map(
                s,
            ).contains_key(k) && k >= lo) by {
                if k != s.last().0 {
                    assert(seq_to_map(fd).contains_key(k));
                    assert(seq_to_map(sd).contains_key(k) && k >= lo);
                }
            }
            assert forall|k: u64| seq_to_map(s).contains_key(k) && k >= lo implies #[trigger]
                seq_to_map(f).contains_key(k) by {
                if k != s.last().0 {
                    assert(seq_to_map(sd).contains_key(k));
                    assert(seq_to_map(fd).contains_key(k));
                }
            }
            assert forall|k: u64| #[trigger] seq_to_map(f).contains_key(k) implies seq_to_map(f)[k]
                == seq_to_map(s)[k] by {
                if k != s.last().0 {
                    assert(seq_to_map(fd).contains_key(k));
                    assert(seq_to_map(f)[k] == seq_to_map(fd)[k]);
                    assert(seq_to_map(fd)[k] == seq_to_map(sd)[k]);
                    assert(seq_to_map(sd).contains_key(k));
                    assert(seq_to_map(s)[k] == seq_to_map(sd)[k]);
                }
            }
        } else {
            assert(f == fd);
            assert forall|k: u64| #[trigger] seq_to_map(f).contains_key(k) implies (seq_to_map(
                s,
            ).contains_key(k) && k >= lo) by {
                assert(seq_to_map(sd).contains_key(k) && k >= lo);
                assert(k != s.last().0);
            }
            assert forall|k: u64| seq_to_map(s).contains_key(k) && k >= lo implies #[trigger]
                seq_to_map(f).contains_key(k) by {
                assert(k != s.last().0);
                assert(seq_to_map(sd).contains_key(k));
            }
            assert forall|k: u64| #[trigger] seq_to_map(f).contains_key(k) implies seq_to_map(f)[k]
                == seq_to_map(s)[k] by {
                assert(seq_to_map(sd).contains_key(k) && k >= lo);
                assert(k != s.last().0);
                assert(seq_to_map(fd)[k] == seq_to_map(sd)[k]);
            }
        }
    }
}

impl<T> VecMap<T> {
    /// Drop every entry with a key below `lo`, keeping the order of the
    /// rest: the checkpoint/garbage-collection primitive.
    #[verifier::loop_isolation(false)]
    pub fn retain_from(&mut self, lo: u64)
        requires
            old(self).wf(),
        ensures
            final(self).wf(),
            final(self).entries@ == entries_from(old(self).entries@, lo),
            forall|k: u64|
                #[trigger] final(self)@.contains_key(k) <==> (old(self)@.contains_key(k) && k
                    >= lo),
            forall|k: u64| #[trigger] final(self)@.contains_key(k) ==> final(self)@[k] == old(
                self,
            )@[k],
    {
        proof {
            lemma_entries_from(old(self).entries@, lo);
        }
        let ghost s0 = self.entries@;
        let mut i: usize = 0;
        let ghost mut j: int = 0;
        while i < self.entries.len()
            invariant
                0 <= j <= s0.len(),
                i as int == entries_from(s0.take(j), lo).len(),
                self.entries@ == entries_from(s0.take(j), lo) + s0.skip(j),
            decreases s0.len() - j,
        {
            let ghost f = entries_from(s0.take(j), lo);
            proof {
                assert(self.entries@[i as int] == s0.skip(j)[0]);
                assert(s0.skip(j)[0] == s0[j]);
                assert(s0.take(j + 1).drop_last() == s0.take(j));
                assert(s0.take(j + 1).last() == s0[j]);
            }
            if self.entries[i].0 < lo {
                let ghost pre = self.entries@;
                self.entries.remove(i);
                proof {
                    assert(entries_from(s0.take(j + 1), lo) == f);
                    assert(self.entries@ =~= f + s0.skip(j + 1)) by {
                        assert(pre.remove(i as int) =~= f + s0.skip(j + 1));
                    }
                    j = j + 1;
                }
            } else {
                i = i + 1;
                proof {
                    assert(entries_from(s0.take(j + 1), lo) == f.push(s0[j]));
                    assert(self.entries@ =~= f.push(s0[j]) + s0.skip(j + 1));
                    j = j + 1;
                }
            }
        }
        proof {
            assert(s0.skip(j).len() == 0);
            assert(j == s0.len());
            assert(s0.take(j) == s0);
            assert(self.entries@ =~= entries_from(s0, lo));
        }
    }
}

/// Updating the entry at the position of key `k` updates the map at `k` and
/// keeps the other bindings.
proof fn lemma_update_key<T>(s: Seq<(u64, T)>, i: int, v: T)
    requires
        uniq_keys(s),
        0 <= i < s.len(),
    ensures
        uniq_keys(s.update(i, (s[i].0, v))),
        seq_to_map(s.update(i, (s[i].0, v))) == seq_to_map(s).insert(s[i].0, v),
{
    let k = s[i].0;
    let s2 = s.update(i, (k, v));
    assert forall|j1: int, j2: int| 0 <= j1 < j2 < s2.len() implies s2[j1].0 != s2[j2].0 by {
        assert(s[j1].0 != s[j2].0);
    }
    assert forall|x: u64| #[trigger] seq_to_map(s2).contains_key(x) == seq_to_map(
        s,
    ).insert(k, v).contains_key(x) by {
        lemma_seq_to_map_domain(s, x);
        lemma_seq_to_map_domain(s2, x);
        if seq_to_map(s).insert(k, v).contains_key(x) {
            if x == k {
                assert(s2[i].0 == x);
            } else {
                let j = choose|j: int| 0 <= j < s.len() && s[j].0 == x;
                assert(s2[j].0 == x);
            }
        }
        if seq_to_map(s2).contains_key(x) {
            let j = choose|j: int| 0 <= j < s2.len() && s2[j].0 == x;
            assert(s[j].0 == x || x == k);
        }
    }
    assert forall|x: u64| seq_to_map(s2).contains_key(x) implies #[trigger] seq_to_map(s2)[x]
        == seq_to_map(s).insert(k, v)[x] by {
        lemma_seq_to_map_domain(s2, x);
        let j = choose|j: int| 0 <= j < s2.len() && s2[j].0 == x;
        lemma_seq_to_map_index(s2, j);
        if x == k {
            assert(j == i);
        } else {
            assert(j != i);
            assert(s[j] == s2[j]);
            lemma_seq_to_map_index(s, j);
        }
    }
    assert(seq_to_map(s2) =~= seq_to_map(s).insert(k, v));
}

/// Removing the entry at the position of key `k` removes `k` from the map
/// and keeps the other bindings.
proof fn lemma_remove_key<T>(s: Seq<(u64, T)>, i: int)
    requires
        uniq_keys(s),
        0 <= i < s.len(),
    ensures
        uniq_keys(s.remove(i)),
        seq_to_map(s.remove(i)) == seq_to_map(s).remove(s[i].0),
{
    let k = s[i].0;
    let s2 = s.remove(i);
    assert forall|j1: int, j2: int| 0 <= j1 < j2 < s2.len() implies s2[j1].0 != s2[j2].0 by {
        let o1 = if j1 < i { j1 } else { j1 + 1 };
        let o2 = if j2 < i { j2 } else { j2 + 1 };
        assert(s[o1].0 != s[o2].0);
    }
    assert forall|x: u64| #[trigger] seq_to_map(s2).contains_key(x) == seq_to_map(
        s,
    ).remove(k).contains_key(x) by {
        lemma_seq_to_map_domain(s, x);
        lemma_seq_to_map_domain(s2, x);
        if seq_to_map(s2).contains_key(x) {
            let j = choose|j: int| 0 <= j < s2.len() && s2[j].0 == x;
            let o = if j < i { j } else { j + 1 };
            assert(s[o].0 == x);
            assert(x != k);
        }
        if seq_to_map(s).remove(k).contains_key(x) {
            let j = choose|j: int| 0 <= j < s.len() && s[j].0 == x;
            assert(j != i);
            let o = if j < i { j } else { j - 1 };
            assert(s2[o].0 == x);
        }
    }
    assert forall|x: u64| seq_to_map(s2).contains_key(x) implies #[trigger] seq_to_map(s2)[x]
        == seq_to_map(s).remove(k)[x] by {
        lemma_seq_to_map_domain(s2, x);
        let j = choose|j: int| 0 <= j < s2.len() && s2[j].0 == x;
        lemma_seq_to_map_index(s2, j);
        let o = if j < i { j } else { j + 1 };
        assert(s[o] == s2[j]);
        lemma_seq_to_map_index(s, o);
    }
    assert(seq_to_map(s2) =~= seq_to_map(s).remove(k));
}

} // verus!

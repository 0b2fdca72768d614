//! An ordered map keyed by integers: entries kept in strictly increasing key
//! order, so iteration order is part of the contract, as replays need.
//!
//! The standard library's `BTreeMap` gives the same order, and vstd does
//! specify it, but only through an iterator's prophesied sequence, under the
//! assumption that the key type's comparison obeys its specification. The
//! trail rows, the listing of standings and the replay receipts here are
//! stated and proved over the entries as a plain sequence read by position,
//! so this map keeps its entries in a vector and states their order as its
//! invariant.

use vstd::prelude::*;

verus! {

/// Keys strictly increasing along the sequence: each key at most once, and
/// in order.
pub open spec fn increasing<V>(s: Seq<(u64, V)>) -> bool {
    forall|i: int, j: int| 0 <= i < j < s.len() ==> #[trigger] s[i].0 < #[trigger] s[j].0
}

/// Whether some entry carries key `k`.
pub open spec fn has_key<V>(s: Seq<(u64, V)>, k: u64) -> bool {
    exists|i: int| 0 <= i < s.len() && #[trigger] s[i].0 == k
}

/// The map an entry sequence stands for: each key to the value beside it.
pub open spec fn map_of<V>(s: Seq<(u64, V)>) -> Map<u64, V> {
    Map::new(
        |k: u64| has_key(s, k),
        |k: u64| s[choose|i: int| 0 <= i < s.len() && #[trigger] s[i].0 == k].1,
    )
}

/// In an increasing sequence, the entry at `i` is the map's value for its key.
pub proof fn lemma_map_of_index<V>(s: Seq<(u64, V)>, i: int)
    requires
        increasing(s),
        0 <= i < s.len(),
    ensures
        map_of(s).contains_key(s[i].0),
        map_of(s)[s[i].0] == s[i].1,
{
    let k = s[i].0;
    assert(has_key(s, k));
    let j = choose|j: int| 0 <= j < s.len() && #[trigger] s[j].0 == k;
    if j < i {
        assert(s[j].0 < s[i].0);
    } else if j > i {
        assert(s[i].0 < s[j].0);
    }
}

/// An ordered map from integer keys.
#[derive(Clone, Debug, PartialEq, Eq)]
pub struct Keyed<V> {
    entries: Vec<(u64, V)>,
}

impl<V> Keyed<V> {
    pub closed spec fn entries_spec(&self) -> Seq<(u64, V)> {
        self.entries@
    }

    pub open spec fn wf(&self) -> bool {
        increasing(self.entries_spec())
    }

    pub open spec fn view(&self) -> Map<u64, V> {
        map_of(self.entries_spec())
    }

    pub fn new() -> (m: Self)
        ensures
            m.wf(),
            m.entries_spec() == Seq::<(u64, V)>::empty(),
            m.view() == Map::<u64, V>::empty(),
    {
        let m = Keyed { entries: Vec::new() };
        assert(m.view() =~= Map::<u64, V>::empty());
        m
    }

    pub fn len(&self) -> (n: usize)
        ensures
            n == self.entries_spec().len(),
    {
        self.entries.len()
    }

    /// The entry at a position in key order.
    pub fn entry(&self, i: usize) -> (e: (u64, &V))
        requires
            i < self.entries_spec().len(),
        ensures
            e.0 == self.entries_spec()[i as int].0,
            *e.1 == self.entries_spec()[i as int].1,
    {
        let e = &self.entries[i];
        (e.0, &e.1)
    }

    /// Where `k` sits, or where it would be inserted.
    fn position(&self, k: u64) -> (r: (usize, bool))
        requires
            self.wf(),
        ensures
            r.0 <= self.entries_spec().len(),
            forall|j: int| 0 <= j < r.0 ==> #[trigger] self.entries_spec()[j].0 < k,
            r.1 ==> r.0 < self.entries_spec().len() && self.entries_spec()[r.0 as int].0 == k,
            !r.1 ==> forall|j: int|
                r.0 <= j < self.entries_spec().len() ==> #[trigger] self.entries_spec()[j].0 > k,
    {
        let mut i: usize = 0;
        while i < self.entries.len()
            invariant
                i <= self.entries@.len(),
                increasing(self.entries@),
                forall|j: int| 0 <= j < i ==> #[trigger] self.entries@[j].0 < k,
            decreases self.entries@.len() - i,
        {
            let key = self.entries[i].0;
            if key == k {
                return (i, true);
            }
            if key > k {
                assert forall|j: int| i <= j < self.entries@.len() implies #[trigger] self.entries@[j].0
                    > k by {
                    if j > i {
                        assert(self.entries@[i as int].0 < self.entries@[j].0);
                    }
                }
                return (i, false);
            }
            i = i + 1;
        }
        (i, false)
    }

    pub fn contains_key(&self, k: u64) -> (b: bool)
        requires
            self.wf(),
        ensures
            b == self.view().contains_key(k),
    {
        let (i, found) = self.position(k);
        proof {
            if found {
                lemma_map_of_index(self.entries@, i as int);
            } else {
                assert(!has_key(self.entries@, k)) by {
                    if has_key(self.entries@, k) {
                        let j = choose|j: int| 0 <= j < self.entries@.len() && #[trigger] self.entries@[j].0 == k;
                        if j < i {
                        } else {
                        }
                    }
                }
            }
        }
        found
    }

    pub fn get(&self, k: u64) -> (r: Option<&V>)
        requires
            self.wf(),
        ensures
            match r {
                Some(v) => self.view().contains_key(k) && *v == self.view()[k],
                None => !self.view().contains_key(k),
            },
    {
        let (i, found) = self.position(k);
        if found {
            proof {
                lemma_map_of_index(self.entries@, i as int);
            }
            Some(&self.entries[i].1)
        } else {
            proof {
                if has_key(self.entries@, k) {
                    let j = choose|j: int| 0 <= j < self.entries@.len() && #[trigger] self.entries@[j].0 == k;
                    if j < i {
                    } else {
                    }
                }
            }
            None
        }
    }

    /// Sets the value for `k`, in its place in key order.
    pub fn insert(&mut self, k: u64, v: V)
        requires
            old(self).wf(),
        ensures
            final(self).wf(),
            final(self).view() == old(self).view().insert(k, v),
            old(self).view().contains_key(k) ==> final(self).entries_spec().len()
                == old(self).entries_spec().len(),
            !old(self).view().contains_key(k) ==> final(self).entries_spec().len()
                == old(self).entries_spec().len() + 1,
    {
        let (i, found) = self.position(k);
        let ghost s = self.entries@;
        if found {
            self.entries.set(i, (k, v));
            let ghost t = self.entries@;
            assert(t == s.update(i as int, (k, v)));
            assert(increasing(t)) by {
                assert forall|a: int, b: int| 0 <= a < b < t.len() implies #[trigger] t[a].0
                    < #[trigger] t[b].0 by {
                    assert(s[a].0 < s[b].0);
                }
            }
            proof {
                lemma_map_of_index(s, i as int);
                assert forall|key: u64| has_key(t, key) == (has_key(s, key)) by {
                    if has_key(s, key) {
                        let j = choose|j: int| 0 <= j < s.len() && #[trigger] s[j].0 == key;
                        assert(t[j].0 == key);
                    }
                    if has_key(t, key) {
                        let j = choose|j: int| 0 <= j < t.len() && #[trigger] t[j].0 == key;
                        assert(s[j].0 == key);
                    }
                }
                assert forall|key: u64| #[trigger] has_key(t, key) implies map_of(t)[key] == map_of(
                    s,
                ).insert(k, v)[key] by {
                    let j = choose|j: int| 0 <= j < t.len() && #[trigger] t[j].0 == key;
                    lemma_map_of_index(t, j);
                    lemma_map_of_index(s, j);
                }
                assert(map_of(t) =~= map_of(s).insert(k, v));
            }
        } else {
            self.entries.insert(i, (k, v));
            let ghost t = self.entries@;
            assert(t == s.insert(i as int, (k, v)));
            assert(increasing(t)) by {
                assert forall|a: int, b: int| 0 <= a < b < t.len() implies #[trigger] t[a].0
                    < #[trigger] t[b].0 by {
                    if b < i {
                        assert(s[a].0 < s[b].0);
                    } else if b == i {
                    } else if a < i {
                        assert(t[a].0 < k);
                        assert(s[b - 1].0 > k);
                    } else if a == i {
                        assert(s[b - 1].0 > k);
                    } else {
                        assert(s[a - 1].0 < s[b - 1].0);
                    }
                }
            }
            proof {
                assert(!has_key(s, k)) by {
                    if has_key(s, k) {
                        let j = choose|j: int| 0 <= j < s.len() && #[trigger] s[j].0 == k;
                        if j < i {
                        } else {
                        }
                    }
                }
                assert forall|key: u64| has_key(t, key) == (has_key(s, key) || key == k) by {
                    if has_key(s, key) {
                        let j = choose|j: int| 0 <= j < s.len() && #[trigger] s[j].0 == key;
                        if j < i {
                            assert(t[j].0 == key);
                        } else {
                            assert(t[j + 1].0 == key);
                        }
                    }
                    if key == k {
                        assert(t[i as int].0 == key);
                    }
                    if has_key(t, key) {
                        let j = choose|j: int| 0 <= j < t.len() && #[trigger] t[j].0 == key;
                        if j < i {
                            assert(s[j].0 == key);
                        } else if j > i {
                            assert(s[j - 1].0 == key);
                        }
                    }
                }
                assert forall|key: u64| #[trigger] has_key(t, key) implies map_of(t)[key] == map_of(
                    s,
                ).insert(k, v)[key] by {
                    let j = choose|j: int| 0 <= j < t.len() && #[trigger] t[j].0 == key;
                    lemma_map_of_index(t, j);
                    if j < i {
                        lemma_map_of_index(s, j);
                    } else if j > i {
                        lemma_map_of_index(s, j - 1);
                    }
                }
                assert(map_of(t) =~= map_of(s).insert(k, v));
            }
        }
    }

    /// Takes the value for `k` out, if there is one.
    pub fn remove(&mut self, k: u64) -> (r: Option<V>)
        requires
            old(self).wf(),
        ensures
            final(self).wf(),
            final(self).view() == old(self).view().remove(k),
            match r {
                Some(v) => old(self).view().contains_key(k) && v == old(self).view()[k],
                None => !old(self).view().contains_key(k),
            },
    {
        let (i, found) = self.position(k);
        let ghost s = self.entries@;
        if found {
            let e = self.entries.remove(i);
            let ghost t = self.entries@;
            assert(t == s.remove(i as int));
            assert(increasing(t)) by {
                assert forall|a: int, b: int| 0 <= a < b < t.len() implies #[trigger] t[a].0
                    < #[trigger] t[b].0 by {
                    if b < i {
                        assert(s[a].0 < s[b].0);
                    } else if a < i {
                        assert(s[a].0 < s[b + 1].0);
                    } else {
                        assert(s[a + 1].0 < s[b + 1].0);
                    }
                }
            }
            proof {
                lemma_map_of_index(s, i as int);
                assert forall|key: u64| has_key(t, key) == (has_key(s, key) && key != k) by {
                    if has_key(s, key) && key != k {
                        let j = choose|j: int| 0 <= j < s.len() && #[trigger] s[j].0 == key;
                        if j < i {
                            assert(t[j].0 == key);
                        } else {
                            assert(j != i);
                            assert(t[j - 1].0 == key);
                        }
                    }
                    if has_key(t, key) {
                        let j = choose|j: int| 0 <= j < t.len() && #[trigger] t[j].0 == key;
                        if j < i {
                            assert(s[j].0 == key);
                            assert(s[j].0 < s[i as int].0);
                        } else {
                            assert(s[j + 1].0 == key);
                            assert(s[i as int].0 < s[j + 1].0);
                        }
                    }
                }
                assert forall|key: u64| #[trigger] has_key(t, key) implies map_of(t)[key] == map_of(
                    s,
                ).remove(k)[key] by {
                    let j = choose|j: int| 0 <= j < t.len() && #[trigger] t[j].0 == key;
                    lemma_map_of_index(t, j);
                    if j < i {
                        lemma_map_of_index(s, j);
                    } else {
                        lemma_map_of_index(s, j + 1);
                    }
                }
                assert(map_of(t) =~= map_of(s).remove(k));
            }
            Some(e.1)
        } else {
            proof {
                assert(!has_key(s, k)) by {
                    if has_key(s, k) {
                        let j = choose|j: int| 0 <= j < s.len() && #[trigger] s[j].0 == k;
                        if j < i {
                        } else {
                        }
                    }
                }
                assert(map_of(s) =~= map_of(s).remove(k));
            }
            None
        }
    }

    /// The values, in key order.
    pub fn values(&self) -> (vs: Vec<&V>)
        ensures
            vs@.len() == self.entries_spec().len(),
            forall|i: int| 0 <= i < vs@.len() ==> *#[trigger] vs@[i] == self.entries_spec()[i].1,
    {
        let mut vs: Vec<&V> = Vec::new();
        let mut i: usize = 0;
        while i < self.entries.len()
            invariant
                i <= self.entries@.len(),
                vs@.len() == i,
                forall|j: int| 0 <= j < i ==> *#[trigger] vs@[j] == self.entries@[j].1,
            decreases self.entries@.len() - i,
        {
            vs.push(&self.entries[i].1);
            i = i + 1;
        }
        vs
    }
    /// The keys, in order.
    pub fn keys(&self) -> (ks: Vec<u64>)
        ensures
            ks@.len() == self.entries_spec().len(),
            forall|i: int| 0 <= i < ks@.len() ==> #[trigger] ks@[i] == self.entries_spec()[i].0,
    {
        let mut ks: Vec<u64> = Vec::new();
        let mut i: usize = 0;
        while i < self.entries.len()
            invariant
                i <= self.entries@.len(),
                ks@.len() == i,
                forall|j: int| 0 <= j < i ==> #[trigger] ks@[j] == self.entries@[j].0,
            decreases self.entries@.len() - i,
        {
            ks.push(self.entries[i].0);
            i = i + 1;
        }
        ks
    }

    pub fn is_empty(&self) -> (b: bool)
        ensures
            b == (self.entries_spec().len() == 0),
    {
        self.entries.len() == 0
    }
}

} // verus!

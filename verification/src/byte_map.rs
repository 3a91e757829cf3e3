use vstd::prelude::*;

use crate::bytes::{compare_bytes, lemma_lex_order, lex_lt, KeyOrder};

verus! {

/// Keys strictly increasing in lexicographic order.
pub open spec fn keys_sorted<V>(s: Seq<(Seq<u8>, V)>) -> bool {
    forall|i: int, j: int| 0 <= i < j < s.len() ==> lex_lt(#[trigger] s[i].0, #[trigger] s[j].0)
}

/// Some entry of `s` has key `k`.
pub open spec fn has_key<V>(s: Seq<(Seq<u8>, V)>, k: Seq<u8>) -> bool {
    exists|i: int| 0 <= i < s.len() && #[trigger] s[i].0 == k
}

/// The map that a run of entries stands for.
pub open spec fn entries_map<V>(s: Seq<(Seq<u8>, V)>) -> Map<Seq<u8>, V> {
    Map::new(
        |k: Seq<u8>| has_key(s, k),
        |k: Seq<u8>| s[choose|i: int| 0 <= i < s.len() && #[trigger] s[i].0 == k].1,
    )
}

/// In a sorted run, each entry is what the map gives for its key.
pub proof fn lemma_entries_map_at<V>(s: Seq<(Seq<u8>, V)>, i: int)
    requires
        keys_sorted(s),
        0 <= i < s.len(),
    ensures
        entries_map(s).contains_key(s[i].0),
        entries_map(s)[s[i].0] == s[i].1,
{
    lemma_lex_order();
    assert(has_key(s, s[i].0));
    let j = choose|j: int| 0 <= j < s.len() && #[trigger] s[j].0 == s[i].0;
    if j < i {
        assert(lex_lt(s[j].0, s[i].0));
    } else if i < j {
        assert(lex_lt(s[i].0, s[j].0));
    }
}

/// A sorted run stands for `m` when its entries are exactly the pairs of `m`.
pub proof fn lemma_entries_map_is<V>(s: Seq<(Seq<u8>, V)>, m: Map<Seq<u8>, V>)
    requires
        keys_sorted(s),
        forall|i: int| 0 <= i < s.len() ==> #[trigger] m.contains_key(s[i].0) && m[s[i].0] == s[i].1,
        forall|k: Seq<u8>| #[trigger] m.contains_key(k) ==> has_key(s, k),
    ensures
        entries_map(s) == m,
{
    assert forall|k: Seq<u8>| #[trigger] entries_map(s).contains_key(k) implies m.contains_key(k)
        && entries_map(s)[k] == m[k] by {
        let i = choose|i: int| 0 <= i < s.len() && #[trigger] s[i].0 == k;
        lemma_entries_map_at(s, i);
        assert(m.contains_key(s[i].0));
    }
    assert(entries_map(s) =~= m);
}

/// An ordered map from byte strings to values, held as a sorted run of
/// entries.
pub struct ByteMap<V> {
    entries: Vec<(Vec<u8>, V)>,
}

impl<V> ByteMap<V> {
    /// The entries in key order.
    pub closed spec fn entries(&self) -> Seq<(Seq<u8>, V)> {
        self.entries@.map_values(|e: (Vec<u8>, V)| (e.0@, e.1))
    }

    /// The keys are strictly increasing.
    pub open spec fn wf(&self) -> bool {
        keys_sorted(self.entries())
    }

    /// The map that the entries stand for.
    pub open spec fn view(&self) -> Map<Seq<u8>, V> {
        entries_map(self.entries())
    }

    /// The number of entries.
    pub open spec fn spec_len(&self) -> nat {
        self.entries().len()
    }

    /// The map with no entries.
    pub fn new() -> (r: Self)
        ensures
            r.wf(),
            r.entries() == Seq::<(Seq<u8>, V)>::empty(),
            r@ == Map::<Seq<u8>, V>::empty(),
    {
        let r = ByteMap { entries: Vec::new() };
        assert(r.entries() =~= Seq::<(Seq<u8>, V)>::empty());
        assert(r@ =~= Map::<Seq<u8>, V>::empty());
        r
    }

    /// The number of entries.
    pub fn len(&self) -> (r: usize)
        requires
            self.wf(),
        ensures
            r == self.spec_len(),
            r == self@.len(),
    {
        proof {
            self.lemma_len_is_map_len();
        }
        self.entries.len()
    }

    /// The number of entries is the size of the map.
    pub proof fn lemma_len_is_map_len(&self)
        requires
            self.wf(),
        ensures
            self@.dom().finite(),
            self@.len() == self.spec_len(),
        decreases self.spec_len(),
    {
        lemma_entries_len(self.entries());
    }

    /// The key of the entry at position `i` in key order.
    pub fn key_at(&self, i: usize) -> (r: &Vec<u8>)
        requires
            i < self.spec_len(),
        ensures
            r@ == self.entries()[i as int].0,
    {
        &self.entries[i].0
    }

    /// The value of the entry at position `i` in key order.
    pub fn value_at(&self, i: usize) -> (r: &V)
        requires
            i < self.spec_len(),
        ensures
            *r == self.entries()[i as int].1,
    {
        &self.entries[i].1
    }

    /// The first position whose key is not below `key`.
    pub fn lower_bound(&self, key: &[u8]) -> (p: usize)
        requires
            self.wf(),
        ensures
            p <= self.spec_len(),
            forall|i: int| 0 <= i < p ==> lex_lt(#[trigger] self.entries()[i].0, key@),
            forall|i: int| p <= i < self.spec_len() ==> !lex_lt(#[trigger] self.entries()[i].0, key@),
    {
        proof {
            lemma_lex_order();
        }
        let mut lo: usize = 0;
        let mut hi: usize = self.entries.len();
        while lo < hi
            invariant
                self.wf(),
                lo <= hi <= self.spec_len(),
                self.spec_len() == self.entries@.len(),
                forall|i: int| 0 <= i < lo ==> lex_lt(#[trigger] self.entries()[i].0, key@),
                forall|i: int| hi <= i < self.spec_len() ==> !lex_lt(#[trigger] self.entries()[i].0, key@),
            decreases hi - lo,
        {
            proof {
                lemma_lex_order();
            }
            let mid = lo + (hi - lo) / 2;
            let o = compare_bytes(self.entries[mid].0.as_slice(), key);
            assert(self.entries()[mid as int].0 == self.entries@[mid as int].0@);
            match o {
                KeyOrder::Less => {
                    assert forall|i: int| 0 <= i < mid + 1 implies lex_lt(#[trigger] self.entries()[i].0, key@) by {
                        if i < mid {
                            assert(lex_lt(self.entries()[i].0, self.entries()[mid as int].0));
                        }
                    }
                    lo = mid + 1;
                },
                _ => {
                    assert forall|i: int| mid <= i < self.spec_len() implies !lex_lt(#[trigger] self.entries()[i].0, key@) by {
                        if i > mid {
                            assert(lex_lt(self.entries()[mid as int].0, self.entries()[i].0));
                        }
                    }
                    hi = mid;
                },
            }
        }
        lo
    }

    /// Finds the position of `key`, or where it would go.
    fn find(&self, key: &[u8]) -> (r: (usize, bool))
        requires
            self.wf(),
        ensures
            r.0 <= self.spec_len(),
            forall|i: int| 0 <= i < r.0 ==> lex_lt(#[trigger] self.entries()[i].0, key@),
            r.1 ==> r.0 < self.spec_len() && self.entries()[r.0 as int].0 == key@,
            !r.1 ==> forall|i: int| r.0 <= i < self.spec_len() ==> lex_lt(key@, #[trigger] self.entries()[i].0),
    {
        proof {
            lemma_lex_order();
        }
        let p = self.lower_bound(key);
        if p < self.entries.len() {
            let o = compare_bytes(self.entries[p].0.as_slice(), key);
            assert(self.entries()[p as int].0 == self.entries@[p as int].0@);
            match o {
                KeyOrder::Equal => (p, true),
                _ => {
                    assert forall|i: int| p <= i < self.spec_len() implies lex_lt(key@, #[trigger] self.entries()[i].0) by {
                        if i > p {
                            assert(lex_lt(self.entries()[p as int].0, self.entries()[i].0));
                        }
                    }
                    (p, false)
                },
            }
        } else {
            (p, false)
        }
    }

    /// The value stored under `key`.
    pub fn get(&self, key: &[u8]) -> (r: Option<&V>)
        requires
            self.wf(),
        ensures
            match r {
                Some(v) => self@.contains_key(key@) && *v == self@[key@],
                None => !self@.contains_key(key@),
            },
    {
        proof {
            lemma_lex_order();
        }
        let (p, found) = self.find(key);
        if found {
            proof {
                lemma_entries_map_at(self.entries(), p as int);
            }
            Some(&self.entries[p].1)
        } else {
            proof {
                if has_key(self.entries(), key@) {
                    let i = choose|i: int| 0 <= i < self.entries().len() && #[trigger] self.entries()[i].0 == key@;
                    if i < p {
                        assert(lex_lt(self.entries()[i].0, key@));
                    } else {
                        assert(lex_lt(key@, self.entries()[i].0));
                    }
                }
            }
            None
        }
    }

    /// Stores `value` under `key`, and gives back what was stored there.
    pub fn insert(&mut self, key: Vec<u8>, value: V) -> (r: Option<V>)
        requires
            old(self).wf(),
        ensures
            final(self).wf(),
            final(self)@ == old(self)@.insert(key@, value),
            match r {
                Some(v) => old(self)@.contains_key(key@) && v == old(self)@[key@],
                None => !old(self)@.contains_key(key@),
            },
    {
        proof {
            lemma_lex_order();
        }
        let ghost s = self.entries();
        let ghost k = key@;
        let ghost m = old(self)@.insert(k, value);
        let (p, found) = self.find(key.as_slice());
        if found {
            proof {
                lemma_entries_map_at(s, p as int);
            }
            let old_entry = self.entries.remove(p);
            self.entries.insert(p, (key, value));
            proof {
                let t = self.entries();
                assert(t =~= s.update(p as int, (k, value)));
                assert(keys_sorted(t)) by {
                    assert forall|i: int, j: int| 0 <= i < j < t.len() implies lex_lt(#[trigger] t[i].0, #[trigger] t[j].0) by {
                        assert(t[i].0 == s[i].0 && t[j].0 == s[j].0);
                    }
                }
                assert forall|i: int| 0 <= i < t.len() implies #[trigger] m.contains_key(t[i].0) && m[t[i].0] == t[i].1 by {
                    if i != p {
                        lemma_entries_map_at(s, i);
                        assert(lex_lt(s[i].0, s[p as int].0) || lex_lt(s[p as int].0, s[i].0));
                    }
                }
                assert forall|kk: Seq<u8>| #[trigger] m.contains_key(kk) implies has_key(t, kk) by {
                    if kk == k {
                        assert(t[p as int].0 == kk);
                    } else {
                        let j = choose|j: int| 0 <= j < s.len() && #[trigger] s[j].0 == kk;
                        assert(t[j].0 == kk);
                    }
                }
                lemma_entries_map_is(t, m);
            }
            Some(old_entry.1)
        } else {
            self.entries.insert(p, (key, value));
            proof {
                let t = self.entries();
                assert(t =~= s.insert(p as int, (k, value)));
                assert(!has_key(s, k)) by {
                    if has_key(s, k) {
                        let i = choose|i: int| 0 <= i < s.len() && #[trigger] s[i].0 == k;
                        if i < p {
                            assert(lex_lt(s[i].0, k));
                        } else {
                            assert(lex_lt(k, s[i].0));
                        }
                    }
                }
                assert(keys_sorted(t)) by {
                    assert forall|i: int, j: int| 0 <= i < j < t.len() implies lex_lt(#[trigger] t[i].0, #[trigger] t[j].0) by {
                        if j < p {
                            assert(t[i].0 == s[i].0 && t[j].0 == s[j].0);
                        } else if j == p {
                            assert(t[i].0 == s[i].0);
                        } else if i < p {
                            assert(t[i].0 == s[i].0 && t[j].0 == s[j - 1].0);
                            assert(lex_lt(s[i].0, k));
                        } else if i == p {
                            assert(t[j].0 == s[j - 1].0);
                        } else {
                            assert(t[i].0 == s[i - 1].0 && t[j].0 == s[j - 1].0);
                        }
                    }
                }
                assert forall|i: int| 0 <= i < t.len() implies #[trigger] m.contains_key(t[i].0) && m[t[i].0] == t[i].1 by {
                    if i < p {
                        lemma_entries_map_at(s, i);
                        assert(t[i] == s[i]);
                    } else if i > p {
                        lemma_entries_map_at(s, i - 1);
                        assert(t[i] == s[i - 1]);
                    }
                }
                assert forall|kk: Seq<u8>| #[trigger] m.contains_key(kk) implies has_key(t, kk) by {
                    if kk == k {
                        assert(t[p as int].0 == kk);
                    } else {
                        let j = choose|j: int| 0 <= j < s.len() && #[trigger] s[j].0 == kk;
                        if j < p {
                            assert(t[j].0 == kk);
                        } else {
                            assert(t[j + 1].0 == kk);
                        }
                    }
                }
                lemma_entries_map_is(t, m);
            }
            None
        }
    }

    /// Removes the entry under `key`, and gives back what was stored there.
    pub fn remove(&mut self, key: &[u8]) -> (r: Option<V>)
        requires
            old(self).wf(),
        ensures
            final(self).wf(),
            final(self)@ == old(self)@.remove(key@),
            match r {
                Some(v) => old(self)@.contains_key(key@) && v == old(self)@[key@],
                None => !old(self)@.contains_key(key@),
            },
    {
        proof {
            lemma_lex_order();
        }
        let ghost s = self.entries();
        let ghost k = key@;
        let ghost m = old(self)@.remove(k);
        let (p, found) = self.find(key);
        if found {
            proof {
                lemma_entries_map_at(s, p as int);
            }
            let old_entry = self.entries.remove(p);
            proof {
                let t = self.entries();
                assert(t =~= s.remove(p as int));
                assert(keys_sorted(t)) by {
                    assert forall|i: int, j: int| 0 <= i < j < t.len() implies lex_lt(#[trigger] t[i].0, #[trigger] t[j].0) by {
                        if j < p {
                            assert(t[i].0 == s[i].0 && t[j].0 == s[j].0);
                        } else if i < p {
                            assert(t[i].0 == s[i].0 && t[j].0 == s[j + 1].0);
                        } else {
                            assert(t[i].0 == s[i + 1].0 && t[j].0 == s[j + 1].0);
                        }
                    }
                }
                assert forall|i: int| 0 <= i < t.len() implies #[trigger] m.contains_key(t[i].0) && m[t[i].0] == t[i].1 by {
                    if i < p {
                        lemma_entries_map_at(s, i);
                        assert(t[i] == s[i]);
                        assert(lex_lt(s[i].0, k));
                    } else {
                        lemma_entries_map_at(s, i + 1);
                        assert(t[i] == s[i + 1]);
                        assert(lex_lt(k, s[i + 1].0));
                    }
                }
                assert forall|kk: Seq<u8>| #[trigger] m.contains_key(kk) implies has_key(t, kk) by {
                    let j = choose|j: int| 0 <= j < s.len() && #[trigger] s[j].0 == kk;
                    if j < p {
                        assert(t[j].0 == kk);
                    } else {
                        assert(j != p);
                        assert(t[j - 1].0 == kk);
                    }
                }
                lemma_entries_map_is(t, m);
            }
            Some(old_entry.1)
        } else {
            proof {
                assert(!has_key(s, k)) by {
                    if has_key(s, k) {
                        let i = choose|i: int| 0 <= i < s.len() && #[trigger] s[i].0 == k;
                        if i < p {
                            assert(lex_lt(s[i].0, k));
                        } else {
                            assert(lex_lt(k, s[i].0));
                        }
                    }
                }
                assert(self@ =~= m);
            }
            None
        }
    }

    /// Empties this map and gives back what it held.
    pub fn take(&mut self) -> (r: Self)
        requires
            old(self).wf(),
        ensures
            r.wf(),
            r.entries() == old(self).entries(),
            r@ == old(self)@,
            final(self).wf(),
            final(self)@ == Map::<Seq<u8>, V>::empty(),
            final(self).entries() == Seq::<(Seq<u8>, V)>::empty(),
    {
        let mut other = ByteMap::new();
        std::mem::swap(self, &mut other);
        other
    }
}

proof fn lemma_entries_len<V>(s: Seq<(Seq<u8>, V)>)
    requires
        keys_sorted(s),
    ensures
        entries_map(s).dom().finite(),
        entries_map(s).len() == s.len(),
    decreases s.len(),
{
    if s.len() == 0 {
        assert(entries_map(s) =~= Map::<Seq<u8>, V>::empty());
    } else {
        lemma_lex_order();
        let t = s.drop_last();
        assert(keys_sorted(t));
        lemma_entries_len(t);
        let k = s.last().0;
        assert(!has_key(t, k)) by {
            if has_key(t, k) {
                let i = choose|i: int| 0 <= i < t.len() && #[trigger] t[i].0 == k;
                assert(lex_lt(s[i].0, s[s.len() - 1].0));
            }
        }
        assert forall|i: int| 0 <= i < s.len() implies #[trigger] entries_map(t).insert(k, s.last().1).contains_key(s[i].0)
            && entries_map(t).insert(k, s.last().1)[s[i].0] == s[i].1 by {
            if i < s.len() - 1 {
                lemma_entries_map_at(t, i);
                assert(t[i] == s[i]);
            }
        }
        assert forall|kk: Seq<u8>| #[trigger] entries_map(t).insert(k, s.last().1).contains_key(kk) implies has_key(s, kk) by {
            if kk == k {
                assert(s[s.len() - 1].0 == kk);
            } else {
                let j = choose|j: int| 0 <= j < t.len() && #[trigger] t[j].0 == kk;
                assert(s[j].0 == kk);
            }
        }
        lemma_entries_map_is(s, entries_map(t).insert(k, s.last().1));
    }
}

} // verus!

//! The in-memory key-value store that commands act on.

use vstd::prelude::*;

verus! {

/// One stored key and its value.
pub struct Entry {
    pub key: String,
    pub value: Vec<u8>,
}

/// A key-value store from text keys to byte-string values.
pub struct Db {
    entries: Vec<Entry>,
}

/// The value stored under `k` in `s`: the last entry with that key wins.
pub open spec fn lookup(s: Seq<Entry>, k: Seq<char>) -> Option<Seq<u8>>
    decreases s.len(),
{
    if s.len() == 0 {
        None
    } else if s.last().key@ == k {
        Some(s.last().value@)
    } else {
        lookup(s.drop_last(), k)
    }
}

pub open spec fn entries_map(s: Seq<Entry>) -> Map<Seq<char>, Seq<u8>> {
    Map::new(|k: Seq<char>| lookup(s, k) is Some, |k: Seq<char>| lookup(s, k)->0)
}

impl View for Db {
    type V = Map<Seq<char>, Seq<u8>>;

    closed spec fn view(&self) -> Map<Seq<char>, Seq<u8>> {
        entries_map(self.entries@)
    }
}

proof fn lemma_lookup_push(s: Seq<Entry>, e: Entry, k: Seq<char>)
    ensures
        lookup(s.push(e), k) == if e.key@ == k {
            Some(e.value@)
        } else {
            lookup(s, k)
        },
{
    assert(s.push(e).drop_last() =~= s);
}

/// A copy of a byte string.
pub fn copy_bytes(v: &Vec<u8>) -> (res: Vec<u8>)
    ensures
        res@ == v@,
{
    let mut res: Vec<u8> = Vec::new();
    let mut i: usize = 0;
    while i < v.len()
        invariant
            i <= v@.len(),
            res@ == v@.subrange(0, i as int),
        decreases v.len() - i,
    {
        res.push(v[i]);
        i += 1;
        assert(res@ =~= v@.subrange(0, i as int));
    }
    assert(v@.subrange(0, v@.len() as int) =~= v@);
    res
}

impl Db {
    /// An empty store.
    pub fn new() -> (res: Db)
        ensures
            res@ == Map::<Seq<char>, Seq<u8>>::empty(),
    {
        let res = Db { entries: Vec::new() };
        assert(res@ =~= Map::<Seq<char>, Seq<u8>>::empty());
        res
    }

    /// The value stored under `key`, if any.
    pub fn get(&self, key: &String) -> (res: Option<Vec<u8>>)
        ensures
            match res {
                Some(v) => self@.contains_key(key@) && self@[key@] == v@,
                None => !self@.contains_key(key@),
            },
    {
        let mut i = self.entries.len();
        assert(self.entries@.subrange(0, i as int) =~= self.entries@);
        while i > 0
            invariant
                i <= self.entries@.len(),
                lookup(self.entries@, key@) == lookup(self.entries@.subrange(0, i as int), key@),
            decreases i,
        {
            let ghost s = self.entries@.subrange(0, i as int);
            assert(s.drop_last() =~= self.entries@.subrange(0, i - 1));
            if self.entries[i - 1].key == *key {
                return Some(copy_bytes(&self.entries[i - 1].value));
            }
            i -= 1;
        }
        None
    }

    /// Removes `key`; true when it was present.
    pub fn del(&mut self, key: &String) -> (res: bool)
        ensures
            final(self)@ == old(self)@.remove(key@),
            res == old(self)@.contains_key(key@),
    {
        let ghost old_entries = self.entries@;
        let mut kept: Vec<Entry> = Vec::new();
        let mut found = false;
        let mut entries = Vec::new();
        std::mem::swap(&mut entries, &mut self.entries);
        let mut i: usize = 0;
        let n = entries.len();
        assert(entries@ == old_entries);
        while i < n
            invariant
                n == entries@.len(),
                0 <= i <= n,
                entries@ == old_entries,
                found == (lookup(old_entries.subrange(0, i as int), key@) is Some),
                forall|k: Seq<char>|
                    #[trigger] lookup(kept@, k) == if k == key@ {
                        None
                    } else {
                        lookup(old_entries.subrange(0, i as int), k)
                    },
            decreases n - i,
        {
            let ghost pre = old_entries.subrange(0, i as int);
            assert(old_entries.subrange(0, i + 1) =~= pre.push(old_entries[i as int]));
            proof {
                assert forall|k: Seq<char>|
                    lookup(pre.push(old_entries[i as int]), k) == if old_entries[i as int].key@
                        == k {
                        Some(old_entries[i as int].value@)
                    } else {
                        lookup(pre, k)
                    } by {
                    lemma_lookup_push(pre, old_entries[i as int], k);
                }
            }
            let e = &entries[i];
            if e.key == *key {
                found = true;
            } else {
                let ghost before = kept@;
                kept.push(Entry { key: e.key.clone(), value: copy_bytes(&e.value) });
                proof {
                    assert forall|k: Seq<char>|
                        #[trigger] lookup(kept@, k) == if k == key@ {
                            None
                        } else {
                            lookup(old_entries.subrange(0, i + 1), k)
                        } by {
                        lemma_lookup_push(before, kept@.last(), k);
                        assert(kept@ == before.push(kept@.last()));
                    }
                }
            }
            i += 1;
        }
        assert(old_entries.subrange(0, n as int) =~= old_entries);
        self.entries = kept;
        assert(self@ =~= old(self)@.remove(key@));
        found
    }

    /// Stores `value` under `key`, replacing any earlier value.
    pub fn set(&mut self, key: String, value: Vec<u8>)
        ensures
            final(self)@ == old(self)@.insert(key@, value@),
    {
        let ghost k = key@;
        let ghost v = value@;
        self.del(&key);
        let ghost mid = self.entries@;
        assert(entries_map(mid) == old(self)@.remove(k));
        self.entries.push(Entry { key, value });
        proof {
            assert forall|j: Seq<char>|
                lookup(self.entries@, j) == if k == j {
                    Some(v)
                } else {
                    lookup(mid, j)
                } by {
                lemma_lookup_push(mid, self.entries@.last(), j);
                assert(self.entries@ == mid.push(self.entries@.last()));
            }
        }
        assert forall|j: Seq<char>| #[trigger] self@.contains_key(j) == old(self)@.insert(
            k,
            v,
        ).contains_key(j) by {
            if j != k {
                assert(entries_map(mid).contains_key(j) == (lookup(mid, j) is Some));
            }
        }
        assert forall|j: Seq<char>| #[trigger] self@.contains_key(j) implies self@[j] == old(
            self,
        )@.insert(k, v)[j] by {
            if j != k {
                assert(entries_map(mid).contains_key(j) == (lookup(mid, j) is Some));
                assert(entries_map(mid)[j] == lookup(mid, j)->0);
            }
        }
        assert(self@ =~= old(self)@.insert(k, v));
    }
}

} // verus!

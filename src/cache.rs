use crate::table::Table;
use vstd::prelude::*;
use vstd::std_specs::cmp::PartialEqSpec;

verus! {

/// `==` on `K` is decided by the values alone: it holds exactly of equal values.
pub open spec fn eq_is_identity<K: PartialEq>() -> bool {
    &&& <K as PartialEqSpec>::obeys_eq_spec()
    &&& forall|a: K, b: K| #[trigger] a.eq_spec(&b) <==> a == b
}

/// Whether some entry has key `k`.
pub open spec fn has_key<K, V>(s: Seq<(K, V)>, k: K) -> bool {
    exists|i: int| 0 <= i < s.len() && s[i].0 == k
}

/// No key occurs twice.
pub open spec fn distinct_keys<K, V>(s: Seq<(K, V)>) -> bool {
    forall|i: int, j: int| 0 <= i < j < s.len() ==> s[i].0 != s[j].0
}

/// A cache of at most `cap` entries that evicts the least recently used one.
///
/// Entries are kept from least to most recently used; a successful `get` and
/// every `put` make the entry the most recently used.
pub struct LRUCache<K, V> {
    entries: Vec<(K, V)>,
    cap: usize,
}

impl<K, V> View for LRUCache<K, V> {
    /// The entries, from least to most recently used.
    type V = Seq<(K, V)>;

    closed spec fn view(&self) -> Seq<(K, V)> {
        self.entries@
    }
}

impl<K: Eq, V> LRUCache<K, V> {
    /// The most entries the cache holds.
    pub closed spec fn capacity(&self) -> nat {
        self.cap as nat
    }

    /// At most `cap` entries, each key once.
    pub closed spec fn wf(&self) -> bool {
        &&& 0 < self.cap
        &&& self.entries@.len() <= self.cap
        &&& distinct_keys(self.entries@)
    }

    /// Cache bound: a well-formed cache holds at most its capacity, which is
    /// positive, and each key once.
    pub proof fn lemma_wf(&self)
        requires
            self.wf(),
        ensures
            self@.len() <= self.capacity(),
            0 < self.capacity(),
            distinct_keys(self@),
    {
    }

    /// An empty cache holding at most `cap` entries.
    pub fn new(cap: usize) -> (c: Self)
        requires
            cap > 0,
        ensures
            c.wf(),
            c.capacity() == cap,
            c@.len() <= c.capacity(),
            c@ == Seq::<(K, V)>::empty(),
    {
        LRUCache { entries: Vec::new(), cap }
    }

    /// Position of the entry with the key, if any.
    fn position(&self, key: &K) -> (r: Option<usize>)
        requires
            eq_is_identity::<K>(),
        ensures
            r is Some == has_key(self@, *key),
            r matches Some(i) ==> i < self@.len() && self@[i as int].0 == *key,
    {
        let mut i: usize = 0;
        while i < self.entries.len()
            invariant
                eq_is_identity::<K>(),
                i <= self.entries@.len(),
                forall|j: int| 0 <= j < i ==> self.entries@[j].0 != *key,
            decreases self.entries@.len() - i,
        {
            if self.entries[i].0 == *key {
                return Some(i);
            }
            i = i + 1;
        }
        None
    }

    /// The value of the key, made the most recently used entry; `None` where
    /// the key is not cached.
    pub fn get(&mut self, key: &K) -> (r: Option<&V>)
        requires
            old(self).wf(),
            eq_is_identity::<K>(),
        ensures
            final(self).wf(),
            final(self).capacity() == old(self).capacity(),
            final(self)@.len() <= final(self).capacity(),
            r is Some == has_key(old(self)@, *key),
            !has_key(old(self)@, *key) ==> final(self)@ == old(self)@,
            forall|i: int|
                0 <= i < old(self)@.len() && old(self)@[i].0 == *key ==> {
                    &&& r == Some(&old(self)@[i].1)
                    &&& final(self)@ == old(self)@.remove(i).push(old(self)@[i])
                },
    {
        match self.position(key) {
            None => None,
            Some(i) => {
                let e = self.entries.remove(i);
                self.entries.push(e);
                proof {
                    let s = old(self)@;
                    assert forall|a: int, b: int|
                        0 <= a < b < self.entries@.len() implies self.entries@[a].0
                        != self.entries@[b].0 by {
                        let sr = s.remove(i as int);
                        if b < sr.len() {
                            assert(sr[a] == s[if a < i { a } else { a + 1 }]);
                            assert(sr[b] == s[if b < i { b } else { b + 1 }]);
                        } else {
                            assert(sr[a] == s[if a < i { a } else { a + 1 }]);
                        }
                    }
                }
                let n = self.entries.len();
                Some(&self.entries[n - 1].1)
            },
        }
    }

    /// Caches the value under the key, as the most recently used entry. Where
    /// the key was cached, its old value is replaced and returned; otherwise a
    /// full cache first evicts its least recently used entry.
    pub fn put(&mut self, key: K, val: V) -> (r: Option<V>)
        requires
            old(self).wf(),
            eq_is_identity::<K>(),
        ensures
            final(self).wf(),
            final(self).capacity() == old(self).capacity(),
            final(self)@.len() <= final(self).capacity(),
            r is Some == has_key(old(self)@, key),
            forall|i: int|
                0 <= i < old(self)@.len() && old(self)@[i].0 == key ==> {
                    &&& r == Some(old(self)@[i].1)
                    &&& final(self)@ == old(self)@.remove(i).push((key, val))
                },
            !has_key(old(self)@, key) && old(self)@.len() < old(self).capacity() ==> final(self)@
                == old(self)@.push((key, val)),
            !has_key(old(self)@, key) && old(self)@.len() == old(self).capacity() ==> final(self)@
                == old(self)@.drop_first().push((key, val)),
    {
        let ghost s = self@;
        match self.position(&key) {
            Some(i) => {
                let (k, prev) = self.entries.remove(i);
                self.entries.push((key, val));
                proof {
                    assert forall|a: int, b: int|
                        0 <= a < b < self.entries@.len() implies self.entries@[a].0
                        != self.entries@[b].0 by {
                        let sr = s.remove(i as int);
                        if b < sr.len() {
                            assert(sr[a] == s[if a < i { a } else { a + 1 }]);
                            assert(sr[b] == s[if b < i { b } else { b + 1 }]);
                        } else {
                            assert(sr[a] == s[if a < i { a } else { a + 1 }]);
                        }
                    }
                }
                Some(prev)
            },
            None => {
                if self.entries.len() == self.cap {
                    self.entries.remove(0);
                    assert(self.entries@ == s.drop_first());
                }
                self.entries.push((key, val));
                None
            },
        }
    }

    /// The number of cached entries.
    pub fn len(&self) -> (r: usize)
        ensures
            r == self@.len(),
    {
        self.entries.len()
    }
}

/// `==` on generation ids compares the numbers.
pub proof fn lemma_u64_eq_is_identity()
    ensures
        eq_is_identity::<u64>(),
{
}

/// The cache of open generation readers, keyed by generation id.
pub struct TableCache {
    cache: LRUCache<u64, Table>,
}

impl View for TableCache {
    type V = Seq<(u64, Table)>;

    closed spec fn view(&self) -> Seq<(u64, Table)> {
        self.cache@
    }
}

impl TableCache {
    /// The most readers the cache holds.
    pub closed spec fn capacity(&self) -> nat {
        self.cache.capacity()
    }

    /// The underlying cache is well formed.
    pub closed spec fn wf(&self) -> bool {
        self.cache.wf()
    }

    /// Cache bound: a well-formed cache holds at most its capacity, which is
    /// positive, and each generation id once.
    pub proof fn lemma_wf(&self)
        requires
            self.wf(),
        ensures
            self@.len() <= self.capacity(),
            0 < self.capacity(),
            distinct_keys(self@),
    {
        self.cache.lemma_wf();
    }

    /// An empty cache of at most `cap` readers; a capacity of zero is taken as one.
    pub fn new(cap: usize) -> (c: TableCache)
        ensures
            c.wf(),
            c.capacity() == if cap == 0 { 1 } else { cap },
            c@ == Seq::<(u64, Table)>::empty(),
    {
        let cap = if cap == 0 { 1 } else { cap };
        TableCache { cache: LRUCache::new(cap) }
    }

    /// The reader of generation `id`, made the most recently used; `None`
    /// where it is not cached.
    pub fn get(&mut self, id: u64) -> (r: Option<&Table>)
        requires
            old(self).wf(),
        ensures
            final(self).wf(),
            final(self).capacity() == old(self).capacity(),
            final(self)@.len() <= final(self).capacity(),
            r is Some == has_key(old(self)@, id),
            !has_key(old(self)@, id) ==> final(self)@ == old(self)@,
            forall|i: int|
                0 <= i < old(self)@.len() && old(self)@[i].0 == id ==> {
                    &&& r == Some(&old(self)@[i].1)
                    &&& final(self)@ == old(self)@.remove(i).push(old(self)@[i])
                },
    {
        proof {
            lemma_u64_eq_is_identity();
        }
        self.cache.get(&id)
    }

    /// Caches the reader of generation `id` as the most recently used,
    /// evicting the least recently used reader of a full cache.
    pub fn put(&mut self, id: u64, table: Table)
        requires
            old(self).wf(),
        ensures
            final(self).wf(),
            final(self).capacity() == old(self).capacity(),
            final(self)@.len() <= final(self).capacity(),
            forall|i: int|
                0 <= i < old(self)@.len() && old(self)@[i].0 == id ==> final(self)@ == old(
                    self,
                )@.remove(i).push((id, table)),
            !has_key(old(self)@, id) && old(self)@.len() < old(self).capacity() ==> final(self)@
                == old(self)@.push((id, table)),
            !has_key(old(self)@, id) && old(self)@.len() == old(self).capacity() ==> final(self)@
                == old(self)@.drop_first().push((id, table)),
    {
        proof {
            lemma_u64_eq_is_identity();
        }
        let _ = self.cache.put(id, table);
    }
}

} // verus!

//! A cache of query results that expire.

use vstd::prelude::*;
use crate::text::same;

verus! {

/// How long a result is kept unless told otherwise: five minutes. Long enough
/// to answer the repeated queries of one session, short enough for a new
/// database to show.
pub const DEFAULT_TTL_NANOS: u128 = 300_000_000_000;

/// A result, the query it answers, and when it was stored.
pub struct CacheEntry<V> {
    pub key: String,
    pub value: V,
    pub stored_at: u128,
}

/// Results of read-only queries, each under the text of its query. Times are
/// in nanoseconds on a clock that does not go back.
pub struct QueryCache<V> {
    pub ttl: u128,
    pub entries: Vec<CacheEntry<V>>,
}

impl<V> QueryCache<V> {
    /// No two results are stored under one key.
    pub open spec fn wf(&self) -> bool {
        forall|i: int, j: int|
            0 <= i < j < self.entries@.len() ==> (#[trigger] self.entries@[i]).key@ != (
            #[trigger] self.entries@[j]).key@
    }

    /// The place of the result under a key, from index `i` on.
    pub open spec fn index_from(&self, key: Seq<char>, i: int) -> Option<int>
        decreases self.entries@.len() - i,
    {
        if i >= self.entries@.len() {
            None
        } else if self.entries@[i].key@ == key {
            Some(i)
        } else {
            self.index_from(key, i + 1)
        }
    }

    /// The result under a key, and when it was stored.
    pub open spec fn stored(&self, key: Seq<char>) -> Option<(V, u128)> {
        match self.index_from(key, 0) {
            Some(i) => Some((self.entries@[i].value, self.entries@[i].stored_at)),
            None => None,
        }
    }

    /// The result under a key that is younger than the time to live; one that
    /// was stored at a later time is new.
    pub open spec fn fresh(&self, key: Seq<char>, now: u128) -> Option<V> {
        match self.stored(key) {
            Some((value, at)) => if (if now >= at {
                now - at
            } else {
                0
            }) < self.ttl {
                Some(value)
            } else {
                None
            },
            None => None,
        }
    }

    proof fn lemma_index_from(&self, key: Seq<char>, i: int)
        requires
            0 <= i,
        ensures
            match self.index_from(key, i) {
                Some(k) => i <= k < self.entries@.len() && self.entries@[k].key@ == key && forall|
                    j: int,
                |
                    i <= j < k ==> (#[trigger] self.entries@[j]).key@ != key,
                None => forall|j: int|
                    i <= j < self.entries@.len() ==> (#[trigger] self.entries@[j]).key@ != key,
            },
        decreases self.entries@.len() - i,
    {
        if i < self.entries@.len() && self.entries@[i].key@ != key {
            self.lemma_index_from(key, i + 1);
        }
    }

    /// An empty cache.
    pub fn new(ttl: u128) -> (r: QueryCache<V>)
        ensures
            r.wf(),
            r.ttl == ttl,
            forall|key: Seq<char>| #[trigger] r.stored(key) is None,
    {
        QueryCache { ttl, entries: Vec::new() }
    }

    fn index_of(&self, key: &str) -> (r: Option<usize>)
        ensures
            match r {
                Some(i) => i < self.entries@.len() && self.index_from(key@, 0) == Some(i as int),
                None => self.index_from(key@, 0) is None,
            },
    {
        let mut i: usize = 0;
        while i < self.entries.len()
            invariant
                i <= self.entries@.len(),
                self.index_from(key@, 0) == self.index_from(key@, i as int),
            decreases self.entries@.len() - i,
        {
            if same(self.entries[i].key.as_str(), key) {
                return Some(i);
            }
            i += 1;
        }
        None
    }

    /// The result under a key, if it is there and has not expired.
    pub fn get(&self, key: &str, now: u128) -> (r: Option<&V>)
        ensures
            match r {
                Some(v) => self.fresh(key@, now) == Some(*v),
                None => self.fresh(key@, now) is None,
            },
    {
        match self.index_of(key) {
            Some(i) => {
                let at = self.entries[i].stored_at;
                let age: u128 = if now >= at {
                    now - at
                } else {
                    0
                };
                if age < self.ttl {
                    Some(&self.entries[i].value)
                } else {
                    None
                }
            },
            None => None,
        }
    }

    /// Stores a result under a key, over any that is there.
    pub fn put(&mut self, key: String, value: V, now: u128)
        requires
            old(self).wf(),
        ensures
            final(self).wf(),
            final(self).ttl == old(self).ttl,
            final(self).stored(key@) == Some((value, now)),
            forall|other: Seq<char>|
                other != key@ ==> #[trigger] final(self).stored(other) == old(self).stored(other),
    {
        let ghost before = *self;
        let ghost k = key@;
        match self.index_of(key.as_str()) {
            Some(i) => {
                proof {
                    self.lemma_index_from(k, 0);
                }
                self.entries[i] = CacheEntry { key, value, stored_at: now };
                proof {
                    self.lemma_index_from(k, 0);
                    assert(self.entries@[i as int].key@ == k);
                    assert forall|other: Seq<char>| other != k implies #[trigger] self.stored(other)
                        == before.stored(other) by {
                        self.lemma_index_from(other, 0);
                        before.lemma_index_from(other, 0);
                        if let Some(p) = before.index_from(other, 0) {
                            assert(self.entries@[p].key@ == other);
                        }
                        if let Some(q) = self.index_from(other, 0) {
                            assert(before.entries@[q].key@ == other);
                        }
                    }
                }
            },
            None => {
                proof {
                    self.lemma_index_from(k, 0);
                }
                self.entries.push(CacheEntry { key, value, stored_at: now });
                proof {
                    let n = before.entries@.len() as int;
                    assert(self.entries@[n].key@ == k);
                    assert(forall|j: int| 0 <= j < n ==> self.entries@[j] == before.entries@[j]);
                    self.lemma_index_from(k, 0);
                    assert forall|other: Seq<char>| other != k implies #[trigger] self.stored(other)
                        == before.stored(other) by {
                        self.lemma_index_from(other, 0);
                        before.lemma_index_from(other, 0);
                        if let Some(p) = before.index_from(other, 0) {
                            assert(self.entries@[p].key@ == other);
                        }
                        if let Some(q) = self.index_from(other, 0) {
                            assert(before.entries@[q].key@ == other);
                        }
                    }
                }
            },
        }
    }
}

impl<V> Default for QueryCache<V> {
    /// An empty cache that keeps results for five minutes.
    fn default() -> (r: QueryCache<V>)
        ensures
            r.wf(),
            r.ttl == DEFAULT_TTL_NANOS,
            forall|key: Seq<char>| #[trigger] r.stored(key) is None,
    {
        QueryCache::new(DEFAULT_TTL_NANOS)
    }
}

/// A result that was stored is found until it is as old as the time to live,
/// and not from then on. Seen from before it was stored it has no age.
pub proof fn law_stored_until_expired<V>(
    cache: QueryCache<V>,
    key: Seq<char>,
    value: V,
    stored_at: u128,
    now: u128,
)
    requires
        cache.wf(),
        cache.stored(key) == Some((value, stored_at)),
    ensures
        0 <= now - stored_at < cache.ttl ==> cache.fresh(key, now) == Some(value),
        stored_at <= now && now - stored_at >= cache.ttl ==> cache.fresh(key, now) is None,
        now < stored_at && cache.ttl > 0 ==> cache.fresh(key, now) == Some(value),
{
}

} // verus!

//! The shared source cache: fetched source bytes keyed by a stable hash of the
//! source URL, held in a fixed-capacity least-recently-used map.
use vstd::prelude::*;
use lru::LruCache;
use std::collections::hash_map::DefaultHasher;
use std::hash::{Hash, Hasher};

verus! {

#[verifier::external_type_specification]
#[verifier::external_body]
#[verifier::reject_recursive_types(K)]
#[verifier::reject_recursive_types(V)]
#[verifier::reject_recursive_types(S)]
pub struct ExLruCache<K, V, S>(LruCache<K, V, S>);

#[verifier::external_type_specification]
#[verifier::external_body]
pub struct ExLruHasher(lru::DefaultHasher);

/// A least-recently-used map from URL keys to source bytes.
pub type ByteLru = LruCache<u64, Vec<u8>>;

/// The keys of a cache, least recently used first.
pub uninterp spec fn lru_order(c: ByteLru) -> Seq<u64>;

/// The bytes stored under each key of a cache.
pub uninterp spec fn lru_values(c: ByteLru) -> Map<u64, Seq<u8>>;

/// The number of entries a cache was made to hold.
pub uninterp spec fn lru_capacity(c: ByteLru) -> nat;

/// The stable hash of a source URL.
pub uninterp spec fn url_key(url: Seq<char>) -> u64;

/// The contents of a least-recently-used map, as plain values.
pub struct LruModel {
    pub order: Seq<u64>,
    pub values: Map<u64, Seq<u8>>,
    pub cap: nat,
}

impl LruModel {
    /// Each key once in the recency order, the order naming exactly the stored
    /// keys, and no more of them than the capacity.
    pub open spec fn wf(self) -> bool {
        &&& self.order.no_duplicates()
        &&& self.order.to_set() == self.values.dom()
        &&& self.order.len() <= self.cap
    }

    /// Stores `v` under `k` as the most recently used entry; when a new key
    /// finds the map full, the least recently used entry leaves first.
    pub open spec fn put(self, k: u64, v: Seq<u8>) -> LruModel {
        if self.values.contains_key(k) {
            LruModel { order: self.order.remove_value(k).push(k), values: self.values.insert(k, v), cap: self.cap }
        } else if self.cap == 0 {
            self
        } else if self.order.len() >= self.cap {
            LruModel {
                order: self.order.drop_first().push(k),
                values: self.values.remove(self.order[0]).insert(k, v),
                cap: self.cap,
            }
        } else {
            LruModel { order: self.order.push(k), values: self.values.insert(k, v), cap: self.cap }
        }
    }

    /// A lookup of a stored key makes it the most recently used one.
    pub open spec fn touch(self, k: u64) -> LruModel {
        if self.values.contains_key(k) {
            LruModel { order: self.order.remove_value(k).push(k), values: self.values, cap: self.cap }
        } else {
            self
        }
    }
}

pub open spec fn lru_model(c: ByteLru) -> LruModel {
    LruModel { order: lru_order(c), values: lru_values(c), cap: lru_capacity(c) }
}

/// The largest capacity a cache is made with; the map behind it reserves
/// room for all entries up front.
pub const MAX_CAPACITY: usize = 1048576;

/// Relies on lru::LruCache::new: an empty cache that holds at most `cap` entries.
#[verifier::external_body]
fn lru_new(cap: usize) -> (r: ByteLru)
    requires
        cap <= MAX_CAPACITY,
    ensures
        lru_order(r).len() == 0,
        lru_values(r).dom() == Set::<u64>::empty(),
        lru_capacity(r) == cap as nat,
{
    LruCache::new(cap)
}

/// Relies on lru::LruCache::get: the stored bytes, if any, and the key moved
/// to the most recently used place.
#[verifier::external_body]
fn lru_get(c: &mut ByteLru, k: u64) -> (r: Option<Vec<u8>>)
    ensures
        lru_model(*final(c)) == lru_model(*old(c)).touch(k),
        lru_model(*old(c)).wf() ==> lru_model(*final(c)).wf(),
        match r {
            Some(v) => lru_values(*old(c)).contains_key(k) && v@ == lru_values(*old(c))[k],
            None => !lru_values(*old(c)).contains_key(k),
        },
{
    c.get(&k).cloned()
}

/// Relies on lru::LruCache::put: the entry replaced or added as the most
/// recently used one, the least recently used one leaving a full cache.
#[verifier::external_body]
fn lru_put(c: &mut ByteLru, k: u64, v: &Vec<u8>)
    ensures
        lru_model(*final(c)) == lru_model(*old(c)).put(k, v@),
        lru_model(*old(c)).wf() ==> lru_model(*final(c)).wf(),
{
    c.put(k, v.clone());
}

/// Relies on std's DefaultHasher, made with `new` and so unseeded: the hash of
/// the URL text depends on that text alone.
#[verifier::external_body]
fn hash_url(url: &str) -> (r: u64)
    ensures
        r == url_key(url@),
{
    let mut hasher = DefaultHasher::new();
    url.hash(&mut hasher);
    hasher.finish()
}

/// Why a source could not be had.
#[derive(Clone, Copy, Debug, PartialEq, Eq, Structural)]
pub enum FetchError {
    /// The request did not complete.
    Unreachable,
    /// The upstream answered with a status outside 200..=299.
    BadStatus(u16),
}

/// The fetched source bytes, keyed by URL.
pub struct SourceCache {
    entries: ByteLru,
}

impl SourceCache {
    pub closed spec fn view(&self) -> LruModel {
        lru_model(self.entries)
    }

    pub open spec fn wf(&self) -> bool {
        self@.wf()
    }

    /// An empty cache that holds at most `capacity` sources.
    pub fn new(capacity: usize) -> (r: SourceCache)
        requires
            capacity <= MAX_CAPACITY,
        ensures
            r.wf(),
            r@.order.len() == 0,
            r@.values.dom() == Set::<u64>::empty(),
            r@.cap == capacity,
    {
        let r = SourceCache { entries: lru_new(capacity) };
        assert(r@.order.to_set() =~= r@.values.dom());
        r
    }

    /// The key under which the bytes of `url` are stored.
    pub fn key(url: &str) -> (r: u64)
        ensures
            r == url_key(url@),
    {
        hash_url(url)
    }

    /// The stored bytes of `url`, if any; a hit makes the entry the most
    /// recently used. On `None` the caller fetches and hands the outcome to
    /// `complete_fetch`.
    pub fn lookup(&mut self, url: &str) -> (r: Option<Vec<u8>>)
        requires
            old(self).wf(),
        ensures
            final(self).wf(),
            final(self)@ == old(self)@.touch(url_key(url@)),
            match r {
                Some(v) => old(self)@.values.contains_key(url_key(url@)) && v@ == old(self)@.values[url_key(url@)],
                None => !old(self)@.values.contains_key(url_key(url@)),
            },
    {
        let k = hash_url(url);
        lru_get(&mut self.entries, k)
    }

    /// Takes the outcome of a fetch of `url`: a success status stores the body
    /// and hands it back; any other status is an error and stores nothing.
    pub fn complete_fetch(&mut self, url: &str, status: u16, body: Vec<u8>) -> (r: Result<Vec<u8>, FetchError>)
        requires
            old(self).wf(),
        ensures
            final(self).wf(),
            200 <= status <= 299 ==> r == Ok::<Vec<u8>, FetchError>(body)
                && final(self)@ == old(self)@.put(url_key(url@), body@),
            !(200 <= status <= 299) ==> r == Err::<Vec<u8>, FetchError>(FetchError::BadStatus(status))
                && final(self)@ == old(self)@,
    {
        if 200 <= status && status <= 299 {
            let k = hash_url(url);
            lru_put(&mut self.entries, k, &body);
            Ok(body)
        } else {
            Err(FetchError::BadStatus(status))
        }
    }
}

/// Once a source is stored, the next lookup of it is a hit with the same bytes,
/// so no second fetch is made.
pub proof fn lemma_hit_after_store(m: LruModel, k: u64, v: Seq<u8>)
    requires
        m.wf(),
        m.cap > 0,
    ensures
        m.put(k, v).values.contains_key(k),
        m.put(k, v).values[k] == v,
{
}

/// Storing a new key in a full cache evicts exactly the least recently used
/// key, which a later lookup then misses.
pub proof fn lemma_evicts_least_recent(m: LruModel, k: u64, v: Seq<u8>)
    requires
        m.wf(),
        m.cap > 0,
        m.order.len() == m.cap,
        !m.values.contains_key(k),
    ensures
        m.put(k, v).values.dom() == m.values.dom().remove(m.order[0]).insert(k),
        !m.put(k, v).values.contains_key(m.order[0]),
        m.put(k, v).order.len() == m.cap,
{
    assert(m.order.contains(m.order[0]));
    assert(m.put(k, v).values.dom() =~= m.values.dom().remove(m.order[0]).insert(k));
}


/// The model after storing each key with its bytes, first to last.
pub open spec fn put_all(m: LruModel, keys: Seq<u64>, vals: Seq<Seq<u8>>) -> LruModel
    decreases keys.len(),
{
    if keys.len() == 0 || vals.len() != keys.len() {
        m
    } else {
        put_all(m, keys.drop_last(), vals.drop_last()).put(keys.last(), vals.last())
    }
}

pub open spec fn empty_model(cap: nat) -> LruModel {
    LruModel { order: Seq::empty(), values: Map::empty(), cap }
}

proof fn lemma_fill(cap: nat, keys: Seq<u64>, vals: Seq<Seq<u8>>)
    requires
        keys.no_duplicates(),
        keys.len() <= cap,
        vals.len() == keys.len(),
    ensures
        put_all(empty_model(cap), keys, vals).order == keys,
        put_all(empty_model(cap), keys, vals).wf(),
        put_all(empty_model(cap), keys, vals).cap == cap,
    decreases keys.len(),
{
    if keys.len() == 0 {
        assert(keys =~= Seq::<u64>::empty());
        assert(empty_model(cap).order.to_set() =~= empty_model(cap).values.dom());
    } else {
        let front = keys.drop_last();
        let k = keys.last();
        assert(front.no_duplicates()) by {
            assert forall|i: int, j: int| 0 <= i < front.len() && 0 <= j < front.len() && i != j implies front[i] != front[j] by {
                assert(front[i] == keys[i] && front[j] == keys[j]);
            }
        }
        lemma_fill(cap, front, vals.drop_last());
        let m = put_all(empty_model(cap), front, vals.drop_last());
        assert(!front.contains(k)) by {
            if front.contains(k) {
                let i = choose|i: int| 0 <= i < front.len() && front[i] == k;
                assert(keys[i] == keys[keys.len() - 1]);
            }
        }
        assert(!m.order.to_set().contains(k));
        assert(!m.values.contains_key(k));
        assert(front.push(k) =~= keys);
        let n = m.put(k, vals.last());
        assert(n.order.to_set() =~= n.values.dom()) by {
            assert forall|x: u64| n.order.to_set().contains(x) <==> n.values.dom().contains(x) by {
                if n.order.to_set().contains(x) {
                    let i = choose|i: int| 0 <= i < n.order.len() && n.order[i] == x;
                    if i < front.len() {
                        assert(front[i] == x);
                        assert(m.order.to_set().contains(x));
                    }
                }
                if n.values.dom().contains(x) && x != k {
                    assert(m.order.to_set().contains(x));
                    let i = choose|i: int| 0 <= i < m.order.len() && m.order[i] == x;
                    assert(n.order[i] == x);
                }
                if x == k {
                    assert(n.order[n.order.len() - 1] == k);
                }
            }
        }
    }
}

/// Storing `cap + 1` distinct keys into an empty cache evicts exactly the
/// first of them, the least recently used; every other key stays, so a later
/// lookup misses the first key only.
pub proof fn lemma_fill_past_capacity(cap: nat, keys: Seq<u64>, vals: Seq<Seq<u8>>)
    requires
        cap > 0,
        keys.no_duplicates(),
        keys.len() == cap + 1,
        vals.len() == keys.len(),
    ensures
        put_all(empty_model(cap), keys, vals).values.dom() == keys.drop_first().to_set(),
        !put_all(empty_model(cap), keys, vals).values.contains_key(keys[0]),
        put_all(empty_model(cap), keys, vals).order == keys.drop_first(),
        put_all(empty_model(cap), keys, vals).wf(),
{
    let front = keys.drop_last();
    assert(front.no_duplicates()) by {
        assert forall|i: int, j: int| 0 <= i < front.len() && 0 <= j < front.len() && i != j implies front[i] != front[j] by {
            assert(front[i] == keys[i] && front[j] == keys[j]);
        }
    }
    lemma_fill(cap, front, vals.drop_last());
    let m = put_all(empty_model(cap), front, vals.drop_last());
    let k = keys.last();
    assert(!front.contains(k)) by {
        if front.contains(k) {
            let i = choose|i: int| 0 <= i < front.len() && front[i] == k;
            assert(keys[i] == keys[keys.len() - 1]);
        }
    }
    assert(!m.order.to_set().contains(k));
    lemma_evicts_least_recent(m, k, vals.last());
    let n = m.put(k, vals.last());
    assert(n.order =~= keys.drop_first());
    assert(n.order.no_duplicates()) by {
        assert forall|i: int, j: int| 0 <= i < n.order.len() && 0 <= j < n.order.len() && i != j implies n.order[i] != n.order[j] by {
            assert(n.order[i] == keys[i + 1] && n.order[j] == keys[j + 1]);
        }
    }
    assert(n.values.dom() =~= keys.drop_first().to_set()) by {
        assert forall|x: u64| n.values.dom().contains(x) <==> keys.drop_first().to_set().contains(x) by {
            if keys.drop_first().to_set().contains(x) {
                let i = choose|i: int| 0 <= i < keys.drop_first().len() && keys.drop_first()[i] == x;
                if i + 1 < front.len() {
                    assert(front[i + 1] == x);
                    assert(m.order.to_set().contains(x));
                    assert(x != keys[0]);
                }
            }
            if n.values.dom().contains(x) && x != k {
                assert(m.order.to_set().contains(x));
                let i = choose|i: int| 0 <= i < m.order.len() && m.order[i] == x;
                assert(i != 0);
                assert(keys.drop_first()[i - 1] == x);
            }
            if x == k {
                assert(keys.drop_first()[keys.len() - 2] == k);
            }
        }
    }
    assert(n.order.to_set() =~= keys.drop_first().to_set());
}

/// After `cap + 1` distinct stores, a retrieve of the evicted first key misses,
/// so it is fetched again; storing it makes it the most recently used entry
/// and evicts the second key, now the least recently used.
pub proof fn lemma_refetch_evicted(cap: nat, keys: Seq<u64>, vals: Seq<Seq<u8>>, v: Seq<u8>)
    requires
        cap > 0,
        keys.no_duplicates(),
        keys.len() == cap + 1,
        vals.len() == keys.len(),
    ensures
        ({
            let m = put_all(empty_model(cap), keys, vals);
            let n = m.put(keys[0], v);
            &&& !m.values.contains_key(keys[0])
            &&& m.touch(keys[0]) == m
            &&& n.values.contains_key(keys[0]) && n.values[keys[0]] == v
            &&& n.order.last() == keys[0]
            &&& !n.values.contains_key(keys[1])
            &&& n.wf()
        }),
{
    lemma_fill_past_capacity(cap, keys, vals);
    let m = put_all(empty_model(cap), keys, vals);
    assert(m.order[0] == keys[1]);
    assert(m.order.len() == cap);
    assert(m.cap == cap) by {
        lemma_fill(cap, keys.drop_last(), vals.drop_last());
    }
    lemma_evicts_least_recent(m, keys[0], v);
    lemma_put_keeps_wf(m, keys[0], v);
}

/// Storing keeps a well-formed model well-formed.
pub proof fn lemma_put_keeps_wf(m: LruModel, k: u64, v: Seq<u8>)
    requires
        m.wf(),
    ensures
        m.put(k, v).wf(),
{
    let n = m.put(k, v);
    if m.values.contains_key(k) {
        assert(m.order.contains(k));
        m.order.index_of_first_ensures(k);
        let i = m.order.index_of_first(k)->Some_0;
        assert(m.order.remove_value(k) == m.order.remove(i));
        let o = m.order.remove(i);
        assert(o.no_duplicates()) by {
            assert forall|a: int, b: int| 0 <= a < o.len() && 0 <= b < o.len() && a != b implies o[a] != o[b] by {
                let a2 = if a < i { a } else { a + 1 };
                let b2 = if b < i { b } else { b + 1 };
                assert(o[a] == m.order[a2] && o[b] == m.order[b2]);
            }
        }
        assert forall|x: u64| #[trigger] o.contains(x) <==> m.order.contains(x) && x != k by {
            if o.contains(x) {
                let a = choose|a: int| 0 <= a < o.len() && o[a] == x;
                let a2 = if a < i { a } else { a + 1 };
                assert(m.order[a2] == x);
                assert(a2 != i);
            }
            if m.order.contains(x) && x != k {
                let a = choose|a: int| 0 <= a < m.order.len() && m.order[a] == x;
                assert(a != i);
                if a < i {
                    assert(o[a] == x);
                } else {
                    assert(o[a - 1] == x);
                }
            }
        }
        assert(n.order.no_duplicates()) by {
            assert forall|a: int, b: int| 0 <= a < n.order.len() && 0 <= b < n.order.len() && a != b implies n.order[a] != n.order[b] by {
                if a < o.len() && b < o.len() {
                    assert(n.order[a] == o[a] && n.order[b] == o[b]);
                } else if a < o.len() {
                    assert(n.order[a] == o[a]);
                    assert(o.contains(o[a]));
                } else if b < o.len() {
                    assert(n.order[b] == o[b]);
                    assert(o.contains(o[b]));
                }
            }
        }
        assert(n.order.to_set() =~= n.values.dom()) by {
            assert forall|x: u64| n.order.to_set().contains(x) <==> n.values.dom().contains(x) by {
                if n.order.to_set().contains(x) {
                    let a = choose|a: int| 0 <= a < n.order.len() && n.order[a] == x;
                    if a < o.len() {
                        assert(o[a] == x);
                        assert(o.contains(x));
                        assert(m.order.to_set().contains(x));
                    }
                }
                if n.values.dom().contains(x) && x != k {
                    assert(m.order.to_set().contains(x));
                    assert(m.order.contains(x));
                    assert(o.contains(x));
                    let a = choose|a: int| 0 <= a < o.len() && o[a] == x;
                    assert(n.order[a] == x);
                }
                if x == k {
                    assert(n.order[n.order.len() - 1] == k);
                }
            }
        }
        assert(m.order.len() == o.len() + 1);
    } else if m.cap == 0 {
    } else if m.order.len() >= m.cap {
        assert(m.order.contains(m.order[0]));
        let o = m.order.drop_first();
        assert(!m.order.contains(k)) by {
            if m.order.contains(k) {
                let a = choose|a: int| 0 <= a < m.order.len() && m.order[a] == k;
                assert(m.order.to_set().contains(k));
            }
        }
        assert(n.order.no_duplicates()) by {
            assert forall|a: int, b: int| 0 <= a < n.order.len() && 0 <= b < n.order.len() && a != b implies n.order[a] != n.order[b] by {
                if a < o.len() {
                    assert(n.order[a] == m.order[a + 1]);
                }
                if b < o.len() {
                    assert(n.order[b] == m.order[b + 1]);
                }
            }
        }
        assert(n.order.to_set() =~= n.values.dom()) by {
            assert forall|x: u64| n.order.to_set().contains(x) <==> n.values.dom().contains(x) by {
                if n.order.to_set().contains(x) {
                    let a = choose|a: int| 0 <= a < n.order.len() && n.order[a] == x;
                    if a < o.len() {
                        assert(m.order[a + 1] == x);
                        assert(m.order[0] != x);
                        assert(m.order.to_set().contains(x));
                    }
                }
                if n.values.dom().contains(x) && x != k {
                    assert(m.order.to_set().contains(x));
                    let a = choose|a: int| 0 <= a < m.order.len() && m.order[a] == x;
                    assert(a != 0);
                    assert(n.order[a - 1] == x);
                }
                if x == k {
                    assert(n.order[n.order.len() - 1] == k);
                }
            }
        }
    } else {
        assert(!m.order.contains(k)) by {
            if m.order.contains(k) {
                let a = choose|a: int| 0 <= a < m.order.len() && m.order[a] == k;
                assert(m.order.to_set().contains(k));
            }
        }
        assert(n.order.no_duplicates()) by {
            assert forall|a: int, b: int| 0 <= a < n.order.len() && 0 <= b < n.order.len() && a != b implies n.order[a] != n.order[b] by {
                if a < m.order.len() {
                    assert(n.order[a] == m.order[a]);
                }
                if b < m.order.len() {
                    assert(n.order[b] == m.order[b]);
                }
            }
        }
        assert(n.order.to_set() =~= n.values.dom()) by {
            assert forall|x: u64| n.order.to_set().contains(x) <==> n.values.dom().contains(x) by {
                if n.order.to_set().contains(x) {
                    let a = choose|a: int| 0 <= a < n.order.len() && n.order[a] == x;
                    if a < m.order.len() {
                        assert(m.order[a] == x);
                        assert(m.order.to_set().contains(x));
                    }
                }
                if n.values.dom().contains(x) && x != k {
                    assert(m.order.to_set().contains(x));
                    let a = choose|a: int| 0 <= a < m.order.len() && m.order[a] == x;
                    assert(n.order[a] == x);
                }
                if x == k {
                    assert(n.order[n.order.len() - 1] == k);
                }
            }
        }
    }
}

} // verus!

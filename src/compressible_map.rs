use crate::bincode_lz4::BincodeLz4;
use crate::compression::{Compressed, Compression};
use crate::local_cache::{LocalAccess, LocalCache};
use crate::lru_cache::{
    lemma_filter_move_to_end, lemma_marked_suffix, lemma_without, without, EntryState, LruCache,
};
use std::collections::HashMap;
use vstd::prelude::*;
use vstd::std_specs::iter::IteratorSpec;

verus! {

broadcast use vstd::std_specs::hash::group_hash_axioms;

/// The values that replaying `accesses` brings back into the cache: those decompressed
/// privately for keys that are still compressed.
pub open spec fn promoted<V, C>(accesses: Map<u64, LocalAccess<V>>, compressed: Map<u64, C>) -> Map<
    u64,
    V,
> {
    Map::new(
        |k: u64| accesses.contains_key(k) && accesses[k] is Missed && compressed.contains_key(k),
        |k: u64| accesses[k]->Missed_0,
    )
}

/// A value in one of its two forms.
pub enum MaybeCompressed<D, C> {
    Decompressed(D),
    Compressed(C),
}

/// A hash map that can compress its least recently used values.
///
/// Each key is either cached (its value is held as is and takes part in the recency
/// order) or compressed (its value is held in the compressed store). `compress_lru`
/// moves the least recently used cached value into the compressed store; any access
/// through `&mut self` that finds a compressed value decompresses it and caches it again.
///
/// Access through `&self` (`get_const`) cannot change the map: it records what it did in a
/// `LocalCache`, which `flush_local_cache` later replays against the map.
pub struct CompressibleMap<A: Compression> {
    cache: LruCache<A::Data>,
    compressed: HashMap<u64, Compressed<A>>,
    compression_params: A,
}

impl<A: Compression> CompressibleMap<A> {
    /// The cached values.
    pub closed spec fn cached(&self) -> Map<u64, A::Data> {
        Map::new(|k: u64| self.cache.is_live(k), |k: u64| self.cache.live_value(k))
    }

    /// The compressed values.
    pub closed spec fn compressed(&self) -> Map<u64, Compressed<A>> {
        self.compressed@
    }

    /// The cached keys, least recently used first.
    pub closed spec fn recency(&self) -> Seq<u64> {
        self.cache.order@
    }

    /// Every key of the map.
    pub closed spec fn key_set(&self) -> Set<u64> {
        self.cache.entries@.dom()
    }

    pub closed spec fn params(&self) -> A {
        self.compression_params
    }

    /// The map is consistent: the recency store is well formed, a key is compressed exactly
    /// when the recency store holds it as evicted, and every compressed value can be
    /// decompressed.
    pub closed spec fn wf(&self) -> bool {
        &&& self.cache.wf()
        &&& forall|k: u64| #[trigger]
            self.compressed@.contains_key(k) <==> (self.cache.entries@.contains_key(k)
                && self.cache.entries@[k] is Evicted)
        &&& forall|k: u64| #[trigger]
            self.compressed@.contains_key(k) ==> A::decodable(self.compressed@[k].compressed_data)
    }

    /// Every key is in exactly one of three states: cached, compressed, or absent from
    /// both; the recency order holds the cached keys, each once.
    pub proof fn lemma_key_states(&self, k: u64)
        requires
            self.wf(),
        ensures
            !(self.cached().contains_key(k) && self.compressed().contains_key(k)),
            self.key_set().contains(k) <==> (self.cached().contains_key(k) || self.compressed().contains_key(k)),
            self.cached().contains_key(k) <==> self.recency().contains(k),
            self.recency().no_duplicates(),
            self.compressed().contains_key(k) ==> A::decodable(self.compressed()[k].compressed_data),
    {
        if self.recency().contains(k) {
            let i = choose|i: int| 0 <= i < self.recency().len() && self.recency()[i] == k;
            assert(self.cache.is_live(self.cache.order@[i]));
        }
    }

    /// The number of keys is the number of cached keys plus the number of compressed keys.
    proof fn lemma_len_split(&self)
        requires
            self.wf(),
        ensures
            self.recency().len() + self.compressed().dom().len() == self.key_set().len(),
            self.key_set().finite(),
    {
        let live = self.cache.order@.to_set();
        let comp = self.compressed@.dom();
        self.cache.order@.unique_seq_to_set();
        assert forall|k: u64| live.contains(k) implies self.cache.is_live(k) by {
            let i = choose|i: int| 0 <= i < self.cache.order@.len() && self.cache.order@[i] == k;
            assert(self.cache.is_live(self.cache.order@[i]));
        }
        assert(live.disjoint(comp));
        assert forall|k: u64| self.key_set().contains(k) implies (live + comp).contains(k) by {
            if self.cache.is_live(k) {
                assert(self.cache.order@.contains(k));
            }
        }
        assert(live + comp =~= self.key_set());
        vstd::set_lib::lemma_set_disjoint_lens(live, comp);
    }

    /// Facts that tie the map's views to the recency store's own.
    proof fn lemma_views(&self)
        requires
            self.wf(),
        ensures
            forall|k: u64| #[trigger] self.cached().contains_key(k) <==> self.cache.is_live(k),
            forall|k: u64| #[trigger] self.cached().contains_key(k) ==> self.cached()[k] == self.cache.live_value(k),
    {
    }

    /// `post` holds the same entries, in the same recency order, as `pre`.
    pub open spec fn unchanged(pre: Self, post: Self) -> bool {
        &&& post.wf()
        &&& post.cached() == pre.cached()
        &&& post.compressed() == pre.compressed()
        &&& post.recency() == pre.recency()
        &&& post.key_set() == pre.key_set()
        &&& post.params() == pre.params()
    }

    /// `post` is what `insert(key, value)` makes of `pre`: `value` is cached under `key` as
    /// the most recently used entry, and a compressed value of `key` is dropped.
    pub open spec fn inserted(pre: Self, post: Self, key: u64, value: A::Data) -> bool {
        &&& post.wf()
        &&& post.cached() == pre.cached().insert(key, value)
        &&& post.compressed() == pre.compressed().remove(key)
        &&& post.recency() == without(pre.recency(), key).push(key)
        &&& post.key_set() == pre.key_set().insert(key)
        &&& post.params() == pre.params()
    }

    /// `post` is what `compress_lru` makes of `pre`: the least recently used cached value is
    /// compressed with the map's parameters and moved to the compressed store.
    pub open spec fn lru_compressed(pre: Self, post: Self) -> bool {
        &&& post.wf()
        &&& post.key_set() == pre.key_set()
        &&& post.params() == pre.params()
        &&& pre.recency().len() == 0 ==> Self::unchanged(pre, post)
        &&& pre.recency().len() > 0 ==> {
            let k = pre.recency()[0];
            &&& pre.cached().contains_key(k)
            &&& post.cached() == pre.cached().remove(k)
            &&& post.compressed().contains_key(k)
            &&& pre.params().compresses_to(pre.cached()[k], post.compressed()[k].compressed_data)
            &&& post.compressed() == pre.compressed().insert(k, post.compressed()[k])
            &&& post.recency() == pre.recency().subrange(1, pre.recency().len() as int)
        }
    }

    /// `post` and `r` are what `remove_lru` makes of `pre`: the least recently used cached
    /// entry is deleted and returned.
    pub open spec fn lru_removed(pre: Self, post: Self, r: Option<(u64, A::Data)>) -> bool {
        &&& post.wf()
        &&& post.params() == pre.params()
        &&& post.compressed() == pre.compressed()
        &&& pre.recency().len() == 0 ==> r is None && Self::unchanged(pre, post)
        &&& pre.recency().len() > 0 ==> {
            let k = pre.recency()[0];
            &&& pre.cached().contains_key(k)
            &&& r == Some((k, pre.cached()[k]))
            &&& post.cached() == pre.cached().remove(k)
            &&& post.recency() == pre.recency().subrange(1, pre.recency().len() as int)
            &&& post.key_set() == pre.key_set().remove(k)
        }
    }

    /// `post` and `v` are what `get(key)` makes of `pre` for a `key` of the map: `v` is the
    /// value of `key` (decompressed if it was compressed), which becomes cached and most
    /// recently used.
    pub open spec fn got(pre: Self, post: Self, key: u64, v: A::Data) -> bool {
        &&& post.wf()
        &&& post.key_set() == pre.key_set()
        &&& post.params() == pre.params()
        &&& pre.cached().contains_key(key) ==> v == pre.cached()[key]
        &&& pre.compressed().contains_key(key) ==> A::decompresses_to(
            pre.compressed()[key].compressed_data,
            v,
        )
        &&& post.cached() == pre.cached().insert(key, v)
        &&& post.compressed() == pre.compressed().remove(key)
        &&& post.recency() == without(pre.recency(), key).push(key)
    }

    /// Compressing the least recently used value `m` times in a row, starting from a map
    /// whose cached keys are `r` (least recently used first), compresses exactly the first
    /// `m` keys of `r` and leaves the others cached, with their values and in their order.
    pub proof fn lemma_compress_lru_repeated(states: Seq<Self>, m: int)
        requires
            0 <= m <= states[0].recency().len(),
            states.len() == m + 1,
            states[0].wf(),
            forall|i: int| 0 <= i < m ==> Self::lru_compressed(#[trigger] states[i], states[i + 1]),
        ensures
            ({
                let r = states[0].recency();
                let last = states[m];
                &&& last.recency() == r.subrange(m, r.len() as int)
                &&& last.key_set() == states[0].key_set()
                &&& forall|j: int| 0 <= j < m ==> last.compressed().contains_key(#[trigger] r[j])
                    && !last.cached().contains_key(r[j])
                &&& forall|j: int| m <= j < r.len() ==> last.cached().contains_key(#[trigger] r[j])
                    && last.cached()[r[j]] == states[0].cached()[r[j]]
            }),
        decreases m,
    {
        let r = states[0].recency();
        states[0].lemma_key_states(0);
        if m == 0 {
            assert(r.subrange(0, r.len() as int) =~= r);
            assert forall|j: int| 0 <= j < r.len() implies states[0].cached().contains_key(#[trigger] r[j]) by {
                states[0].lemma_key_states(r[j]);
            }
        } else {
            let prev = states.subrange(0, m);
            assert forall|i: int| 0 <= i < m - 1 implies Self::lru_compressed(#[trigger] prev[i], prev[i + 1]) by {
                assert(prev[i] == states[i] && prev[i + 1] == states[i + 1]);
            }
            Self::lemma_compress_lru_repeated(prev, m - 1);
            let mid = states[m - 1];
            let last = states[m];
            assert(prev[m - 1] == mid);
            assert(Self::lru_compressed(mid, last));
            assert(mid.recency() == r.subrange(m - 1, r.len() as int));
            let k = r[m - 1];
            assert(mid.recency()[0] == k);
            assert(last.recency() =~= r.subrange(m, r.len() as int));
            assert forall|j: int| 0 <= j < m implies last.compressed().contains_key(#[trigger] r[j])
                && !last.cached().contains_key(r[j]) by {
                if j < m - 1 {
                    assert(mid.compressed().contains_key(r[j]));
                    assert(r[j] != k);
                }
            }
            assert forall|j: int| m <= j < r.len() implies last.cached().contains_key(#[trigger] r[j])
                && last.cached()[r[j]] == states[0].cached()[r[j]] by {
                assert(mid.cached().contains_key(r[j]));
                assert(r[j] != k);
            }
        }
    }

    /// Inserting distinct keys one after the other into an empty map caches all of them,
    /// with the recency order being the order of insertion.
    pub proof fn lemma_insert_fresh_keys(states: Seq<Self>, keys: Seq<u64>, values: Seq<A::Data>)
        requires
            states.len() == keys.len() + 1,
            values.len() == keys.len(),
            states[0].wf(),
            states[0].key_set() == Set::<u64>::empty(),
            keys.no_duplicates(),
            forall|i: int| 0 <= i < keys.len() ==> Self::inserted(#[trigger] states[i], states[i + 1], keys[i], values[i]),
        ensures
            ({
                let last = states[keys.len() as int];
                &&& last.recency() == keys
                &&& last.key_set() == keys.to_set()
                &&& last.compressed() == Map::<u64, Compressed<A>>::empty()
                &&& forall|j: int| 0 <= j < keys.len() ==> last.cached().contains_key(#[trigger] keys[j])
                    && last.cached()[keys[j]] == values[j]
            }),
        decreases keys.len(),
    {
        let n = keys.len() as int;
        let first = states[0];
        first.lemma_key_states(0);
        if n == 0 {
            assert forall|k: u64| !first.compressed().contains_key(k) by {
                first.lemma_key_states(k);
            }
            if first.recency().len() > 0 {
                let k = first.recency()[0];
                first.lemma_key_states(k);
                assert(first.recency().contains(k));
            }
            assert(first.compressed() =~= Map::<u64, Compressed<A>>::empty());
            assert(first.recency() =~= Seq::<u64>::empty());
            assert(keys.to_set() =~= Set::<u64>::empty());
        } else {
            let prev = states.subrange(0, n);
            let pk = keys.subrange(0, n - 1);
            let pv = values.subrange(0, n - 1);
            assert forall|i: int| 0 <= i < n - 1 implies Self::inserted(#[trigger] prev[i], prev[i + 1], pk[i], pv[i]) by {
                assert(prev[i] == states[i] && prev[i + 1] == states[i + 1]);
            }
            Self::lemma_insert_fresh_keys(prev, pk, pv);
            let mid = states[n - 1];
            let last = states[n];
            assert(prev[n - 1] == mid);
            let k = keys[n - 1];
            assert(Self::inserted(mid, last, k, values[n - 1]));
            assert(!pk.contains(k));
            mid.lemma_key_states(k);
            lemma_without(mid.recency(), k);
            assert(keys =~= pk.push(k));
            assert(last.recency() =~= keys);
            assert(last.key_set() =~= keys.to_set()) by {
                assert forall|x: u64| last.key_set().contains(x) <==> keys.to_set().contains(x) by {
                    if x != k && pk.to_set().contains(x) {
                        let j = choose|j: int| 0 <= j < pk.len() && pk[j] == x;
                        assert(keys[j] == x);
                    }
                    if keys.to_set().contains(x) && x != k {
                        let j = choose|j: int| 0 <= j < keys.len() && keys[j] == x;
                        assert(pk[j] == x);
                    }
                    if x == k {
                        assert(keys[n - 1] == x);
                    }
                }
            }
            assert(!mid.compressed().contains_key(k));
            assert(last.compressed() =~= Map::<u64, Compressed<A>>::empty());
            assert forall|j: int| 0 <= j < n implies last.cached().contains_key(#[trigger] keys[j])
                && last.cached()[keys[j]] == values[j] by {
                if j < n - 1 {
                    assert(pk[j] == keys[j]);
                    assert(keys[j] != k);
                    assert(mid.cached().contains_key(pk[j]));
                }
            }
        }
    }

    /// Inserting `n` distinct keys in order into an empty map and then calling
    /// `compress_lru` `m <= n` times compresses exactly the first `m` keys inserted and leaves
    /// the other `n - m` cached with their values.
    pub proof fn lemma_lru_after_fresh_inserts(
        inserts: Seq<Self>,
        keys: Seq<u64>,
        values: Seq<A::Data>,
        compressions: Seq<Self>,
        m: int,
    )
        requires
            inserts.len() == keys.len() + 1,
            values.len() == keys.len(),
            inserts[0].wf(),
            inserts[0].key_set() == Set::<u64>::empty(),
            keys.no_duplicates(),
            forall|i: int| 0 <= i < keys.len() ==> Self::inserted(#[trigger] inserts[i], inserts[i + 1], keys[i], values[i]),
            0 <= m <= keys.len(),
            compressions.len() == m + 1,
            compressions[0] == inserts[keys.len() as int],
            forall|i: int| 0 <= i < m ==> Self::lru_compressed(#[trigger] compressions[i], compressions[i + 1]),
        ensures
            forall|j: int| 0 <= j < m ==> compressions[m].compressed().contains_key(#[trigger] keys[j])
                && !compressions[m].cached().contains_key(keys[j]),
            forall|j: int| m <= j < keys.len() ==> compressions[m].cached().contains_key(#[trigger] keys[j])
                && compressions[m].cached()[keys[j]] == values[j],
            compressions[m].key_set() == keys.to_set(),
    {
        Self::lemma_insert_fresh_keys(inserts, keys, values);
        Self::lemma_compress_lru_repeated(compressions, m);
    }

    /// Two `get`s of a compressed key: the first decompresses it and caches the result, the
    /// second returns the same value from the cache and leaves the compressed store alone.
    pub proof fn lemma_get_twice(pre: Self, mid: Self, post: Self, key: u64, first: A::Data, second: A::Data)
        requires
            pre.wf(),
            pre.compressed().contains_key(key),
            Self::got(pre, mid, key, first),
            Self::got(mid, post, key, second),
        ensures
            A::decompresses_to(pre.compressed()[key].compressed_data, first),
            second == first,
            !mid.compressed().contains_key(key),
            post.compressed() == mid.compressed(),
            post.cached() == mid.cached(),
    {
        assert(mid.compressed().remove(key) =~= mid.compressed());
        assert(mid.cached().insert(key, second) =~= mid.cached());
    }

    /// On a map whose `n > 0` keys are all cached, `compress_lru` leaves one key compressed
    /// and `n - 1` cached, while `remove_lru` leaves `n - 1` keys and nothing at all for the
    /// key it removed.
    pub proof fn lemma_compress_vs_remove_lru(pre: Self, compressed: Self, removed: Self, r: Option<(u64, A::Data)>)
        requires
            pre.wf(),
            pre.compressed().len() == 0,
            pre.cached().len() > 0,
            Self::lru_compressed(pre, compressed),
            Self::lru_removed(pre, removed, r),
        ensures
            compressed.compressed().len() == 1,
            compressed.cached().len() == pre.cached().len() - 1,
            removed.key_set().len() == pre.key_set().len() - 1,
            r matches Some((k, _)) && !removed.cached().contains_key(k) && !removed.compressed().contains_key(k)
                && !removed.key_set().contains(k),
    {
        pre.lemma_cached_len();
        compressed.lemma_cached_len();
        pre.lemma_len_split();
        let k = pre.recency()[0];
        pre.lemma_key_states(k);
        compressed.lemma_len_split();
        removed.lemma_key_states(k);
        assert(pre.compressed().dom() =~= Set::<u64>::empty()) by {
            if exists|x: u64| pre.compressed().dom().contains(x) {
                let x = choose|x: u64| pre.compressed().dom().contains(x);
                vstd::set_lib::lemma_set_empty_equivalency_len(pre.compressed().dom());
            }
        }
        assert(compressed.compressed().dom() =~= set![k]);
        assert(pre.cached().dom().remove(k) =~= compressed.cached().dom());
    }

    pub fn new(compression_params: A) -> (r: Self)
        ensures
            r.wf(),
            r.cached() == Map::<u64, A::Data>::empty(),
            r.compressed() == Map::<u64, Compressed<A>>::empty(),
            r.recency() == Seq::<u64>::empty(),
            r.key_set() == Set::<u64>::empty(),
            r.params() == compression_params,
    {
        let r = CompressibleMap {
            cache: LruCache::new(),
            compressed: HashMap::new(),
            compression_params,
        };
        assert(r.cached() =~= Map::<u64, A::Data>::empty());
        assert(r.key_set() =~= Set::<u64>::empty());
        r
    }

    pub fn compression_params(&self) -> (r: &A)
        ensures
            *r == self.params(),
    {
        &self.compression_params
    }

    /// Setting the value of a cached key keeps the map consistent and changes only that
    /// value.
    proof fn lemma_set_cached_value(pre: Self, key: u64)
        requires
            pre.wf(),
            pre.cache.is_live(key),
        ensures
            forall|post: Self|
                #![trigger post.cached()]
                #![trigger post.wf()]
                #![trigger post.key_set()]
                post.cache.is_live(key) && post.cache.entries@ == pre.cache.entries@.insert(
                    key,
                    post.cache.entries@[key],
                ) && post.cache.order == pre.cache.order && post.compressed == pre.compressed
                    ==> {
                    &&& post.wf()
                    &&& post.cached() == pre.cached().insert(key, post.cache.live_value(key))
                    &&& post.key_set() == pre.key_set()
                },
    {
        assert forall|post: Self|
            #![trigger post.cached()]
            #![trigger post.wf()]
            #![trigger post.key_set()]
            post.cache.is_live(key) && post.cache.entries@ == pre.cache.entries@.insert(
                key,
                post.cache.entries@[key],
            ) && post.cache.order == pre.cache.order && post.compressed == pre.compressed
            implies {
                &&& post.wf()
                &&& post.cached() == pre.cached().insert(key, post.cache.live_value(key))
                &&& post.key_set() == pre.key_set()
            } by {
            assert(post.cached() =~= pre.cached().insert(key, post.cache.live_value(key)));
            assert(post.key_set() =~= pre.key_set());
            assert forall|k: u64| #[trigger] post.cache.is_live(k) <==> pre.cache.is_live(k) by {}
            assert forall|i: int| 0 <= i < post.cache.order@.len() implies #[trigger] post.cache.is_live(post.cache.order@[i]) by {
                assert(pre.cache.is_live(pre.cache.order@[i]));
            }
        }
    }

    /// A mutable borrow of the value of a cached `key`, leaving the recency order as it is.
    fn live_value_mut(&mut self, key: u64) -> (r: &mut A::Data)
        requires
            old(self).wf(),
            old(self).cache.is_live(key),
        ensures
            *r == old(self).cached()[key],
            final(self).wf(),
            final(self).cached() == old(self).cached().insert(key, *final(r)),
            final(self).compressed() == old(self).compressed(),
            final(self).recency() == old(self).recency(),
            final(self).key_set() == old(self).key_set(),
            final(self).params() == old(self).params(),
    {
        proof {
            Self::lemma_set_cached_value(*self, key);
        }
        self.cache.live_mut(key)
    }

    /// Inserts `value` as cached and most recently used, dropping whatever `key` held.
    pub fn insert(&mut self, key: u64, value: A::Data)
        requires
            old(self).wf(),
        ensures
            Self::inserted(*old(self), *final(self), key, value),
    {
        self.cache.insert(key, value);
        self.compressed.remove(&key);
        assert(self.cached() =~= old(self).cached().insert(key, value));
        assert(self.key_set() =~= old(self).key_set().insert(key));
    }

    /// Stores `value` as the compressed value of `key`, which becomes compressed; returns
    /// what `key` held before, as it was held.
    pub fn insert_compressed(&mut self, key: u64, value: Compressed<A>) -> (r: Option<
        MaybeCompressed<A::Data, Compressed<A>>,
    >)
        requires
            old(self).wf(),
            A::decodable(value.compressed_data),
        ensures
            final(self).wf(),
            r == (if old(self).compressed().contains_key(key) {
                Some(MaybeCompressed::Compressed(old(self).compressed()[key]))
            } else if old(self).cached().contains_key(key) {
                Some(MaybeCompressed::Decompressed(old(self).cached()[key]))
            } else {
                None
            }),
            final(self).cached() == old(self).cached().remove(key),
            final(self).compressed() == old(self).compressed().insert(key, value),
            final(self).recency() == without(old(self).recency(), key),
            final(self).key_set() == old(self).key_set().insert(key),
            final(self).params() == old(self).params(),
    {
        let old_cached_value = match self.cache.evict(key) {
            Some(entry) => entry.some_if_cached(),
            None => None,
        };
        let r = match self.compressed.insert(key, value) {
            Some(c) => Some(MaybeCompressed::Compressed(c)),
            None => match old_cached_value {
                Some(v) => Some(MaybeCompressed::Decompressed(v)),
                None => None,
            },
        };
        assert(self.cached() =~= old(self).cached().remove(key));
        assert(self.key_set() =~= old(self).key_set().insert(key));
        r
    }

    /// Makes `key` cached and most recently used, decompressing its value if it was
    /// compressed; returns whether `key` is in the map.
    fn prefetch(&mut self, key: u64) -> (present: bool)
        requires
            old(self).wf(),
        ensures
            final(self).wf(),
            present == old(self).key_set().contains(key),
            final(self).key_set() == old(self).key_set(),
            final(self).params() == old(self).params(),
            !present ==> final(self).cached() == old(self).cached() && final(self).compressed()
                == old(self).compressed() && final(self).recency() == old(self).recency(),
            present ==> {
                &&& final(self).cached().contains_key(key)
                &&& final(self).cached() == old(self).cached().insert(key, final(self).cached()[key])
                &&& old(self).cached().contains_key(key) ==> final(self).cached()[key] == old(self).cached()[key]
                &&& old(self).compressed().contains_key(key) ==> A::decompresses_to(
                    old(self).compressed()[key].compressed_data,
                    final(self).cached()[key],
                )
                &&& final(self).compressed() == old(self).compressed().remove(key)
                &&& final(self).recency() == without(old(self).recency(), key).push(key)
                &&& final(self).cache.is_live(key)
            },
    {
        proof {
            self.lemma_key_states(key);
        }
        let state: u8 = match self.cache.get_const(key) {
            Some(EntryState::Cached(_)) => 1,
            Some(EntryState::Evicted) => 2,
            None => 0,
        };
        if state == 0 {
            return false;
        }
        if state == 1 {
            self.cache.touch(key);
            assert(self.cached() =~= old(self).cached());
            assert(self.compressed@ =~= old(self).compressed@.remove(key));
            return true;
        }
        let value = match self.compressed.remove(&key) {
            Some(c) => c.decompress(),
            None => unreached(),
        };
        self.cache.insert(key, value);
        assert(self.cached() =~= old(self).cached().insert(key, value));
        assert(self.key_set() =~= old(self).key_set());
        true
    }

    /// Inserts `value` as cached and most recently used; returns the value `key` held
    /// before, decompressed if it was compressed.
    pub fn replace(&mut self, key: u64, value: A::Data) -> (r: Option<A::Data>)
        requires
            old(self).wf(),
        ensures
            final(self).wf(),
            r is Some <==> old(self).key_set().contains(key),
            old(self).cached().contains_key(key) ==> r == Some(old(self).cached()[key]),
            old(self).compressed().contains_key(key) ==> (r matches Some(d) && A::decompresses_to(
                old(self).compressed()[key].compressed_data,
                d,
            )),
            final(self).cached() == old(self).cached().insert(key, value),
            final(self).compressed() == old(self).compressed().remove(key),
            final(self).recency() == without(old(self).recency(), key).push(key),
            final(self).key_set() == old(self).key_set().insert(key),
            final(self).params() == old(self).params(),
    {
        proof {
            old(self).lemma_key_states(key);
        }
        let r = match self.cache.insert(key, value) {
            Some(EntryState::Cached(v)) => Some(v),
            Some(EntryState::Evicted) => match self.compressed.remove(&key) {
                Some(c) => Some(c.decompress()),
                None => unreached(),
            },
            None => None,
        };
        assert(self.compressed@ =~= old(self).compressed@.remove(key));
        assert(self.cached() =~= old(self).cached().insert(key, value));
        assert(self.key_set() =~= old(self).key_set().insert(key));
        r
    }

    /// Compresses the least recently used cached value and moves it to the compressed
    /// store; does nothing if no value is cached.
    pub fn compress_lru(&mut self)
        requires
            old(self).wf(),
        ensures
            Self::lru_compressed(*old(self), *final(self)),
    {
        proof {
            if self.cache.order@.len() > 0 {
                assert(self.cache.is_live(self.cache.order@[0]));
            }
        }
        match self.cache.evict_lru() {
            Some((lru_key, lru_value)) => {
                let c = self.compression_params.compress(&lru_value);
                self.compressed.insert(lru_key, c);
                assert(self.cached() =~= old(self).cached().remove(lru_key));
                assert(self.key_set() =~= old(self).key_set());
            },
            None => {
                assert(self.cached() =~= old(self).cached());
            },
        }
    }

    /// Deletes the least recently used cached entry, without compressing it, and returns it.
    pub fn remove_lru(&mut self) -> (r: Option<(u64, A::Data)>)
        requires
            old(self).wf(),
        ensures
            Self::lru_removed(*old(self), *final(self), r),
    {
        proof {
            if self.cache.order@.len() > 0 {
                assert(self.cache.is_live(self.cache.order@[0]));
            }
        }
        let r = self.cache.remove_lru();
        proof {
            if old(self).cache.order@.len() > 0 {
                let k = old(self).cache.order@[0];
                assert(self.cached() =~= old(self).cached().remove(k));
                assert(self.key_set() =~= old(self).key_set().remove(k));
            } else {
                assert(self.cached() =~= old(self).cached());
            }
        }
        r
    }

    /// A mutable borrow of the value of `key`, which becomes cached and most recently used
    /// (decompressed first if it was compressed); `None` if `key` is not in the map.
    pub fn get_mut(&mut self, key: u64) -> (r: Option<&mut A::Data>)
        requires
            old(self).wf(),
        ensures
            r is Some <==> old(self).key_set().contains(key),
            r is None ==> final(self).cached() == old(self).cached() && final(self).compressed()
                == old(self).compressed() && final(self).recency() == old(self).recency()
                && final(self).wf(),
            r matches Some(v) ==> {
                &&& old(self).cached().contains_key(key) ==> *v == old(self).cached()[key]
                &&& old(self).compressed().contains_key(key) ==> A::decompresses_to(
                    old(self).compressed()[key].compressed_data,
                    *v,
                )
                &&& final(self).wf()
                &&& final(self).cached() == old(self).cached().insert(key, *final(v))
                &&& final(self).compressed() == old(self).compressed().remove(key)
                &&& final(self).recency() == without(old(self).recency(), key).push(key)
                &&& final(self).key_set() == old(self).key_set()
                &&& final(self).params() == old(self).params()
            },
    {
        if self.prefetch(key) {
            Some(self.live_value_mut(key))
        } else {
            None
        }
    }


    /// A shared borrow of the value of `key`, which becomes cached and most recently used
    /// (decompressed first if it was compressed); `None` if `key` is not in the map.
    pub fn get(&mut self, key: u64) -> (r: Option<&A::Data>)
        requires
            old(self).wf(),
        ensures
            r is Some <==> old(self).key_set().contains(key),
            r is None ==> Self::unchanged(*old(self), *final(self)),
            r matches Some(v) ==> Self::got(*old(self), *final(self), key, *v),
    {
        if self.prefetch(key) {
            Some(self.cache.live_ref(key))
        } else {
            None
        }
    }

    /// Like `get_mut`, but a `key` that is not in the map is first inserted with the value
    /// that `on_missing` makes.
    pub fn get_or_insert_with<F: FnOnce() -> A::Data>(&mut self, key: u64, on_missing: F) -> (r:
        &mut A::Data)
        requires
            old(self).wf(),
            on_missing.requires(()),
        ensures
            final(self).wf(),
            final(self).key_set() == old(self).key_set().insert(key),
            final(self).params() == old(self).params(),
            old(self).cached().contains_key(key) ==> *r == old(self).cached()[key],
            old(self).compressed().contains_key(key) ==> A::decompresses_to(
                old(self).compressed()[key].compressed_data,
                *r,
            ),
            !old(self).key_set().contains(key) ==> on_missing.ensures((), *r),
            final(self).cached() == old(self).cached().insert(key, *final(r)),
            final(self).compressed() == old(self).compressed().remove(key),
            final(self).recency() == without(old(self).recency(), key).push(key),
    {
        proof {
            old(self).lemma_key_states(key);
        }
        if !self.prefetch(key) {
            let value = on_missing();
            self.insert(key, value);
        }
        proof {
            self.lemma_views();
            assert(self.cached().contains_key(key));
        }
        self.live_value_mut(key)
    }

    /// Reads `key` without changing the map. A cached value is borrowed from the map and
    /// the access is remembered in `local_cache`; a compressed value is decompressed into
    /// `local_cache` (unless it already holds a copy) and borrowed from there.
    pub fn get_const<'a>(&'a self, key: u64, local_cache: &'a mut LocalCache<A::Data>) -> (r:
        Option<&'a A::Data>)
        requires
            self.wf(),
        ensures
            r is Some <==> self.key_set().contains(key),
            !self.key_set().contains(key) ==> final(local_cache)@ == old(local_cache)@,
            self.cached().contains_key(key) ==> {
                &&& r == Some(&self.cached()[key])
                &&& final(local_cache)@ == if old(local_cache)@.contains_key(key) {
                    old(local_cache)@
                } else {
                    old(local_cache)@.insert(key, LocalAccess::Cached)
                }
            },
            self.compressed().contains_key(key) ==> (r matches Some(v) && {
                &&& old(local_cache)@.contains_key(key) && old(local_cache)@[key] is Missed
                    ==> *v == old(local_cache)@[key]->Missed_0 && final(local_cache)@ == old(
                    local_cache,
                )@
                &&& !(old(local_cache)@.contains_key(key) && old(local_cache)@[key] is Missed)
                    ==> A::decompresses_to(self.compressed()[key].compressed_data, *v)
                    && final(local_cache)@ == old(local_cache)@.insert(
                    key,
                    LocalAccess::Missed(*v),
                )
            }),
    {
        proof {
            self.lemma_key_states(key);
        }
        match self.cache.get_const(key) {
            Some(EntryState::Cached(v)) => {
                local_cache.remember_cached_access(key);
                Some(v)
            },
            Some(EntryState::Evicted) => {
                let compressed = &self.compressed;
                let decompress = || -> (d: A::Data)
                    requires
                        compressed@.contains_key(key),
                        A::decodable(compressed@[key].compressed_data),
                    ensures
                        A::decompresses_to(compressed@[key].compressed_data, d),
                    {
                        match compressed.get(&key) {
                            Some(c) => c.decompress(),
                            None => unreached(),
                        }
                    };
                Some(local_cache.get_or_insert_with(key, decompress))
            },
            None => None,
        }
    }


    /// A copy of the value of `key`, decompressed if it is compressed; the map is not
    /// changed.
    pub fn get_copy_without_caching(&self, key: &u64) -> (r: Option<A::Data>) where
        A::Data: Clone,

        requires
            self.wf(),
        ensures
            r is Some <==> self.key_set().contains(*key),
            self.cached().contains_key(*key) ==> (r matches Some(v) && vstd::pervasive::cloned(
                self.cached()[*key],
                v,
            )),
            self.compressed().contains_key(*key) ==> (r matches Some(v) && A::decompresses_to(
                self.compressed()[*key].compressed_data,
                v,
            )),
    {
        let key = *key;
        proof {
            self.lemma_key_states(key);
        }
        match self.cache.get_const(key) {
            Some(EntryState::Cached(v)) => Some(v.clone()),
            Some(EntryState::Evicted) => match self.compressed.get(&key) {
                Some(c) => Some(c.decompress()),
                None => unreached(),
            },
            None => None,
        }
    }

    /// Moves a cached `key` to the most recently used end; otherwise does nothing.
    fn touch_if_cached(&mut self, key: u64)
        requires
            old(self).wf(),
        ensures
            final(self).wf(),
            old(self).cached().contains_key(key) ==> final(self).recency() == without(old(self).recency(), key).push(key),
            !old(self).cached().contains_key(key) ==> final(self).recency() == old(self).recency(),
            final(self).cached() == old(self).cached(),
            final(self).compressed() == old(self).compressed(),
            final(self).key_set() == old(self).key_set(),
            final(self).params() == old(self).params(),
    {
        let live = match self.cache.get_const(key) {
            Some(EntryState::Cached(_)) => true,
            _ => false,
        };
        if live {
            self.cache.touch(key);
            assert(self.cached() =~= old(self).cached());
        }
    }

    /// Caches `value` for `key` if `key` is compressed, dropping the compressed value; a
    /// cached key is only moved to the most recently used end.
    fn repopulate(&mut self, key: u64, value: A::Data)
        requires
            old(self).wf(),
        ensures
            final(self).wf(),
            old(self).key_set().contains(key) ==> final(self).recency() == without(old(self).recency(), key).push(key),
            !old(self).key_set().contains(key) ==> final(self).recency() == old(self).recency(),
            final(self).key_set() == old(self).key_set(),
            final(self).params() == old(self).params(),
            old(self).compressed().contains_key(key) ==> final(self).cached() == old(self).cached().insert(key, value)
                && final(self).compressed() == old(self).compressed().remove(key),
            !old(self).compressed().contains_key(key) ==> final(self).cached() == old(self).cached()
                && final(self).compressed() == old(self).compressed(),
    {
        let state: u8 = match self.cache.get_const(key) {
            Some(EntryState::Cached(_)) => 1,
            Some(EntryState::Evicted) => 2,
            None => 0,
        };
        if state == 1 {
            self.cache.touch(key);
            assert(self.cached() =~= old(self).cached());
        } else if state == 2 {
            self.insert(key, value);
            assert(self.key_set() =~= old(self).key_set());
        }
    }

    /// Replays the accesses recorded in `local_cache` (by `get_const`): each key whose access
    /// is recorded and that is cached moves to the most recently used end, and each key that
    /// is still compressed and was decompressed into `local_cache` is cached with that copy.
    /// Keys without a recorded access keep their relative recency order, ahead of the
    /// accessed ones; the order among the accessed keys is that in which `local_cache` hands
    /// them out, which is not specified. A cached value is never replaced by a copy from
    /// `local_cache`.
    pub fn flush_local_cache(&mut self, local_cache: LocalCache<A::Data>)
        requires
            old(self).wf(),
        ensures
            final(self).wf(),
            final(self).key_set() == old(self).key_set(),
            final(self).params() == old(self).params(),
            final(self).cached() == old(self).cached().union_prefer_right(
                promoted(local_cache@, old(self).compressed()),
            ),
            final(self).compressed() == old(self).compressed().remove_keys(
                promoted(local_cache@, old(self).compressed()).dom(),
            ),
            forall|i: int, j: int|
                0 <= i < j < final(self).recency().len() && local_cache@.contains_key(
                    #[trigger] final(self).recency()[i],
                ) ==> local_cache@.contains_key(#[trigger] final(self).recency()[j]),
            final(self).recency().filter(|k: u64| !local_cache@.contains_key(k)) == old(
                self,
            ).recency().filter(|k: u64| !local_cache@.contains_key(k)),
    {
        let ghost l = local_cache@;
        let ghost p = promoted(l, old(self).compressed());
        let ghost keep = |k: u64| !local_cache@.contains_key(k);
        let mut rest = local_cache.into_iter();
        let ghost all = rest@;
        let ghost mut done: Set<u64> = Set::empty();
        while rest.len() > 0
            invariant
                self.wf(),
                self.key_set() == old(self).key_set(),
                self.params() == old(self).params(),
                p == promoted(l, old(self).compressed()),
                rest@ == all.subrange(0, rest@.len() as int),
                rest@.len() <= all.len(),
                all.len() == l.dom().len(),
                all.map_values(|q: (u64, LocalAccess<A::Data>)| q.0).no_duplicates(),
                forall|i: int| 0 <= i < all.len() ==> l.contains_key(#[trigger] all[i].0) && l[all[i].0] == all[i].1,
                forall|k: u64| l.contains_key(k) ==> exists|i: int| 0 <= i < all.len() && #[trigger] all[i].0 == k,
                forall|k: u64| #[trigger] done.contains(k) <==> exists|i: int| rest@.len() <= i < all.len() && #[trigger] all[i].0 == k,
                self.cached() == old(self).cached().union_prefer_right(p.restrict(done)),
                self.compressed() == old(self).compressed().remove_keys(p.dom().intersect(done)),
                forall|i: int, j: int|
                    0 <= i < j < self.recency().len() && #[trigger] done.contains(self.recency()[i])
                        ==> done.contains(#[trigger] self.recency()[j]),
                keep == (|k: u64| !l.contains_key(k)),
                self.recency().filter(keep) == old(self).recency().filter(keep),
            decreases rest.len(),
        {
            let ghost n = rest@.len() as int;
            let (key, access) = match rest.pop() {
                Some(pair) => pair,
                None => unreached(),
            };
            proof {
                assert(all[n - 1] == (key, access));
                assert forall|j: int| 0 <= j < all.len() && j != n - 1 implies all[j].0 != key by {
                    assert(all.map_values(|q: (u64, LocalAccess<A::Data>)| q.0)[j] == all[j].0);
                    assert(all.map_values(|q: (u64, LocalAccess<A::Data>)| q.0)[n - 1] == all[n - 1].0);
                }
                assert(!done.contains(key));
                assert(l.contains_key(key) && l[key] == access);
                assert(self.compressed().contains_key(key) <==> old(self).compressed().contains_key(key));
                assert(p.contains_key(key) <==> (access is Missed && old(self).compressed().contains_key(key)));
            }
            let ghost before = *self;
            proof {
                self.lemma_key_states(key);
                lemma_marked_suffix(self.recency(), key, done);
                lemma_filter_move_to_end(self.recency(), key, keep);
            }
            match access {
                LocalAccess::Cached => {
                    self.touch_if_cached(key);
                },
                LocalAccess::Missed(value) => {
                    self.repopulate(key, value);
                },
            }
            proof {
                let ndone = done.insert(key);
                assert forall|k: u64| #[trigger] ndone.contains(k) <==> exists|i: int| rest@.len() <= i < all.len() && #[trigger] all[i].0 == k by {
                    if k == key {
                        assert(all[n - 1].0 == k);
                    }
                }
                assert(self.cached() =~= old(self).cached().union_prefer_right(p.restrict(ndone)));
                assert(self.compressed() =~= old(self).compressed().remove_keys(p.dom().intersect(ndone)));
                assert forall|i: int, j: int|
                    0 <= i < j < self.recency().len() && #[trigger] ndone.contains(self.recency()[i])
                        implies ndone.contains(#[trigger] self.recency()[j]) by {
                    if self.recency() == before.recency() {
                        assert(self.recency()[i] != key) by {
                            assert(self.recency().contains(self.recency()[i]));
                        }
                        assert(done.contains(self.recency()[i]));
                    }
                }
                done = ndone;
            }
        }
        proof {
            assert forall|k: u64| p.contains_key(k) implies done.contains(k) by {
                let i = choose|i: int| 0 <= i < all.len() && #[trigger] all[i].0 == k;
            }
            assert(p.restrict(done) =~= p);
            assert(p.dom().intersect(done) =~= p.dom());
            assert forall|k: u64| done.contains(k) <==> l.contains_key(k) by {
                if l.contains_key(k) {
                    let i = choose|i: int| 0 <= i < all.len() && #[trigger] all[i].0 == k;
                }
                if done.contains(k) {
                    let i = choose|i: int| rest@.len() <= i < all.len() && #[trigger] all[i].0 == k;
                    assert(l.contains_key(all[i].0));
                }
            }
            let r = self.recency();
            assert forall|i: int, j: int| 0 <= i < j < r.len() && l.contains_key(#[trigger] r[i]) implies l.contains_key(#[trigger] r[j]) by {
                assert(done.contains(r[i]));
            }
        }
    }

    /// Deletes `key` from the map.
    pub fn drop(&mut self, key: &u64)
        requires
            old(self).wf(),
        ensures
            final(self).wf(),
            final(self).cached() == old(self).cached().remove(*key),
            final(self).compressed() == old(self).compressed().remove(*key),
            final(self).recency() == without(old(self).recency(), *key),
            final(self).key_set() == old(self).key_set().remove(*key),
            final(self).params() == old(self).params(),
    {
        let key = *key;
        self.cache.remove(key);
        self.compressed.remove(&key);
        assert(self.cached() =~= old(self).cached().remove(key));
        assert(self.key_set() =~= old(self).key_set().remove(key));
    }

    /// Deletes `key` from the map and returns its value, decompressed if it was compressed.
    pub fn remove(&mut self, key: &u64) -> (r: Option<A::Data>)
        requires
            old(self).wf(),
        ensures
            final(self).wf(),
            r is Some <==> old(self).key_set().contains(*key),
            old(self).cached().contains_key(*key) ==> r == Some(old(self).cached()[*key]),
            old(self).compressed().contains_key(*key) ==> (r matches Some(d) && A::decompresses_to(
                old(self).compressed()[*key].compressed_data,
                d,
            )),
            final(self).cached() == old(self).cached().remove(*key),
            final(self).compressed() == old(self).compressed().remove(*key),
            final(self).recency() == without(old(self).recency(), *key),
            final(self).key_set() == old(self).key_set().remove(*key),
            final(self).params() == old(self).params(),
    {
        let key = *key;
        proof {
            old(self).lemma_key_states(key);
        }
        let r = match self.cache.remove(key) {
            Some(EntryState::Cached(v)) => Some(v),
            Some(EntryState::Evicted) => match self.compressed.remove(&key) {
                Some(c) => Some(c.decompress()),
                None => unreached(),
            },
            None => None,
        };
        assert(self.compressed@ =~= old(self).compressed@.remove(key));
        assert(self.cached() =~= old(self).cached().remove(key));
        assert(self.key_set() =~= old(self).key_set().remove(key));
        r
    }

    /// Deletes every key.
    pub fn clear(&mut self)
        requires
            old(self).wf(),
        ensures
            final(self).wf(),
            final(self).cached() == Map::<u64, A::Data>::empty(),
            final(self).compressed() == Map::<u64, Compressed<A>>::empty(),
            final(self).recency() == Seq::<u64>::empty(),
            final(self).key_set() == Set::<u64>::empty(),
            final(self).params() == old(self).params(),
    {
        self.cache.clear();
        self.compressed.clear();
        assert(self.cached() =~= Map::<u64, A::Data>::empty());
        assert(self.key_set() =~= Set::<u64>::empty());
    }

    /// The number of keys.
    pub fn len(&self) -> (r: usize)
        requires
            self.wf(),
        ensures
            r == self.key_set().len(),
            r == self.cached().len() + self.compressed().len(),
    {
        proof {
            self.lemma_len_split();
            self.lemma_cached_len();
            assert(self.cache.entries@.dom() == self.key_set());
        }
        self.cache.entries.len()
    }

    /// The number of cached keys.
    pub fn len_cached(&self) -> (r: usize)
        requires
            self.wf(),
        ensures
            r == self.cached().len(),
            r == self.recency().len(),
    {
        proof {
            self.lemma_cached_len();
        }
        self.cache.len_cached()
    }

    /// The number of compressed keys.
    pub fn len_compressed(&self) -> (r: usize)
        ensures
            r == self.compressed().len(),
    {
        self.compressed.len()
    }

    pub fn is_empty(&self) -> (r: bool)
        requires
            self.wf(),
        ensures
            r == (self.key_set().len() == 0),
    {
        self.len() == 0
    }

    /// Every key, cached or compressed, each once.
    pub fn keys(&self) -> (r: Vec<u64>)
        requires
            self.wf(),
        ensures
            r@.to_set() == self.key_set(),
            r@.len() == self.key_set().len(),
    {
        self.cache.keys()
    }

    /// The cached map holds exactly as many keys as the recency order.
    proof fn lemma_cached_len(&self)
        requires
            self.wf(),
        ensures
            self.cached().len() == self.recency().len(),
            self.cached().dom() == self.recency().to_set(),
    {
        self.cache.order@.unique_seq_to_set();
        assert forall|k: u64| self.recency().to_set().contains(k) implies self.cache.is_live(k) by {
            let i = choose|i: int| 0 <= i < self.cache.order@.len() && self.cache.order@[i] == k;
            assert(self.cache.is_live(self.cache.order@[i]));
        }
        assert(self.cached().dom() =~= self.recency().to_set());
    }

    /// A map whose keys are exactly those of `compressed`, all of them compressed.
    pub fn from_all_compressed(compression_params: A, compressed: HashMap<u64, Compressed<A>>) -> (r:
        Self)
        requires
            forall|k: u64| #[trigger]
                compressed@.contains_key(k) ==> A::decodable(compressed@[k].compressed_data),
        ensures
            r.wf(),
            r.cached() == Map::<u64, A::Data>::empty(),
            r.compressed() == compressed@,
            r.recency() == Seq::<u64>::empty(),
            r.key_set() == compressed@.dom(),
            r.params() == compression_params,
    {
        let mut cache = LruCache::<A::Data>::new();
        let ghost ks: Seq<&u64> = compressed.keys().remaining();
        proof {
            assert(ks.unref().to_set() == compressed@.dom());
        }
        for key in it: compressed.keys()
            invariant
                it.seq() == ks,
                cache.wf(),
                cache.order@ == Seq::<u64>::empty(),
                forall|k: u64| #[trigger] cache.entries@.contains_key(k) <==> exists|i: int| 0 <= i < it.index() && *ks[i] == k,
                forall|k: u64| #[trigger] cache.entries@.contains_key(k) ==> cache.entries@[k] is Evicted,
        {
            assert(*key == *ks[it.index()]);
            proof {
                lemma_without(cache.order@, *key);
            }
            cache.evict(*key);
            proof {
                assert forall|k: u64| #[trigger] cache.entries@.contains_key(k) implies exists|i: int| 0 <= i < it.index() + 1 && *ks[i] == k by {
                    if k == *key {
                        assert(*ks[it.index()] == k);
                    }
                }
            }
        }
        let r = CompressibleMap { cache, compressed, compression_params };
        proof {
            assert forall|k: u64| r.compressed@.contains_key(k) implies r.cache.entries@.contains_key(k) by {
                assert(ks.unref().to_set().contains(k));
                let i = choose|i: int| 0 <= i < ks.unref().len() && ks.unref()[i] == k;
                assert(*ks[i] == k);
            }
            assert forall|k: u64| r.cache.entries@.contains_key(k) implies r.compressed@.contains_key(k) by {
                let i = choose|i: int| 0 <= i < ks.len() && *ks[i] == k;
                assert(ks.unref()[i] == k);
                assert(ks.unref().to_set().contains(k));
            }
            assert(r.cached() =~= Map::<u64, A::Data>::empty());
            assert(r.key_set() =~= r.compressed@.dom());
        }
        r
    }

    /// Every entry, each key once, with its value as it is held: borrowed from the cache
    /// or still compressed. Nothing is decompressed and the map is not changed.
    pub fn iter_maybe_compressed(&self) -> (r: Vec<(u64, MaybeCompressed<&A::Data, &Compressed<A>>)>)
        requires
            self.wf(),
        ensures
            r@.len() == self.key_set().len(),
            r@.map_values(|q: (u64, MaybeCompressed<&A::Data, &Compressed<A>>)| q.0).no_duplicates(),
            r@.map_values(|q: (u64, MaybeCompressed<&A::Data, &Compressed<A>>)| q.0).to_set() == self.key_set(),
            forall|i: int| 0 <= i < r@.len() ==> match #[trigger] r@[i].1 {
                MaybeCompressed::Decompressed(v) => self.cached().contains_key(r@[i].0) && self.cached()[r@[i].0] == *v,
                MaybeCompressed::Compressed(c) => self.compressed().contains_key(r@[i].0) && self.compressed()[r@[i].0] == *c,
            },
    {
        let keys = self.cache.keys();
        let mut r: Vec<(u64, MaybeCompressed<&A::Data, &Compressed<A>>)> = Vec::new();
        let mut i: usize = 0;
        while i < keys.len()
            invariant
                self.wf(),
                0 <= i <= keys.len(),
                keys@.to_set() == self.key_set(),
                r@.len() == i,
                forall|j: int| 0 <= j < i ==> #[trigger] r@[j].0 == keys@[j],
                forall|j: int| 0 <= j < i ==> match #[trigger] r@[j].1 {
                    MaybeCompressed::Decompressed(v) => self.cached().contains_key(r@[j].0) && self.cached()[r@[j].0] == *v,
                    MaybeCompressed::Compressed(c) => self.compressed().contains_key(r@[j].0) && self.compressed()[r@[j].0] == *c,
                },
            decreases keys.len() - i,
        {
            let key = keys[i];
            proof {
                assert(keys@.to_set().contains(key));
                self.lemma_key_states(key);
            }
            let item = match self.cache.get_const(key) {
                Some(EntryState::Cached(v)) => MaybeCompressed::Decompressed(v),
                _ => match self.compressed.get(&key) {
                    Some(c) => MaybeCompressed::Compressed(c),
                    None => unreached(),
                },
            };
            r.push((key, item));
            i = i + 1;
        }
        proof {
            assert(r@.map_values(|q: (u64, MaybeCompressed<&A::Data, &Compressed<A>>)| q.0) =~= keys@);
        }
        r
    }

    /// Every entry, each key once, with its value as it was held: decompressed for a cached
    /// key, compressed for a compressed one.
    pub fn into_iter(self) -> (r: Vec<(u64, MaybeCompressed<A::Data, Compressed<A>>)>)
        requires
            self.wf(),
        ensures
            r@.len() == self.key_set().len(),
            r@.map_values(|q: (u64, MaybeCompressed<A::Data, Compressed<A>>)| q.0).no_duplicates(),
            r@.map_values(|q: (u64, MaybeCompressed<A::Data, Compressed<A>>)| q.0).to_set() == self.key_set(),
            forall|i: int| 0 <= i < r@.len() ==> match #[trigger] r@[i].1 {
                MaybeCompressed::Decompressed(v) => self.cached().contains_key(r@[i].0) && self.cached()[r@[i].0] == v,
                MaybeCompressed::Compressed(c) => self.compressed().contains_key(r@[i].0) && self.compressed()[r@[i].0] == c,
            },
    {
        let ghost orig = self;
        let keys = self.cache.keys();
        let mut map = self;
        let mut r: Vec<(u64, MaybeCompressed<A::Data, Compressed<A>>)> = Vec::new();
        let mut i: usize = 0;
        while i < keys.len()
            invariant
                map.wf(),
                orig.wf(),
                0 <= i <= keys.len(),
                keys@.to_set() == orig.key_set(),
                keys@.no_duplicates(),
                r@.len() == i,
                forall|k: u64| #[trigger] map.key_set().contains(k) <==> (orig.key_set().contains(k) && forall|j: int| 0 <= j < i ==> keys@[j] != k),
                forall|k: u64| #[trigger] map.cached().contains_key(k) ==> orig.cached().contains_key(k) && map.cached()[k] == orig.cached()[k],
                forall|k: u64| #[trigger] map.compressed().contains_key(k) ==> orig.compressed().contains_key(k) && map.compressed()[k] == orig.compressed()[k],
                forall|j: int| 0 <= j < i ==> #[trigger] r@[j].0 == keys@[j],
                forall|j: int| 0 <= j < i ==> match #[trigger] r@[j].1 {
                    MaybeCompressed::Decompressed(v) => orig.cached().contains_key(r@[j].0) && orig.cached()[r@[j].0] == v,
                    MaybeCompressed::Compressed(c) => orig.compressed().contains_key(r@[j].0) && orig.compressed()[r@[j].0] == c,
                },
            decreases keys.len() - i,
        {
            let key = keys[i];
            proof {
                assert(keys@.to_set().contains(key));
                assert(forall|j: int| 0 <= j < i ==> keys@[j] != key);
                assert(map.key_set().contains(key));
                map.lemma_key_states(key);
                orig.lemma_key_states(key);
            }
            let ghost before = map;
            let item = match map.cache.remove(key) {
                Some(EntryState::Cached(v)) => MaybeCompressed::Decompressed(v),
                _ => match map.compressed.remove(&key) {
                    Some(c) => MaybeCompressed::Compressed(c),
                    None => unreached(),
                },
            };
            proof {
                assert(map.compressed@ =~= before.compressed@.remove(key));
                assert(map.cached() =~= before.cached().remove(key));
                assert(map.key_set() =~= before.key_set().remove(key));
            }
            r.push((key, item));
            i = i + 1;
        }
        proof {
            assert(r@.map_values(|q: (u64, MaybeCompressed<A::Data, Compressed<A>>)| q.0) =~= keys@);
            keys@.unique_seq_to_set();
        }
        r
    }
}

impl CompressibleMap<BincodeLz4> {
    /// An empty map whose values are compressed into LZ4 frames at `level`.
    pub fn new_bincode_lz4(level: u32) -> (r: Self)
        ensures
            r.wf(),
            r.cached() == Map::<u64, Vec<u8>>::empty(),
            r.compressed() == Map::<u64, Compressed<BincodeLz4>>::empty(),
            r.recency() == Seq::<u64>::empty(),
            r.key_set() == Set::<u64>::empty(),
            r.params() == (BincodeLz4 { level }),
    {
        Self::new(BincodeLz4 { level })
    }
}

} // verus!

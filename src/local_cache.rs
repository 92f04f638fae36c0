use std::collections::HashMap;
use vstd::prelude::*;
use vstd::std_specs::iter::IteratorSpec;

verus! {

broadcast use vstd::std_specs::hash::group_hash_axioms;

/// One access recorded in a `LocalCache`.
pub enum LocalAccess<V> {
    /// The key was live in the shared map; only the access is remembered, so that the
    /// recency order can be updated later.
    Cached,
    /// The key was compressed in the shared map; this is the private decompressed copy.
    Missed(V),
}

impl<V> LocalAccess<V> {
    pub fn unwrap_ref(&self) -> (r: &V)
        requires
            self is Missed,
        ensures
            *r == self->Missed_0,
    {
        match self {
            LocalAccess::Missed(value) => value,
            LocalAccess::Cached => unreached(),
        }
    }

    pub fn map<T, F: FnOnce(V) -> T>(self, f: F) -> (r: LocalAccess<T>)
        requires
            self matches LocalAccess::Missed(v) ==> f.requires((v,)),
        ensures
            self is Cached ==> r is Cached,
            self matches LocalAccess::Missed(v) ==> r matches LocalAccess::Missed(t) && f.ensures((v,), t),
    {
        match self {
            LocalAccess::Cached => LocalAccess::Cached,
            LocalAccess::Missed(value) => LocalAccess::Missed(f(value)),
        }
    }
}

/// A private record of the accesses made through `CompressibleMap::get_const` during a
/// read-only phase, holding the values that had to be decompressed. It is handed back to
/// the map with `CompressibleMap::flush_local_cache`.
pub struct LocalCache<V> {
    accesses: HashMap<u64, LocalAccess<V>>,
}

impl<V> View for LocalCache<V> {
    type V = Map<u64, LocalAccess<V>>;

    closed spec fn view(&self) -> Map<u64, LocalAccess<V>> {
        self.accesses@
    }
}

impl<V> Default for LocalCache<V> {
    fn default() -> (r: Self)
        ensures
            r@ == Map::<u64, LocalAccess<V>>::empty(),
    {
        LocalCache::new()
    }
}

impl<V> LocalCache<V> {
    pub fn new() -> (r: Self)
        ensures
            r@ == Map::<u64, LocalAccess<V>>::empty(),
    {
        LocalCache { accesses: HashMap::new() }
    }

    /// Records that `key` was found live in the shared map, unless an access to it is
    /// already recorded.
    pub fn remember_cached_access(&mut self, key: u64)
        ensures
            final(self)@ == if old(self)@.contains_key(key) {
                old(self)@
            } else {
                old(self)@.insert(key, LocalAccess::Cached)
            },
    {
        if !self.accesses.contains_key(&key) {
            self.accesses.insert(key, LocalAccess::Cached);
        }
    }

    /// The private copy recorded for `key`; where there is none yet, `f` makes it and it
    /// is recorded (replacing a remembered live access).
    pub fn get_or_insert_with<F: FnOnce() -> V>(&mut self, key: u64, f: F) -> (r: &V)
        requires
            f.requires(()),
        ensures
            old(self)@.contains_key(key) && old(self)@[key] is Missed ==> {
                &&& *r == old(self)@[key]->Missed_0
                &&& final(self)@ == old(self)@
            },
            !(old(self)@.contains_key(key) && old(self)@[key] is Missed) ==> {
                &&& f.ensures((), *r)
                &&& final(self)@ == old(self)@.insert(key, LocalAccess::Missed(*r))
            },
    {
        let present = match self.accesses.get(&key) {
            Some(LocalAccess::Missed(_)) => true,
            _ => false,
        };
        if !present {
            let value = f();
            self.accesses.insert(key, LocalAccess::Missed(value));
        }
        match self.accesses.get(&key) {
            Some(LocalAccess::Missed(value)) => value,
            _ => unreached(),
        }
    }

    /// Every recorded access, each key once.
    pub fn into_iter(self) -> (r: Vec<(u64, LocalAccess<V>)>)
        ensures
            r@.len() == self@.dom().len(),
            r@.map_values(|p: (u64, LocalAccess<V>)| p.0).no_duplicates(),
            forall|i: int|
                0 <= i < r@.len() ==> self@.contains_key(#[trigger] r@[i].0) && self@[r@[i].0] == r@[i].1,
            forall|k: u64|
                self@.contains_key(k) ==> exists|i: int| 0 <= i < r@.len() && #[trigger] r@[i].0 == k,
    {
        let mut keys: Vec<u64> = Vec::new();
        let ghost ks: Seq<&u64> = self.accesses.keys().remaining();
        proof {
            assert(ks.unref().to_set() == self.accesses@.dom());
        }
        for k in it: self.accesses.keys()
            invariant
                it.seq() == ks,
                keys@.len() == it.index(),
                forall|i: int| 0 <= i < it.index() ==> keys@[i] == *ks[i],
        {
            assert(*k == *ks[it.index()]);
            keys.push(*k);
        }
        proof {
            assert(keys@ =~= ks.unref());
            assert(keys@.to_set() == self@.dom());
            keys@.unique_seq_to_set();
        }
        let ghost orig = self@;
        let mut accesses = self.accesses;
        let mut r: Vec<(u64, LocalAccess<V>)> = Vec::new();
        let mut i: usize = 0;
        while i < keys.len()
            invariant
                0 <= i <= keys.len(),
                keys@.no_duplicates(),
                keys@.to_set() == orig.dom(),
                keys@.len() == orig.dom().len(),
                r@.len() == i,
                forall|j: int| 0 <= j < i ==> #[trigger] r@[j].0 == keys@[j],
                forall|j: int| 0 <= j < i ==> orig.contains_key(keys@[j]) && orig[keys@[j]] == #[trigger] r@[j].1,
                forall|k: u64| #[trigger] accesses@.contains_key(k) <==> (orig.contains_key(k) && forall|j: int| 0 <= j < i ==> keys@[j] != k),
                forall|k: u64| #[trigger] accesses@.contains_key(k) ==> accesses@[k] == orig[k],
            decreases keys.len() - i,
        {
            let k = keys[i];
            proof {
                assert(keys@.to_set().contains(k));
                assert(forall|j: int| 0 <= j < i ==> keys@[j] != k);
            }
            match accesses.remove(&k) {
                Some(a) => {
                    r.push((k, a));
                },
                None => {
                    proof {
                        assert(false);
                    }
                },
            }
            i = i + 1;
        }
        proof {
            assert(r@.map_values(|p: (u64, LocalAccess<V>)| p.0) =~= keys@);
            assert forall|k: u64| orig.contains_key(k) implies exists|j: int| 0 <= j < r@.len() && #[trigger] r@[j].0 == k by {
                assert(keys@.to_set().contains(k));
                let j = choose|j: int| 0 <= j < keys@.len() && keys@[j] == k;
                assert(r@[j].0 == k);
            }
        }
        r
    }
}

} // verus!

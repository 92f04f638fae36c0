use std::collections::hash_map::Entry;
use std::collections::HashMap;
use vstd::prelude::*;
use vstd::std_specs::iter::IteratorSpec;

verus! {

broadcast use vstd::std_specs::hash::group_hash_axioms;

/// What the recency store holds for one key.
pub(crate) enum EntryState<V> {
    /// The value is held here and takes part in the recency order.
    Cached(V),
    /// The value lives elsewhere (compressed); only the key is held here.
    Evicted,
}

impl<V> EntryState<V> {
    pub(crate) fn some_if_cached(self) -> (r: Option<V>)
        ensures
            r == (match self {
                EntryState::Cached(v) => Some(v),
                EntryState::Evicted => None,
            }),
    {
        match self {
            EntryState::Cached(v) => Some(v),
            EntryState::Evicted => None,
        }
    }
}

/// `s` with the element `k` taken out, if it is there.
pub open spec fn without(s: Seq<u64>, k: u64) -> Seq<u64> {
    if s.contains(k) {
        s.remove(s.index_of(k))
    } else {
        s
    }
}

pub(crate) proof fn lemma_without(s: Seq<u64>, k: u64)
    requires
        s.no_duplicates(),
    ensures
        without(s, k).no_duplicates(),
        forall|x: u64| #[trigger] without(s, k).contains(x) <==> (s.contains(x) && x != k),
        !s.contains(k) ==> without(s, k) == s,
        without(s, k).len() == if s.contains(k) { s.len() - 1 } else { s.len() as int },
        s.len() > 0 && s[0] == k ==> without(s, k) == s.subrange(1, s.len() as int),
{
    if s.contains(k) {
        let i = s.index_of(k);
        let r = s.remove(i);
        s.remove_ensures(i);
        assert forall|a: int, b: int| 0 <= a < b < r.len() implies r[a] != r[b] by {
            let sa = if a < i { a } else { a + 1 };
            let sb = if b < i { b } else { b + 1 };
            assert(r[a] == s[sa]);
            assert(r[b] == s[sb]);
        }
        assert forall|x: u64| #[trigger] r.contains(x) <==> (s.contains(x) && x != k) by {
            if r.contains(x) {
                let j = choose|j: int| 0 <= j < r.len() && r[j] == x;
                let sj = if j < i { j } else { j + 1 };
                assert(s[sj] == x);
                assert(sj != i);
            }
            if s.contains(x) && x != k {
                let j = choose|j: int| 0 <= j < s.len() && s[j] == x;
                assert(j != i);
                let rj = if j < i { j } else { j - 1 };
                assert(r[rj] == x);
            }
        }
        if s.len() > 0 && s[0] == k {
            assert(i == 0);
            assert(r =~= s.subrange(1, s.len() as int));
        }
    }
}

/// Moving `k` to the end of `s` keeps the keys of `marked`, together with `k`, at the end.
pub(crate) proof fn lemma_marked_suffix(s: Seq<u64>, k: u64, marked: Set<u64>)
    requires
        s.no_duplicates(),
        forall|i: int, j: int|
            0 <= i < j < s.len() && #[trigger] marked.contains(s[i]) ==> marked.contains(#[trigger] s[j]),
    ensures
        ({
            let t = without(s, k).push(k);
            let m = marked.insert(k);
            forall|i: int, j: int|
                0 <= i < j < t.len() && #[trigger] m.contains(t[i]) ==> m.contains(#[trigger] t[j])
        }),
{
    lemma_without(s, k);
    let w = without(s, k);
    let t = w.push(k);
    let m = marked.insert(k);
    if s.contains(k) {
        let c = s.index_of(k);
        s.remove_ensures(c);
        assert forall|i: int, j: int| 0 <= i < j < t.len() && #[trigger] m.contains(t[i]) implies m.contains(#[trigger] t[j]) by {
            if j < t.len() - 1 {
                let si = if i < c { i } else { i + 1 };
                let sj = if j < c { j } else { j + 1 };
                assert(t[i] == s[si]);
                assert(t[j] == s[sj]);
                assert(!w.contains(k));
                assert(w[i] != k) by {
                    assert(w.contains(w[i]));
                }
                assert(marked.contains(s[si]));
            }
        }
    } else {
        assert forall|i: int, j: int| 0 <= i < j < t.len() && #[trigger] m.contains(t[i]) implies m.contains(#[trigger] t[j]) by {
            if j < t.len() - 1 {
                assert(t[i] == s[i] && t[j] == s[j]);
                assert(s[i] != k) by {
                    assert(s.contains(s[i]));
                }
            }
        }
    }
}

/// Moving `k` to the end of `s` does not change the elements of `s` that `keep` selects, if
/// it does not select `k`.
pub(crate) proof fn lemma_filter_move_to_end(s: Seq<u64>, k: u64, keep: spec_fn(u64) -> bool)
    requires
        !keep(k),
    ensures
        without(s, k).push(k).filter(keep) == s.filter(keep),
{
    reveal(Seq::filter);
    let w = without(s, k);
    assert(w.push(k).drop_last() =~= w);
    if s.contains(k) {
        let c = s.index_of(k);
        let a = s.subrange(0, c);
        let b = s.subrange(c + 1, s.len() as int);
        let one = seq![k];
        assert(s =~= (a + one) + b);
        Seq::filter_distributes_over_add(a + one, b, keep);
        Seq::filter_distributes_over_add(a, one, keep);
        assert(one.drop_last() =~= Seq::<u64>::empty());
        assert(Seq::<u64>::empty().filter(keep) == Seq::<u64>::empty());
        assert(one.last() == k);
        assert(one.filter(keep) =~= Seq::<u64>::empty());
        Seq::filter_distributes_over_add(a, b, keep);
        assert(a + one.filter(keep) =~= a);
        assert(a.filter(keep) + Seq::<u64>::empty() =~= a.filter(keep));
        assert(w =~= a + b);
    }
}

/// The recency store: every known key, each either live (with its value) or evicted,
/// and the live keys in recency order.
pub(crate) struct LruCache<V> {
    pub(crate) entries: HashMap<u64, EntryState<V>>,
    /// The live keys, least recently used first.
    pub(crate) order: Vec<u64>,
}

impl<V> LruCache<V> {
    pub(crate) open spec fn is_live(&self, k: u64) -> bool {
        self.entries@.contains_key(k) && self.entries@[k] is Cached
    }

    pub(crate) open spec fn live_value(&self, k: u64) -> V {
        self.entries@[k]->Cached_0
    }

    pub(crate) open spec fn wf(&self) -> bool {
        &&& self.order@.no_duplicates()
        &&& forall|i: int| 0 <= i < self.order@.len() ==> #[trigger] self.is_live(self.order@[i])
        &&& forall|k: u64| #[trigger] self.is_live(k) ==> self.order@.contains(k)
    }

    pub(crate) fn new() -> (r: Self)
        ensures
            r.wf(),
            r.entries@ == Map::<u64, EntryState<V>>::empty(),
            r.order@ == Seq::<u64>::empty(),
    {
        LruCache { entries: HashMap::new(), order: Vec::new() }
    }

    /// Takes `key` out of the recency order, if it is there.
    fn detach(&mut self, key: u64)
        requires
            old(self).order@.no_duplicates(),
        ensures
            final(self).entries == old(self).entries,
            final(self).order@ == without(old(self).order@, key),
    {
        let mut i: usize = 0;
        while i < self.order.len()
            invariant
                0 <= i <= self.order.len(),
                self.order@ == old(self).order@,
                self.entries == old(self).entries,
                self.order@.no_duplicates(),
                forall|j: int| 0 <= j < i ==> self.order@[j] != key,
            decreases self.order.len() - i,
        {
            if self.order[i] == key {
                proof {
                    assert(self.order@.contains(key));
                    let c = self.order@.index_of(key);
                    assert(self.order@[c] == key);
                    assert(c == i as int);
                }
                self.order.remove(i);
                return;
            }
            i = i + 1;
        }
    }

    /// Taking a key out of both the order and the live set keeps the store well formed.
    proof fn lemma_wf_after_detach(pre: Self, post: Self, key: u64)
        requires
            pre.wf(),
            post.order@ == without(pre.order@, key),
            !post.is_live(key),
            forall|k: u64| k != key ==> (#[trigger] post.is_live(k) <==> pre.is_live(k)),
        ensures
            post.wf(),
    {
        lemma_without(pre.order@, key);
        let o = post.order@;
        assert forall|i: int| 0 <= i < o.len() implies #[trigger] post.is_live(o[i]) by {
            assert(o.contains(o[i]));
            let j = choose|j: int| 0 <= j < pre.order@.len() && pre.order@[j] == o[i];
            assert(pre.is_live(pre.order@[j]));
        }
        assert forall|k: u64| #[trigger] post.is_live(k) implies o.contains(k) by {
            assert(pre.is_live(k));
            assert(pre.order@.contains(k));
        }
    }

    /// The state that `key` is in, without changing the recency order.
    pub(crate) fn get_const(&self, key: u64) -> (r: Option<&EntryState<V>>)
        ensures
            r matches Some(e) ==> self.entries@.contains_key(key) && *e == self.entries@[key],
            r is None ==> !self.entries@.contains_key(key),
    {
        self.entries.get(&key)
    }

    /// Converts `key` to evicted (creating it if it is unknown) and takes it out of the
    /// recency order; returns what it held before.
    pub(crate) fn evict(&mut self, key: u64) -> (r: Option<EntryState<V>>)
        requires
            old(self).wf(),
        ensures
            final(self).wf(),
            r == old(self).entries@.get(key),
            final(self).entries@ == old(self).entries@.insert(key, EntryState::Evicted),
            final(self).order@ == without(old(self).order@, key),
    {
        self.detach(key);
        let r = self.entries.insert(key, EntryState::Evicted);
        proof {
            Self::lemma_wf_after_detach(*old(self), *self, key);
        }
        r
    }

    /// Deletes `key` entirely; returns what it held.
    pub(crate) fn remove(&mut self, key: u64) -> (r: Option<EntryState<V>>)
        requires
            old(self).wf(),
        ensures
            final(self).wf(),
            r == old(self).entries@.get(key),
            final(self).entries@ == old(self).entries@.remove(key),
            final(self).order@ == without(old(self).order@, key),
    {
        self.detach(key);
        let r = self.entries.remove(&key);
        proof {
            Self::lemma_wf_after_detach(*old(self), *self, key);
        }
        r
    }

    /// Evicts the least recently used live entry, leaving an evicted placeholder, and
    /// returns its key and value.
    pub(crate) fn evict_lru(&mut self) -> (r: Option<(u64, V)>)
        requires
            old(self).wf(),
        ensures
            final(self).wf(),
            old(self).order@.len() == 0 ==> r is None && *final(self) == *old(self),
            old(self).order@.len() > 0 ==> {
                let k = old(self).order@[0];
                &&& r == Some((k, old(self).live_value(k)))
                &&& final(self).entries@ == old(self).entries@.insert(k, EntryState::Evicted)
                &&& final(self).order@ == old(self).order@.subrange(1, old(self).order@.len() as int)
            },
    {
        if self.order.len() == 0 {
            return None;
        }
        let key = self.order[0];
        proof {
            assert(self.is_live(self.order@[0]));
            lemma_without(self.order@, key);
        }
        let prev = self.evict(key);
        match prev {
            Some(EntryState::Cached(v)) => Some((key, v)),
            _ => None,
        }
    }

    /// Deletes the least recently used live entry entirely and returns its key and value.
    pub(crate) fn remove_lru(&mut self) -> (r: Option<(u64, V)>)
        requires
            old(self).wf(),
        ensures
            final(self).wf(),
            old(self).order@.len() == 0 ==> r is None && *final(self) == *old(self),
            old(self).order@.len() > 0 ==> {
                let k = old(self).order@[0];
                &&& r == Some((k, old(self).live_value(k)))
                &&& final(self).entries@ == old(self).entries@.remove(k)
                &&& final(self).order@ == old(self).order@.subrange(1, old(self).order@.len() as int)
            },
    {
        if self.order.len() == 0 {
            return None;
        }
        let key = self.order[0];
        proof {
            assert(self.is_live(self.order@[0]));
            lemma_without(self.order@, key);
        }
        let prev = self.remove(key);
        match prev {
            Some(EntryState::Cached(v)) => Some((key, v)),
            _ => None,
        }
    }

    /// Moves a live `key` to the most recently used end.
    pub(crate) fn touch(&mut self, key: u64)
        requires
            old(self).wf(),
            old(self).is_live(key),
        ensures
            final(self).wf(),
            final(self).entries == old(self).entries,
            final(self).order@ == without(old(self).order@, key).push(key),
    {
        proof {
            lemma_without(self.order@, key);
        }
        self.detach(key);
        self.order.push(key);
        proof {
            let o = self.order@;
            let w = without(old(self).order@, key);
            assert forall|i: int| 0 <= i < o.len() implies #[trigger] self.is_live(o[i]) by {
                if i < o.len() - 1 {
                    assert(w.contains(o[i]));
                    let j = choose|j: int| 0 <= j < old(self).order@.len() && old(self).order@[j] == o[i];
                    assert(old(self).is_live(old(self).order@[j]));
                }
            }
            assert forall|k: u64| #[trigger] self.is_live(k) implies o.contains(k) by {
                if k == key {
                    assert(o[o.len() - 1] == key);
                } else {
                    assert(old(self).is_live(k));
                    assert(old(self).order@.contains(k));
                    assert(w.contains(k));
                    let j = choose|j: int| 0 <= j < w.len() && w[j] == k;
                    assert(o[j] == k);
                }
            }
            assert(!w.contains(key));
            assert forall|a: int, b: int| 0 <= a < b < o.len() implies o[a] != o[b] by {
                if b == o.len() - 1 {
                    assert(w[a] == o[a]);
                }
            }
        }
    }

    /// A mutable borrow of the value of a live `key`; the recency order is left as it is.
    pub(crate) fn live_mut(&mut self, key: u64) -> (r: &mut V)
        requires
            old(self).wf(),
            old(self).is_live(key),
        ensures
            *r == old(self).live_value(key),
            final(self).entries@ == old(self).entries@.insert(key, EntryState::Cached(*final(r))),
            final(self).order == old(self).order,
    {
        match self.entries.entry(key) {
            Entry::Occupied(o) => {
                match o.into_mut() {
                    EntryState::Cached(v) => v,
                    EntryState::Evicted => unreached(),
                }
            },
            Entry::Vacant(_) => unreached(),
        }
    }

    /// A shared borrow of the value of a live `key`.
    pub(crate) fn live_ref(&self, key: u64) -> (r: &V)
        requires
            self.is_live(key),
        ensures
            *r == self.live_value(key),
    {
        match self.entries.get(&key) {
            Some(EntryState::Cached(v)) => v,
            _ => unreached(),
        }
    }

    pub(crate) fn clear(&mut self)
        ensures
            final(self).wf(),
            final(self).entries@ == Map::<u64, EntryState<V>>::empty(),
            final(self).order@ == Seq::<u64>::empty(),
    {
        self.entries.clear();
        self.order.clear();
    }

    /// The number of live entries.
    pub(crate) fn len_cached(&self) -> (r: usize)
        ensures
            r == self.order@.len(),
    {
        self.order.len()
    }

    /// Every known key, live or evicted, each once.
    pub(crate) fn keys(&self) -> (r: Vec<u64>)
        ensures
            r@.to_set() == self.entries@.dom(),
            r@.len() == self.entries@.dom().len(),
            r@.no_duplicates(),
    {
        let mut r: Vec<u64> = Vec::new();
        let ghost ks: Seq<&u64> = self.entries.keys().remaining();
        proof {
            assert(ks.unref().to_set() == self.entries@.dom());
        }
        for k in it: self.entries.keys()
            invariant
                it.seq() == ks,
                r@.len() == it.index(),
                forall|i: int| 0 <= i < it.index() ==> r@[i] == *ks[i],
        {
            assert(*k == *ks[it.index()]);
            r.push(*k);
        }
        proof {
            assert(r@ =~= ks.unref());
            assert(ks.no_duplicates());
            assert forall|a: int, b: int| 0 <= a < b < r@.len() implies r@[a] != r@[b] by {
                assert(ks[a] != ks[b]);
            }
        }
        r
    }

    /// Inserts `value` as live and most recently used; returns what `key` held before.
    pub(crate) fn insert(&mut self, key: u64, value: V) -> (r: Option<EntryState<V>>)
        requires
            old(self).wf(),
        ensures
            final(self).wf(),
            r == old(self).entries@.get(key),
            final(self).entries@ == old(self).entries@.insert(key, EntryState::Cached(value)),
            final(self).order@ == without(old(self).order@, key).push(key),
    {
        proof {
            lemma_without(self.order@, key);
        }
        self.detach(key);
        let r = self.entries.insert(key, EntryState::Cached(value));
        self.order.push(key);
        proof {
            let o = self.order@;
            assert forall|i: int| 0 <= i < o.len() implies #[trigger] self.is_live(o[i]) by {
                if i < o.len() - 1 {
                    assert(without(old(self).order@, key).contains(o[i]));
                    assert(old(self).order@.contains(o[i]));
                    let j = choose|j: int| 0 <= j < old(self).order@.len() && old(self).order@[j] == o[i];
                    assert(old(self).is_live(old(self).order@[j]));
                }
            }
            assert forall|k: u64| #[trigger] self.is_live(k) implies self.order@.contains(k) by {
                if k == key {
                    assert(o[o.len() - 1] == key);
                } else {
                    assert(old(self).is_live(k));
                    assert(without(old(self).order@, key).contains(k));
                    let j = choose|j: int| 0 <= j < without(old(self).order@, key).len() && without(old(self).order@, key)[j] == k;
                    assert(o[j] == k);
                }
            }
            assert(!without(old(self).order@, key).contains(key));
            assert forall|a: int, b: int| 0 <= a < b < o.len() implies o[a] != o[b] by {
                if b == o.len() - 1 {
                    assert(without(old(self).order@, key)[a] == o[a]);
                }
            }
        }
        r
    }
}

} // verus!

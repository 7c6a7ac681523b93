//! A bounded cache of frame bundles with least-recently-used eviction.
//! The recency order lives in an `uluru::LRUCache` of frame indices, the
//! bundles in a map keyed by the same indices; the cache keeps the two in step.
use vstd::prelude::*;
use std::collections::HashMap;

verus! {

broadcast use vstd::std_specs::hash::group_hash_axioms;

/// How many frames the cache holds at most.
pub const CAPACITY: usize = 32;

/// Declares `uluru::LRUCache`, a fixed-capacity recency list, as an opaque type.
#[verifier::external_type_specification]
#[verifier::external_body]
#[verifier::reject_recursive_types(T)]
pub struct ExLRUCache<T, const N: usize>(uluru::LRUCache<T, N>);

/// The indices an `uluru` recency list holds, most recently used first.
pub uninterp spec fn recency(c: uluru::LRUCache<usize, 32>) -> Seq<usize>;

/// `i` is the position of the first `key` in `keys`.
pub open spec fn is_first_position(keys: Seq<usize>, key: usize, i: int) -> bool {
    &&& 0 <= i < keys.len()
    &&& keys[i] == key
    &&& forall|j: int| 0 <= j < i ==> #[trigger] keys[j] != key
}

/// `keys` with its first `key` moved to the front.
pub open spec fn moved_to_front(keys: Seq<usize>, key: usize) -> Seq<usize> {
    let i = choose|i: int| is_first_position(keys, key, i);
    seq![key] + keys.remove(i)
}

/// Relies on `LRUCache::default`: an empty list.
#[verifier::external_body]
fn lru_new() -> (r: uluru::LRUCache<usize, 32>)
    ensures
        recency(r) == Seq::<usize>::empty(),
{
    uluru::LRUCache::default()
}

/// Relies on `LRUCache::insert`: the index becomes the front; a full list
/// first drops and returns its back (least recently used) entry.
#[verifier::external_body]
fn lru_insert(c: &mut uluru::LRUCache<usize, 32>, key: usize) -> (r: Option<usize>)
    ensures
        recency(*old(c)).len() >= 32 ==> {
            &&& r == Some(recency(*old(c)).last())
            &&& recency(*final(c)) == seq![key] + recency(*old(c)).drop_last()
        },
        recency(*old(c)).len() < 32 ==> {
            &&& r is None
            &&& recency(*final(c)) == seq![key] + recency(*old(c))
        },
{
    c.insert(key)
}

/// Whether two indices are equal.
pub fn same_key(x: &usize, key: usize) -> (r: bool)
    ensures
        r == (*x == key),
{
    *x == key
}

/// Relies on `LRUCache::touch`: the first entry equal to `key`, if any,
/// moves to the front, and the result says whether there was one.
#[verifier::external_body]
fn lru_touch(c: &mut uluru::LRUCache<usize, 32>, key: usize) -> (r: bool)
    ensures
        r == recency(*old(c)).contains(key),
        r ==> recency(*final(c)) == moved_to_front(recency(*old(c)), key),
        !r ==> recency(*final(c)) == recency(*old(c)),
{
    c.touch(|x: &usize| same_key(x, key))
}

/// Frame bundles by frame index, at most `CAPACITY` of them.
pub struct FrameCache<B> {
    lru: uluru::LRUCache<usize, 32>,
    frames: HashMap<usize, B>,
}

impl<B> FrameCache<B> {
    /// The cached indices, most recently used first.
    pub closed spec fn keys(&self) -> Seq<usize> {
        recency(self.lru)
    }

    /// The cached bundles.
    pub closed spec fn frames(&self) -> Map<usize, B> {
        self.frames@
    }

    /// The recency list has each cached index once, no more than the
    /// capacity, and the bundles are exactly those of the listed indices.
    pub open spec fn wf(&self) -> bool {
        &&& self.keys().no_duplicates()
        &&& self.keys().len() <= CAPACITY
        &&& self.keys().to_set() == self.frames().dom()
    }

    /// A well-formed cache never holds more than `CAPACITY` bundles.
    pub proof fn lemma_bounded(&self)
        requires
            self.wf(),
        ensures
            self.frames().dom().finite(),
            self.frames().dom().len() <= CAPACITY,
    {
        self.keys().unique_seq_to_set();
        self.keys().lemma_cardinality_of_set();
        vstd::seq_lib::seq_to_set_is_finite(self.keys());
    }

    /// An empty cache.
    pub fn new() -> (r: FrameCache<B>)
        ensures
            r.wf(),
            r.keys() == Seq::<usize>::empty(),
            r.frames() == Map::<usize, B>::empty(),
    {
        let r = FrameCache { lru: lru_new(), frames: HashMap::new() };
        proof {
            assert(r.keys().to_set() =~= r.frames().dom());
        }
        r
    }

    /// Whether a bundle for `key` is cached.
    pub fn contains(&self, key: usize) -> (r: bool)
        requires
            self.wf(),
        ensures
            r == self.frames().contains_key(key),
    {
        self.frames.contains_key(&key)
    }

    /// The cached bundle for `key`, if any. Does not count as a use.
    pub fn get(&self, key: usize) -> (r: Option<&B>)
        requires
            self.wf(),
        ensures
            r is Some <==> self.frames().contains_key(key),
            r is Some ==> *r->Some_0 == self.frames()[key],
    {
        self.frames.get(&key)
    }

    /// Records a use of `key`: when it is cached it becomes the most
    /// recently used. Returns whether it is cached.
    pub fn touch(&mut self, key: usize) -> (r: bool)
        requires
            old(self).wf(),
        ensures
            final(self).wf(),
            r == old(self).frames().contains_key(key),
            final(self).frames() == old(self).frames(),
            r ==> final(self).keys() == moved_to_front(old(self).keys(), key),
            !r ==> final(self).keys() == old(self).keys(),
    {
        let r = lru_touch(&mut self.lru, key);
        proof {
            let ks = old(self).keys();
            assert(ks.to_set().contains(key) == ks.contains(key));
            if r {
                let i0 = choose|i: int| 0 <= i < ks.len() && ks[i] == key;
                assert(is_first_position(ks, key, i0));
                let i = choose|i: int| is_first_position(ks, key, i);
                assert(i == i0);
                let nk = self.keys();
                assert(nk == seq![key] + ks.remove(i));
                assert(nk.to_set() =~= ks.to_set()) by {
                    assert forall|x: usize| nk.to_set().contains(x) implies ks.to_set().contains(x) by {
                        let j = choose|j: int| 0 <= j < nk.len() && nk[j] == x;
                        if j > 0 {
                            assert(nk[j] == ks.remove(i)[j - 1]);
                        }
                    }
                    assert forall|x: usize| ks.to_set().contains(x) implies nk.to_set().contains(x) by {
                        let j = choose|j: int| 0 <= j < ks.len() && ks[j] == x;
                        if j == i {
                            assert(nk[0] == x);
                        } else if j < i {
                            assert(nk[j + 1] == x);
                        } else {
                            assert(nk[j] == x);
                        }
                    }
                }
                assert(nk.no_duplicates()) by {
                    assert forall|a: int, b: int| 0 <= a < nk.len() && 0 <= b < nk.len() && a != b
                        implies nk[a] != nk[b] by {
                        let rm = ks.remove(i);
                        if a > 0 && b > 0 {
                            assert(nk[a] == rm[a - 1] && nk[b] == rm[b - 1]);
                            let ia = if a - 1 < i { a - 1 } else { a };
                            let ib = if b - 1 < i { b - 1 } else { b };
                            assert(rm[a - 1] == ks[ia] && rm[b - 1] == ks[ib]);
                        } else if a == 0 {
                            let ib = if b - 1 < i { b - 1 } else { b };
                            assert(nk[b] == ks[ib]);
                            assert(ib != i);
                        } else {
                            let ia = if a - 1 < i { a - 1 } else { a };
                            assert(nk[a] == ks[ia]);
                            assert(ia != i);
                        }
                    }
                }
            }
        }
        r
    }

    /// Caches `bundle` for `key` as the most recently used entry. When
    /// `key` was cached its bundle is replaced. Otherwise, when the cache
    /// is full, the least recently used entry is evicted and its index returned.
    pub fn insert(&mut self, key: usize, bundle: B) -> (r: Option<usize>)
        requires
            old(self).wf(),
        ensures
            final(self).wf(),
            final(self).frames() == (match r {
                Some(e) => old(self).frames().remove(e),
                None => old(self).frames(),
            }).insert(key, bundle),
            old(self).frames().contains_key(key) ==> {
                &&& r is None
                &&& final(self).keys() == moved_to_front(old(self).keys(), key)
            },
            !old(self).frames().contains_key(key) && old(self).keys().len() == CAPACITY ==> {
                &&& r == Some(old(self).keys().last())
                &&& final(self).keys() == seq![key] + old(self).keys().drop_last()
            },
            !old(self).frames().contains_key(key) && old(self).keys().len() < CAPACITY ==> {
                &&& r is None
                &&& final(self).keys() == seq![key] + old(self).keys()
            },
    {
        if self.touch(key) {
            self.frames.insert(key, bundle);
            proof {
                assert(self.keys().to_set() =~= self.frames().dom());
            }
            return None;
        }
        let ghost ks = self.keys();
        let evicted = lru_insert(&mut self.lru, key);
        match evicted {
            Some(e) => {
                self.frames.remove(&e);
            },
            None => {},
        }
        self.frames.insert(key, bundle);
        proof {
            let nk = self.keys();
            assert(!ks.contains(key));
            if ks.len() >= 32 {
                let last = ks.last();
                let kept = ks.drop_last();
                assert(kept.to_set().contains(last) == false) by {
                    if kept.contains(last) {
                        let j = choose|j: int| 0 <= j < kept.len() && kept[j] == last;
                        assert(ks[j] == ks[ks.len() - 1]);
                    }
                }
                assert(nk.to_set() =~= ks.to_set().remove(last).insert(key)) by {
                    assert forall|x: usize| nk.to_set().contains(x) implies ks.to_set().remove(
                        last,
                    ).insert(key).contains(x) by {
                        let j = choose|j: int| 0 <= j < nk.len() && nk[j] == x;
                        if j > 0 {
                            assert(nk[j] == ks[j - 1]);
                            assert(kept.contains(x));
                        }
                    }
                    assert forall|x: usize| ks.to_set().remove(last).insert(key).contains(x) implies nk.to_set().contains(x) by {
                        if x != key {
                            let j = choose|j: int| 0 <= j < ks.len() && ks[j] == x;
                            assert(j != ks.len() - 1);
                            assert(nk[j + 1] == x);
                        } else {
                            assert(nk[0] == x);
                        }
                    }
                }
                assert(nk.no_duplicates()) by {
                    assert forall|a: int, b: int| 0 <= a < nk.len() && 0 <= b < nk.len() && a != b
                        implies nk[a] != nk[b] by {
                        if a > 0 && b > 0 {
                            assert(nk[a] == ks[a - 1] && nk[b] == ks[b - 1]);
                        } else if a == 0 {
                            assert(nk[b] == ks[b - 1]);
                        } else {
                            assert(nk[a] == ks[a - 1]);
                        }
                    }
                }
            } else {
                assert(nk.to_set() =~= ks.to_set().insert(key)) by {
                    assert forall|x: usize| nk.to_set().contains(x) implies ks.to_set().insert(
                        key,
                    ).contains(x) by {
                        let j = choose|j: int| 0 <= j < nk.len() && nk[j] == x;
                        if j > 0 {
                            assert(nk[j] == ks[j - 1]);
                        }
                    }
                    assert forall|x: usize| ks.to_set().insert(key).contains(x) implies nk.to_set().contains(x) by {
                        if x != key {
                            let j = choose|j: int| 0 <= j < ks.len() && ks[j] == x;
                            assert(nk[j + 1] == x);
                        } else {
                            assert(nk[0] == x);
                        }
                    }
                }
                assert(nk.no_duplicates()) by {
                    assert forall|a: int, b: int| 0 <= a < nk.len() && 0 <= b < nk.len() && a != b
                        implies nk[a] != nk[b] by {
                        if a > 0 && b > 0 {
                            assert(nk[a] == ks[a - 1] && nk[b] == ks[b - 1]);
                        } else if a == 0 {
                            assert(nk[b] == ks[b - 1]);
                        } else {
                            assert(nk[a] == ks[a - 1]);
                        }
                    }
                }
            }
            assert(self.keys().to_set() =~= self.frames().dom());
        }
        evicted
    }
}

} // verus!

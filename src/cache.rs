//! A memoizing arena: values built once per key and named by stable handles.
use vstd::prelude::*;
use core::marker::PhantomData;
use crate::plan::PassKey;

verus! {

/// A key of a `Cache`, compared by value.
pub trait CacheKey: Sized {
    /// Whether the two keys are equal.
    fn same(&self, other: &Self) -> (r: bool)
        ensures
            r == (*self == *other),
    ;
}

impl CacheKey for PassKey {
    fn same(&self, other: &Self) -> (r: bool) {
        *self == *other
    }
}

/// Mesh keys: a recursion depth.
impl CacheKey for u32 {
    fn same(&self, other: &Self) -> (r: bool) {
        *self == *other
    }
}

/// A handle to a value held by a `Cache`. Handles compare by identity: two
/// are equal exactly when they name the same stored value.
#[derive(Debug)]
pub struct PtrRc<T> {
    pub index: usize,
    pub marker: PhantomData<T>,
}

impl<T> PtrRc<T> {
    pub fn new(index: usize) -> (r: PtrRc<T>)
        ensures
            r.index == index,
    {
        PtrRc { index, marker: PhantomData }
    }
}

impl<T> Clone for PtrRc<T> {
    fn clone(&self) -> (r: Self)
        ensures
            r.index == self.index,
    {
        PtrRc { index: self.index, marker: PhantomData }
    }
}

impl<T> PartialEq for PtrRc<T> {
    fn eq(&self, other: &Self) -> (r: bool) {
        self.index == other.index
    }
}

impl<T> vstd::std_specs::cmp::PartialEqSpecImpl for PtrRc<T> {
    open spec fn obeys_eq_spec() -> bool {
        true
    }

    open spec fn eq_spec(&self, other: &Self) -> bool {
        self.index == other.index
    }
}

impl<T> Eq for PtrRc<T> {
}

/// Values built on demand, one per key, kept until dropped by `retain` or
/// `clear`.
#[derive(Debug)]
pub struct Cache<K, V> {
    keys: Vec<K>,
    values: Vec<V>,
}

/// The outcome of `get_or_build(key)` on `before` that gave `r` and left `after`:
/// `r` names the entry of `key`; an existing entry is reused and nothing
/// changes; otherwise one entry for `key` is appended.
pub open spec fn built<K: CacheKey, V>(before: Cache<K, V>, key: K, r: PtrRc<V>, after: Cache<K, V>) -> bool {
    &&& after.wf()
    &&& r.index < after.keys().len()
    &&& after.keys()[r.index as int] == key
    &&& before.has(key) ==> after.keys() == before.keys() && after.values() == before.values()
    &&& !before.has(key) ==> after.keys() == before.keys().push(key) && after.values().drop_last()
        == before.values() && after.values().len() == before.values().len() + 1 && r.index
        == before.keys().len()
}

impl<K: CacheKey, V> Cache<K, V> {
    pub closed spec fn keys(&self) -> Seq<K> {
        self.keys@
    }

    pub closed spec fn values(&self) -> Seq<V> {
        self.values@
    }

    /// One value per key, keys distinct.
    pub open spec fn wf(&self) -> bool {
        &&& self.keys().len() == self.values().len()
        &&& forall|i: int, j: int|
            0 <= i < j < self.keys().len() ==> #[trigger] self.keys()[i] != #[trigger] self.keys()[j]
    }

    pub open spec fn has(&self, key: K) -> bool {
        exists|i: int| 0 <= i < self.keys().len() && #[trigger] self.keys()[i] == key
    }

    pub fn new() -> (r: Cache<K, V>)
        ensures
            r.wf(),
            r.keys().len() == 0,
            r.values().len() == 0,
    {
        Cache { keys: Vec::new(), values: Vec::new() }
    }

    pub fn len(&self) -> (r: usize)
        requires
            self.wf(),
        ensures
            r == self.keys().len(),
    {
        self.keys.len()
    }

    /// The handle of `key`'s entry, if it has one.
    pub fn find(&self, key: &K) -> (r: Option<PtrRc<V>>)
        requires
            self.wf(),
        ensures
            r is Some <==> self.has(*key),
            r matches Some(h) ==> h.index < self.keys().len() && self.keys()[h.index as int]
                == *key,
    {
        let mut i: usize = 0;
        while i < self.keys.len()
            invariant
                i <= self.keys@.len(),
                forall|j: int| 0 <= j < i ==> self.keys@[j] != *key,
            decreases self.keys@.len() - i,
        {
            if self.keys[i].same(key) {
                return Some(PtrRc::new(i));
            }
            i = i + 1;
        }
        None
    }

    /// The value `h` names.
    pub fn get(&self, h: &PtrRc<V>) -> (r: &V)
        requires
            self.wf(),
            h.index < self.keys().len(),
        ensures
            *r == self.values()[h.index as int],
    {
        &self.values[h.index]
    }

    /// The handle of `key`'s entry, built with `ctor` if there is none yet.
    pub fn get_or_build<F: FnOnce(&K) -> V>(&mut self, key: K, ctor: F) -> (r: PtrRc<V>)
        requires
            old(self).wf(),
            ctor.requires((&key,)),
        ensures
            built(*old(self), key, r, *final(self)),
            !old(self).has(key) ==> ctor.ensures((&key,), final(self).values().last()),
    {
        match self.find(&key) {
            Some(h) => h,
            None => {
                let v = ctor(&key);
                let n = self.keys.len();
                self.keys.push(key);
                self.values.push(v);
                proof {
                    assert(self.values@.drop_last() =~= old(self).values@);
                    assert forall|i: int, j: int|
                        0 <= i < j < self.keys().len() implies #[trigger] self.keys()[i]
                        != #[trigger] self.keys()[j] by {
                        if j == n {
                            assert(self.keys()[i] == old(self).keys()[i]);
                        } else {
                            assert(self.keys()[i] == old(self).keys()[i]);
                            assert(self.keys()[j] == old(self).keys()[j]);
                        }
                    }
                }
                PtrRc::new(n)
            },
        }
    }

    /// Keeps the entries whose key `keep` accepts, in their order, and drops
    /// the others. Handles given out before may no longer name their entry.
    pub fn retain<F: Fn(&K) -> bool>(&mut self, keep: F)
        requires
            old(self).wf(),
            forall|k: &K| keep.requires((k,)),
        ensures
            final(self).wf(),
            exists|kept: Seq<bool>|
                kept.len() == old(self).keys().len() && forall|j: int|
                    0 <= j < kept.len() ==> keep.ensures((&old(self).keys()[j],), #[trigger] kept[j])
                        && (final(self).has(old(self).keys()[j]) <==> kept[j]),
            forall|i: int|
                0 <= i < final(self).keys().len() ==> old(self).has(#[trigger] final(self).keys()[i]),
            forall|i: int, j: int|
                0 <= i < final(self).keys().len() && 0 <= j < old(self).keys().len()
                    && #[trigger] final(self).keys()[i] == #[trigger] old(self).keys()[j]
                    ==> final(self).values()[i] == old(self).values()[j],
    {
        let ghost ok = self.keys@;
        let ghost ov = self.values@;
        let ghost n = ok.len();
        let mut rest_keys: Vec<K> = Vec::new();
        let mut rest_values: Vec<V> = Vec::new();
        core::mem::swap(&mut self.keys, &mut rest_keys);
        core::mem::swap(&mut self.values, &mut rest_values);
        let ghost mut kept: Seq<bool> = Seq::empty();
        let ghost mut idx: Seq<int> = Seq::empty();
        while rest_keys.len() > 0
            invariant
                ok.len() == n,
                ov.len() == n,
                forall|a: int, b: int| 0 <= a < b < n ==> #[trigger] ok[a] != #[trigger] ok[b],
                forall|k: &K| keep.requires((k,)),
                0 <= kept.len() <= n,
                rest_keys@ == ok.subrange(kept.len() as int, n as int),
                rest_values@ == ov.subrange(kept.len() as int, n as int),
                self.keys@.len() == self.values@.len(),
                idx.len() == self.keys@.len(),
                forall|i: int|
                    0 <= i < idx.len() ==> 0 <= #[trigger] idx[i] < kept.len() && self.keys@[i]
                        == ok[idx[i]] && self.values@[i] == ov[idx[i]] && kept[idx[i]],
                forall|j: int|
                    0 <= j < kept.len() ==> keep.ensures((&ok[j],), #[trigger] kept[j]) && (kept[j]
                        ==> exists|i: int| 0 <= i < idx.len() && idx[i] == j),
                forall|a: int, b: int| 0 <= a < b < idx.len() ==> #[trigger] idx[a] < #[trigger] idx[b],
            decreases rest_keys.len(),
        {
            let ghost j = kept.len() as int;
            let ghost kept0 = kept;
            let ghost idx0 = idx;
            let k = rest_keys.remove(0);
            let v = rest_values.remove(0);
            assert(k == ok[j] && v == ov[j]);
            let b = keep(&k);
            proof {
                kept = kept.push(b);
            }
            if b {
                self.keys.push(k);
                self.values.push(v);
                proof {
                    idx = idx.push(j);
                }
            }
            assert(rest_keys@ =~= ok.subrange(kept.len() as int, n as int));
            assert(rest_values@ =~= ov.subrange(kept.len() as int, n as int));
            assert forall|jj: int| 0 <= jj < kept.len() implies keep.ensures((&ok[jj],), #[trigger] kept[jj])
                && (kept[jj] ==> exists|i: int| 0 <= i < idx.len() && idx[i] == jj) by {
                if jj < j {
                    assert(kept[jj] == kept0[jj]);
                    assert(keep.ensures((&ok[jj],), kept0[jj]));
                    if kept0[jj] {
                        let i = choose|i: int| 0 <= i < idx0.len() && idx0[i] == jj;
                        assert(idx[i] == jj);
                    }
                } else {
                    assert(kept[jj] == b);
                    if b {
                        assert(idx[idx.len() - 1] == jj);
                    }
                }
            }
        }
        proof {
            assert forall|a: int, b: int|
                0 <= a < b < self.keys().len() implies #[trigger] self.keys()[a]
                != #[trigger] self.keys()[b] by {
                assert(idx[a] < idx[b]);
            }
            assert forall|j: int| 0 <= j < kept.len() implies (self.has(ok[j]) <==> #[trigger] kept[j]) by {
                if kept[j] {
                    let i = choose|i: int| 0 <= i < idx.len() && idx[i] == j;
                    assert(self.keys()[i] == ok[j]);
                }
                if self.has(ok[j]) {
                    let i = choose|i: int| 0 <= i < self.keys().len() && #[trigger] self.keys()[i] == ok[j];
                    assert(ok[idx[i]] == ok[j]);
                }
            }
            assert(ok == old(self).keys() && ov == old(self).values());
            assert forall|i: int| 0 <= i < self.keys().len() implies old(self).has(
                #[trigger] self.keys()[i],
            ) by {
                assert(self.keys()[i] == old(self).keys()[idx[i]]);
            }
            assert forall|i: int, j: int|
                0 <= i < self.keys().len() && 0 <= j < old(self).keys().len() && #[trigger] self.keys()[i]
                    == #[trigger] old(self).keys()[j] implies self.values()[i] == old(self).values()[j] by {
                assert(self.keys()[i] == ok[idx[i]]);
                assert(idx[i] == j);
            }
        }
    }

    /// Drops every entry; handles given out before no longer name anything.
    pub fn clear(&mut self)
        ensures
            final(self).wf(),
            final(self).keys().len() == 0,
            final(self).values().len() == 0,
    {
        self.keys.clear();
        self.values.clear();
    }
}

/// Two lookups with equal keys give the same handle; one with another key
/// gives a different handle; and the second lookup leaves every entry that
/// existed after the first as it was.
pub proof fn lemma_identity_stable<K: CacheKey, V>(
    c0: Cache<K, V>,
    k1: K,
    h1: PtrRc<V>,
    c1: Cache<K, V>,
    k2: K,
    h2: PtrRc<V>,
    c2: Cache<K, V>,
)
    requires
        c0.wf(),
        built(c0, k1, h1, c1),
        built(c1, k2, h2, c2),
    ensures
        k1 == k2 ==> h1 == h2,
        k1 != k2 ==> h1.index != h2.index,
        forall|i: int|
            0 <= i < c1.keys().len() ==> c2.keys()[i] == c1.keys()[i] && #[trigger] c2.values()[i]
                == c1.values()[i],
{
    assert(c1.has(k1));
    if k1 == k2 {
        assert(c2.keys() == c1.keys());
        assert(h2.index == h1.index);
    }
    if !c1.has(k2) {
        assert forall|i: int| 0 <= i < c1.keys().len() implies c2.keys()[i] == c1.keys()[i]
            && #[trigger] c2.values()[i] == c1.values()[i] by {
            assert(c2.values().drop_last()[i] == c2.values()[i]);
        }
    }
}

} // verus!

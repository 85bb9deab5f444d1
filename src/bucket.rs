//! Buckets: sets of values kept as vectors without repeated views, and
//! indexes, association lists from keys to buckets.
use crate::assoc::{
    assoc_find, assoc_insert_new, assoc_view, items_view, lemma_to_map_index, lemma_to_map_update,
    pairs_view, unique_items, unique_keys, ViewEq,
};
use vstd::prelude::*;

verus! {

/// The bucket under `k`, empty where there is none.
pub open spec fn bucket_at<K, T>(m: Map<K, Set<T>>, k: K) -> Set<T> {
    if m.contains_key(k) {
        m[k]
    } else {
        Set::empty()
    }
}

/// `m` with `x` added to the bucket under `k`.
pub open spec fn index_add<K, T>(m: Map<K, Set<T>>, k: K, x: T) -> Map<K, Set<T>> {
    m.insert(k, bucket_at(m, k).insert(x))
}

/// `m` with `x` added to the bucket under each key of `ks`.
pub open spec fn index_add_all<K, T>(m: Map<K, Set<T>>, ks: Set<K>, x: T) -> Map<K, Set<T>> {
    Map::new(
        |k: K| m.contains_key(k) || ks.contains(k),
        |k: K|
            if ks.contains(k) {
                bucket_at(m, k).insert(x)
            } else {
                m[k]
            },
    )
}

/// The bucketwise union of two indexes.
pub open spec fn index_union<K, T>(m1: Map<K, Set<T>>, m2: Map<K, Set<T>>) -> Map<K, Set<T>> {
    Map::new(
        |k: K| m1.contains_key(k) || m2.contains_key(k),
        |k: K| bucket_at(m1, k).union(bucket_at(m2, k)),
    )
}

/// Every bucket of `a` is within the bucket under the same key in `b`.
pub open spec fn index_within<K, T>(a: Map<K, Set<T>>, b: Map<K, Set<T>>) -> bool {
    forall|k: K| #[trigger] a.contains_key(k) ==> b.contains_key(k) && a[k].subset_of(b[k])
}

pub proof fn lemma_within_union<K, T>(a: Map<K, Set<T>>, b: Map<K, Set<T>>)
    ensures
        index_within(a, index_union(a, b)),
        index_within(b, index_union(a, b)),
{
}

pub proof fn lemma_within_trans<K, T>(a: Map<K, Set<T>>, b: Map<K, Set<T>>, c: Map<K, Set<T>>)
    requires
        index_within(a, b),
        index_within(b, c),
    ensures
        index_within(a, c),
{
}

/// A set of values, kept without two of the same view.
#[derive(Debug)]
pub struct Bucket<T: ViewEq> {
    items: Vec<T>,
}

impl<T: ViewEq> View for Bucket<T> {
    type V = Set<T::V>;

    closed spec fn view(&self) -> Set<T::V> {
        items_view(self.items@)
    }
}

impl<T: ViewEq> Bucket<T> {
    #[verifier::type_invariant]
    closed spec fn inv(&self) -> bool {
        unique_items(self.items@)
    }

    /// The bucket holding `x` alone.
    pub fn single(x: T) -> (r: Bucket<T>)
        ensures
            r@ == set![x@],
    {
        let mut items: Vec<T> = Vec::new();
        items.push(x);
        let r = Bucket { items };
        assert(r@ =~= set![x@]) by {
            assert(r.items@[0]@ == x@);
        }
        r
    }

    /// The empty bucket.
    pub fn new() -> (r: Bucket<T>)
        ensures
            r@ == Set::<T::V>::empty(),
    {
        let r = Bucket { items: Vec::new() };
        assert(r@ =~= Set::<T::V>::empty());
        r
    }

    /// The order in which the values are kept.
    pub closed spec fn order(&self) -> Seq<T> {
        self.items@
    }

    /// The values, each once.
    pub fn items(&self) -> (r: &Vec<T>)
        ensures
            r@ == self.order(),
            items_view(r@) == self@,
            unique_items(r@),
            r@.len() == self@.len(),
            self@.finite(),
    {
        proof {
            use_type_invariant(self);
            lemma_items_len(self.items@);
        }
        &self.items
    }

    /// The number of values.
    pub fn len(&self) -> (r: usize)
        ensures
            r == self@.len(),
            self@.finite(),
    {
        proof {
            use_type_invariant(self);
            lemma_items_len(self.items@);
        }
        self.items.len()
    }

    /// Whether a value of the view of `x` is in the bucket.
    pub fn contains(&self, x: &T) -> (r: bool)
        ensures
            r == self@.contains(x@),
    {
        let mut i: usize = 0;
        while i < self.items.len()
            invariant
                i <= self.items.len(),
                forall|j: int| 0 <= j < i ==> (#[trigger] self.items@[j])@ != x@,
            decreases self.items.len() - i,
        {
            if self.items[i].view_eq(x) {
                return true;
            }
            i = i + 1;
        }
        false
    }

    /// Adds `x`; where a value of its view is there already, nothing changes.
    pub fn insert(&mut self, x: T)
        ensures
            final(self)@ == old(self)@.insert(x@),
    {
        proof {
            use_type_invariant(&*self);
        }
        if self.contains(&x) {
            assert(self@.insert(x@) =~= self@);
            return;
        }
        let ghost before = self.items@;
        let mut items: Vec<T> = Vec::new();
        std::mem::swap(&mut items, &mut self.items);
        items.push(x);
        proof {
            assert forall|i: int, j: int| 0 <= i < items@.len() && 0 <= j < items@.len() && i != j implies #[trigger] items@[i]@ != #[trigger] items@[j]@ by {
                if i < before.len() && j < before.len() {
                    assert(items@[i] == before[i] && items@[j] == before[j]);
                } else if i < before.len() {
                    assert(items@[i] == before[i]);
                } else {
                    assert(items@[j] == before[j]);
                }
            }
            assert forall|v: T::V| #[trigger] items_view(items@).contains(v) <==> items_view(before).insert(x@).contains(v) by {
                if items_view(before).contains(v) {
                    let i = choose|i: int| 0 <= i < before.len() && #[trigger] before[i]@ == v;
                    assert(items@[i] == before[i]);
                }
                if items_view(items@).contains(v) && v != x@ {
                    let i = choose|i: int| 0 <= i < items@.len() && #[trigger] items@[i]@ == v;
                    assert(items@[i] == before[i]);
                }
                assert(items@[before.len() as int] == x);
            }
            assert(items_view(items@) =~= items_view(before).insert(x@));
        }
        self.items = items;
    }

    /// Adds every value of `other`.
    pub fn union_with(&mut self, other: &Bucket<T>)
        ensures
            final(self)@ == old(self)@.union(other@),
    {
        let ghost start = self@;
        let ghost others = other.items@;
        let mut i: usize = 0;
        proof {
            use_type_invariant(other);
            assert(items_view(others.take(0)) =~= Set::<T::V>::empty());
            assert(start.union(Set::<T::V>::empty()) =~= start);
        }
        while i < other.items.len()
            invariant
                i <= other.items.len(),
                others == other.items@,
                self@ == start.union(items_view(others.take(i as int))),
            decreases other.items.len() - i,
        {
            let x = other.items[i].duplicate();
            self.insert(x);
            proof {
                assert(items_view(others.take(i + 1)) =~= items_view(others.take(i as int)).insert(others[i as int]@)) by {
                    assert forall|v: T::V| #[trigger] items_view(others.take(i + 1)).contains(v) <==> items_view(others.take(i as int)).insert(others[i as int]@).contains(v) by {
                        if items_view(others.take(i + 1)).contains(v) {
                            let j = choose|j: int| 0 <= j < i + 1 && #[trigger] others.take(i + 1)[j]@ == v;
                            if j < i {
                                assert(others.take(i as int)[j] == others[j]);
                            }
                        }
                        if items_view(others.take(i as int)).contains(v) {
                            let j = choose|j: int| 0 <= j < i && #[trigger] others.take(i as int)[j]@ == v;
                            assert(others.take(i + 1)[j] == others[j]);
                        }
                        assert(others.take(i + 1)[i as int] == others[i as int]);
                    }
                }
                assert(self@ =~= start.union(items_view(others.take(i + 1))));
            }
            i = i + 1;
        }
        proof {
            assert(others.take(others.len() as int) =~= others);
        }
    }

    /// Set equality.
    pub fn same(&self, other: &Bucket<T>) -> (r: bool)
        ensures
            r == (self@ == other@),
    {
        let n = self.len();
        let m = other.len();
        if n != m {
            return false;
        }
        let mut i: usize = 0;
        while i < self.items.len()
            invariant
                i <= self.items.len(),
                n == self@.len(),
                m == other@.len(),
                n == m,
                self@.finite(),
                other@.finite(),
                items_view(self.items@) == self@,
                forall|j: int| 0 <= j < i ==> other@.contains(#[trigger] self.items@[j]@),
            decreases self.items.len() - i,
        {
            if !other.contains(&self.items[i]) {
                assert(self@.contains(self.items@[i as int]@));
                return false;
            }
            i = i + 1;
        }
        proof {
            assert(self@.subset_of(other@)) by {
                assert forall|v: T::V| self@.contains(v) implies other@.contains(v) by {
                    let j = choose|j: int| 0 <= j < self.items@.len() && #[trigger] self.items@[j]@ == v;
                }
            }
            vstd::set_lib::lemma_subset_equality(self@, other@);
        }
        true
    }

    /// A copy of the bucket.
    pub fn copy(&self) -> (r: Bucket<T>)
        ensures
            r@ == self@,
    {
        proof {
            use_type_invariant(self);
        }
        let mut items: Vec<T> = Vec::new();
        let mut i: usize = 0;
        while i < self.items.len()
            invariant
                i <= self.items.len(),
                items.len() == i,
                unique_items(self.items@),
                forall|j: int| 0 <= j < i ==> (#[trigger] items@[j])@ == self.items@[j]@,
            decreases self.items.len() - i,
        {
            items.push(self.items[i].duplicate());
            i = i + 1;
        }
        let r = Bucket { items };
        assert(r@ =~= self@) by {
            assert forall|v: T::V| #[trigger] r@.contains(v) <==> self@.contains(v) by {
                if r@.contains(v) {
                    let j = choose|j: int| 0 <= j < r.items@.len() && #[trigger] r.items@[j]@ == v;
                    assert(self.items@[j]@ == v);
                }
                if self@.contains(v) {
                    let j = choose|j: int| 0 <= j < self.items@.len() && #[trigger] self.items@[j]@ == v;
                    assert(r.items@[j]@ == v);
                }
            }
        }
        r
    }
}

impl<T: ViewEq> ViewEq for Bucket<T> {
    fn view_eq(&self, other: &Self) -> (r: bool) {
        self.same(other)
    }

    fn duplicate(&self) -> (r: Self) {
        self.copy()
    }
}

pub proof fn lemma_items_len<T: View>(s: Seq<T>)
    requires
        unique_items(s),
    ensures
        items_view(s).finite(),
        items_view(s).len() == s.len(),
    decreases s.len(),
{
    if s.len() == 0 {
        assert(items_view(s) =~= Set::<T::V>::empty());
    } else {
        let p = s.drop_last();
        assert(unique_items(p)) by {
            assert forall|i: int, j: int| 0 <= i < p.len() && 0 <= j < p.len() && i != j implies #[trigger] p[i]@ != #[trigger] p[j]@ by {
                assert(p[i] == s[i] && p[j] == s[j]);
            }
        }
        lemma_items_len(p);
        assert(items_view(s) =~= items_view(p).insert(s.last()@)) by {
            assert forall|v: T::V| #[trigger] items_view(s).contains(v) <==> items_view(p).insert(s.last()@).contains(v) by {
                if items_view(s).contains(v) {
                    let i = choose|i: int| 0 <= i < s.len() && #[trigger] s[i]@ == v;
                    if i < s.len() - 1 {
                        assert(p[i] == s[i]);
                    }
                }
                if items_view(p).contains(v) {
                    let i = choose|i: int| 0 <= i < p.len() && #[trigger] p[i]@ == v;
                    assert(s[i] == p[i]);
                }
            }
        }
        assert(!items_view(p).contains(s.last()@)) by {
            if items_view(p).contains(s.last()@) {
                let i = choose|i: int| 0 <= i < p.len() && #[trigger] p[i]@ == s.last()@;
                assert(s[i] == p[i]);
            }
        }
    }
}

/// Adds `x` to the bucket under `k`.
pub fn index_insert<K: ViewEq, T: ViewEq>(idx: &mut Vec<(K, Bucket<T>)>, k: K, x: T)
    requires
        unique_keys(pairs_view(old(idx)@)),
    ensures
        unique_keys(pairs_view(final(idx)@)),
        assoc_view(final(idx)@) == index_add(assoc_view(old(idx)@), k@, x@),
{
    let ghost p = pairs_view(idx@);
    match assoc_find(idx, &k) {
        Some(i) => {
            proof {
                lemma_to_map_index(p, i as int);
            }
            let ghost old_idx = idx@;
            let ghost old_b = idx@[i as int].1@;
            let (k2, mut b2) = idx.remove(i);
            b2.insert(x);
            idx.insert(i, (k2, b2));
            proof {
                assert(idx@ =~= old_idx.update(i as int, (old_idx[i as int].0, idx@[i as int].1)));
                lemma_to_map_update(p, i as int, old_b.insert(x@));
                assert(pairs_view(idx@) =~= p.update(i as int, (p[i as int].0, old_b.insert(x@))));
                assert(index_add(crate::assoc::to_map(p), k@, x@) =~= crate::assoc::to_map(p).insert(p[i as int].0, old_b.insert(x@)));
            }
        },
        None => {
            let ok = assoc_insert_new(idx, k, Bucket::single(x));
            assert(bucket_at(assoc_view(old(idx)@), k@) =~= Set::<T::V>::empty());
            assert(set![x@] =~= Set::<T::V>::empty().insert(x@));
        },
    }
}

/// `m` with every value of `s` added to the bucket under `k`.
pub open spec fn index_add_set<K, T>(m: Map<K, Set<T>>, k: K, s: Set<T>) -> Map<K, Set<T>> {
    m.insert(k, bucket_at(m, k).union(s))
}

proof fn lemma_union_step<K, T>(a: Map<K, Set<T>>, m: Map<K, Set<T>>, k: K, s: Set<T>)
    requires
        !m.contains_key(k),
    ensures
        index_union(a, m.insert(k, s)) == index_add_set(index_union(a, m), k, s),
{
    assert forall|x: K| #[trigger] index_union(a, m.insert(k, s)).contains_key(x) implies index_union(a, m.insert(k, s))[x] == index_add_set(index_union(a, m), k, s)[x] by {
        if x == k {
            assert(bucket_at(index_union(a, m), k) =~= bucket_at(a, k));
        }
    }
    assert(index_union(a, m.insert(k, s)) =~= index_add_set(index_union(a, m), k, s));
}

/// Merging is commutative.
pub proof fn lemma_union_commutative<K, T>(m1: Map<K, Set<T>>, m2: Map<K, Set<T>>)
    ensures
        index_union(m1, m2) == index_union(m2, m1),
{
    assert forall|k: K| #[trigger] index_union(m1, m2).contains_key(k) implies index_union(m1, m2)[k] == index_union(m2, m1)[k] by {
        assert(bucket_at(m1, k).union(bucket_at(m2, k)) =~= bucket_at(m2, k).union(bucket_at(m1, k)));
    }
    assert(index_union(m1, m2) =~= index_union(m2, m1));
}

/// Merging is associative.
pub proof fn lemma_union_associative<K, T>(m1: Map<K, Set<T>>, m2: Map<K, Set<T>>, m3: Map<K, Set<T>>)
    ensures
        index_union(index_union(m1, m2), m3) == index_union(m1, index_union(m2, m3)),
{
    let l = index_union(index_union(m1, m2), m3);
    let r = index_union(m1, index_union(m2, m3));
    assert forall|k: K| #[trigger] l.contains_key(k) implies l[k] == r[k] by {
        assert(bucket_at(index_union(m1, m2), k) =~= bucket_at(m1, k).union(bucket_at(m2, k)));
        assert(bucket_at(index_union(m2, m3), k) =~= bucket_at(m2, k).union(bucket_at(m3, k)));
        assert(l[k] =~= r[k]);
    }
    assert(l =~= r);
}

/// Merging an index with itself leaves it as it is.
pub proof fn lemma_union_idempotent<K, T>(m: Map<K, Set<T>>)
    ensures
        index_union(m, m) == m,
{
    assert forall|k: K| #[trigger] index_union(m, m).contains_key(k) implies index_union(m, m)[k] == m[k] by {
        assert(m[k].union(m[k]) =~= m[k]);
    }
    assert(index_union(m, m) =~= m);
}

/// Adding a value twice to the same buckets is adding it once.
pub proof fn lemma_add_all_idempotent<K, T>(m: Map<K, Set<T>>, ks: Set<K>, x: T)
    ensures
        index_add_all(index_add_all(m, ks, x), ks, x) == index_add_all(m, ks, x),
{
    let once = index_add_all(m, ks, x);
    let twice = index_add_all(once, ks, x);
    assert forall|k: K| #[trigger] twice.contains_key(k) implies twice[k] == once[k] by {
        if ks.contains(k) {
            assert(bucket_at(once, k) == bucket_at(m, k).insert(x));
            assert(bucket_at(m, k).insert(x).insert(x) =~= bucket_at(m, k).insert(x));
        }
    }
    assert(twice =~= once);
}

/// Adds every bucket of `other` to the bucket under the same key.
pub fn index_merge<K: ViewEq, T: ViewEq>(idx: &mut Vec<(K, Bucket<T>)>, other: &Vec<(K, Bucket<T>)>)
    requires
        unique_keys(pairs_view(old(idx)@)),
        unique_keys(pairs_view(other@)),
    ensures
        unique_keys(pairs_view(final(idx)@)),
        assoc_view(final(idx)@) == index_union(assoc_view(old(idx)@), assoc_view(other@)),
{
    let ghost start = assoc_view(idx@);
    let ghost po = pairs_view(other@);
    let mut i: usize = 0;
    proof {
        crate::assoc::lemma_prefix_empty(po);
        assert forall|k: K::V| #[trigger] start.contains_key(k) implies index_union(start, Map::<K::V, Set<T::V>>::empty())[k] == start[k] by {
            assert(bucket_at(start, k).union(bucket_at(Map::<K::V, Set<T::V>>::empty(), k)) =~= start[k]);
        }
        assert(index_union(start, Map::<K::V, Set<T::V>>::empty()) =~= start);
    }
    while i < other.len()
        invariant
            i <= other.len(),
            po == pairs_view(other@),
            unique_keys(po),
            unique_keys(pairs_view(idx@)),
            assoc_view(idx@) == index_union(start, crate::assoc::to_map(po.take(i as int))),
        decreases other.len() - i,
    {
        proof {
            crate::assoc::lemma_prefix_step(po, i as int);
            lemma_union_step(start, crate::assoc::to_map(po.take(i as int)), po[i as int].0, po[i as int].1);
        }
        let ghost cur = assoc_view(idx@);
        let ghost p = pairs_view(idx@);
        match assoc_find(idx, &other[i].0) {
            Some(j) => {
                proof {
                    lemma_to_map_index(p, j as int);
                }
                let ghost old_idx = idx@;
                let ghost old_b = idx@[j as int].1@;
                let (k2, mut b2) = idx.remove(j);
                b2.union_with(&other[i].1);
                idx.insert(j, (k2, b2));
                proof {
                    assert(idx@ =~= old_idx.update(j as int, (old_idx[j as int].0, idx@[j as int].1)));
                    lemma_to_map_update(p, j as int, old_b.union(po[i as int].1));
                    assert(pairs_view(idx@) =~= p.update(j as int, (p[j as int].0, old_b.union(po[i as int].1))));
                }
            },
            None => {
                let k = other[i].0.duplicate();
                let b = other[i].1.copy();
                let ok = assoc_insert_new(idx, k, b);
                assert(bucket_at(cur, po[i as int].0) =~= Set::<T::V>::empty());
                assert(Set::<T::V>::empty().union(po[i as int].1) =~= po[i as int].1);
            },
        }
        i = i + 1;
    }
    proof {
        crate::assoc::lemma_prefix_all(po);
    }
}


impl<T: ViewEq> Clone for Bucket<T> {
    fn clone(&self) -> (r: Bucket<T>)
        ensures
            r@ == self@,
    {
        self.copy()
    }
}

} // verus!

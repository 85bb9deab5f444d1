//! Association lists: vectors of `(key, value)` pairs with pairwise distinct
//! keys, seen as finite maps from key views to value views.
use vstd::prelude::*;

verus! {

/// Values whose abstract view can be compared and duplicated at run time.
pub trait ViewEq: View + Sized {
    fn view_eq(&self, other: &Self) -> (r: bool)
        ensures
            r == (self@ == other@),
    ;

    fn duplicate(&self) -> (r: Self)
        ensures
            r@ == self@,
    ;
}

impl ViewEq for usize {
    fn view_eq(&self, other: &Self) -> (r: bool) {
        *self == *other
    }

    fn duplicate(&self) -> (r: Self) {
        *self
    }
}

impl ViewEq for String {
    fn view_eq(&self, other: &Self) -> (r: bool) {
        *self == *other
    }

    fn duplicate(&self) -> (r: Self) {
        self.clone()
    }
}

impl<A: ViewEq, B: ViewEq> ViewEq for (A, B) {
    fn view_eq(&self, other: &Self) -> (r: bool) {
        self.0.view_eq(&other.0) && self.1.view_eq(&other.1)
    }

    fn duplicate(&self) -> (r: Self) {
        (self.0.duplicate(), self.1.duplicate())
    }
}

/// The pairs of `s`, each seen through its view.
pub open spec fn pairs_view<K: View, V: View>(s: Seq<(K, V)>) -> Seq<(K::V, V::V)> {
    s.map_values(|p: (K, V)| (p.0@, p.1@))
}

/// No key occurs twice.
pub open spec fn unique_keys<A, B>(s: Seq<(A, B)>) -> bool {
    forall|i: int, j: int|
        0 <= i < s.len() && 0 <= j < s.len() && i != j ==> #[trigger] s[i].0 != #[trigger] s[j].0
}

pub open spec fn has_key<A, B>(s: Seq<(A, B)>, k: A) -> bool {
    exists|i: int| 0 <= i < s.len() && #[trigger] s[i].0 == k
}

/// The map that a list of pairs stands for.
pub open spec fn to_map<A, B>(s: Seq<(A, B)>) -> Map<A, B> {
    Map::new(
        |k: A| has_key(s, k),
        |k: A| s[choose|i: int| 0 <= i < s.len() && #[trigger] s[i].0 == k].1,
    )
}

/// The map that an association list of the library stands for.
pub open spec fn assoc_view<K: View, V: View>(s: Seq<(K, V)>) -> Map<K::V, V::V> {
    to_map(pairs_view(s))
}

/// The set of views of the items of `s`.
pub open spec fn items_view<T: View>(s: Seq<T>) -> Set<T::V> {
    Set::new(|x: T::V| exists|i: int| 0 <= i < s.len() && #[trigger] s[i]@ == x)
}

pub open spec fn contains_item<A>(s: Seq<A>, x: A) -> bool {
    exists|j: int| 0 <= j < s.len() && s[j] == x
}

/// No two items of `s` have the same view.
pub open spec fn unique_items<T: View>(s: Seq<T>) -> bool {
    forall|i: int, j: int|
        0 <= i < s.len() && 0 <= j < s.len() && i != j ==> #[trigger] s[i]@ != #[trigger] s[j]@
}

pub proof fn lemma_unique_items_at<T: View>(s: Seq<T>, i: int, j: int)
    requires
        unique_items(s),
        0 <= i < s.len(),
        0 <= j < s.len(),
        i != j,
    ensures
        s[i]@ != s[j]@,
{
}

pub proof fn lemma_items_view_contains<T: View>(s: Seq<T>, i: int)
    requires
        0 <= i < s.len(),
    ensures
        items_view(s).contains(s[i]@),
{
    assert(s[i]@ == s[i]@);
}

/// The views of a longer prefix: one more item.
pub proof fn lemma_items_view_step<T: View>(s: Seq<T>, i: int)
    requires
        0 <= i < s.len(),
    ensures
        items_view(s.take(i + 1)) == items_view(s.take(i)).insert(s[i]@),
{
    let a = items_view(s.take(i + 1));
    let b = items_view(s.take(i)).insert(s[i]@);
    assert forall|v: T::V| #[trigger] a.contains(v) <==> b.contains(v) by {
        if a.contains(v) {
            let j = choose|j: int| 0 <= j < i + 1 && #[trigger] s.take(i + 1)[j]@ == v;
            if j < i {
                assert(s.take(i)[j] == s[j]);
            }
        }
        if items_view(s.take(i)).contains(v) {
            let j = choose|j: int| 0 <= j < i && #[trigger] s.take(i)[j]@ == v;
            assert(s.take(i + 1)[j] == s[j]);
        }
        assert(s.take(i + 1)[i] == s[i]);
    }
    assert(a =~= b);
}

pub proof fn lemma_to_map_index<A, B>(s: Seq<(A, B)>, i: int)
    requires
        unique_keys(s),
        0 <= i < s.len(),
    ensures
        to_map(s).contains_key(s[i].0),
        to_map(s)[s[i].0] == s[i].1,
{
    let k = s[i].0;
    assert(has_key(s, k));
    let j = choose|j: int| 0 <= j < s.len() && #[trigger] s[j].0 == k;
    assert(j == i);
}

pub proof fn lemma_to_map_push<A, B>(s: Seq<(A, B)>, k: A, v: B)
    requires
        unique_keys(s),
        !has_key(s, k),
    ensures
        unique_keys(s.push((k, v))),
        to_map(s.push((k, v))) == to_map(s).insert(k, v),
{
    let t = s.push((k, v));
    assert forall|i: int, j: int|
        0 <= i < t.len() && 0 <= j < t.len() && i != j implies #[trigger] t[i].0 != #[trigger] t[j].0 by {
        if i < s.len() && j < s.len() {
            assert(t[i] == s[i] && t[j] == s[j]);
        } else if i < s.len() {
            assert(t[i] == s[i]);
        } else {
            assert(t[j] == s[j]);
        }
    }
    let m = to_map(s).insert(k, v);
    assert forall|x: A| #[trigger] to_map(t).contains_key(x) <==> m.contains_key(x) by {
        if has_key(s, x) {
            let i = choose|i: int| 0 <= i < s.len() && #[trigger] s[i].0 == x;
            assert(t[i].0 == x);
        }
        if has_key(t, x) && x != k {
            let i = choose|i: int| 0 <= i < t.len() && #[trigger] t[i].0 == x;
            assert(s[i].0 == x);
        }
        assert(t[s.len() as int].0 == k);
    }
    assert forall|x: A| #[trigger] to_map(t).contains_key(x) implies to_map(t)[x] == m[x] by {
        if x == k {
            lemma_to_map_index(t, s.len() as int);
        } else {
            let i = choose|i: int| 0 <= i < t.len() && #[trigger] t[i].0 == x;
            assert(t[i] == s[i]);
            lemma_to_map_index(t, i);
            lemma_to_map_index(s, i);
        }
    }
    assert(to_map(t) =~= m);
}

pub proof fn lemma_to_map_update<A, B>(s: Seq<(A, B)>, i: int, v: B)
    requires
        unique_keys(s),
        0 <= i < s.len(),
    ensures
        unique_keys(s.update(i, (s[i].0, v))),
        to_map(s.update(i, (s[i].0, v))) == to_map(s).insert(s[i].0, v),
{
    let t = s.update(i, (s[i].0, v));
    assert forall|a: int, b: int|
        0 <= a < t.len() && 0 <= b < t.len() && a != b implies #[trigger] t[a].0 != #[trigger] t[b].0 by {
        assert(t[a].0 == s[a].0 && t[b].0 == s[b].0);
    }
    let m = to_map(s).insert(s[i].0, v);
    assert forall|x: A| #[trigger] to_map(t).contains_key(x) <==> m.contains_key(x) by {
        if has_key(s, x) {
            let j = choose|j: int| 0 <= j < s.len() && #[trigger] s[j].0 == x;
            assert(t[j].0 == x);
        }
        if has_key(t, x) {
            let j = choose|j: int| 0 <= j < t.len() && #[trigger] t[j].0 == x;
            assert(s[j].0 == x);
        }
        assert(t[i].0 == s[i].0);
    }
    assert forall|x: A| #[trigger] to_map(t).contains_key(x) implies to_map(t)[x] == m[x] by {
        let j = choose|j: int| 0 <= j < t.len() && #[trigger] t[j].0 == x;
        lemma_to_map_index(t, j);
        if j != i {
            assert(t[j] == s[j]);
            lemma_to_map_index(s, j);
        }
    }
    assert(to_map(t) =~= m);
}

pub proof fn lemma_to_map_len<A, B>(s: Seq<(A, B)>)
    requires
        unique_keys(s),
    ensures
        to_map(s).dom().finite(),
        to_map(s).dom().len() == s.len(),
    decreases s.len(),
{
    if s.len() == 0 {
        assert(to_map(s).dom() =~= Set::empty());
    } else {
        let p = s.drop_last();
        assert(s == p.push(s.last()));
        assert(unique_keys(p)) by {
            assert forall|i: int, j: int|
                0 <= i < p.len() && 0 <= j < p.len() && i != j implies #[trigger] p[i].0
                != #[trigger] p[j].0 by {
                assert(p[i] == s[i] && p[j] == s[j]);
            }
        }
        assert(!has_key(p, s.last().0)) by {
            if has_key(p, s.last().0) {
                let i = choose|i: int| 0 <= i < p.len() && #[trigger] p[i].0 == s.last().0;
                assert(s[i].0 == s[s.len() - 1].0);
            }
        }
        lemma_to_map_len(p);
        lemma_to_map_push(p, s.last().0, s.last().1);
    }
}

/// Two lists with distinct keys, of one length, where every pair of the
/// first occurs in the second, stand for the same map.
pub proof fn lemma_to_map_same<A, B>(a: Seq<(A, B)>, b: Seq<(A, B)>)
    requires
        unique_keys(a),
        unique_keys(b),
        a.len() == b.len(),
        forall|i: int| 0 <= i < a.len() ==> contains_item(b, #[trigger] a[i]),
    ensures
        to_map(a) == to_map(b),
{
    lemma_to_map_len(a);
    lemma_to_map_len(b);
    let ma = to_map(a);
    let mb = to_map(b);
    assert forall|k: A| ma.contains_key(k) implies #[trigger] mb.contains_key(k) && mb[k] == ma[k] by {
        let i = choose|i: int| 0 <= i < a.len() && #[trigger] a[i].0 == k;
        assert(contains_item(b, a[i]));
        let j = choose|j: int| 0 <= j < b.len() && b[j] == a[i];
        lemma_to_map_index(a, i);
        lemma_to_map_index(b, j);
    }
    assert(ma.dom().subset_of(mb.dom()));
    vstd::set_lib::lemma_subset_equality(ma.dom(), mb.dom());
    assert(ma =~= mb);
}

/// `m` with each key `a` renamed to `fk(a)` and each value `b` to `fv(b)`.
pub open spec fn rekey_map<A, B, C, D>(
    m: Map<A, B>,
    fk: spec_fn(A) -> C,
    fv: spec_fn(B) -> D,
) -> Map<C, D> {
    Map::new(
        |c: C| exists|a: A| m.contains_key(a) && #[trigger] fk(a) == c,
        |c: C| fv(m[choose|a: A| m.contains_key(a) && #[trigger] fk(a) == c]),
    )
}

/// No two members of `d` have the same image under `f`.
pub open spec fn injective_on<A, C>(d: Set<A>, f: spec_fn(A) -> C) -> bool {
    forall|a1: A, a2: A| d.contains(a1) && d.contains(a2) && #[trigger] f(a1) == #[trigger] f(a2) ==> a1 == a2
}

/// Each entry of a renamed map comes from some entry of the map.
pub proof fn lemma_rekey_source<A, B, C, D>(m: Map<A, B>, c: C, fk: spec_fn(A) -> C, fv: spec_fn(B) -> D)
    requires
        rekey_map(m, fk, fv).contains_key(c),
    ensures
        exists|a: A| m.contains_key(a) && fk(a) == c && rekey_map(m, fk, fv)[c] == fv(m[a]),
{
    let a = choose|a: A| m.contains_key(a) && #[trigger] fk(a) == c;
    assert(m.contains_key(a) && fk(a) == c && rekey_map(m, fk, fv)[c] == fv(m[a]));
}

pub proof fn lemma_rekey_empty<A, B, C, D>(fk: spec_fn(A) -> C, fv: spec_fn(B) -> D)
    ensures
        rekey_map(Map::<A, B>::empty(), fk, fv) == Map::<C, D>::empty(),
{
    assert(rekey_map(Map::<A, B>::empty(), fk, fv) =~= Map::<C, D>::empty());
}

pub proof fn lemma_rekey_index<A, B, C, D>(m: Map<A, B>, a: A, fk: spec_fn(A) -> C, fv: spec_fn(B) -> D)
    requires
        injective_on(m.dom(), fk),
        m.contains_key(a),
    ensures
        rekey_map(m, fk, fv).contains_key(fk(a)),
        rekey_map(m, fk, fv)[fk(a)] == fv(m[a]),
{
    let c = fk(a);
    assert(m.contains_key(a) && fk(a) == c);
    let x = choose|x: A| m.contains_key(x) && #[trigger] fk(x) == c;
    assert(x == a);
}

pub proof fn lemma_rekey_insert<A, B, C, D>(
    m: Map<A, B>,
    k: A,
    v: B,
    fk: spec_fn(A) -> C,
    fv: spec_fn(B) -> D,
)
    requires
        !m.contains_key(k),
        injective_on(m.dom(), fk),
        forall|a: A| m.contains_key(a) ==> #[trigger] fk(a) != fk(k),
    ensures
        injective_on(m.insert(k, v).dom(), fk),
        rekey_map(m.insert(k, v), fk, fv) == rekey_map(m, fk, fv).insert(fk(k), fv(v)),
{
    let m2 = m.insert(k, v);
    let t = rekey_map(m, fk, fv).insert(fk(k), fv(v));
    let t2 = rekey_map(m2, fk, fv);
    assert forall|c: C| #[trigger] t2.contains_key(c) <==> t.contains_key(c) by {
        if t2.contains_key(c) {
            let a = choose|a: A| m2.contains_key(a) && #[trigger] fk(a) == c;
            if a != k {
                assert(m.contains_key(a) && fk(a) == c);
            }
        }
        if t.contains_key(c) && c != fk(k) {
            let a = choose|a: A| m.contains_key(a) && #[trigger] fk(a) == c;
            assert(m2.contains_key(a) && fk(a) == c);
        }
        assert(m2.contains_key(k) && fk(k) == fk(k));
    }
    assert(injective_on(m2.dom(), fk));
    assert forall|c: C| #[trigger] t2.contains_key(c) implies t2[c] == t[c] by {
        let a = choose|a: A| m2.contains_key(a) && #[trigger] fk(a) == c;
        lemma_rekey_index(m2, a, fk, fv);
        if a != k {
            lemma_rekey_index(m, a, fk, fv);
        }
    }
    assert(t2 =~= t);
}

/// Renaming with a map that is one to one on the keys, and that loses no
/// value, tells maps apart.
pub proof fn lemma_rekey_injective<A, B, C, D>(
    m1: Map<A, B>,
    m2: Map<A, B>,
    fk: spec_fn(A) -> C,
    fv: spec_fn(B) -> D,
)
    requires
        injective_on(m1.dom().union(m2.dom()), fk),
        forall|b1: B, b2: B| #[trigger] fv(b1) == #[trigger] fv(b2) ==> b1 == b2,
        rekey_map(m1, fk, fv) == rekey_map(m2, fk, fv),
    ensures
        m1 == m2,
{
    assert(injective_on(m1.dom(), fk));
    assert(injective_on(m2.dom(), fk));
    let t = rekey_map(m1, fk, fv);
    assert forall|a: A| #[trigger] m1.contains_key(a) implies m2.contains_key(a) && m2[a] == m1[a] by {
        lemma_rekey_index(m1, a, fk, fv);
        assert(rekey_map(m2, fk, fv).contains_key(fk(a)));
        let x = choose|x: A| m2.contains_key(x) && #[trigger] fk(x) == fk(a);
        assert(m1.dom().union(m2.dom()).contains(x));
        assert(m1.dom().union(m2.dom()).contains(a));
        assert(x == a);
        lemma_rekey_index(m2, x, fk, fv);
        assert(fv(m2[a]) == fv(m1[a]));
    }
    assert forall|a: A| m2.contains_key(a) implies #[trigger] m1.contains_key(a) by {
        lemma_rekey_index(m2, a, fk, fv);
        assert(rekey_map(m1, fk, fv).contains_key(fk(a)));
        let x = choose|x: A| m1.contains_key(x) && #[trigger] fk(x) == fk(a);
        assert(m1.dom().union(m2.dom()).contains(x));
        assert(m1.dom().union(m2.dom()).contains(a));
    }
    assert(m1.dom() =~= m2.dom());
    assert(m1 =~= m2);
}

/// Renaming there and back again gives the map back.
pub proof fn lemma_rekey_round_trip<A, B, C, D>(
    m: Map<A, B>,
    f1: spec_fn(A) -> C,
    g1: spec_fn(B) -> D,
    f2: spec_fn(C) -> A,
    g2: spec_fn(D) -> B,
)
    requires
        injective_on(m.dom(), f1),
        forall|a: A| #[trigger] m.contains_key(a) ==> f2(f1(a)) == a && g2(g1(m[a])) == m[a],
    ensures
        injective_on(rekey_map(m, f1, g1).dom(), f2),
        rekey_map(rekey_map(m, f1, g1), f2, g2) == m,
{
    let t = rekey_map(m, f1, g1);
    assert forall|c1: C, c2: C| t.dom().contains(c1) && t.dom().contains(c2) && #[trigger] f2(c1) == #[trigger] f2(c2) implies c1 == c2 by {
        let a1 = choose|a: A| m.contains_key(a) && #[trigger] f1(a) == c1;
        let a2 = choose|a: A| m.contains_key(a) && #[trigger] f1(a) == c2;
    }
    let r = rekey_map(t, f2, g2);
    assert forall|a: A| #[trigger] r.contains_key(a) <==> m.contains_key(a) by {
        if m.contains_key(a) {
            lemma_rekey_index(m, a, f1, g1);
            assert(t.contains_key(f1(a)) && f2(f1(a)) == a);
        }
        if r.contains_key(a) {
            let c = choose|c: C| t.contains_key(c) && #[trigger] f2(c) == a;
            let x = choose|x: A| m.contains_key(x) && #[trigger] f1(x) == c;
        }
    }
    assert forall|a: A| #[trigger] r.contains_key(a) implies r[a] == m[a] by {
        lemma_rekey_index(m, a, f1, g1);
        lemma_rekey_index(t, f1(a), f2, g2);
    }
    assert(r =~= m);
}

pub proof fn lemma_prefix_step<A, B>(s: Seq<(A, B)>, i: int)
    requires
        unique_keys(s),
        0 <= i < s.len(),
    ensures
        unique_keys(s.take(i)),
        !has_key(s.take(i), s[i].0),
        !to_map(s.take(i)).contains_key(s[i].0),
        s.take(i + 1) == s.take(i).push(s[i]),
        to_map(s.take(i + 1)) == to_map(s.take(i)).insert(s[i].0, s[i].1),
{
    let p = s.take(i);
    assert(s.take(i + 1) =~= p.push(s[i]));
    assert(unique_keys(p)) by {
        assert forall|a: int, b: int|
            0 <= a < p.len() && 0 <= b < p.len() && a != b implies #[trigger] p[a].0
            != #[trigger] p[b].0 by {
            assert(p[a] == s[a] && p[b] == s[b]);
        }
    }
    assert(!has_key(p, s[i].0)) by {
        if has_key(p, s[i].0) {
            let a = choose|a: int| 0 <= a < p.len() && #[trigger] p[a].0 == s[i].0;
            assert(s[a].0 == s[i].0);
        }
    }
    lemma_to_map_push(p, s[i].0, s[i].1);
}

pub proof fn lemma_prefix_all<A>(s: Seq<A>)
    ensures
        s.take(s.len() as int) == s,
{
    assert(s.take(s.len() as int) =~= s);
}

pub proof fn lemma_prefix_empty<A, B>(s: Seq<(A, B)>)
    ensures
        to_map(s.take(0)) == Map::<A, B>::empty(),
{
    assert(to_map(s.take(0)) =~= Map::<A, B>::empty());
}

/// What a prefix of a list maps, the whole list maps alike.
pub proof fn lemma_prefix_within<A, B>(s: Seq<(A, B)>, i: int, k: A)
    requires
        unique_keys(s),
        0 <= i <= s.len(),
        to_map(s.take(i)).contains_key(k),
    ensures
        to_map(s).contains_key(k),
        to_map(s)[k] == to_map(s.take(i))[k],
{
    let p = s.take(i);
    let a = choose|a: int| 0 <= a < p.len() && #[trigger] p[a].0 == k;
    assert(p[a] == s[a]);
    assert(unique_keys(p)) by {
        assert forall|x: int, y: int|
            0 <= x < p.len() && 0 <= y < p.len() && x != y implies #[trigger] p[x].0
            != #[trigger] p[y].0 by {
            assert(p[x] == s[x] && p[y] == s[y]);
        }
    }
    lemma_to_map_index(p, a);
    lemma_to_map_index(s, a);
}

/// Adds a pair whose key is not there yet; false, and nothing changed,
/// where it is.
pub fn assoc_insert_new<K: ViewEq, V: View>(s: &mut Vec<(K, V)>, k: K, v: V) -> (r: bool)
    requires
        unique_keys(pairs_view(old(s)@)),
    ensures
        unique_keys(pairs_view(final(s)@)),
        r == !has_key(pairs_view(old(s)@), k@),
        r ==> assoc_view(final(s)@) == assoc_view(old(s)@).insert(k@, v@),
        r ==> final(s)@ == old(s)@.push((k, v)),
        !r ==> final(s)@ == old(s)@,
{
    match assoc_find(s, &k) {
        Some(i) => {
            assert(pairs_view(s@)[i as int].0 == k@);
            false
        },
        None => {
            let ghost p = pairs_view(s@);
            s.push((k, v));
            proof {
                assert(pairs_view(s@) =~= p.push((k@, v@)));
                lemma_to_map_push(p, k@, v@);
            }
            true
        },
    }
}

/// Position of the pair whose key has the view of `k`, if any.
pub fn assoc_find<K: ViewEq, V: View>(s: &Vec<(K, V)>, k: &K) -> (r: Option<usize>)
    ensures
        match r {
            Some(i) => i < s.len() && s@[i as int].0@ == k@,
            None => !has_key(pairs_view(s@), k@),
        },
{
    let mut i: usize = 0;
    while i < s.len()
        invariant
            i <= s.len(),
            forall|j: int| 0 <= j < i ==> (#[trigger] s@[j]).0@ != k@,
        decreases s.len() - i,
    {
        if s[i].0.view_eq(k) {
            return Some(i);
        }
        i = i + 1;
    }
    proof {
        if has_key(pairs_view(s@), k@) {
            let j = choose|j: int| 0 <= j < s@.len() && #[trigger] pairs_view(s@)[j].0 == k@;
            assert(s@[j].0@ == k@);
        }
    }
    None
}

/// Whether no key occurs twice.
pub fn assoc_unique<K: ViewEq, V: View>(s: &Vec<(K, V)>) -> (r: bool)
    ensures
        r == unique_keys(pairs_view(s@)),
{
    let ghost p = pairs_view(s@);
    let mut i: usize = 0;
    while i < s.len()
        invariant
            i <= s.len(),
            p == pairs_view(s@),
            forall|a: int, b: int| 0 <= a < i && 0 <= b < i && a != b ==> #[trigger] p[a].0 != #[trigger] p[b].0,
        decreases s.len() - i,
    {
        let mut j: usize = 0;
        while j < i
            invariant
                j <= i,
                i < s.len(),
                p == pairs_view(s@),
                forall|a: int, b: int| 0 <= a < i && 0 <= b < i && a != b ==> #[trigger] p[a].0 != #[trigger] p[b].0,
                forall|b: int| 0 <= b < j ==> p[b].0 != p[i as int].0,
            decreases i - j,
        {
            if s[i].0.view_eq(&s[j].0) {
                assert(p[i as int].0 == p[j as int].0);
                return false;
            }
            j = j + 1;
        }
        i = i + 1;
    }
    true
}

/// Whether two association lists stand for the same map.
pub fn assoc_eq<K: ViewEq, V: ViewEq>(a: &Vec<(K, V)>, b: &Vec<(K, V)>) -> (r: bool)
    requires
        unique_keys(pairs_view(a@)),
        unique_keys(pairs_view(b@)),
    ensures
        r == (assoc_view(a@) == assoc_view(b@)),
{
    let ghost pa = pairs_view(a@);
    let ghost pb = pairs_view(b@);
    proof {
        lemma_to_map_len(pa);
        lemma_to_map_len(pb);
    }
    if a.len() != b.len() {
        assert(to_map(pa).dom().len() != to_map(pb).dom().len());
        return false;
    }
    let mut i: usize = 0;
    while i < a.len()
        invariant
            i <= a.len(),
            a.len() == b.len(),
            pa == pairs_view(a@),
            pb == pairs_view(b@),
            unique_keys(pa),
            unique_keys(pb),
            forall|x: int| 0 <= x < i ==> contains_item(pb, #[trigger] pa[x]),
        decreases a.len() - i,
    {
        match assoc_find(b, &a[i].0) {
            None => {
                proof {
                    lemma_to_map_index(pa, i as int);
                }
                assert(!to_map(pb).contains_key(pa[i as int].0));
                return false;
            },
            Some(j) => {
                if !b[j].1.view_eq(&a[i].1) {
                    proof {
                        lemma_to_map_index(pa, i as int);
                        lemma_to_map_index(pb, j as int);
                    }
                    assert(to_map(pb)[pa[i as int].0] != to_map(pa)[pa[i as int].0]);
                    return false;
                }
                assert(pb[j as int] == pa[i as int]);
                assert(contains_item(pb, pa[i as int]));
            },
        }
        i = i + 1;
    }
    proof {
        assert(pa.len() == a.len() && pb.len() == b.len());
        assert(i == a.len());
        lemma_to_map_same(pa, pb);
    }
    true
}

/// A copy whose pairs have the same views.
pub fn assoc_duplicate<K: ViewEq, V: ViewEq>(s: &Vec<(K, V)>) -> (r: Vec<(K, V)>)
    ensures
        pairs_view(r@) == pairs_view(s@),
{
    let mut r: Vec<(K, V)> = Vec::new();
    let mut i: usize = 0;
    while i < s.len()
        invariant
            i <= s.len(),
            r.len() == i,
            forall|j: int| 0 <= j < i ==> (#[trigger] r@[j]).0@ == s@[j].0@ && r@[j].1@ == s@[j].1@,
        decreases s.len() - i,
    {
        r.push(s[i].duplicate());
        i = i + 1;
    }
    assert(pairs_view(r@) =~= pairs_view(s@));
    r
}

} // verus!

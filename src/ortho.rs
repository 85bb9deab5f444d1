//! Orthos: hyper-rectangles over token ids, held as layers that map the bag
//! of axis tokens leading to a node onto the token at that node.
use crate::assoc::{
    assoc_eq, assoc_insert_new, assoc_view, injective_on, lemma_prefix_all, lemma_prefix_empty,
    lemma_prefix_step, lemma_prefix_within, lemma_rekey_empty, lemma_rekey_index,
    lemma_rekey_insert, lemma_to_map_index, lemma_to_map_len, pairs_view, rekey_map, to_map,
    unique_keys, ViewEq,
};
use crate::interner::{
    id_of, interned, lemma_id_of, lemma_id_of_distinct, lemma_id_of_held, InternError, Interner,
};
use crate::multiset::{
    bag_add, count_profile, id_bag, ids_known, name_bag, names_distinct, tokens_known,
    LiteralMultiSet, MultiSet,
};
use vstd::prelude::*;

verus! {

/// A layer of an ortho: the bag of axis tokens leading to a node, mapped
/// to the token at that node.
pub type Layer = Map<Map<usize, usize>, usize>;

/// A layer of a literal ortho.
pub type LiteralLayer = Map<Map<Seq<char>, usize>, Seq<char>>;

/// The bag holding `x` once.
pub open spec fn bag_of(x: usize) -> Map<usize, usize> {
    Map::<usize, usize>::empty().insert(x, 1)
}

/// The two-dimensional ortho with origin `a`, neighbours `b` and `c`, and
/// far corner `d`.
pub open spec fn square(a: usize, b: usize, c: usize, d: usize) -> Seq<Layer> {
    seq![
        Map::<Map<usize, usize>, usize>::empty().insert(Map::empty(), a),
        Map::<Map<usize, usize>, usize>::empty().insert(bag_of(b), b).insert(bag_of(c), c),
        Map::<Map<usize, usize>, usize>::empty().insert(bag_add(bag_of(b), c), d),
    ]
}

/// The token at the origin.
pub open spec fn origin_of(o: Seq<Layer>) -> usize {
    o[0][Map::empty()]
}

/// The shape signature: the count profile of the bag that leads to the far
/// corner, the one node of the last layer.
pub open spec fn size_of(o: Seq<Layer>) -> Map<usize, usize> {
    count_profile(o.last().dom().choose())
}

/// `s` never decreases.
pub open spec fn ascending(s: Seq<usize>) -> bool {
    forall|a: int, b: int| 0 <= a < b < s.len() ==> s[a] <= s[b]
}

/// The same values in ascending order.
fn sorted_copy(v: &Vec<usize>) -> (r: Vec<usize>)
    ensures
        r@.len() == v@.len(),
        r@.to_set() == v@.to_set(),
        ascending(r@),
{
    let mut r: Vec<usize> = Vec::new();
    let mut i: usize = 0;
    proof {
        assert(r@.to_set() =~= v@.take(0).to_set());
    }
    while i < v.len()
        invariant
            i <= v.len(),
            r@.len() == i,
            ascending(r@),
            r@.to_set() == v@.take(i as int).to_set(),
        decreases v.len() - i,
    {
        let x = v[i];
        let mut j: usize = 0;
        while j < r.len() && r[j] < x
            invariant
                j <= r.len(),
                forall|k: int| 0 <= k < j ==> r@[k] < x,
            decreases r.len() - j,
        {
            j = j + 1;
        }
        let ghost before = r@;
        r.insert(j, x);
        proof {
            assert(r@ == before.insert(j as int, x));
            assert forall|a: int, b: int| 0 <= a < b < r@.len() implies r@[a] <= r@[b] by {
                if b < j {
                } else if b == j {
                    assert(before[a] < x);
                } else if a < j {
                    assert(r@[b] == before[b - 1]);
                    if j < before.len() {
                        assert(before[j as int] >= x);
                        assert(before[a] < x);
                    }
                } else if a == j {
                    assert(before[j as int] >= x);
                    assert(r@[b] == before[b - 1]);
                } else {
                    assert(r@[a] == before[a - 1] && r@[b] == before[b - 1]);
                }
            }
            assert(v@.take(i + 1) =~= v@.take(i as int).push(x));
            assert forall|y: usize| #[trigger] r@.to_set().contains(y) <==> v@.take(i + 1).to_set().contains(y) by {
                if r@.to_set().contains(y) {
                    let k = choose|k: int| 0 <= k < r@.len() && r@[k] == y;
                    if k < j {
                        assert(before.to_set().contains(before[k]));
                    } else if k > j {
                        assert(before.to_set().contains(before[k - 1]));
                    }
                    assert(v@.take(i as int).push(x)[i as int] == x);
                }
                if v@.take(i + 1).to_set().contains(y) {
                    let t = v@.take(i + 1);
                    let k = choose|k: int| 0 <= k < t.len() && t[k] == y;
                    if k < i {
                        assert(v@.take(i as int)[k] == y);
                        assert(v@.take(i as int).to_set().contains(y));
                        let q = choose|q: int| 0 <= q < before.len() && before[q] == y;
                        if q < j {
                            assert(r@[q] == y);
                        } else {
                            assert(r@[q + 1] == y);
                        }
                    } else {
                        assert(r@[j as int] == x);
                    }
                }
            }
            assert(r@.to_set() =~= v@.take(i + 1).to_set());
        }
        i = i + 1;
    }
    proof {
        assert(v@.take(v.len() as int) =~= v@);
    }
    r
}

/// The tokens next to the origin.
pub open spec fn hop_of(o: Seq<Layer>) -> Set<usize> {
    o[1].values()
}

/// An ortho's layers renamed through a table.
pub open spec fn name_layer(l: Layer, names: Seq<Seq<char>>) -> LiteralLayer {
    rekey_map(l, |k: Map<usize, usize>| name_bag(k, names), |v: usize| names[v as int])
}

pub open spec fn name_ortho(o: Seq<Layer>, names: Seq<Seq<char>>) -> Seq<LiteralLayer> {
    o.map_values(|l: Layer| name_layer(l, names))
}

/// A literal ortho's layers renamed to ids of a table.
pub open spec fn id_layer(l: LiteralLayer, names: Seq<Seq<char>>) -> Layer {
    rekey_map(
        l,
        |k: Map<Seq<char>, usize>| id_bag(k, names),
        |v: Seq<char>| id_of(names, v) as usize,
    )
}

pub open spec fn id_ortho(o: Seq<LiteralLayer>, names: Seq<Seq<char>>) -> Seq<Layer> {
    o.map_values(|l: LiteralLayer| id_layer(l, names))
}

/// Every id of the layer is held by the table, and no two of its nodes or
/// keys are told apart by ids alone.
pub open spec fn layer_nameable(l: Layer, names: Seq<Seq<char>>) -> bool {
    &&& forall|k: Map<usize, usize>| #[trigger] l.contains_key(k) ==> ids_known(k.dom(), names)
        && names_distinct(k.dom(), names) && l[k] < names.len()
    &&& injective_on(l.dom(), |k: Map<usize, usize>| name_bag(k, names))
}

pub open spec fn ortho_nameable(o: Seq<Layer>, names: Seq<Seq<char>>) -> bool {
    forall|i: int| 0 <= i < o.len() ==> layer_nameable(#[trigger] o[i], names)
}

/// Every token of the layer is held by the table.
pub open spec fn layer_known(l: LiteralLayer, names: Seq<Seq<char>>) -> bool {
    forall|k: Map<Seq<char>, usize>| #[trigger] l.contains_key(k) ==> tokens_known(k.dom(), names)
        && names.contains(l[k])
}

pub open spec fn ortho_known(o: Seq<LiteralLayer>, names: Seq<Seq<char>>) -> bool {
    forall|i: int| 0 <= i < o.len() ==> layer_known(#[trigger] o[i], names)
}

impl ViewEq for MultiSet {
    fn view_eq(&self, other: &Self) -> (r: bool) {
        self.same(other)
    }

    fn duplicate(&self) -> (r: Self) {
        self.copy()
    }
}

impl ViewEq for LiteralMultiSet {
    fn view_eq(&self, other: &Self) -> (r: bool) {
        self.same(other)
    }

    fn duplicate(&self) -> (r: Self) {
        self.copy()
    }
}

impl ViewEq for Ortho {
    fn view_eq(&self, other: &Self) -> (r: bool) {
        self.same(other)
    }

    fn duplicate(&self) -> (r: Self) {
        self.copy()
    }
}

impl ViewEq for LiteralOrtho {
    fn view_eq(&self, other: &Self) -> (r: bool) {
        self.same(other)
    }

    fn duplicate(&self) -> (r: Self) {
        self.copy()
    }
}

/// An ortho over token ids.
#[derive(Debug)]
pub struct Ortho {
    nodes: Vec<Vec<(MultiSet, usize)>>,
}

impl View for Ortho {
    type V = Seq<Layer>;

    closed spec fn view(&self) -> Seq<Layer> {
        self.nodes@.map_values(|l: Vec<(MultiSet, usize)>| assoc_view(l@))
    }
}

/// An ortho over token strings, the form in which orthos are stored.
#[derive(Debug)]
pub struct LiteralOrtho {
    nodes: Vec<Vec<(LiteralMultiSet, String)>>,
}

impl View for LiteralOrtho {
    type V = Seq<LiteralLayer>;

    closed spec fn view(&self) -> Seq<LiteralLayer> {
        self.nodes@.map_values(|l: Vec<(LiteralMultiSet, String)>| assoc_view(l@))
    }
}

/// Layers of distinct keys, at least two of them; the first and the last
/// hold one node each, the first under the empty bag.
pub open spec fn well_shaped<K: View, V: View>(nodes: Seq<Vec<(K, V)>>, empty: K::V) -> bool {
    &&& nodes.len() >= 2
    &&& forall|i: int| 0 <= i < nodes.len() ==> unique_keys(pairs_view(#[trigger] nodes[i]@))
    &&& nodes[0].len() == 1
    &&& nodes[0]@[0].0@ == empty
    &&& nodes.last().len() == 1
}

proof fn lemma_shape<K: View, V: View>(nodes: Seq<Vec<(K, V)>>, empty: K::V)
    requires
        well_shaped(nodes, empty),
    ensures
        ({
            let o = nodes.map_values(|l: Vec<(K, V)>| assoc_view(l@));
            &&& o.len() >= 2
            &&& o[0].dom() == set![empty]
            &&& o.last().dom().len() == 1
            &&& forall|i: int| 0 <= i < o.len() ==> (#[trigger] o[i]).dom().finite()
            &&& forall|i: int| 0 <= i < o.len() ==> o[i].dom().len() == nodes[i].len()
        }),
{
    let o = nodes.map_values(|l: Vec<(K, V)>| assoc_view(l@));
    assert forall|i: int| 0 <= i < o.len() implies (#[trigger] o[i]).dom().finite() && o[i].dom().len() == nodes[i].len() by {
        lemma_to_map_len(pairs_view(nodes[i]@));
    }
    lemma_to_map_index(pairs_view(nodes[0]@), 0);
    assert(o[0].dom() =~= set![empty]) by {
        assert forall|k: K::V| #[trigger] o[0].dom().contains(k) implies k == empty by {
            let j = choose|j: int| 0 <= j < pairs_view(nodes[0]@).len() && #[trigger] pairs_view(nodes[0]@)[j].0 == k;
        }
    }
}

impl LiteralOrtho {
    #[verifier::type_invariant]
    closed spec fn inv(&self) -> bool {
        well_shaped(self.nodes@, Map::<Seq<char>, usize>::empty())
    }

    /// Structural equality: the same tokens under the same bags, layer by
    /// layer.
    pub fn same(&self, other: &LiteralOrtho) -> (r: bool)
        ensures
            r == (self@ == other@),
    {
        proof {
            use_type_invariant(self);
            use_type_invariant(other);
        }
        if self.nodes.len() != other.nodes.len() {
            assert(self@.len() != other@.len());
            return false;
        }
        let mut i: usize = 0;
        while i < self.nodes.len()
            invariant
                i <= self.nodes.len(),
                self.nodes.len() == other.nodes.len(),
                well_shaped(self.nodes@, Map::<Seq<char>, usize>::empty()),
                well_shaped(other.nodes@, Map::<Seq<char>, usize>::empty()),
                forall|j: int| 0 <= j < i ==> #[trigger] self@[j] == other@[j],
            decreases self.nodes.len() - i,
        {
            if !assoc_eq(&self.nodes[i], &other.nodes[i]) {
                assert(self@[i as int] != other@[i as int]);
                return false;
            }
            i = i + 1;
        }
        assert(self@ =~= other@);
        true
    }

    /// The layers, each as `(bag, token)` pairs.
    pub fn layers(&self) -> (r: Vec<Vec<(LiteralMultiSet, String)>>)
        ensures
            r@.map_values(|l: Vec<(LiteralMultiSet, String)>| assoc_view(l@)) == self@,
    {
        let c = self.copy();
        proof {
            use_type_invariant(&c);
        }
        let LiteralOrtho { nodes } = c;
        nodes
    }

    /// The ortho with the given layers, where they have its shape: at least
    /// two layers of distinct keys, the first holding one node under the
    /// empty bag, the last holding one node.
    pub fn from_layers(layers: Vec<Vec<(LiteralMultiSet, String)>>) -> (r: Option<LiteralOrtho>)
        ensures
            r is Some <==> well_shaped(layers@, Map::<Seq<char>, usize>::empty()),
            r matches Some(o) ==> o@ == layers@.map_values(|l: Vec<(LiteralMultiSet, String)>| assoc_view(l@)),
    {
        let n = layers.len();
        if n < 2 || layers[0].len() != 1 || layers[n - 1].len() != 1 {
            return None;
        }
        if layers[0][0].0.len() != 0 {
            return None;
        }
        proof {
            assert(layers@[0]@[0].0@ =~= Map::<Seq<char>, usize>::empty());
        }
        let mut i: usize = 0;
        while i < n
            invariant
                i <= n,
                n == layers.len(),
                forall|j: int| 0 <= j < i ==> unique_keys(pairs_view(#[trigger] layers@[j]@)),
            decreases n - i,
        {
            if !crate::assoc::assoc_unique(&layers[i]) {
                return None;
            }
            i = i + 1;
        }
        Some(LiteralOrtho { nodes: layers })
    }

    /// A copy of the ortho.
    pub fn copy(&self) -> (r: LiteralOrtho)
        ensures
            r@ == self@,
    {
        proof {
            use_type_invariant(self);
        }
        let mut nodes: Vec<Vec<(LiteralMultiSet, String)>> = Vec::new();
        let mut i: usize = 0;
        while i < self.nodes.len()
            invariant
                i <= self.nodes.len(),
                nodes.len() == i,
                well_shaped(self.nodes@, Map::<Seq<char>, usize>::empty()),
                forall|j: int| 0 <= j < i ==> pairs_view(#[trigger] nodes@[j]@) == pairs_view(self.nodes@[j]@),
            decreases self.nodes.len() - i,
        {
            nodes.push(crate::assoc::assoc_duplicate(&self.nodes[i]));
            i = i + 1;
        }
        proof {
            assert forall|j: int| 0 <= j < nodes.len() implies (#[trigger] nodes@[j]).len() == self.nodes@[j].len() by {
                assert(pairs_view(nodes@[j]@).len() == pairs_view(self.nodes@[j]@).len());
            }
            assert(pairs_view(nodes@[0]@)[0].0 == pairs_view(self.nodes@[0]@)[0].0);
        }
        let r = LiteralOrtho { nodes };
        assert(r@ =~= self@);
        r
    }

    /// The same ortho over the ids that the table holds for its tokens.
    /// Fails on a token that the table does not hold.
    pub fn intern(&self, interner: &Interner) -> (r: Result<Ortho, InternError>)
        ensures
            r matches Err(e) ==> e is UnknownToken,
            r is Ok <==> ortho_known(self@, interned(*interner)),
            r matches Ok(o) ==> o@ == id_ortho(self@, interned(*interner)),
    {
        proof {
            use_type_invariant(self);
        }
        let ghost names = interned(*interner);
        let mut nodes: Vec<Vec<(MultiSet, usize)>> = Vec::new();
        let mut i: usize = 0;
        while i < self.nodes.len()
            invariant
                i <= self.nodes.len(),
                nodes.len() == i,
                names == interned(*interner),
                well_shaped(self.nodes@, Map::<Seq<char>, usize>::empty()),
                forall|j: int| 0 <= j < i ==> layer_known(#[trigger] self@[j], names),
                forall|j: int| 0 <= j < i ==> unique_keys(pairs_view(#[trigger] nodes@[j]@)),
                forall|j: int| 0 <= j < i ==> (#[trigger] nodes@[j]).len() == self.nodes@[j].len(),
                forall|j: int| 0 <= j < i ==> assoc_view(#[trigger] nodes@[j]@) == id_layer(self@[j], names),
            decreases self.nodes.len() - i,
        {
            let layer = match intern_layer(&self.nodes[i], interner) {
                Ok(layer) => layer,
                Err(e) => {
                    assert(self@[i as int] == assoc_view(self.nodes@[i as int]@));
                    return Err(e);
                },
            };
            nodes.push(layer);
            i = i + 1;
        }
        let ghost lo = nodes@.map_values(|l: Vec<(MultiSet, usize)>| assoc_view(l@));
        proof {
            assert(lo =~= id_ortho(self@, names));
            let first_pairs = pairs_view(nodes@[0]@);
            lemma_to_map_index(first_pairs, 0);
            lemma_shape(self.nodes@, Map::<Seq<char>, usize>::empty());
            let k0 = first_pairs[0].0;
            assert(id_layer(self@[0], names).contains_key(k0));
            let a = choose|a: Map<Seq<char>, usize>| self@[0].contains_key(a) && #[trigger] id_bag(a, names) == k0;
            assert(self@[0].dom().contains(a));
            assert(a == Map::<Seq<char>, usize>::empty());
            assert(id_bag(Map::<Seq<char>, usize>::empty(), names) =~= Map::<usize, usize>::empty());
            assert(nodes@[0]@[0].0@ == k0);
        }
        Ok(Ortho { nodes })
    }
}

impl Ortho {
    #[verifier::type_invariant]
    closed spec fn inv(&self) -> bool {
        well_shaped(self.nodes@, Map::<usize, usize>::empty())
    }

    /// The square with origin `a`, neighbours `b` and `c`, and far corner `d`.
    pub fn new(a: usize, b: usize, c: usize, d: usize) -> (r: Ortho)
        ensures
            r@ == square(a, b, c, d),
    {
        let mut b_location = MultiSet::new();
        let mut c_location = MultiSet::new();
        let mut d_location = MultiSet::new();
        b_location.insert(b);
        c_location.insert(c);
        d_location.insert(b);
        d_location.insert(c);

        let mut first: Vec<(MultiSet, usize)> = Vec::new();
        first.push((MultiSet::new(), a));
        let mut second: Vec<(MultiSet, usize)> = Vec::new();
        second.push((b_location, b));
        let ghost s1 = pairs_view(second@);
        proof {
            assert(unique_keys(s1));
            assert(assoc_view(second@) =~= Map::<Map<usize, usize>, usize>::empty().insert(bag_of(b), b)) by {
                lemma_to_map_index(s1, 0);
            }
        }
        let added = assoc_insert_new(&mut second, c_location, c);
        proof {
            if !added {
                assert(b == c);
            }
        }
        let mut third: Vec<(MultiSet, usize)> = Vec::new();
        third.push((d_location, d));
        let nodes = vec![first, second, third];
        proof {
            assert(pairs_view(nodes@[0]@).len() == 1);
            lemma_to_map_index(pairs_view(nodes@[0]@), 0);
            lemma_to_map_index(pairs_view(nodes@[2]@), 0);
            assert(unique_keys(pairs_view(nodes@[0]@)));
            assert(unique_keys(pairs_view(nodes@[2]@)));
            lemma_to_map_len(pairs_view(nodes@[0]@));
            lemma_to_map_len(pairs_view(nodes@[2]@));
        }
        let r = Ortho { nodes };
        proof {
            let o = r@;
            assert(o[0] =~= square(a, b, c, d)[0]);
            assert(o[2] =~= square(a, b, c, d)[2]);
            if !added {
                assert(bag_of(b) == bag_of(c));
                assert(o[1] =~= square(a, b, c, d)[1]);
            }
            assert(o =~= square(a, b, c, d));
        }
        r
    }

    /// The token at the origin.
    pub fn origin(&self) -> (r: usize)
        ensures
            r == origin_of(self@),
    {
        proof {
            use_type_invariant(self);
            lemma_to_map_index(pairs_view(self.nodes@[0]@), 0);
        }
        self.nodes[0][0].1
    }

    /// The shape signature.
    pub fn size(&self) -> (r: MultiSet)
        ensures
            r@ == size_of(self@),
    {
        proof {
            use_type_invariant(self);
            let last = pairs_view(self.nodes@.last()@);
            lemma_to_map_index(last, 0);
            lemma_to_map_len(last);
            let d = to_map(last).dom();
            assert(d =~= set![last[0].0]) by {
                assert forall|k: Map<usize, usize>| #[trigger] d.contains(k) implies k == last[0].0 by {
                    let j = choose|j: int| 0 <= j < last.len() && #[trigger] last[j].0 == k;
                }
            }
            assert(d.choose() == last[0].0);
        }
        let n = self.nodes.len();
        self.nodes[n - 1][0].0.size()
    }

    /// The tokens next to the origin, one for each node of the first layer
    /// after the origin.
    pub fn hop(&self) -> (r: Vec<usize>)
        ensures
            r@.len() == self@[1].dom().len(),
            r@.to_set() == hop_of(self@),
            ascending(r@),
    {
        proof {
            use_type_invariant(self);
            lemma_to_map_len(pairs_view(self.nodes@[1]@));
        }
        let layer = &self.nodes[1];
        let ghost p = pairs_view(layer@);
        let mut vals: Vec<usize> = Vec::new();
        let mut i: usize = 0;
        while i < layer.len()
            invariant
                i <= layer.len(),
                p == pairs_view(layer@),
                unique_keys(p),
                vals@.len() == i,
                forall|j: int| 0 <= j < i ==> #[trigger] vals@[j] == p[j].1,
            decreases layer.len() - i,
        {
            vals.push(layer[i].1);
            i = i + 1;
        }
        proof {
            let m = to_map(p);
            assert(self@[1] == m);
            assert forall|v: usize| #[trigger] vals@.to_set().contains(v) <==> m.values().contains(v) by {
                if vals@.to_set().contains(v) {
                    let j = choose|j: int| 0 <= j < vals@.len() && vals@[j] == v;
                    lemma_to_map_index(p, j);
                }
                if m.values().contains(v) {
                    let k = choose|k: Map<usize, usize>| #[trigger] m.contains_key(k) && m[k] == v;
                    let j = choose|j: int| 0 <= j < p.len() && #[trigger] p[j].0 == k;
                    lemma_to_map_index(p, j);
                    assert(vals@[j] == v);
                }
            }
            assert(vals@.to_set() =~= m.values());
        }
        sorted_copy(&vals)
    }

    /// Structural equality: the same tokens under the same bags, layer by
    /// layer.
    pub fn same(&self, other: &Ortho) -> (r: bool)
        ensures
            r == (self@ == other@),
    {
        proof {
            use_type_invariant(self);
            use_type_invariant(other);
        }
        if self.nodes.len() != other.nodes.len() {
            assert(self@.len() != other@.len());
            return false;
        }
        let mut i: usize = 0;
        while i < self.nodes.len()
            invariant
                i <= self.nodes.len(),
                self.nodes.len() == other.nodes.len(),
                well_shaped(self.nodes@, Map::<usize, usize>::empty()),
                well_shaped(other.nodes@, Map::<usize, usize>::empty()),
                forall|j: int| 0 <= j < i ==> #[trigger] self@[j] == other@[j],
            decreases self.nodes.len() - i,
        {
            if !assoc_eq(&self.nodes[i], &other.nodes[i]) {
                assert(self@[i as int] != other@[i as int]);
                return false;
            }
            i = i + 1;
        }
        assert(self@ =~= other@);
        true
    }

    /// A copy of the ortho.
    pub fn copy(&self) -> (r: Ortho)
        ensures
            r@ == self@,
    {
        proof {
            use_type_invariant(self);
        }
        let mut nodes: Vec<Vec<(MultiSet, usize)>> = Vec::new();
        let mut i: usize = 0;
        while i < self.nodes.len()
            invariant
                i <= self.nodes.len(),
                nodes.len() == i,
                well_shaped(self.nodes@, Map::<usize, usize>::empty()),
                forall|j: int| 0 <= j < i ==> pairs_view(#[trigger] nodes@[j]@) == pairs_view(self.nodes@[j]@),
            decreases self.nodes.len() - i,
        {
            nodes.push(crate::assoc::assoc_duplicate(&self.nodes[i]));
            i = i + 1;
        }
        proof {
            assert forall|j: int| 0 <= j < nodes.len() implies (#[trigger] nodes@[j]).len() == self.nodes@[j].len() by {
                assert(pairs_view(nodes@[j]@).len() == pairs_view(self.nodes@[j]@).len());
            }
            assert(pairs_view(nodes@[0]@)[0].0 == pairs_view(self.nodes@[0]@)[0].0);
        }
        let r = Ortho { nodes };
        assert(r@ =~= self@);
        r
    }

    /// The same ortho over the tokens that the table holds for its ids.
    /// Fails on an id that the table does not hold; where the table holds
    /// no token twice, on nothing else.
    pub fn unintern(&self, interner: &Interner) -> (r: Result<LiteralOrtho, InternError>)
        ensures
            r is Ok ==> ortho_nameable(self@, interned(*interner)),
            ortho_nameable(self@, interned(*interner)) ==> r is Ok,
            r matches Ok(l) ==> l@ == name_ortho(self@, interned(*interner)),
    {
        proof {
            use_type_invariant(self);
        }
        let ghost names = interned(*interner);
        let mut nodes: Vec<Vec<(LiteralMultiSet, String)>> = Vec::new();
        let mut i: usize = 0;
        while i < self.nodes.len()
            invariant
                i <= self.nodes.len(),
                nodes.len() == i,
                names == interned(*interner),
                well_shaped(self.nodes@, Map::<usize, usize>::empty()),
                forall|j: int| 0 <= j < i ==> layer_nameable(#[trigger] self@[j], names),
                forall|j: int| 0 <= j < i ==> unique_keys(pairs_view(#[trigger] nodes@[j]@)),
                forall|j: int| 0 <= j < i ==> (#[trigger] nodes@[j]).len() == self.nodes@[j].len(),
                forall|j: int| 0 <= j < i ==> assoc_view(#[trigger] nodes@[j]@) == name_layer(self@[j], names),
            decreases self.nodes.len() - i,
        {
            let layer = match unintern_layer(&self.nodes[i], interner) {
                Ok(layer) => layer,
                Err(e) => {
                    assert(self@[i as int] == assoc_view(self.nodes@[i as int]@));
                    return Err(e);
                },
            };
            nodes.push(layer);
            i = i + 1;
        }
        let ghost lo = nodes@.map_values(|l: Vec<(LiteralMultiSet, String)>| assoc_view(l@));
        proof {
            assert(lo =~= name_ortho(self@, names));
            let first_pairs = pairs_view(nodes@[0]@);
            lemma_to_map_index(first_pairs, 0);
            lemma_to_map_index(pairs_view(self.nodes@[0]@), 0);
            lemma_rekey_index(self@[0], Map::<usize, usize>::empty(), |k: Map<usize, usize>| name_bag(k, names), |v: usize| names[v as int]);
            assert(name_bag(Map::<usize, usize>::empty(), names) =~= Map::<Seq<char>, usize>::empty());
            assert(to_map(first_pairs).contains_key(first_pairs[0].0));
            let k0 = first_pairs[0].0;
            assert(name_layer(self@[0], names).contains_key(k0));
            let a = choose|a: Map<usize, usize>| self@[0].contains_key(a) && #[trigger] name_bag(a, names) == k0;
            assert(self@[0].contains_key(a));
            lemma_shape(self.nodes@, Map::<usize, usize>::empty());
            assert(self@[0].dom().contains(a));
            assert(a == Map::<usize, usize>::empty());
            assert(nodes@[0]@[0].0@ == k0);
            assert(k0 == Map::<Seq<char>, usize>::empty());
        }
        Ok(LiteralOrtho { nodes })
    }
}

/// One layer renamed through a table.
fn unintern_layer(layer: &Vec<(MultiSet, usize)>, interner: &Interner) -> (r: Result<
    Vec<(LiteralMultiSet, String)>,
    InternError,
>)
    requires
        unique_keys(pairs_view(layer@)),
    ensures
        r is Ok <==> layer_nameable(assoc_view(layer@), interned(*interner)),
        r matches Ok(out) ==> unique_keys(pairs_view(out@)) && out.len() == layer.len()
            && assoc_view(out@) == name_layer(assoc_view(layer@), interned(*interner)),
{
    let ghost names = interned(*interner);
    let ghost fk = |k: Map<usize, usize>| name_bag(k, names);
    let ghost fv = |v: usize| names[v as int];
    let ghost p = pairs_view(layer@);
    let mut out: Vec<(LiteralMultiSet, String)> = Vec::new();
    let mut i: usize = 0;
    proof {
        lemma_prefix_empty(p);
        lemma_rekey_empty(fk, fv);
        assert(pairs_view(out@) =~= Seq::<(Map<Seq<char>, usize>, Seq<char>)>::empty());
        assert(assoc_view(out@) =~= Map::<Map<Seq<char>, usize>, Seq<char>>::empty());
    }
    while i < layer.len()
        invariant
            i <= layer.len(),
            out.len() == i,
            p == pairs_view(layer@),
            names == interned(*interner),
            fk == (|k: Map<usize, usize>| name_bag(k, names)),
            fv == (|v: usize| names[v as int]),
            unique_keys(p),
            unique_keys(pairs_view(out@)),
            layer_nameable(to_map(p.take(i as int)), names),
            assoc_view(out@) == rekey_map(to_map(p.take(i as int)), fk, fv),
        decreases layer.len() - i,
    {
        let ghost m = to_map(p.take(i as int));
        let ghost k = p[i as int].0;
        proof {
            lemma_prefix_step(p, i as int);
            lemma_to_map_index(p, i as int);
        }
        let key = match layer[i].0.unintern(interner) {
            Ok(key) => key,
            Err(e) => {
                assert(to_map(p).contains_key(k));
                return Err(e);
            },
        };
        let value = match interner.resolve(layer[i].1) {
            Some(value) => value,
            None => {
                assert(to_map(p).contains_key(k));
                return Err(InternError::UnknownId(layer[i].1));
            },
        };
        if !assoc_insert_new(&mut out, key, value) {
            proof {
                let c = fk(k);
                assert(rekey_map(m, fk, fv).contains_key(c));
                let a = choose|a: Map<usize, usize>| m.contains_key(a) && #[trigger] fk(a) == c;
                lemma_prefix_within(p, i as int, a);
                assert(a != k);
                assert(!injective_on(to_map(p).dom(), fk));
            }
            return Err(InternError::DuplicateToken(layer[i].1));
        }
        proof {
            assert forall|a: Map<usize, usize>| m.contains_key(a) implies #[trigger] fk(a) != fk(k) by {
                if fk(a) == fk(k) {
                    assert(rekey_map(m, fk, fv).contains_key(fk(k)));
                }
            }
            lemma_rekey_insert(m, k, p[i as int].1, fk, fv);
            let m2 = to_map(p.take(i + 1));
            assert forall|x: Map<usize, usize>| #[trigger] m2.contains_key(x) implies ids_known(x.dom(), names)
                && names_distinct(x.dom(), names) && m2[x] < names.len() by {
                if x != k {
                    assert(m.contains_key(x));
                }
            }
        }
        i = i + 1;
    }
    proof {
        lemma_prefix_all(p);
    }
    Ok(out)
}

/// Rotation invariance: a square equals the one with its two neighbours
/// swapped, and both have the same origin and the same shape signature.
pub proof fn lemma_rotation(a: usize, b: usize, c: usize, d: usize)
    ensures
        square(a, b, c, d) == square(a, c, b, d),
        origin_of(square(a, b, c, d)) == origin_of(square(a, c, b, d)),
        size_of(square(a, b, c, d)) == size_of(square(a, c, b, d)),
{
    assert(bag_add(bag_of(b), c) =~= bag_add(bag_of(c), b));
    assert(square(a, b, c, d)[1] =~= square(a, c, b, d)[1]);
    assert(square(a, b, c, d)[2] =~= square(a, c, b, d)[2]);
    assert(square(a, b, c, d) =~= square(a, c, b, d));
}

/// Every id of the ortho is held by the table.
pub open spec fn ortho_ids_known(o: Seq<Layer>, names: Seq<Seq<char>>) -> bool {
    forall|i: int, k: Map<usize, usize>| 0 <= i < o.len() && #[trigger] o[i].contains_key(k) ==> ids_known(k.dom(), names)
        && o[i][k] < names.len()
}

proof fn lemma_bag_round_trip(k: Map<usize, usize>, names: Seq<Seq<char>>)
    requires
        names.no_duplicates(),
        ids_known(k.dom(), names),
    ensures
        names_distinct(k.dom(), names),
        tokens_known(name_bag(k, names).dom(), names),
        id_bag(name_bag(k, names), names) == k,
{
    let f1 = |x: usize| names[x as int];
    let f2 = |s: Seq<char>| id_of(names, s) as usize;
    let g = |v: usize| v;
    assert(injective_on(k.dom(), f1));
    assert forall|x: usize| #[trigger] k.contains_key(x) implies f2(f1(x)) == x && g(g(k[x])) == k[x] by {
        lemma_id_of_distinct(names, x as int);
    }
    crate::assoc::lemma_rekey_round_trip(k, f1, g, f2, g);
    assert forall|s: Seq<char>| name_bag(k, names).dom().contains(s) implies names.contains(s) by {
        let x = choose|x: usize| k.contains_key(x) && #[trigger] f1(x) == s;
        assert(names[x as int] == s);
    }
}

proof fn lemma_layer_round_trip(l: Layer, names: Seq<Seq<char>>)
    requires
        names.no_duplicates(),
        forall|k: Map<usize, usize>| #[trigger] l.contains_key(k) ==> ids_known(k.dom(), names) && l[k] < names.len(),
    ensures
        layer_nameable(l, names),
        layer_known(name_layer(l, names), names),
        id_layer(name_layer(l, names), names) == l,
{
    let f1 = |k: Map<usize, usize>| name_bag(k, names);
    let g1 = |v: usize| names[v as int];
    let f2 = |k: Map<Seq<char>, usize>| id_bag(k, names);
    let g2 = |v: Seq<char>| id_of(names, v) as usize;
    assert forall|k: Map<usize, usize>| #[trigger] l.contains_key(k) implies names_distinct(k.dom(), names) && f2(f1(k)) == k && g2(g1(l[k])) == l[k] by {
        lemma_bag_round_trip(k, names);
        lemma_id_of_distinct(names, l[k] as int);
    }
    assert(injective_on(l.dom(), f1)) by {
        assert forall|k1: Map<usize, usize>, k2: Map<usize, usize>| l.dom().contains(k1) && l.dom().contains(k2) && #[trigger] f1(k1) == #[trigger] f1(k2) implies k1 == k2 by {
            lemma_bag_round_trip(k1, names);
            lemma_bag_round_trip(k2, names);
        }
    }
    crate::assoc::lemma_rekey_round_trip(l, f1, g1, f2, g2);
    let t = name_layer(l, names);
    assert forall|kk: Map<Seq<char>, usize>| #[trigger] t.contains_key(kk) implies tokens_known(kk.dom(), names) && names.contains(t[kk]) by {
        let k = choose|k: Map<usize, usize>| l.contains_key(k) && #[trigger] f1(k) == kk;
        lemma_bag_round_trip(k, names);
        lemma_rekey_index(l, k, f1, g1);
    }
}

/// Interning round trip: with a table that holds every id of an ortho and
/// no token twice, renaming the ortho's ids to tokens succeeds, renaming the
/// tokens back to ids succeeds, and the result is the ortho itself.
pub proof fn lemma_intern_round_trip(o: Seq<Layer>, names: Seq<Seq<char>>)
    requires
        names.no_duplicates(),
        ortho_ids_known(o, names),
    ensures
        ortho_nameable(o, names),
        ortho_known(name_ortho(o, names), names),
        id_ortho(name_ortho(o, names), names) == o,
{
    assert forall|i: int| 0 <= i < o.len() implies layer_nameable(#[trigger] o[i], names) && layer_known(name_ortho(o, names)[i], names) && id_ortho(name_ortho(o, names), names)[i] == o[i] by {
        assert forall|k: Map<usize, usize>| #[trigger] o[i].contains_key(k) implies ids_known(k.dom(), names) && o[i][k] < names.len() by {
        }
        lemma_layer_round_trip(o[i], names);
    }
    assert(id_ortho(name_ortho(o, names), names) =~= o);
}

proof fn lemma_literal_bag_round_trip(k: Map<Seq<char>, usize>, names: Seq<Seq<char>>)
    requires
        tokens_known(k.dom(), names),
        names.len() <= usize::MAX,
    ensures
        name_bag(id_bag(k, names), names) == k,
{
    let f1 = |s: Seq<char>| id_of(names, s) as usize;
    let f2 = |x: usize| names[x as int];
    let g = |v: usize| v;
    assert forall|s: Seq<char>| #[trigger] k.contains_key(s) implies f2(f1(s)) == s && g(g(k[s])) == k[s] && (id_of(names, s) as usize) == id_of(names, s) by {
        let i = choose|i: int| 0 <= i < names.len() && names[i] == s;
        lemma_id_of_held(names, s, i);
    }
    assert(injective_on(k.dom(), f1)) by {
        assert forall|s1: Seq<char>, s2: Seq<char>| k.dom().contains(s1) && k.dom().contains(s2) && #[trigger] f1(s1) == #[trigger] f1(s2) implies s1 == s2 by {
            assert(f2(f1(s1)) == s1);
            assert(f2(f1(s2)) == s2);
        }
    }
    crate::assoc::lemma_rekey_round_trip(k, f1, g, f2, g);
}

proof fn lemma_literal_layer_round_trip(l: LiteralLayer, names: Seq<Seq<char>>)
    requires
        layer_known(l, names),
        names.len() <= usize::MAX,
    ensures
        name_layer(id_layer(l, names), names) == l,
{
    let f1 = |k: Map<Seq<char>, usize>| id_bag(k, names);
    let g1 = |v: Seq<char>| id_of(names, v) as usize;
    let f2 = |k: Map<usize, usize>| name_bag(k, names);
    let g2 = |v: usize| names[v as int];
    assert forall|k: Map<Seq<char>, usize>| #[trigger] l.contains_key(k) implies f2(f1(k)) == k && g2(g1(l[k])) == l[k] by {
        lemma_literal_bag_round_trip(k, names);
        let i = choose|i: int| 0 <= i < names.len() && names[i] == l[k];
        lemma_id_of_held(names, l[k], i);
    }
    assert(injective_on(l.dom(), f1)) by {
        assert forall|k1: Map<Seq<char>, usize>, k2: Map<Seq<char>, usize>| l.dom().contains(k1) && l.dom().contains(k2) && #[trigger] f1(k1) == #[trigger] f1(k2) implies k1 == k2 by {
            assert(f2(f1(k1)) == k1);
            assert(f2(f1(k2)) == k2);
        }
    }
    crate::assoc::lemma_rekey_round_trip(l, f1, g1, f2, g2);
}

/// Literal round trip: renaming the tokens of a literal ortho to ids of a
/// table that holds them all, and back, gives the literal ortho back.
pub proof fn lemma_literal_round_trip(l: Seq<LiteralLayer>, names: Seq<Seq<char>>)
    requires
        ortho_known(l, names),
        names.len() <= usize::MAX,
    ensures
        name_ortho(id_ortho(l, names), names) == l,
{
    assert forall|i: int| 0 <= i < l.len() implies #[trigger] name_ortho(id_ortho(l, names), names)[i] == l[i] by {
        lemma_literal_layer_round_trip(l[i], names);
    }
    assert(name_ortho(id_ortho(l, names), names) =~= l);
}

/// The tokens of the layer have ids that fit a `usize`.
pub open spec fn layer_ids_fit(l: LiteralLayer, names: Seq<Seq<char>>) -> bool {
    forall|k: Map<Seq<char>, usize>| #[trigger] l.contains_key(k) ==> (forall|s: Seq<char>| #[trigger] k.contains_key(s) ==> id_of(names, s) <= usize::MAX)
        && id_of(names, l[k]) <= usize::MAX
}

proof fn lemma_id_bag_injective(k1: Map<Seq<char>, usize>, k2: Map<Seq<char>, usize>, names: Seq<Seq<char>>)
    requires
        tokens_known(k1.dom(), names),
        tokens_known(k2.dom(), names),
        forall|s: Seq<char>| #[trigger] k1.contains_key(s) ==> id_of(names, s) <= usize::MAX,
        forall|s: Seq<char>| #[trigger] k2.contains_key(s) ==> id_of(names, s) <= usize::MAX,
        id_bag(k1, names) == id_bag(k2, names),
    ensures
        k1 == k2,
{
    let fk = |s: Seq<char>| id_of(names, s) as usize;
    let fv = |v: usize| v;
    assert(injective_on(k1.dom().union(k2.dom()), fk)) by {
        assert forall|s1: Seq<char>, s2: Seq<char>| k1.dom().union(k2.dom()).contains(s1) && k1.dom().union(k2.dom()).contains(s2) && #[trigger] fk(s1) == #[trigger] fk(s2) implies s1 == s2 by {
            let i1 = choose|i: int| 0 <= i < names.len() && names[i] == s1;
            let i2 = choose|i: int| 0 <= i < names.len() && names[i] == s2;
            lemma_id_of_held(names, s1, i1);
            lemma_id_of_held(names, s2, i2);
        }
    }
    crate::assoc::lemma_rekey_injective(k1, k2, fk, fv);
}

/// One layer renamed to ids of a table.
fn intern_layer(layer: &Vec<(LiteralMultiSet, String)>, interner: &Interner) -> (r: Result<
    Vec<(MultiSet, usize)>,
    InternError,
>)
    requires
        unique_keys(pairs_view(layer@)),
    ensures
        r matches Err(e) ==> e is UnknownToken,
        r is Ok <==> layer_known(assoc_view(layer@), interned(*interner)),
        r matches Ok(out) ==> unique_keys(pairs_view(out@)) && out.len() == layer.len()
            && assoc_view(out@) == id_layer(assoc_view(layer@), interned(*interner)),
{
    let ghost names = interned(*interner);
    let ghost fk = |k: Map<Seq<char>, usize>| id_bag(k, names);
    let ghost fv = |v: Seq<char>| id_of(names, v) as usize;
    let ghost p = pairs_view(layer@);
    let mut out: Vec<(MultiSet, usize)> = Vec::new();
    let mut i: usize = 0;
    proof {
        lemma_prefix_empty(p);
        lemma_rekey_empty(fk, fv);
        assert(pairs_view(out@) =~= Seq::<(Map<usize, usize>, usize)>::empty());
        assert(assoc_view(out@) =~= Map::<Map<usize, usize>, usize>::empty());
    }
    while i < layer.len()
        invariant
            i <= layer.len(),
            out.len() == i,
            p == pairs_view(layer@),
            names == interned(*interner),
            fk == (|k: Map<Seq<char>, usize>| id_bag(k, names)),
            fv == (|v: Seq<char>| id_of(names, v) as usize),
            unique_keys(p),
            unique_keys(pairs_view(out@)),
            layer_known(to_map(p.take(i as int)), names),
            layer_ids_fit(to_map(p.take(i as int)), names),
            injective_on(to_map(p.take(i as int)).dom(), fk),
            assoc_view(out@) == rekey_map(to_map(p.take(i as int)), fk, fv),
        decreases layer.len() - i,
    {
        let ghost m = to_map(p.take(i as int));
        let ghost k = p[i as int].0;
        proof {
            lemma_prefix_step(p, i as int);
            lemma_to_map_index(p, i as int);
        }
        let key = match layer[i].0.intern(interner) {
            Ok(key) => key,
            Err(e) => {
                assert(to_map(p).contains_key(k));
                return Err(e);
            },
        };
        let value = match interner.get(layer[i].1.as_str()) {
            Some(value) => value,
            None => {
                assert(to_map(p).contains_key(k));
                return Err(InternError::UnknownToken(layer[i].1.clone()));
            },
        };
        proof {
            lemma_id_of(names, p[i as int].1, value as int);
            assert forall|a: Map<Seq<char>, usize>| m.contains_key(a) implies #[trigger] fk(a) != fk(k) by {
                if fk(a) == fk(k) {
                    lemma_id_bag_injective(a, k, names);
                }
            }
            assert(!rekey_map(m, fk, fv).contains_key(fk(k)));
        }
        let added = assoc_insert_new(&mut out, key, value);
        assert(added);
        proof {
            lemma_rekey_insert(m, k, p[i as int].1, fk, fv);
            let m2 = to_map(p.take(i + 1));
            assert forall|x: Map<Seq<char>, usize>| #[trigger] m2.contains_key(x) implies tokens_known(x.dom(), names)
                && names.contains(m2[x]) by {
                if x != k {
                    assert(m.contains_key(x));
                }
            }
            assert forall|x: Map<Seq<char>, usize>| #[trigger] m2.contains_key(x) implies (forall|s: Seq<char>| #[trigger] x.contains_key(s) ==> id_of(names, s) <= usize::MAX)
                && id_of(names, m2[x]) <= usize::MAX by {
                if x != k {
                    assert(m.contains_key(x));
                }
            }
        }
        i = i + 1;
    }
    proof {
        lemma_prefix_all(p);
    }
    Ok(out)
}

impl PartialEq for Ortho {
    fn eq(&self, other: &Ortho) -> (r: bool) {
        self.same(other)
    }
}

impl vstd::std_specs::cmp::PartialEqSpecImpl for Ortho {
    open spec fn obeys_eq_spec() -> bool {
        true
    }

    open spec fn eq_spec(&self, other: &Ortho) -> bool {
        self@ == other@
    }
}

impl PartialEq for LiteralOrtho {
    fn eq(&self, other: &LiteralOrtho) -> (r: bool) {
        self.same(other)
    }
}

impl vstd::std_specs::cmp::PartialEqSpecImpl for LiteralOrtho {
    open spec fn obeys_eq_spec() -> bool {
        true
    }

    open spec fn eq_spec(&self, other: &LiteralOrtho) -> bool {
        self@ == other@
    }
}

impl Clone for Ortho {
    fn clone(&self) -> (r: Ortho)
        ensures
            r@ == self@,
    {
        self.copy()
    }
}

impl Clone for LiteralOrtho {
    fn clone(&self) -> (r: LiteralOrtho)
        ensures
            r@ == self@,
    {
        self.copy()
    }
}

} // verus!

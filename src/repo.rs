//! The repository: the orthos found so far, indexed by shape signature and
//! origin, and by shape signature and each token next to the origin.
use crate::assoc::{
    assoc_eq, assoc_find, assoc_insert_new, assoc_view, injective_on, lemma_prefix_all,
    lemma_prefix_empty, lemma_prefix_step, lemma_prefix_within, lemma_rekey_empty,
    lemma_rekey_insert, lemma_to_map_index, lemma_to_map_len, pairs_view, rekey_map, to_map,
    unique_keys,
};
use crate::bucket::{
    index_add, index_add_all, index_insert, index_merge, index_union, index_within, Bucket,
};
use crate::interner::{first_at, id_of, interned, lemma_id_of, InternError, Interner};
use crate::multiset::MultiSet;
use crate::ortho::{
    hop_of, id_ortho, lemma_intern_round_trip, name_ortho, origin_of, ortho_ids_known, ortho_known,
    size_of, Layer, LiteralLayer, LiteralOrtho, Ortho,
};
use vstd::prelude::*;

verus! {

/// An index of orthos over ids: (shape signature, token) to a set of orthos.
pub type OrthoIndex = Map<(Map<usize, usize>, usize), Set<Seq<Layer>>>;

/// An index of literal orthos: (shape signature, token) to a set of orthos.
pub type LiteralIndex = Map<(Map<usize, usize>, Seq<char>), Set<Seq<LiteralLayer>>>;

/// The keys of the hops index under which an ortho is filed.
pub open spec fn hop_keys(o: Seq<Layer>) -> Set<(Map<usize, usize>, usize)> {
    Set::new(|k: (Map<usize, usize>, usize)| k.0 == size_of(o) && hop_of(o).contains(k.1))
}

/// The two indexes after adding an ortho: under its signature and origin,
/// and under its signature and each of its hops.
pub open spec fn add_model(r: (OrthoIndex, OrthoIndex), o: Seq<Layer>) -> (OrthoIndex, OrthoIndex) {
    (index_add(r.0, (size_of(o), origin_of(o)), o), index_add_all(r.1, hop_keys(o), o))
}

/// The candidates whose signature and origin have no bucket yet.
pub open spec fn subtract_model(origin: OrthoIndex, cands: Set<Seq<Layer>>) -> Set<Seq<Layer>> {
    cands.filter(|v: Seq<Layer>| !origin.contains_key((size_of(v), origin_of(v))))
}

/// The bucket key of an ortho in the origin index.
pub open spec fn origin_key(o: Seq<Layer>) -> (Map<usize, usize>, usize) {
    (size_of(o), origin_of(o))
}

/// The origin index of a set of orthos.
pub open spec fn origin_index_of(s: Set<Seq<Layer>>) -> OrthoIndex {
    Map::new(
        |k: (Map<usize, usize>, usize)| exists|o: Seq<Layer>| s.contains(o) && origin_key(o) == k,
        |k: (Map<usize, usize>, usize)| s.filter(|o: Seq<Layer>| origin_key(o) == k),
    )
}

/// The hops index of a set of orthos.
pub open spec fn hops_index_of(s: Set<Seq<Layer>>) -> OrthoIndex {
    Map::new(
        |k: (Map<usize, usize>, usize)| exists|o: Seq<Layer>| s.contains(o) && hop_keys(o).contains(k),
        |k: (Map<usize, usize>, usize)| s.filter(|o: Seq<Layer>| hop_keys(o).contains(k)),
    )
}

/// The two indexes after adding a set of orthos.
pub open spec fn add_set_model(r: (OrthoIndex, OrthoIndex), s: Set<Seq<Layer>>) -> (OrthoIndex, OrthoIndex) {
    (index_union(r.0, origin_index_of(s)), index_union(r.1, hops_index_of(s)))
}

pub proof fn lemma_add_set_empty(r: (OrthoIndex, OrthoIndex))
    ensures
        add_set_model(r, Set::empty()) == r,
{
    let e = Set::<Seq<Layer>>::empty();
    assert(origin_index_of(e) =~= OrthoIndex::empty());
    assert(hops_index_of(e) =~= OrthoIndex::empty());
    assert forall|k: (Map<usize, usize>, usize)| #[trigger] r.0.contains_key(k) implies index_union(r.0, OrthoIndex::empty())[k] == r.0[k] by {
        assert(r.0[k].union(Set::empty()) =~= r.0[k]);
    }
    assert forall|k: (Map<usize, usize>, usize)| #[trigger] r.1.contains_key(k) implies index_union(r.1, OrthoIndex::empty())[k] == r.1[k] by {
        assert(r.1[k].union(Set::empty()) =~= r.1[k]);
    }
    assert(index_union(r.0, OrthoIndex::empty()) =~= r.0);
    assert(index_union(r.1, OrthoIndex::empty()) =~= r.1);
}

proof fn lemma_origin_bucket(s: Set<Seq<Layer>>, k: (Map<usize, usize>, usize))
    ensures
        crate::bucket::bucket_at(origin_index_of(s), k) == s.filter(|o: Seq<Layer>| origin_key(o) == k),
{
    if !origin_index_of(s).contains_key(k) {
        let f = s.filter(|o: Seq<Layer>| origin_key(o) == k);
        assert(f =~= Set::<Seq<Layer>>::empty()) by {
            assert forall|x: Seq<Layer>| !#[trigger] f.contains(x) by {
                if s.contains(x) && origin_key(x) == k {
                    assert(origin_index_of(s).contains_key(k));
                }
            }
        }
    }
}

proof fn lemma_hops_bucket(s: Set<Seq<Layer>>, k: (Map<usize, usize>, usize))
    ensures
        crate::bucket::bucket_at(hops_index_of(s), k) == s.filter(|o: Seq<Layer>| hop_keys(o).contains(k)),
{
    if !hops_index_of(s).contains_key(k) {
        let f = s.filter(|o: Seq<Layer>| hop_keys(o).contains(k));
        assert(f =~= Set::<Seq<Layer>>::empty()) by {
            assert forall|x: Seq<Layer>| !#[trigger] f.contains(x) by {
                if s.contains(x) && hop_keys(x).contains(k) {
                    assert(hops_index_of(s).contains_key(k));
                }
            }
        }
    }
}

/// Adding orthos one at a time adds the set of them.
pub proof fn lemma_add_set_step(r: (OrthoIndex, OrthoIndex), s: Set<Seq<Layer>>, o: Seq<Layer>)
    ensures
        add_model(add_set_model(r, s), o) == add_set_model(r, s.insert(o)),
{
    let t = s.insert(o);
    let a = add_model(add_set_model(r, s), o);
    let b = add_set_model(r, t);
    assert(t.contains(o));
    assert(origin_index_of(t).contains_key(origin_key(o)));
    assert forall|k: (Map<usize, usize>, usize)| #[trigger] a.0.contains_key(k) <==> b.0.contains_key(k) by {
        if origin_index_of(s).contains_key(k) {
            let x = choose|x: Seq<Layer>| s.contains(x) && origin_key(x) == k;
            assert(t.contains(x));
        }
        if origin_index_of(t).contains_key(k) {
            let x = choose|x: Seq<Layer>| t.contains(x) && origin_key(x) == k;
            if x != o {
                assert(s.contains(x));
            }
        }
    }
    assert forall|k: (Map<usize, usize>, usize)| #[trigger] a.0.contains_key(k) implies a.0[k] == b.0[k] by {
        lemma_origin_bucket(s, k);
        lemma_origin_bucket(t, k);
        let fs = s.filter(|x: Seq<Layer>| origin_key(x) == k);
        let ft = t.filter(|x: Seq<Layer>| origin_key(x) == k);
        if origin_key(o) == k {
            assert(ft =~= fs.insert(o));
        } else {
            assert(ft =~= fs);
        }
        assert(a.0[k] =~= b.0[k]);
    }
    assert(a.0 =~= b.0);
    assert forall|k: (Map<usize, usize>, usize)| #[trigger] a.1.contains_key(k) <==> b.1.contains_key(k) by {
        if hops_index_of(s).contains_key(k) {
            let x = choose|x: Seq<Layer>| s.contains(x) && hop_keys(x).contains(k);
            assert(t.contains(x));
        }
        if hops_index_of(t).contains_key(k) {
            let x = choose|x: Seq<Layer>| t.contains(x) && hop_keys(x).contains(k);
            if x != o {
                assert(s.contains(x));
            }
        }
        if hop_keys(o).contains(k) {
            assert(hops_index_of(t).contains_key(k));
        }
    }
    assert forall|k: (Map<usize, usize>, usize)| #[trigger] a.1.contains_key(k) implies a.1[k] == b.1[k] by {
        lemma_hops_bucket(s, k);
        lemma_hops_bucket(t, k);
        let fs = s.filter(|x: Seq<Layer>| hop_keys(x).contains(k));
        let ft = t.filter(|x: Seq<Layer>| hop_keys(x).contains(k));
        if hop_keys(o).contains(k) {
            assert(ft =~= fs.insert(o));
        } else {
            assert(ft =~= fs);
        }
        assert(a.1[k] =~= b.1[k]);
    }
    assert(a.1 =~= b.1);
}

/// Adding an ortho twice leaves both indexes as adding it once does.
pub proof fn lemma_add_idempotent(r: (OrthoIndex, OrthoIndex), o: Seq<Layer>)
    ensures
        add_model(add_model(r, o), o) == add_model(r, o),
{
    let k = (size_of(o), origin_of(o));
    let once = index_add(r.0, k, o);
    assert(index_add(once, k, o) =~= once) by {
        assert(once[k].insert(o) =~= once[k]);
    }
    crate::bucket::lemma_add_all_idempotent(r.1, hop_keys(o), o);
}

/// Once a repository holds an ortho under some shape signature and origin,
/// subtracting drops every candidate with that signature and origin,
/// whatever its other tokens.
pub proof fn lemma_subtract_drops_known(
    r: (OrthoIndex, OrthoIndex),
    o: Seq<Layer>,
    cands: Set<Seq<Layer>>,
    c: Seq<Layer>,
)
    requires
        r.0.contains_key(origin_key(o)),
        r.0[origin_key(o)].contains(o),
        size_of(c) == size_of(o),
        origin_of(c) == origin_of(o),
    ensures
        !subtract_model(r.0, cands).contains(c),
{
}

/// After adding an ortho, the repository holds it under its shape
/// signature and origin.
pub proof fn lemma_add_holds(r: (OrthoIndex, OrthoIndex), o: Seq<Layer>)
    ensures
        add_model(r, o).0.contains_key(origin_key(o)),
        add_model(r, o).0[origin_key(o)].contains(o),
{
}

/// The two indexes agree: an ortho of the origin index sits under its own
/// signature and origin only, and under the key of each of its hops in the
/// hops index; an ortho of the hops index sits under its hop keys only, and
/// in the origin index.
pub open spec fn consistent(r: (OrthoIndex, OrthoIndex)) -> bool {
    &&& forall|k: (Map<usize, usize>, usize), o: Seq<Layer>| #[trigger] r.0.contains_key(k) && #[trigger] r.0[k].contains(o) ==> k == origin_key(o)
        && forall|h: usize| #[trigger] hop_of(o).contains(h) ==> r.1.contains_key((size_of(o), h)) && r.1[(size_of(o), h)].contains(o)
    &&& forall|k: (Map<usize, usize>, usize), o: Seq<Layer>| #[trigger] r.1.contains_key(k) && #[trigger] r.1[k].contains(o) ==> hop_keys(o).contains(k)
        && r.0.contains_key(origin_key(o)) && r.0[origin_key(o)].contains(o)
}

/// Adding an ortho keeps the two indexes consistent.
pub proof fn lemma_add_consistent(r: (OrthoIndex, OrthoIndex), o: Seq<Layer>)
    requires
        consistent(r),
    ensures
        consistent(add_model(r, o)),
{
    let q = add_model(r, o);
    assert forall|k: (Map<usize, usize>, usize), x: Seq<Layer>| #[trigger] q.0.contains_key(k) && #[trigger] q.0[k].contains(x) implies k == origin_key(x)
        && forall|h: usize| #[trigger] hop_of(x).contains(h) ==> q.1.contains_key((size_of(x), h)) && q.1[(size_of(x), h)].contains(x) by {
        if x != o || k != origin_key(o) {
            assert(r.0.contains_key(k) && r.0[k].contains(x));
        }
        assert forall|h: usize| #[trigger] hop_of(x).contains(h) implies q.1.contains_key((size_of(x), h)) && q.1[(size_of(x), h)].contains(x) by {
            if x == o {
                assert(hop_keys(o).contains((size_of(o), h)));
            } else {
                assert(r.1.contains_key((size_of(x), h)) && r.1[(size_of(x), h)].contains(x));
            }
        }
    }
    assert forall|k: (Map<usize, usize>, usize), x: Seq<Layer>| #[trigger] q.1.contains_key(k) && #[trigger] q.1[k].contains(x) implies hop_keys(x).contains(k)
        && q.0.contains_key(origin_key(x)) && q.0[origin_key(x)].contains(x) by {
        if !(x == o && hop_keys(o).contains(k)) {
            assert(r.1.contains_key(k) && r.1[k].contains(x));
        }
    }
}

/// Two literal repositories merged, index by index.
pub open spec fn merge_model(a: (LiteralIndex, LiteralIndex), b: (LiteralIndex, LiteralIndex)) -> (LiteralIndex, LiteralIndex) {
    (index_union(a.0, b.0), index_union(a.1, b.1))
}

/// Merging literal repositories is commutative, associative and idempotent.
pub proof fn lemma_merge_laws(
    a: (LiteralIndex, LiteralIndex),
    b: (LiteralIndex, LiteralIndex),
    c: (LiteralIndex, LiteralIndex),
)
    ensures
        merge_model(a, b) == merge_model(b, a),
        merge_model(merge_model(a, b), c) == merge_model(a, merge_model(b, c)),
        merge_model(a, a) == a,
{
    crate::bucket::lemma_union_commutative(a.0, b.0);
    crate::bucket::lemma_union_commutative(a.1, b.1);
    crate::bucket::lemma_union_associative(a.0, b.0, c.0);
    crate::bucket::lemma_union_associative(a.1, b.1, c.1);
    crate::bucket::lemma_union_idempotent(a.0);
    crate::bucket::lemma_union_idempotent(a.1);
}

/// The repository of orthos over ids.
#[derive(Debug)]
pub struct Repo {
    origin: Vec<((MultiSet, usize), Bucket<Ortho>)>,
    hops: Vec<((MultiSet, usize), Bucket<Ortho>)>,
}

impl View for Repo {
    type V = (OrthoIndex, OrthoIndex);

    closed spec fn view(&self) -> (OrthoIndex, OrthoIndex) {
        (assoc_view(self.origin@), assoc_view(self.hops@))
    }
}

/// The repository of literal orthos, the form in which it is stored and
/// merged.
#[derive(Debug)]
pub struct LiteralRepo {
    origin: Vec<((MultiSet, String), Bucket<LiteralOrtho>)>,
    hops: Vec<((MultiSet, String), Bucket<LiteralOrtho>)>,
}

impl View for LiteralRepo {
    type V = (LiteralIndex, LiteralIndex);

    closed spec fn view(&self) -> (LiteralIndex, LiteralIndex) {
        (assoc_view(self.origin@), assoc_view(self.hops@))
    }
}

impl Repo {
    #[verifier::type_invariant]
    closed spec fn inv(&self) -> bool {
        &&& unique_keys(pairs_view(self.origin@))
        &&& unique_keys(pairs_view(self.hops@))
    }

    /// The empty repository.
    pub fn new() -> (r: Repo)
        ensures
            r@.0 == OrthoIndex::empty(),
            r@.1 == OrthoIndex::empty(),
            consistent(r@),
    {
        let r = Repo { origin: Vec::new(), hops: Vec::new() };
        assert(r@.0 =~= OrthoIndex::empty());
        assert(r@.1 =~= OrthoIndex::empty());
        r
    }

    /// The number of (shape signature, origin) buckets.
    pub fn len(&self) -> (r: usize)
        ensures
            self@.0.dom().finite(),
            r == self@.0.dom().len(),
    {
        proof {
            use_type_invariant(self);
            lemma_to_map_len(pairs_view(self.origin@));
        }
        self.origin.len()
    }

    /// The number of (shape signature, hop) buckets.
    pub fn hops_len(&self) -> (r: usize)
        ensures
            self@.1.dom().finite(),
            r == self@.1.dom().len(),
    {
        proof {
            use_type_invariant(self);
            lemma_to_map_len(pairs_view(self.hops@));
        }
        self.hops.len()
    }

    /// The orthos of shape signature `size` rooted at `origin`, if any.
    pub fn find_by_size_and_origin(&self, size: MultiSet, origin: usize) -> (r: Option<&Vec<Ortho>>)
        ensures
            r is None <==> !self@.0.contains_key((size@, origin)),
            r matches Some(v) ==> crate::assoc::items_view(v@) == self@.0[(size@, origin)]
                && crate::assoc::unique_items(v@),
    {
        proof {
            use_type_invariant(self);
        }
        find_in(&self.origin, size, origin)
    }

    /// The orthos of shape signature `size` with `hop` next to the origin,
    /// if any.
    pub fn find_by_size_and_hop(&self, size: MultiSet, hop: usize) -> (r: Option<&Vec<Ortho>>)
        ensures
            r is None <==> !self@.1.contains_key((size@, hop)),
            r matches Some(v) ==> crate::assoc::items_view(v@) == self@.1[(size@, hop)]
                && crate::assoc::unique_items(v@),
    {
        proof {
            use_type_invariant(self);
        }
        find_in(&self.hops, size, hop)
    }

    /// Files an ortho under its signature and origin, and under its
    /// signature and each of its hops.
    pub fn add(&mut self, ortho: Ortho)
        ensures
            final(self)@ == add_model(old(self)@, ortho@),
            consistent(old(self)@) ==> consistent(final(self)@),
    {
        proof {
            use_type_invariant(&*self);
        }
        let ghost o = ortho@;
        let ghost old_hops = self@.1;
        let size = ortho.size();
        let origin = ortho.origin();
        let hop = ortho.hop();
        let mut origin_index: Vec<((MultiSet, usize), Bucket<Ortho>)> = Vec::new();
        std::mem::swap(&mut origin_index, &mut self.origin);
        index_insert(&mut origin_index, (size.copy(), origin), ortho.copy());
        self.origin = origin_index;
        let mut hops_index: Vec<((MultiSet, usize), Bucket<Ortho>)> = Vec::new();
        std::mem::swap(&mut hops_index, &mut self.hops);
        let mut i: usize = 0;
        proof {
            assert(index_add_all(old_hops, hop_prefix_keys(size_of(o), hop@, 0), o) =~= old_hops) by {
                assert forall|k: (Map<usize, usize>, usize)| #[trigger] old_hops.contains_key(k) implies index_add_all(old_hops, hop_prefix_keys(size_of(o), hop@, 0), o)[k] == old_hops[k] by {
                }
            }
        }
        while i < hop.len()
            invariant
                i <= hop.len(),
                o == ortho@,
                size@ == size_of(o),
                unique_keys(pairs_view(hops_index@)),
                assoc_view(hops_index@) == index_add_all(old_hops, hop_prefix_keys(size_of(o), hop@, i as int), o),
            decreases hop.len() - i,
        {
            index_insert(&mut hops_index, (size.copy(), hop[i]), ortho.copy());
            proof {
                lemma_add_all_step(old_hops, hop_prefix_keys(size_of(o), hop@, i as int), (size_of(o), hop@[i as int]), o);
                assert(hop_prefix_keys(size_of(o), hop@, i + 1) =~= hop_prefix_keys(size_of(o), hop@, i as int).insert((size_of(o), hop@[i as int])));
            }
            i = i + 1;
        }
        proof {
            assert(hop_prefix_keys(size_of(o), hop@, hop.len() as int) =~= hop_keys(o)) by {
                assert forall|k: (Map<usize, usize>, usize)| #[trigger] hop_keys(o).contains(k) implies hop_prefix_keys(size_of(o), hop@, hop.len() as int).contains(k) by {
                    assert(hop@.to_set().contains(k.1));
                }
                assert forall|k: (Map<usize, usize>, usize)| #[trigger] hop_prefix_keys(size_of(o), hop@, hop.len() as int).contains(k) implies hop_keys(o).contains(k) by {
                    let j = choose|j: int| 0 <= j < hop.len() && hop@[j] == k.1;
                    assert(hop@.to_set().contains(hop@[j]));
                }
            }
        }
        self.hops = hops_index;
        proof {
            if consistent(old(self)@) {
                lemma_add_consistent(old(self)@, o);
            }
        }
    }

    /// The candidates whose shape signature and origin have no bucket yet.
    pub fn set_subract(&self, from: Bucket<Ortho>) -> (r: Bucket<Ortho>)
        ensures
            r@ == subtract_model(self@.0, from@),
    {
        let items = from.items();
        let mut r: Bucket<Ortho> = Bucket::new();
        let mut i: usize = 0;
        proof {
            assert(subtract_model(self@.0, crate::assoc::items_view(items@.take(0))) =~= Set::<Seq<Layer>>::empty());
        }
        while i < items.len()
            invariant
                i <= items.len(),
                crate::assoc::items_view(items@) == from@,
                r@ == subtract_model(self@.0, crate::assoc::items_view(items@.take(i as int))),
            decreases items.len() - i,
        {
            let o = &items[i];
            let ghost before = crate::assoc::items_view(items@.take(i as int));
            proof {
                assert(crate::assoc::items_view(items@.take(i + 1)) =~= before.insert(o@)) by {
                    assert forall|v: Seq<Layer>| #[trigger] crate::assoc::items_view(items@.take(i + 1)).contains(v) <==> before.insert(o@).contains(v) by {
                        if crate::assoc::items_view(items@.take(i + 1)).contains(v) {
                            let j = choose|j: int| 0 <= j < i + 1 && #[trigger] items@.take(i + 1)[j]@ == v;
                            if j < i {
                                assert(items@.take(i as int)[j] == items@[j]);
                            }
                        }
                        if before.contains(v) {
                            let j = choose|j: int| 0 <= j < i && #[trigger] items@.take(i as int)[j]@ == v;
                            assert(items@.take(i + 1)[j] == items@[j]);
                        }
                        assert(items@.take(i + 1)[i as int] == items@[i as int]);
                    }
                }
            }
            if self.find_by_size_and_origin(o.size(), o.origin()).is_none() {
                r.insert(o.copy());
                assert(r@ =~= subtract_model(self@.0, before.insert(o@)));
            } else {
                assert(r@ =~= subtract_model(self@.0, before.insert(o@)));
            }
            i = i + 1;
        }
        proof {
            assert(items@.take(items.len() as int) =~= items@);
        }
        r
    }

    /// Files every ortho of a set.
    pub fn add_all(&mut self, orthos: &Bucket<Ortho>)
        ensures
            final(self)@ == add_set_model(old(self)@, orthos@),
            consistent(old(self)@) ==> consistent(final(self)@),
    {
        let ghost start = self@;
        let items = orthos.items();
        let mut i: usize = 0;
        proof {
            assert(crate::assoc::items_view(items@.take(0)) =~= Set::<Seq<Layer>>::empty());
            lemma_add_set_empty(start);
        }
        while i < items.len()
            invariant
                i <= items.len(),
                crate::assoc::items_view(items@) == orthos@,
                self@ == add_set_model(start, crate::assoc::items_view(items@.take(i as int))),
                start == old(self)@,
                consistent(start) ==> consistent(self@),
            decreases items.len() - i,
        {
            proof {
                crate::assoc::lemma_items_view_step(items@, i as int);
                lemma_add_set_step(start, crate::assoc::items_view(items@.take(i as int)), items@[i as int]@);
            }
            self.add(items[i].copy());
            i = i + 1;
        }
        proof {
            assert(items@.take(items.len() as int) =~= items@);
        }
    }

    /// Both indexes with each id replaced by the token the table holds for
    /// it. Where the table holds every id and no token twice, this succeeds.
    pub fn unintern(&self, interner: &Interner) -> (r: Result<LiteralRepo, InternError>)
        ensures
            r matches Ok(l) ==> l@ == (name_repo_index(interned(*interner), self@.0), name_repo_index(interned(*interner), self@.1)),
            interned(*interner).no_duplicates() && index_ids_known(interned(*interner), self@.0)
                && index_ids_known(interned(*interner), self@.1) ==> r is Ok,
            r is Ok ==> index_ids_known(interned(*interner), self@.0) && index_ids_known(interned(*interner), self@.1),
    {
        proof {
            use_type_invariant(self);
        }
        let origin = match unintern_index(&self.origin, interner) {
            Ok(origin) => origin,
            Err(e) => {
                return Err(e);
            },
        };
        let hops = match unintern_index(&self.hops, interner) {
            Ok(hops) => hops,
            Err(e) => {
                return Err(e);
            },
        };
        Ok(LiteralRepo { origin, hops })
    }

    /// Equality of both indexes.
    pub fn same(&self, other: &Repo) -> (r: bool)
        ensures
            r == (self@ == other@),
    {
        proof {
            use_type_invariant(self);
            use_type_invariant(other);
        }
        assoc_eq(&self.origin, &other.origin) && assoc_eq(&self.hops, &other.hops)
    }
}

/// A set of orthos renamed through a table.
pub open spec fn name_orthos(names: Seq<Seq<char>>, b: Set<Seq<Layer>>) -> Set<Seq<LiteralLayer>> {
    Set::new(|l: Seq<LiteralLayer>| exists|o: Seq<Layer>| b.contains(o) && name_ortho(o, names) == l)
}

/// A set of literal orthos renamed to ids of a table.
pub open spec fn id_orthos(names: Seq<Seq<char>>, b: Set<Seq<LiteralLayer>>) -> Set<Seq<Layer>> {
    Set::new(|o: Seq<Layer>| exists|l: Seq<LiteralLayer>| b.contains(l) && id_ortho(l, names) == o)
}

/// An index renamed through a table.
pub open spec fn name_repo_index(names: Seq<Seq<char>>, m: OrthoIndex) -> LiteralIndex {
    rekey_map(
        m,
        |k: (Map<usize, usize>, usize)| (k.0, names[k.1 as int]),
        |b: Set<Seq<Layer>>| name_orthos(names, b),
    )
}

/// A literal index renamed to ids of a table.
pub open spec fn id_repo_index(names: Seq<Seq<char>>, m: LiteralIndex) -> OrthoIndex {
    rekey_map(
        m,
        |k: (Map<usize, usize>, Seq<char>)| (k.0, id_of(names, k.1) as usize),
        |b: Set<Seq<LiteralLayer>>| id_orthos(names, b),
    )
}

/// Every id of the index is held by the table.
pub open spec fn index_ids_known(names: Seq<Seq<char>>, m: OrthoIndex) -> bool {
    forall|k: (Map<usize, usize>, usize)| #[trigger] m.contains_key(k) ==> k.1 < names.len()
        && forall|o: Seq<Layer>| #[trigger] m[k].contains(o) ==> ortho_ids_known(o, names)
}

/// Every token of the literal index is held by the table.
pub open spec fn index_known(names: Seq<Seq<char>>, m: LiteralIndex) -> bool {
    forall|k: (Map<usize, usize>, Seq<char>)| #[trigger] m.contains_key(k) ==> names.contains(k.1)
        && forall|l: Seq<LiteralLayer>| #[trigger] m[k].contains(l) ==> ortho_known(l, names)
}

proof fn lemma_nameable_ids_known(o: Seq<Layer>, names: Seq<Seq<char>>)
    requires
        crate::ortho::ortho_nameable(o, names),
    ensures
        ortho_ids_known(o, names),
{
    assert forall|i: int, k: Map<usize, usize>| 0 <= i < o.len() && #[trigger] o[i].contains_key(k) implies crate::multiset::ids_known(k.dom(), names)
        && o[i][k] < names.len() by {
        assert(crate::ortho::layer_nameable(o[i], names));
    }
}

proof fn lemma_orthos_round_trip(names: Seq<Seq<char>>, b: Set<Seq<Layer>>)
    requires
        names.no_duplicates(),
        forall|o: Seq<Layer>| #[trigger] b.contains(o) ==> ortho_ids_known(o, names),
    ensures
        id_orthos(names, name_orthos(names, b)) == b,
{
    let l = name_orthos(names, b);
    let r = id_orthos(names, l);
    assert forall|o: Seq<Layer>| #[trigger] r.contains(o) <==> b.contains(o) by {
        if b.contains(o) {
            lemma_intern_round_trip(o, names);
            assert(l.contains(name_ortho(o, names)));
        }
        if r.contains(o) {
            let x = choose|x: Seq<LiteralLayer>| l.contains(x) && id_ortho(x, names) == o;
            let y = choose|y: Seq<Layer>| b.contains(y) && name_ortho(y, names) == x;
            lemma_intern_round_trip(y, names);
        }
    }
    assert(r =~= b);
}

/// Repository round trip: with a table that holds every id of an index and
/// no token twice, renaming the index to tokens and back gives it back.
pub proof fn lemma_index_round_trip(names: Seq<Seq<char>>, m: OrthoIndex)
    requires
        names.no_duplicates(),
        index_ids_known(names, m),
    ensures
        id_repo_index(names, name_repo_index(names, m)) == m,
{
    let f1 = |k: (Map<usize, usize>, usize)| (k.0, names[k.1 as int]);
    let g1 = |b: Set<Seq<Layer>>| name_orthos(names, b);
    let f2 = |k: (Map<usize, usize>, Seq<char>)| (k.0, id_of(names, k.1) as usize);
    let g2 = |b: Set<Seq<LiteralLayer>>| id_orthos(names, b);
    assert(injective_on(m.dom(), f1)) by {
        assert forall|k1: (Map<usize, usize>, usize), k2: (Map<usize, usize>, usize)| m.dom().contains(k1) && m.dom().contains(k2) && #[trigger] f1(k1) == #[trigger] f1(k2) implies k1 == k2 by {
            assert(names[k1.1 as int] == names[k2.1 as int]);
        }
    }
    assert forall|k: (Map<usize, usize>, usize)| #[trigger] m.contains_key(k) implies f2(f1(k)) == k && g2(g1(m[k])) == m[k] by {
        crate::interner::lemma_id_of_distinct(names, k.1 as int);
        lemma_orthos_round_trip(names, m[k]);
    }
    crate::assoc::lemma_rekey_round_trip(m, f1, g1, f2, g2);
}

proof fn lemma_literal_orthos_round_trip(names: Seq<Seq<char>>, b: Set<Seq<LiteralLayer>>)
    requires
        names.len() <= usize::MAX,
        forall|l: Seq<LiteralLayer>| #[trigger] b.contains(l) ==> ortho_known(l, names),
    ensures
        name_orthos(names, id_orthos(names, b)) == b,
{
    let o = id_orthos(names, b);
    let r = name_orthos(names, o);
    assert forall|l: Seq<LiteralLayer>| #[trigger] r.contains(l) <==> b.contains(l) by {
        if b.contains(l) {
            crate::ortho::lemma_literal_round_trip(l, names);
            assert(o.contains(id_ortho(l, names)));
        }
        if r.contains(l) {
            let x = choose|x: Seq<Layer>| o.contains(x) && name_ortho(x, names) == l;
            let y = choose|y: Seq<LiteralLayer>| b.contains(y) && id_ortho(y, names) == x;
            crate::ortho::lemma_literal_round_trip(y, names);
        }
    }
    assert(r =~= b);
}

/// Literal repository round trip: with a table that holds every token of a
/// literal index, renaming it to ids and back gives it back.
pub proof fn lemma_literal_index_round_trip(names: Seq<Seq<char>>, m: LiteralIndex)
    requires
        names.len() <= usize::MAX,
        index_known(names, m),
    ensures
        name_repo_index(names, id_repo_index(names, m)) == m,
{
    let f1 = |k: (Map<usize, usize>, Seq<char>)| (k.0, id_of(names, k.1) as usize);
    let g1 = |b: Set<Seq<LiteralLayer>>| id_orthos(names, b);
    let f2 = |k: (Map<usize, usize>, usize)| (k.0, names[k.1 as int]);
    let g2 = |b: Set<Seq<Layer>>| name_orthos(names, b);
    assert forall|k: (Map<usize, usize>, Seq<char>)| #[trigger] m.contains_key(k) implies f2(f1(k)) == k && g2(g1(m[k])) == m[k] by {
        let i = choose|i: int| 0 <= i < names.len() && names[i] == k.1;
        crate::interner::lemma_id_of_held(names, k.1, i);
        lemma_literal_orthos_round_trip(names, m[k]);
    }
    assert(injective_on(m.dom(), f1)) by {
        assert forall|k1: (Map<usize, usize>, Seq<char>), k2: (Map<usize, usize>, Seq<char>)| m.dom().contains(k1) && m.dom().contains(k2) && #[trigger] f1(k1) == #[trigger] f1(k2) implies k1 == k2 by {
            assert(f2(f1(k1)) == k1);
            assert(f2(f1(k2)) == k2);
        }
    }
    crate::assoc::lemma_rekey_round_trip(m, f1, g1, f2, g2);
}

/// Renaming keeps one index within another.
pub proof fn lemma_name_index_within(names: Seq<Seq<char>>, a: OrthoIndex, b: OrthoIndex)
    requires
        names.no_duplicates(),
        index_within(a, b),
        index_ids_known(names, b),
    ensures
        index_within(name_repo_index(names, a), name_repo_index(names, b)),
{
    let fk = |k: (Map<usize, usize>, usize)| (k.0, names[k.1 as int]);
    let fv = |s: Set<Seq<Layer>>| name_orthos(names, s);
    assert(injective_on(b.dom(), fk)) by {
        assert forall|k1: (Map<usize, usize>, usize), k2: (Map<usize, usize>, usize)| b.dom().contains(k1) && b.dom().contains(k2) && #[trigger] fk(k1) == #[trigger] fk(k2) implies k1 == k2 by {
            assert(names[k1.1 as int] == names[k2.1 as int]);
        }
    }
    assert(injective_on(a.dom(), fk));
    assert forall|kk: (Map<usize, usize>, Seq<char>)| #[trigger] name_repo_index(names, a).contains_key(kk) implies name_repo_index(names, b).contains_key(kk)
        && name_repo_index(names, a)[kk].subset_of(name_repo_index(names, b)[kk]) by {
        let k = choose|k: (Map<usize, usize>, usize)| a.contains_key(k) && #[trigger] fk(k) == kk;
        crate::assoc::lemma_rekey_index(a, k, fk, fv);
        crate::assoc::lemma_rekey_index(b, k, fk, fv);
        assert forall|l: Seq<LiteralLayer>| name_orthos(names, a[k]).contains(l) implies name_orthos(names, b[k]).contains(l) by {
            let o = choose|o: Seq<Layer>| a[k].contains(o) && name_ortho(o, names) == l;
            assert(b[k].contains(o));
        }
    }
}

/// Every token of a literal ortho: those of the bags that place its nodes,
/// and those at its nodes.
pub open spec fn ortho_tokens(l: Seq<LiteralLayer>) -> Set<Seq<char>> {
    Set::new(|s: Seq<char>| exists|i: int, k: Map<Seq<char>, usize>| 0 <= i < l.len() && #[trigger] l[i].contains_key(k) && (k.contains_key(s) || l[i][k] == s))
}

/// Every token of a literal index: those of its keys and of its orthos.
pub open spec fn index_tokens(m: LiteralIndex) -> Set<Seq<char>> {
    Set::new(|s: Seq<char>| exists|k: (Map<usize, usize>, Seq<char>)| #[trigger] m.contains_key(k) && (k.1 == s || exists|l: Seq<LiteralLayer>| m[k].contains(l) && #[trigger] ortho_tokens(l).contains(s)))
}

/// A table holding every token of a literal index holds the index.
pub proof fn lemma_index_known_from_tokens(names: Seq<Seq<char>>, m: LiteralIndex)
    requires
        forall|s: Seq<char>| #[trigger] index_tokens(m).contains(s) ==> names.contains(s),
    ensures
        index_known(names, m),
{
    assert forall|k: (Map<usize, usize>, Seq<char>)| #[trigger] m.contains_key(k) implies names.contains(k.1)
        && forall|l: Seq<LiteralLayer>| #[trigger] m[k].contains(l) ==> ortho_known(l, names) by {
        assert(index_tokens(m).contains(k.1));
        assert forall|l: Seq<LiteralLayer>| #[trigger] m[k].contains(l) implies ortho_known(l, names) by {
            assert forall|i: int| 0 <= i < l.len() implies crate::ortho::layer_known(#[trigger] l[i], names) by {
                assert forall|kk: Map<Seq<char>, usize>| #[trigger] l[i].contains_key(kk) implies crate::multiset::tokens_known(kk.dom(), names)
                    && names.contains(l[i][kk]) by {
                    assert(ortho_tokens(l).contains(l[i][kk]));
                    assert(index_tokens(m).contains(l[i][kk]));
                    assert forall|x: Seq<char>| kk.dom().contains(x) implies names.contains(x) by {
                        assert(ortho_tokens(l).contains(x));
                        assert(index_tokens(m).contains(x));
                    }
                }
            }
        }
    }
}

/// The tokens of an index renamed through a table that holds its ids are
/// strings of the table.
pub proof fn lemma_named_index_tokens(names: Seq<Seq<char>>, m: OrthoIndex, s: Seq<char>)
    requires
        index_ids_known(names, m),
        index_tokens(name_repo_index(names, m)).contains(s),
    ensures
        names.contains(s),
{
    let n = name_repo_index(names, m);
    let fk = |k: (Map<usize, usize>, usize)| (k.0, names[k.1 as int]);
    let fv = |b: Set<Seq<Layer>>| name_orthos(names, b);
    let kk = choose|kk: (Map<usize, usize>, Seq<char>)| #[trigger] n.contains_key(kk) && (kk.1 == s || exists|l: Seq<LiteralLayer>| n[kk].contains(l) && #[trigger] ortho_tokens(l).contains(s));
    crate::assoc::lemma_rekey_source(m, kk, fk, fv);
    let k = choose|k: (Map<usize, usize>, usize)| m.contains_key(k) && fk(k) == kk && n[kk] == fv(m[k]);
    if kk.1 == s {
        assert(names[k.1 as int] == s);
    } else {
        let l = choose|l: Seq<LiteralLayer>| n[kk].contains(l) && #[trigger] ortho_tokens(l).contains(s);
        let o = choose|o: Seq<Layer>| m[k].contains(o) && name_ortho(o, names) == l;
        assert(ortho_ids_known(o, names));
        let (i, key) = choose|i: int, key: Map<Seq<char>, usize>| 0 <= i < l.len() && #[trigger] l[i].contains_key(key) && (key.contains_key(s) || l[i][key] == s);
        assert(l[i] == crate::ortho::name_layer(o[i], names));
        let gk = |a: Map<usize, usize>| crate::multiset::name_bag(a, names);
        let gv = |v: usize| names[v as int];
        crate::assoc::lemma_rekey_source(o[i], key, gk, gv);
        let a = choose|a: Map<usize, usize>| o[i].contains_key(a) && gk(a) == key && l[i][key] == gv(o[i][a]);
        assert(o[i].contains_key(a));
        if key.contains_key(s) {
            let hk = |x: usize| names[x as int];
            let x = choose|x: usize| a.contains_key(x) && #[trigger] hk(x) == s;
            assert(x < names.len());
        } else {
            assert(o[i][a] < names.len());
        }
    }
}

/// The tokens of a merge are those of its parts.
pub proof fn lemma_index_tokens_union(a: LiteralIndex, b: LiteralIndex, s: Seq<char>)
    requires
        index_tokens(index_union(a, b)).contains(s),
    ensures
        index_tokens(a).contains(s) || index_tokens(b).contains(s),
{
    let u = index_union(a, b);
    let k = choose|k: (Map<usize, usize>, Seq<char>)| #[trigger] u.contains_key(k) && (k.1 == s || exists|l: Seq<LiteralLayer>| u[k].contains(l) && #[trigger] ortho_tokens(l).contains(s));
    if k.1 == s {
        if a.contains_key(k) {
            assert(index_tokens(a).contains(s));
        } else {
            assert(index_tokens(b).contains(s));
        }
    } else {
        let l = choose|l: Seq<LiteralLayer>| u[k].contains(l) && #[trigger] ortho_tokens(l).contains(s);
        if a.contains_key(k) && a[k].contains(l) {
            assert(index_tokens(a).contains(s));
        } else {
            assert(b.contains_key(k) && b[k].contains(l));
            assert(index_tokens(b).contains(s));
        }
    }
}

/// The orthos of a bucket renamed through the table.
fn unintern_bucket(b: &Bucket<Ortho>, interner: &Interner) -> (r: Result<Bucket<LiteralOrtho>, InternError>)
    ensures
        r matches Ok(out) ==> out@ == name_orthos(interned(*interner), b@),
        interned(*interner).no_duplicates() && (forall|o: Seq<Layer>| #[trigger] b@.contains(o) ==> ortho_ids_known(o, interned(*interner))) ==> r is Ok,
        r is Ok ==> forall|o: Seq<Layer>| #[trigger] b@.contains(o) ==> ortho_ids_known(o, interned(*interner)),
{
    let ghost names = interned(*interner);
    let items = b.items();
    let mut out: Bucket<LiteralOrtho> = Bucket::new();
    let mut i: usize = 0;
    proof {
        assert(name_orthos(names, crate::assoc::items_view(items@.take(0))) =~= Set::<Seq<LiteralLayer>>::empty());
    }
    while i < items.len()
        invariant
            i <= items.len(),
            names == interned(*interner),
            crate::assoc::items_view(items@) == b@,
            out@ == name_orthos(names, crate::assoc::items_view(items@.take(i as int))),
            forall|j: int| 0 <= j < i ==> ortho_ids_known(#[trigger] items@[j]@, names),
        decreases items.len() - i,
    {
        let ghost o = items@[i as int]@;
        proof {
            crate::assoc::lemma_items_view_step(items@, i as int);
            crate::assoc::lemma_items_view_contains(items@, i as int);
        }
        match items[i].unintern(interner) {
            Ok(l) => {
                proof {
                    lemma_nameable_ids_known(o, names);
                }
                out.insert(l);
                proof {
                    let before = crate::assoc::items_view(items@.take(i as int));
                    assert(name_orthos(names, before.insert(o)) =~= name_orthos(names, before).insert(name_ortho(o, names))) by {
                        assert forall|x: Seq<LiteralLayer>| #[trigger] name_orthos(names, before.insert(o)).contains(x) implies name_orthos(names, before).insert(name_ortho(o, names)).contains(x) by {
                            let y = choose|y: Seq<Layer>| before.insert(o).contains(y) && name_ortho(y, names) == x;
                            if y != o {
                                assert(before.contains(y) && name_ortho(y, names) == x);
                            }
                        }
                        assert forall|x: Seq<LiteralLayer>| #[trigger] name_orthos(names, before).contains(x) implies name_orthos(names, before.insert(o)).contains(x) by {
                            let y = choose|y: Seq<Layer>| before.contains(y) && name_ortho(y, names) == x;
                            assert(before.insert(o).contains(y));
                        }
                        assert(before.insert(o).contains(o));
                    }
                }
            },
            Err(e) => {
                proof {
                    if names.no_duplicates() && ortho_ids_known(o, names) {
                        lemma_intern_round_trip(o, names);
                    }
                }
                return Err(e);
            },
        }
        i = i + 1;
    }
    proof {
        assert(items@.take(items.len() as int) =~= items@);
        assert forall|o: Seq<Layer>| #[trigger] b@.contains(o) implies ortho_ids_known(o, names) by {
            let j = choose|j: int| 0 <= j < items@.len() && #[trigger] items@[j]@ == o;
        }
    }
    Ok(out)
}

/// The literal orthos of a bucket renamed to ids of the table.
fn intern_bucket(b: &Bucket<LiteralOrtho>, interner: &Interner) -> (r: Result<Bucket<Ortho>, InternError>)
    ensures
        r matches Err(e) ==> e is UnknownToken,
        r matches Ok(out) ==> out@ == id_orthos(interned(*interner), b@),
        (forall|l: Seq<LiteralLayer>| #[trigger] b@.contains(l) ==> ortho_known(l, interned(*interner))) <==> r is Ok,
{
    let ghost names = interned(*interner);
    let items = b.items();
    let mut out: Bucket<Ortho> = Bucket::new();
    let mut i: usize = 0;
    proof {
        assert(id_orthos(names, crate::assoc::items_view(items@.take(0))) =~= Set::<Seq<Layer>>::empty());
    }
    while i < items.len()
        invariant
            i <= items.len(),
            names == interned(*interner),
            crate::assoc::items_view(items@) == b@,
            out@ == id_orthos(names, crate::assoc::items_view(items@.take(i as int))),
            forall|j: int| 0 <= j < i ==> ortho_known(#[trigger] items@[j]@, names),
        decreases items.len() - i,
    {
        let ghost l = items@[i as int]@;
        proof {
            crate::assoc::lemma_items_view_step(items@, i as int);
            crate::assoc::lemma_items_view_contains(items@, i as int);
        }
        match items[i].intern(interner) {
            Ok(o) => {
                out.insert(o);
                proof {
                    let before = crate::assoc::items_view(items@.take(i as int));
                    assert(id_orthos(names, before.insert(l)) =~= id_orthos(names, before).insert(id_ortho(l, names))) by {
                        assert forall|x: Seq<Layer>| #[trigger] id_orthos(names, before.insert(l)).contains(x) implies id_orthos(names, before).insert(id_ortho(l, names)).contains(x) by {
                            let y = choose|y: Seq<LiteralLayer>| before.insert(l).contains(y) && id_ortho(y, names) == x;
                            if y != l {
                                assert(before.contains(y) && id_ortho(y, names) == x);
                            }
                        }
                        assert forall|x: Seq<Layer>| #[trigger] id_orthos(names, before).contains(x) implies id_orthos(names, before.insert(l)).contains(x) by {
                            let y = choose|y: Seq<LiteralLayer>| before.contains(y) && id_ortho(y, names) == x;
                            assert(before.insert(l).contains(y));
                        }
                        assert(before.insert(l).contains(l));
                    }
                }
            },
            Err(e) => {
                return Err(e);
            },
        }
        i = i + 1;
    }
    proof {
        assert(items@.take(items.len() as int) =~= items@);
        assert forall|l: Seq<LiteralLayer>| #[trigger] b@.contains(l) implies ortho_known(l, names) by {
            let j = choose|j: int| 0 <= j < items@.len() && #[trigger] items@[j]@ == l;
        }
    }
    Ok(out)
}

/// An index renamed through the table.
fn unintern_index(index: &Vec<((MultiSet, usize), Bucket<Ortho>)>, interner: &Interner) -> (r: Result<
    Vec<((MultiSet, String), Bucket<LiteralOrtho>)>,
    InternError,
>)
    requires
        unique_keys(pairs_view(index@)),
    ensures
        r matches Ok(out) ==> unique_keys(pairs_view(out@)) && assoc_view(out@) == name_repo_index(interned(*interner), assoc_view(index@)),
        interned(*interner).no_duplicates() && index_ids_known(interned(*interner), assoc_view(index@)) ==> r is Ok,
        r is Ok ==> index_ids_known(interned(*interner), assoc_view(index@)),
{
    let ghost names = interned(*interner);
    let ghost fk = |k: (Map<usize, usize>, usize)| (k.0, names[k.1 as int]);
    let ghost fv = |b: Set<Seq<Layer>>| name_orthos(names, b);
    let ghost p = pairs_view(index@);
    let mut out: Vec<((MultiSet, String), Bucket<LiteralOrtho>)> = Vec::new();
    let mut i: usize = 0;
    proof {
        lemma_prefix_empty(p);
        lemma_rekey_empty(fk, fv);
        assert(pairs_view(out@) =~= Seq::<((Map<usize, usize>, Seq<char>), Set<Seq<LiteralLayer>>)>::empty());
        assert(assoc_view(out@) =~= LiteralIndex::empty());
    }
    while i < index.len()
        invariant
            i <= index.len(),
            p == pairs_view(index@),
            names == interned(*interner),
            fk == (|k: (Map<usize, usize>, usize)| (k.0, names[k.1 as int])),
            fv == (|b: Set<Seq<Layer>>| name_orthos(names, b)),
            unique_keys(p),
            unique_keys(pairs_view(out@)),
            injective_on(to_map(p.take(i as int)).dom(), fk),
            assoc_view(out@) == rekey_map(to_map(p.take(i as int)), fk, fv),
            forall|j: int| 0 <= j < i ==> (#[trigger] p[j]).0.1 < names.len() && (forall|o: Seq<Layer>| #[trigger] p[j].1.contains(o) ==> ortho_ids_known(o, names)),
        decreases index.len() - i,
    {
        let ghost m = to_map(p.take(i as int));
        let ghost k = p[i as int].0;
        proof {
            lemma_prefix_step(p, i as int);
            lemma_to_map_index(p, i as int);
        }
        let id = index[i].0.1;
        let token = match interner.resolve(id) {
            Some(token) => token,
            None => {
                return Err(InternError::UnknownId(id));
            },
        };
        let bucket = match unintern_bucket(&index[i].1, interner) {
            Ok(bucket) => bucket,
            Err(e) => {
                return Err(e);
            },
        };
        let key = (index[i].0.0.copy(), token);
        if !assoc_insert_new(&mut out, key, bucket) {
            proof {
                let c = fk(k);
                assert(rekey_map(m, fk, fv).contains_key(c));
                let a = choose|a: (Map<usize, usize>, usize)| m.contains_key(a) && #[trigger] fk(a) == c;
                lemma_prefix_within(p, i as int, a);
                assert(a != k);
                if names.no_duplicates() && index_ids_known(names, to_map(p)) {
                    assert(a.1 < names.len() && k.1 < names.len());
                    assert(names[a.1 as int] == names[k.1 as int]);
                    assert(a.1 == k.1);
                    assert(false);
                }
            }
            return Err(InternError::DuplicateToken(id));
        }
        proof {
            assert forall|a: (Map<usize, usize>, usize)| m.contains_key(a) implies #[trigger] fk(a) != fk(k) by {
                if fk(a) == fk(k) {
                    assert(rekey_map(m, fk, fv).contains_key(fk(k)));
                }
            }
            lemma_rekey_insert(m, k, p[i as int].1, fk, fv);
        }
        i = i + 1;
    }
    proof {
        lemma_prefix_all(p);
        assert forall|a: (Map<usize, usize>, usize)| #[trigger] to_map(p).contains_key(a) implies a.1 < names.len()
            && forall|o: Seq<Layer>| #[trigger] to_map(p)[a].contains(o) ==> ortho_ids_known(o, names) by {
            let j = choose|j: int| 0 <= j < p.len() && #[trigger] p[j].0 == a;
            lemma_to_map_index(p, j);
        }
    }
    Ok(out)
}

/// A literal index renamed to ids of the table.
fn intern_index(index: &Vec<((MultiSet, String), Bucket<LiteralOrtho>)>, interner: &Interner) -> (r: Result<
    Vec<((MultiSet, usize), Bucket<Ortho>)>,
    InternError,
>)
    requires
        unique_keys(pairs_view(index@)),
    ensures
        r matches Err(e) ==> e is UnknownToken,
        r matches Ok(out) ==> unique_keys(pairs_view(out@)) && assoc_view(out@) == id_repo_index(interned(*interner), assoc_view(index@)),
        index_known(interned(*interner), assoc_view(index@)) <==> r is Ok,
{
    let ghost names = interned(*interner);
    let ghost fk = |k: (Map<usize, usize>, Seq<char>)| (k.0, id_of(names, k.1) as usize);
    let ghost fv = |b: Set<Seq<LiteralLayer>>| id_orthos(names, b);
    let ghost p = pairs_view(index@);
    let mut out: Vec<((MultiSet, usize), Bucket<Ortho>)> = Vec::new();
    let mut i: usize = 0;
    proof {
        lemma_prefix_empty(p);
        lemma_rekey_empty(fk, fv);
        assert(pairs_view(out@) =~= Seq::<((Map<usize, usize>, usize), Set<Seq<Layer>>)>::empty());
        assert(assoc_view(out@) =~= OrthoIndex::empty());
    }
    while i < index.len()
        invariant
            i <= index.len(),
            p == pairs_view(index@),
            names == interned(*interner),
            fk == (|k: (Map<usize, usize>, Seq<char>)| (k.0, id_of(names, k.1) as usize)),
            fv == (|b: Set<Seq<LiteralLayer>>| id_orthos(names, b)),
            unique_keys(p),
            unique_keys(pairs_view(out@)),
            forall|a: (Map<usize, usize>, Seq<char>)| #[trigger] to_map(p.take(i as int)).contains_key(a) ==> first_at(names, a.1, id_of(names, a.1)) && id_of(names, a.1) <= usize::MAX,
            forall|j: int| 0 <= j < i ==> names.contains((#[trigger] p[j]).0.1) && (forall|l: Seq<LiteralLayer>| #[trigger] p[j].1.contains(l) ==> ortho_known(l, names)),
            injective_on(to_map(p.take(i as int)).dom(), fk),
            assoc_view(out@) == rekey_map(to_map(p.take(i as int)), fk, fv),
        decreases index.len() - i,
    {
        let ghost m = to_map(p.take(i as int));
        let ghost k = p[i as int].0;
        proof {
            lemma_prefix_step(p, i as int);
            lemma_to_map_index(p, i as int);
        }
        let id = match interner.get(index[i].0.1.as_str()) {
            Some(id) => id,
            None => {
                return Err(InternError::UnknownToken(index[i].0.1.clone()));
            },
        };
        proof {
            lemma_id_of(names, k.1, id as int);
        }
        let bucket = match intern_bucket(&index[i].1, interner) {
            Ok(bucket) => bucket,
            Err(e) => {
                return Err(e);
            },
        };
        proof {
            assert forall|a: (Map<usize, usize>, Seq<char>)| m.contains_key(a) implies #[trigger] fk(a) != fk(k) by {
                if fk(a) == fk(k) {
                    assert(names[id_of(names, a.1)] == a.1);
                    assert(names[id_of(names, k.1)] == k.1);
                    assert(a == k);
                }
            }
            lemma_rekey_insert(m, k, p[i as int].1, fk, fv);
            assert(!rekey_map(m, fk, fv).contains_key(fk(k)));
            assert(names.contains(k.1)) by {
                assert(names[id as int] == k.1);
            }
        }
        let key = (index[i].0.0.copy(), id);
        let added = assoc_insert_new(&mut out, key, bucket);
        assert(added);
        proof {
            let m2 = to_map(p.take(i + 1));
            assert forall|a: (Map<usize, usize>, Seq<char>)| #[trigger] m2.contains_key(a) implies first_at(names, a.1, id_of(names, a.1)) && id_of(names, a.1) <= usize::MAX by {
                if a != k {
                    assert(m.contains_key(a));
                }
            }
        }
        i = i + 1;
    }
    proof {
        lemma_prefix_all(p);
        assert forall|a: (Map<usize, usize>, Seq<char>)| #[trigger] to_map(p).contains_key(a) implies names.contains(a.1)
            && forall|l: Seq<LiteralLayer>| #[trigger] to_map(p)[a].contains(l) ==> ortho_known(l, names) by {
            let j = choose|j: int| 0 <= j < p.len() && #[trigger] p[j].0 == a;
            lemma_to_map_index(p, j);
        }
    }
    Ok(out)
}

/// The keys `(s, hs[j])` for the first `n` tokens `hs[j]`.
pub open spec fn hop_prefix_keys(s: Map<usize, usize>, hs: Seq<usize>, n: int) -> Set<(Map<usize, usize>, usize)> {
    Set::new(|k: (Map<usize, usize>, usize)| k.0 == s && exists|j: int| 0 <= j < n && hs[j] == k.1)
}

proof fn lemma_add_all_step<K, T>(m: Map<K, Set<T>>, ks: Set<K>, k: K, x: T)
    ensures
        index_add_all(m, ks.insert(k), x) == index_add(index_add_all(m, ks, x), k, x),
{
    let l = index_add_all(m, ks.insert(k), x);
    let r = index_add(index_add_all(m, ks, x), k, x);
    assert forall|y: K| #[trigger] l.contains_key(y) implies l[y] == r[y] by {
        if y == k && ks.contains(k) {
            assert(crate::bucket::bucket_at(m, k).insert(x).insert(x) =~= crate::bucket::bucket_at(m, k).insert(x));
        }
    }
    assert(l =~= r);
}

fn find_in<'a>(index: &'a Vec<((MultiSet, usize), Bucket<Ortho>)>, size: MultiSet, token: usize) -> (r: Option<&'a Vec<Ortho>>)
    requires
        unique_keys(pairs_view(index@)),
    ensures
        r is None <==> !assoc_view(index@).contains_key((size@, token)),
        r matches Some(v) ==> crate::assoc::items_view(v@) == assoc_view(index@)[(size@, token)]
            && crate::assoc::unique_items(v@),
{
    let key = (size, token);
    match assoc_find(index, &key) {
        Some(i) => {
            proof {
                lemma_to_map_index(pairs_view(index@), i as int);
            }
            Some(index[i].1.items())
        },
        None => None,
    }
}

impl LiteralRepo {
    #[verifier::type_invariant]
    closed spec fn inv(&self) -> bool {
        &&& unique_keys(pairs_view(self.origin@))
        &&& unique_keys(pairs_view(self.hops@))
    }

    /// The empty repository.
    pub fn new() -> (r: LiteralRepo)
        ensures
            r@.0 == LiteralIndex::empty(),
            r@.1 == LiteralIndex::empty(),
    {
        let r = LiteralRepo { origin: Vec::new(), hops: Vec::new() };
        assert(r@.0 =~= LiteralIndex::empty());
        assert(r@.1 =~= LiteralIndex::empty());
        r
    }

    /// The repository with the given indexes, where neither holds a key
    /// twice.
    pub fn from_indexes(
        origin: Vec<((MultiSet, String), Bucket<LiteralOrtho>)>,
        hops: Vec<((MultiSet, String), Bucket<LiteralOrtho>)>,
    ) -> (r: Option<LiteralRepo>)
        ensures
            r is Some <==> unique_keys(pairs_view(origin@)) && unique_keys(pairs_view(hops@)),
            r matches Some(l) ==> l@ == (assoc_view(origin@), assoc_view(hops@)),
    {
        if crate::assoc::assoc_unique(&origin) && crate::assoc::assoc_unique(&hops) {
            Some(LiteralRepo { origin, hops })
        } else {
            None
        }
    }

    /// The index by shape signature and origin.
    pub fn origin_index(&self) -> (r: &Vec<((MultiSet, String), Bucket<LiteralOrtho>)>)
        ensures
            unique_keys(pairs_view(r@)),
            assoc_view(r@) == self@.0,
    {
        proof {
            use_type_invariant(self);
        }
        &self.origin
    }

    /// The index by shape signature and hop.
    pub fn hops_index(&self) -> (r: &Vec<((MultiSet, String), Bucket<LiteralOrtho>)>)
        ensures
            unique_keys(pairs_view(r@)),
            assoc_view(r@) == self@.1,
    {
        proof {
            use_type_invariant(self);
        }
        &self.hops
    }

    /// Both indexes with each token replaced by its id in the table. Where
    /// the table holds every token, this succeeds.
    pub fn intern(&self, interner: &Interner) -> (r: Result<Repo, InternError>)
        ensures
            r matches Err(e) ==> e is UnknownToken,
            r matches Ok(o) ==> o@ == (id_repo_index(interned(*interner), self@.0), id_repo_index(interned(*interner), self@.1)),
            index_known(interned(*interner), self@.0) && index_known(interned(*interner), self@.1) <==> r is Ok,
    {
        proof {
            use_type_invariant(self);
        }
        let origin = match intern_index(&self.origin, interner) {
            Ok(origin) => origin,
            Err(e) => {
                return Err(e);
            },
        };
        let hops = match intern_index(&self.hops, interner) {
            Ok(hops) => hops,
            Err(e) => {
                return Err(e);
            },
        };
        Ok(Repo { origin, hops })
    }

    /// Merges another repository into this one, bucket by bucket.
    pub fn merge(&mut self, other: LiteralRepo)
        ensures
            final(self)@ == merge_model(old(self)@, other@),
    {
        proof {
            use_type_invariant(&*self);
            use_type_invariant(&other);
        }
        let mut origin_index: Vec<((MultiSet, String), Bucket<LiteralOrtho>)> = Vec::new();
        std::mem::swap(&mut origin_index, &mut self.origin);
        index_merge(&mut origin_index, &other.origin);
        self.origin = origin_index;
        let mut hops_index: Vec<((MultiSet, String), Bucket<LiteralOrtho>)> = Vec::new();
        std::mem::swap(&mut hops_index, &mut self.hops);
        index_merge(&mut hops_index, &other.hops);
        self.hops = hops_index;
    }

    /// A copy of the repository.
    pub fn copy(&self) -> (r: LiteralRepo)
        ensures
            r@ == self@,
    {
        proof {
            use_type_invariant(self);
        }
        LiteralRepo {
            origin: crate::assoc::assoc_duplicate(&self.origin),
            hops: crate::assoc::assoc_duplicate(&self.hops),
        }
    }

    /// Equality of both indexes.
    pub fn same(&self, other: &LiteralRepo) -> (r: bool)
        ensures
            r == (self@ == other@),
    {
        proof {
            use_type_invariant(self);
            use_type_invariant(other);
        }
        assoc_eq(&self.origin, &other.origin) && assoc_eq(&self.hops, &other.hops)
    }
}

impl PartialEq for Repo {
    fn eq(&self, other: &Repo) -> (r: bool) {
        self.same(other)
    }
}

impl vstd::std_specs::cmp::PartialEqSpecImpl for Repo {
    open spec fn obeys_eq_spec() -> bool {
        true
    }

    open spec fn eq_spec(&self, other: &Repo) -> bool {
        self@ == other@
    }
}

impl PartialEq for LiteralRepo {
    fn eq(&self, other: &LiteralRepo) -> (r: bool) {
        self.same(other)
    }
}

impl vstd::std_specs::cmp::PartialEqSpecImpl for LiteralRepo {
    open spec fn obeys_eq_spec() -> bool {
        true
    }

    open spec fn eq_spec(&self, other: &LiteralRepo) -> bool {
        self@ == other@
    }
}

impl Clone for LiteralRepo {
    fn clone(&self) -> (r: LiteralRepo)
        ensures
            r@ == self@,
    {
        self.copy()
    }
}

} // verus!

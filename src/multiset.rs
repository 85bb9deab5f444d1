//! Bags of token ids (and of token strings): the keys that place a token
//! inside an ortho, and the shape signature of an ortho.
use crate::assoc::{
    assoc_find, assoc_insert_new, assoc_view, injective_on, lemma_prefix_all, lemma_prefix_empty,
    lemma_prefix_step, lemma_prefix_within, lemma_rekey_empty, lemma_rekey_insert,
    lemma_to_map_index, lemma_to_map_len, lemma_to_map_update, pairs_view, rekey_map, to_map,
    unique_keys,
};
use crate::interner::{first_at, id_of, interned, lemma_id_of, InternError, Interner};
use vstd::prelude::*;

verus! {

/// `m` with one more occurrence of `x`.
pub open spec fn bag_add(m: Map<usize, usize>, x: usize) -> Map<usize, usize> {
    m.insert(x, if m.contains_key(x) { (m[x] + 1) as usize } else { 1 })
}

/// How many members of `m` occur exactly `c` times, for each count `c`
/// that occurs.
pub open spec fn count_profile(m: Map<usize, usize>) -> Map<usize, usize> {
    Map::new(
        |c: usize| exists|k: usize| m.contains_key(k) && m[k] == c,
        |c: usize| with_count(m, c).len() as usize,
    )
}

/// The members of `m` that occur exactly `c` times.
pub open spec fn with_count(m: Map<usize, usize>, c: usize) -> Set<usize> {
    m.dom().filter(|k: usize| m[k] == c)
}

/// A bag of ids renamed through a table.
pub open spec fn name_bag(m: Map<usize, usize>, names: Seq<Seq<char>>) -> Map<Seq<char>, usize> {
    rekey_map(m, |k: usize| names[k as int], |v: usize| v)
}

/// A bag of strings renamed to their ids in a table.
pub open spec fn id_bag(m: Map<Seq<char>, usize>, names: Seq<Seq<char>>) -> Map<usize, usize> {
    rekey_map(m, |s: Seq<char>| id_of(names, s) as usize, |v: usize| v)
}

/// Every id of `d` is held by the table.
pub open spec fn ids_known(d: Set<usize>, names: Seq<Seq<char>>) -> bool {
    forall|k: usize| d.contains(k) ==> k < names.len()
}

/// Every string of `d` is held by the table.
pub open spec fn tokens_known(d: Set<Seq<char>>, names: Seq<Seq<char>>) -> bool {
    forall|s: Seq<char>| d.contains(s) ==> names.contains(s)
}

/// The ids of `d` resolve to distinct strings.
pub open spec fn names_distinct(d: Set<usize>, names: Seq<Seq<char>>) -> bool {
    injective_on(d, |k: usize| names[k as int])
}

pub proof fn lemma_profile_insert(m: Map<usize, usize>, k: usize, v: usize)
    requires
        m.dom().finite(),
        m.dom().len() < usize::MAX,
        !m.contains_key(k),
    ensures
        count_profile(m).contains_key(v) ==> count_profile(m)[v] < usize::MAX,
        count_profile(m.insert(k, v)) == bag_add(count_profile(m), v),
{
    let m2 = m.insert(k, v);
    let p = count_profile(m);
    let grown = count_profile(m2);
    assert forall|c: usize| #[trigger] grown.contains_key(c) <==> bag_add(p, v).contains_key(c) by {
        if grown.contains_key(c) {
            let j = choose|j: usize| m2.contains_key(j) && m2[j] == c;
            if j != k {
                assert(m.contains_key(j) && m[j] == c);
            }
        }
        if p.contains_key(c) {
            let j = choose|j: usize| m.contains_key(j) && m[j] == c;
            assert(m2.contains_key(j) && m2[j] == c);
        }
        assert(m2.contains_key(k) && m2[k] == v);
    }
    assert forall|c: usize| #[trigger] grown.contains_key(c) implies grown[c] == bag_add(p, v)[c] by {
        let f = with_count(m, c);
        let f2 = with_count(m2, c);
        assert(f.subset_of(m.dom()));
        vstd::set_lib::lemma_len_subset(f, m.dom());
        if c == v {
            assert(f2 =~= f.insert(k));
            if !p.contains_key(c) {
                assert(f =~= Set::<usize>::empty());
            }
        } else {
            assert(f2 =~= f);
        }
    }
    assert(grown =~= bag_add(p, v));
    if p.contains_key(v) {
        let f = with_count(m, v);
        assert(f.subset_of(m.dom()));
        vstd::set_lib::lemma_len_subset(f, m.dom());
        assert(f.len() <= m.dom().len());
        assert(p[v] == f.len() as usize);
    }
}

/// A bag of token ids, kept as `(id, count)` pairs.
#[derive(Debug)]
pub struct MultiSet {
    set: Vec<(usize, usize)>,
}

impl View for MultiSet {
    type V = Map<usize, usize>;

    closed spec fn view(&self) -> Map<usize, usize> {
        assoc_view(self.set@)
    }
}

/// A bag of token strings, kept as `(token, count)` pairs.
#[derive(Debug)]
pub struct LiteralMultiSet {
    set: Vec<(String, usize)>,
}

impl View for LiteralMultiSet {
    type V = Map<Seq<char>, usize>;

    closed spec fn view(&self) -> Map<Seq<char>, usize> {
        assoc_view(self.set@)
    }
}

impl MultiSet {
    #[verifier::type_invariant]
    closed spec fn inv(&self) -> bool {
        unique_keys(pairs_view(self.set@))
    }

    /// The empty bag.
    pub fn new() -> (r: MultiSet)
        ensures
            r@ == Map::<usize, usize>::empty(),
    {
        let r = MultiSet { set: Vec::new() };
        assert(r@ =~= Map::<usize, usize>::empty());
        r
    }

    /// Adds one occurrence of `item`.
    pub fn insert(&mut self, item: usize)
        requires
            old(self)@.contains_key(item) ==> old(self)@[item] < usize::MAX,
        ensures
            final(self)@ == bag_add(old(self)@, item),
    {
        proof {
            use_type_invariant(&*self);
        }
        let ghost p = pairs_view(self.set@);
        let mut set: Vec<(usize, usize)> = Vec::new();
        std::mem::swap(&mut set, &mut self.set);
        match assoc_find(&set, &item) {
            Some(i) => {
                proof {
                    lemma_to_map_index(p, i as int);
                    lemma_to_map_update(p, i as int, (set@[i as int].1 + 1) as usize);
                }
                let count = set[i].1;
                set.set(i, (item, count + 1));
                assert(pairs_view(set@) =~= p.update(i as int, (p[i as int].0, (count + 1) as usize)));
            },
            None => {
                let ok = assoc_insert_new(&mut set, item, 1);
            },
        }
        self.set = set;
    }

    /// Sets the count of `item`.
    pub fn insert_count(&mut self, item: usize, count: usize)
        ensures
            final(self)@ == old(self)@.insert(item, count),
    {
        proof {
            use_type_invariant(&*self);
        }
        let ghost p = pairs_view(self.set@);
        let mut set = Vec::new();
        std::mem::swap(&mut set, &mut self.set);
        match assoc_find(&set, &item) {
            Some(i) => {
                proof {
                    lemma_to_map_update(p, i as int, count);
                }
                set.set(i, (item, count));
                assert(pairs_view(set@) =~= p.update(i as int, (p[i as int].0, count)));
            },
            None => {
                let ok = assoc_insert_new(&mut set, item, count);
            },
        }
        self.set = set;
    }

    /// The `(id, count)` pairs of the bag.
    pub fn pairs(&self) -> (r: Vec<(usize, usize)>)
        ensures
            unique_keys(r@),
            to_map(r@) == self@,
    {
        proof {
            use_type_invariant(self);
        }
        let r = crate::assoc::assoc_duplicate(&self.set);
        assert(r@ =~= pairs_view(r@));
        r
    }

    /// Equality of bags.
    pub fn same(&self, other: &MultiSet) -> (r: bool)
        ensures
            r == (self@ == other@),
    {
        proof {
            use_type_invariant(self);
            use_type_invariant(other);
        }
        crate::assoc::assoc_eq(&self.set, &other.set)
    }

    /// A copy of the bag.
    pub fn copy(&self) -> (r: MultiSet)
        ensures
            r@ == self@,
    {
        proof {
            use_type_invariant(self);
        }
        let set = crate::assoc::assoc_duplicate(&self.set);
        MultiSet { set }
    }

    /// The shape signature of the bag: for each count that occurs, how
    /// many members occur that often.
    pub fn size(&self) -> (r: MultiSet)
        ensures
            r@ == count_profile(self@),
    {
        proof {
            use_type_invariant(self);
        }
        let ghost p = pairs_view(self.set@);
        let mut r = MultiSet::new();
        let mut i: usize = 0;
        proof {
            lemma_prefix_empty(p);
            assert(count_profile(Map::<usize, usize>::empty()) =~= Map::<usize, usize>::empty());
        }
        while i < self.set.len()
            invariant
                i <= self.set.len(),
                p == pairs_view(self.set@),
                unique_keys(p),
                r@ == count_profile(to_map(p.take(i as int))),
            decreases self.set.len() - i,
        {
            proof {
                lemma_prefix_step(p, i as int);
                lemma_to_map_len(p.take(i as int));
                lemma_profile_insert(to_map(p.take(i as int)), p[i as int].0, p[i as int].1);
            }
            r.insert(self.set[i].1);
            i = i + 1;
        }
        proof {
            lemma_prefix_all(p);
        }
        r
    }

    /// The same bag with each id replaced by the token the table holds for
    /// it. Fails on an id the table does not hold, and where two ids of the
    /// bag resolve to one token.
    pub fn unintern(&self, interner: &Interner) -> (r: Result<LiteralMultiSet, InternError>)
        ensures
            r is Ok <==> ids_known(self@.dom(), interned(*interner)) && names_distinct(
                self@.dom(),
                interned(*interner),
            ),
            r matches Ok(l) ==> l@ == name_bag(self@, interned(*interner)),
    {
        proof {
            use_type_invariant(self);
        }
        let ghost names = interned(*interner);
        let ghost fk = |k: usize| names[k as int];
        let ghost fv = |v: usize| v;
        let ghost p = pairs_view(self.set@);
        let mut out: Vec<(String, usize)> = Vec::new();
        let mut i: usize = 0;
        proof {
            lemma_prefix_empty(p);
            lemma_rekey_empty(fk, fv);
            assert(pairs_view(out@) =~= Seq::<(Seq<char>, usize)>::empty());
            assert(assoc_view(out@) =~= Map::<Seq<char>, usize>::empty());
        }
        while i < self.set.len()
            invariant
                i <= self.set.len(),
                p == pairs_view(self.set@),
                names == interned(*interner),
                fk == (|k: usize| names[k as int]),
                fv == (|v: usize| v),
                unique_keys(p),
                unique_keys(pairs_view(out@)),
                ids_known(to_map(p.take(i as int)).dom(), names),
                injective_on(to_map(p.take(i as int)).dom(), fk),
                assoc_view(out@) == rekey_map(to_map(p.take(i as int)), fk, fv),
            decreases self.set.len() - i,
        {
            let (k, count) = self.set[i];
            proof {
                lemma_prefix_step(p, i as int);
                lemma_to_map_index(p, i as int);
            }
            match interner.resolve(k) {
                None => {
                    return Err(InternError::UnknownId(k));
                },
                Some(name) => {
                    let ghost before = assoc_view(out@);
                    let ghost m = to_map(p.take(i as int));
                    if !assoc_insert_new(&mut out, name, count) {
                        proof {
                            let c = names[k as int];
                            assert(rekey_map(m, fk, fv).contains_key(c));
                            let a = choose|a: usize| m.contains_key(a) && #[trigger] fk(a) == c;
                            lemma_prefix_within(p, i as int, a);
                            assert(fk(a) == fk(k));
                            assert(a != k);
                        }
                        return Err(InternError::DuplicateToken(k));
                    }
                    proof {
                        assert forall|a: usize| m.contains_key(a) implies #[trigger] fk(a) != fk(k) by {
                            if fk(a) == fk(k) {
                                assert(rekey_map(m, fk, fv).contains_key(fk(k)));
                            }
                        }
                        lemma_rekey_insert(m, k, count, fk, fv);
                    }
                },
            }
            i = i + 1;
        }
        proof {
            lemma_prefix_all(p);
        }
        Ok(LiteralMultiSet { set: out })
    }
}

impl LiteralMultiSet {
    #[verifier::type_invariant]
    closed spec fn inv(&self) -> bool {
        unique_keys(pairs_view(self.set@))
    }

    /// The empty bag.
    pub fn new() -> (r: LiteralMultiSet)
        ensures
            r@ == Map::<Seq<char>, usize>::empty(),
    {
        let r = LiteralMultiSet { set: Vec::new() };
        assert(r@ =~= Map::<Seq<char>, usize>::empty());
        r
    }

    /// Sets the count of `item`.
    pub fn insert_count(&mut self, item: String, count: usize)
        ensures
            final(self)@ == old(self)@.insert(item@, count),
    {
        proof {
            use_type_invariant(&*self);
        }
        let ghost p = pairs_view(self.set@);
        let mut set = Vec::new();
        std::mem::swap(&mut set, &mut self.set);
        match assoc_find(&set, &item) {
            Some(i) => {
                proof {
                    lemma_to_map_update(p, i as int, count);
                }
                set.set(i, (item, count));
                assert(pairs_view(set@) =~= p.update(i as int, (p[i as int].0, count)));
            },
            None => {
                let ok = assoc_insert_new(&mut set, item, count);
            },
        }
        self.set = set;
    }

    /// The number of distinct tokens.
    pub fn len(&self) -> (r: usize)
        ensures
            self@.dom().finite(),
            r == self@.dom().len(),
    {
        proof {
            use_type_invariant(self);
            lemma_to_map_len(pairs_view(self.set@));
        }
        self.set.len()
    }

    /// The `(token, count)` pairs of the bag.
    pub fn pairs(&self) -> (r: Vec<(String, usize)>)
        ensures
            unique_keys(pairs_view(r@)),
            assoc_view(r@) == self@,
    {
        proof {
            use_type_invariant(self);
        }
        crate::assoc::assoc_duplicate(&self.set)
    }

    /// Equality of bags.
    pub fn same(&self, other: &LiteralMultiSet) -> (r: bool)
        ensures
            r == (self@ == other@),
    {
        proof {
            use_type_invariant(self);
            use_type_invariant(other);
        }
        crate::assoc::assoc_eq(&self.set, &other.set)
    }

    /// A copy of the bag.
    pub fn copy(&self) -> (r: LiteralMultiSet)
        ensures
            r@ == self@,
    {
        proof {
            use_type_invariant(self);
        }
        let set = crate::assoc::assoc_duplicate(&self.set);
        LiteralMultiSet { set }
    }

    /// The same bag with each token replaced by its id in the table. Fails
    /// on a token the table does not hold.
    pub fn intern(&self, interner: &Interner) -> (r: Result<MultiSet, InternError>)
        ensures
            r matches Err(e) ==> e is UnknownToken,
            r is Ok <==> tokens_known(self@.dom(), interned(*interner)),
            r matches Ok(m) ==> m@ == id_bag(self@, interned(*interner)),
            r is Ok ==> forall|s: Seq<char>| #[trigger] self@.contains_key(s) ==> id_of(interned(*interner), s) <= usize::MAX,
    {
        proof {
            use_type_invariant(self);
        }
        let ghost names = interned(*interner);
        let ghost fk = |s: Seq<char>| id_of(names, s) as usize;
        let ghost fv = |v: usize| v;
        let ghost p = pairs_view(self.set@);
        let mut out: Vec<(usize, usize)> = Vec::new();
        let mut i: usize = 0;
        proof {
            lemma_prefix_empty(p);
            lemma_rekey_empty(fk, fv);
            assert(pairs_view(out@) =~= Seq::<(usize, usize)>::empty());
            assert(assoc_view(out@) =~= Map::<usize, usize>::empty());
        }
        while i < self.set.len()
            invariant
                i <= self.set.len(),
                p == pairs_view(self.set@),
                names == interned(*interner),
                fk == (|s: Seq<char>| id_of(names, s) as usize),
                fv == (|v: usize| v),
                unique_keys(p),
                unique_keys(pairs_view(out@)),
                forall|s: Seq<char>| #[trigger] to_map(p.take(i as int)).contains_key(s) ==> first_at(names, s, id_of(names, s)) && id_of(names, s) <= usize::MAX,
                assoc_view(out@) == rekey_map(to_map(p.take(i as int)), fk, fv),
            decreases self.set.len() - i,
        {
            let ghost m = to_map(p.take(i as int));
            proof {
                lemma_prefix_step(p, i as int);
                lemma_to_map_index(p, i as int);
            }
            match interner.get(self.set[i].0.as_str()) {
                None => {
                    proof {
                        assert(self@.contains_key(p[i as int].0));
                    }
                    return Err(InternError::UnknownToken(self.set[i].0.clone()));
                },
                Some(id) => {
                    let ghost s = p[i as int].0;
                    proof {
                        lemma_id_of(names, s, id as int);
                        assert(injective_on(m.dom(), fk)) by {
                            assert forall|a1: Seq<char>, a2: Seq<char>| m.dom().contains(a1) && m.dom().contains(a2) && #[trigger] fk(a1) == #[trigger] fk(a2) implies a1 == a2 by {
                                assert(names[id_of(names, a1)] == a1);
                                assert(names[id_of(names, a2)] == a2);
                            }
                        }
                        assert forall|a: Seq<char>| m.contains_key(a) implies #[trigger] fk(a) != fk(s) by {
                            assert(names[id_of(names, a)] == a);
                        }
                        lemma_rekey_insert(m, s, self.set@[i as int].1, fk, fv);
                        assert(!assoc_view(out@).contains_key(id));
                    }
                    let count = self.set[i].1;
                    let ok = assoc_insert_new(&mut out, id, count);
                    assert(ok);
                    proof {
                        assert forall|x: Seq<char>| #[trigger] to_map(p.take(i + 1)).contains_key(x) implies first_at(names, x, id_of(names, x)) && id_of(names, x) <= usize::MAX by {
                            if x != s {
                                assert(m.contains_key(x));
                            }
                        }
                    }
                },
            }
            i = i + 1;
        }
        proof {
            lemma_prefix_all(p);
            assert forall|s: Seq<char>| self@.dom().contains(s) implies names.contains(s) by {
                assert(first_at(names, s, id_of(names, s)));
            }
            assert forall|s: Seq<char>| #[trigger] self@.contains_key(s) implies id_of(names, s) <= usize::MAX by {
                assert(to_map(p.take(self.set.len() as int)).contains_key(s));
            }
        }
        Ok(MultiSet { set: out })
    }
}

impl PartialEq for MultiSet {
    fn eq(&self, other: &MultiSet) -> (r: bool) {
        self.same(other)
    }
}

impl vstd::std_specs::cmp::PartialEqSpecImpl for MultiSet {
    open spec fn obeys_eq_spec() -> bool {
        true
    }

    open spec fn eq_spec(&self, other: &MultiSet) -> bool {
        self@ == other@
    }
}

impl PartialEq for LiteralMultiSet {
    fn eq(&self, other: &LiteralMultiSet) -> (r: bool) {
        self.same(other)
    }
}

impl vstd::std_specs::cmp::PartialEqSpecImpl for LiteralMultiSet {
    open spec fn obeys_eq_spec() -> bool {
        true
    }

    open spec fn eq_spec(&self, other: &LiteralMultiSet) -> bool {
        self@ == other@
    }
}

impl Clone for MultiSet {
    fn clone(&self) -> (r: MultiSet)
        ensures
            r@ == self@,
    {
        self.copy()
    }
}

impl Clone for LiteralMultiSet {
    fn clone(&self) -> (r: LiteralMultiSet)
        ensures
            r@ == self@,
    {
        self.copy()
    }
}

} // verus!

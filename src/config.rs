//! The adjacency model of a corpus: its vocabulary, and for each token the
//! tokens that ever follow it and the tokens that ever precede it.
use crate::assoc::{
    assoc_find, assoc_view, injective_on, items_view, lemma_prefix_all, lemma_prefix_empty,
    lemma_prefix_step, lemma_prefix_within, lemma_rekey_empty, lemma_rekey_insert,
    lemma_to_map_index, lemma_to_map_len, pairs_view, rekey_map, to_map, unique_keys,
};
use crate::bucket::{index_add, index_insert, index_merge, index_union, Bucket};
use crate::interner::{
    first_at, id_of, interned, lemma_first_at_grows, lemma_id_of, InternError, Interner,
};
use vstd::prelude::*;

verus! {

/// The vocabulary, the followers and the predecessors of a model.
pub type Graph<T> = (Set<T>, Map<T, Set<T>>, Map<T, Set<T>>);

/// The adjacent pairs of one sentence, in order.
pub open spec fn sentence_pairs<T>(s: Seq<T>) -> Seq<(T, T)>
    decreases s.len(),
{
    if s.len() < 2 {
        Seq::empty()
    } else {
        sentence_pairs(s.drop_last()).push((s[s.len() - 2], s[s.len() - 1]))
    }
}

/// The adjacent pairs of every sentence, in order.
pub open spec fn corpus_pairs<T>(ss: Seq<Seq<T>>) -> Seq<(T, T)>
    decreases ss.len(),
{
    if ss.len() == 0 {
        Seq::empty()
    } else {
        corpus_pairs(ss.drop_last()) + sentence_pairs(ss.last())
    }
}

/// `w` is one end of some pair of `ps`.
pub open spec fn mentions<T>(ps: Seq<(T, T)>, w: T) -> bool {
    exists|i: int| 0 <= i < ps.len() && (ps[i].0 == w || ps[i].1 == w)
}

/// Some pair of `ps` starts at `w`.
pub open spec fn starts<T>(ps: Seq<(T, T)>, w: T) -> bool {
    exists|i: int| 0 <= i < ps.len() && ps[i].0 == w
}

/// Some pair of `ps` ends at `n`.
pub open spec fn ends<T>(ps: Seq<(T, T)>, n: T) -> bool {
    exists|i: int| 0 <= i < ps.len() && ps[i].1 == n
}

/// The model of a list of adjacent pairs.
pub open spec fn graph_of<T>(ps: Seq<(T, T)>) -> Graph<T> {
    (
        Set::new(|w: T| mentions(ps, w)),
        Map::new(|w: T| starts(ps, w), |w: T| Set::new(|n: T| ps.contains((w, n)))),
        Map::new(|n: T| ends(ps, n), |n: T| Set::new(|w: T| ps.contains((w, n)))),
    )
}

/// The model with one more adjacent pair.
pub open spec fn add_pair<T>(g: Graph<T>, w: T, n: T) -> Graph<T> {
    (g.0.insert(w).insert(n), index_add(g.1, w, n), index_add(g.2, n, w))
}

/// Two models merged: vocabularies and neighbour sets united.
pub open spec fn graph_union<T>(a: Graph<T>, b: Graph<T>) -> Graph<T> {
    (a.0.union(b.0), index_union(a.1, b.1), index_union(a.2, b.2))
}

/// The model of a corpus given as sentences of tokens.
pub open spec fn corpus_graph(ss: Seq<Seq<Seq<char>>>) -> Graph<Seq<char>> {
    graph_of(corpus_pairs(ss))
}

pub open spec fn sentences_view(ss: Seq<Vec<String>>) -> Seq<Seq<Seq<char>>> {
    ss.map_values(|s: Vec<String>| s@.map_values(|t: String| t@))
}

proof fn lemma_graph_push<T>(ps: Seq<(T, T)>, w: T, n: T)
    ensures
        graph_of(ps.push((w, n))) == add_pair(graph_of(ps), w, n),
{
    let qs = ps.push((w, n));
    let g = graph_of(ps);
    let h = graph_of(qs);
    let a = add_pair(g, w, n);
    let last = ps.len() as int;
    assert(qs[last] == (w, n));
    assert forall|x: T| mentions(qs, x) <==> (mentions(ps, x) || x == w || x == n) by {
        if mentions(qs, x) {
            let i = choose|i: int| 0 <= i < qs.len() && (qs[i].0 == x || qs[i].1 == x);
            if i < last {
                assert(qs[i] == ps[i]);
            }
        }
        if mentions(ps, x) {
            let i = choose|i: int| 0 <= i < ps.len() && (ps[i].0 == x || ps[i].1 == x);
            assert(qs[i] == ps[i]);
        }
    }
    assert(h.0 =~= a.0);
    assert forall|x: T| starts(qs, x) <==> (starts(ps, x) || x == w) by {
        if starts(qs, x) {
            let i = choose|i: int| 0 <= i < qs.len() && qs[i].0 == x;
            if i < last {
                assert(qs[i] == ps[i]);
            }
        }
        if starts(ps, x) {
            let i = choose|i: int| 0 <= i < ps.len() && ps[i].0 == x;
            assert(qs[i] == ps[i]);
        }
    }
    assert forall|x: T| ends(qs, x) <==> (ends(ps, x) || x == n) by {
        if ends(qs, x) {
            let i = choose|i: int| 0 <= i < qs.len() && qs[i].1 == x;
            if i < last {
                assert(qs[i] == ps[i]);
            }
        }
        if ends(ps, x) {
            let i = choose|i: int| 0 <= i < ps.len() && ps[i].1 == x;
            assert(qs[i] == ps[i]);
        }
    }
    assert forall|x: T, y: T| qs.contains((x, y)) <==> (ps.contains((x, y)) || (x == w && y == n)) by {
        if qs.contains((x, y)) {
            let i = choose|i: int| 0 <= i < qs.len() && qs[i] == (x, y);
            if i < last {
                assert(qs[i] == ps[i]);
            }
        }
        if ps.contains((x, y)) {
            let i = choose|i: int| 0 <= i < ps.len() && ps[i] == (x, y);
            assert(qs[i] == ps[i]);
        }
    }
    assert forall|x: T, y: T| ps.contains((x, y)) implies starts(ps, x) && ends(ps, y) by {
        let i = choose|i: int| 0 <= i < ps.len() && ps[i] == (x, y);
        assert(ps[i].0 == x && ps[i].1 == y);
    }
    assert forall|x: T| #[trigger] h.1.contains_key(x) implies h.1[x] == a.1[x] by {
        assert(h.1[x] =~= a.1[x]);
    }
    assert(h.1 =~= a.1);
    assert forall|x: T| #[trigger] h.2.contains_key(x) implies h.2[x] == a.2[x] by {
        assert(h.2[x] =~= a.2[x]);
    }
    assert(h.2 =~= a.2);
}

/// The table holds `s`, at an id that fits a `usize`.
pub open spec fn held(names: Seq<Seq<char>>, s: Seq<char>) -> bool {
    first_at(names, s, id_of(names, s)) && id_of(names, s) <= usize::MAX
}

/// The id of a token held.
pub open spec fn id_token(names: Seq<Seq<char>>, s: Seq<char>) -> usize {
    id_of(names, s) as usize
}

/// A set of tokens renamed to ids.
pub open spec fn id_set(names: Seq<Seq<char>>, b: Set<Seq<char>>) -> Set<usize> {
    Set::new(|x: usize| exists|s: Seq<char>| b.contains(s) && id_token(names, s) == x)
}

/// A neighbour index renamed to ids.
pub open spec fn id_index(names: Seq<Seq<char>>, m: Map<Seq<char>, Set<Seq<char>>>) -> Map<usize, Set<usize>> {
    rekey_map(m, |s: Seq<char>| id_token(names, s), |b: Set<Seq<char>>| id_set(names, b))
}

/// A model renamed to ids.
pub open spec fn id_graph(names: Seq<Seq<char>>, g: Graph<Seq<char>>) -> Graph<usize> {
    (id_set(names, g.0), id_index(names, g.1), id_index(names, g.2))
}

pub open spec fn set_held(names: Seq<Seq<char>>, b: Set<Seq<char>>) -> bool {
    forall|s: Seq<char>| #[trigger] b.contains(s) ==> held(names, s)
}

pub open spec fn index_held(names: Seq<Seq<char>>, m: Map<Seq<char>, Set<Seq<char>>>) -> bool {
    forall|k: Seq<char>| #[trigger] m.contains_key(k) ==> held(names, k) && set_held(names, m[k])
}

/// The table holds every token of the model.
pub open spec fn graph_held(names: Seq<Seq<char>>, g: Graph<Seq<char>>) -> bool {
    set_held(names, g.0) && index_held(names, g.1) && index_held(names, g.2)
}

/// What a table held, it holds at the same id once it has grown.
pub proof fn lemma_held_grows(names: Seq<Seq<char>>, more: Seq<Seq<char>>, s: Seq<char>)
    requires
        held(names, s),
        names.is_prefix_of(more),
    ensures
        held(more, s),
        id_of(more, s) == id_of(names, s),
{
    lemma_first_at_grows(names, more, s, id_of(names, s));
}

proof fn lemma_id_token_injective(names: Seq<Seq<char>>, d: Set<Seq<char>>)
    requires
        forall|s: Seq<char>| #[trigger] d.contains(s) ==> held(names, s),
    ensures
        injective_on(d, |s: Seq<char>| id_token(names, s)),
{
    assert forall|s1: Seq<char>, s2: Seq<char>| d.contains(s1) && d.contains(s2) && #[trigger] id_token(names, s1) == #[trigger] id_token(names, s2) implies s1 == s2 by {
        assert(names[id_of(names, s1)] == s1);
        assert(names[id_of(names, s2)] == s2);
    }
}

/// `new` is `old` with strings of `s` appended.
pub open spec fn grown_from(old: Seq<Seq<char>>, new: Seq<Seq<char>>, s: Set<Seq<char>>) -> bool {
    &&& old.is_prefix_of(new)
    &&& forall|i: int| old.len() <= i < new.len() ==> s.contains(#[trigger] new[i])
}

/// Every token of a neighbour index: its keys and their neighbours.
pub open spec fn neighbour_tokens(m: Map<Seq<char>, Set<Seq<char>>>) -> Set<Seq<char>> {
    Set::new(|s: Seq<char>| exists|k: Seq<char>| #[trigger] m.contains_key(k) && (k == s || m[k].contains(s)))
}

/// Every token of a model: its vocabulary, and every key and member of
/// both neighbour indexes.
pub open spec fn graph_tokens(g: Graph<Seq<char>>) -> Set<Seq<char>> {
    g.0.union(neighbour_tokens(g.1)).union(neighbour_tokens(g.2))
}

/// `s` holds at least `u32::MAX` distinct tokens, more than a table can
/// give ids to.
pub open spec fn too_many_tokens(s: Set<Seq<char>>) -> bool {
    exists|names: Seq<Seq<char>>|
        names.len() >= u32::MAX && names.no_duplicates() && forall|i: int| 0 <= i < names.len() ==> s.contains(#[trigger] names[i])
}

pub proof fn lemma_grown_trans(a: Seq<Seq<char>>, b: Seq<Seq<char>>, c: Seq<Seq<char>>, s: Set<Seq<char>>, t: Set<Seq<char>>)
    requires
        grown_from(a, b, s),
        grown_from(b, c, t),
    ensures
        grown_from(a, c, s.union(t)),
{
    lemma_prefix_trans(a, b, c);
    assert forall|i: int| a.len() <= i < c.len() implies s.union(t).contains(#[trigger] c[i]) by {
        if i < b.len() {
            assert(c[i] == b[i]);
        }
    }
}

pub proof fn lemma_grown_widen(a: Seq<Seq<char>>, b: Seq<Seq<char>>, s: Set<Seq<char>>, t: Set<Seq<char>>)
    requires
        grown_from(a, b, s),
        s.subset_of(t),
    ensures
        grown_from(a, b, t),
{
}

/// A table grown from an empty one, holding no string twice, with
/// `u32::MAX` strings of `s`, shows that `s` has too many tokens.
pub proof fn lemma_full_table(names: Seq<Seq<char>>, s: Set<Seq<char>>)
    requires
        grown_from(Seq::empty(), names, s),
        names.no_duplicates(),
        names.len() >= u32::MAX,
    ensures
        too_many_tokens(s),
{
    assert forall|i: int| 0 <= i < names.len() implies s.contains(#[trigger] names[i]) by {
    }
}

pub proof fn lemma_neighbour_tokens_within(g: Graph<Seq<char>>)
    ensures
        g.0.subset_of(graph_tokens(g)),
        neighbour_tokens(g.1).subset_of(graph_tokens(g)),
        neighbour_tokens(g.2).subset_of(graph_tokens(g)),
{
}

/// A table that holds a model holds each of its tokens.
pub proof fn lemma_graph_tokens_held(names: Seq<Seq<char>>, g: Graph<Seq<char>>, s: Seq<char>)
    requires
        graph_held(names, g),
        graph_tokens(g).contains(s),
    ensures
        names.contains(s),
{
    if g.0.contains(s) {
        assert(held(names, s));
    } else if neighbour_tokens(g.1).contains(s) {
        let k = choose|k: Seq<char>| #[trigger] g.1.contains_key(k) && (k == s || g.1[k].contains(s));
        assert(held(names, s));
    } else {
        let k = choose|k: Seq<char>| #[trigger] g.2.contains_key(k) && (k == s || g.2[k].contains(s));
        assert(held(names, s));
    }
    assert(names[id_of(names, s)] == s);
}

/// The tokens of a model are among those of a merge with it.
pub proof fn lemma_graph_tokens_union(a: Graph<Seq<char>>, b: Graph<Seq<char>>)
    ensures
        graph_tokens(a).subset_of(graph_tokens(graph_union(a, b))),
{
    let u = graph_union(a, b);
    assert forall|s: Seq<char>| graph_tokens(a).contains(s) implies graph_tokens(u).contains(s) by {
        if neighbour_tokens(a.1).contains(s) {
            let k = choose|k: Seq<char>| #[trigger] a.1.contains_key(k) && (k == s || a.1[k].contains(s));
            assert(u.1.contains_key(k));
        } else if neighbour_tokens(a.2).contains(s) {
            let k = choose|k: Seq<char>| #[trigger] a.2.contains_key(k) && (k == s || a.2[k].contains(s));
            assert(u.2.contains_key(k));
        }
    }
}

/// At least as many tokens in a larger set.
pub proof fn lemma_too_many_grows(s: Set<Seq<char>>, t: Set<Seq<char>>)
    requires
        too_many_tokens(s),
        s.subset_of(t),
    ensures
        too_many_tokens(t),
{
    let names = choose|names: Seq<Seq<char>>|
        names.len() >= u32::MAX && names.no_duplicates() && forall|i: int| 0 <= i < names.len() ==> s.contains(#[trigger] names[i]);
    assert forall|i: int| 0 <= i < names.len() implies t.contains(#[trigger] names[i]) by {
        assert(s.contains(names[i]));
    }
}

/// Interns one token, unless the table is full.
fn intern_one(interner: &mut Interner, s: &String) -> (r: Result<usize, InternError>)
    ensures
        r matches Err(e) ==> e is TableFull,
        interned(*old(interner)).is_prefix_of(interned(*final(interner))),
        interned(*old(interner)).no_duplicates() ==> interned(*final(interner)).no_duplicates(),
        r is Ok ==> held(interned(*final(interner)), s@),
        r is Err ==> interned(*final(interner)) == interned(*old(interner)),
        r is Err ==> interned(*old(interner)).len() >= u32::MAX,
        grown_from(interned(*old(interner)), interned(*final(interner)), set![s@]),
{
    let ghost before = interned(*interner);
    let id = match interner.get_or_intern(s.as_str()) {
        Ok(id) => id,
        Err(e) => {
            assert(before.take(before.len() as int) =~= before);
            return Err(e);
        },
    };
    proof {
        let after = interned(*interner);
        if before.contains(s@) {
            assert(before.take(before.len() as int) =~= before);
            lemma_id_of(before, s@, id as int);
            assert(after =~= before);
        } else {
            assert(after == before.push(s@));
            assert(first_at(after, s@, id as int)) by {
                assert forall|j: int| 0 <= j < id implies after[j] != s@ by {
                    assert(after[j] == before[j]);
                }
            }
            lemma_id_of(after, s@, id as int);
            assert(before.is_prefix_of(after)) by {
                assert(after.take(before.len() as int) =~= before);
            }
            if before.no_duplicates() {
                assert forall|i: int, j: int| 0 <= i < after.len() && 0 <= j < after.len() && i != j implies after[i] != after[j] by {
                    if i < before.len() && j < before.len() {
                    } else if i < before.len() {
                        assert(before.contains(before[i]));
                    } else {
                        assert(before.contains(before[j]));
                    }
                }
            }
        }
    }
    Ok(id)
}

/// Interns every token of a bucket.
fn intern_set(interner: &mut Interner, b: &Bucket<String>) -> (r: Result<(), InternError>)
    ensures
        r matches Err(e) ==> e is TableFull,
        interned(*old(interner)).is_prefix_of(interned(*final(interner))),
        interned(*old(interner)).no_duplicates() ==> interned(*final(interner)).no_duplicates(),
        r is Ok ==> set_held(interned(*final(interner)), b@),
        r is Err ==> interned(*final(interner)).len() >= u32::MAX,
        grown_from(interned(*old(interner)), interned(*final(interner)), b@),
{
    let items = b.items();
    let ghost start = interned(*interner);
    let mut i: usize = 0;
    while i < items.len()
        invariant
            i <= items.len(),
            items_view(items@) == b@,
            start == interned(*old(interner)),
            start.is_prefix_of(interned(*interner)),
            grown_from(start, interned(*interner), b@),
            start.no_duplicates() ==> interned(*interner).no_duplicates(),
            forall|j: int| 0 <= j < i ==> held(interned(*interner), #[trigger] items@[j]@),
        decreases items.len() - i,
    {
        let ghost before = interned(*interner);
        proof {
            crate::assoc::lemma_items_view_contains(items@, i as int);
        }
        match intern_one(interner, &items[i]) {
            Ok(_) => {},
            Err(e) => {
                proof {
                    lemma_prefix_trans(start, before, interned(*interner));
                    lemma_grown_trans(start, before, interned(*interner), b@, set![items@[i as int]@]);
                    assert(b@.union(set![items@[i as int]@]) =~= b@);
                }
                return Err(e);
            },
        }
        proof {
            lemma_grown_trans(start, before, interned(*interner), b@, set![items@[i as int]@]);
            assert(b@.union(set![items@[i as int]@]) =~= b@);
            assert forall|j: int| 0 <= j < i + 1 implies held(interned(*interner), #[trigger] items@[j]@) by {
                if j < i {
                    lemma_held_grows(before, interned(*interner), items@[j]@);
                }
            }
            assert(start.is_prefix_of(interned(*interner))) by {
                assert(interned(*interner).take(start.len() as int) =~= start) by {
                    assert forall|x: int| 0 <= x < start.len() implies interned(*interner)[x] == start[x] by {
                        assert(before[x] == start[x]);
                    }
                }
            }
        }
        i = i + 1;
    }
    proof {
        assert forall|s: Seq<char>| #[trigger] b@.contains(s) implies held(interned(*interner), s) by {
            let j = choose|j: int| 0 <= j < items@.len() && #[trigger] items@[j]@ == s;
        }
    }
    Ok(())
}

/// Interns every token of a neighbour index.
#[verifier::rlimit(40)]
fn intern_index(interner: &mut Interner, index: &Vec<(String, Bucket<String>)>) -> (r: Result<(), InternError>)
    requires
        unique_keys(pairs_view(index@)),
    ensures
        r matches Err(e) ==> e is TableFull,
        interned(*old(interner)).is_prefix_of(interned(*final(interner))),
        interned(*old(interner)).no_duplicates() ==> interned(*final(interner)).no_duplicates(),
        r is Ok ==> index_held(interned(*final(interner)), assoc_view(index@)),
        r is Err ==> interned(*final(interner)).len() >= u32::MAX,
        grown_from(interned(*old(interner)), interned(*final(interner)), neighbour_tokens(assoc_view(index@))),
{
    let ghost start = interned(*interner);
    let ghost p = pairs_view(index@);
    let mut i: usize = 0;
    while i < index.len()
        invariant
            i <= index.len(),
            p == pairs_view(index@),
            unique_keys(p),
            start == interned(*old(interner)),
            start.is_prefix_of(interned(*interner)),
            grown_from(start, interned(*interner), neighbour_tokens(to_map(p))),
            start.no_duplicates() ==> interned(*interner).no_duplicates(),
            forall|j: int| 0 <= j < i ==> held(interned(*interner), #[trigger] p[j].0) && set_held(interned(*interner), p[j].1),
        decreases index.len() - i,
    {
        let ghost before = interned(*interner);
        let ghost toks = neighbour_tokens(to_map(p));
        proof {
            lemma_to_map_index(p, i as int);
            assert(p[i as int].0 == index@[i as int].0@ && p[i as int].1 == index@[i as int].1@);
            assert(set![p[i as int].0].subset_of(toks)) by {
                assert(to_map(p).contains_key(p[i as int].0));
            }
            assert(p[i as int].1.subset_of(toks)) by {
                assert forall|x: Seq<char>| p[i as int].1.contains(x) implies toks.contains(x) by {
                    assert(to_map(p).contains_key(p[i as int].0));
                }
            }
        }
        match intern_one(interner, &index[i].0) {
            Ok(_) => {},
            Err(e) => {
                proof {
                    lemma_prefix_trans(start, before, interned(*interner));
                    lemma_grown_trans(start, before, interned(*interner), toks, set![p[i as int].0]);
                    assert(toks.union(set![p[i as int].0]) =~= toks);
                }
                return Err(e);
            },
        }
        let ghost middle = interned(*interner);
        proof {
            lemma_grown_trans(start, before, middle, toks, set![p[i as int].0]);
            assert(toks.union(set![p[i as int].0]) =~= toks);
        }
        match intern_set(interner, &index[i].1) {
            Ok(_) => {},
            Err(e) => {
                proof {
                    lemma_prefix_trans(start, before, middle);
                    lemma_prefix_trans(start, middle, interned(*interner));
                    lemma_grown_trans(start, middle, interned(*interner), toks, p[i as int].1);
                    assert(toks.union(p[i as int].1) =~= toks);
                }
                return Err(e);
            },
        }
        proof {
            lemma_grown_trans(start, middle, interned(*interner), toks, p[i as int].1);
            assert(toks.union(p[i as int].1) =~= toks);
            let now = interned(*interner);
            lemma_prefix_trans(before, middle, now);
            lemma_prefix_trans(start, before, now);
            let cur = p[i as int];
            assert(cur.0 == index@[i as int].0@ && cur.1 == index@[i as int].1@);
            lemma_held_grows(middle, now, cur.0);
            assert(set_held(now, cur.1));
            assert forall|j: int| 0 <= j < i + 1 implies held(now, #[trigger] p[j].0) && set_held(now, p[j].1) by {
                if j < i {
                    lemma_held_grows(before, now, p[j].0);
                    assert forall|s: Seq<char>| #[trigger] p[j].1.contains(s) implies held(now, s) by {
                        lemma_held_grows(before, now, s);
                    }
                }
            }
        }
        i = i + 1;
    }
    proof {
        assert(grown_from(start, interned(*interner), neighbour_tokens(assoc_view(index@))));
        assert forall|k: Seq<char>| #[trigger] assoc_view(index@).contains_key(k) implies held(interned(*interner), k) && set_held(interned(*interner), assoc_view(index@)[k]) by {
            let j = choose|j: int| 0 <= j < p.len() && #[trigger] p[j].0 == k;
            lemma_to_map_index(p, j);
        }
    }
    Ok(())
}

/// A bucket of held tokens renamed to ids.
fn ids_of_set(interner: &Interner, b: &Bucket<String>) -> (r: Bucket<usize>)
    requires
        set_held(interned(*interner), b@),
    ensures
        r@ == id_set(interned(*interner), b@),
{
    let ghost names = interned(*interner);
    let items = b.items();
    let mut r: Bucket<usize> = Bucket::new();
    let mut i: usize = 0;
    proof {
        assert(id_set(names, items_view(items@.take(0))) =~= Set::<usize>::empty());
    }
    while i < items.len()
        invariant
            i <= items.len(),
            names == interned(*interner),
            items_view(items@) == b@,
            set_held(names, b@),
            r@ == id_set(names, items_view(items@.take(i as int))),
        decreases items.len() - i,
    {
        let ghost s = items@[i as int]@;
        assert(b@.contains(s));
        let id = match interner.get(items[i].as_str()) {
            Some(id) => id,
            None => {
                assert(names[id_of(names, s)] == s);
                assert(false);
                0
            },
        };
        proof {
            lemma_id_of(names, s, id as int);
        }
        r.insert(id);
        proof {
            let before = items_view(items@.take(i as int));
            assert(items_view(items@.take(i + 1)) =~= before.insert(s)) by {
                assert forall|v: Seq<char>| #[trigger] items_view(items@.take(i + 1)).contains(v) <==> before.insert(s).contains(v) by {
                    if items_view(items@.take(i + 1)).contains(v) {
                        let j = choose|j: int| 0 <= j < i + 1 && #[trigger] items@.take(i + 1)[j]@ == v;
                        if j < i {
                            assert(items@.take(i as int)[j] == items@[j]);
                        }
                    }
                    if before.contains(v) {
                        let j = choose|j: int| 0 <= j < i && #[trigger] items@.take(i as int)[j]@ == v;
                        assert(items@.take(i + 1)[j] == items@[j]);
                    }
                    assert(items@.take(i + 1)[i as int] == items@[i as int]);
                }
            }
            assert forall|x: usize| #[trigger] id_set(names, before.insert(s)).contains(x) <==> id_set(names, before).insert(id).contains(x) by {
                if id_set(names, before.insert(s)).contains(x) {
                    let w = choose|w: Seq<char>| before.insert(s).contains(w) && id_token(names, w) == x;
                    if w != s {
                        assert(before.contains(w) && id_token(names, w) == x);
                    }
                }
                if id_set(names, before).contains(x) {
                    let w = choose|w: Seq<char>| before.contains(w) && id_token(names, w) == x;
                    assert(before.insert(s).contains(w) && id_token(names, w) == x);
                }
                assert(before.insert(s).contains(s) && id_token(names, s) == id);
            }
            assert(id_set(names, before.insert(s)) =~= id_set(names, before).insert(id));
        }
        i = i + 1;
    }
    proof {
        assert(items@.take(items.len() as int) =~= items@);
    }
    r
}

/// A neighbour index of held tokens renamed to ids.
fn ids_of_index(interner: &Interner, index: &Vec<(String, Bucket<String>)>) -> (r: Vec<(usize, Bucket<usize>)>)
    requires
        unique_keys(pairs_view(index@)),
        index_held(interned(*interner), assoc_view(index@)),
    ensures
        unique_keys(pairs_view(r@)),
        assoc_view(r@) == id_index(interned(*interner), assoc_view(index@)),
{
    let ghost names = interned(*interner);
    let ghost fk = |s: Seq<char>| id_token(names, s);
    let ghost fv = |b: Set<Seq<char>>| id_set(names, b);
    let ghost p = pairs_view(index@);
    let mut out: Vec<(usize, Bucket<usize>)> = Vec::new();
    let mut i: usize = 0;
    proof {
        lemma_prefix_empty(p);
        lemma_rekey_empty(fk, fv);
        assert(pairs_view(out@) =~= Seq::<(usize, Set<usize>)>::empty());
        assert(assoc_view(out@) =~= Map::<usize, Set<usize>>::empty());
        lemma_id_token_injective(names, to_map(p).dom());
    }
    while i < index.len()
        invariant
            i <= index.len(),
            p == pairs_view(index@),
            names == interned(*interner),
            fk == (|s: Seq<char>| id_token(names, s)),
            fv == (|b: Set<Seq<char>>| id_set(names, b)),
            unique_keys(p),
            unique_keys(pairs_view(out@)),
            index_held(names, to_map(p)),
            injective_on(to_map(p).dom(), fk),
            assoc_view(out@) == rekey_map(to_map(p.take(i as int)), fk, fv),
        decreases index.len() - i,
    {
        let ghost m = to_map(p.take(i as int));
        let ghost k = p[i as int].0;
        proof {
            lemma_prefix_step(p, i as int);
            lemma_to_map_index(p, i as int);
        }
        let id = match interner.get(index[i].0.as_str()) {
            Some(id) => id,
            None => {
                assert(names[id_of(names, k)] == k);
                assert(false);
                0
            },
        };
        proof {
            lemma_id_of(names, k, id as int);
        }
        let bucket = ids_of_set(interner, &index[i].1);
        proof {
            assert(injective_on(m.dom(), fk)) by {
                assert forall|a1: Seq<char>, a2: Seq<char>| m.dom().contains(a1) && m.dom().contains(a2) && #[trigger] fk(a1) == #[trigger] fk(a2) implies a1 == a2 by {
                    lemma_prefix_within(p, i as int, a1);
                    lemma_prefix_within(p, i as int, a2);
                }
            }
            assert forall|a: Seq<char>| m.contains_key(a) implies #[trigger] fk(a) != fk(k) by {
                lemma_prefix_within(p, i as int, a);
            }
            lemma_rekey_insert(m, k, p[i as int].1, fk, fv);
            assert(!rekey_map(m, fk, fv).contains_key(fk(k)));
        }
        let added = crate::assoc::assoc_insert_new(&mut out, id, bucket);
        assert(added);
        i = i + 1;
    }
    proof {
        lemma_prefix_all(p);
    }
    out
}

/// The adjacency model with tokens as strings: the form in which it is
/// stored and merged.
#[derive(Debug)]
pub struct LiteralConfig {
    vocabulary: Bucket<String>,
    forward: Vec<(String, Bucket<String>)>,
    backward: Vec<(String, Bucket<String>)>,
}

impl View for LiteralConfig {
    type V = Graph<Seq<char>>;

    closed spec fn view(&self) -> Graph<Seq<char>> {
        (self.vocabulary@, assoc_view(self.forward@), assoc_view(self.backward@))
    }
}

/// The adjacency model over token ids, on which discovery runs.
#[derive(Debug)]
pub struct Config {
    vocabulary: Bucket<usize>,
    forward: Vec<(usize, Bucket<usize>)>,
    backward: Vec<(usize, Bucket<usize>)>,
}

impl View for Config {
    type V = Graph<usize>;

    closed spec fn view(&self) -> Graph<usize> {
        (self.vocabulary@, assoc_view(self.forward@), assoc_view(self.backward@))
    }
}

impl LiteralConfig {
    #[verifier::type_invariant]
    closed spec fn inv(&self) -> bool {
        &&& unique_keys(pairs_view(self.forward@))
        &&& unique_keys(pairs_view(self.backward@))
    }

    /// The model of a corpus given as sentences of tokens: each token
    /// followed by the next one in its sentence.
    pub fn new(sentences: Vec<Vec<String>>) -> (r: LiteralConfig)
        ensures
            r@ == corpus_graph(sentences_view(sentences@)),
    {
        let ghost ss = sentences_view(sentences@);
        let mut r = LiteralConfig { vocabulary: Bucket::new(), forward: Vec::new(), backward: Vec::new() };
        proof {
            assert(ss.take(0) =~= Seq::<Seq<Seq<char>>>::empty());
            assert(corpus_pairs(ss.take(0)) =~= Seq::<(Seq<char>, Seq<char>)>::empty());
            assert(r@.0 =~= graph_of(corpus_pairs(ss.take(0))).0);
            assert(r@.1 =~= graph_of(corpus_pairs(ss.take(0))).1);
            assert(r@.2 =~= graph_of(corpus_pairs(ss.take(0))).2);
        }
        let mut s: usize = 0;
        while s < sentences.len()
            invariant
                s <= sentences.len(),
                ss == sentences_view(sentences@),
                r@ == graph_of(corpus_pairs(ss.take(s as int))),
            decreases sentences.len() - s,
        {
            let sentence = &sentences[s];
            let ghost t = ss[s as int];
            let ghost base = corpus_pairs(ss.take(s as int));
            proof {
                assert(t == sentence@.map_values(|x: String| x@));
                assert(ss.take(s + 1).drop_last() =~= ss.take(s as int));
                assert(t.take(0) =~= Seq::<Seq<char>>::empty());
                assert(sentence_pairs(t.take(0)) =~= Seq::<(Seq<char>, Seq<char>)>::empty());
                if t.len() >= 1 {
                    assert(sentence_pairs(t.take(1)) =~= Seq::<(Seq<char>, Seq<char>)>::empty());
                }
                assert(base + Seq::<(Seq<char>, Seq<char>)>::empty() =~= base);
            }
            let mut i: usize = 0;
            while i + 1 < sentence.len()
                invariant
                    s < sentences.len(),
                    sentence == &sentences[s as int],
                    ss == sentences_view(sentences@),
                    t == ss[s as int],
                    t == sentence@.map_values(|x: String| x@),
                    base == corpus_pairs(ss.take(s as int)),
                    t.len() == sentence.len(),
                    t.len() == 0 ==> i == 0,
                    t.len() > 0 ==> i < t.len(),
                    r@ == graph_of(base + sentence_pairs(t.take(if t.len() == 0 { 0 } else { i + 1 }))),
                decreases sentence.len() - i,
            {
                let ghost before = base + sentence_pairs(t.take(i + 1));
                let word = sentence[i].clone();
                let next = sentence[i + 1].clone();
                proof {
                    assert(t.take(i + 2).drop_last() =~= t.take(i + 1));
                    assert(sentence_pairs(t.take(i + 2)) == sentence_pairs(t.take(i + 1)).push((t[i as int], t[i + 1])));
                    assert(base + sentence_pairs(t.take(i + 2)) =~= before.push((word@, next@)));
                    lemma_graph_push(before, word@, next@);
                }
                r.add_pair(word, next);
                i = i + 1;
            }
            proof {
                let n: int = if t.len() == 0 { 0 } else { i + 1 };
                assert(t.take(n) =~= t);
                assert(corpus_pairs(ss.take(s + 1)) == corpus_pairs(ss.take(s + 1).drop_last()) + sentence_pairs(ss.take(s + 1).last()));
                assert(ss.take(s + 1).last() == t);
            }
            s = s + 1;
        }
        proof {
            assert(ss.take(sentences.len() as int) =~= ss);
        }
        r
    }

    /// The model of raw text, cleaned into sentences of tokens.
    pub fn from_raw(raw: String) -> (r: LiteralConfig)
        ensures
            r@ == corpus_graph(crate::text::clean(raw@)),
    {
        LiteralConfig::new(crate::text::clean_sentences(raw))
    }

    fn add_pair(&mut self, word: String, next: String)
        ensures
            final(self)@ == add_pair(old(self)@, word@, next@),
    {
        proof {
            use_type_invariant(&*self);
        }
        let mut vocabulary: Bucket<String> = Bucket::new();
        std::mem::swap(&mut vocabulary, &mut self.vocabulary);
        vocabulary.insert(word.clone());
        vocabulary.insert(next.clone());
        self.vocabulary = vocabulary;
        let mut forward: Vec<(String, Bucket<String>)> = Vec::new();
        std::mem::swap(&mut forward, &mut self.forward);
        index_insert(&mut forward, word.clone(), next.clone());
        self.forward = forward;
        let mut backward: Vec<(String, Bucket<String>)> = Vec::new();
        std::mem::swap(&mut backward, &mut self.backward);
        index_insert(&mut backward, next, word);
        self.backward = backward;
    }

    /// The same model over ids, with every token interned into the table
    /// first. Fails only where the table fills up.
    pub fn intern(&self, interner: &mut Interner) -> (r: Result<Config, InternError>)
        ensures
            r matches Err(e) ==> e is TableFull,
            interned(*old(interner)).is_prefix_of(interned(*final(interner))),
            interned(*old(interner)).no_duplicates() ==> interned(*final(interner)).no_duplicates(),
            r is Err ==> interned(*final(interner)).len() >= u32::MAX,
            grown_from(interned(*old(interner)), interned(*final(interner)), graph_tokens(self@)),
            r is Ok ==> graph_held(interned(*final(interner)), self@),
            r matches Ok(c) ==> c@ == id_graph(interned(*final(interner)), self@),
    {
        proof {
            use_type_invariant(self);
        }
        let ghost start = interned(*interner);
        let ghost toks = graph_tokens(self@);
        match intern_set(interner, &self.vocabulary) {
            Ok(_) => {},
            Err(e) => {
                proof {
                    lemma_grown_widen(start, interned(*interner), self.vocabulary@, toks);
                }
                return Err(e);
            },
        }
        let ghost n1 = interned(*interner);
        proof {
            lemma_grown_widen(start, n1, self.vocabulary@, toks);
            lemma_neighbour_tokens_within(self@);
        }
        match intern_index(interner, &self.forward) {
            Ok(_) => {},
            Err(e) => {
                proof {
                    lemma_prefix_trans(start, n1, interned(*interner));
                    lemma_grown_widen(n1, interned(*interner), neighbour_tokens(self@.1), toks);
                    lemma_grown_trans(start, n1, interned(*interner), toks, toks);
                    assert(toks.union(toks) =~= toks);
                }
                return Err(e);
            },
        }
        let ghost n2 = interned(*interner);
        proof {
            lemma_grown_widen(n1, n2, neighbour_tokens(self@.1), toks);
            lemma_grown_trans(start, n1, n2, toks, toks);
            assert(toks.union(toks) =~= toks);
        }
        match intern_index(interner, &self.backward) {
            Ok(_) => {},
            Err(e) => {
                proof {
                    lemma_prefix_trans(start, n1, n2);
                    lemma_prefix_trans(start, n2, interned(*interner));
                    lemma_grown_widen(n2, interned(*interner), neighbour_tokens(self@.2), toks);
                    lemma_grown_trans(start, n2, interned(*interner), toks, toks);
                }
                return Err(e);
            },
        }
        proof {
            lemma_grown_widen(n2, interned(*interner), neighbour_tokens(self@.2), toks);
            lemma_grown_trans(start, n2, interned(*interner), toks, toks);
        }
        let ghost n3 = interned(*interner);
        proof {
            lemma_prefix_trans(start, n1, n2);
            lemma_prefix_trans(start, n2, n3);
            lemma_prefix_trans(n1, n2, n3);
            assert(set_held(n1, self.vocabulary@));
            assert forall|s: Seq<char>| #[trigger] self.vocabulary@.contains(s) implies held(n3, s) by {
                lemma_held_grows(n1, n3, s);
            }
            let fw = assoc_view(self.forward@);
            assert(index_held(n2, fw));
            assert forall|k: Seq<char>| #[trigger] fw.contains_key(k) implies held(n3, k) && set_held(n3, fw[k]) by {
                lemma_held_grows(n2, n3, k);
                assert forall|s: Seq<char>| #[trigger] fw[k].contains(s) implies held(n3, s) by {
                    lemma_held_grows(n2, n3, s);
                }
            }
        }
        assert(set_held(n3, self.vocabulary@));
        assert(index_held(n3, assoc_view(self.forward@)));
        assert(index_held(n3, assoc_view(self.backward@)));
        let vocabulary = ids_of_set(interner, &self.vocabulary);
        let forward = ids_of_index(interner, &self.forward);
        let backward = ids_of_index(interner, &self.backward);
        Ok(Config { vocabulary, forward, backward })
    }

    /// The model with the given vocabulary and neighbour indexes, where
    /// neither index holds a token twice.
    pub fn from_parts(
        vocabulary: Bucket<String>,
        forward: Vec<(String, Bucket<String>)>,
        backward: Vec<(String, Bucket<String>)>,
    ) -> (r: Option<LiteralConfig>)
        ensures
            r is Some <==> unique_keys(pairs_view(forward@)) && unique_keys(pairs_view(backward@)),
            r matches Some(c) ==> c@ == (vocabulary@, assoc_view(forward@), assoc_view(backward@)),
    {
        if crate::assoc::assoc_unique(&forward) && crate::assoc::assoc_unique(&backward) {
            Some(LiteralConfig { vocabulary, forward, backward })
        } else {
            None
        }
    }

    /// The vocabulary.
    pub fn vocabulary(&self) -> (r: &Bucket<String>)
        ensures
            r@ == self@.0,
    {
        &self.vocabulary
    }

    /// For each token, the tokens that follow it somewhere.
    pub fn forward(&self) -> (r: &Vec<(String, Bucket<String>)>)
        ensures
            unique_keys(pairs_view(r@)),
            assoc_view(r@) == self@.1,
    {
        proof {
            use_type_invariant(self);
        }
        &self.forward
    }

    /// For each token, the tokens that precede it somewhere.
    pub fn backward(&self) -> (r: &Vec<(String, Bucket<String>)>)
        ensures
            unique_keys(pairs_view(r@)),
            assoc_view(r@) == self@.2,
    {
        proof {
            use_type_invariant(self);
        }
        &self.backward
    }

    /// A copy of the model.
    pub fn copy(&self) -> (r: LiteralConfig)
        ensures
            r@ == self@,
    {
        proof {
            use_type_invariant(self);
        }
        LiteralConfig {
            vocabulary: self.vocabulary.copy(),
            forward: crate::assoc::assoc_duplicate(&self.forward),
            backward: crate::assoc::assoc_duplicate(&self.backward),
        }
    }

    /// Equality of models.
    pub fn same(&self, other: &LiteralConfig) -> (r: bool)
        ensures
            r == (self@ == other@),
    {
        proof {
            use_type_invariant(self);
            use_type_invariant(other);
        }
        self.vocabulary.same(&other.vocabulary) && crate::assoc::assoc_eq(&self.forward, &other.forward)
            && crate::assoc::assoc_eq(&self.backward, &other.backward)
    }

    /// Merges another model into this one.
    pub fn merge(&mut self, other: LiteralConfig)
        ensures
            final(self)@ == graph_union(old(self)@, other@),
    {
        proof {
            use_type_invariant(&*self);
            use_type_invariant(&other);
        }
        let mut vocabulary: Bucket<String> = Bucket::new();
        std::mem::swap(&mut vocabulary, &mut self.vocabulary);
        vocabulary.union_with(&other.vocabulary);
        self.vocabulary = vocabulary;
        let mut forward: Vec<(String, Bucket<String>)> = Vec::new();
        std::mem::swap(&mut forward, &mut self.forward);
        index_merge(&mut forward, &other.forward);
        self.forward = forward;
        let mut backward: Vec<(String, Bucket<String>)> = Vec::new();
        std::mem::swap(&mut backward, &mut self.backward);
        index_merge(&mut backward, &other.backward);
        self.backward = backward;
    }
}

pub proof fn lemma_prefix_trans(a: Seq<Seq<char>>, b: Seq<Seq<char>>, c: Seq<Seq<char>>)
    requires
        a.is_prefix_of(b),
        b.is_prefix_of(c),
    ensures
        a.is_prefix_of(c),
{
    assert(c.take(a.len() as int) =~= a) by {
        assert forall|x: int| 0 <= x < a.len() implies c[x] == a[x] by {
            assert(b[x] == a[x]);
            assert(c[x] == b[x]);
        }
    }
}

/// Merging models is commutative, associative and idempotent.
pub proof fn lemma_graph_union_laws<T>(a: Graph<T>, b: Graph<T>, c: Graph<T>)
    ensures
        graph_union(a, b) == graph_union(b, a),
        graph_union(graph_union(a, b), c) == graph_union(a, graph_union(b, c)),
        graph_union(a, a) == a,
{
    assert(a.0.union(b.0) =~= b.0.union(a.0));
    assert(a.0.union(b.0).union(c.0) =~= a.0.union(b.0.union(c.0)));
    assert(a.0.union(a.0) =~= a.0);
    crate::bucket::lemma_union_commutative(a.1, b.1);
    crate::bucket::lemma_union_commutative(a.2, b.2);
    crate::bucket::lemma_union_associative(a.1, b.1, c.1);
    crate::bucket::lemma_union_associative(a.2, b.2, c.2);
    crate::bucket::lemma_union_idempotent(a.1);
    crate::bucket::lemma_union_idempotent(a.2);
}

impl Config {
    #[verifier::type_invariant]
    closed spec fn inv(&self) -> bool {
        &&& unique_keys(pairs_view(self.forward@))
        &&& unique_keys(pairs_view(self.backward@))
    }

    /// The tokens that follow `word` somewhere, if any do.
    pub fn project_forward(&self, word: usize) -> (r: Option<&Vec<usize>>)
        ensures
            r is None <==> !self@.1.contains_key(word),
            r matches Some(v) ==> items_view(v@) == self@.1[word] && crate::assoc::unique_items(v@),
    {
        proof {
            use_type_invariant(self);
        }
        neighbours(&self.forward, word)
    }

    /// The tokens that precede `word` somewhere, if any do.
    pub fn project_backward(&self, word: usize) -> (r: Option<&Vec<usize>>)
        ensures
            r is None <==> !self@.2.contains_key(word),
            r matches Some(v) ==> items_view(v@) == self@.2[word] && crate::assoc::unique_items(v@),
    {
        proof {
            use_type_invariant(self);
        }
        neighbours(&self.backward, word)
    }

    /// The model of raw text over ids of a fresh table, with that table.
    pub fn from_sentences(raw: String) -> (r: Result<(Config, Interner), InternError>)
        ensures
            r matches Err(e) ==> e is TableFull,
            r is Err ==> too_many_tokens(graph_tokens(corpus_graph(crate::text::clean(raw@)))),
            r matches Ok((c, t)) ==> interned(t).no_duplicates()
                && graph_held(interned(t), corpus_graph(crate::text::clean(raw@)))
                && c@ == id_graph(interned(t), corpus_graph(crate::text::clean(raw@))),
    {
        let mut interner = Interner::new();
        let literal = LiteralConfig::from_raw(raw);
        match literal.intern(&mut interner) {
            Ok(config) => Ok((config, interner)),
            Err(e) => {
                proof {
                    lemma_full_table(interned(interner), graph_tokens(literal@));
                }
                Err(e)
            },
        }
    }

    /// The vocabulary, each token once, in the order in which it is kept.
    pub fn iter(&self) -> (r: std::slice::Iter<'_, usize>)
        ensures
            vstd::std_specs::slice::into_iter_elts(r) == self.vocabulary_order(),
    {
        self.vocabulary().as_slice().iter()
    }

    /// The number of tokens that some token follows.
    pub fn forward_len(&self) -> (r: usize)
        ensures
            self@.1.dom().finite(),
            r == self@.1.dom().len(),
    {
        proof {
            use_type_invariant(self);
            lemma_to_map_len(pairs_view(self.forward@));
        }
        self.forward.len()
    }

    /// The number of tokens that some token precedes.
    pub fn backward_len(&self) -> (r: usize)
        ensures
            self@.2.dom().finite(),
            r == self@.2.dom().len(),
    {
        proof {
            use_type_invariant(self);
            lemma_to_map_len(pairs_view(self.backward@));
        }
        self.backward.len()
    }

    /// The order in which the vocabulary is kept.
    pub closed spec fn vocabulary_order(&self) -> Seq<usize> {
        self.vocabulary.order()
    }

    /// The vocabulary, each token once.
    pub fn vocabulary(&self) -> (r: &Vec<usize>)
        ensures
            r@ == self.vocabulary_order(),
            items_view(r@) == self@.0,
            crate::assoc::unique_items(r@),
    {
        self.vocabulary.items()
    }
}

fn neighbours(index: &Vec<(usize, Bucket<usize>)>, word: usize) -> (r: Option<&Vec<usize>>)
    requires
        unique_keys(pairs_view(index@)),
    ensures
        r is None <==> !assoc_view(index@).contains_key(word),
        r matches Some(v) ==> items_view(v@) == assoc_view(index@)[word] && crate::assoc::unique_items(v@),
{
    match assoc_find(index, &word) {
        Some(i) => {
            proof {
                lemma_to_map_index(pairs_view(index@), i as int);
            }
            Some(index[i].1.items())
        },
        None => None,
    }
}

impl PartialEq for LiteralConfig {
    fn eq(&self, other: &LiteralConfig) -> (r: bool) {
        self.same(other)
    }
}

impl vstd::std_specs::cmp::PartialEqSpecImpl for LiteralConfig {
    open spec fn obeys_eq_spec() -> bool {
        true
    }

    open spec fn eq_spec(&self, other: &LiteralConfig) -> bool {
        self@ == other@
    }
}

impl Clone for LiteralConfig {
    fn clone(&self) -> (r: LiteralConfig)
        ensures
            r@ == self@,
    {
        self.copy()
    }
}

} // verus!

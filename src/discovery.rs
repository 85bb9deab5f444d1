//! Discovery: every square rooted at a token, found by walking a directed
//! four-cycle a -> b -> d <- c <- a through the adjacency model.
use crate::assoc::items_view;
use crate::bucket::Bucket;
use crate::config::{Config, Graph};
use crate::ortho::{square, Layer, Ortho};
use crate::bucket::{index_within, lemma_within_union};
use crate::repo::{
    add_set_model, lemma_add_set_empty, origin_index_of, origin_key, subtract_model, OrthoIndex, Repo,
};
use vstd::prelude::*;

verus! {

/// `y` is among the neighbours of `x` in `m`.
pub open spec fn linked(m: Map<usize, Set<usize>>, x: usize, y: usize) -> bool {
    m.contains_key(x) && m[x].contains(y)
}

/// The walk a -> b -> d, back from d to c and from c to a, with c and b
/// distinct.
pub open spec fn closes(g: Graph<usize>, a: usize, b: usize, c: usize, d: usize) -> bool {
    &&& linked(g.1, a, b)
    &&& linked(g.1, b, d)
    &&& linked(g.2, d, c)
    &&& b != c
    &&& linked(g.2, c, a)
}

/// The squares with corners c closing a, b, d.
pub open spec fn squares_via(g: Graph<usize>, a: usize, b: usize, d: usize) -> Set<Seq<Layer>> {
    Set::new(|o: Seq<Layer>| exists|c: usize| linked(g.2, d, c) && b != c && linked(g.2, c, a) && o == square(a, b, c, d))
}

/// The squares through a and b.
pub open spec fn squares_from(g: Graph<usize>, a: usize, b: usize) -> Set<Seq<Layer>> {
    Set::new(|o: Seq<Layer>| exists|d: usize| linked(g.1, b, d) && #[trigger] squares_via(g, a, b, d).contains(o))
}

/// Every square rooted at `a`.
pub open spec fn squares_at(g: Graph<usize>, a: usize) -> Set<Seq<Layer>> {
    Set::new(|o: Seq<Layer>| exists|b: usize| linked(g.1, a, b) && #[trigger] squares_from(g, a, b).contains(o))
}

pub proof fn lemma_squares_at(g: Graph<usize>, a: usize, o: Seq<Layer>)
    ensures
        squares_at(g, a).contains(o) <==> exists|b: usize, c: usize, d: usize| closes(g, a, b, c, d) && o == square(a, b, c, d),
{
    if squares_at(g, a).contains(o) {
        let b = choose|b: usize| linked(g.1, a, b) && #[trigger] squares_from(g, a, b).contains(o);
        let d = choose|d: usize| linked(g.1, b, d) && #[trigger] squares_via(g, a, b, d).contains(o);
        let c = choose|c: usize| linked(g.2, d, c) && b != c && linked(g.2, c, a) && o == square(a, b, c, d);
        assert(closes(g, a, b, c, d));
    }
    if exists|b: usize, c: usize, d: usize| closes(g, a, b, c, d) && o == square(a, b, c, d) {
        let (b, c, d) = choose|b: usize, c: usize, d: usize| closes(g, a, b, c, d) && o == square(a, b, c, d);
        assert(squares_via(g, a, b, d).contains(o));
        assert(squares_from(g, a, b).contains(o));
    }
}

/// Whether `a` precedes `c` somewhere.
fn precedes(config: &Config, a: usize, c: usize) -> (r: bool)
    ensures
        r == linked(config@.2, c, a),
{
    match config.project_backward(c) {
        None => false,
        Some(preds) => {
            let mut i: usize = 0;
            while i < preds.len()
                invariant
                    i <= preds.len(),
                    config@.2.contains_key(c),
                    items_view(preds@) == config@.2[c],
                    forall|j: int| 0 <= j < i ==> preds@[j] != a,
                decreases preds.len() - i,
            {
                if preds[i] == a {
                    proof {
                        crate::assoc::lemma_items_view_contains(preds@, i as int);
                    }
                    return true;
                }
                i = i + 1;
            }
            proof {
                if config@.2[c].contains(a) {
                    let j = choose|j: int| 0 <= j < preds@.len() && #[trigger] preds@[j]@ == a;
                }
            }
            false
        },
    }
}

/// Adds the squares through a, b and d.
fn add_squares_via(config: &Config, a: usize, b: usize, d: usize, found: &mut Bucket<Ortho>)
    ensures
        final(found)@ == old(found)@.union(squares_via(config@, a, b, d)),
{
    let g = Ghost(config@);
    match config.project_backward(d) {
        None => {
            assert(squares_via(g@, a, b, d) =~= Set::<Seq<Layer>>::empty());
            assert(old(found)@.union(Set::<Seq<Layer>>::empty()) =~= old(found)@);
        },
        Some(cs) => {
            let ghost start = found@;
            let mut i: usize = 0;
            assert(start.union(Set::new(|o: Seq<Layer>| exists|j: int| 0 <= j < 0 && linked(g@.2, d, cs@[j]) && b != cs@[j] && linked(g@.2, cs@[j], a) && o == square(a, b, cs@[j], d))) =~= start);
            while i < cs.len()
                invariant
                    i <= cs.len(),
                    g@ == config@,
                    items_view(cs@) == g@.2[d],
                    g@.2.contains_key(d),
                    found@ == start.union(Set::new(|o: Seq<Layer>| exists|j: int| 0 <= j < i && linked(g@.2, d, cs@[j]) && b != cs@[j] && linked(g@.2, cs@[j], a) && o == square(a, b, cs@[j], d))),
                decreases cs.len() - i,
            {
                let c = cs[i];
                let ghost prev = Set::new(|o: Seq<Layer>| exists|j: int| 0 <= j < i && linked(g@.2, d, cs@[j]) && b != cs@[j] && linked(g@.2, cs@[j], a) && o == square(a, b, cs@[j], d));
                let ghost next = Set::new(|o: Seq<Layer>| exists|j: int| 0 <= j < i + 1 && linked(g@.2, d, cs@[j]) && b != cs@[j] && linked(g@.2, cs@[j], a) && o == square(a, b, cs@[j], d));
                proof {
                    crate::assoc::lemma_items_view_contains(cs@, i as int);
                }
                if b != c && precedes(config, a, c) {
                    found.insert(Ortho::new(a, b, c, d));
                    proof {
                        assert(next =~= prev.insert(square(a, b, c, d)));
                        assert(found@ =~= start.union(next));
                    }
                } else {
                    proof {
                        assert(next =~= prev) by {
                            assert forall|o: Seq<Layer>| #[trigger] next.contains(o) implies prev.contains(o) by {
                                let j = choose|j: int| 0 <= j < i + 1 && linked(g@.2, d, cs@[j]) && b != cs@[j] && linked(g@.2, cs@[j], a) && o == square(a, b, cs@[j], d);
                            }
                        }
                    }
                }
                i = i + 1;
            }
            proof {
                let done = Set::new(|o: Seq<Layer>| exists|j: int| 0 <= j < cs.len() && linked(g@.2, d, cs@[j]) && b != cs@[j] && linked(g@.2, cs@[j], a) && o == square(a, b, cs@[j], d));
                assert(done =~= squares_via(g@, a, b, d)) by {
                    assert forall|o: Seq<Layer>| #[trigger] squares_via(g@, a, b, d).contains(o) implies done.contains(o) by {
                        let c = choose|c: usize| linked(g@.2, d, c) && b != c && linked(g@.2, c, a) && o == square(a, b, c, d);
                        let j = choose|j: int| 0 <= j < cs@.len() && #[trigger] cs@[j]@ == c;
                    }
                }
            }
        },
    }
}

/// Adds the squares through a and b.
fn add_squares_from(config: &Config, a: usize, b: usize, found: &mut Bucket<Ortho>)
    ensures
        final(found)@ == old(found)@.union(squares_from(config@, a, b)),
{
    let g = Ghost(config@);
    match config.project_forward(b) {
        None => {
            assert(squares_from(g@, a, b) =~= Set::<Seq<Layer>>::empty());
            assert(old(found)@.union(Set::<Seq<Layer>>::empty()) =~= old(found)@);
        },
        Some(ds) => {
            let ghost start = found@;
            let mut i: usize = 0;
            assert(start.union(Set::new(|o: Seq<Layer>| exists|j: int| 0 <= j < 0 && #[trigger] squares_via(g@, a, b, ds@[j]).contains(o))) =~= start);
            while i < ds.len()
                invariant
                    i <= ds.len(),
                    g@ == config@,
                    items_view(ds@) == g@.1[b],
                    g@.1.contains_key(b),
                    found@ == start.union(Set::new(|o: Seq<Layer>| exists|j: int| 0 <= j < i && #[trigger] squares_via(g@, a, b, ds@[j]).contains(o))),
                decreases ds.len() - i,
            {
                let ghost prev = Set::new(|o: Seq<Layer>| exists|j: int| 0 <= j < i && #[trigger] squares_via(g@, a, b, ds@[j]).contains(o));
                let ghost next = Set::new(|o: Seq<Layer>| exists|j: int| 0 <= j < i + 1 && #[trigger] squares_via(g@, a, b, ds@[j]).contains(o));
                add_squares_via(config, a, b, ds[i], found);
                proof {
                    assert(next =~= prev.union(squares_via(g@, a, b, ds@[i as int]))) by {
                        assert forall|o: Seq<Layer>| #[trigger] next.contains(o) implies prev.union(squares_via(g@, a, b, ds@[i as int])).contains(o) by {
                            let j = choose|j: int| 0 <= j < i + 1 && #[trigger] squares_via(g@, a, b, ds@[j]).contains(o);
                        }
                    }
                    assert(found@ =~= start.union(next));
                }
                i = i + 1;
            }
            proof {
                let done = Set::new(|o: Seq<Layer>| exists|j: int| 0 <= j < ds.len() && #[trigger] squares_via(g@, a, b, ds@[j]).contains(o));
                assert(done =~= squares_from(g@, a, b)) by {
                    assert forall|o: Seq<Layer>| #[trigger] squares_from(g@, a, b).contains(o) implies done.contains(o) by {
                        let d = choose|d: usize| linked(g@.1, b, d) && #[trigger] squares_via(g@, a, b, d).contains(o);
                        let j = choose|j: int| 0 <= j < ds@.len() && #[trigger] ds@[j]@ == d;
                    }
                    assert forall|o: Seq<Layer>| #[trigger] done.contains(o) implies squares_from(g@, a, b).contains(o) by {
                        let j = choose|j: int| 0 <= j < ds.len() && #[trigger] squares_via(g@, a, b, ds@[j]).contains(o);
                        crate::assoc::lemma_items_view_contains(ds@, j);
                    }
                }
            }
        },
    }
}

/// The squares rooted at `a` that the repository does not cover yet: those
/// whose shape signature and origin have no bucket.
pub fn create(config: &Config, repo: &Repo, a: usize) -> (r: Bucket<Ortho>)
    ensures
        r@ == subtract_model(repo@.0, squares_at(config@, a)),
{
    let g = Ghost(config@);
    let mut found: Bucket<Ortho> = Bucket::new();
    match config.project_forward(a) {
        None => {
            assert(squares_at(g@, a) =~= Set::<Seq<Layer>>::empty());
        },
        Some(bs) => {
            let mut i: usize = 0;
            assert(found@ =~= Set::new(|o: Seq<Layer>| exists|j: int| 0 <= j < 0 && #[trigger] squares_from(g@, a, bs@[j]).contains(o)));
            while i < bs.len()
                invariant
                    i <= bs.len(),
                    g@ == config@,
                    items_view(bs@) == g@.1[a],
                    g@.1.contains_key(a),
                    found@ == Set::new(|o: Seq<Layer>| exists|j: int| 0 <= j < i && #[trigger] squares_from(g@, a, bs@[j]).contains(o)),
                decreases bs.len() - i,
            {
                let ghost prev = found@;
                let ghost next = Set::new(|o: Seq<Layer>| exists|j: int| 0 <= j < i + 1 && #[trigger] squares_from(g@, a, bs@[j]).contains(o));
                add_squares_from(config, a, bs[i], &mut found);
                proof {
                    assert(next =~= prev.union(squares_from(g@, a, bs@[i as int]))) by {
                        assert forall|o: Seq<Layer>| #[trigger] next.contains(o) implies prev.union(squares_from(g@, a, bs@[i as int])).contains(o) by {
                            let j = choose|j: int| 0 <= j < i + 1 && #[trigger] squares_from(g@, a, bs@[j]).contains(o);
                        }
                    }
                }
                i = i + 1;
            }
            proof {
                assert(found@ =~= squares_at(g@, a)) by {
                    assert forall|o: Seq<Layer>| #[trigger] squares_at(g@, a).contains(o) implies found@.contains(o) by {
                        let b = choose|b: usize| linked(g@.1, a, b) && #[trigger] squares_from(g@, a, b).contains(o);
                        let j = choose|j: int| 0 <= j < bs@.len() && #[trigger] bs@[j]@ == b;
                    }
                    assert forall|o: Seq<Layer>| #[trigger] found@.contains(o) implies squares_at(g@, a).contains(o) by {
                        let j = choose|j: int| 0 <= j < bs.len() && #[trigger] squares_from(g@, a, bs@[j]).contains(o);
                        crate::assoc::lemma_items_view_contains(bs@, j);
                    }
                }
            }
        },
    }
    repo.set_subract(found)
}

/// One step of a discovery pass: the squares rooted at `a` that the
/// repository does not cover yet, added to it.
pub open spec fn atoms_step(g: Graph<usize>, r: (OrthoIndex, OrthoIndex), a: usize) -> (OrthoIndex, OrthoIndex) {
    add_set_model(r, subtract_model(r.0, squares_at(g, a)))
}

/// A discovery pass over the tokens `vs`, in order.
pub open spec fn atoms_model(g: Graph<usize>, r: (OrthoIndex, OrthoIndex), vs: Seq<usize>) -> (OrthoIndex, OrthoIndex)
    decreases vs.len(),
{
    if vs.len() == 0 {
        r
    } else {
        atoms_step(g, atoms_model(g, r, vs.drop_last()), vs.last())
    }
}

/// A discovery pass: for each token of the vocabulary in turn, adds the
/// squares rooted there that the repository does not cover yet.
pub fn make_atoms(config: &Config, repo: &mut Repo)
    ensures
        final(repo)@ == atoms_model(config@, old(repo)@, config.vocabulary_order()),
        crate::repo::consistent(old(repo)@) ==> crate::repo::consistent(final(repo)@),
{
    let ghost start = repo@;
    let vocabulary = config.vocabulary();
    let mut i: usize = 0;
    while i < vocabulary.len()
        invariant
            i <= vocabulary.len(),
            vocabulary@ == config.vocabulary_order(),
            repo@ == atoms_model(config@, start, vocabulary@.take(i as int)),
            start == old(repo)@,
            crate::repo::consistent(start) ==> crate::repo::consistent(repo@),
        decreases vocabulary.len() - i,
    {
        let found = create(config, repo, vocabulary[i]);
        repo.add_all(&found);
        proof {
            assert(vocabulary@.take(i + 1).drop_last() =~= vocabulary@.take(i as int));
        }
        i = i + 1;
    }
    proof {
        assert(vocabulary@.take(vocabulary.len() as int) =~= vocabulary@);
    }
}

/// The repository has a bucket for the signature and origin of every
/// square rooted at a token of `vs`.
pub open spec fn covers(r: OrthoIndex, g: Graph<usize>, vs: Seq<usize>) -> bool {
    forall|j: int, o: Seq<Layer>| 0 <= j < vs.len() && #[trigger] squares_at(g, vs[j]).contains(o) ==> r.contains_key(origin_key(o))
}

proof fn lemma_step_covers(g: Graph<usize>, r: (OrthoIndex, OrthoIndex), a: usize, o: Seq<Layer>)
    ensures
        squares_at(g, a).contains(o) ==> atoms_step(g, r, a).0.contains_key(origin_key(o)),
        index_within(r.0, atoms_step(g, r, a).0),
        index_within(r.1, atoms_step(g, r, a).1),
{
    let s = subtract_model(r.0, squares_at(g, a));
    lemma_within_union(r.0, origin_index_of(s));
    lemma_within_union(r.1, crate::repo::hops_index_of(s));
    if squares_at(g, a).contains(o) && !r.0.contains_key(origin_key(o)) {
        assert(s.contains(o));
        assert(origin_index_of(s).contains_key(origin_key(o)));
    }
}

proof fn lemma_pass_covers(g: Graph<usize>, r: (OrthoIndex, OrthoIndex), vs: Seq<usize>)
    ensures
        covers(atoms_model(g, r, vs).0, g, vs),
    decreases vs.len(),
{
    if vs.len() > 0 {
        let pre = vs.drop_last();
        lemma_pass_covers(g, r, pre);
        let p = atoms_model(g, r, pre);
        let q = atoms_model(g, r, vs);
        assert forall|j: int, o: Seq<Layer>| 0 <= j < vs.len() && #[trigger] squares_at(g, vs[j]).contains(o) implies q.0.contains_key(origin_key(o)) by {
            lemma_step_covers(g, p, vs.last(), o);
            if j < pre.len() {
                assert(pre[j] == vs[j]);
                assert(squares_at(g, pre[j]).contains(o));
                assert(p.0.contains_key(origin_key(o)));
            }
        }
    }
}

proof fn lemma_pass_idle(g: Graph<usize>, r: (OrthoIndex, OrthoIndex), vs: Seq<usize>)
    requires
        covers(r.0, g, vs),
    ensures
        atoms_model(g, r, vs) == r,
    decreases vs.len(),
{
    if vs.len() > 0 {
        let pre = vs.drop_last();
        assert(covers(r.0, g, pre)) by {
            assert forall|j: int, o: Seq<Layer>| 0 <= j < pre.len() && #[trigger] squares_at(g, pre[j]).contains(o) implies r.0.contains_key(origin_key(o)) by {
                assert(pre[j] == vs[j]);
                assert(squares_at(g, vs[j]).contains(o));
            }
        }
        lemma_pass_idle(g, r, pre);
        let a = vs.last();
        assert(subtract_model(r.0, squares_at(g, a)) =~= Set::<Seq<Layer>>::empty()) by {
            assert forall|o: Seq<Layer>| !#[trigger] subtract_model(r.0, squares_at(g, a)).contains(o) by {
                if squares_at(g, a).contains(o) {
                    assert(squares_at(g, vs[vs.len() - 1]).contains(o));
                }
            }
        }
        lemma_add_set_empty(r);
    }
}

/// Discovering twice finds nothing new: after a pass over the tokens `vs`,
/// every square rooted at one of them is subtracted away, and a second pass
/// over the same tokens leaves the repository as the first one left it.
pub proof fn lemma_second_pass_finds_nothing(g: Graph<usize>, r: (OrthoIndex, OrthoIndex), vs: Seq<usize>)
    ensures
        forall|j: int| 0 <= j < vs.len() ==> subtract_model(atoms_model(g, r, vs).0, #[trigger] squares_at(g, vs[j]))
            == Set::<Seq<Layer>>::empty(),
        atoms_model(g, atoms_model(g, r, vs), vs) == atoms_model(g, r, vs),
{
    let first = atoms_model(g, r, vs);
    lemma_pass_covers(g, r, vs);
    lemma_pass_idle(g, first, vs);
    assert forall|j: int| 0 <= j < vs.len() implies subtract_model(first.0, #[trigger] squares_at(g, vs[j])) == Set::<Seq<Layer>>::empty() by {
        assert(subtract_model(first.0, squares_at(g, vs[j])) =~= Set::<Seq<Layer>>::empty()) by {
            assert forall|o: Seq<Layer>| !#[trigger] subtract_model(first.0, squares_at(g, vs[j])).contains(o) by {
                if squares_at(g, vs[j]).contains(o) {
                    assert(first.0.contains_key(origin_key(o)));
                }
            }
        }
    }
}

} // verus!

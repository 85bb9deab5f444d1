//! One discovery run: the model of new text, merged with what was stored
//! before, interned afresh, and searched again for orthos.
use crate::bucket::{bucket_at, index_within, lemma_within_trans, lemma_within_union};
use crate::config::{
    grown_from, lemma_full_table, lemma_graph_tokens_held, lemma_graph_tokens_union, lemma_too_many_grows, too_many_tokens, graph_tokens,
    corpus_graph, graph_held, graph_union, held, id_graph, id_token, Graph, LiteralConfig,
};
use crate::discovery::{atoms_model, closes, lemma_squares_at, make_atoms, squares_at};
use crate::interner::{id_of, interned, lemma_id_of_held, InternError, Interner};
use crate::multiset::{bag_add, id_bag, ids_known};
use crate::ortho::{
    bag_of, hop_of, id_layer, id_ortho, origin_of, ortho_ids_known, ortho_known, square, Layer,
    LiteralLayer,
};
use crate::repo::{
    index_tokens, lemma_index_known_from_tokens, lemma_index_tokens_union, lemma_named_index_tokens,
    add_set_model, hop_keys, hops_index_of, id_repo_index, index_ids_known, index_known,
    lemma_literal_index_round_trip, lemma_name_index_within, merge_model, name_repo_index,
    origin_index_of, origin_key, subtract_model, LiteralIndex, LiteralRepo, OrthoIndex,
};
use vstd::prelude::*;

verus! {

/// A discovery pass over a model renamed through `names`, visiting its
/// tokens in `order`, from the repository `start`; the result in literal
/// form.
pub open spec fn pass_result(
    g: Graph<Seq<char>>,
    start: (LiteralIndex, LiteralIndex),
    names: Seq<Seq<char>>,
    order: Seq<usize>,
) -> (LiteralIndex, LiteralIndex) {
    let r = atoms_model(
        id_graph(names, g),
        (id_repo_index(names, start.0), id_repo_index(names, start.1)),
        order,
    );
    (name_repo_index(names, r.0), name_repo_index(names, r.1))
}

/// `l` is what a discovery pass over `g` from `start` gives, under some
/// table that holds every token of `g` once, visiting every token.
pub open spec fn is_pass(
    g: Graph<Seq<char>>,
    start: (LiteralIndex, LiteralIndex),
    l: (LiteralIndex, LiteralIndex),
) -> bool {
    exists|names: Seq<Seq<char>>, order: Seq<usize>|
        names.no_duplicates() && graph_held(names, g) && crate::assoc::items_view(order) == id_graph(names, g).0
            && order.no_duplicates() && l == #[trigger] pass_result(g, start, names, order)
}

/// The empty literal repository.
pub open spec fn no_orthos() -> (LiteralIndex, LiteralIndex) {
    (LiteralIndex::empty(), LiteralIndex::empty())
}

/// Every id of the model is below `n`.
pub open spec fn graph_ids_below(g: Graph<usize>, n: nat) -> bool {
    &&& forall|x: usize| #[trigger] g.1.contains_key(x) ==> x < n && forall|y: usize| #[trigger] g.1[x].contains(y) ==> y < n
    &&& forall|x: usize| #[trigger] g.2.contains_key(x) ==> x < n && forall|y: usize| #[trigger] g.2[x].contains(y) ==> y < n
}

proof fn lemma_id_token_below(names: Seq<Seq<char>>, s: Seq<char>)
    requires
        names.contains(s),
        names.len() <= usize::MAX,
    ensures
        id_token(names, s) < names.len(),
        id_of(names, s) == id_token(names, s),
{
    let i = choose|i: int| 0 <= i < names.len() && names[i] == s;
    lemma_id_of_held(names, s, i);
}

proof fn lemma_id_graph_below(names: Seq<Seq<char>>, g: Graph<Seq<char>>)
    requires
        graph_held(names, g),
        names.len() <= usize::MAX,
    ensures
        graph_ids_below(id_graph(names, g), names.len()),
{
    let h = id_graph(names, g);
    assert forall|x: usize| #[trigger] h.1.contains_key(x) implies x < names.len() && forall|y: usize| #[trigger] h.1[x].contains(y) ==> y < names.len() by {
        let fk = |s: Seq<char>| id_token(names, s);
        let k = choose|k: Seq<char>| g.1.contains_key(k) && #[trigger] fk(k) == x;
        assert(held(names, k));
        lemma_id_token_below(names, k);
        let k2 = choose|k2: Seq<char>| g.1.contains_key(k2) && #[trigger] fk(k2) == x;
        assert forall|y: usize| #[trigger] h.1[x].contains(y) implies y < names.len() by {
            let s = choose|s: Seq<char>| g.1[k2].contains(s) && id_token(names, s) == y;
            assert(held(names, s));
            lemma_id_token_below(names, s);
        }
    }
    assert forall|x: usize| #[trigger] h.2.contains_key(x) implies x < names.len() && forall|y: usize| #[trigger] h.2[x].contains(y) ==> y < names.len() by {
        let fk = |s: Seq<char>| id_token(names, s);
        let k = choose|k: Seq<char>| g.2.contains_key(k) && #[trigger] fk(k) == x;
        assert(held(names, k));
        lemma_id_token_below(names, k);
        let k2 = choose|k2: Seq<char>| g.2.contains_key(k2) && #[trigger] fk(k2) == x;
        assert forall|y: usize| #[trigger] h.2[x].contains(y) implies y < names.len() by {
            let s = choose|s: Seq<char>| g.2[k2].contains(s) && id_token(names, s) == y;
            assert(held(names, s));
            lemma_id_token_below(names, s);
        }
    }
}

proof fn lemma_id_ortho_below(names: Seq<Seq<char>>, l: Seq<LiteralLayer>)
    requires
        ortho_known(l, names),
        names.len() <= usize::MAX,
    ensures
        ortho_ids_known(id_ortho(l, names), names),
{
    let o = id_ortho(l, names);
    assert forall|i: int, k: Map<usize, usize>| 0 <= i < o.len() && #[trigger] o[i].contains_key(k) implies ids_known(k.dom(), names) && o[i][k] < names.len() by {
        let fk = |a: Map<Seq<char>, usize>| id_bag(a, names);
        let a = choose|a: Map<Seq<char>, usize>| l[i].contains_key(a) && #[trigger] fk(a) == k;
        assert(o[i] == id_layer(l[i], names));
        assert forall|x: usize| k.dom().contains(x) implies x < names.len() by {
            let gk = |s: Seq<char>| id_of(names, s) as usize;
            let s = choose|s: Seq<char>| a.contains_key(s) && #[trigger] gk(s) == x;
            assert(names.contains(s));
            lemma_id_token_below(names, s);
        }
        assert(names.contains(l[i][a]));
        lemma_id_token_below(names, l[i][a]);
    }
}

/// Renaming a literal index whose tokens a table holds gives ids that the
/// table holds.
proof fn lemma_id_index_below(names: Seq<Seq<char>>, m: LiteralIndex)
    requires
        index_known(names, m),
        names.len() <= usize::MAX,
    ensures
        index_ids_known(names, id_repo_index(names, m)),
{
    let r = id_repo_index(names, m);
    assert forall|k: (Map<usize, usize>, usize)| #[trigger] r.contains_key(k) implies k.1 < names.len()
        && forall|o: Seq<Layer>| #[trigger] r[k].contains(o) ==> ortho_ids_known(o, names) by {
        let fk = |x: (Map<usize, usize>, Seq<char>)| (x.0, id_of(names, x.1) as usize);
        let a = choose|a: (Map<usize, usize>, Seq<char>)| m.contains_key(a) && #[trigger] fk(a) == k;
        lemma_id_token_below(names, a.1);
        assert forall|o: Seq<Layer>| #[trigger] r[k].contains(o) implies ortho_ids_known(o, names) by {
            let l = choose|l: Seq<LiteralLayer>| m[a].contains(l) && id_ortho(l, names) == o;
            lemma_id_ortho_below(names, l);
        }
    }
}

proof fn lemma_square_below(a: usize, b: usize, c: usize, d: usize, names: Seq<Seq<char>>)
    requires
        a < names.len(),
        b < names.len(),
        c < names.len(),
        d < names.len(),
    ensures
        ortho_ids_known(square(a, b, c, d), names),
        origin_of(square(a, b, c, d)) == a,
        forall|h: usize| #[trigger] hop_of(square(a, b, c, d)).contains(h) ==> h < names.len(),
{
    let o = square(a, b, c, d);
    assert forall|i: int, k: Map<usize, usize>| 0 <= i < o.len() && #[trigger] o[i].contains_key(k) implies ids_known(k.dom(), names) && o[i][k] < names.len() by {
        if i == 2 {
            assert(k == bag_add(bag_of(b), c));
        }
    }
    assert forall|h: usize| #[trigger] hop_of(o).contains(h) implies h < names.len() by {
        let k = choose|k: Map<usize, usize>| #[trigger] o[1].contains_key(k) && o[1][k] == h;
    }
}

/// A discovery pass over a model whose ids a table holds keeps every id of
/// the repository held.
proof fn lemma_atoms_below(g: Graph<usize>, r: (OrthoIndex, OrthoIndex), vs: Seq<usize>, names: Seq<Seq<char>>)
    requires
        graph_ids_below(g, names.len()),
        index_ids_known(names, r.0),
        index_ids_known(names, r.1),
    ensures
        index_ids_known(names, atoms_model(g, r, vs).0),
        index_ids_known(names, atoms_model(g, r, vs).1),
    decreases vs.len(),
{
    if vs.len() > 0 {
        lemma_atoms_below(g, r, vs.drop_last(), names);
        let p = atoms_model(g, r, vs.drop_last());
        let a = vs.last();
        let s = subtract_model(p.0, squares_at(g, a));
        assert forall|o: Seq<Layer>| #[trigger] s.contains(o) implies ortho_ids_known(o, names) && origin_of(o) < names.len()
            && forall|h: usize| #[trigger] hop_of(o).contains(h) ==> h < names.len() by {
            lemma_squares_at(g, a, o);
            let (b, c, d) = choose|b: usize, c: usize, d: usize| closes(g, a, b, c, d) && o == square(a, b, c, d);
            lemma_square_below(a, b, c, d, names);
        }
        let q = add_set_model(p, s);
        assert forall|k: (Map<usize, usize>, usize)| #[trigger] q.0.contains_key(k) implies k.1 < names.len()
            && forall|o: Seq<Layer>| #[trigger] q.0[k].contains(o) ==> ortho_ids_known(o, names) by {
            if origin_index_of(s).contains_key(k) {
                let o = choose|o: Seq<Layer>| s.contains(o) && origin_key(o) == k;
            }
            assert forall|o: Seq<Layer>| #[trigger] q.0[k].contains(o) implies ortho_ids_known(o, names) by {
                if !bucket_at(p.0, k).contains(o) {
                    assert(bucket_at(origin_index_of(s), k).contains(o));
                }
            }
        }
        assert forall|k: (Map<usize, usize>, usize)| #[trigger] q.1.contains_key(k) implies k.1 < names.len()
            && forall|o: Seq<Layer>| #[trigger] q.1[k].contains(o) ==> ortho_ids_known(o, names) by {
            if hops_index_of(s).contains_key(k) {
                let o = choose|o: Seq<Layer>| s.contains(o) && hop_keys(o).contains(k);
                assert(hop_of(o).contains(k.1));
            }
            assert forall|o: Seq<Layer>| #[trigger] q.1[k].contains(o) implies ortho_ids_known(o, names) by {
                if !bucket_at(p.1, k).contains(o) {
                    assert(bucket_at(hops_index_of(s), k).contains(o));
                }
            }
        }
    }
}

/// A discovery pass only adds to the repository it starts from.
proof fn lemma_atoms_within(g: Graph<usize>, r: (OrthoIndex, OrthoIndex), vs: Seq<usize>)
    ensures
        index_within(r.0, atoms_model(g, r, vs).0),
        index_within(r.1, atoms_model(g, r, vs).1),
    decreases vs.len(),
{
    if vs.len() > 0 {
        lemma_atoms_within(g, r, vs.drop_last());
        let p = atoms_model(g, r, vs.drop_last());
        let s = subtract_model(p.0, squares_at(g, vs.last()));
        lemma_within_union(p.0, origin_index_of(s));
        lemma_within_union(p.1, hops_index_of(s));
        lemma_within_trans(r.0, p.0, add_set_model(p, s).0);
        lemma_within_trans(r.1, p.1, add_set_model(p, s).1);
    }
}

/// A discovery pass over `config` from `start`, under a fresh table.
fn pass(config: &LiteralConfig, start: &LiteralRepo) -> (r: Result<LiteralRepo, InternError>)
    ensures
        r matches Ok(l) ==> is_pass(config@, start@, l@),
        r matches Ok(l) ==> index_within(start@.0, l@.0) && index_within(start@.1, l@.1),
        r matches Err(e) ==> e is TableFull || e is UnknownToken,
        start@ == no_orthos() ==> (r matches Err(e) ==> e is TableFull),
        r is Err ==> too_many_tokens(graph_tokens(config@)) || !index_tokens(start@.0).union(
            index_tokens(start@.1),
        ).subset_of(graph_tokens(config@)),
        r matches Ok(l) ==> index_tokens(l@.0).union(index_tokens(l@.1)).subset_of(graph_tokens(config@)),
{
    let mut interner = Interner::new();
    let ids = match config.intern(&mut interner) {
        Ok(ids) => ids,
        Err(e) => {
            proof {
                lemma_full_table(interned(interner), graph_tokens(config@));
            }
            return Err(e);
        },
    };
    let ghost g_tokens = graph_tokens(config@);
    proof {
        let names = interned(interner);
        assert forall|s: Seq<char>| #[trigger] names.contains(s) implies g_tokens.contains(s) by {
            let i = choose|i: int| 0 <= i < names.len() && names[i] == s;
        }
        assert forall|s: Seq<char>| #[trigger] g_tokens.contains(s) implies names.contains(s) by {
            lemma_graph_tokens_held(names, config@, s);
        }
    }
    let mut repo = match start.intern(&interner) {
        Ok(repo) => repo,
        Err(e) => {
            proof {
                if start@ == no_orthos() {
                    assert(index_known(interned(interner), start@.0));
                    assert(index_known(interned(interner), start@.1));
                }
                let names = interned(interner);
                if index_tokens(start@.0).union(index_tokens(start@.1)).subset_of(g_tokens) {
                    assert forall|s: Seq<char>| #[trigger] index_tokens(start@.0).contains(s) implies names.contains(s) by {
                        assert(g_tokens.contains(s));
                    }
                    assert forall|s: Seq<char>| #[trigger] index_tokens(start@.1).contains(s) implies names.contains(s) by {
                        assert(g_tokens.contains(s));
                    }
                    lemma_index_known_from_tokens(names, start@.0);
                    lemma_index_known_from_tokens(names, start@.1);
                }
            }
            return Err(e);
        },
    };
    let held_count = interner.len();
    let ghost names = interned(interner);
    assert(names.len() == held_count);
    let ghost start_ids = repo@;
    proof {
        lemma_id_graph_below(names, config@);
        lemma_id_index_below(names, start@.0);
        lemma_id_index_below(names, start@.1);
    }
    make_atoms(&ids, &mut repo);
    let ghost order = ids.vocabulary_order();
    let v = ids.vocabulary();
    proof {
        assert(crate::assoc::unique_items(v@));
        assert(v@ == order);
        assert(order.no_duplicates()) by {
            assert forall|i: int, j: int| 0 <= i < order.len() && 0 <= j < order.len() && i != j implies order[i] != order[j] by {
                crate::assoc::lemma_unique_items_at(v@, i, j);
            }
        }
        lemma_atoms_below(ids@, start_ids, order, names);
        assert(Seq::<Seq<char>>::empty().no_duplicates());
    }
    let result = repo.unintern(&interner);
    match result {
        Ok(l) => {
            proof {
                assert(l@ == pass_result(config@, start@, names, order));
                let result_ids = atoms_model(ids@, start_ids, order);
                lemma_atoms_within(ids@, start_ids, order);
                lemma_name_index_within(names, start_ids.0, result_ids.0);
                lemma_name_index_within(names, start_ids.1, result_ids.1);
                lemma_literal_index_round_trip(names, start@.0);
                lemma_literal_index_round_trip(names, start@.1);
                assert forall|s: Seq<char>| #[trigger] index_tokens(l@.0).union(index_tokens(l@.1)).contains(s) implies g_tokens.contains(s) by {
                    if index_tokens(l@.0).contains(s) {
                        lemma_named_index_tokens(names, result_ids.0, s);
                    } else {
                        lemma_named_index_tokens(names, result_ids.1, s);
                    }
                }
            }
            Ok(l)
        },
        Err(e) => {
            assert(false);
            Err(e)
        },
    }
}

/// One discovery run over raw text. Without a stored state, the model of
/// the text and the orthos found in it. With one, the orthos found in the
/// text are merged into the stored repository and the model into the
/// stored model, and the merged model is searched again from the merged
/// repository, so that orthos spanning both show up.
pub fn search(input: String, stored: Option<(LiteralConfig, LiteralRepo)>) -> (r: Result<
    (LiteralConfig, LiteralRepo),
    InternError,
>)
    ensures
        r matches Err(e) ==> e is TableFull || (stored is Some && e is UnknownToken),
        r is Err ==> match stored {
            None => too_many_tokens(graph_tokens(corpus_graph(crate::text::clean(input@)))),
            Some((c, l)) => too_many_tokens(graph_tokens(graph_union(corpus_graph(crate::text::clean(input@)), c@))) || !index_tokens(l@.0).union(index_tokens(l@.1)).subset_of(
                graph_tokens(graph_union(corpus_graph(crate::text::clean(input@)), c@)),
            ),
        },
        r matches Ok((c, l)) ==> match stored {
            None => c@ == corpus_graph(crate::text::clean(input@)) && is_pass(c@, no_orthos(), l@),
            Some((old_config, old_repo)) => c@ == graph_union(corpus_graph(crate::text::clean(input@)), old_config@)
                && exists|first: (LiteralIndex, LiteralIndex)| is_pass(corpus_graph(crate::text::clean(input@)), no_orthos(), first)
                    && is_pass(c@, merge_model(first, old_repo@), l@)
                && index_within(old_repo@.0, l@.0) && index_within(old_repo@.1, l@.1),
        },
{
    let mut literal_config = LiteralConfig::from_raw(input);
    let ghost fresh = literal_config@;
    let empty = LiteralRepo::new();
    assert(empty@ == no_orthos());
    let mut literal_repo = match pass(&literal_config, &empty) {
        Ok(l) => l,
        Err(e) => {
            proof {
                assert(index_tokens(empty@.0).union(index_tokens(empty@.1)) =~= Set::<Seq<char>>::empty());
                if let Some((c, _)) = stored {
                    lemma_graph_tokens_union(fresh, c@);
                    lemma_too_many_grows(graph_tokens(fresh), graph_tokens(graph_union(fresh, c@)));
                }
            }
            return Err(e);
        },
    };
    match stored {
        None => Ok((literal_config, literal_repo)),
        Some((old_config, old_repo)) => {
            let ghost first = literal_repo@;
            literal_repo.merge(old_repo);
            literal_config.merge(old_config);
            let ghost old_l = old_repo@;
            let ghost old_c = old_config@;
            let current = match pass(&literal_config, &literal_repo) {
                Ok(l) => l,
                Err(e) => {
                    proof {
                        let u = graph_tokens(graph_union(fresh, old_c));
                        lemma_graph_tokens_union(fresh, old_c);
                        if index_tokens(old_l.0).union(index_tokens(old_l.1)).subset_of(u) {
                            assert forall|s: Seq<char>| #[trigger] index_tokens(literal_repo@.0).union(index_tokens(literal_repo@.1)).contains(s) implies u.contains(s) by {
                                if index_tokens(literal_repo@.0).contains(s) {
                                    lemma_index_tokens_union(first.0, old_l.0, s);
                                } else {
                                    lemma_index_tokens_union(first.1, old_l.1, s);
                                }
                                if index_tokens(first.0).contains(s) || index_tokens(first.1).contains(s) {
                                    assert(graph_tokens(fresh).contains(s));
                                }
                            }
                        }
                    }
                    return Err(e);
                },
            };
            assert(is_pass(fresh, no_orthos(), first));
            proof {
                let merged = merge_model(first, old_repo@);
                lemma_within_union(first.0, old_repo@.0);
                lemma_within_union(first.1, old_repo@.1);
                lemma_within_trans(old_repo@.0, merged.0, current@.0);
                lemma_within_trans(old_repo@.1, merged.1, current@.1);
            }
            Ok((literal_config, current))
        },
    }
}

} // verus!

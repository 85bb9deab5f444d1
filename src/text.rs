//! Cleaning raw text into sentences of tokens.
use vstd::prelude::*;

verus! {

/// What `str::to_lowercase` makes of a string.
pub uninterp spec fn lower_of(s: Seq<char>) -> Seq<char>;

/// Relies on `str::to_lowercase`: the result depends on the characters alone.
#[verifier::external_body]
fn lowercase(s: &str) -> (r: String)
    ensures
        r@ == lower_of(s@),
{
    s.to_lowercase()
}

/// Relies on `String::from_iter`: the string of the given characters.
#[verifier::external_body]
fn string_of(cs: &Vec<char>) -> (r: String)
    ensures
        r@ == cs@,
{
    String::from_iter(cs.iter())
}

pub open spec fn ends_sentence(c: char) -> bool {
    c == '.' || c == '!' || c == '?'
}

pub open spec fn dropped_mark(c: char) -> bool {
    c == ';' || c == '\'' || c == ':' || c == ','
}

/// The ASCII whitespace of `u8::is_ascii_whitespace`.
pub open spec fn ascii_space(c: char) -> bool {
    c == ' ' || c == '\t' || c == '\n' || c == '\x0C' || c == '\r'
}

/// `s` split at every character that `sep` accepts, as `str::split` does:
/// one more piece than separators, empty pieces kept.
pub open spec fn split_at(s: Seq<char>, sep: spec_fn(char) -> bool) -> Seq<Seq<char>>
    decreases s.len(),
{
    if s.len() == 0 {
        seq![Seq::empty()]
    } else {
        let p = split_at(s.drop_last(), sep);
        if sep(s.last()) {
            p.push(Seq::empty())
        } else {
            p.update(p.len() - 1, p.last().push(s.last()))
        }
    }
}

/// The pieces that are not empty.
pub open spec fn non_empty(ps: Seq<Seq<char>>) -> Seq<Seq<char>>
    decreases ps.len(),
{
    if ps.len() == 0 {
        Seq::empty()
    } else if ps.last().len() == 0 {
        non_empty(ps.drop_last())
    } else {
        non_empty(ps.drop_last()).push(ps.last())
    }
}

/// `s` without the marks that cleaning drops.
pub open spec fn strip(s: Seq<char>) -> Seq<char>
    decreases s.len(),
{
    if s.len() == 0 {
        Seq::empty()
    } else if dropped_mark(s.last()) {
        strip(s.drop_last())
    } else {
        strip(s.drop_last()).push(s.last())
    }
}

/// The words of `s`, as `str::split_ascii_whitespace` gives them.
pub open spec fn words(s: Seq<char>) -> Seq<Seq<char>> {
    non_empty(split_at(s, |c: char| ascii_space(c)))
}

/// The tokens of one raw sentence.
pub open spec fn sentence_tokens(p: Seq<char>) -> Seq<Seq<char>> {
    words(lower_of(strip(p)))
}

/// The sentences of `raw` that hold a token, each as its tokens.
pub open spec fn clean_from(ps: Seq<Seq<char>>) -> Seq<Seq<Seq<char>>>
    decreases ps.len(),
{
    if ps.len() == 0 {
        Seq::empty()
    } else if sentence_tokens(ps.last()).len() == 0 {
        clean_from(ps.drop_last())
    } else {
        clean_from(ps.drop_last()).push(sentence_tokens(ps.last()))
    }
}

/// What cleaning makes of raw text.
pub open spec fn clean(raw: Seq<char>) -> Seq<Seq<Seq<char>>> {
    clean_from(split_at(raw, |c: char| ends_sentence(c)))
}

/// The characters of a string.
fn chars_of(s: &str) -> (r: Vec<char>)
    ensures
        r@ == s@,
{
    let mut r: Vec<char> = Vec::new();
    for c in it: s.chars()
        invariant
            it.seq() == s@,
            r@ == it.seq().take(it.index() as int),
    {
        r.push(c);
    }
    r
}

/// Splits characters at separators, as `split_at` does; `space` picks
/// ASCII whitespace, otherwise sentence ends.
fn split_chars(cs: &Vec<char>, space: bool) -> (r: Vec<Vec<char>>)
    ensures
        r@.map_values(|p: Vec<char>| p@) == split_at(
            cs@,
            if space {
                |c: char| ascii_space(c)
            } else {
                |c: char| ends_sentence(c)
            },
        ),
{
    let ghost sep = if space {
        |c: char| ascii_space(c)
    } else {
        |c: char| ends_sentence(c)
    };
    let mut done: Vec<Vec<char>> = Vec::new();
    let mut current: Vec<char> = Vec::new();
    let mut i: usize = 0;
    proof {
        assert(cs@.take(0) =~= Seq::<char>::empty());
        assert(done@.map_values(|p: Vec<char>| p@).push(current@) =~= split_at(cs@.take(0), sep));
    }
    while i < cs.len()
        invariant
            i <= cs.len(),
            sep == (if space {
                |c: char| ascii_space(c)
            } else {
                |c: char| ends_sentence(c)
            }),
            done@.map_values(|p: Vec<char>| p@).push(current@) == split_at(cs@.take(i as int), sep),
        decreases cs.len() - i,
    {
        let c = cs[i];
        let is_sep = if space {
            c == ' ' || c == '\t' || c == '\n' || c == '\x0C' || c == '\r'
        } else {
            c == '.' || c == '!' || c == '?'
        };
        let ghost before = done@.map_values(|p: Vec<char>| p@).push(current@);
        proof {
            assert(cs@.take(i + 1).drop_last() =~= cs@.take(i as int));
            assert(cs@.take(i + 1).last() == c);
            assert(is_sep == sep(c));
        }
        if is_sep {
            let piece = current;
            done.push(piece);
            current = Vec::new();
            assert(done@.map_values(|p: Vec<char>| p@).push(current@) =~= before.push(Seq::empty()));
        } else {
            current.push(c);
            assert(done@.map_values(|p: Vec<char>| p@).push(current@) =~= before.update(before.len() - 1, before.last().push(c)));
        }
        i = i + 1;
    }
    done.push(current);
    proof {
        assert(cs@.take(cs.len() as int) =~= cs@);
        assert(done@.map_values(|p: Vec<char>| p@) =~= split_at(cs@, sep));
    }
    done
}

/// The characters that cleaning keeps.
fn strip_marks(cs: &Vec<char>) -> (r: Vec<char>)
    ensures
        r@ == strip(cs@),
{
    let mut r: Vec<char> = Vec::new();
    let mut i: usize = 0;
    proof {
        assert(cs@.take(0) =~= Seq::<char>::empty());
    }
    while i < cs.len()
        invariant
            i <= cs.len(),
            r@ == strip(cs@.take(i as int)),
        decreases cs.len() - i,
    {
        let c = cs[i];
        proof {
            assert(cs@.take(i + 1).drop_last() =~= cs@.take(i as int));
            assert(cs@.take(i + 1).last() == c);
        }
        if !(c == ';' || c == '\'' || c == ':' || c == ',') {
            r.push(c);
        }
        i = i + 1;
    }
    proof {
        assert(cs@.take(cs.len() as int) =~= cs@);
    }
    r
}

/// The words of a text, split at ASCII whitespace, as
/// `str::split_ascii_whitespace` gives them.
pub fn split_words(text: &str) -> (r: Vec<String>)
    ensures
        r@.map_values(|t: String| t@) == words(text@),
{
    let cs = chars_of(text);
    let parts = split_chars(&cs, true);
    let ghost pv = parts@.map_values(|p: Vec<char>| p@);
    let mut r: Vec<String> = Vec::new();
    let mut i: usize = 0;
    proof {
        assert(pv.take(0) =~= Seq::<Seq<char>>::empty());
        assert(r@.map_values(|t: String| t@) =~= non_empty(pv.take(0)));
    }
    while i < parts.len()
        invariant
            i <= parts.len(),
            pv == parts@.map_values(|p: Vec<char>| p@),
            r@.map_values(|t: String| t@) == non_empty(pv.take(i as int)),
        decreases parts.len() - i,
    {
        let ghost before = r@.map_values(|t: String| t@);
        proof {
            assert(pv.take(i + 1).drop_last() =~= pv.take(i as int));
            assert(pv.take(i + 1).last() == parts@[i as int]@);
        }
        if parts[i].len() > 0 {
            let word = string_of(&parts[i]);
            r.push(word);
            assert(r@.map_values(|t: String| t@) =~= before.push(parts@[i as int]@));
        }
        i = i + 1;
    }
    proof {
        assert(pv.take(parts.len() as int) =~= pv);
    }
    r
}

/// The tokens of one raw sentence.
fn tokens_of(piece: &Vec<char>) -> (r: Vec<String>)
    ensures
        r@.map_values(|t: String| t@) == sentence_tokens(piece@),
{
    let kept = strip_marks(piece);
    let text = string_of(&kept);
    let lowered = lowercase(text.as_str());
    split_words(lowered.as_str())
}

/// Splits raw text into sentences at `.`, `!` and `?`, drops the marks
/// `;`, `'`, `:` and `,`, folds case, and splits each sentence into tokens
/// at ASCII whitespace. Sentences without tokens are left out.
pub fn clean_sentences(sentences: String) -> (r: Vec<Vec<String>>)
    ensures
        crate::config::sentences_view(r@) == clean(sentences@),
{
    let cs = chars_of(sentences.as_str());
    let pieces = split_chars(&cs, false);
    let ghost pv = pieces@.map_values(|p: Vec<char>| p@);
    let mut r: Vec<Vec<String>> = Vec::new();
    let mut i: usize = 0;
    proof {
        assert(pv.take(0) =~= Seq::<Seq<char>>::empty());
        assert(crate::config::sentences_view(r@) =~= clean_from(pv.take(0)));
    }
    while i < pieces.len()
        invariant
            i <= pieces.len(),
            pv == pieces@.map_values(|p: Vec<char>| p@),
            crate::config::sentences_view(r@) == clean_from(pv.take(i as int)),
        decreases pieces.len() - i,
    {
        let ghost before = crate::config::sentences_view(r@);
        proof {
            assert(pv.take(i + 1).drop_last() =~= pv.take(i as int));
            assert(pv.take(i + 1).last() == pieces@[i as int]@);
        }
        let tokens = tokens_of(&pieces[i]);
        if tokens.len() > 0 {
            let ghost tv = tokens@.map_values(|t: String| t@);
            r.push(tokens);
            assert(crate::config::sentences_view(r@) =~= before.push(tv));
        }
        i = i + 1;
    }
    proof {
        assert(pv.take(pieces.len() as int) =~= pv);
    }
    r
}

} // verus!

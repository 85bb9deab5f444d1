//! The interning table: string-interner's `StringInterner`, seen as the
//! sequence of the strings it holds, where a string's id is its position.
use string_interner::symbol::SymbolU32;
use string_interner::StringInterner;
use string_interner::Symbol;
use vstd::prelude::*;

verus! {

/// Why renaming between ids and tokens failed.
#[derive(Debug, Clone, PartialEq, Eq)]
pub enum InternError {
    /// The table holds no token for this id.
    UnknownId(usize),
    /// The table holds no id for this token.
    UnknownToken(String),
    /// This id resolves to a token that another id of the same value
    /// resolved to already.
    DuplicateToken(usize),
    /// The table holds as many strings as its ids can tell apart.
    TableFull,
}

/// An interning table: a bijection between the strings it holds and the
/// ids `0, 1, 2, ...` given to them in the order in which they came.
#[verifier::external_body]
pub struct Interner {
    table: StringInterner,
}

/// The strings that a table holds, in the order in which they were interned.
pub uninterp spec fn interned(t: Interner) -> Seq<Seq<char>>;

/// `i` is the first position of `s` in `names`.
pub open spec fn first_at(names: Seq<Seq<char>>, s: Seq<char>, i: int) -> bool {
    &&& 0 <= i < names.len()
    &&& names[i] == s
    &&& forall|j: int| 0 <= j < i ==> names[j] != s
}

/// The id that a table gives to a string it holds.
pub open spec fn id_of(names: Seq<Seq<char>>, s: Seq<char>) -> int {
    choose|i: int| first_at(names, s, i)
}

pub proof fn lemma_id_of(names: Seq<Seq<char>>, s: Seq<char>, i: int)
    requires
        first_at(names, s, i),
    ensures
        id_of(names, s) == i,
{
    let j = id_of(names, s);
    assert(first_at(names, s, j));
    if j < i {
        assert(names[j] != s);
    } else if i < j {
        assert(names[i] != s);
    }
}

/// A string held has a first position.
pub proof fn lemma_id_of_held(names: Seq<Seq<char>>, s: Seq<char>, i: int)
    requires
        0 <= i < names.len(),
        names[i] == s,
    ensures
        first_at(names, s, id_of(names, s)),
        id_of(names, s) <= i,
    decreases i,
{
    if exists|j: int| 0 <= j < i && names[j] == s {
        let j = choose|j: int| 0 <= j < i && names[j] == s;
        lemma_id_of_held(names, s, j);
    } else {
        assert(first_at(names, s, i));
        lemma_id_of(names, s, i);
    }
}

/// Ids stay as the table grows.
pub proof fn lemma_first_at_grows(names: Seq<Seq<char>>, more: Seq<Seq<char>>, s: Seq<char>, i: int)
    requires
        first_at(names, s, i),
        names.is_prefix_of(more),
    ensures
        first_at(more, s, i),
        id_of(more, s) == i,
{
    assert forall|j: int| 0 <= j < i implies more[j] != s by {
        assert(more[j] == names[j]);
    }
    assert(more[i] == names[i]);
    lemma_id_of(more, s, i);
}

pub proof fn lemma_id_of_distinct(names: Seq<Seq<char>>, i: int)
    requires
        names.no_duplicates(),
        0 <= i < names.len(),
    ensures
        id_of(names, names[i]) == i,
{
    assert(first_at(names, names[i], i));
    lemma_id_of(names, names[i], i);
}

impl Interner {
    /// Relies on `StringInterner::default`: a new table holds no string.
    #[verifier::external_body]
    pub(crate) fn table_new() -> (r: Interner)
        ensures
            interned(r) == Seq::<Seq<char>>::empty(),
    {
        Interner { table: StringInterner::default() }
    }

    /// Relies on `StringInterner::len`: the number of strings held.
    #[verifier::external_body]
    pub(crate) fn table_len(&self) -> (r: usize)
        ensures
            r == interned(*self).len(),
    {
        self.table.len()
    }

    /// Relies on `StringInterner::get_or_intern` and `Symbol::to_usize`: a
    /// string already held keeps its id; another is appended and gets the
    /// next id. The table panics once it holds `u32::MAX` strings.
    #[verifier::external_body]
    pub(crate) fn table_get_or_intern(&mut self, s: &str) -> (r: usize)
        requires
            interned(*old(self)).len() < u32::MAX,
        ensures
            interned(*old(self)).contains(s@) ==> interned(*final(self)) == interned(*old(self))
                && first_at(interned(*old(self)), s@, r as int),
            !interned(*old(self)).contains(s@) ==> interned(*final(self)) == interned(
                *old(self),
            ).push(s@) && r == interned(*old(self)).len(),
    {
        self.table.get_or_intern(s).to_usize()
    }

    /// Relies on `StringInterner::get` and `Symbol::to_usize`: the id of a
    /// string held, none for another.
    #[verifier::external_body]
    pub(crate) fn table_get(&self, s: &str) -> (r: Option<usize>)
        ensures
            r is None <==> !interned(*self).contains(s@),
            r matches Some(i) ==> first_at(interned(*self), s@, i as int),
    {
        self.table.get(s).map(|sym| sym.to_usize())
    }

    /// Relies on `Symbol::try_from_usize` and `StringInterner::resolve`: the
    /// string at a held id, none for another id.
    #[verifier::external_body]
    pub(crate) fn table_resolve(&self, id: usize) -> (r: Option<String>)
        ensures
            id < interned(*self).len() ==> r is Some,
            r matches Some(s) ==> s@ == interned(*self)[id as int],
            id >= interned(*self).len() ==> r is None,
    {
        u32::try_from(id).ok().and_then(|n| SymbolU32::try_from_usize(n as usize)).and_then(
            |sym| self.table.resolve(sym),
        ).map(|s| s.to_string())
    }

    /// An empty table.
    pub fn new() -> (r: Interner)
        ensures
            interned(r) == Seq::<Seq<char>>::empty(),
            interned(r).no_duplicates(),
    {
        Interner::table_new()
    }

    /// The number of strings held.
    pub fn len(&self) -> (r: usize)
        ensures
            r == interned(*self).len(),
    {
        self.table_len()
    }

    /// The id of `s`, interning it first where the table does not hold it
    /// yet. Fails, changing nothing, once the table holds `u32::MAX`
    /// strings.
    pub fn get_or_intern(&mut self, s: &str) -> (r: Result<usize, InternError>)
        ensures
            r is Err <==> interned(*old(self)).len() >= u32::MAX,
            r matches Err(e) ==> e is TableFull && interned(*final(self)) == interned(*old(self)),
            r matches Ok(i) ==> interned(*old(self)).contains(s@) ==> interned(*final(self))
                == interned(*old(self)) && first_at(interned(*old(self)), s@, i as int),
            r matches Ok(i) ==> !interned(*old(self)).contains(s@) ==> interned(*final(self))
                == interned(*old(self)).push(s@) && i == interned(*old(self)).len(),
            interned(*old(self)).no_duplicates() ==> interned(*final(self)).no_duplicates(),
    {
        if self.table_len() >= 4294967295 {
            return Err(InternError::TableFull);
        }
        let ghost before = interned(*self);
        let id = self.table_get_or_intern(s);
        proof {
            let after = interned(*self);
            if before.no_duplicates() && !before.contains(s@) {
                assert forall|i: int, j: int| 0 <= i < after.len() && 0 <= j < after.len() && i != j implies after[i] != after[j] by {
                    if i < before.len() && j < before.len() {
                    } else if i < before.len() {
                        assert(before.contains(before[i]));
                    } else {
                        assert(before.contains(before[j]));
                    }
                }
            }
        }
        Ok(id)
    }

    /// The id of `s`, where the table holds it.
    pub fn get(&self, s: &str) -> (r: Option<usize>)
        ensures
            r is None <==> !interned(*self).contains(s@),
            r matches Some(i) ==> first_at(interned(*self), s@, i as int),
    {
        self.table_get(s)
    }

    /// The string at `id`, where the table holds one there.
    pub fn resolve(&self, id: usize) -> (r: Option<String>)
        ensures
            id < interned(*self).len() ==> r is Some,
            r matches Some(s) ==> s@ == interned(*self)[id as int],
            id >= interned(*self).len() ==> r is None,
    {
        self.table_resolve(id)
    }
}

} // verus!

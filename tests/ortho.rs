use model_fold::{InternError, Interner, LiteralMultiSet, MultiSet, Ortho};

#[test]
fn it_compares_equal_across_rotation() {
    let ortho = Ortho::new(1, 2, 3, 4);
    let ortho2 = Ortho::new(1, 3, 2, 4);

    assert_eq!(ortho, ortho2);
    assert_eq!(ortho.origin(), ortho2.origin());
    assert_eq!(ortho.size(), ortho2.size());
}

#[test]
fn it_exposes_origin() {
    assert_eq!(Ortho::new(1, 2, 3, 4).origin(), 1);
}

#[test]
fn it_exposes_hop() {
    let ortho = Ortho::new(1, 2, 3, 4);
    let actual: Vec<usize> = ortho.hop();
    let expected = vec![2 as usize, 3 as usize];

    assert_eq!(actual, expected);
}

#[test]
fn ortho_it_has_size() {
    let mut expected = MultiSet::new();
    expected.insert(1);
    expected.insert(1);
    assert_eq!(Ortho::new(10, 20, 30, 40).size(), expected);
}

#[test]
fn it_has_multisets_that_can_be_interned_or_uninterned() {
    let mut expected = MultiSet::new();
    let mut interner = Interner::new();
    expected.insert(interner.get_or_intern("a").unwrap());
    expected.insert(interner.get_or_intern("a").unwrap());

    assert_eq!(
        expected,
        expected.unintern(&interner).unwrap().intern(&interner).unwrap()
    )
}

#[test]
fn it_can_be_interned_or_uninterned() {
    let mut interner = Interner::new();
    let ortho = Ortho::new(
        interner.get_or_intern("a").unwrap(),
        interner.get_or_intern("b").unwrap(),
        interner.get_or_intern("c").unwrap(),
        interner.get_or_intern("d").unwrap(),
    );

    assert_eq!(ortho, ortho.unintern(&interner).unwrap().intern(&interner).unwrap())
}

#[test]
fn rotation_is_equal_for_other_tokens() {
    let a = Ortho::new(7, 100, 5, 9);
    let b = Ortho::new(7, 5, 100, 9);
    assert_eq!(a, b);
    assert_eq!(a.size(), b.size());
    assert_eq!(b.origin(), 7);
}

#[test]
fn different_far_corners_differ() {
    assert_ne!(Ortho::new(1, 2, 3, 4), Ortho::new(1, 2, 3, 5));
    assert_ne!(Ortho::new(1, 2, 3, 4), Ortho::new(0, 2, 3, 4));
}

#[test]
fn size_counts_how_often_each_count_occurs() {
    let mut bag = MultiSet::new();
    bag.insert(5);
    bag.insert(5);
    bag.insert(6);
    let mut expected = MultiSet::new();
    expected.insert(2);
    expected.insert(1);
    assert_eq!(bag.size(), expected);
    assert_eq!(MultiSet::new().size(), MultiSet::new());
}

#[test]
fn square_with_equal_neighbours_has_one_hop() {
    let ortho = Ortho::new(1, 2, 2, 4);
    assert_eq!(ortho.hop(), vec![2]);
    let mut expected = MultiSet::new();
    expected.insert(2);
    assert_eq!(ortho.size(), expected);
}

#[test]
fn uninterning_an_unknown_id_fails() {
    let interner = Interner::new();
    let mut bag = MultiSet::new();
    bag.insert(3);
    assert_eq!(bag.unintern(&interner), Err(InternError::UnknownId(3)));
    assert!(Ortho::new(0, 1, 2, 3).unintern(&interner).is_err());
}

#[test]
fn interning_an_unknown_token_fails() {
    let interner = Interner::new();
    let mut bag = LiteralMultiSet::new();
    bag.insert_count("x".to_string(), 2);
    assert_eq!(bag.intern(&interner), Err(InternError::UnknownToken("x".to_string())));
}

#[test]
fn uninterning_names_the_tokens() {
    let mut interner = Interner::new();
    let a = interner.get_or_intern("alpha").unwrap();
    let b = interner.get_or_intern("beta").unwrap();
    assert_eq!(a, 0);
    assert_eq!(b, 1);
    assert_eq!(interner.get_or_intern("alpha").unwrap(), 0);
    let mut bag = MultiSet::new();
    bag.insert(b);
    bag.insert(b);
    bag.insert(a);
    let literal = bag.unintern(&interner).unwrap();
    let mut pairs = literal.pairs();
    pairs.sort();
    assert_eq!(pairs, vec![("alpha".to_string(), 1), ("beta".to_string(), 2)]);
    assert_eq!(interner.resolve(1), Some("beta".to_string()));
    assert_eq!(interner.resolve(2), None);
    assert_eq!(interner.get("beta"), Some(1));
    assert_eq!(interner.get("gamma"), None);
}

#[test]
fn hops_come_in_ascending_order() {
    assert_eq!(Ortho::new(1, 3, 2, 4).hop(), vec![2, 3]);
    assert_eq!(Ortho::new(1, 2, 3, 4).hop(), Ortho::new(1, 3, 2, 4).hop());
    assert_eq!(Ortho::new(9, 70, 8, 1).hop(), vec![8, 70]);
}

#[test]
fn a_fresh_table_repeats_no_string() {
    let mut interner = Interner::new();
    assert_eq!(interner.len(), 0);
    let a = interner.get_or_intern("x").unwrap();
    let b = interner.get_or_intern("x").unwrap();
    assert_eq!(a, b);
    assert_eq!(interner.len(), 1);
}

use model_fold::{clean_sentences, split_words, Config, Interner, LiteralConfig};

fn string_to_usize(interner: &Interner, string: &str) -> usize {
    interner.get(string).unwrap()
}

#[test]
fn it_iterates() {
    let (config, _interner) = Config::from_sentences("a b. c d. a c. b d.".to_string()).unwrap();
    assert_eq!(config.vocabulary().len(), 4);
    assert_eq!(config.iter().collect::<Vec<_>>().len(), 4);
    for word in config.iter() {
        assert!(config.vocabulary().contains(word));
    }
}

#[test]
fn it_projects_forward() {
    let (config, interner) = Config::from_sentences("a b. c d. a c. b d.".to_string()).unwrap();
    assert!(config
        .project_forward(string_to_usize(&interner, "a"))
        .unwrap()
        .contains(&string_to_usize(&interner, "b")));

    assert!(config
        .project_forward(string_to_usize(&interner, "a"))
        .unwrap()
        .contains(&string_to_usize(&interner, "c")));

    assert_eq!(
        config
            .project_forward(string_to_usize(&interner, "a"))
            .unwrap()
            .len(),
        2
    );
}

#[test]
fn it_projects_backward() {
    let (config, interner) = Config::from_sentences("a b. c d. a c. b d.".to_string()).unwrap();
    assert!(config
        .project_backward(string_to_usize(&interner, "b"))
        .unwrap()
        .contains(&string_to_usize(&interner, "a")));

    assert_eq!(
        config
            .project_backward(string_to_usize(&interner, "b"))
            .unwrap()
            .len(),
        1
    );
}

#[test]
fn it_merges() {
    let mut literal_config = LiteralConfig::from_raw("a b. c d. a c. b d.".to_string());
    let literal_config2 = LiteralConfig::from_raw("e f. g h. e g. f h.".to_string());
    let mut interner = Interner::new();
    let config = literal_config.intern(&mut interner).unwrap();
    let config2 = literal_config2.intern(&mut interner).unwrap();

    literal_config.merge(literal_config2);
    let res = literal_config.intern(&mut interner).unwrap();

    assert_eq!(res.vocabulary().len(), 8);
    assert_eq!(config.vocabulary().len(), 4);
    assert_eq!(config2.vocabulary().len(), 4);
    assert_eq!(res.forward_len(), 6);
    assert_eq!(config.forward_len(), 3);
    assert_eq!(config2.forward_len(), 3);
    assert_eq!(res.backward_len(), 6);
    assert_eq!(config.backward_len(), 3);
    assert_eq!(config2.backward_len(), 3);
}

#[test]
fn cleaning_splits_strips_and_folds_case() {
    let res = clean_sentences("The Cat; sat! On: the, MAT? it's\tfine.  ".to_string());
    let expected: Vec<Vec<String>> = vec![
        vec!["the".to_string(), "cat".to_string(), "sat".to_string()],
        vec!["on".to_string(), "the".to_string(), "mat".to_string()],
        vec!["its".to_string(), "fine".to_string()],
    ];
    assert_eq!(res, expected);
}

#[test]
fn cleaning_drops_empty_sentences() {
    assert!(clean_sentences("".to_string()).is_empty());
    assert!(clean_sentences(" . ,;. !?".to_string()).is_empty());
    assert_eq!(clean_sentences("A B".to_string()), vec![vec!["a".to_string(), "b".to_string()]]);
}

#[test]
fn single_word_sentences_add_nothing() {
    let (config, _interner) = Config::from_sentences("a. b. c".to_string()).unwrap();
    assert_eq!(config.vocabulary().len(), 0);
    assert_eq!(config.forward_len(), 0);
}

#[test]
fn merging_models_is_commutative_associative_and_idempotent() {
    let a = LiteralConfig::from_raw("a b. c d.".to_string());
    let b = LiteralConfig::from_raw("a c. b d.".to_string());
    let c = LiteralConfig::from_raw("x y z.".to_string());

    let mut ab = a.clone();
    ab.merge(b.clone());
    let mut ba = b.clone();
    ba.merge(a.clone());
    assert_eq!(ab, ba);

    let mut ab_c = ab.clone();
    ab_c.merge(c.clone());
    let mut bc = b.clone();
    bc.merge(c.clone());
    let mut a_bc = a.clone();
    a_bc.merge(bc);
    assert_eq!(ab_c, a_bc);

    let mut aa = a.clone();
    aa.merge(a.clone());
    assert_eq!(aa, a);

    assert_eq!(ab, LiteralConfig::from_raw("a b. c d. a c. b d.".to_string()));
}

#[test]
fn words_split_at_ascii_whitespace() {
    assert_eq!(
        split_words("  one\ttwo\n\nthree \r four\x0C"),
        vec!["one".to_string(), "two".to_string(), "three".to_string(), "four".to_string()]
    );
    assert!(split_words(" \t ").is_empty());
    assert_eq!(split_words("Mixed Case"), vec!["Mixed".to_string(), "Case".to_string()]);
}

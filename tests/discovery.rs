use model_fold::{create, Config, Interner, Ortho, Repo};

fn id(interner: &Interner, s: &str) -> usize {
    interner.get(s).unwrap()
}

#[test]
fn it_can_be_made() {
    let (config, interner) = Config::from_sentences("a b. c d. a c. b d.".to_string()).unwrap();
    let repo = Repo::new();
    let res = create(&config, &repo, interner.get("a").unwrap());
    assert!(res.len() == 1);
}

#[test]
fn it_will_not_return_the_same_thing_twice() {
    let (config, interner) = Config::from_sentences("a b. c d. a c. b d.".to_string()).unwrap();
    let mut repo = Repo::new();
    let res = create(&config, &repo, interner.get("a").unwrap());
    assert!(res.len() == 1);

    res.items().iter().for_each(|x| {
        repo.add(x.clone());
    });

    let res = create(&config, &repo, interner.get("a").unwrap());
    assert!(res.len() == 0);
}

#[test]
fn the_square_found_is_a_b_c_d() {
    let (config, interner) = Config::from_sentences("a b. c d. a c. b d.".to_string()).unwrap();
    let repo = Repo::new();
    let res = create(&config, &repo, id(&interner, "a"));
    let expected = Ortho::new(id(&interner, "a"), id(&interner, "b"), id(&interner, "c"), id(&interner, "d"));
    assert!(res.contains(&expected));
    for other in ["b", "c", "d"] {
        assert_eq!(create(&config, &repo, id(&interner, other)).len(), 0);
    }
}

#[test]
fn no_square_without_the_closing_edge() {
    let (config, interner) = Config::from_sentences("a b. b d. c d.".to_string()).unwrap();
    let repo = Repo::new();
    assert_eq!(create(&config, &repo, id(&interner, "a")).len(), 0);
}

#[test]
fn two_squares_share_an_origin() {
    let (config, interner) = Config::from_sentences("a b. a c. b d. c d. a e. e f. c f.".to_string()).unwrap();
    let repo = Repo::new();
    let res = create(&config, &repo, id(&interner, "a"));
    assert_eq!(res.len(), 2);
}

#[test]
fn a_pass_over_the_vocabulary_finds_every_square() {
    let (config, interner) =
        Config::from_sentences("a b. c d. a c. b d. e f. g h. e g. f h.".to_string()).unwrap();
    let mut repo = Repo::new();
    model_fold::make_atoms(&config, &mut repo);
    assert_eq!(repo.len(), 2);
    let size = Ortho::new(0, 1, 2, 3).size();
    assert!(repo.find_by_size_and_origin(size.clone(), id(&interner, "a")).is_some());
    assert!(repo.find_by_size_and_origin(size.clone(), id(&interner, "e")).is_some());
    assert!(repo.find_by_size_and_hop(size, id(&interner, "f")).is_some());
    model_fold::make_atoms(&config, &mut repo);
    assert_eq!(repo.len(), 2);
}

#[test]
fn a_second_pass_changes_nothing() {
    let text = "a b. c d. a c. b d.";
    let (config, interner) = Config::from_sentences(text.to_string()).unwrap();
    let mut once = Repo::new();
    model_fold::make_atoms(&config, &mut once);
    let mut twice = Repo::new();
    model_fold::make_atoms(&config, &mut twice);
    model_fold::make_atoms(&config, &mut twice);
    assert_eq!(once, twice);
    assert_eq!(twice.len(), 1);
    for a in config.iter() {
        assert_eq!(create(&config, &twice, *a).len(), 0);
    }
    assert!(interner.get("a").is_some());
}

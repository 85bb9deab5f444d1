use model_fold::{search, LiteralRepo};

fn origins(repo: &LiteralRepo) -> Vec<String> {
    let mut res: Vec<String> = repo.origin_index().iter().map(|entry| (entry.0).1.clone()).collect();
    res.sort();
    res
}

fn size_of(repo: &LiteralRepo) -> usize {
    repo.origin_index().len()
}

#[test]
fn it_advances() {
    let (config, repo) = search("a b. c d. a c. b d. i k. j l.".to_string(), None).unwrap();
    assert_eq!(size_of(&repo), 1);

    let (_config, second) = search("e f. g h. e g. f h. i j. k l.".to_string(), Some((config, repo))).unwrap();
    assert_eq!(size_of(&second), 3);
}

#[test]
fn one_square_from_one_text() {
    let (_config, repo) = search("a b. c d. a c. b d.".to_string(), None).unwrap();
    assert_eq!(origins(&repo), vec!["a".to_string()]);
    let bucket = &repo.origin_index()[0].1;
    assert_eq!(bucket.len(), 1);
    let layers = bucket.items()[0].layers();
    assert_eq!(layers.len(), 3);
    assert_eq!(layers[0][0].1, "a");
    let mut hops: Vec<String> = layers[1].iter().map(|p| p.1.clone()).collect();
    hops.sort();
    assert_eq!(hops, vec!["b".to_string(), "c".to_string()]);
    assert_eq!(layers[2][0].1, "d");
    assert_eq!(repo.hops_index().len(), 2);
}

#[test]
fn the_same_text_twice_keeps_one_square() {
    let (config, repo) = search("a b. c d. a c. b d.".to_string(), None).unwrap();
    let (_config, second) = search("a b. c d. a c. b d.".to_string(), Some((config, repo.clone()))).unwrap();
    assert_eq!(size_of(&second), 1);
    assert_eq!(second, repo);
}

#[test]
fn two_texts_give_two_squares() {
    let (config, repo) = search("a b. c d. a c. b d.".to_string(), None).unwrap();
    let (merged, second) = search("e f. g h. e g. f h.".to_string(), Some((config, repo))).unwrap();
    assert_eq!(origins(&second), vec!["a".to_string(), "e".to_string()]);
    assert_eq!(merged.vocabulary().len(), 8);
}

#[test]
fn a_square_spanning_two_texts_emerges() {
    let (config, repo) = search("i k. j l.".to_string(), None).unwrap();
    assert_eq!(size_of(&repo), 0);
    let (_config, second) = search("i j. k l.".to_string(), Some((config, repo))).unwrap();
    assert_eq!(origins(&second), vec!["i".to_string()]);
}

#[test]
fn empty_text_finds_nothing() {
    let (config, repo) = search(String::new(), None).unwrap();
    assert_eq!(size_of(&repo), 0);
    assert_eq!(config.vocabulary().len(), 0);
}

#[test]
fn stored_parts_rebuild_the_same_state() {
    let (config, repo) = search("a b. c d. a c. b d. e f. g h. e g. f h.".to_string(), None).unwrap();
    let rebuilt = LiteralRepo::from_indexes(repo.origin_index().clone(), repo.hops_index().clone()).unwrap();
    assert_eq!(rebuilt, repo);
    let model = model_fold::LiteralConfig::from_parts(
        config.vocabulary().clone(),
        config.forward().clone(),
        config.backward().clone(),
    )
    .unwrap();
    assert_eq!(model, config);
    let layers = repo.origin_index()[0].1.items()[0].layers();
    let ortho = model_fold::LiteralOrtho::from_layers(layers.clone()).unwrap();
    assert_eq!(&ortho, &repo.origin_index()[0].1.items()[0]);
    let mut doubled = repo.origin_index().clone();
    doubled.push(doubled[0].clone());
    assert!(LiteralRepo::from_indexes(doubled, repo.hops_index().clone()).is_none());
    assert!(model_fold::LiteralOrtho::from_layers(vec![layers[1].clone()]).is_none());
}

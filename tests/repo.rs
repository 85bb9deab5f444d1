use model_fold::{Bucket, Interner, LiteralRepo, Ortho, Repo};

fn ortho_of(interner: &mut Interner, a: &str, b: &str, c: &str, d: &str) -> Ortho {
    Ortho::new(
        interner.get_or_intern(a).unwrap(),
        interner.get_or_intern(b).unwrap(),
        interner.get_or_intern(c).unwrap(),
        interner.get_or_intern(d).unwrap(),
    )
}

#[test]
fn repo_it_has_size() {
    let mut repo = Repo::new();
    let ortho = Ortho::new(1, 2, 3, 4);
    repo.add(ortho.clone());
    let res = repo.len();
    assert_eq!(res, 1);
}

#[test]
fn it_can_be_found_by_size_and_origin() {
    let mut repo = Repo::new();
    let ortho = Ortho::new(1, 2, 3, 4);
    repo.add(ortho.clone());
    let res = repo
        .find_by_size_and_origin(ortho.size(), ortho.origin())
        .unwrap()
        .iter()
        .next()
        .unwrap();
    assert_eq!(*res, ortho);
}

#[test]
fn it_can_be_found_by_size_and_hop() {
    let mut repo = Repo::new();
    let ortho = Ortho::new(1, 2, 3, 4);
    repo.add(ortho.clone());

    for hop in ortho.hop() {
        let res = repo
            .find_by_size_and_hop(ortho.size(), hop)
            .unwrap()
            .iter()
            .next()
            .unwrap();
        assert_eq!(*res, ortho);
    }
}

#[test]
fn it_can_be_uninterned_and_reinterned() {
    let mut interner = Interner::new();
    let mut repo = Repo::new();
    let ortho = ortho_of(&mut interner, "a", "b", "c", "d");

    repo.add(ortho.clone());

    let uninterned = repo.unintern(&interner).unwrap();
    let back = uninterned.intern(&interner).unwrap();

    assert_eq!(back, repo);
}

#[test]
fn it_can_be_used_to_subtract() {
    let mut interner = Interner::new();
    let mut repo = Repo::new();
    let ortho = ortho_of(&mut interner, "a", "b", "c", "d");
    let ortho2 = ortho_of(&mut interner, "e", "f", "g", "h");

    repo.add(ortho.clone());

    let mut target = Bucket::new();
    target.insert(ortho.clone());
    target.insert(ortho2.clone());

    let res = repo.set_subract(target);
    assert_eq!(res.len(), 1);
    assert!(res.contains(&ortho2));
}

#[test]
fn it_can_be_merged() {
    let mut interner = Interner::new();
    let mut repo = Repo::new();
    let mut repo2 = Repo::new();
    let ortho = ortho_of(&mut interner, "a", "b", "c", "d");
    let ortho2 = ortho_of(&mut interner, "e", "f", "g", "h");

    repo.add(ortho.clone());
    repo2.add(ortho2.clone());

    let mut literal_repo = repo.unintern(&interner).unwrap();
    let literal_repo2 = repo2.unintern(&interner).unwrap();

    literal_repo.merge(literal_repo2.clone());
    let res = literal_repo.intern(&interner).unwrap();

    assert_eq!(res.len(), 2);
    assert_eq!(repo.len(), 1);
    assert_eq!(repo2.len(), 1);
    assert_eq!(res.hops_len(), 4);
    assert_eq!(repo.hops_len(), 2);
    assert_eq!(repo2.hops_len(), 2);
}

#[test]
fn adding_twice_changes_nothing() {
    let mut once = Repo::new();
    let mut twice = Repo::new();
    let ortho = Ortho::new(1, 2, 3, 4);
    once.add(ortho.clone());
    twice.add(ortho.clone());
    twice.add(ortho.clone());
    assert_eq!(once, twice);
    assert_eq!(twice.find_by_size_and_origin(ortho.size(), 1).unwrap().len(), 1);
    assert_eq!(twice.find_by_size_and_hop(ortho.size(), 3).unwrap().len(), 1);
}

#[test]
fn subtract_drops_a_candidate_with_a_known_origin() {
    let mut repo = Repo::new();
    repo.add(Ortho::new(1, 2, 3, 4));
    let other = Ortho::new(1, 5, 6, 7);
    let fresh = Ortho::new(8, 5, 6, 7);
    let mut candidates = Bucket::new();
    candidates.insert(other.clone());
    candidates.insert(fresh.clone());
    let res = repo.set_subract(candidates);
    assert_eq!(res.len(), 1);
    assert!(!res.contains(&other));
    assert!(res.contains(&fresh));
}

#[test]
fn missing_buckets_are_none() {
    let repo = Repo::new();
    let ortho = Ortho::new(1, 2, 3, 4);
    assert!(repo.find_by_size_and_origin(ortho.size(), 1).is_none());
    assert!(repo.find_by_size_and_hop(ortho.size(), 2).is_none());
    assert_eq!(repo.len(), 0);
}

fn literal(words: [&str; 4], interner: &mut Interner) -> LiteralRepo {
    let mut repo = Repo::new();
    repo.add(ortho_of(interner, words[0], words[1], words[2], words[3]));
    repo.unintern(interner).unwrap()
}

#[test]
fn merging_repositories_is_commutative_associative_and_idempotent() {
    let mut interner = Interner::new();
    let a = literal(["a", "b", "c", "d"], &mut interner);
    let b = literal(["e", "f", "g", "h"], &mut interner);
    let c = literal(["a", "x", "y", "z"], &mut interner);

    let mut ab = a.clone();
    ab.merge(b.clone());
    let mut ba = b.clone();
    ba.merge(a.clone());
    assert_eq!(ab, ba);

    let mut ab_c = ab.clone();
    ab_c.merge(c.clone());
    let mut bc = b.clone();
    bc.merge(c.clone());
    let mut a_bc = a.clone();
    a_bc.merge(bc);
    assert_eq!(ab_c, a_bc);

    let mut aa = a.clone();
    aa.merge(a.clone());
    assert_eq!(aa, a);

    let merged = ab_c.intern(&interner).unwrap();
    assert_eq!(merged.len(), 2);
    let size = Ortho::new(0, 1, 2, 3).size();
    let at_a = merged.find_by_size_and_origin(size, interner.get("a").unwrap()).unwrap();
    assert_eq!(at_a.len(), 2);
}

#[test]
fn two_orthos_survive_the_round_trip() {
    let mut interner = Interner::new();
    let mut repo = Repo::new();
    repo.add(ortho_of(&mut interner, "a", "b", "c", "d"));
    repo.add(ortho_of(&mut interner, "a", "x", "y", "z"));
    repo.add(ortho_of(&mut interner, "e", "b", "c", "d"));
    let back = repo.unintern(&interner).unwrap().intern(&interner).unwrap();
    assert_eq!(back, repo);
    assert_eq!(back.len(), 2);
    assert_eq!(back.hops_len(), 4);
}

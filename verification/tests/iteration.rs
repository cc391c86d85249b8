use enumset::EnumSet;
use enumset::Small;
use enumset::Sparse;

#[test]
fn forward_iteration_ascending() {
    let mut s: EnumSet<Small> = EnumSet::new();
    s.insert(Small::E);
    s.insert(Small::A);
    s.insert(Small::C);
    let mut it = s.iter();
    assert_eq!(it.next(), Some(Small::A));
    assert_eq!(it.next(), Some(Small::C));
    assert_eq!(it.next(), Some(Small::E));
    assert_eq!(it.next(), None);
    assert_eq!(it.next(), None);
    // The source set is untouched.
    assert_eq!(s.len(), 3);
}

#[test]
fn reverse_iteration_descending() {
    let mut s: EnumSet<Small> = EnumSet::new();
    s.insert(Small::E);
    s.insert(Small::A);
    s.insert(Small::C);
    let mut it = s.iter();
    assert_eq!(it.next_back(), Some(Small::E));
    assert_eq!(it.next_back(), Some(Small::C));
    assert_eq!(it.next_back(), Some(Small::A));
    assert_eq!(it.next_back(), None);
}

#[test]
fn both_ends_share_the_remainder() {
    let mut s: EnumSet<Small> = EnumSet::new();
    s.insert(Small::B);
    s.insert(Small::D);
    s.insert(Small::F);
    let mut it = s.iter();
    assert_eq!(it.next(), Some(Small::B));
    assert_eq!(it.next_back(), Some(Small::F));
    assert_eq!(it.next(), Some(Small::D));
    assert_eq!(it.next(), None);
    assert_eq!(it.next_back(), None);
}

#[test]
fn iteration_yields_exactly_the_members() {
    let values = [Small::B, Small::D, Small::G];
    let mut s: EnumSet<Small> = EnumSet::new();
    for v in values {
        s.insert(v);
    }
    let mut seen: Vec<Small> = Vec::new();
    let mut it = s.iter();
    while let Some(v) = it.next() {
        seen.push(v);
    }
    assert_eq!(seen, vec![Small::B, Small::D, Small::G]);
    let mut rebuilt: EnumSet<Small> = EnumSet::new();
    for v in seen {
        rebuilt.insert(v);
    }
    assert!(rebuilt == s);
}

#[test]
fn size_hint_is_exact() {
    let mut s: EnumSet<Small> = EnumSet::new();
    s.insert(Small::A);
    s.insert(Small::G);
    let mut it = s.iter();
    assert_eq!(it.size_hint(), (2, Some(2)));
    it.next();
    assert_eq!(it.size_hint(), (1, Some(1)));
    it.next();
    assert_eq!(it.size_hint(), (0, Some(0)));
}

#[test]
fn sparse_iteration_order() {
    let mut s: EnumSet<Sparse> = EnumSet::new();
    s.insert(Sparse::D);
    s.insert(Sparse::A);
    s.insert(Sparse::C);
    let mut it = s.iter();
    assert_eq!(it.next(), Some(Sparse::A));
    assert_eq!(it.next(), Some(Sparse::C));
    assert_eq!(it.next(), Some(Sparse::D));
    assert_eq!(it.next(), None);
    let mut back = s.iter();
    assert_eq!(back.next_back(), Some(Sparse::D));
    assert_eq!(back.next_back(), Some(Sparse::C));
    assert_eq!(back.next_back(), Some(Sparse::A));
    assert_eq!(back.next_back(), None);
}

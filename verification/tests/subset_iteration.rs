use enumset::EnumSet;
use enumset::Small;
use enumset::Sparse;

#[test]
fn subsets_of_three_values_ascending() {
    let mut s: EnumSet<Small> = EnumSet::new();
    s.insert(Small::A);
    s.insert(Small::B);
    s.insert(Small::C);
    let mut it = s.subsets();
    let mut seen: Vec<u8> = Vec::new();
    while let Some(sub) = it.next() {
        assert!(sub.is_subset(s));
        seen.push(sub.as_u8());
    }
    assert_eq!(seen, vec![0, 1, 2, 3, 4, 5, 6, 7]);
}

#[test]
fn subsets_of_sparse_mask() {
    let mut s: EnumSet<Small> = EnumSet::new();
    s.insert(Small::B);
    s.insert(Small::E);
    let mut it = s.subsets();
    let mut seen: Vec<u8> = Vec::new();
    while let Some(sub) = it.next() {
        assert!(sub.is_subset(s));
        seen.push(sub.as_u8());
    }
    assert_eq!(seen, vec![0b00000, 0b00010, 0b10000, 0b10010]);
}

#[test]
fn subsets_of_empty_universe() {
    let s: EnumSet<Small> = EnumSet::new();
    let mut it = s.subsets();
    let first = it.next();
    assert!(first.is_some());
    assert!(first.unwrap().is_empty());
    assert!(it.next().is_none());
    assert!(it.next().is_none());
}

#[test]
fn subsets_count_is_two_to_the_popcount() {
    let mut s: EnumSet<Small> = EnumSet::new();
    s.insert(Small::A);
    s.insert(Small::C);
    s.insert(Small::E);
    s.insert(Small::G);
    let mut it = s.subsets();
    let mut count: usize = 0;
    let mut previous: Option<u8> = None;
    let mut last: Option<EnumSet<Small>> = None;
    while let Some(sub) = it.next() {
        let v = sub.as_u8();
        if let Some(p) = previous {
            assert!(p < v);
        }
        previous = Some(v);
        last = Some(sub);
        count += 1;
    }
    assert_eq!(count, 16);
    assert!(last.unwrap() == s);
}

#[test]
fn subsets_of_widest_word() {
    let mut s: EnumSet<Sparse> = EnumSet::new();
    s.insert(Sparse::A);
    s.insert(Sparse::D);
    let mut it = s.subsets();
    let mut seen: Vec<u128> = Vec::new();
    while let Some(sub) = it.next() {
        assert!(sub.is_subset(s));
        seen.push(sub.as_u128());
    }
    let a = 1u128 << 10;
    let d = 1u128 << 127;
    assert_eq!(seen, vec![0, a, d, a | d]);
}

use enumset::EnumSet;
use enumset::Small;

#[test]
fn empty_set_basics() {
    let s: EnumSet<Small> = EnumSet::new();
    assert_eq!(s.len(), 0);
    assert!(s.is_empty());
    assert_eq!(s.as_u8(), 0);
    let d: EnumSet<Small> = EnumSet::default();
    assert!(s == d);
    let e: EnumSet<Small> = EnumSet::empty();
    assert!(s == e);
}

#[test]
fn insert_remove_scenario() {
    let mut set: EnumSet<Small> = EnumSet::new();
    assert!(set.insert(Small::A));
    assert!(set.insert(Small::B));
    assert!(set.insert(Small::C));
    assert!(!set.insert(Small::A));
    assert_eq!(set.as_u8(), 0b111);
    assert!(set.contains(Small::A));
    assert!(set.contains(Small::B));
    assert!(set.contains(Small::C));
    assert!(!set.contains(Small::D));

    assert!(set.remove(Small::B));
    assert!(!set.remove(Small::B));
    assert_eq!(set.as_u8(), 0b101);

    let mut efg: EnumSet<Small> = EnumSet::new();
    efg.insert(Small::E);
    efg.insert(Small::F);
    efg.insert(Small::G);
    set.insert_all(efg);
    assert_eq!(set.as_u8(), 0b111_0101);
    assert_eq!(set.len(), 5);

    let mut ad: EnumSet<Small> = EnumSet::new();
    ad.insert(Small::A);
    ad.insert(Small::D);
    set.remove_all(ad);
    assert_eq!(set.as_u8(), 0b111_0100);

    set.clear();
    assert!(set.is_empty());
}

#[test]
fn intersection_of_disjoint_is_empty() {
    let ab = EnumSet::only(Small::A).union(EnumSet::only(Small::B));
    let c = EnumSet::only(Small::C);
    let meet = ab.intersection(c);
    assert!(meet.is_empty());
    assert!(ab.is_disjoint(c));
}

#[test]
fn complement_over_seven_variants() {
    let eg = EnumSet::only(Small::E).union(EnumSet::only(Small::G));
    let rest = eg.complement();
    assert!(rest.contains(Small::A));
    assert!(rest.contains(Small::B));
    assert!(rest.contains(Small::C));
    assert!(rest.contains(Small::D));
    assert!(rest.contains(Small::F));
    assert!(!rest.contains(Small::E));
    assert!(!rest.contains(Small::G));
    assert_eq!(rest.len(), 5);
}

#[test]
fn algebra_laws_on_samples() {
    let a = EnumSet::only(Small::A).union(EnumSet::only(Small::C)).union(
        EnumSet::only(Small::E),
    );
    let b = EnumSet::only(Small::B).union(EnumSet::only(Small::C));
    let c = EnumSet::only(Small::C).union(EnumSet::only(Small::G));

    // Union is commutative and associative.
    assert!(a.union(b) == b.union(a));
    assert!(a.union(b).union(c) == a.union(b.union(c)));

    // Intersection distributes over union.
    assert!(a.intersection(b.union(c)) == a.intersection(b).union(a.intersection(c)));

    // Complementing twice gives the set back.
    assert!(a.complement().complement() == a);

    // Difference is intersection with the complement.
    assert!(a.difference(b) == a.intersection(b.complement()));

    // Symmetric difference splits into the two one-sided differences.
    assert!(a.symmetrical_difference(b) == a.difference(b).union(b.difference(a)));
}

#[test]
fn only_membership_round_trip() {
    let values = [
        Small::A,
        Small::B,
        Small::C,
        Small::D,
        Small::E,
        Small::F,
        Small::G,
    ];
    for v in values {
        let s = EnumSet::only(v);
        assert!(s.contains(v));
        assert_eq!(s.len(), 1);
        for u in values {
            if u != v {
                assert!(!s.contains(u));
            }
        }
    }
}

#[test]
fn subset_and_superset() {
    let ab = EnumSet::only(Small::A).union(EnumSet::only(Small::B));
    let abc = ab.union(EnumSet::only(Small::C));
    assert!(ab.is_subset(abc));
    assert!(abc.is_superset(ab));
    assert!(!abc.is_subset(ab));
    let ad = EnumSet::only(Small::A).union(EnumSet::only(Small::D));
    assert!(!ad.is_subset(abc));
}

#[test]
fn all_and_counts() {
    let all: EnumSet<Small> = EnumSet::all();
    assert_eq!(all.as_u8(), 0x7f);
    assert_eq!(all.len(), 7);
    assert_eq!(EnumSet::<Small>::bit_width(), 7);
    assert_eq!(EnumSet::<Small>::variant_count(), 7);
}

#[test]
fn invariant_holds_after_mutations() {
    // Every reachable set keeps its bits inside the valid-bits mask, so
    // exporting it as the backing integer never shows an invalid bit.
    let mut s: EnumSet<Small> = EnumSet::new();
    s.insert(Small::G);
    s.insert(Small::A);
    s.insert_all(EnumSet::all());
    s.remove(Small::D);
    let mut t = s.complement().symmetrical_difference(s);
    t.remove_all(EnumSet::only(Small::B));
    assert_eq!(t.as_u8() & !0x7fu8, 0);
    assert_eq!(s.as_u8() & !0x7fu8, 0);
}

#[test]
fn debug_rendering() {
    let mut s: EnumSet<Small> = EnumSet::new();
    s.insert(Small::B);
    s.insert(Small::A);
    s.insert(Small::G);
    assert_eq!(s.debug_string(), "EnumSet(A | B | G)");
    let e: EnumSet<Small> = EnumSet::new();
    assert_eq!(e.debug_string(), "EnumSet()");
    assert_eq!(EnumSet::only(Small::D).debug_string(), "EnumSet(D)");
}

#[test]
fn clone_and_eq() {
    let s = EnumSet::only(Small::C).union(EnumSet::only(Small::F));
    let t = s.clone();
    assert!(s == t);
    assert!(s != EnumSet::only(Small::C));
}

#[test]
fn set_equals_bare_value() {
    let s = EnumSet::only(Small::E);
    assert!(s.is_only(Small::E));
    assert!(!s.is_only(Small::F));
    let mut t = s;
    t.insert(Small::A);
    assert!(!t.is_only(Small::E));
    assert!(!EnumSet::<Small>::new().is_only(Small::A));
}

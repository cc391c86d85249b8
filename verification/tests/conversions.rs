use enumset::EnumSet;
use enumset::Small;
use enumset::Sparse;

#[test]
fn round_trip_every_width() {
    let mut s: EnumSet<Small> = EnumSet::new();
    s.insert(Small::A);
    s.insert(Small::D);
    s.insert(Small::G);
    let bits: u8 = 0b100_1001;
    assert_eq!(s.as_u8(), bits);
    assert_eq!(s.as_u16(), bits as u16);
    assert_eq!(s.as_u32(), bits as u32);
    assert_eq!(s.as_u64(), bits as u64);
    assert_eq!(s.as_u128(), bits as u128);
    assert_eq!(s.as_usize(), bits as usize);
    assert!(EnumSet::<Small>::from_u8(bits) == s);
    assert!(EnumSet::<Small>::from_u16(bits as u16) == s);
    assert!(EnumSet::<Small>::from_u32(bits as u32) == s);
    assert!(EnumSet::<Small>::from_u64(bits as u64) == s);
    assert!(EnumSet::<Small>::from_u128(bits as u128) == s);
    assert!(EnumSet::<Small>::from_usize(bits as usize) == s);
    assert!(EnumSet::<Small>::try_from_u8(s.try_as_u8().unwrap()).unwrap() == s);
}

#[test]
fn checked_import_refuses_invalid_bits() {
    assert!(EnumSet::<Small>::try_from_u8(0x80).is_none());
    assert!(EnumSet::<Small>::try_from_u8(0xff).is_none());
    assert!(EnumSet::<Small>::try_from_u16(0x100).is_none());
    assert!(EnumSet::<Small>::try_from_u128(1u128 << 99).is_none());
    assert!(EnumSet::<Small>::try_from_u8(0x7f).is_some());
    assert!(EnumSet::<Small>::try_from_u8(0x7f).unwrap() == EnumSet::all());
    assert!(EnumSet::<Sparse>::try_from_u128(1).is_none());
    assert!(EnumSet::<Sparse>::try_from_u128(1u128 << 10).is_some());
}

#[test]
fn truncating_import_keeps_valid_bits() {
    let all: EnumSet<Small> = EnumSet::all();
    assert!(EnumSet::<Small>::from_u8_truncated(0xff) == all);
    assert!(EnumSet::<Small>::from_u16_truncated(0xaaaa) == EnumSet::<Small>::from_u8(0x2a));
    assert!(EnumSet::<Small>::from_u64_truncated(0x80) == EnumSet::new());
    assert!(EnumSet::<Small>::from_usize_truncated(0x7f) == all);
    let d = 1u128 << 127;
    assert!(EnumSet::<Sparse>::from_u128_truncated(!0u128) == EnumSet::all());
    assert!(EnumSet::<Sparse>::from_u128_truncated(d | 1) == EnumSet::only(Sparse::D));
}

#[test]
fn checked_export_refuses_what_does_not_fit() {
    let mut s: EnumSet<Sparse> = EnumSet::new();
    s.insert(Sparse::A);
    s.insert(Sparse::B);
    s.insert(Sparse::C);
    assert!(s.try_as_u8().is_none());
    assert!(s.try_as_u16().is_none());
    assert_eq!(s.try_as_u32(), Some(0x4010_0400));
    assert_eq!(s.try_as_u64(), Some(0x4010_0400));
    assert_eq!(s.as_u32(), 0x4010_0400);
    s.insert(Sparse::D);
    assert!(s.try_as_u64().is_none());
    assert_eq!(s.try_as_u128(), Some((1u128 << 127) | 0x4010_0400));
}

#[test]
fn truncating_export_discards_high_bits() {
    let mut s: EnumSet<Sparse> = EnumSet::new();
    s.insert(Sparse::A);
    s.insert(Sparse::B);
    assert_eq!(s.as_u8_truncated(), 0);
    assert_eq!(s.as_u16_truncated(), 0x0400);
    assert_eq!(s.as_u32_truncated(), 0x0010_0400);
    s.insert(Sparse::D);
    assert_eq!(s.as_u64_truncated(), 0x0010_0400);
    assert_eq!(s.as_u128_truncated(), (1u128 << 127) | 0x0010_0400);
}

#[test]
fn repr_family_is_zero_cost_and_checked() {
    let mut s: EnumSet<Small> = EnumSet::new();
    s.insert(Small::B);
    s.insert(Small::F);
    let raw: u8 = s.as_repr();
    assert_eq!(raw, 0b10_0010);
    assert!(EnumSet::<Small>::from_repr(raw) == s);
    assert!(EnumSet::<Small>::from_repr_unchecked(raw) == s);
    assert!(EnumSet::<Small>::try_from_repr(raw).unwrap() == s);
    assert!(EnumSet::<Small>::try_from_repr(0x80).is_none());
    assert!(EnumSet::<Small>::from_repr_truncated(0xff) == EnumSet::all());

    let mut t: EnumSet<Sparse> = EnumSet::new();
    t.insert(Sparse::D);
    let raw128: u128 = t.as_repr();
    assert_eq!(raw128, 1u128 << 127);
    assert!(EnumSet::<Sparse>::from_repr(raw128) == t);
    assert!(EnumSet::<Sparse>::try_from_repr(3).is_none());
}

#[test]
fn sparse_mask_shape() {
    assert_eq!(EnumSet::<Sparse>::bit_width(), 128);
    assert_eq!(EnumSet::<Sparse>::variant_count(), 4);
    let all: EnumSet<Sparse> = EnumSet::all();
    assert_eq!(all.len(), 4);
    let expected: u128 = (1u128 << 127) | (1u128 << 30) | (1u128 << 20) | (1u128 << 10);
    assert_eq!(all.as_u128(), expected);
    assert!(all.contains(Sparse::A));
    assert!(all.contains(Sparse::B));
    assert!(all.contains(Sparse::C));
    assert!(all.contains(Sparse::D));
    assert_eq!(all.debug_string(), "EnumSet(A | B | C | D)");
}

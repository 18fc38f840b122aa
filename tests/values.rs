use pallas_codec::collections::{CborSet, KeyValuePairs, NonEmptySet};
use pallas_codec::primitives::{AnyUInt, Bytes, Int, InvalidHex, NonZeroInt, PositiveCoin};
use pallas_codec::wire::{decode, to_vec, ErrorKind};
use pallas_codec::wrappers::KeepRaw;

fn h(s: &str) -> Vec<u8> {
    hex::decode(s).unwrap()
}

#[test]
fn bytes_hex_text_round_trip() {
    let b = Bytes::new(vec![0x00, 0xab, 0x10, 0xff]);
    assert_eq!(b.to_text(), "00ab10ff");
    let back = Bytes::from_text("00AB10ff").unwrap();
    assert_eq!(back, b);
    assert_eq!(Bytes::from_text(&b.to_text()).unwrap(), b);
}

#[test]
fn bytes_reject_invalid_hex() {
    assert_eq!(Bytes::from_text("abc"), Err(InvalidHex));
    assert_eq!(Bytes::from_text("zz"), Err(InvalidHex));
    assert_eq!(Bytes::from_text("").unwrap().to_vec(), Vec::<u8>::new());
}

#[test]
fn bytes_codec() {
    let b = Bytes::from(vec![1u8, 2, 3]);
    assert_eq!(to_vec(&b), h("43010203"));
    let back: Bytes = decode(&h("43010203")).unwrap();
    assert_eq!(Vec::<u8>::from(back), vec![1, 2, 3]);
    assert_eq!(decode::<Bytes>(&h("5f4101ff")).unwrap_err().kind, ErrorKind::Malformed);
}

#[test]
fn int_covers_cbor_range() {
    let lo = Int::try_new(-(1i128 << 64)).unwrap();
    assert_eq!(to_vec(&lo), h("3bffffffffffffffff"));
    assert_eq!(decode::<Int>(&h("3bffffffffffffffff")).unwrap().value(), -(1i128 << 64));
    let hi = Int::try_new((1i128 << 64) - 1).unwrap();
    assert_eq!(to_vec(&hi), h("1bffffffffffffffff"));
    assert_eq!(Int::try_new(1i128 << 64), Err(1i128 << 64));
    assert_eq!(i128::from(Int::from(-3i64)), -3);
    assert_eq!(to_vec(&Int::from(-3i64)), h("22"));
}

#[test]
fn key_value_pairs_to_map_last_wins() {
    let kv = KeyValuePairs::Def(vec![(1u64, 10u64), (2, 20), (1, 30)]);
    let m = kv.to_map();
    assert_eq!(m.len(), 2);
    assert_eq!(m[&1], 30);
    assert_eq!(m[&2], 20);
}

#[test]
fn sets_of_kept_values_unwrap() {
    let s: CborSet<KeepRaw<u64>> = decode(&h("d90102821818190100")).unwrap();
    assert_eq!(s.as_vec()[0].raw_cbor(), &h("1818")[..]);
    let plain = CborSet::from_kept(s);
    assert_eq!(plain.to_vec(), vec![24, 256]);
    let n: NonEmptySet<KeepRaw<u64>> = decode(&h("8101")).unwrap();
    assert_eq!(NonEmptySet::from_kept(n).to_vec(), vec![1]);
}

#[test]
fn integer_conversions() {
    assert_eq!(u64::from(&AnyUInt::U16(300)), 300);
    assert_eq!(u64::from(&PositiveCoin::try_new(9).unwrap()), 9);
    assert_eq!(u64::from(PositiveCoin::try_new(9).unwrap()), 9);
    assert_eq!(i64::from(&NonZeroInt::try_new(-9).unwrap()), -9);
    assert_eq!(i64::from(NonZeroInt::try_new(-9).unwrap()), -9);
    assert_eq!(Int::from(-2i32).value(), -2);
}

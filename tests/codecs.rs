use pallas_codec::collections::{
    CborSet, KeyValuePairs, MaybeIndefArray, NonEmptyKeyValuePairs, NonEmptySet,
    OrderPreservingProperties,
};
use pallas_codec::primitives::{AnyUInt, NonZeroInt, PositiveCoin};
use pallas_codec::wire::{decode, to_vec, DecodeError, ErrorKind};
use pallas_codec::wrappers::{AnyCbor, CborWrap, EmptyMap, Nullable, SkipCbor, TagWrap, ZeroOrOneArray};

fn h(s: &str) -> Vec<u8> {
    hex::decode(s).unwrap()
}

#[test]
fn integers_use_shortest_heads() {
    assert_eq!(to_vec(&5u64), h("05"));
    assert_eq!(to_vec(&24u64), h("1818"));
    assert_eq!(to_vec(&1000u64), h("1903e8"));
    assert_eq!(to_vec(&70000u64), h("1a00011170"));
    assert_eq!(to_vec(&u64::MAX), h("1bffffffffffffffff"));
    assert_eq!(to_vec(&-1i64), h("20"));
    assert_eq!(to_vec(&-500i64), h("3901f3"));
    assert_eq!(decode::<i64>(&h("3901f3")).unwrap(), -500);
    assert_eq!(decode::<u32>(&h("1b0000000000000007")).unwrap(), 7);
}

#[test]
fn u32_rejects_values_over_32_bits() {
    let e = decode::<u32>(&h("1b0000000100000000")).unwrap_err();
    assert_eq!(e.kind, ErrorKind::Malformed);
}

#[test]
fn truncated_input_is_malformed() {
    assert_eq!(decode::<u64>(&h("19")).unwrap_err(), DecodeError { kind: ErrorKind::Malformed, at: 0 });
    assert_eq!(decode::<u64>(&[]).unwrap_err().kind, ErrorKind::Malformed);
}

#[test]
fn width_fidelity_inline_and_one_byte() {
    let a: AnyUInt = decode(&h("05")).unwrap();
    let b: AnyUInt = decode(&h("1805")).unwrap();
    assert_eq!(a, AnyUInt::MajorByte(5));
    assert_eq!(b, AnyUInt::U8(5));
    assert_ne!(a, b);
    assert_eq!(to_vec(&a), h("05"));
    assert_eq!(to_vec(&b), h("1805"));
    assert_eq!(u64::from(a), 5);
    assert_eq!(u64::from(b), 5);
}

#[test]
fn width_fidelity_wide_encodings() {
    for s in ["190005", "1a00000005", "1b0000000000000005"] {
        let x: AnyUInt = decode(&h(s)).unwrap();
        assert_eq!(x.value(), 5);
        assert_eq!(to_vec(&x), h(s));
    }
    assert_eq!(decode::<AnyUInt>(&h("190005")).unwrap(), AnyUInt::U16(5));
    assert_eq!(decode::<AnyUInt>(&h("1a00000005")).unwrap(), AnyUInt::U32(5));
    assert_eq!(decode::<AnyUInt>(&h("1b0000000000000005")).unwrap(), AnyUInt::U64(5));
}

#[test]
fn any_uint_rejects_other_types() {
    let e = decode::<AnyUInt>(&h("20")).unwrap_err();
    assert_eq!(e.kind, ErrorKind::UnexpectedType);
}

#[test]
fn positive_coin_refines_zero() {
    assert_eq!(PositiveCoin::try_new(0), Err(0));
    let c = PositiveCoin::try_new(42).unwrap();
    assert_eq!(c.value(), 42);
    assert_eq!(to_vec(&c), h("182a"));
    assert_eq!(decode::<PositiveCoin>(&h("182a")).unwrap(), c);
    assert_eq!(decode::<PositiveCoin>(&h("00")).unwrap_err().kind, ErrorKind::Zero);
}

#[test]
fn non_zero_int_refines_zero() {
    assert_eq!(NonZeroInt::try_new(0), Err(0));
    let n = NonZeroInt::try_new(-7).unwrap();
    assert_eq!(n.value(), -7);
    assert_eq!(to_vec(&n), h("26"));
    assert_eq!(decode::<NonZeroInt>(&h("26")).unwrap(), n);
    assert_eq!(decode::<NonZeroInt>(&h("00")).unwrap_err().kind, ErrorKind::Zero);
    let m = NonZeroInt::try_new(i64::MIN).unwrap();
    assert_eq!(decode::<NonZeroInt>(&to_vec(&m)).unwrap().value(), i64::MIN);
}

#[test]
fn non_empty_collections_refuse_empty_input() {
    assert!(NonEmptySet::<u64>::from_vec(vec![]).is_none());
    assert_eq!(NonEmptySet::<u64>::try_from_vec(vec![]).unwrap_err(), Vec::<u64>::new());
    assert!(NonEmptyKeyValuePairs::<u64, u64>::from_vec(vec![]).is_none());
    let kv = KeyValuePairs::<u64, u64>::Indef(vec![]);
    assert_eq!(NonEmptyKeyValuePairs::try_from_pairs(kv.clone()).unwrap_err(), kv);
    assert_eq!(decode::<NonEmptySet<u64>>(&h("d9010280")).unwrap_err().kind, ErrorKind::Empty);
    assert_eq!(decode::<NonEmptyKeyValuePairs<u64, u64>>(&h("a0")).unwrap_err().kind, ErrorKind::Empty);
}

#[test]
fn non_empty_collections_accept_elements() {
    let s = NonEmptySet::from_vec(vec![1u64, 2]).unwrap();
    assert_eq!(to_vec(&s), h("d90102820102"));
    assert_eq!(s.to_vec(), vec![1, 2]);
    let kv = NonEmptyKeyValuePairs::from_vec(vec![(1u64, 2u64)]).unwrap();
    assert_eq!(to_vec(&kv), h("a10102"));
    let back: NonEmptyKeyValuePairs<u64, u64> = decode(&h("bf0102ff")).unwrap();
    assert_eq!(back, NonEmptyKeyValuePairs::Indef(vec![(1, 2)]));
    assert_eq!(back.to_vec(), vec![(1, 2)]);
    let kept = NonEmptyKeyValuePairs::try_from_pairs(KeyValuePairs::Indef(vec![(3u64, 4u64)])).unwrap();
    assert_eq!(kept, NonEmptyKeyValuePairs::Indef(vec![(3, 4)]));
}

#[test]
fn set_tag_is_optional_on_read() {
    let plain: CborSet<u64> = decode(&h("820102")).unwrap();
    let tagged: CborSet<u64> = decode(&h("d90102820102")).unwrap();
    assert_eq!(plain, tagged);
    assert_eq!(plain.as_vec(), &vec![1, 2]);
}

#[test]
fn set_refuses_other_tags() {
    let e = decode::<CborSet<u64>>(&h("d90103820102")).unwrap_err();
    assert_eq!(e.kind, ErrorKind::UnknownTag(259));
    let e = decode::<CborSet<u64>>(&h("c1820102")).unwrap_err();
    assert_eq!(e.kind, ErrorKind::UnknownTag(1));
}

#[test]
fn set_always_writes_tag() {
    let plain: CborSet<u64> = decode(&h("820102")).unwrap();
    assert_eq!(to_vec(&plain), h("d90102820102"));
    assert_eq!(to_vec(&CborSet::new(vec![7u64])), h("d901028107"));
    let indef: CborSet<u64> = decode(&h("9f0102ff")).unwrap();
    assert_eq!(to_vec(&indef), h("d90102820102"));
}

#[test]
fn key_value_pairs_keep_wire_order() {
    // keys 2 then 1: not the canonical order
    let bytes = h("a202030104");
    let kv: KeyValuePairs<u64, u64> = decode(&bytes).unwrap();
    assert_eq!(kv, KeyValuePairs::Def(vec![(2, 3), (1, 4)]));
    assert_eq!(to_vec(&kv), bytes);
    assert_eq!(kv.to_vec(), vec![(2, 3), (1, 4)]);
}

#[test]
fn key_value_pairs_keep_duplicates_and_framing() {
    let bytes = h("bf01020103ff");
    let kv: KeyValuePairs<u64, u64> = decode(&bytes).unwrap();
    assert_eq!(kv, KeyValuePairs::Indef(vec![(1, 2), (1, 3)]));
    assert_eq!(to_vec(&kv), bytes);
    assert_eq!(to_vec(&KeyValuePairs::from_vec(vec![(1u64, 2u64)])), h("a10102"));
}

#[test]
fn maybe_indef_array_keeps_framing() {
    let def: MaybeIndefArray<u64> = decode(&h("820102")).unwrap();
    let indef: MaybeIndefArray<u64> = decode(&h("9f0102ff")).unwrap();
    assert_eq!(def, MaybeIndefArray::Def(vec![1, 2]));
    assert_eq!(indef, MaybeIndefArray::Indef(vec![1, 2]));
    assert_eq!(to_vec(&def), h("820102"));
    assert_eq!(to_vec(&indef), h("9f0102ff"));
    assert_eq!(indef.to_vec(), vec![1, 2]);
    assert_eq!(to_vec(&MaybeIndefArray::<u64>::Indef(vec![])), h("9fff"));
}

#[test]
fn arrays_fail_on_missing_break() {
    assert_eq!(decode::<MaybeIndefArray<u64>>(&h("9f0102")).unwrap_err().kind, ErrorKind::Malformed);
    assert_eq!(decode::<Vec<u64>>(&h("830102")).unwrap_err().kind, ErrorKind::Malformed);
}

#[test]
fn zero_or_one_lengths() {
    let none: ZeroOrOneArray<u64> = decode(&h("80")).unwrap();
    assert_eq!(none.as_option(), &None);
    let one: ZeroOrOneArray<u64> = decode(&h("8107")).unwrap();
    assert_eq!(one.as_option(), &Some(7));
    assert_eq!(to_vec(&one), h("8107"));
    assert_eq!(to_vec(&ZeroOrOneArray::<u64>::new(None)), h("80"));
}

#[test]
fn zero_or_one_rejects_longer_arrays() {
    let e = decode::<ZeroOrOneArray<u64>>(&h("820102")).unwrap_err();
    assert_eq!(e, DecodeError { kind: ErrorKind::InvalidLength, at: 0 });
    let e = decode::<ZeroOrOneArray<u64>>(&h("9f01ff")).unwrap_err();
    assert_eq!(e.kind, ErrorKind::InvalidLength);
}

#[test]
fn nullable_three_states() {
    assert_eq!(decode::<Nullable<u64>>(&h("f6")).unwrap(), Nullable::Null);
    assert_eq!(decode::<Nullable<u64>>(&h("f7")).unwrap(), Nullable::Undefined);
    assert_eq!(decode::<Nullable<u64>>(&h("05")).unwrap(), Nullable::Present(5));
    assert_eq!(to_vec(&Nullable::<u64>::Null), h("f6"));
    assert_eq!(to_vec(&Nullable::<u64>::Undefined), h("f7"));
    assert_eq!(to_vec(&Nullable::Present(5u64)), h("05"));
}

#[test]
fn nullable_collapses_to_option() {
    assert_eq!(Nullable::<u64>::Null.into_option(), None);
    assert_eq!(Nullable::<u64>::Undefined.into_option(), None);
    assert_eq!(Nullable::Present(3u64).into_option(), Some(3));
    assert_eq!(Nullable::from_option(None::<u64>), Nullable::Null);
    assert_eq!(Nullable::Present(3u64).map(|x| x + 1), Nullable::Present(4));
    assert_eq!(Nullable::<u64>::Undefined.map(|x| x + 1), Nullable::Undefined);
    assert_eq!(Nullable::Present(3u64).as_ref(), Nullable::Present(&3));
}

#[test]
fn empty_map_reads_any_map() {
    assert_eq!(decode::<EmptyMap>(&h("a0")).unwrap(), EmptyMap);
    assert_eq!(decode::<EmptyMap>(&h("a10102")).unwrap(), EmptyMap);
    assert_eq!(decode::<EmptyMap>(&h("bf0102ff")).unwrap(), EmptyMap);
    assert_eq!(decode::<EmptyMap>(&h("80")).unwrap_err().kind, ErrorKind::UnexpectedType);
    assert_eq!(to_vec(&EmptyMap), h("a0"));
}

#[test]
fn cbor_wrap_nests_encoded_bytes() {
    let w = CborWrap(vec![1u64, 2]);
    let bytes = to_vec(&w);
    assert_eq!(bytes, h("d81843820102"));
    let back: CborWrap<Vec<u64>> = decode(&bytes).unwrap();
    assert_eq!(back.unwrap(), vec![1, 2]);
}

#[test]
fn tag_wrap_uses_type_tag() {
    let t: TagWrap<u64, 30> = TagWrap::new(5);
    assert_eq!(to_vec(&t), h("d81e05"));
    let back: TagWrap<u64, 30> = decode(&h("c105")).unwrap();
    assert_eq!(back.0, 5);
}

#[test]
fn any_cbor_captures_items() {
    let a: AnyCbor = decode(&h("9f0102ff00")).unwrap();
    assert_eq!(a.raw_bytes(), &h("9f0102ff")[..]);
    assert_eq!(to_vec(&a), h("9f0102ff"));
    let v: Vec<u64> = a.clone().into_decode().unwrap();
    assert_eq!(v, vec![1, 2]);
    assert_eq!(a.clone().into_decode::<u64>().unwrap_err().kind, ErrorKind::Malformed);
    let made = AnyCbor::from_encode(MaybeIndefArray::Indef(vec![1u64]));
    assert_eq!(made.unwrap(), h("9f01ff"));
}

#[test]
fn skip_cbor_steps_over_one_item() {
    let b = h("a1018203040a");
    let (_, p) = SkipCbor::<0>::decode(&b, 0).unwrap();
    assert_eq!(p, 5);
    assert_eq!(SkipCbor::<0>::decode(&h("82"), 0).unwrap_err().kind, ErrorKind::Malformed);
}

#[test]
fn order_preserving_properties_round_trip() {
    let p = OrderPreservingProperties::new(vec![Nullable::Present(3u64), Nullable::Null]);
    let bytes = to_vec(&p);
    assert_eq!(bytes, h("a203f6"));
    let back: OrderPreservingProperties<Nullable<u64>> = decode(&bytes).unwrap();
    assert_eq!(back, p);
}

#[test]
fn round_trip_of_constructed_values() {
    let kv = KeyValuePairs::Indef(vec![(1u64, Nullable::Present(2u64)), (0, Nullable::Undefined)]);
    assert_eq!(decode::<KeyValuePairs<u64, Nullable<u64>>>(&to_vec(&kv)).unwrap(), kv);
    let arr = MaybeIndefArray::Def(vec![AnyUInt::U32(1), AnyUInt::MajorByte(2)]);
    assert_eq!(decode::<MaybeIndefArray<AnyUInt>>(&to_vec(&arr)).unwrap(), arr);
    let z = ZeroOrOneArray::new(Some(CborSet::new(vec![1u64])));
    assert_eq!(decode::<ZeroOrOneArray<CborSet<u64>>>(&to_vec(&z)).unwrap(), z);
}

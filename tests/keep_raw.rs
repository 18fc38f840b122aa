use pallas_codec::wire::{decode, to_vec};
use pallas_codec::wrappers::KeepRaw;
use std::ops::DerefMut;

#[test]
fn keep_raw_retains_original() {
    // An indefinite array loses its framing when decoded into a Vec; KeepRaw
    // still holds the original bytes.
    let raw = hex::decode("9F0102FF").unwrap();
    let subject: KeepRaw<Vec<u32>> = decode(&raw).unwrap();
    assert_eq!(*subject, vec![1, 2]);
    assert_eq!(subject.raw_cbor(), raw);
}

#[test]
fn keep_raw_fallbacks_to_encode() {
    // Built from a value, KeepRaw has no original bytes and encodes the value.
    let subject = KeepRaw::new(vec![1u32, 2]);
    let encoded = to_vec(&subject);

    assert_eq!(encoded, hex::decode("820102").unwrap());
}

#[test]
fn keep_raw_clears_original_when_mutated() {
    // Mutating the value drops the original bytes, so encoding follows the value.
    let raw = hex::decode("9F0102FF").unwrap();
    let mut subject: KeepRaw<Vec<u32>> = decode(&raw).unwrap();

    let inner = subject.deref_mut();
    inner.push(3);

    let encoded = to_vec(&subject);

    assert_eq!(*subject, vec![1, 2, 3]);
    assert_eq!(encoded, hex::decode("83010203").unwrap());
}

#[test]
fn keep_raw_reencodes_captured_bytes() {
    let raw = hex::decode("9F0102FF").unwrap();
    let subject: KeepRaw<Vec<u32>> = decode(&raw).unwrap();
    assert_eq!(to_vec(&subject), raw);
}

#[test]
fn keep_raw_inner_mut_clears_raw() {
    let raw = hex::decode("1903e8").unwrap();
    let mut subject: KeepRaw<u64> = decode(&raw).unwrap();
    assert_eq!(subject.raw_cbor(), &raw[..]);
    *subject.inner_mut() += 1;
    assert!(subject.raw_cbor().is_empty());
    assert_eq!(to_vec(&subject), hex::decode("1903e9").unwrap());
}

#[test]
fn keep_raw_clear_raw_and_unwrap() {
    let raw = hex::decode("18ff").unwrap();
    let mut subject: KeepRaw<u64> = decode(&raw).unwrap();
    subject.clear_raw();
    assert!(subject.raw_cbor().is_empty());
    let owned = subject.to_owned();
    assert_eq!(owned.unwrap(), 255);
}

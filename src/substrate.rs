//! The primitive reads and writes of the minicbor engine that the codecs use.
//!
//! Each function here makes one call into minicbor; its contract states what
//! that call writes or reads, as minicbor 0.25's `Encoder` and `Decoder` do it.
use crate::primitives::{hex_bytes, hex_text};
use crate::wire::{bytes_item, head, head_of, int_head, int_wire, open_head};
use vstd::prelude::*;

verus! {

/// minicbor's decoding error; the codecs map it to their own [`crate::wire::DecodeError`].
#[verifier::external_type_specification]
#[verifier::external_body]
pub struct ExDecodeError(minicbor::decode::Error);

/// Relies on `Encoder::u64`: the shortest head of major type 0.
#[verifier::external_body]
pub(crate) fn write_u64(out: &mut Vec<u8>, x: u64)
    ensures
        final(out)@ == old(out)@ + head(0, x as nat),
{
    let _ = minicbor::Encoder::new(out).u64(x);
}

/// Relies on `Decoder::u64`: an unsigned integer head of any width.
#[verifier::external_body]
pub(crate) fn read_u64(b: &[u8], pos: usize) -> (r: Result<(u64, usize), minicbor::decode::Error>)
    requires
        pos <= b@.len(),
    ensures
        match r {
            Ok((v, p)) => pos < p <= b@.len() && head_of(b@.skip(pos as int), 0) == Some(
                (v as nat, (p - pos) as nat),
            ),
            Err(_) => head_of(b@.skip(pos as int), 0) is None,
        },
{
    let mut d = minicbor::Decoder::new(b);
    d.set_position(pos);
    let v = d.u64()?;
    Ok((v, d.position()))
}


/// Relies on `Encoder::i64`: a non-negative value as major type 0, a negative
/// one `x` as major type 1 with argument `-1 - x`, each with the shortest head.
#[verifier::external_body]
pub(crate) fn write_i64(out: &mut Vec<u8>, x: i64)
    ensures
        final(out)@ == old(out)@ + int_wire(x as int),
{
    let _ = minicbor::Encoder::new(out).i64(x);
}

/// Relies on `Encoder::array`: the shortest head of major type 4.
#[verifier::external_body]
pub(crate) fn write_array(out: &mut Vec<u8>, len: u64)
    ensures
        final(out)@ == old(out)@ + head(4, len as nat),
{
    let _ = minicbor::Encoder::new(out).array(len);
}

/// Relies on `Encoder::map`: the shortest head of major type 5.
#[verifier::external_body]
pub(crate) fn write_map(out: &mut Vec<u8>, len: u64)
    ensures
        final(out)@ == old(out)@ + head(5, len as nat),
{
    let _ = minicbor::Encoder::new(out).map(len);
}

/// Relies on `Encoder::tag`: the shortest head of major type 6.
#[verifier::external_body]
pub(crate) fn write_tag(out: &mut Vec<u8>, tag: u64)
    ensures
        final(out)@ == old(out)@ + head(6, tag as nat),
{
    let _ = minicbor::Encoder::new(out).tag(minicbor::data::Tag::new(tag));
}

/// Relies on `Encoder::bytes`: the shortest head of major type 2 for the
/// length, then the bytes.
#[verifier::external_body]
pub(crate) fn write_bytes(out: &mut Vec<u8>, x: &[u8])
    ensures
        final(out)@ == old(out)@ + head(2, x@.len()) + x@,
{
    let _ = minicbor::Encoder::new(out).bytes(x);
}

/// Relies on `Encoder::begin_array`: the byte `0x9f`.
#[verifier::external_body]
pub(crate) fn write_begin_array(out: &mut Vec<u8>)
    ensures
        final(out)@ == old(out)@.push(0x9f),
{
    let _ = minicbor::Encoder::new(out).begin_array();
}

/// Relies on `Encoder::begin_map`: the byte `0xbf`.
#[verifier::external_body]
pub(crate) fn write_begin_map(out: &mut Vec<u8>)
    ensures
        final(out)@ == old(out)@.push(0xbf),
{
    let _ = minicbor::Encoder::new(out).begin_map();
}

/// Relies on `Encoder::end`: the break byte `0xff`.
#[verifier::external_body]
pub(crate) fn write_end(out: &mut Vec<u8>)
    ensures
        final(out)@ == old(out)@.push(0xff),
{
    let _ = minicbor::Encoder::new(out).end();
}

/// Relies on `Encoder::null`: the byte `0xf6`.
#[verifier::external_body]
pub(crate) fn write_null(out: &mut Vec<u8>)
    ensures
        final(out)@ == old(out)@.push(0xf6),
{
    let _ = minicbor::Encoder::new(out).null();
}

/// Relies on `Encoder::undefined`: the byte `0xf7`.
#[verifier::external_body]
pub(crate) fn write_undefined(out: &mut Vec<u8>)
    ensures
        final(out)@ == old(out)@.push(0xf7),
{
    let _ = minicbor::Encoder::new(out).undefined();
}

/// Relies on `Decoder::u32`: an unsigned integer head of any width whose
/// value fits in 32 bits.
#[verifier::external_body]
pub(crate) fn read_u32(b: &[u8], pos: usize) -> (r: Result<(u32, usize), minicbor::decode::Error>)
    requires
        pos <= b@.len(),
    ensures
        match r {
            Ok((v, p)) => pos < p <= b@.len() && head_of(b@.skip(pos as int), 0) == Some(
                (v as nat, (p - pos) as nat),
            ),
            Err(_) => match head_of(b@.skip(pos as int), 0) {
                Some((v, _)) => v > u32::MAX,
                None => true,
            },
        },
{
    let mut d = minicbor::Decoder::new(b);
    d.set_position(pos);
    let v = d.u32()?;
    Ok((v, d.position()))
}

/// Relies on `Decoder::i64`: an integer head of major type 0 or 1 whose value
/// fits in 64 signed bits.
#[verifier::external_body]
pub(crate) fn read_i64(b: &[u8], pos: usize) -> (r: Result<(i64, usize), minicbor::decode::Error>)
    requires
        pos <= b@.len(),
    ensures
        match r {
            Ok((v, p)) => pos < p <= b@.len() && int_head(b@.skip(pos as int)) == Some(
                (v as int, (p - pos) as nat),
            ),
            Err(_) => match int_head(b@.skip(pos as int)) {
                Some((v, _)) => v < i64::MIN || v > i64::MAX,
                None => true,
            },
        },
{
    let mut d = minicbor::Decoder::new(b);
    d.set_position(pos);
    let v = d.i64()?;
    Ok((v, d.position()))
}

/// Relies on `Decoder::array`: a head of major type 4, with its length, or
/// `None` for the indefinite-length marker `0x9f`.
#[verifier::external_body]
pub(crate) fn read_array(b: &[u8], pos: usize) -> (r: Result<(Option<u64>, usize), minicbor::decode::Error>)
    requires
        pos <= b@.len(),
    ensures
        match r {
            Ok((Some(n), p)) => pos < p <= b@.len() && head_of(b@.skip(pos as int), 4) == Some(
                (n as nat, (p - pos) as nat),
            ),
            Ok((None, p)) => p == pos + 1 && open_head(b@.skip(pos as int), 4),
            Err(_) => head_of(b@.skip(pos as int), 4) is None && !open_head(
                b@.skip(pos as int),
                4,
            ),
        },
{
    let mut d = minicbor::Decoder::new(b);
    d.set_position(pos);
    let n = d.array()?;
    Ok((n, d.position()))
}

/// Relies on `Decoder::map`: a head of major type 5, with its length, or
/// `None` for the indefinite-length marker `0xbf`.
#[verifier::external_body]
pub(crate) fn read_map(b: &[u8], pos: usize) -> (r: Result<(Option<u64>, usize), minicbor::decode::Error>)
    requires
        pos <= b@.len(),
    ensures
        match r {
            Ok((Some(n), p)) => pos < p <= b@.len() && head_of(b@.skip(pos as int), 5) == Some(
                (n as nat, (p - pos) as nat),
            ),
            Ok((None, p)) => p == pos + 1 && open_head(b@.skip(pos as int), 5),
            Err(_) => head_of(b@.skip(pos as int), 5) is None && !open_head(
                b@.skip(pos as int),
                5,
            ),
        },
{
    let mut d = minicbor::Decoder::new(b);
    d.set_position(pos);
    let n = d.map()?;
    Ok((n, d.position()))
}

/// Relies on `Decoder::tag`: a head of major type 6 and its number.
#[verifier::external_body]
pub(crate) fn read_tag(b: &[u8], pos: usize) -> (r: Result<(u64, usize), minicbor::decode::Error>)
    requires
        pos <= b@.len(),
    ensures
        match r {
            Ok((t, p)) => pos < p <= b@.len() && head_of(b@.skip(pos as int), 6) == Some(
                (t as nat, (p - pos) as nat),
            ),
            Err(_) => head_of(b@.skip(pos as int), 6) is None,
        },
{
    let mut d = minicbor::Decoder::new(b);
    d.set_position(pos);
    let t = d.tag()?;
    Ok((t.as_u64(), d.position()))
}

/// Relies on `Decoder::bytes`: a definite-length byte string and its contents.
#[verifier::external_body]
pub(crate) fn read_bytes<'a>(b: &'a [u8], pos: usize) -> (r: Result<(&'a [u8], usize), minicbor::decode::Error>)
    requires
        pos <= b@.len(),
    ensures
        match r {
            Ok((x, p)) => pos < p <= b@.len() && bytes_item(b@.skip(pos as int)) == Some(
                (x@, (p - pos) as nat),
            ),
            Err(_) => bytes_item(b@.skip(pos as int)) is None,
        },
{
    let mut d = minicbor::Decoder::new(b);
    d.set_position(pos);
    let x = d.bytes()?;
    Ok((x, d.position()))
}

/// Relies on `Decoder::null`: the byte `0xf6`.
#[verifier::external_body]
pub(crate) fn read_null(b: &[u8], pos: usize) -> (r: Result<usize, minicbor::decode::Error>)
    requires
        pos <= b@.len(),
    ensures
        match r {
            Ok(p) => p == pos + 1 && pos < b@.len() && b@[pos as int] == 0xf6,
            Err(_) => !(pos < b@.len() && b@[pos as int] == 0xf6),
        },
{
    let mut d = minicbor::Decoder::new(b);
    d.set_position(pos);
    d.null()?;
    Ok(d.position())
}

/// Relies on `Decoder::undefined`: the byte `0xf7`.
#[verifier::external_body]
pub(crate) fn read_undefined(b: &[u8], pos: usize) -> (r: Result<usize, minicbor::decode::Error>)
    requires
        pos <= b@.len(),
    ensures
        match r {
            Ok(p) => p == pos + 1 && pos < b@.len() && b@[pos as int] == 0xf7,
            Err(_) => !(pos < b@.len() && b@[pos as int] == 0xf7),
        },
{
    let mut d = minicbor::Decoder::new(b);
    d.set_position(pos);
    d.undefined()?;
    Ok(d.position())
}

/// Length of the complete data item at the front of `s`, nested items
/// included, as minicbor's `Decoder::skip` finds it; `None` where it fails.
pub uninterp spec fn item_len(s: Seq<u8>) -> Option<nat>;

/// Relies on `Decoder::skip`: it moves past one complete data item.
#[verifier::external_body]
pub(crate) fn skip_item(b: &[u8], pos: usize) -> (r: Result<usize, minicbor::decode::Error>)
    requires
        pos <= b@.len(),
    ensures
        match r {
            Ok(p) => pos < p <= b@.len() && item_len(b@.skip(pos as int)) == Some(
                (p - pos) as nat,
            ),
            Err(_) => item_len(b@.skip(pos as int)) is None,
        },
{
    let mut d = minicbor::Decoder::new(b);
    d.set_position(pos);
    d.skip()?;
    Ok(d.position())
}

/// Relies on `Decoder::int`: an integer head of major type 0 or 1, of any
/// width, as an `i128` (minicbor's `From<Int> for i128`).
#[verifier::external_body]
pub(crate) fn read_int(b: &[u8], pos: usize) -> (r: Result<(i128, usize), minicbor::decode::Error>)
    requires
        pos <= b@.len(),
    ensures
        match r {
            Ok((v, p)) => pos < p <= b@.len() && int_head(b@.skip(pos as int)) == Some(
                (v as int, (p - pos) as nat),
            ),
            Err(_) => int_head(b@.skip(pos as int)) is None,
        },
{
    let mut d = minicbor::Decoder::new(b);
    d.set_position(pos);
    let v = d.int()?;
    Ok((i128::from(v), d.position()))
}

/// Relies on `Encoder::int` (after minicbor's `TryFrom<i128> for Int`, which
/// accepts exactly -2^64 to 2^64 - 1): the shortest head of major type 0 for
/// a non-negative value, of major type 1 with argument `-1 - x` otherwise.
#[verifier::external_body]
pub(crate) fn write_int(out: &mut Vec<u8>, x: i128)
    requires
        -0x1_0000_0000_0000_0000 <= x < 0x1_0000_0000_0000_0000,
    ensures
        final(out)@ == old(out)@ + int_wire(x as int),
{
    if let Ok(i) = minicbor::data::Int::try_from(x) {
        let _ = minicbor::Encoder::new(out).int(i);
    }
}

/// The hex crate's decoding error; `Bytes::from_text` maps it to its own error.
#[verifier::external_type_specification]
#[verifier::external_body]
pub struct ExFromHexError(hex::FromHexError);

/// Relies on `hex::encode`: two lowercase hex digits per byte, high nibble first.
#[verifier::external_body]
pub(crate) fn hex_encode(b: &[u8]) -> (r: String)
    ensures
        r@ == hex_text(b@),
{
    hex::encode(b)
}

/// Relies on `hex::decode`: an even number of hex digits of either case, two
/// per byte, high nibble first; anything else is an error.
#[verifier::external_body]
pub(crate) fn hex_decode(t: &str) -> (r: Result<Vec<u8>, hex::FromHexError>)
    ensures
        match r {
            Ok(v) => hex_bytes(t@) == Some(v@),
            Err(_) => hex_bytes(t@) is None,
        },
{
    hex::decode(t)
}

} // verus!

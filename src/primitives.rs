//! Integers: the plain integer codecs, the width-preserving unsigned integer,
//! and the non-zero refinements.
use crate::substrate::{
    hex_decode, hex_encode, read_bytes, read_i64, read_int, read_u32, read_u64, write_bytes,
    write_i64, write_int, write_u64,
};
use vstd::slice::slice_to_vec;
use crate::wire::{
    arg_width, be_bytes, bytes_item, head, head_of, head_with, info_of, int_head, int_wire, lemma_be_bound, lemma_be_bytes_of_value,
    lemma_head, lemma_head_with, lemma_pow256, major_of, pow256, Codec, DecodeError, ErrorKind,
};
use vstd::view::DeepView;
use vstd::prelude::*;

verus! {

impl Codec for u64 {
    open spec fn wire(m: Self) -> Seq<u8> {
        head(0, m as nat)
    }

    open spec fn parse(s: Seq<u8>) -> Result<(u64, nat), ErrorKind> {
        match head_of(s, 0) {
            Some((v, n)) => Ok((v as u64, n)),
            None => Err(ErrorKind::Malformed),
        }
    }

    open spec fn encodable(m: Self) -> bool {
        true
    }

    fn encode(&self, out: &mut Vec<u8>) {
        write_u64(out, *self);
    }

    fn decode(b: &[u8], pos: usize) -> (r: Result<(u64, usize), DecodeError>) {
        match read_u64(b, pos) {
            Ok((v, p)) => Ok((v, p)),
            Err(_) => Err(DecodeError { kind: ErrorKind::Malformed, at: pos }),
        }
    }

    proof fn lemma_round_trip(m: Self, rest: Seq<u8>) {
        lemma_pow256();
        lemma_head(0, m as nat, rest);
    }
}


impl Codec for u32 {
    open spec fn wire(m: Self) -> Seq<u8> {
        head(0, m as nat)
    }

    open spec fn parse(s: Seq<u8>) -> Result<(u32, nat), ErrorKind> {
        match head_of(s, 0) {
            Some((v, n)) => if v <= u32::MAX {
                Ok((v as u32, n))
            } else {
                Err(ErrorKind::Malformed)
            },
            None => Err(ErrorKind::Malformed),
        }
    }

    open spec fn encodable(m: Self) -> bool {
        true
    }

    fn encode(&self, out: &mut Vec<u8>) {
        write_u64(out, *self as u64);
    }

    fn decode(b: &[u8], pos: usize) -> (r: Result<(u32, usize), DecodeError>) {
        match read_u32(b, pos) {
            Ok((v, p)) => Ok((v, p)),
            Err(_) => Err(DecodeError { kind: ErrorKind::Malformed, at: pos }),
        }
    }

    proof fn lemma_round_trip(m: Self, rest: Seq<u8>) {
        lemma_pow256();
        lemma_head(0, m as nat, rest);
    }
}

impl Codec for i64 {
    open spec fn wire(m: Self) -> Seq<u8> {
        int_wire(m as int)
    }

    open spec fn parse(s: Seq<u8>) -> Result<(i64, nat), ErrorKind> {
        match int_head(s) {
            Some((v, n)) => if i64::MIN <= v <= i64::MAX {
                Ok((v as i64, n))
            } else {
                Err(ErrorKind::Malformed)
            },
            None => Err(ErrorKind::Malformed),
        }
    }

    open spec fn encodable(m: Self) -> bool {
        true
    }

    fn encode(&self, out: &mut Vec<u8>) {
        write_i64(out, *self);
    }

    fn decode(b: &[u8], pos: usize) -> (r: Result<(i64, usize), DecodeError>) {
        match read_i64(b, pos) {
            Ok((v, p)) => Ok((v, p)),
            Err(_) => Err(DecodeError { kind: ErrorKind::Malformed, at: pos }),
        }
    }

    proof fn lemma_round_trip(m: Self, rest: Seq<u8>) {
        lemma_pow256();
        if m >= 0 {
            lemma_head(0, m as nat, rest);
        } else {
            lemma_head(1, (-1 - m) as nat, rest);
            assert(head_of(int_wire(m as int) + rest, 0) is None);
        }
    }
}

/// Appends the `k` low-order bytes of `x`, most significant first.
fn push_be(out: &mut Vec<u8>, x: u64, k: usize)
    requires
        k <= 8,
    ensures
        final(out)@ == old(out)@ + be_bytes(x as nat, k as nat),
    decreases k,
{
    if k > 0 {
        push_be(out, x / 256, k - 1);
        out.push((x % 256) as u8);
        proof {
            assert(out@ =~= old(out)@ + be_bytes(x as nat, k as nat));
        }
    } else {
        proof {
            assert(out@ =~= old(out)@ + be_bytes(x as nat, k as nat));
        }
    }
}

/// An unsigned integer that remembers the width it was encoded with: inline
/// in the initial byte (0 to 23), or on 1, 2, 4 or 8 following bytes.
#[derive(Debug, PartialEq, Eq, Clone, Copy, Structural)]
pub enum AnyUInt {
    MajorByte(u8),
    U8(u8),
    U16(u16),
    U32(u32),
    U64(u64),
}

impl AnyUInt {
    pub open spec fn spec_value(&self) -> u64 {
        match *self {
            AnyUInt::MajorByte(x) => x as u64,
            AnyUInt::U8(x) => x as u64,
            AnyUInt::U16(x) => x as u64,
            AnyUInt::U32(x) => x as u64,
            AnyUInt::U64(x) => x,
        }
    }

    /// The numeric value, whatever the width.
    pub fn value(&self) -> (r: u64)
        ensures
            r == self.spec_value(),
    {
        match *self {
            AnyUInt::MajorByte(x) => x as u64,
            AnyUInt::U8(x) => x as u64,
            AnyUInt::U16(x) => x as u64,
            AnyUInt::U32(x) => x as u64,
            AnyUInt::U64(x) => x,
        }
    }
}

impl From<AnyUInt> for u64 {
    fn from(x: AnyUInt) -> u64 {
        x.value()
    }
}

impl vstd::std_specs::convert::FromSpecImpl<AnyUInt> for u64 {
    open spec fn obeys_from_spec() -> bool {
        true
    }

    open spec fn from_spec(x: AnyUInt) -> u64 {
        x.spec_value()
    }
}

impl DeepView for AnyUInt {
    type V = AnyUInt;

    open spec fn deep_view(&self) -> AnyUInt {
        *self
    }
}

impl Codec for AnyUInt {
    /// The initial byte alone for an inline value, else the width's marker
    /// (24 to 27) and the value on exactly that many bytes.
    open spec fn wire(m: AnyUInt) -> Seq<u8> {
        match m {
            AnyUInt::MajorByte(x) => seq![x],
            AnyUInt::U8(x) => head_with(0, 24, x as nat),
            AnyUInt::U16(x) => head_with(0, 25, x as nat),
            AnyUInt::U32(x) => head_with(0, 26, x as nat),
            AnyUInt::U64(x) => head_with(0, 27, x as nat),
        }
    }

    /// An unsigned integer head, classified by the width it uses.
    open spec fn parse(s: Seq<u8>) -> Result<(AnyUInt, nat), ErrorKind> {
        if s.len() > 0 && major_of(s[0]) != 0 {
            Err(ErrorKind::UnexpectedType)
        } else {
            match head_of(s, 0) {
                Some((v, n)) => {
                    let info = info_of(s[0]);
                    if info < 24 {
                        Ok((AnyUInt::MajorByte(v as u8), n))
                    } else if info == 24 {
                        Ok((AnyUInt::U8(v as u8), n))
                    } else if info == 25 {
                        Ok((AnyUInt::U16(v as u16), n))
                    } else if info == 26 {
                        Ok((AnyUInt::U32(v as u32), n))
                    } else {
                        Ok((AnyUInt::U64(v as u64), n))
                    }
                },
                None => Err(ErrorKind::Malformed),
            }
        }
    }

    /// An inline value must fit in the initial byte.
    open spec fn encodable(m: AnyUInt) -> bool {
        m matches AnyUInt::MajorByte(x) ==> x < 24
    }

    fn encode(&self, out: &mut Vec<u8>) {
        match *self {
            AnyUInt::MajorByte(x) => {
                out.push(x);
            },
            AnyUInt::U8(x) => {
                out.push(24);
                push_be(out, x as u64, 1);
            },
            AnyUInt::U16(x) => {
                out.push(25);
                push_be(out, x as u64, 2);
            },
            AnyUInt::U32(x) => {
                out.push(26);
                push_be(out, x as u64, 4);
            },
            AnyUInt::U64(x) => {
                out.push(27);
                push_be(out, x, 8);
            },
        }
        proof {
            assert(out@ =~= old(out)@ + Self::wire(*self));
        }
    }

    fn decode(b: &[u8], pos: usize) -> (r: Result<(AnyUInt, usize), DecodeError>) {
        if pos < b.len() && b[pos] / 32 != 0 {
            return Err(DecodeError { kind: ErrorKind::UnexpectedType, at: pos });
        }
        match read_u64(b, pos) {
            Ok((v, p)) => {
                let info = b[pos] % 32;
                proof {
                    let s = b@.skip(pos as int);
                    assert(s[0] == b@[pos as int]);
                    lemma_pow256();
                    if info >= 24 {
                        lemma_be_bound(s.subrange(1, 1 + arg_width(info) as int));
                    }
                }
                let x = if info < 24 {
                    AnyUInt::MajorByte(v as u8)
                } else if info == 24 {
                    AnyUInt::U8(v as u8)
                } else if info == 25 {
                    AnyUInt::U16(v as u16)
                } else if info == 26 {
                    AnyUInt::U32(v as u32)
                } else {
                    AnyUInt::U64(v)
                };
                Ok((x, p))
            },
            Err(_) => Err(DecodeError { kind: ErrorKind::Malformed, at: pos }),
        }
    }

    proof fn lemma_round_trip(m: AnyUInt, rest: Seq<u8>) {
        lemma_pow256();
        let s = Self::wire(m) + rest;
        match m {
            AnyUInt::MajorByte(x) => {
                assert(s[0] == x);
                assert(major_of(s[0]) == 0 && info_of(s[0]) == x);
            },
            AnyUInt::U8(x) => {
                lemma_head_with(0, 24, x as nat, rest);
                assert(info_of(s[0]) == 24);
            },
            AnyUInt::U16(x) => {
                lemma_head_with(0, 25, x as nat, rest);
                assert(info_of(s[0]) == 25);
            },
            AnyUInt::U32(x) => {
                lemma_head_with(0, 26, x as nat, rest);
                assert(info_of(s[0]) == 26);
            },
            AnyUInt::U64(x) => {
                lemma_head_with(0, 27, x as nat, rest);
                assert(info_of(s[0]) == 27);
            },
        }
    }
}

/// An `AnyUInt` keeps the width it was read with: whatever it reads from
/// the front of `s`, it encodes back to exactly the bytes it read.
pub proof fn lemma_any_uint_fidelity(s: Seq<u8>)
    ensures
        AnyUInt::parse(s) matches Ok((m, n)) ==> AnyUInt::wire(m) == s.take(n as int),
{
    if let Ok((m, n)) = AnyUInt::parse(s) {
        let info = info_of(s[0]);
        assert(s[0] == info) by {
            assert(major_of(s[0]) == 0);
        }
        if info >= 24 {
            let w = arg_width(info);
            let t = s.subrange(1, 1 + w as int);
            lemma_be_bound(t);
            lemma_pow256();
            lemma_be_bytes_of_value(t);
            assert(AnyUInt::wire(m) =~= seq![s[0]] + t);
            assert(s.take(n as int) =~= seq![s[0]] + t);
        } else {
            assert(s.take(n as int) =~= seq![s[0]]);
        }
    }
}

/// A coin amount of at least 1.
#[derive(Debug, PartialEq, Eq, Clone, Copy)]
pub struct PositiveCoin(u64);

impl PositiveCoin {
    #[verifier::type_invariant]
    spec fn inv(&self) -> bool {
        self.0 != 0
    }

    pub closed spec fn spec_value(&self) -> u64 {
        self.0
    }

    /// The coin for `value`; `value` back if it is zero.
    pub fn try_new(value: u64) -> (r: Result<PositiveCoin, u64>)
        ensures
            value == 0 ==> r == Err::<PositiveCoin, u64>(value),
            value != 0 ==> (r matches Ok(c) && c.spec_value() == value),
    {
        if value == 0 {
            Err(value)
        } else {
            Ok(PositiveCoin(value))
        }
    }

    pub fn value(&self) -> (r: u64)
        ensures
            r == self.spec_value(),
            r != 0,
    {
        proof {
            use_type_invariant(self);
        }
        self.0
    }
}

impl DeepView for PositiveCoin {
    type V = u64;

    open spec fn deep_view(&self) -> u64 {
        self.spec_value()
    }
}

impl Codec for PositiveCoin {
    open spec fn wire(m: u64) -> Seq<u8> {
        head(0, m as nat)
    }

    /// An unsigned integer; zero is refused.
    open spec fn parse(s: Seq<u8>) -> Result<(u64, nat), ErrorKind> {
        match head_of(s, 0) {
            Some((v, n)) => if v == 0 {
                Err(ErrorKind::Zero)
            } else {
                Ok((v as u64, n))
            },
            None => Err(ErrorKind::Malformed),
        }
    }

    open spec fn encodable(m: u64) -> bool {
        m != 0
    }

    fn encode(&self, out: &mut Vec<u8>) {
        write_u64(out, self.value());
    }

    fn decode(b: &[u8], pos: usize) -> (r: Result<(PositiveCoin, usize), DecodeError>) {
        match read_u64(b, pos) {
            Ok((v, p)) => {
                if v == 0 {
                    Err(DecodeError { kind: ErrorKind::Zero, at: pos })
                } else {
                    Ok((PositiveCoin(v), p))
                }
            },
            Err(_) => Err(DecodeError { kind: ErrorKind::Malformed, at: pos }),
        }
    }

    proof fn lemma_round_trip(m: u64, rest: Seq<u8>) {
        lemma_pow256();
        lemma_head(0, m as nat, rest);
    }
}

/// A signed 64-bit integer other than zero.
#[derive(Debug, PartialEq, Eq, Clone, Copy)]
pub struct NonZeroInt(i64);

impl NonZeroInt {
    #[verifier::type_invariant]
    spec fn inv(&self) -> bool {
        self.0 != 0
    }

    pub closed spec fn spec_value(&self) -> i64 {
        self.0
    }

    /// The integer `value`; `value` back if it is zero.
    pub fn try_new(value: i64) -> (r: Result<NonZeroInt, i64>)
        ensures
            value == 0 ==> r == Err::<NonZeroInt, i64>(value),
            value != 0 ==> (r matches Ok(c) && c.spec_value() == value),
    {
        if value == 0 {
            Err(value)
        } else {
            Ok(NonZeroInt(value))
        }
    }

    pub fn value(&self) -> (r: i64)
        ensures
            r == self.spec_value(),
            r != 0,
    {
        proof {
            use_type_invariant(self);
        }
        self.0
    }
}

impl DeepView for NonZeroInt {
    type V = i64;

    open spec fn deep_view(&self) -> i64 {
        self.spec_value()
    }
}

impl Codec for NonZeroInt {
    open spec fn wire(m: i64) -> Seq<u8> {
        int_wire(m as int)
    }

    /// A 64-bit signed integer; zero is refused.
    open spec fn parse(s: Seq<u8>) -> Result<(i64, nat), ErrorKind> {
        match <i64 as Codec>::parse(s) {
            Ok((v, n)) => if v == 0 {
                Err(ErrorKind::Zero)
            } else {
                Ok((v, n))
            },
            Err(e) => Err(e),
        }
    }

    open spec fn encodable(m: i64) -> bool {
        m != 0
    }

    fn encode(&self, out: &mut Vec<u8>) {
        write_i64(out, self.value());
    }

    fn decode(b: &[u8], pos: usize) -> (r: Result<(NonZeroInt, usize), DecodeError>) {
        match <i64 as Codec>::decode(b, pos) {
            Ok((v, p)) => {
                if v == 0 {
                    Err(DecodeError { kind: ErrorKind::Zero, at: pos })
                } else {
                    Ok((NonZeroInt(v), p))
                }
            },
            Err(e) => Err(e),
        }
    }

    proof fn lemma_round_trip(m: i64, rest: Seq<u8>) {
        <i64 as Codec>::lemma_round_trip(m, rest);
    }
}

/// The lowercase hex digit for `n` (below 16).
pub open spec fn hex_digit(n: nat) -> char {
    seq!['0', '1', '2', '3', '4', '5', '6', '7', '8', '9', 'a', 'b', 'c', 'd', 'e', 'f'][n as int]
}

/// Two lowercase hex digits per byte, high nibble first.
pub open spec fn hex_text(b: Seq<u8>) -> Seq<char>
    decreases b.len(),
{
    if b.len() == 0 {
        seq![]
    } else {
        seq![hex_digit((b[0] / 16) as nat), hex_digit((b[0] % 16) as nat)] + hex_text(b.skip(1))
    }
}

/// The value of a hex digit of either case.
pub open spec fn hex_val(c: char) -> Option<nat> {
    let u = c as u32;
    if 48 <= u <= 57 {
        Some((u - 48) as nat)
    } else if 97 <= u <= 102 {
        Some((u - 87) as nat)
    } else if 65 <= u <= 70 {
        Some((u - 55) as nat)
    } else {
        None
    }
}

/// The bytes that hex text `t` spells, two digits per byte; `None` if `t`
/// has an odd length or a character that is not a hex digit.
pub open spec fn hex_bytes(t: Seq<char>) -> Option<Seq<u8>>
    decreases t.len(),
{
    if t.len() == 0 {
        Some(seq![])
    } else if t.len() == 1 {
        None
    } else {
        match (hex_val(t[0]), hex_val(t[1]), hex_bytes(t.skip(2))) {
            (Some(a), Some(b), Some(rest)) => Some(seq![(a * 16 + b) as u8] + rest),
            _ => None,
        }
    }
}

proof fn lemma_hex_digit(n: nat)
    requires
        n < 16,
    ensures
        hex_val(hex_digit(n)) == Some(n),
{
    let digits = seq!['0', '1', '2', '3', '4', '5', '6', '7', '8', '9', 'a', 'b', 'c', 'd', 'e', 'f'];
    assert(hex_digit(n) == digits[n as int]);
    if n == 0 { assert(digits[0] == '0'); }
    else if n == 1 { assert(digits[1] == '1'); }
    else if n == 2 { assert(digits[2] == '2'); }
    else if n == 3 { assert(digits[3] == '3'); }
    else if n == 4 { assert(digits[4] == '4'); }
    else if n == 5 { assert(digits[5] == '5'); }
    else if n == 6 { assert(digits[6] == '6'); }
    else if n == 7 { assert(digits[7] == '7'); }
    else if n == 8 { assert(digits[8] == '8'); }
    else if n == 9 { assert(digits[9] == '9'); }
    else if n == 10 { assert(digits[10] == 'a'); }
    else if n == 11 { assert(digits[11] == 'b'); }
    else if n == 12 { assert(digits[12] == 'c'); }
    else if n == 13 { assert(digits[13] == 'd'); }
    else if n == 14 { assert(digits[14] == 'e'); }
    else { assert(digits[15] == 'f'); }
}

/// Bytes written as hex text read back as the same bytes.
pub proof fn lemma_hex_round_trip(b: Seq<u8>)
    ensures
        hex_bytes(hex_text(b)) == Some(b),
    decreases b.len(),
{
    if b.len() == 0 {
        assert(b =~= Seq::<u8>::empty());
    } else {
        let hi = (b[0] / 16) as nat;
        let lo = (b[0] % 16) as nat;
        lemma_hex_digit(hi);
        lemma_hex_digit(lo);
        lemma_hex_round_trip(b.skip(1));
        let t = hex_text(b);
        assert(t.skip(2) =~= hex_text(b.skip(1)));
        assert(hi * 16 + lo == b[0]);
        assert(seq![b[0]] + b.skip(1) =~= b);
    }
}

/// The hex text is not valid hex.
#[derive(Debug, PartialEq, Eq, Clone, Copy, Structural)]
pub struct InvalidHex;

/// A byte string, with a hex text form.
#[derive(Debug, PartialEq, Eq, Clone)]
pub struct Bytes(Vec<u8>);

impl Bytes {
    pub closed spec fn spec_bytes(&self) -> Seq<u8> {
        self.0@
    }

    pub fn new(b: Vec<u8>) -> (r: Bytes)
        ensures
            r.spec_bytes() == b@,
    {
        Bytes(b)
    }

    pub fn as_vec(&self) -> (r: &Vec<u8>)
        ensures
            r@ == self.spec_bytes(),
    {
        &self.0
    }

    pub fn to_vec(self) -> (r: Vec<u8>)
        ensures
            r@ == self.spec_bytes(),
    {
        self.0
    }

    /// Lowercase hex text, two digits per byte.
    pub fn to_text(&self) -> (r: String)
        ensures
            r@ == hex_text(self.spec_bytes()),
    {
        hex_encode(self.0.as_slice())
    }

    /// The bytes that hex text `t` spells (digits of either case).
    pub fn from_text(t: &str) -> (r: Result<Bytes, InvalidHex>)
        ensures
            match r {
                Ok(b) => hex_bytes(t@) == Some(b.spec_bytes()),
                Err(_) => hex_bytes(t@) is None,
            },
    {
        match hex_decode(t) {
            Ok(v) => Ok(Bytes(v)),
            Err(_) => Err(InvalidHex),
        }
    }
}

impl DeepView for Bytes {
    type V = Seq<u8>;

    open spec fn deep_view(&self) -> Seq<u8> {
        self.spec_bytes()
    }
}

impl Codec for Bytes {
    open spec fn wire(m: Seq<u8>) -> Seq<u8> {
        head(2, m.len()) + m
    }

    /// A definite-length byte string.
    open spec fn parse(s: Seq<u8>) -> Result<(Seq<u8>, nat), ErrorKind> {
        match bytes_item(s) {
            Some((c, n)) => Ok((c, n)),
            None => Err(ErrorKind::Malformed),
        }
    }

    open spec fn encodable(m: Seq<u8>) -> bool {
        m.len() < pow256(8)
    }

    fn encode(&self, out: &mut Vec<u8>) {
        write_bytes(out, self.0.as_slice());
    }

    fn decode(b: &[u8], pos: usize) -> (r: Result<(Bytes, usize), DecodeError>) {
        match read_bytes(b, pos) {
            Ok((c, p)) => Ok((Bytes(slice_to_vec(c)), p)),
            Err(_) => Err(DecodeError { kind: ErrorKind::Malformed, at: pos }),
        }
    }

    proof fn lemma_round_trip(m: Seq<u8>, rest: Seq<u8>) {
        lemma_pow256();
        let h = head(2, m.len());
        lemma_head(2, m.len(), m + rest);
        let s = Self::wire(m) + rest;
        assert(s =~= h + (m + rest));
        assert(s.subrange(h.len() as int, (h.len() + m.len()) as int) =~= m);
    }
}

/// Smallest and largest CBOR integers: -2^64 and 2^64 - 1.
pub const INT_MIN: i128 = -0x1_0000_0000_0000_0000;
pub const INT_MAX: i128 = 0xffff_ffff_ffff_ffff;

/// A CBOR integer: any value from -2^64 to 2^64 - 1.
#[derive(Debug, PartialEq, Eq, Clone, Copy)]
pub struct Int(i128);

impl Int {
    #[verifier::type_invariant]
    spec fn inv(&self) -> bool {
        INT_MIN <= self.0 <= INT_MAX
    }

    pub closed spec fn spec_value(&self) -> i128 {
        self.0
    }

    /// The integer `value`; `value` back if it is outside the CBOR range.
    pub fn try_new(value: i128) -> (r: Result<Int, i128>)
        ensures
            INT_MIN <= value <= INT_MAX ==> (r matches Ok(i) && i.spec_value() == value),
            !(INT_MIN <= value <= INT_MAX) ==> r == Err::<Int, i128>(value),
    {
        if INT_MIN <= value && value <= INT_MAX {
            Ok(Int(value))
        } else {
            Err(value)
        }
    }

    pub fn from_i64(value: i64) -> (r: Int)
        ensures
            r.spec_value() == value,
    {
        Int(value as i128)
    }

    pub fn value(&self) -> (r: i128)
        ensures
            r == self.spec_value(),
            INT_MIN <= r <= INT_MAX,
    {
        proof {
            use_type_invariant(self);
        }
        self.0
    }
}

impl DeepView for Int {
    type V = i128;

    open spec fn deep_view(&self) -> i128 {
        self.spec_value()
    }
}

impl Codec for Int {
    open spec fn wire(m: i128) -> Seq<u8> {
        int_wire(m as int)
    }

    /// An integer head of major type 0 or 1, of any width.
    open spec fn parse(s: Seq<u8>) -> Result<(i128, nat), ErrorKind> {
        match int_head(s) {
            Some((v, n)) => Ok((v as i128, n)),
            None => Err(ErrorKind::Malformed),
        }
    }

    open spec fn encodable(m: i128) -> bool {
        INT_MIN <= m <= INT_MAX
    }

    fn encode(&self, out: &mut Vec<u8>) {
        write_int(out, self.value());
    }

    fn decode(b: &[u8], pos: usize) -> (r: Result<(Int, usize), DecodeError>) {
        match read_int(b, pos) {
            Ok((v, p)) => {
                proof {
                    let s = b@.skip(pos as int);
                    lemma_pow256();
                    if s.len() > 0 && info_of(s[0]) >= 24 {
                        lemma_be_bound(s.subrange(1, 1 + arg_width(info_of(s[0])) as int));
                    }
                }
                Ok((Int(v), p))
            },
            Err(_) => Err(DecodeError { kind: ErrorKind::Malformed, at: pos }),
        }
    }

    proof fn lemma_round_trip(m: i128, rest: Seq<u8>) {
        lemma_pow256();
        if m >= 0 {
            lemma_head(0, m as nat, rest);
        } else {
            lemma_head(1, (-1 - m) as nat, rest);
            assert(head_of(int_wire(m as int) + rest, 0) is None);
        }
    }
}

impl From<PositiveCoin> for u64 {
    fn from(value: PositiveCoin) -> u64 {
        value.value()
    }
}

impl vstd::std_specs::convert::FromSpecImpl<PositiveCoin> for u64 {
    open spec fn obeys_from_spec() -> bool {
        true
    }

    open spec fn from_spec(value: PositiveCoin) -> u64 {
        value.spec_value()
    }
}

impl From<NonZeroInt> for i64 {
    fn from(value: NonZeroInt) -> i64 {
        value.value()
    }
}

impl vstd::std_specs::convert::FromSpecImpl<NonZeroInt> for i64 {
    open spec fn obeys_from_spec() -> bool {
        true
    }

    open spec fn from_spec(value: NonZeroInt) -> i64 {
        value.spec_value()
    }
}

impl core::ops::Deref for Bytes {
    type Target = Vec<u8>;

    fn deref(&self) -> &Vec<u8> {
        &self.0
    }
}

impl From<Vec<u8>> for Bytes {
    fn from(xs: Vec<u8>) -> Bytes {
        Bytes(xs)
    }
}

impl vstd::std_specs::convert::FromSpecImpl<Vec<u8>> for Bytes {
    open spec fn obeys_from_spec() -> bool {
        true
    }

    closed spec fn from_spec(xs: Vec<u8>) -> Bytes {
        Bytes(xs)
    }
}

impl From<Bytes> for Vec<u8> {
    fn from(b: Bytes) -> Vec<u8> {
        b.0
    }
}

impl vstd::std_specs::convert::FromSpecImpl<Bytes> for Vec<u8> {
    open spec fn obeys_from_spec() -> bool {
        true
    }

    closed spec fn from_spec(b: Bytes) -> Vec<u8> {
        b.0
    }
}

impl From<Int> for i128 {
    fn from(value: Int) -> i128 {
        value.value()
    }
}

impl vstd::std_specs::convert::FromSpecImpl<Int> for i128 {
    open spec fn obeys_from_spec() -> bool {
        true
    }

    open spec fn from_spec(value: Int) -> i128 {
        value.spec_value()
    }
}

impl From<i64> for Int {
    fn from(x: i64) -> Int {
        Int::from_i64(x)
    }
}

impl vstd::std_specs::convert::FromSpecImpl<i64> for Int {
    open spec fn obeys_from_spec() -> bool {
        true
    }

    closed spec fn from_spec(x: i64) -> Int {
        Int(x as i128)
    }
}

impl From<i32> for Int {
    fn from(x: i32) -> Int {
        Int::from_i64(x as i64)
    }
}

impl vstd::std_specs::convert::FromSpecImpl<i32> for Int {
    open spec fn obeys_from_spec() -> bool {
        true
    }

    closed spec fn from_spec(x: i32) -> Int {
        Int(x as i128)
    }
}

impl From<&AnyUInt> for u64 {
    fn from(x: &AnyUInt) -> u64 {
        x.value()
    }
}

impl vstd::std_specs::convert::FromSpecImpl<&AnyUInt> for u64 {
    open spec fn obeys_from_spec() -> bool {
        true
    }

    open spec fn from_spec(x: &AnyUInt) -> u64 {
        x.spec_value()
    }
}

impl From<&PositiveCoin> for u64 {
    fn from(x: &PositiveCoin) -> u64 {
        x.value()
    }
}

impl vstd::std_specs::convert::FromSpecImpl<&PositiveCoin> for u64 {
    open spec fn obeys_from_spec() -> bool {
        true
    }

    open spec fn from_spec(x: &PositiveCoin) -> u64 {
        x.spec_value()
    }
}

impl From<&NonZeroInt> for i64 {
    fn from(x: &NonZeroInt) -> i64 {
        x.value()
    }
}

impl vstd::std_specs::convert::FromSpecImpl<&NonZeroInt> for i64 {
    open spec fn obeys_from_spec() -> bool {
        true
    }

    open spec fn from_spec(x: &NonZeroInt) -> i64 {
        x.spec_value()
    }
}

} // verus!

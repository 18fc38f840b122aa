//! The CBOR data-item head, the decoding error, and the `Codec` trait.
use vstd::prelude::*;

verus! {

/// What went wrong while reading a value.
#[derive(Debug, Clone, Copy, PartialEq, Eq, Structural)]
pub enum ErrorKind {
    /// The primitive reader refused the input: truncated or malformed.
    Malformed,
    /// A value of another kind stands where this one was expected.
    UnexpectedType,
    /// An aggregate has a length this type does not admit.
    InvalidLength,
    /// A tag other than the expected one precedes the value.
    UnknownTag(u64),
    /// Zero where a non-zero value is required.
    Zero,
    /// No element where at least one is required.
    Empty,
}

/// A decoding failure: its kind and the input position of the value that failed.
#[derive(Debug, Clone, Copy, PartialEq, Eq, Structural)]
pub struct DecodeError {
    pub kind: ErrorKind,
    pub at: usize,
}

/// Major type of an initial byte (its top three bits).
pub open spec fn major_of(b: u8) -> u8 {
    b / 32
}

/// Additional information of an initial byte (its low five bits).
pub open spec fn info_of(b: u8) -> u8 {
    b % 32
}

/// Number of argument bytes that follow an initial byte with this additional information.
pub open spec fn arg_width(info: u8) -> nat {
    if info == 24 {
        1
    } else if info == 25 {
        2
    } else if info == 26 {
        4
    } else if info == 27 {
        8
    } else {
        0
    }
}

/// Big-endian value of a byte sequence.
pub open spec fn be_value(s: Seq<u8>) -> nat
    decreases s.len(),
{
    if s.len() == 0 {
        0
    } else {
        be_value(s.drop_last()) * 256 + s.last() as nat
    }
}

/// The `k` low-order bytes of `x`, most significant first.
pub open spec fn be_bytes(x: nat, k: nat) -> Seq<u8>
    decreases k,
{
    if k == 0 {
        seq![]
    } else {
        be_bytes(x / 256, (k - 1) as nat).push((x % 256) as u8)
    }
}

pub open spec fn pow256(k: nat) -> nat
    decreases k,
{
    if k == 0 {
        1
    } else {
        256 * pow256((k - 1) as nat)
    }
}

/// The argument of the head at the front of `s` and the length of that head.
/// An additional information of 28 to 31 carries no argument.
pub open spec fn head_arg(s: Seq<u8>) -> Option<(nat, nat)> {
    if s.len() == 0 {
        None
    } else {
        let info = info_of(s[0]);
        if info < 24 {
            Some((info as nat, 1))
        } else if info <= 27 && 1 + arg_width(info) <= s.len() {
            Some((be_value(s.subrange(1, 1 + arg_width(info) as int)), 1 + arg_width(info)))
        } else {
            None
        }
    }
}

/// The head at the front of `s`, if it has the given major type and an argument.
pub open spec fn head_of(s: Seq<u8>, major: u8) -> Option<(nat, nat)> {
    if s.len() > 0 && major_of(s[0]) == major {
        head_arg(s)
    } else {
        None
    }
}

/// `s` starts with the indefinite-length marker of the given major type.
pub open spec fn open_head(s: Seq<u8>, major: u8) -> bool {
    s.len() > 0 && s[0] == major * 32 + 31
}

/// Argument width of the shortest head for `x`.
pub open spec fn min_width(x: nat) -> nat {
    if x < 24 {
        0
    } else if x < 0x100 {
        1
    } else if x < 0x1_0000 {
        2
    } else if x < 0x1_0000_0000 {
        4
    } else {
        8
    }
}

/// Additional information of the shortest head for `x`.
pub open spec fn min_info(x: nat) -> nat {
    if x < 24 {
        x
    } else if x < 0x100 {
        24
    } else if x < 0x1_0000 {
        25
    } else if x < 0x1_0000_0000 {
        26
    } else {
        27
    }
}

/// The shortest head of major type `major` with argument `x`.
pub open spec fn head(major: u8, x: nat) -> Seq<u8> {
    seq![(major * 32 + min_info(x)) as u8] + be_bytes(x, min_width(x))
}

/// The head of major type `major`, additional information `info` and argument
/// `x` written on exactly `arg_width(info)` bytes.
pub open spec fn head_with(major: u8, info: u8, x: nat) -> Seq<u8> {
    seq![(major * 32 + info) as u8] + be_bytes(x, arg_width(info))
}

pub proof fn lemma_be_round_trip(x: nat, k: nat)
    requires
        x < pow256(k),
    ensures
        be_bytes(x, k).len() == k,
        be_value(be_bytes(x, k)) == x,
    decreases k,
{
    if k > 0 {
        let p = pow256((k - 1) as nat);
        assert(x / 256 < p) by (nonlinear_arith)
            requires
                x < 256 * p,
        ;
        lemma_be_round_trip(x / 256, (k - 1) as nat);
        let s = be_bytes(x, k);
        assert(s.drop_last() =~= be_bytes(x / 256, (k - 1) as nat));
        assert((x / 256) * 256 + x % 256 == x) by (nonlinear_arith);
    }
}

/// A value read from `k` big-endian bytes is below `256^k`.
pub proof fn lemma_be_bound(s: Seq<u8>)
    ensures
        be_value(s) < pow256(s.len()),
    decreases s.len(),
{
    if s.len() > 0 {
        lemma_be_bound(s.drop_last());
        let a = be_value(s.drop_last());
        let p = pow256(s.drop_last().len());
        let l = s.last() as nat;
        assert(a * 256 + l < 256 * p) by (nonlinear_arith)
            requires
                a < p,
                l < 256,
        ;
    }
}

/// Writing a big-endian value back on as many bytes gives the same bytes.
pub proof fn lemma_be_bytes_of_value(t: Seq<u8>)
    ensures
        be_bytes(be_value(t), t.len()) == t,
    decreases t.len(),
{
    if t.len() > 0 {
        let a = be_value(t.drop_last());
        let l = t.last() as nat;
        lemma_be_bytes_of_value(t.drop_last());
        assert((a * 256 + l) / 256 == a && (a * 256 + l) % 256 == l) by (nonlinear_arith)
            requires
                l < 256,
        ;
        assert(be_bytes(be_value(t), t.len()) =~= t.drop_last().push(t.last()));
        assert(t.drop_last().push(t.last()) =~= t);
    }
}

pub proof fn lemma_pow256()
    ensures
        pow256(0) == 1,
        pow256(1) == 0x100,
        pow256(2) == 0x1_0000,
        pow256(4) == 0x1_0000_0000,
        pow256(8) == 0x1_0000_0000_0000_0000,
{
    reveal_with_fuel(pow256, 9);
}

/// A head written with additional information `info` and argument `x` reads
/// back as `x`, whatever follows it.
pub proof fn lemma_head_with(major: u8, info: u8, x: nat, rest: Seq<u8>)
    requires
        major < 7,
        24 <= info <= 27,
        x < pow256(arg_width(info)),
    ensures
        head_with(major, info, x).len() == 1 + arg_width(info),
        head_of(head_with(major, info, x) + rest, major) == Some(
            (x, 1 + arg_width(info)),
        ),
        (head_with(major, info, x) + rest)[0] != 0xff,
{
    let w = arg_width(info);
    lemma_be_round_trip(x, w);
    let s = head_with(major, info, x) + rest;
    assert(s[0] == (major * 32 + info) as u8);
    assert(major_of(s[0]) == major);
    assert(info_of(s[0]) == info);
    assert(s.subrange(1, 1 + w as int) =~= be_bytes(x, w));
}

/// The shortest head for `x` reads back as `x`, whatever follows it.
pub proof fn lemma_head(major: u8, x: nat, rest: Seq<u8>)
    requires
        major < 7,
        x < pow256(8),
    ensures
        head(major, x).len() == 1 + min_width(x),
        head_of(head(major, x) + rest, major) == Some((x, 1 + min_width(x))),
        (head(major, x) + rest)[0] != 0xff,
{
    lemma_pow256();
    let w = min_width(x);
    if w > 0 {
        lemma_be_round_trip(x, w);
    }
    let s = head(major, x) + rest;
    assert(s[0] == (major * 32 + min_info(x)) as u8);
    assert(major_of(s[0]) == major);
    assert(info_of(s[0]) == min_info(x));
    assert(arg_width(info_of(s[0])) == w);
    assert(s.subrange(1, 1 + w as int) =~= be_bytes(x, w));
}

/// The encoding of an integer: major type 0 for a non-negative value, major
/// type 1 with argument `-1 - x` for a negative one.
pub open spec fn int_wire(x: int) -> Seq<u8> {
    if x >= 0 {
        head(0, x as nat)
    } else {
        head(1, (-1 - x) as nat)
    }
}

/// The integer whose head is at the front of `s`, and the head's length.
pub open spec fn int_head(s: Seq<u8>) -> Option<(int, nat)> {
    match head_of(s, 0) {
        Some((v, n)) => Some((v as int, n)),
        None => match head_of(s, 1) {
            Some((v, n)) => Some((-1 - v, n)),
            None => None,
        },
    }
}

/// The definite-length byte string at the front of `s`: its contents and its
/// whole length.
pub open spec fn bytes_item(s: Seq<u8>) -> Option<(Seq<u8>, nat)> {
    match head_of(s, 2) {
        Some((n, h)) => if h + n <= s.len() {
            Some((s.subrange(h as int, (h + n) as int), h + n))
        } else {
            None
        },
        None => None,
    }
}

/// `r` is what a decoder started at `pos` in `b` owes when the value there
/// reads as `expected`: a value with that model and length, or an error of
/// the same kind.
pub open spec fn read_outcome<T: DeepView>(
    r: Result<(T, usize), DecodeError>,
    b: Seq<u8>,
    pos: nat,
    expected: Result<(T::V, nat), ErrorKind>,
) -> bool {
    match r {
        Ok((v, p)) => pos < p <= b.len() && expected == Ok::<(T::V, nat), ErrorKind>(
            (v.deep_view(), (p - pos) as nat),
        ),
        Err(e) => expected == Err::<(T::V, nat), ErrorKind>(e.kind),
    }
}

/// A type with a CBOR encoding, stated over its model (`deep_view`).
///
/// `wire(m)` is what `encode` appends for a value with model `m`; `parse(s)`
/// is the model and length that `decode` reads from the front of the
/// remaining input `s`. `encodable(m)` holds of the models whose encoding
/// reads back as themselves.
pub trait Codec: DeepView + Sized {
    spec fn wire(m: Self::V) -> Seq<u8>;

    spec fn parse(s: Seq<u8>) -> Result<(Self::V, nat), ErrorKind>;

    spec fn encodable(m: Self::V) -> bool;

    fn encode(&self, out: &mut Vec<u8>)
        ensures
            final(out)@ == old(out)@ + Self::wire(self.deep_view()),
    ;

    fn decode(b: &[u8], pos: usize) -> (r: Result<(Self, usize), DecodeError>)
        requires
            pos <= b@.len(),
        ensures
            read_outcome(r, b@, pos as nat, Self::parse(b@.skip(pos as int))),
    ;

    /// Decoding what `encode` wrote gives the model back, whatever follows it.
    proof fn lemma_round_trip(m: Self::V, rest: Seq<u8>)
        requires
            Self::encodable(m),
        ensures
            Self::parse(Self::wire(m) + rest) == Ok::<(Self::V, nat), ErrorKind>(
                (m, Self::wire(m).len()),
            ),
            Self::wire(m).len() > 0,
            Self::wire(m)[0] != 0xff,
    ;
}

/// Decodes a `T` from the front of `b`; any bytes after it are left unread.
pub fn decode<T: Codec>(b: &[u8]) -> (r: Result<T, DecodeError>)
    ensures
        match r {
            Ok(v) => T::parse(b@) matches Ok((m, _)) && m == v.deep_view(),
            Err(e) => T::parse(b@) == Err::<(T::V, nat), ErrorKind>(e.kind),
        },
{
    proof {
        assert(b@.skip(0) =~= b@);
    }
    match T::decode(b, 0) {
        Ok((v, _)) => Ok(v),
        Err(e) => Err(e),
    }
}

/// The encoding of `x`.
pub fn to_vec<T: Codec>(x: &T) -> (r: Vec<u8>)
    ensures
        r@ == T::wire(x.deep_view()),
{
    let mut out: Vec<u8> = Vec::new();
    x.encode(&mut out);
    proof {
        assert(out@ =~= T::wire(x.deep_view()));
    }
    out
}

/// Decoding the encoding of a value gives the value back: for every model
/// `m` that the type can encode faithfully, reading `wire(m)` yields `m` and
/// consumes all of it.
pub proof fn lemma_decode_of_encode<T: Codec>(m: T::V)
    requires
        T::encodable(m),
    ensures
        T::parse(T::wire(m)) == Ok::<(T::V, nat), ErrorKind>((m, T::wire(m).len())),
{
    T::lemma_round_trip(m, Seq::empty());
    assert(T::wire(m) + Seq::<u8>::empty() =~= T::wire(m));
}

} // verus!

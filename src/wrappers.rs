//! Envelopes and optional values: a value nested as an encoded byte string,
//! a value under a fixed tag, the empty map, zero-or-one arrays, the
//! tri-state nullable value, and the two raw-byte captures.
use crate::substrate::{
    item_len, read_array, read_bytes, read_map, read_null, read_tag, read_undefined, skip_item,
    write_array, write_bytes, write_map, write_null, write_tag, write_undefined,
};
use crate::wire::{
    bytes_item, head, head_of, lemma_head, lemma_pow256, major_of, open_head, pow256, Codec,
    DecodeError, ErrorKind,
};
use vstd::prelude::*;
use vstd::slice::{slice_subrange, slice_to_vec};
use vstd::view::DeepView;

verus! {

/// The tag of a byte string that holds an encoded data item.
pub const TAG_CBOR: u64 = 24;

/// Appends the bytes of `x`.
fn append_bytes(out: &mut Vec<u8>, x: &[u8])
    ensures
        final(out)@ == old(out)@ + x@,
{
    let mut i: usize = 0;
    while i < x.len()
        invariant
            i <= x@.len(),
            out@ == old(out)@ + x@.take(i as int),
        decreases x@.len() - i,
    {
        out.push(x[i]);
        i = i + 1;
        proof {
            assert(out@ =~= old(out)@ + x@.take(i as int));
        }
    }
    proof {
        assert(x@.take(i as int) =~= x@);
    }
}

/// A value carried as a byte string that holds its own encoding, under the
/// tag for encoded data items.
#[derive(Debug, PartialEq, Eq, Clone)]
pub struct CborWrap<T>(pub T);

impl<T> CborWrap<T> {
    pub fn unwrap(self) -> (r: T)
        ensures
            r == self.0,
    {
        self.0
    }
}

impl<T: DeepView> DeepView for CborWrap<T> {
    type V = T::V;

    open spec fn deep_view(&self) -> T::V {
        self.0.deep_view()
    }
}

/// The encoding of a wrapped value: tag 24, then a byte string of `inner`.
pub open spec fn cbor_wrap_wire(inner: Seq<u8>) -> Seq<u8> {
    head(6, TAG_CBOR as nat) + head(2, inner.len()) + inner
}

impl<T: Codec> Codec for CborWrap<T> {
    open spec fn wire(m: T::V) -> Seq<u8> {
        cbor_wrap_wire(T::wire(m))
    }

    /// A tag of any number, then a byte string whose contents decode on
    /// their own as the inner value.
    open spec fn parse(s: Seq<u8>) -> Result<(T::V, nat), ErrorKind> {
        match head_of(s, 6) {
            Some((_, h)) => match bytes_item(s.skip(h as int)) {
                Some((c, k)) => match T::parse(c) {
                    Ok((v, _)) => Ok((v, h + k)),
                    Err(e) => Err(e),
                },
                None => Err(ErrorKind::Malformed),
            },
            None => Err(ErrorKind::Malformed),
        }
    }

    open spec fn encodable(m: T::V) -> bool {
        T::encodable(m) && T::wire(m).len() < pow256(8)
    }

    fn encode(&self, out: &mut Vec<u8>) {
        let mut buf: Vec<u8> = Vec::new();
        self.0.encode(&mut buf);
        write_tag(out, TAG_CBOR);
        write_bytes(out, buf.as_slice());
        proof {
            assert(out@ =~= old(out)@ + Self::wire(self.deep_view()));
        }
    }

    fn decode(b: &[u8], pos: usize) -> (r: Result<(CborWrap<T>, usize), DecodeError>) {
        let p = match read_tag(b, pos) {
            Ok((_, p)) => p,
            Err(_) => {
                return Err(DecodeError { kind: ErrorKind::Malformed, at: pos });
            },
        };
        proof {
            assert(b@.skip(pos as int).skip((p - pos) as int) =~= b@.skip(p as int));
        }
        let (c, q) = match read_bytes(b, p) {
            Ok(x) => x,
            Err(_) => {
                return Err(DecodeError { kind: ErrorKind::Malformed, at: p });
            },
        };
        proof {
            assert(c@.skip(0) =~= c@);
        }
        match T::decode(c, 0) {
            Ok((v, _)) => Ok((CborWrap(v), q)),
            Err(e) => Err(e),
        }
    }

    proof fn lemma_round_trip(m: T::V, rest: Seq<u8>) {
        lemma_pow256();
        let w = T::wire(m);
        T::lemma_round_trip(m, Seq::empty());
        assert(w + Seq::<u8>::empty() =~= w);
        let t = head(6, TAG_CBOR as nat);
        let bh = head(2, w.len());
        let s = Self::wire(m) + rest;
        lemma_head(6, TAG_CBOR as nat, bh + w + rest);
        lemma_head(2, w.len(), w + rest);
        assert(s =~= t + (bh + w + rest));
        let s1 = s.skip(t.len() as int);
        assert(s1 =~= bh + (w + rest));
        assert(s1.subrange(bh.len() as int, (bh.len() + w.len()) as int) =~= w);
    }
}

/// A value under a tag fixed by the type.
#[derive(Debug, PartialEq, Eq, Clone)]
pub struct TagWrap<I, const T: u64>(pub I);

impl<I, const T: u64> TagWrap<I, T> {
    pub fn new(inner: I) -> (r: TagWrap<I, T>)
        ensures
            r.0 == inner,
    {
        TagWrap(inner)
    }
}

impl<I: DeepView, const T: u64> DeepView for TagWrap<I, T> {
    type V = I::V;

    open spec fn deep_view(&self) -> I::V {
        self.0.deep_view()
    }
}

impl<I: Codec, const T: u64> Codec for TagWrap<I, T> {
    open spec fn wire(m: I::V) -> Seq<u8> {
        head(6, T as nat) + I::wire(m)
    }

    /// A tag of any number (it is not checked against `T`), then the inner value.
    open spec fn parse(s: Seq<u8>) -> Result<(I::V, nat), ErrorKind> {
        match head_of(s, 6) {
            Some((_, h)) => match I::parse(s.skip(h as int)) {
                Ok((v, k)) => Ok((v, h + k)),
                Err(e) => Err(e),
            },
            None => Err(ErrorKind::Malformed),
        }
    }

    open spec fn encodable(m: I::V) -> bool {
        I::encodable(m)
    }

    fn encode(&self, out: &mut Vec<u8>) {
        write_tag(out, T);
        self.0.encode(out);
        proof {
            assert(out@ =~= old(out)@ + Self::wire(self.deep_view()));
        }
    }

    fn decode(b: &[u8], pos: usize) -> (r: Result<(TagWrap<I, T>, usize), DecodeError>) {
        let p = match read_tag(b, pos) {
            Ok((_, p)) => p,
            Err(_) => {
                return Err(DecodeError { kind: ErrorKind::Malformed, at: pos });
            },
        };
        proof {
            assert(b@.skip(pos as int).skip((p - pos) as int) =~= b@.skip(p as int));
        }
        match I::decode(b, p) {
            Ok((v, q)) => Ok((TagWrap(v), q)),
            Err(e) => Err(e),
        }
    }

    proof fn lemma_round_trip(m: I::V, rest: Seq<u8>) {
        lemma_pow256();
        let t = head(6, T as nat);
        I::lemma_round_trip(m, rest);
        lemma_head(6, T as nat, I::wire(m) + rest);
        let s = Self::wire(m) + rest;
        assert(s =~= t + (I::wire(m) + rest));
        assert(s.skip(t.len() as int) =~= I::wire(m) + rest);
    }
}

/// A map that the schema requires and that carries nothing.
#[derive(Debug, PartialEq, Eq, Clone, Copy, Structural)]
pub struct EmptyMap;

impl DeepView for EmptyMap {
    type V = EmptyMap;

    open spec fn deep_view(&self) -> EmptyMap {
        *self
    }
}

impl Codec for EmptyMap {
    open spec fn wire(m: EmptyMap) -> Seq<u8> {
        seq![0xa0u8]
    }

    /// Any map, whatever its entries; they are skipped.
    open spec fn parse(s: Seq<u8>) -> Result<(EmptyMap, nat), ErrorKind> {
        if s.len() == 0 {
            Err(ErrorKind::Malformed)
        } else if major_of(s[0]) != 5 {
            Err(ErrorKind::UnexpectedType)
        } else {
            match head_of(s, 5) {
                Some((n, h)) => if n == 0 {
                    Ok((EmptyMap, h))
                } else {
                    match item_len(s) {
                        Some(k) => Ok((EmptyMap, k)),
                        None => Err(ErrorKind::Malformed),
                    }
                },
                None => if open_head(s, 5) {
                    match item_len(s) {
                        Some(k) => Ok((EmptyMap, k)),
                        None => Err(ErrorKind::Malformed),
                    }
                } else {
                    Err(ErrorKind::Malformed)
                },
            }
        }
    }

    open spec fn encodable(m: EmptyMap) -> bool {
        true
    }

    fn encode(&self, out: &mut Vec<u8>) {
        write_map(out, 0);
        proof {
            reveal_with_fuel(crate::wire::be_bytes, 1);
            assert(head(5, 0) =~= seq![0xa0u8]);
        }
    }

    fn decode(b: &[u8], pos: usize) -> (r: Result<(EmptyMap, usize), DecodeError>) {
        if pos >= b.len() {
            return Err(DecodeError { kind: ErrorKind::Malformed, at: pos });
        }
        if b[pos] / 32 != 5 {
            return Err(DecodeError { kind: ErrorKind::UnexpectedType, at: pos });
        }
        match read_map(b, pos) {
            Ok((Some(0), p)) => Ok((EmptyMap, p)),
            Ok(_) => match skip_item(b, pos) {
                Ok(p) => Ok((EmptyMap, p)),
                Err(_) => Err(DecodeError { kind: ErrorKind::Malformed, at: pos }),
            },
            Err(_) => Err(DecodeError { kind: ErrorKind::Malformed, at: pos }),
        }
    }

    proof fn lemma_round_trip(m: EmptyMap, rest: Seq<u8>) {
        lemma_pow256();
        lemma_head(5, 0, rest);
        assert(head(5, 0) =~= seq![0xa0u8]);
    }
}

/// An optional value written as an array of zero or one element.
#[derive(Debug, PartialEq, Eq, Clone)]
pub struct ZeroOrOneArray<T>(Option<T>);

impl<T> ZeroOrOneArray<T> {
    pub closed spec fn value(&self) -> Option<T> {
        self.0
    }

    pub fn new(x: Option<T>) -> (r: ZeroOrOneArray<T>)
        ensures
            r.value() == x,
    {
        ZeroOrOneArray(x)
    }

    /// The optional value, borrowed.
    pub fn as_option(&self) -> (r: &Option<T>)
        ensures
            *r == self.value(),
    {
        &self.0
    }
}

impl<T: DeepView> DeepView for ZeroOrOneArray<T> {
    type V = Option<T::V>;

    open spec fn deep_view(&self) -> Option<T::V> {
        match self.value() {
            Some(x) => Some(x.deep_view()),
            None => None,
        }
    }
}

impl<T: Codec> Codec for ZeroOrOneArray<T> {
    open spec fn wire(m: Option<T::V>) -> Seq<u8> {
        match m {
            Some(x) => seq![0x81u8] + T::wire(x),
            None => seq![0x80u8],
        }
    }

    /// A definite array of length 0 (absent) or 1 (present); any other
    /// length, and the indefinite framing, are refused.
    open spec fn parse(s: Seq<u8>) -> Result<(Option<T::V>, nat), ErrorKind> {
        match head_of(s, 4) {
            Some((n, h)) => if n == 0 {
                Ok((None, h))
            } else if n == 1 {
                match T::parse(s.skip(h as int)) {
                    Ok((v, k)) => Ok((Some(v), h + k)),
                    Err(e) => Err(e),
                }
            } else {
                Err(ErrorKind::InvalidLength)
            },
            None => if open_head(s, 4) {
                Err(ErrorKind::InvalidLength)
            } else {
                Err(ErrorKind::Malformed)
            },
        }
    }

    open spec fn encodable(m: Option<T::V>) -> bool {
        m matches Some(x) ==> T::encodable(x)
    }

    fn encode(&self, out: &mut Vec<u8>) {
        proof {
            lemma_pow256();
            reveal_with_fuel(crate::wire::be_bytes, 1);
            assert(head(4, 0) =~= seq![0x80u8]);
            assert(head(4, 1) =~= seq![0x81u8]);
        }
        match &self.0 {
            Some(x) => {
                write_array(out, 1);
                x.encode(out);
            },
            None => {
                write_array(out, 0);
            },
        }
        proof {
            assert(out@ =~= old(out)@ + Self::wire(self.deep_view()));
        }
    }

    fn decode(b: &[u8], pos: usize) -> (r: Result<(ZeroOrOneArray<T>, usize), DecodeError>) {
        match read_array(b, pos) {
            Ok((Some(0), p)) => Ok((ZeroOrOneArray(None), p)),
            Ok((Some(1), p)) => {
                proof {
                    assert(b@.skip(pos as int).skip((p - pos) as int) =~= b@.skip(p as int));
                }
                match T::decode(b, p) {
                    Ok((v, q)) => Ok((ZeroOrOneArray(Some(v)), q)),
                    Err(e) => Err(e),
                }
            },
            Ok(_) => Err(DecodeError { kind: ErrorKind::InvalidLength, at: pos }),
            Err(_) => Err(DecodeError { kind: ErrorKind::Malformed, at: pos }),
        }
    }

    proof fn lemma_round_trip(m: Option<T::V>, rest: Seq<u8>) {
        lemma_pow256();
        match m {
            Some(x) => {
                T::lemma_round_trip(x, rest);
                lemma_head(4, 1, T::wire(x) + rest);
                assert(head(4, 1) =~= seq![0x81u8]);
                let s = Self::wire(m) + rest;
                assert(s =~= head(4, 1) + (T::wire(x) + rest));
                assert(s.skip(1) =~= T::wire(x) + rest);
            },
            None => {
                lemma_head(4, 0, rest);
                assert(head(4, 0) =~= seq![0x80u8]);
            },
        }
    }
}

/// A zero-or-one array reads an array of length 0 as absent and one of
/// length 1 as present, and refuses every other length and the indefinite
/// framing.
pub proof fn lemma_zero_or_one_lengths<T: Codec>(n: u64, rest: Seq<u8>)
    ensures
        ZeroOrOneArray::<T>::parse(head(4, 0) + rest) == Ok::<(Option<T::V>, nat), ErrorKind>(
            (None, 1),
        ),
        ZeroOrOneArray::<T>::parse(head(4, 1) + rest) == match T::parse(rest) {
            Ok((v, k)) => Ok::<(Option<T::V>, nat), ErrorKind>((Some(v), 1 + k)),
            Err(e) => Err(e),
        },
        n >= 2 ==> ZeroOrOneArray::<T>::parse(head(4, n as nat) + rest) == Err::<
            (Option<T::V>, nat),
            ErrorKind,
        >(ErrorKind::InvalidLength),
        ZeroOrOneArray::<T>::parse(seq![0x9fu8] + rest) == Err::<(Option<T::V>, nat), ErrorKind>(
            ErrorKind::InvalidLength,
        ),
{
    lemma_pow256();
    lemma_head(4, 0, rest);
    lemma_head(4, 1, rest);
    lemma_head(4, n as nat, rest);
    assert((head(4, 1) + rest).skip(1) =~= rest);
    let t = seq![0x9fu8] + rest;
    assert(t[0] == 0x9f);
    assert(head_of(t, 4) is None);
}

/// A value that is present, or absent as an explicit null or an explicit undefined.
#[derive(Debug, PartialEq, Eq, Clone)]
pub enum Nullable<T> {
    Present(T),
    Null,
    Undefined,
}

impl<T> Nullable<T> {
    /// Applies `f` to a present value; null and undefined stay as they are.
    pub fn map<F, O>(self, f: F) -> (r: Nullable<O>)
        where
            F: Fn(T) -> O,
        requires
            self matches Nullable::Present(x) ==> f.requires((x,)),
        ensures
            match self {
                Nullable::Present(x) => r matches Nullable::Present(y) && f.ensures((x,), y),
                Nullable::Null => r matches Nullable::Null,
                Nullable::Undefined => r matches Nullable::Undefined,
            },
    {
        match self {
            Nullable::Present(x) => Nullable::Present(f(x)),
            Nullable::Null => Nullable::Null,
            Nullable::Undefined => Nullable::Undefined,
        }
    }

    /// The same state, with a present value borrowed.
    pub fn as_ref(&self) -> (r: Nullable<&T>)
        ensures
            match *self {
                Nullable::Present(x) => r matches Nullable::Present(y) && *y == x,
                Nullable::Null => r matches Nullable::Null,
                Nullable::Undefined => r matches Nullable::Undefined,
            },
    {
        match self {
            Nullable::Present(x) => Nullable::Present(x),
            Nullable::Null => Nullable::Null,
            Nullable::Undefined => Nullable::Undefined,
        }
    }

    /// Present from `Some`, null from `None`.
    pub fn from_option(x: Option<T>) -> (r: Nullable<T>)
        ensures
            match x {
                Option::Some(v) => r == Nullable::Present(v),
                Option::None => r == Nullable::<T>::Null,
            },
    {
        match x {
            Option::Some(v) => Nullable::Present(v),
            Option::None => Nullable::Null,
        }
    }

    /// The present value; null and undefined both become `None`.
    pub fn into_option(self) -> (r: Option<T>)
        ensures
            match self {
                Nullable::Present(v) => r == Option::Some(v),
                _ => r is None,
            },
    {
        match self {
            Nullable::Present(v) => Option::Some(v),
            _ => Option::None,
        }
    }
}

impl<T: DeepView> DeepView for Nullable<T> {
    type V = Nullable<T::V>;

    open spec fn deep_view(&self) -> Nullable<T::V> {
        match self {
            Nullable::Present(x) => Nullable::Present(x.deep_view()),
            Nullable::Null => Nullable::Null,
            Nullable::Undefined => Nullable::Undefined,
        }
    }
}

impl<T: Codec> Codec for Nullable<T> {
    open spec fn wire(m: Nullable<T::V>) -> Seq<u8> {
        match m {
            Nullable::Present(x) => T::wire(x),
            Nullable::Null => seq![0xf6u8],
            Nullable::Undefined => seq![0xf7u8],
        }
    }

    /// The null byte, the undefined byte, or else the inner value.
    open spec fn parse(s: Seq<u8>) -> Result<(Nullable<T::V>, nat), ErrorKind> {
        if s.len() > 0 && s[0] == 0xf6 {
            Ok((Nullable::Null, 1))
        } else if s.len() > 0 && s[0] == 0xf7 {
            Ok((Nullable::Undefined, 1))
        } else {
            match T::parse(s) {
                Ok((v, n)) => Ok((Nullable::Present(v), n)),
                Err(e) => Err(e),
            }
        }
    }

    /// A present value must not itself be written as a null or undefined byte.
    open spec fn encodable(m: Nullable<T::V>) -> bool {
        m matches Nullable::Present(x) ==> T::encodable(x) && T::wire(x)[0] != 0xf6 && T::wire(x)[0]
            != 0xf7
    }

    fn encode(&self, out: &mut Vec<u8>) {
        match self {
            Nullable::Present(x) => x.encode(out),
            Nullable::Null => write_null(out),
            Nullable::Undefined => write_undefined(out),
        }
    }

    fn decode(b: &[u8], pos: usize) -> (r: Result<(Nullable<T>, usize), DecodeError>) {
        if pos < b.len() && b[pos] == 0xf6 {
            match read_null(b, pos) {
                Ok(p) => Ok((Nullable::Null, p)),
                Err(_) => Err(DecodeError { kind: ErrorKind::Malformed, at: pos }),
            }
        } else if pos < b.len() && b[pos] == 0xf7 {
            match read_undefined(b, pos) {
                Ok(p) => Ok((Nullable::Undefined, p)),
                Err(_) => Err(DecodeError { kind: ErrorKind::Malformed, at: pos }),
            }
        } else {
            match T::decode(b, pos) {
                Ok((v, p)) => Ok((Nullable::Present(v), p)),
                Err(e) => Err(e),
            }
        }
    }

    proof fn lemma_round_trip(m: Nullable<T::V>, rest: Seq<u8>) {
        if let Nullable::Present(x) = m {
            T::lemma_round_trip(x, rest);
            assert((T::wire(x) + rest)[0] == T::wire(x)[0]);
        }
    }
}

/// A decoded value together with the exact bytes it was read from.
///
/// While the bytes are kept, encoding writes them as they are. A value made
/// with [`KeepRaw::new`] keeps no bytes and is encoded from the value; so is
/// one whose value was borrowed mutably, which drops the bytes.
#[derive(Debug, PartialEq, Eq, Clone)]
pub struct KeepRaw<T> {
    raw: Vec<u8>,
    inner: T,
}

impl<T> KeepRaw<T> {
    pub closed spec fn raw(&self) -> Seq<u8> {
        self.raw@
    }

    pub closed spec fn value(&self) -> T {
        self.inner
    }

    /// A value with no kept bytes.
    pub fn new(inner: T) -> (r: KeepRaw<T>)
        ensures
            r.value() == inner,
            r.raw() == Seq::<u8>::empty(),
    {
        KeepRaw { raw: Vec::new(), inner }
    }

    /// The kept bytes (empty if there are none).
    pub fn raw_cbor(&self) -> (r: &[u8])
        ensures
            r@ == self.raw(),
    {
        self.raw.as_slice()
    }

    pub fn unwrap(self) -> (r: T)
        ensures
            r == self.value(),
    {
        self.inner
    }

    /// Drops the kept bytes.
    pub fn clear_raw(&mut self)
        ensures
            final(self).value() == old(self).value(),
            final(self).raw() == Seq::<u8>::empty(),
    {
        self.raw = Vec::new();
    }

    /// The same value and bytes; this type always owns its bytes.
    pub fn to_owned(self) -> (r: KeepRaw<T>)
        ensures
            r.value() == self.value(),
            r.raw() == self.raw(),
    {
        self
    }

    /// The value, borrowed.
    pub fn inner(&self) -> (r: &T)
        ensures
            *r == self.value(),
    {
        &self.inner
    }

    /// The value, borrowed mutably; the kept bytes are dropped first, since
    /// they may no longer match the value.
    pub fn inner_mut(&mut self) -> (r: &mut T)
        ensures
            *r == old(self).value(),
            final(self).value() == *final(r),
            final(self).raw() == Seq::<u8>::empty(),
    {
        self.raw = Vec::new();
        &mut self.inner
    }
}

impl<T> core::ops::Deref for KeepRaw<T> {
    type Target = T;

    fn deref(&self) -> &T {
        &self.inner
    }
}

impl<T> core::ops::DerefMut for KeepRaw<T> {
    fn deref_mut(&mut self) -> &mut T {
        self.inner_mut()
    }
}

impl<T: DeepView> DeepView for KeepRaw<T> {
    /// The kept bytes and the model of the value.
    type V = (Seq<u8>, T::V);

    open spec fn deep_view(&self) -> (Seq<u8>, T::V) {
        (self.raw(), self.value().deep_view())
    }
}

impl<T: Codec> Codec for KeepRaw<T> {
    /// The kept bytes if there are any, else the value's encoding.
    open spec fn wire(m: (Seq<u8>, T::V)) -> Seq<u8> {
        if m.0.len() == 0 {
            T::wire(m.1)
        } else {
            m.0
        }
    }

    /// The value, together with the bytes it was read from.
    open spec fn parse(s: Seq<u8>) -> Result<((Seq<u8>, T::V), nat), ErrorKind> {
        match T::parse(s) {
            Ok((v, n)) => if 0 < n <= s.len() {
                Ok(((s.take(n as int), v), n))
            } else {
                Err(ErrorKind::Malformed)
            },
            Err(e) => Err(e),
        }
    }

    /// The kept bytes are the value's own encoding.
    open spec fn encodable(m: (Seq<u8>, T::V)) -> bool {
        T::encodable(m.1) && m.0 == T::wire(m.1)
    }

    fn encode(&self, out: &mut Vec<u8>) {
        if self.raw.len() == 0 {
            self.inner.encode(out);
        } else {
            append_bytes(out, self.raw.as_slice());
        }
    }

    fn decode(b: &[u8], pos: usize) -> (r: Result<(KeepRaw<T>, usize), DecodeError>) {
        match T::decode(b, pos) {
            Ok((inner, p)) => {
                let raw = slice_to_vec(slice_subrange(b, pos, p));
                proof {
                    assert(raw@ =~= b@.skip(pos as int).take((p - pos) as int));
                }
                Ok((KeepRaw { raw, inner }, p))
            },
            Err(e) => Err(e),
        }
    }

    proof fn lemma_round_trip(m: (Seq<u8>, T::V), rest: Seq<u8>) {
        T::lemma_round_trip(m.1, rest);
        assert(T::wire(m.1).len() <= (T::wire(m.1) + rest).len());
        assert((T::wire(m.1) + rest).take(T::wire(m.1).len() as int) =~= T::wire(m.1));
    }
}

/// Whatever `KeepRaw` reads, it writes back byte for byte: the encoding of
/// what was read from the front of `s` is exactly the bytes it was read from,
/// whether or not they are the inner value's own encoding.
pub proof fn lemma_keep_raw_fidelity<T: Codec>(s: Seq<u8>)
    ensures
        KeepRaw::<T>::parse(s) matches Ok((m, n)) ==> KeepRaw::<T>::wire(m) == s.take(n as int),
{
}

/// Once the kept bytes are gone (as after `inner_mut` or `clear_raw`), the
/// encoding is the value's own, never the bytes it was read from.
pub proof fn lemma_cleared_encodes_value<T: Codec>(k: KeepRaw<T>)
    requires
        k.raw() == Seq::<u8>::empty(),
    ensures
        KeepRaw::<T>::wire(k.deep_view()) == T::wire(k.value().deep_view()),
{
}

/// A data item kept as its bytes, not interpreted.
#[derive(Debug, PartialEq, Eq, Clone)]
pub struct AnyCbor {
    inner: Vec<u8>,
}

impl AnyCbor {
    pub closed spec fn bytes(&self) -> Seq<u8> {
        self.inner@
    }

    pub fn raw_bytes(&self) -> (r: &[u8])
        ensures
            r@ == self.bytes(),
    {
        self.inner.as_slice()
    }

    pub fn unwrap(self) -> (r: Vec<u8>)
        ensures
            r@ == self.bytes(),
    {
        self.inner
    }

    /// The bytes of `other`'s encoding.
    pub fn from_encode<T: Codec>(other: T) -> (r: AnyCbor)
        ensures
            r.bytes() == T::wire(other.deep_view()),
    {
        let mut inner: Vec<u8> = Vec::new();
        other.encode(&mut inner);
        AnyCbor { inner }
    }

    /// Reads the kept bytes as a `T`.
    pub fn into_decode<T: Codec>(self) -> (r: Result<T, DecodeError>)
        ensures
            match r {
                Ok(v) => T::parse(self.bytes()) matches Ok((w, _)) && w == v.deep_view(),
                Err(e) => T::parse(self.bytes()) == Err::<(T::V, nat), ErrorKind>(e.kind),
            },
    {
        proof {
            assert(self.inner@.skip(0) =~= self.inner@);
        }
        match T::decode(self.inner.as_slice(), 0) {
            Ok((v, _)) => Ok(v),
            Err(e) => Err(e),
        }
    }
}

impl DeepView for AnyCbor {
    type V = Seq<u8>;

    open spec fn deep_view(&self) -> Seq<u8> {
        self.bytes()
    }
}

impl Codec for AnyCbor {
    open spec fn wire(m: Seq<u8>) -> Seq<u8> {
        m
    }

    /// The bytes of one complete data item.
    open spec fn parse(s: Seq<u8>) -> Result<(Seq<u8>, nat), ErrorKind> {
        match item_len(s) {
            Some(n) => if 0 < n <= s.len() {
                Ok((s.take(n as int), n))
            } else {
                Err(ErrorKind::Malformed)
            },
            None => Err(ErrorKind::Malformed),
        }
    }

    /// The bytes are one complete data item, whatever follows them.
    open spec fn encodable(m: Seq<u8>) -> bool {
        &&& m.len() > 0
        &&& m[0] != 0xff
        &&& forall|rest: Seq<u8>| #[trigger] item_len(m + rest) == Some(m.len())
    }

    fn encode(&self, out: &mut Vec<u8>) {
        append_bytes(out, self.inner.as_slice());
    }

    fn decode(b: &[u8], pos: usize) -> (r: Result<(AnyCbor, usize), DecodeError>) {
        match skip_item(b, pos) {
            Ok(p) => {
                let inner = slice_to_vec(slice_subrange(b, pos, p));
                proof {
                    assert(inner@ =~= b@.skip(pos as int).take((p - pos) as int));
                }
                Ok((AnyCbor { inner }, p))
            },
            Err(_) => Err(DecodeError { kind: ErrorKind::Malformed, at: pos }),
        }
    }

    proof fn lemma_round_trip(m: Seq<u8>, rest: Seq<u8>) {
        assert(item_len(m + rest) == Some(m.len()));
        assert((m + rest).take(m.len() as int) =~= m);
    }
}

/// Skips one data item of any kind; used to step over parts of an input.
#[derive(Debug, PartialEq, Eq, Clone, Copy)]
pub struct SkipCbor<const N: usize> {}

impl<const N: usize> SkipCbor<N> {
    /// Steps over the data item at `pos`.
    pub fn decode(b: &[u8], pos: usize) -> (r: Result<(SkipCbor<N>, usize), DecodeError>)
        requires
            pos <= b@.len(),
        ensures
            match r {
                Ok((_, p)) => pos < p <= b@.len() && item_len(b@.skip(pos as int)) == Some(
                    (p - pos) as nat,
                ),
                Err(e) => e.kind == ErrorKind::Malformed && item_len(b@.skip(pos as int)) is None,
            },
    {
        match skip_item(b, pos) {
            Ok(p) => Ok((SkipCbor {  }, p)),
            Err(_) => Err(DecodeError { kind: ErrorKind::Malformed, at: pos }),
        }
    }
}

impl<T> core::ops::Deref for CborWrap<T> {
    type Target = T;

    fn deref(&self) -> &T {
        &self.0
    }
}

impl<I, const T: u64> core::ops::Deref for TagWrap<I, T> {
    type Target = I;

    fn deref(&self) -> &I {
        &self.0
    }
}

impl<I, const T: u64> From<I> for TagWrap<I, T> {
    fn from(inner: I) -> TagWrap<I, T> {
        TagWrap(inner)
    }
}

impl<I, const T: u64> vstd::std_specs::convert::FromSpecImpl<I> for TagWrap<I, T> {
    open spec fn obeys_from_spec() -> bool {
        true
    }

    open spec fn from_spec(inner: I) -> TagWrap<I, T> {
        TagWrap(inner)
    }
}

impl<T> core::ops::Deref for ZeroOrOneArray<T> {
    type Target = Option<T>;

    fn deref(&self) -> &Option<T> {
        &self.0
    }
}

impl<T> From<Option<T>> for Nullable<T> {
    fn from(x: Option<T>) -> Nullable<T> {
        match x {
            Option::Some(v) => Nullable::Present(v),
            Option::None => Nullable::Null,
        }
    }
}

impl<T> vstd::std_specs::convert::FromSpecImpl<Option<T>> for Nullable<T> {
    open spec fn obeys_from_spec() -> bool {
        true
    }

    open spec fn from_spec(x: Option<T>) -> Nullable<T> {
        match x {
            Option::Some(v) => Nullable::Present(v),
            Option::None => Nullable::Null,
        }
    }
}

impl<T> From<Nullable<T>> for Option<T> {
    fn from(other: Nullable<T>) -> Option<T> {
        match other {
            Nullable::Present(v) => Option::Some(v),
            _ => Option::None,
        }
    }
}

impl<T> vstd::std_specs::convert::FromSpecImpl<Nullable<T>> for Option<T> {
    open spec fn obeys_from_spec() -> bool {
        true
    }

    open spec fn from_spec(other: Nullable<T>) -> Option<T> {
        match other {
            Nullable::Present(v) => Option::Some(v),
            _ => Option::None,
        }
    }
}

impl core::ops::Deref for AnyCbor {
    type Target = Vec<u8>;

    fn deref(&self) -> &Vec<u8> {
        &self.inner
    }
}

} // verus!

//! Runs of encoded items and of encoded key/value entries: what an array or a
//! map holds after its head.
use crate::wire::{read_outcome, Codec, DecodeError, ErrorKind};
use vstd::view::DeepView;
use vstd::prelude::*;

verus! {

/// The encodings of `xs`, one after the other.
pub open spec fn wire_items<T: Codec>(xs: Seq<T::V>) -> Seq<u8>
    decreases xs.len(),
{
    if xs.len() == 0 {
        seq![]
    } else {
        T::wire(xs[0]) + wire_items::<T>(xs.skip(1))
    }
}

/// The encodings of the keys and values of `xs`, key before value, entry after entry.
pub open spec fn wire_entries<K: Codec, V: Codec>(xs: Seq<(K::V, V::V)>) -> Seq<u8>
    decreases xs.len(),
{
    if xs.len() == 0 {
        seq![]
    } else {
        K::wire(xs[0].0) + V::wire(xs[0].1) + wire_entries::<K, V>(xs.skip(1))
    }
}

/// Puts `front` and `k` consumed bytes before what `r` read.
pub open spec fn prepend<T>(front: Seq<T>, k: nat, r: Result<(Seq<T>, nat), ErrorKind>) -> Result<
    (Seq<T>, nat),
    ErrorKind,
> {
    match r {
        Ok((xs, m)) => Ok((front + xs, k + m)),
        Err(e) => Err(e),
    }
}

/// `n` items in a row at the front of `s`.
pub open spec fn parse_items<T: Codec>(s: Seq<u8>, n: nat) -> Result<(Seq<T::V>, nat), ErrorKind>
    decreases n,
{
    if n == 0 {
        Ok((seq![], 0))
    } else {
        match T::parse(s) {
            Err(e) => Err(e),
            Ok((x, k)) => if 0 < k <= s.len() {
                prepend(seq![x], k, parse_items::<T>(s.skip(k as int), (n - 1) as nat))
            } else {
                Err(ErrorKind::Malformed)
            },
        }
    }
}

/// Items at the front of `s` up to and including a break byte.
pub open spec fn parse_items_open<T: Codec>(s: Seq<u8>) -> Result<(Seq<T::V>, nat), ErrorKind>
    decreases s.len(),
{
    if s.len() == 0 {
        Err(ErrorKind::Malformed)
    } else if s[0] == 0xff {
        Ok((seq![], 1))
    } else {
        match T::parse(s) {
            Err(e) => Err(e),
            Ok((x, k)) => if 0 < k <= s.len() {
                prepend(seq![x], k, parse_items_open::<T>(s.skip(k as int)))
            } else {
                Err(ErrorKind::Malformed)
            },
        }
    }
}

/// One key and its value at the front of `s`.
pub open spec fn parse_entry<K: Codec, V: Codec>(s: Seq<u8>) -> Result<((K::V, V::V), nat), ErrorKind> {
    match K::parse(s) {
        Err(e) => Err(e),
        Ok((k, a)) => if 0 < a <= s.len() {
            match V::parse(s.skip(a as int)) {
                Err(e) => Err(e),
                Ok((v, c)) => if 0 < c <= s.len() - a {
                    Ok(((k, v), a + c))
                } else {
                    Err(ErrorKind::Malformed)
                },
            }
        } else {
            Err(ErrorKind::Malformed)
        },
    }
}

/// `n` entries in a row at the front of `s`.
pub open spec fn parse_entries<K: Codec, V: Codec>(s: Seq<u8>, n: nat) -> Result<
    (Seq<(K::V, V::V)>, nat),
    ErrorKind,
>
    decreases n,
{
    if n == 0 {
        Ok((seq![], 0))
    } else {
        match parse_entry::<K, V>(s) {
            Err(e) => Err(e),
            Ok((x, k)) => if 0 < k <= s.len() {
                prepend(seq![x], k, parse_entries::<K, V>(s.skip(k as int), (n - 1) as nat))
            } else {
                Err(ErrorKind::Malformed)
            },
        }
    }
}

/// Entries at the front of `s` up to and including a break byte.
pub open spec fn parse_entries_open<K: Codec, V: Codec>(s: Seq<u8>) -> Result<
    (Seq<(K::V, V::V)>, nat),
    ErrorKind,
>
    decreases s.len(),
{
    if s.len() == 0 {
        Err(ErrorKind::Malformed)
    } else if s[0] == 0xff {
        Ok((seq![], 1))
    } else {
        match parse_entry::<K, V>(s) {
            Err(e) => Err(e),
            Ok((x, k)) => if 0 < k <= s.len() {
                prepend(seq![x], k, parse_entries_open::<K, V>(s.skip(k as int)))
            } else {
                Err(ErrorKind::Malformed)
            },
        }
    }
}

pub open spec fn all_encodable<T: Codec>(xs: Seq<T::V>) -> bool {
    forall|i: int| 0 <= i < xs.len() ==> T::encodable(#[trigger] xs[i])
}

pub open spec fn all_entries_encodable<K: Codec, V: Codec>(xs: Seq<(K::V, V::V)>) -> bool {
    forall|i: int| 0 <= i < xs.len() ==> K::encodable((#[trigger] xs[i]).0) && V::encodable(xs[i].1)
}

proof fn lemma_prepend_prepend<T>(a: Seq<T>, k: nat, b: Seq<T>, j: nat, r: Result<(Seq<T>, nat), ErrorKind>)
    ensures
        prepend(a, k, prepend(b, j, r)) == prepend(a + b, k + j, r),
{
    if let Ok((xs, m)) = r {
        assert(a + (b + xs) =~= (a + b) + xs);
    }
}

pub proof fn lemma_wire_items_push<T: Codec>(xs: Seq<T::V>, x: T::V)
    ensures
        wire_items::<T>(xs.push(x)) == wire_items::<T>(xs) + T::wire(x),
    decreases xs.len(),
{
    if xs.len() == 0 {
        assert(xs.push(x).skip(1) =~= Seq::<T::V>::empty());
        assert(wire_items::<T>(Seq::<T::V>::empty()) == Seq::<u8>::empty());
        assert(xs.push(x)[0] == x);
        assert(wire_items::<T>(xs.push(x)) =~= T::wire(x));
    } else {
        assert(xs.push(x).skip(1) =~= xs.skip(1).push(x));
        lemma_wire_items_push::<T>(xs.skip(1), x);
        assert(wire_items::<T>(xs.push(x)) =~= wire_items::<T>(xs) + T::wire(x));
    }
}

pub proof fn lemma_wire_entries_push<K: Codec, V: Codec>(xs: Seq<(K::V, V::V)>, x: (K::V, V::V))
    ensures
        wire_entries::<K, V>(xs.push(x)) == wire_entries::<K, V>(xs) + K::wire(x.0) + V::wire(x.1),
    decreases xs.len(),
{
    if xs.len() == 0 {
        assert(xs.push(x).skip(1) =~= Seq::<(K::V, V::V)>::empty());
        assert(wire_entries::<K, V>(Seq::<(K::V, V::V)>::empty()) == Seq::<u8>::empty());
        assert(xs.push(x)[0] == x);
        assert(wire_entries::<K, V>(xs.push(x)) =~= K::wire(x.0) + V::wire(x.1));
    } else {
        assert(xs.push(x).skip(1) =~= xs.skip(1).push(x));
        lemma_wire_entries_push::<K, V>(xs.skip(1), x);
        assert(wire_entries::<K, V>(xs.push(x)) =~= wire_entries::<K, V>(xs) + K::wire(x.0) + V::wire(x.1));
    }
}

/// Encoded items read back as themselves, whatever follows them.
pub proof fn lemma_items_round_trip<T: Codec>(xs: Seq<T::V>, rest: Seq<u8>)
    requires
        all_encodable::<T>(xs),
    ensures
        parse_items::<T>(wire_items::<T>(xs) + rest, xs.len()) == Ok::<(Seq<T::V>, nat), ErrorKind>(
            (xs, wire_items::<T>(xs).len()),
        ),
    decreases xs.len(),
{
    if xs.len() == 0 {
        assert(xs =~= Seq::<T::V>::empty());
    } else {
        let tail = xs.skip(1);
        assert(all_encodable::<T>(tail)) by {
            assert forall|i: int| 0 <= i < tail.len() implies T::encodable(#[trigger] tail[i]) by {
                assert(tail[i] == xs[i + 1]);
            }
        }
        lemma_items_round_trip::<T>(tail, rest);
        assert(T::encodable(xs[0]));
        let s = wire_items::<T>(xs) + rest;
        T::lemma_round_trip(xs[0], wire_items::<T>(tail) + rest);
        assert(s =~= T::wire(xs[0]) + (wire_items::<T>(tail) + rest));
        assert(s.skip(T::wire(xs[0]).len() as int) =~= wire_items::<T>(tail) + rest);
        assert(seq![xs[0]] + tail =~= xs);
        assert(T::parse(s) == Ok::<(T::V, nat), ErrorKind>((xs[0], T::wire(xs[0]).len())));
        assert(wire_items::<T>(xs).len() == T::wire(xs[0]).len() + wire_items::<T>(tail).len());
        assert(parse_items::<T>(s, xs.len()) == prepend(
            seq![xs[0]],
            T::wire(xs[0]).len(),
            parse_items::<T>(wire_items::<T>(tail) + rest, tail.len()),
        ));
    }
}

/// Encoded items and a break byte read back as the items, whatever follows.
pub proof fn lemma_items_open_round_trip<T: Codec>(xs: Seq<T::V>, rest: Seq<u8>)
    requires
        all_encodable::<T>(xs),
    ensures
        parse_items_open::<T>(wire_items::<T>(xs) + seq![0xffu8] + rest) == Ok::<
            (Seq<T::V>, nat),
            ErrorKind,
        >((xs, wire_items::<T>(xs).len() + 1)),
    decreases xs.len(),
{
    let s = wire_items::<T>(xs) + seq![0xffu8] + rest;
    if xs.len() == 0 {
        assert(s[0] == 0xff);
        assert(xs =~= Seq::<T::V>::empty());
    } else {
        let tail = xs.skip(1);
        assert(all_encodable::<T>(tail)) by {
            assert forall|i: int| 0 <= i < tail.len() implies T::encodable(#[trigger] tail[i]) by {
                assert(tail[i] == xs[i + 1]);
            }
        }
        lemma_items_open_round_trip::<T>(tail, rest);
        assert(T::encodable(xs[0]));
        T::lemma_round_trip(xs[0], wire_items::<T>(tail) + seq![0xffu8] + rest);
        assert(s =~= T::wire(xs[0]) + (wire_items::<T>(tail) + seq![0xffu8] + rest));
        assert(s[0] == T::wire(xs[0])[0]);
        assert(s.skip(T::wire(xs[0]).len() as int) =~= wire_items::<T>(tail) + seq![0xffu8] + rest);
        assert(seq![xs[0]] + tail =~= xs);
        assert(T::parse(s) == Ok::<(T::V, nat), ErrorKind>((xs[0], T::wire(xs[0]).len())));
        assert(wire_items::<T>(xs).len() == T::wire(xs[0]).len() + wire_items::<T>(tail).len());
        assert(parse_items_open::<T>(s) == prepend(
            seq![xs[0]],
            T::wire(xs[0]).len(),
            parse_items_open::<T>(wire_items::<T>(tail) + seq![0xffu8] + rest),
        ));
    }
}



/// An encoded key and value read back as themselves, whatever follows them.
pub proof fn lemma_entry_round_trip<K: Codec, V: Codec>(x: (K::V, V::V), rest: Seq<u8>)
    requires
        K::encodable(x.0),
        V::encodable(x.1),
    ensures
        parse_entry::<K, V>(K::wire(x.0) + V::wire(x.1) + rest) == Ok::<
            ((K::V, V::V), nat),
            ErrorKind,
        >((x, K::wire(x.0).len() + V::wire(x.1).len())),
        (K::wire(x.0) + V::wire(x.1) + rest)[0] != 0xff,
{
    let s = K::wire(x.0) + V::wire(x.1) + rest;
    K::lemma_round_trip(x.0, V::wire(x.1) + rest);
    V::lemma_round_trip(x.1, rest);
    assert(s =~= K::wire(x.0) + (V::wire(x.1) + rest));
    assert(s.skip(K::wire(x.0).len() as int) =~= V::wire(x.1) + rest);
    assert(s[0] == K::wire(x.0)[0]);
}

/// Encoded entries read back as themselves, whatever follows them.
pub proof fn lemma_entries_round_trip<K: Codec, V: Codec>(xs: Seq<(K::V, V::V)>, rest: Seq<u8>)
    requires
        all_entries_encodable::<K, V>(xs),
    ensures
        parse_entries::<K, V>(wire_entries::<K, V>(xs) + rest, xs.len()) == Ok::<
            (Seq<(K::V, V::V)>, nat),
            ErrorKind,
        >((xs, wire_entries::<K, V>(xs).len())),
    decreases xs.len(),
{
    if xs.len() == 0 {
        assert(xs =~= Seq::<(K::V, V::V)>::empty());
    } else {
        let tail = xs.skip(1);
        assert(all_entries_encodable::<K, V>(tail)) by {
            assert forall|i: int| 0 <= i < tail.len() implies K::encodable((#[trigger] tail[i]).0)
                && V::encodable(tail[i].1) by {
                assert(tail[i] == xs[i + 1]);
            }
        }
        lemma_entries_round_trip::<K, V>(tail, rest);
        assert(K::encodable(xs[0].0) && V::encodable(xs[0].1));
        let w = K::wire(xs[0].0) + V::wire(xs[0].1);
        let s = wire_entries::<K, V>(xs) + rest;
        lemma_entry_round_trip::<K, V>(xs[0], wire_entries::<K, V>(tail) + rest);
        assert(s =~= K::wire(xs[0].0) + V::wire(xs[0].1) + (wire_entries::<K, V>(tail) + rest));
        assert(s.skip(w.len() as int) =~= wire_entries::<K, V>(tail) + rest);
        assert(seq![xs[0]] + tail =~= xs);
        assert(wire_entries::<K, V>(xs).len() == w.len() + wire_entries::<K, V>(tail).len());
        assert(parse_entries::<K, V>(s, xs.len()) == prepend(
            seq![xs[0]],
            w.len(),
            parse_entries::<K, V>(wire_entries::<K, V>(tail) + rest, tail.len()),
        ));
    }
}

/// Encoded entries and a break byte read back as the entries, whatever follows.
pub proof fn lemma_entries_open_round_trip<K: Codec, V: Codec>(xs: Seq<(K::V, V::V)>, rest: Seq<u8>)
    requires
        all_entries_encodable::<K, V>(xs),
    ensures
        parse_entries_open::<K, V>(wire_entries::<K, V>(xs) + seq![0xffu8] + rest) == Ok::<
            (Seq<(K::V, V::V)>, nat),
            ErrorKind,
        >((xs, wire_entries::<K, V>(xs).len() + 1)),
    decreases xs.len(),
{
    let s = wire_entries::<K, V>(xs) + seq![0xffu8] + rest;
    if xs.len() == 0 {
        assert(s[0] == 0xff);
        assert(xs =~= Seq::<(K::V, V::V)>::empty());
    } else {
        let tail = xs.skip(1);
        assert(all_entries_encodable::<K, V>(tail)) by {
            assert forall|i: int| 0 <= i < tail.len() implies K::encodable((#[trigger] tail[i]).0)
                && V::encodable(tail[i].1) by {
                assert(tail[i] == xs[i + 1]);
            }
        }
        lemma_entries_open_round_trip::<K, V>(tail, rest);
        assert(K::encodable(xs[0].0) && V::encodable(xs[0].1));
        let w = K::wire(xs[0].0) + V::wire(xs[0].1);
        let t = wire_entries::<K, V>(tail) + seq![0xffu8] + rest;
        lemma_entry_round_trip::<K, V>(xs[0], t);
        assert(s =~= K::wire(xs[0].0) + V::wire(xs[0].1) + t);
        assert(s.skip(w.len() as int) =~= t);
        assert(seq![xs[0]] + tail =~= xs);
        assert(wire_entries::<K, V>(xs).len() == w.len() + wire_entries::<K, V>(tail).len());
        assert(parse_entries_open::<K, V>(s) == prepend(seq![xs[0]], w.len(), parse_entries_open::<K, V>(t)));
    }
}

/// `r` is what a reader of a run started at `pos` in `b` owes when the run
/// there reads as `expected`.
pub open spec fn run_outcome<T: DeepView>(
    r: Result<(Vec<T>, usize), DecodeError>,
    b: Seq<u8>,
    pos: nat,
    expected: Result<(Seq<T::V>, nat), ErrorKind>,
) -> bool {
    match r {
        Ok((xs, p)) => pos <= p <= b.len() && expected == Ok::<(Seq<T::V>, nat), ErrorKind>(
            (xs.deep_view(), (p - pos) as nat),
        ),
        Err(e) => expected == Err::<(Seq<T::V>, nat), ErrorKind>(e.kind),
    }
}

proof fn lemma_prepend_empty<T>(r: Result<(Seq<T>, nat), ErrorKind>)
    ensures
        prepend(Seq::<T>::empty(), 0, r) == r,
{
    if let Ok((xs, m)) = r {
        assert(Seq::<T>::empty() + xs =~= xs);
    }
}

/// Appends the encodings of `xs` in order.
pub fn encode_items<T: Codec>(xs: &Vec<T>, out: &mut Vec<u8>)
    ensures
        final(out)@ == old(out)@ + wire_items::<T>(xs.deep_view()),
{
    let mut i: usize = 0;
    while i < xs.len()
        invariant
            i <= xs@.len(),
            out@ == old(out)@ + wire_items::<T>(xs.deep_view().take(i as int)),
        decreases xs@.len() - i,
    {
        proof {
            lemma_wire_items_push::<T>(xs.deep_view().take(i as int), xs.deep_view()[i as int]);
            assert(xs.deep_view().take(i + 1) =~= xs.deep_view().take(i as int).push(
                xs.deep_view()[i as int],
            ));
        }
        xs[i].encode(out);
        i = i + 1;
    }
    proof {
        assert(xs.deep_view().take(i as int) =~= xs.deep_view());
    }
}

/// Appends the encodings of the keys and values of `xs` in order.
pub fn encode_entries<K: Codec, V: Codec>(xs: &Vec<(K, V)>, out: &mut Vec<u8>)
    ensures
        final(out)@ == old(out)@ + wire_entries::<K, V>(xs.deep_view()),
{
    let mut i: usize = 0;
    while i < xs.len()
        invariant
            i <= xs@.len(),
            out@ == old(out)@ + wire_entries::<K, V>(xs.deep_view().take(i as int)),
        decreases xs@.len() - i,
    {
        proof {
            lemma_wire_entries_push::<K, V>(xs.deep_view().take(i as int), xs.deep_view()[i as int]);
            assert(xs.deep_view().take(i + 1) =~= xs.deep_view().take(i as int).push(
                xs.deep_view()[i as int],
            ));
        }
        xs[i].0.encode(out);
        xs[i].1.encode(out);
        i = i + 1;
    }
    proof {
        assert(xs.deep_view().take(i as int) =~= xs.deep_view());
    }
}

/// Reads one key and its value starting at `pos`.
pub fn decode_entry<K: Codec, V: Codec>(b: &[u8], pos: usize) -> (r: Result<((K, V), usize), DecodeError>)
    requires
        pos <= b@.len(),
    ensures
        read_outcome(r, b@, pos as nat, parse_entry::<K, V>(b@.skip(pos as int))),
{
    let (k, p) = K::decode(b, pos)?;
    proof {
        assert(b@.skip(pos as int).skip((p - pos) as int) =~= b@.skip(p as int));
    }
    let (v, q) = V::decode(b, p)?;
    Ok(((k, v), q))
}

/// Reads `n` items starting at `pos`.
pub fn decode_items<T: Codec>(b: &[u8], pos: usize, n: u64) -> (r: Result<(Vec<T>, usize), DecodeError>)
    requires
        pos <= b@.len(),
    ensures
        run_outcome(r, b@, pos as nat, parse_items::<T>(b@.skip(pos as int), n as nat)),
{
    let mut xs: Vec<T> = Vec::new();
    let mut p = pos;
    let mut i: u64 = 0;
    proof {
        lemma_prepend_empty(parse_items::<T>(b@.skip(pos as int), n as nat));
        assert(xs.deep_view() =~= Seq::empty());
    }
    while i < n
        invariant
            pos <= p <= b@.len(),
            i <= n,
            parse_items::<T>(b@.skip(pos as int), n as nat) == prepend(
                xs.deep_view(),
                (p - pos) as nat,
                parse_items::<T>(b@.skip(p as int), (n - i) as nat),
            ),
        decreases n - i,
    {
        match T::decode(b, p) {
            Ok((x, q)) => {
                let ghost old_xs = xs.deep_view();
                proof {
                    assert(b@.skip(p as int).skip((q - p) as int) =~= b@.skip(q as int));
                    lemma_prepend_prepend(
                        old_xs,
                        (p - pos) as nat,
                        seq![x.deep_view()],
                        (q - p) as nat,
                        parse_items::<T>(b@.skip(q as int), (n - i - 1) as nat),
                    );
                }
                xs.push(x);
                proof {
                    assert(xs.deep_view() =~= old_xs + seq![x.deep_view()]);
                }
                p = q;
                i = i + 1;
            },
            Err(e) => {
                return Err(e);
            },
        }
    }
    proof {
        assert(xs.deep_view() + Seq::empty() =~= xs.deep_view());
    }
    Ok((xs, p))
}

/// Reads items starting at `pos` up to and including a break byte.
pub fn decode_items_open<T: Codec>(b: &[u8], pos: usize) -> (r: Result<(Vec<T>, usize), DecodeError>)
    requires
        pos <= b@.len(),
    ensures
        run_outcome(r, b@, pos as nat, parse_items_open::<T>(b@.skip(pos as int))),
{
    let mut xs: Vec<T> = Vec::new();
    let mut p = pos;
    proof {
        lemma_prepend_empty(parse_items_open::<T>(b@.skip(pos as int)));
        assert(xs.deep_view() =~= Seq::empty());
    }
    loop
        invariant
            pos <= p <= b@.len(),
            parse_items_open::<T>(b@.skip(pos as int)) == prepend(
                xs.deep_view(),
                (p - pos) as nat,
                parse_items_open::<T>(b@.skip(p as int)),
            ),
        decreases b@.len() - p,
    {
        if p >= b.len() {
            return Err(DecodeError { kind: ErrorKind::Malformed, at: p });
        }
        if b[p] == 0xff {
            proof {
                assert(xs.deep_view() + Seq::empty() =~= xs.deep_view());
            }
            return Ok((xs, p + 1));
        }
        match T::decode(b, p) {
            Ok((x, q)) => {
                let ghost old_xs = xs.deep_view();
                proof {
                    assert(b@.skip(p as int).skip((q - p) as int) =~= b@.skip(q as int));
                    lemma_prepend_prepend(
                        old_xs,
                        (p - pos) as nat,
                        seq![x.deep_view()],
                        (q - p) as nat,
                        parse_items_open::<T>(b@.skip(q as int)),
                    );
                }
                xs.push(x);
                proof {
                    assert(xs.deep_view() =~= old_xs + seq![x.deep_view()]);
                }
                p = q;
            },
            Err(e) => {
                return Err(e);
            },
        }
    }
}

/// Reads `n` entries starting at `pos`.
pub fn decode_entries<K: Codec, V: Codec>(b: &[u8], pos: usize, n: u64) -> (r: Result<(Vec<(K, V)>, usize), DecodeError>)
    requires
        pos <= b@.len(),
    ensures
        run_outcome(r, b@, pos as nat, parse_entries::<K, V>(b@.skip(pos as int), n as nat)),
{
    let mut xs: Vec<(K, V)> = Vec::new();
    let mut p = pos;
    let mut i: u64 = 0;
    proof {
        lemma_prepend_empty(parse_entries::<K, V>(b@.skip(pos as int), n as nat));
        assert(xs.deep_view() =~= Seq::empty());
    }
    while i < n
        invariant
            pos <= p <= b@.len(),
            i <= n,
            parse_entries::<K, V>(b@.skip(pos as int), n as nat) == prepend(
                xs.deep_view(),
                (p - pos) as nat,
                parse_entries::<K, V>(b@.skip(p as int), (n - i) as nat),
            ),
        decreases n - i,
    {
        match decode_entry::<K, V>(b, p) {
            Ok((x, q)) => {
                let ghost old_xs = xs.deep_view();
                proof {
                    assert(b@.skip(p as int).skip((q - p) as int) =~= b@.skip(q as int));
                    lemma_prepend_prepend(
                        old_xs,
                        (p - pos) as nat,
                        seq![x.deep_view()],
                        (q - p) as nat,
                        parse_entries::<K, V>(b@.skip(q as int), (n - i - 1) as nat),
                    );
                }
                xs.push(x);
                proof {
                    assert(xs.deep_view() =~= old_xs + seq![x.deep_view()]);
                }
                p = q;
                i = i + 1;
            },
            Err(e) => {
                return Err(e);
            },
        }
    }
    proof {
        assert(xs.deep_view() + Seq::empty() =~= xs.deep_view());
    }
    Ok((xs, p))
}

/// Reads entries starting at `pos` up to and including a break byte.
pub fn decode_entries_open<K: Codec, V: Codec>(b: &[u8], pos: usize) -> (r: Result<(Vec<(K, V)>, usize), DecodeError>)
    requires
        pos <= b@.len(),
    ensures
        run_outcome(r, b@, pos as nat, parse_entries_open::<K, V>(b@.skip(pos as int))),
{
    let mut xs: Vec<(K, V)> = Vec::new();
    let mut p = pos;
    proof {
        lemma_prepend_empty(parse_entries_open::<K, V>(b@.skip(pos as int)));
        assert(xs.deep_view() =~= Seq::empty());
    }
    loop
        invariant
            pos <= p <= b@.len(),
            parse_entries_open::<K, V>(b@.skip(pos as int)) == prepend(
                xs.deep_view(),
                (p - pos) as nat,
                parse_entries_open::<K, V>(b@.skip(p as int)),
            ),
        decreases b@.len() - p,
    {
        if p >= b.len() {
            return Err(DecodeError { kind: ErrorKind::Malformed, at: p });
        }
        if b[p] == 0xff {
            proof {
                assert(xs.deep_view() + Seq::empty() =~= xs.deep_view());
            }
            return Ok((xs, p + 1));
        }
        match decode_entry::<K, V>(b, p) {
            Ok((x, q)) => {
                let ghost old_xs = xs.deep_view();
                proof {
                    assert(b@.skip(p as int).skip((q - p) as int) =~= b@.skip(q as int));
                    lemma_prepend_prepend(
                        old_xs,
                        (p - pos) as nat,
                        seq![x.deep_view()],
                        (q - p) as nat,
                        parse_entries_open::<K, V>(b@.skip(q as int)),
                    );
                }
                xs.push(x);
                proof {
                    assert(xs.deep_view() =~= old_xs + seq![x.deep_view()]);
                }
                p = q;
            },
            Err(e) => {
                return Err(e);
            },
        }
    }
}

} // verus!

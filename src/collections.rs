//! Arrays and maps that keep their length framing (definite or indefinite)
//! and the order of their elements.
use crate::seqs::{
    all_encodable, all_entries_encodable, decode_entries, decode_entries_open, decode_items,
    decode_items_open, encode_entries, encode_items, lemma_entries_open_round_trip,
    lemma_entries_round_trip, lemma_items_open_round_trip, lemma_items_round_trip, parse_entries,
    parse_entries_open, parse_items, parse_items_open, wire_entries, wire_items,
};
use crate::substrate::{
    read_array, read_map, read_tag, write_tag, write_array, write_begin_array, write_begin_map, write_end, write_map,
};
use crate::wrappers::KeepRaw;
use crate::wire::{
    head, head_of, lemma_head, lemma_pow256, major_of, open_head, Codec, DecodeError, ErrorKind,
};
use vstd::view::DeepView;
use std::collections::HashMap;
use vstd::prelude::*;
use vstd::std_specs::hash::{axiom_random_state_builds_valid_hashers, obeys_key_model};

verus! {

/// An array at the front of `s`: whether it was indefinite, its elements, its length.
pub open spec fn parse_array<T: Codec>(s: Seq<u8>) -> Result<(bool, Seq<T::V>, nat), ErrorKind> {
    match head_of(s, 4) {
        Some((n, h)) => match parse_items::<T>(s.skip(h as int), n) {
            Ok((xs, m)) => Ok((false, xs, h + m)),
            Err(e) => Err(e),
        },
        None => if open_head(s, 4) {
            match parse_items_open::<T>(s.skip(1)) {
                Ok((xs, m)) => Ok((true, xs, 1 + m)),
                Err(e) => Err(e),
            }
        } else {
            Err(ErrorKind::Malformed)
        },
    }
}

/// The encoding of an array, definite (shortest head) or indefinite.
pub open spec fn array_wire<T: Codec>(indef: bool, xs: Seq<T::V>) -> Seq<u8> {
    if indef {
        seq![0x9fu8] + wire_items::<T>(xs) + seq![0xffu8]
    } else {
        head(4, xs.len()) + wire_items::<T>(xs)
    }
}

/// A map at the front of `s`: whether it was indefinite, its entries, its length.
pub open spec fn parse_map<K: Codec, V: Codec>(s: Seq<u8>) -> Result<
    (bool, Seq<(K::V, V::V)>, nat),
    ErrorKind,
> {
    match head_of(s, 5) {
        Some((n, h)) => match parse_entries::<K, V>(s.skip(h as int), n) {
            Ok((xs, m)) => Ok((false, xs, h + m)),
            Err(e) => Err(e),
        },
        None => if open_head(s, 5) {
            match parse_entries_open::<K, V>(s.skip(1)) {
                Ok((xs, m)) => Ok((true, xs, 1 + m)),
                Err(e) => Err(e),
            }
        } else {
            Err(ErrorKind::Malformed)
        },
    }
}

/// The encoding of a map, definite (shortest head) or indefinite.
pub open spec fn map_wire<K: Codec, V: Codec>(indef: bool, xs: Seq<(K::V, V::V)>) -> Seq<u8> {
    if indef {
        seq![0xbfu8] + wire_entries::<K, V>(xs) + seq![0xffu8]
    } else {
        head(5, xs.len()) + wire_entries::<K, V>(xs)
    }
}

/// An array, definite or indefinite, reads back with its framing and elements.
pub proof fn lemma_array_round_trip<T: Codec>(indef: bool, xs: Seq<T::V>, rest: Seq<u8>)
    requires
        all_encodable::<T>(xs),
        xs.len() <= u64::MAX,
    ensures
        parse_array::<T>(array_wire::<T>(indef, xs) + rest) == Ok::<
            (bool, Seq<T::V>, nat),
            ErrorKind,
        >((indef, xs, array_wire::<T>(indef, xs).len())),
        array_wire::<T>(indef, xs).len() > 0,
        array_wire::<T>(indef, xs)[0] != 0xff,
{
    let w = array_wire::<T>(indef, xs);
    let s = w + rest;
    lemma_pow256();
    if indef {
        lemma_items_open_round_trip::<T>(xs, rest);
        assert(s[0] == 0x9f);
        assert(head_of(s, 4) is None);
        assert(s.skip(1) =~= wire_items::<T>(xs) + seq![0xffu8] + rest);
    } else {
        let h = head(4, xs.len());
        lemma_head(4, xs.len(), wire_items::<T>(xs) + rest);
        lemma_items_round_trip::<T>(xs, rest);
        assert(s =~= h + (wire_items::<T>(xs) + rest));
        assert(s.skip(h.len() as int) =~= wire_items::<T>(xs) + rest);
    }
}

/// A map, definite or indefinite, reads back with its framing and entries.
pub proof fn lemma_map_round_trip<K: Codec, V: Codec>(
    indef: bool,
    xs: Seq<(K::V, V::V)>,
    rest: Seq<u8>,
)
    requires
        all_entries_encodable::<K, V>(xs),
        xs.len() <= u64::MAX,
    ensures
        parse_map::<K, V>(map_wire::<K, V>(indef, xs) + rest) == Ok::<
            (bool, Seq<(K::V, V::V)>, nat),
            ErrorKind,
        >((indef, xs, map_wire::<K, V>(indef, xs).len())),
        map_wire::<K, V>(indef, xs).len() > 0,
        map_wire::<K, V>(indef, xs)[0] != 0xff,
{
    let w = map_wire::<K, V>(indef, xs);
    let s = w + rest;
    lemma_pow256();
    if indef {
        lemma_entries_open_round_trip::<K, V>(xs, rest);
        assert(s[0] == 0xbf);
        assert(head_of(s, 5) is None);
        assert(s.skip(1) =~= wire_entries::<K, V>(xs) + seq![0xffu8] + rest);
    } else {
        let h = head(5, xs.len());
        lemma_head(5, xs.len(), wire_entries::<K, V>(xs) + rest);
        lemma_entries_round_trip::<K, V>(xs, rest);
        assert(s =~= h + (wire_entries::<K, V>(xs) + rest));
        assert(s.skip(h.len() as int) =~= wire_entries::<K, V>(xs) + rest);
    }
}

/// Reads an array starting at `pos`: whether it was indefinite, its elements,
/// and the position after it.
pub fn decode_array<T: Codec>(b: &[u8], pos: usize) -> (r: Result<(bool, Vec<T>, usize), DecodeError>)
    requires
        pos <= b@.len(),
    ensures
        match r {
            Ok((indef, xs, p)) => pos < p <= b@.len() && parse_array::<T>(b@.skip(pos as int))
                == Ok::<(bool, Seq<T::V>, nat), ErrorKind>(
                (indef, xs.deep_view(), (p - pos) as nat),
            ),
            Err(e) => parse_array::<T>(b@.skip(pos as int)) == Err::<
                (bool, Seq<T::V>, nat),
                ErrorKind,
            >(e.kind),
        },
{
    match read_array(b, pos) {
        Ok((Some(n), p)) => {
            proof {
                assert(b@.skip(pos as int).skip((p - pos) as int) =~= b@.skip(p as int));
            }
            match decode_items::<T>(b, p, n) {
                Ok((xs, q)) => Ok((false, xs, q)),
                Err(e) => Err(e),
            }
        },
        Ok((None, p)) => {
            proof {
                assert(b@.skip(pos as int).skip(1) =~= b@.skip(p as int));
            }
            match decode_items_open::<T>(b, p) {
                Ok((xs, q)) => Ok((true, xs, q)),
                Err(e) => Err(e),
            }
        },
        Err(_) => Err(DecodeError { kind: ErrorKind::Malformed, at: pos }),
    }
}

/// Appends an array of `xs`, definite or indefinite.
pub fn encode_array<T: Codec>(indef: bool, xs: &Vec<T>, out: &mut Vec<u8>)
    ensures
        final(out)@ == old(out)@ + array_wire::<T>(indef, xs.deep_view()),
{
    if indef {
        write_begin_array(out);
        encode_items(xs, out);
        write_end(out);
        proof {
            assert(out@ =~= old(out)@ + array_wire::<T>(indef, xs.deep_view()));
        }
    } else {
        write_array(out, xs.len() as u64);
        encode_items(xs, out);
        proof {
            assert(out@ =~= old(out)@ + array_wire::<T>(indef, xs.deep_view()));
        }
    }
}

/// Reads a map starting at `pos`: whether it was indefinite, its entries, and
/// the position after it.
pub fn decode_map<K: Codec, V: Codec>(b: &[u8], pos: usize) -> (r: Result<
    (bool, Vec<(K, V)>, usize),
    DecodeError,
>)
    requires
        pos <= b@.len(),
    ensures
        match r {
            Ok((indef, xs, p)) => pos < p <= b@.len() && parse_map::<K, V>(b@.skip(pos as int))
                == Ok::<(bool, Seq<(K::V, V::V)>, nat), ErrorKind>(
                (indef, xs.deep_view(), (p - pos) as nat),
            ),
            Err(e) => parse_map::<K, V>(b@.skip(pos as int)) == Err::<
                (bool, Seq<(K::V, V::V)>, nat),
                ErrorKind,
            >(e.kind),
        },
{
    match read_map(b, pos) {
        Ok((Some(n), p)) => {
            proof {
                assert(b@.skip(pos as int).skip((p - pos) as int) =~= b@.skip(p as int));
            }
            match decode_entries::<K, V>(b, p, n) {
                Ok((xs, q)) => Ok((false, xs, q)),
                Err(e) => Err(e),
            }
        },
        Ok((None, p)) => {
            proof {
                assert(b@.skip(pos as int).skip(1) =~= b@.skip(p as int));
            }
            match decode_entries_open::<K, V>(b, p) {
                Ok((xs, q)) => Ok((true, xs, q)),
                Err(e) => Err(e),
            }
        },
        Err(_) => Err(DecodeError { kind: ErrorKind::Malformed, at: pos }),
    }
}

/// Appends a map of `xs`, definite or indefinite.
pub fn encode_map<K: Codec, V: Codec>(indef: bool, xs: &Vec<(K, V)>, out: &mut Vec<u8>)
    ensures
        final(out)@ == old(out)@ + map_wire::<K, V>(indef, xs.deep_view()),
{
    if indef {
        write_begin_map(out);
        encode_entries(xs, out);
        write_end(out);
        proof {
            assert(out@ =~= old(out)@ + map_wire::<K, V>(indef, xs.deep_view()));
        }
    } else {
        write_map(out, xs.len() as u64);
        encode_entries(xs, out);
        proof {
            assert(out@ =~= old(out)@ + map_wire::<K, V>(indef, xs.deep_view()));
        }
    }
}

impl<T: Codec> Codec for Vec<T> {
    open spec fn wire(m: Seq<T::V>) -> Seq<u8> {
        array_wire::<T>(false, m)
    }

    open spec fn parse(s: Seq<u8>) -> Result<(Seq<T::V>, nat), ErrorKind> {
        match parse_array::<T>(s) {
            Ok((_, xs, n)) => Ok((xs, n)),
            Err(e) => Err(e),
        }
    }

    open spec fn encodable(m: Seq<T::V>) -> bool {
        all_encodable::<T>(m) && m.len() <= u64::MAX
    }

    fn encode(&self, out: &mut Vec<u8>) {
        encode_array(false, self, out);
    }

    fn decode(b: &[u8], pos: usize) -> (r: Result<(Vec<T>, usize), DecodeError>) {
        match decode_array::<T>(b, pos) {
            Ok((_, xs, p)) => Ok((xs, p)),
            Err(e) => Err(e),
        }
    }

    proof fn lemma_round_trip(m: Seq<T::V>, rest: Seq<u8>) {
        lemma_array_round_trip::<T>(false, m, rest);
    }
}

/// An array that remembers whether it was encoded with definite or
/// indefinite length.
#[derive(Debug, PartialEq, Eq, Clone)]
pub enum MaybeIndefArray<A> {
    Def(Vec<A>),
    Indef(Vec<A>),
}

impl<A> MaybeIndefArray<A> {
    /// The elements, whatever the framing.
    pub open spec fn items(&self) -> Seq<A> {
        match self {
            MaybeIndefArray::Def(x) => x@,
            MaybeIndefArray::Indef(x) => x@,
        }
    }

    pub fn to_vec(self) -> (r: Vec<A>)
        ensures
            r@ == self.items(),
    {
        match self {
            MaybeIndefArray::Def(x) => x,
            MaybeIndefArray::Indef(x) => x,
        }
    }

    /// The elements, borrowed.
    pub fn as_vec(&self) -> (r: &Vec<A>)
        ensures
            r@ == self.items(),
    {
        match self {
            MaybeIndefArray::Def(x) => x,
            MaybeIndefArray::Indef(x) => x,
        }
    }
}

impl<A: DeepView> DeepView for MaybeIndefArray<A> {
    /// Whether the framing is indefinite, and the models of the elements.
    type V = (bool, Seq<A::V>);

    open spec fn deep_view(&self) -> (bool, Seq<A::V>) {
        match self {
            MaybeIndefArray::Def(x) => (false, x.deep_view()),
            MaybeIndefArray::Indef(x) => (true, x.deep_view()),
        }
    }
}

impl<A: Codec> Codec for MaybeIndefArray<A> {
    open spec fn wire(m: (bool, Seq<A::V>)) -> Seq<u8> {
        array_wire::<A>(m.0, m.1)
    }

    open spec fn parse(s: Seq<u8>) -> Result<((bool, Seq<A::V>), nat), ErrorKind> {
        match parse_array::<A>(s) {
            Ok((indef, xs, n)) => Ok(((indef, xs), n)),
            Err(e) => Err(e),
        }
    }

    open spec fn encodable(m: (bool, Seq<A::V>)) -> bool {
        all_encodable::<A>(m.1) && m.1.len() <= u64::MAX
    }

    fn encode(&self, out: &mut Vec<u8>) {
        match self {
            MaybeIndefArray::Def(x) => encode_array(false, x, out),
            MaybeIndefArray::Indef(x) => encode_array(true, x, out),
        }
    }

    fn decode(b: &[u8], pos: usize) -> (r: Result<(MaybeIndefArray<A>, usize), DecodeError>) {
        match decode_array::<A>(b, pos) {
            Ok((false, xs, p)) => Ok((MaybeIndefArray::Def(xs), p)),
            Ok((true, xs, p)) => Ok((MaybeIndefArray::Indef(xs), p)),
            Err(e) => Err(e),
        }
    }

    proof fn lemma_round_trip(m: (bool, Seq<A::V>), rest: Seq<u8>) {
        lemma_array_round_trip::<A>(m.0, m.1, rest);
    }
}

/// Key/value pairs of a map, in the order of the wire, with the map's framing.
/// Neither order nor duplicate keys are touched.
#[derive(Debug, PartialEq, Eq, Clone)]
pub enum KeyValuePairs<K, V> {
    Def(Vec<(K, V)>),
    Indef(Vec<(K, V)>),
}

impl<K, V> KeyValuePairs<K, V> {
    /// The pairs, whatever the framing.
    pub open spec fn pairs(&self) -> Seq<(K, V)> {
        match self {
            KeyValuePairs::Def(x) => x@,
            KeyValuePairs::Indef(x) => x@,
        }
    }

    pub fn to_vec(self) -> (r: Vec<(K, V)>)
        ensures
            r@ == self.pairs(),
    {
        match self {
            KeyValuePairs::Def(x) => x,
            KeyValuePairs::Indef(x) => x,
        }
    }

    /// Pairs from a plain sequence: definite framing.
    pub fn from_vec(x: Vec<(K, V)>) -> (r: KeyValuePairs<K, V>)
        ensures
            r == KeyValuePairs::Def(x),
    {
        KeyValuePairs::Def(x)
    }

    /// The pairs, borrowed.
    pub fn as_vec(&self) -> (r: &Vec<(K, V)>)
        ensures
            r@ == self.pairs(),
    {
        match self {
            KeyValuePairs::Def(x) => x,
            KeyValuePairs::Indef(x) => x,
        }
    }
}

/// The map that `pairs` gives when each pair is inserted in order: a later
/// pair with the same key replaces an earlier one.
pub open spec fn pairs_map<K, V>(pairs: Seq<(K, V)>) -> Map<K, V>
    decreases pairs.len(),
{
    if pairs.len() == 0 {
        Map::empty()
    } else {
        pairs_map(pairs.drop_last()).insert(pairs.last().0, pairs.last().1)
    }
}

impl<K: Eq + core::hash::Hash, V> KeyValuePairs<K, V> {
    /// A lookup map of the pairs. Order is lost, and of pairs with equal keys
    /// the last one wins.
    pub fn to_map(self) -> (r: HashMap<K, V>)
        ensures
            obeys_key_model::<K>() ==> r@ == pairs_map(self.pairs()),
    {
        let ghost pairs = self.pairs();
        let mut xs = self.to_vec();
        let n = xs.len();
        let mut m: HashMap<K, V> = HashMap::new();
        let mut i: usize = 0;
        proof {
            broadcast use axiom_random_state_builds_valid_hashers;
            assert(pairs.take(0) =~= Seq::<(K, V)>::empty());
            assert(pairs.skip(0) =~= pairs);
        }
        while xs.len() > 0
            invariant
                i + xs@.len() == pairs.len(),
                pairs.len() == n,
                xs@ == pairs.skip(i as int),
                obeys_key_model::<K>() ==> m@ == pairs_map(pairs.take(i as int)),
            decreases xs@.len(),
        {
            let (k, v) = xs.remove(0);
            proof {
                broadcast use axiom_random_state_builds_valid_hashers;
                assert(pairs.take(i + 1).drop_last() =~= pairs.take(i as int));
                assert(pairs[i as int] == pairs.skip(i as int)[0]);
                assert(pairs.skip(i + 1) =~= pairs.skip(i as int).remove(0));
            }
            m.insert(k, v);
            i = i + 1;
        }
        proof {
            assert(pairs.take(i as int) =~= pairs);
        }
        m
    }
}

impl<K: DeepView, V: DeepView> DeepView for KeyValuePairs<K, V> {
    /// Whether the framing is indefinite, and the models of the pairs.
    type V = (bool, Seq<(K::V, V::V)>);

    open spec fn deep_view(&self) -> (bool, Seq<(K::V, V::V)>) {
        match self {
            KeyValuePairs::Def(x) => (false, x.deep_view()),
            KeyValuePairs::Indef(x) => (true, x.deep_view()),
        }
    }
}

impl<K: Codec, V: Codec> Codec for KeyValuePairs<K, V> {
    open spec fn wire(m: (bool, Seq<(K::V, V::V)>)) -> Seq<u8> {
        map_wire::<K, V>(m.0, m.1)
    }

    open spec fn parse(s: Seq<u8>) -> Result<((bool, Seq<(K::V, V::V)>), nat), ErrorKind> {
        match parse_map::<K, V>(s) {
            Ok((indef, xs, n)) => Ok(((indef, xs), n)),
            Err(e) => Err(e),
        }
    }

    open spec fn encodable(m: (bool, Seq<(K::V, V::V)>)) -> bool {
        all_entries_encodable::<K, V>(m.1) && m.1.len() <= u64::MAX
    }

    fn encode(&self, out: &mut Vec<u8>) {
        match self {
            KeyValuePairs::Def(x) => encode_map(false, x, out),
            KeyValuePairs::Indef(x) => encode_map(true, x, out),
        }
    }

    fn decode(b: &[u8], pos: usize) -> (r: Result<(KeyValuePairs<K, V>, usize), DecodeError>) {
        match decode_map::<K, V>(b, pos) {
            Ok((false, xs, p)) => Ok((KeyValuePairs::Def(xs), p)),
            Ok((true, xs, p)) => Ok((KeyValuePairs::Indef(xs), p)),
            Err(e) => Err(e),
        }
    }

    proof fn lemma_round_trip(m: (bool, Seq<(K::V, V::V)>), rest: Seq<u8>) {
        lemma_map_round_trip::<K, V>(m.0, m.1, rest);
    }
}

/// Key/value pairs as in [`KeyValuePairs`], with at least one pair.
#[derive(Debug, PartialEq, Eq, Clone)]
pub enum NonEmptyKeyValuePairs<K, V> {
    Def(Vec<(K, V)>),
    Indef(Vec<(K, V)>),
}

impl<K, V> NonEmptyKeyValuePairs<K, V> {
    /// The pairs, whatever the framing.
    pub open spec fn pairs(&self) -> Seq<(K, V)> {
        match self {
            NonEmptyKeyValuePairs::Def(x) => x@,
            NonEmptyKeyValuePairs::Indef(x) => x@,
        }
    }

    pub fn to_vec(self) -> (r: Vec<(K, V)>)
        ensures
            r@ == self.pairs(),
    {
        match self {
            NonEmptyKeyValuePairs::Def(x) => x,
            NonEmptyKeyValuePairs::Indef(x) => x,
        }
    }

    /// Pairs from a plain sequence, definite framing; `None` for an empty one.
    pub fn from_vec(x: Vec<(K, V)>) -> (r: Option<NonEmptyKeyValuePairs<K, V>>)
        ensures
            x@.len() == 0 ==> r is None,
            x@.len() > 0 ==> r == Some(NonEmptyKeyValuePairs::Def(x)),
    {
        if x.len() == 0 {
            None
        } else {
            Some(NonEmptyKeyValuePairs::Def(x))
        }
    }

    /// The same pairs and framing, if there is at least one pair; the input
    /// back otherwise.
    pub fn try_from_pairs(value: KeyValuePairs<K, V>) -> (r: Result<
        NonEmptyKeyValuePairs<K, V>,
        KeyValuePairs<K, V>,
    >)
        ensures
            value.pairs().len() == 0 ==> r == Err::<NonEmptyKeyValuePairs<K, V>, _>(value),
            value.pairs().len() > 0 ==> match value {
                KeyValuePairs::Def(x) => r == Ok::<_, KeyValuePairs<K, V>>(
                    NonEmptyKeyValuePairs::Def(x),
                ),
                KeyValuePairs::Indef(x) => r == Ok::<_, KeyValuePairs<K, V>>(
                    NonEmptyKeyValuePairs::Indef(x),
                ),
            },
    {
        match value {
            KeyValuePairs::Def(x) => {
                if x.len() == 0 {
                    Err(KeyValuePairs::Def(x))
                } else {
                    Ok(NonEmptyKeyValuePairs::Def(x))
                }
            },
            KeyValuePairs::Indef(x) => {
                if x.len() == 0 {
                    Err(KeyValuePairs::Indef(x))
                } else {
                    Ok(NonEmptyKeyValuePairs::Indef(x))
                }
            },
        }
    }

    /// The pairs, borrowed.
    pub fn as_vec(&self) -> (r: &Vec<(K, V)>)
        ensures
            r@ == self.pairs(),
    {
        match self {
            NonEmptyKeyValuePairs::Def(x) => x,
            NonEmptyKeyValuePairs::Indef(x) => x,
        }
    }
}

impl<K: DeepView, V: DeepView> DeepView for NonEmptyKeyValuePairs<K, V> {
    /// Whether the framing is indefinite, and the models of the pairs.
    type V = (bool, Seq<(K::V, V::V)>);

    open spec fn deep_view(&self) -> (bool, Seq<(K::V, V::V)>) {
        match self {
            NonEmptyKeyValuePairs::Def(x) => (false, x.deep_view()),
            NonEmptyKeyValuePairs::Indef(x) => (true, x.deep_view()),
        }
    }
}

impl<K: Codec, V: Codec> Codec for NonEmptyKeyValuePairs<K, V> {
    open spec fn wire(m: (bool, Seq<(K::V, V::V)>)) -> Seq<u8> {
        map_wire::<K, V>(m.0, m.1)
    }

    /// A map as for [`KeyValuePairs`]; one without entries is refused.
    open spec fn parse(s: Seq<u8>) -> Result<((bool, Seq<(K::V, V::V)>), nat), ErrorKind> {
        match parse_map::<K, V>(s) {
            Ok((indef, xs, n)) => if xs.len() == 0 {
                Err(ErrorKind::Empty)
            } else {
                Ok(((indef, xs), n))
            },
            Err(e) => Err(e),
        }
    }

    open spec fn encodable(m: (bool, Seq<(K::V, V::V)>)) -> bool {
        all_entries_encodable::<K, V>(m.1) && 0 < m.1.len() <= u64::MAX
    }

    fn encode(&self, out: &mut Vec<u8>) {
        match self {
            NonEmptyKeyValuePairs::Def(x) => encode_map(false, x, out),
            NonEmptyKeyValuePairs::Indef(x) => encode_map(true, x, out),
        }
    }

    fn decode(b: &[u8], pos: usize) -> (r: Result<(NonEmptyKeyValuePairs<K, V>, usize), DecodeError>) {
        match decode_map::<K, V>(b, pos) {
            Ok((indef, xs, p)) => {
                if xs.len() == 0 {
                    Err(DecodeError { kind: ErrorKind::Empty, at: pos })
                } else if indef {
                    Ok((NonEmptyKeyValuePairs::Indef(xs), p))
                } else {
                    Ok((NonEmptyKeyValuePairs::Def(xs), p))
                }
            },
            Err(e) => Err(e),
        }
    }

    proof fn lemma_round_trip(m: (bool, Seq<(K::V, V::V)>), rest: Seq<u8>) {
        lemma_map_round_trip::<K, V>(m.0, m.1, rest);
    }
}

/// The tag that marks a set.
pub const TAG_SET: u64 = 258;

/// A set at the front of `s`: an optional set tag, then an array. A tag
/// other than the set tag is refused.
pub open spec fn parse_set<T: Codec>(s: Seq<u8>) -> Result<(Seq<T::V>, nat), ErrorKind> {
    if s.len() > 0 && major_of(s[0]) == 6 {
        match head_of(s, 6) {
            Some((t, h)) => if t == TAG_SET {
                match parse_array::<T>(s.skip(h as int)) {
                    Ok((_, xs, m)) => Ok((xs, h + m)),
                    Err(e) => Err(e),
                }
            } else {
                Err(ErrorKind::UnknownTag(t as u64))
            },
            None => Err(ErrorKind::Malformed),
        }
    } else {
        match parse_array::<T>(s) {
            Ok((_, xs, n)) => Ok((xs, n)),
            Err(e) => Err(e),
        }
    }
}

/// The encoding of a set: always the set tag, then a definite array.
pub open spec fn set_wire<T: Codec>(xs: Seq<T::V>) -> Seq<u8> {
    head(6, TAG_SET as nat) + array_wire::<T>(false, xs)
}

/// Reads a set starting at `pos`.
fn decode_set<T: Codec>(b: &[u8], pos: usize) -> (r: Result<(Vec<T>, usize), DecodeError>)
    requires
        pos <= b@.len(),
    ensures
        match r {
            Ok((xs, p)) => pos < p <= b@.len() && parse_set::<T>(b@.skip(pos as int)) == Ok::<
                (Seq<T::V>, nat),
                ErrorKind,
            >((xs.deep_view(), (p - pos) as nat)),
            Err(e) => parse_set::<T>(b@.skip(pos as int)) == Err::<(Seq<T::V>, nat), ErrorKind>(
                e.kind,
            ),
        },
{
    let mut p = pos;
    if pos < b.len() && b[pos] / 32 == 6 {
        match read_tag(b, pos) {
            Ok((t, q)) => {
                if t != TAG_SET {
                    return Err(DecodeError { kind: ErrorKind::UnknownTag(t), at: pos });
                }
                proof {
                    assert(b@.skip(pos as int).skip((q - pos) as int) =~= b@.skip(q as int));
                }
                p = q;
            },
            Err(_) => {
                return Err(DecodeError { kind: ErrorKind::Malformed, at: pos });
            },
        }
    }
    match decode_array::<T>(b, p) {
        Ok((_, xs, q)) => Ok((xs, q)),
        Err(e) => Err(e),
    }
}

/// Appends a set of `xs`.
fn encode_set<T: Codec>(xs: &Vec<T>, out: &mut Vec<u8>)
    ensures
        final(out)@ == old(out)@ + set_wire::<T>(xs.deep_view()),
{
    write_tag(out, TAG_SET);
    encode_array(false, xs, out);
    proof {
        assert(out@ =~= old(out)@ + set_wire::<T>(xs.deep_view()));
    }
}

proof fn lemma_set_round_trip<T: Codec>(xs: Seq<T::V>, rest: Seq<u8>)
    requires
        all_encodable::<T>(xs),
        xs.len() <= u64::MAX,
    ensures
        parse_set::<T>(set_wire::<T>(xs) + rest) == Ok::<(Seq<T::V>, nat), ErrorKind>(
            (xs, set_wire::<T>(xs).len()),
        ),
        set_wire::<T>(xs).len() > 0,
        set_wire::<T>(xs)[0] != 0xff,
{
    lemma_pow256();
    let h = head(6, TAG_SET as nat);
    let a = array_wire::<T>(false, xs);
    lemma_head(6, TAG_SET as nat, a + rest);
    lemma_array_round_trip::<T>(false, xs, rest);
    let s = set_wire::<T>(xs) + rest;
    assert(s =~= h + (a + rest));
    assert(major_of(s[0]) == 6);
    assert(s.skip(h.len() as int) =~= a + rest);
}

/// Reading a set tolerates a missing set tag and refuses any other tag, and
/// a set is always written with the set tag: with `s` not starting with a
/// tag, `s` and `s` behind the set tag read as the same elements, `s` behind
/// another tag `t` fails naming `t`, and every encoding starts with the set tag.
pub proof fn lemma_set_tag<T: Codec>(s: Seq<u8>, t: u64, xs: Seq<T::V>)
    requires
        s.len() == 0 || major_of(s[0]) != 6,
        t != TAG_SET,
    ensures
        parse_set::<T>(head(6, TAG_SET as nat) + s) == match parse_set::<T>(s) {
            Ok((ys, n)) => Ok::<(Seq<T::V>, nat), ErrorKind>((ys, n + 3)),
            Err(e) => Err(e),
        },
        parse_set::<T>(head(6, t as nat) + s) == Err::<(Seq<T::V>, nat), ErrorKind>(
            ErrorKind::UnknownTag(t),
        ),
        set_wire::<T>(xs).subrange(0, 3) == head(6, TAG_SET as nat),
{
    lemma_pow256();
    lemma_head(6, TAG_SET as nat, s);
    lemma_head(6, t as nat, s);
    let a = head(6, TAG_SET as nat) + s;
    assert(a.skip(3) =~= s);
    let c = head(6, t as nat) + s;
    assert(major_of(c[0]) == 6);
    assert(major_of(a[0]) == 6);
    assert(set_wire::<T>(xs).subrange(0, 3) =~= head(6, TAG_SET as nat));
}

/// The values of kept-bytes wrappers, in order, their bytes dropped.
fn unwrap_all<T>(xs: Vec<KeepRaw<T>>) -> (r: Vec<T>)
    ensures
        r@.len() == xs@.len(),
        forall|i: int| 0 <= i < xs@.len() ==> r@[i] == (#[trigger] xs@[i]).value(),
{
    let ghost all = xs@;
    let mut xs = xs;
    let mut out: Vec<T> = Vec::new();
    let n = xs.len();
    while xs.len() > 0
        invariant
            out@.len() + xs@.len() == all.len(),
            all.len() == n,
            xs@ == all.skip(out@.len() as int),
            forall|i: int| 0 <= i < out@.len() ==> out@[i] == (#[trigger] all[i]).value(),
        decreases xs@.len(),
    {
        let ghost k = out@.len() as int;
        let x = xs.remove(0);
        proof {
            assert(all[k] == all.skip(k)[0]);
            assert(all.skip(k + 1) =~= all.skip(k).remove(0));
        }
        out.push(x.unwrap());
    }
    out
}

/// A set: elements framed as an array, behind an optional set tag on read
/// and always behind it on write. Element order is kept and not checked for
/// duplicates.
#[derive(Debug, PartialEq, Eq, Clone)]
pub struct CborSet<T>(Vec<T>);

impl<T> CborSet<T> {
    pub closed spec fn items(&self) -> Seq<T> {
        self.0@
    }

    pub fn new(items: Vec<T>) -> (r: CborSet<T>)
        ensures
            r.items() == items@,
    {
        CborSet(items)
    }

    pub fn to_vec(self) -> (r: Vec<T>)
        ensures
            r@ == self.items(),
    {
        self.0
    }

    /// The elements, borrowed.
    pub fn as_vec(&self) -> (r: &Vec<T>)
        ensures
            r@ == self.items(),
    {
        &self.0
    }

    /// A set of the values of kept-bytes wrappers, their bytes dropped.
    pub fn from_kept(value: CborSet<KeepRaw<T>>) -> (r: CborSet<T>)
        ensures
            r.items().len() == value.items().len(),
            forall|i: int|
                0 <= i < value.items().len() ==> r.items()[i] == (#[trigger] value.items()[i]).value(),
    {
        CborSet(unwrap_all(value.0))
    }
}

impl<T: DeepView> DeepView for CborSet<T> {
    type V = Seq<T::V>;

    open spec fn deep_view(&self) -> Seq<T::V> {
        Seq::new(self.items().len(), |i: int| self.items()[i].deep_view())
    }
}

impl<T: Codec> Codec for CborSet<T> {
    open spec fn wire(m: Seq<T::V>) -> Seq<u8> {
        set_wire::<T>(m)
    }

    open spec fn parse(s: Seq<u8>) -> Result<(Seq<T::V>, nat), ErrorKind> {
        parse_set::<T>(s)
    }

    open spec fn encodable(m: Seq<T::V>) -> bool {
        all_encodable::<T>(m) && m.len() <= u64::MAX
    }

    fn encode(&self, out: &mut Vec<u8>) {
        encode_set(&self.0, out);
    }

    fn decode(b: &[u8], pos: usize) -> (r: Result<(CborSet<T>, usize), DecodeError>) {
        match decode_set::<T>(b, pos) {
            Ok((xs, p)) => Ok((CborSet(xs), p)),
            Err(e) => Err(e),
        }
    }

    proof fn lemma_round_trip(m: Seq<T::V>, rest: Seq<u8>) {
        lemma_set_round_trip::<T>(m, rest);
    }
}

/// A set as [`CborSet`], with at least one element.
#[derive(Debug, PartialEq, Eq, Clone)]
pub struct NonEmptySet<T>(Vec<T>);

impl<T> NonEmptySet<T> {
    pub closed spec fn items(&self) -> Seq<T> {
        self.0@
    }

    pub fn to_vec(self) -> (r: Vec<T>)
        ensures
            r@ == self.items(),
    {
        self.0
    }

    /// A set of `x`; `None` for an empty one.
    pub fn from_vec(x: Vec<T>) -> (r: Option<NonEmptySet<T>>)
        ensures
            x@.len() == 0 ==> r is None,
            x@.len() > 0 ==> (r matches Some(y) && y.items() == x@),
    {
        if x.len() == 0 {
            None
        } else {
            Some(NonEmptySet(x))
        }
    }

    /// A set of `x`, or `x` back if it is empty.
    pub fn try_from_vec(x: Vec<T>) -> (r: Result<NonEmptySet<T>, Vec<T>>)
        ensures
            x@.len() == 0 ==> (r matches Err(y) && y@ == x@),
            x@.len() > 0 ==> (r matches Ok(y) && y.items() == x@),
    {
        if x.len() == 0 {
            Err(x)
        } else {
            Ok(NonEmptySet(x))
        }
    }

    /// The elements, borrowed.
    pub fn as_vec(&self) -> (r: &Vec<T>)
        ensures
            r@ == self.items(),
    {
        &self.0
    }

    /// A set of the values of kept-bytes wrappers, their bytes dropped.
    pub fn from_kept(value: NonEmptySet<KeepRaw<T>>) -> (r: NonEmptySet<T>)
        ensures
            r.items().len() == value.items().len(),
            forall|i: int|
                0 <= i < value.items().len() ==> r.items()[i] == (#[trigger] value.items()[i]).value(),
    {
        NonEmptySet(unwrap_all(value.0))
    }
}

impl<T: DeepView> DeepView for NonEmptySet<T> {
    type V = Seq<T::V>;

    open spec fn deep_view(&self) -> Seq<T::V> {
        Seq::new(self.items().len(), |i: int| self.items()[i].deep_view())
    }
}

impl<T: Codec> Codec for NonEmptySet<T> {
    open spec fn wire(m: Seq<T::V>) -> Seq<u8> {
        set_wire::<T>(m)
    }

    /// A set as for [`CborSet`]; one without elements is refused.
    open spec fn parse(s: Seq<u8>) -> Result<(Seq<T::V>, nat), ErrorKind> {
        match parse_set::<T>(s) {
            Ok((xs, n)) => if xs.len() == 0 {
                Err(ErrorKind::Empty)
            } else {
                Ok((xs, n))
            },
            Err(e) => Err(e),
        }
    }

    open spec fn encodable(m: Seq<T::V>) -> bool {
        all_encodable::<T>(m) && 0 < m.len() <= u64::MAX
    }

    fn encode(&self, out: &mut Vec<u8>) {
        encode_set(&self.0, out);
    }

    fn decode(b: &[u8], pos: usize) -> (r: Result<(NonEmptySet<T>, usize), DecodeError>) {
        match decode_set::<T>(b, pos) {
            Ok((xs, p)) => {
                if xs.len() == 0 {
                    Err(DecodeError { kind: ErrorKind::Empty, at: pos })
                } else {
                    Ok((NonEmptySet(xs), p))
                }
            },
            Err(e) => Err(e),
        }
    }

    proof fn lemma_round_trip(m: Seq<T::V>, rest: Seq<u8>) {
        lemma_set_round_trip::<T>(m, rest);
    }
}

/// Properties of a record encoded as a map whose field order is free: each
/// property encodes its own key and value, and their order is kept.
#[derive(Debug, PartialEq, Eq, Clone)]
pub struct OrderPreservingProperties<P>(Vec<P>);

impl<P> OrderPreservingProperties<P> {
    pub closed spec fn props(&self) -> Seq<P> {
        self.0@
    }

    pub fn new(props: Vec<P>) -> (r: OrderPreservingProperties<P>)
        ensures
            r.props() == props@,
    {
        OrderPreservingProperties(props)
    }

    /// The properties, borrowed.
    pub fn as_vec(&self) -> (r: &Vec<P>)
        ensures
            r@ == self.props(),
    {
        &self.0
    }
}

impl<P: DeepView> DeepView for OrderPreservingProperties<P> {
    type V = Seq<P::V>;

    open spec fn deep_view(&self) -> Seq<P::V> {
        Seq::new(self.props().len(), |i: int| self.props()[i].deep_view())
    }
}

impl<P: Codec> Codec for OrderPreservingProperties<P> {
    /// A map head with the number of properties, then each property.
    open spec fn wire(m: Seq<P::V>) -> Seq<u8> {
        head(5, m.len()) + wire_items::<P>(m)
    }

    /// A map head, then as many properties as it declares; an indefinite map
    /// head declares none.
    open spec fn parse(s: Seq<u8>) -> Result<(Seq<P::V>, nat), ErrorKind> {
        match head_of(s, 5) {
            Some((n, h)) => match parse_items::<P>(s.skip(h as int), n) {
                Ok((xs, m)) => Ok((xs, h + m)),
                Err(e) => Err(e),
            },
            None => if open_head(s, 5) {
                Ok((Seq::empty(), 1))
            } else {
                Err(ErrorKind::Malformed)
            },
        }
    }

    open spec fn encodable(m: Seq<P::V>) -> bool {
        all_encodable::<P>(m) && m.len() <= u64::MAX
    }

    fn encode(&self, out: &mut Vec<u8>) {
        write_map(out, self.0.len() as u64);
        encode_items(&self.0, out);
        proof {
            assert(out@ =~= old(out)@ + Self::wire(self.deep_view()));
        }
    }

    fn decode(b: &[u8], pos: usize) -> (r: Result<(OrderPreservingProperties<P>, usize), DecodeError>) {
        match read_map(b, pos) {
            Ok((Some(n), p)) => {
                proof {
                    assert(b@.skip(pos as int).skip((p - pos) as int) =~= b@.skip(p as int));
                }
                match decode_items::<P>(b, p, n) {
                    Ok((xs, q)) => Ok((OrderPreservingProperties(xs), q)),
                    Err(e) => Err(e),
                }
            },
            Ok((None, p)) => {
                let xs: Vec<P> = Vec::new();
                proof {
                    assert(xs.deep_view() =~= Seq::<P::V>::empty());
                }
                Ok((OrderPreservingProperties(xs), p))
            },
            Err(_) => Err(DecodeError { kind: ErrorKind::Malformed, at: pos }),
        }
    }

    proof fn lemma_round_trip(m: Seq<P::V>, rest: Seq<u8>) {
        lemma_pow256();
        let h = head(5, m.len());
        lemma_head(5, m.len(), wire_items::<P>(m) + rest);
        lemma_items_round_trip::<P>(m, rest);
        let s = Self::wire(m) + rest;
        assert(s =~= h + (wire_items::<P>(m) + rest));
        assert(s.skip(h.len() as int) =~= wire_items::<P>(m) + rest);
    }
}

impl<A> core::ops::Deref for MaybeIndefArray<A> {
    type Target = Vec<A>;

    fn deref(&self) -> &Vec<A> {
        self.as_vec()
    }
}

impl<A> From<MaybeIndefArray<A>> for Vec<A> {
    fn from(other: MaybeIndefArray<A>) -> Vec<A> {
        match other {
            MaybeIndefArray::Def(x) => x,
            MaybeIndefArray::Indef(x) => x,
        }
    }
}

impl<A> vstd::std_specs::convert::FromSpecImpl<MaybeIndefArray<A>> for Vec<A> {
    open spec fn obeys_from_spec() -> bool {
        true
    }

    open spec fn from_spec(other: MaybeIndefArray<A>) -> Vec<A> {
        match other {
            MaybeIndefArray::Def(x) => x,
            MaybeIndefArray::Indef(x) => x,
        }
    }
}

impl<K, V> core::ops::Deref for KeyValuePairs<K, V> {
    type Target = Vec<(K, V)>;

    fn deref(&self) -> &Vec<(K, V)> {
        self.as_vec()
    }
}

impl<K, V> From<Vec<(K, V)>> for KeyValuePairs<K, V> {
    fn from(other: Vec<(K, V)>) -> KeyValuePairs<K, V> {
        KeyValuePairs::Def(other)
    }
}

impl<K, V> vstd::std_specs::convert::FromSpecImpl<Vec<(K, V)>> for KeyValuePairs<K, V> {
    open spec fn obeys_from_spec() -> bool {
        true
    }

    open spec fn from_spec(other: Vec<(K, V)>) -> KeyValuePairs<K, V> {
        KeyValuePairs::Def(other)
    }
}

impl<K, V> From<KeyValuePairs<K, V>> for Vec<(K, V)> {
    fn from(other: KeyValuePairs<K, V>) -> Vec<(K, V)> {
        match other {
            KeyValuePairs::Def(x) => x,
            KeyValuePairs::Indef(x) => x,
        }
    }
}

impl<K, V> vstd::std_specs::convert::FromSpecImpl<KeyValuePairs<K, V>> for Vec<(K, V)> {
    open spec fn obeys_from_spec() -> bool {
        true
    }

    open spec fn from_spec(other: KeyValuePairs<K, V>) -> Vec<(K, V)> {
        match other {
            KeyValuePairs::Def(x) => x,
            KeyValuePairs::Indef(x) => x,
        }
    }
}

impl<K, V> core::ops::Deref for NonEmptyKeyValuePairs<K, V> {
    type Target = Vec<(K, V)>;

    fn deref(&self) -> &Vec<(K, V)> {
        self.as_vec()
    }
}

impl<K, V> From<NonEmptyKeyValuePairs<K, V>> for Vec<(K, V)> {
    fn from(other: NonEmptyKeyValuePairs<K, V>) -> Vec<(K, V)> {
        match other {
            NonEmptyKeyValuePairs::Def(x) => x,
            NonEmptyKeyValuePairs::Indef(x) => x,
        }
    }
}

impl<K, V> vstd::std_specs::convert::FromSpecImpl<NonEmptyKeyValuePairs<K, V>> for Vec<(K, V)> {
    open spec fn obeys_from_spec() -> bool {
        true
    }

    open spec fn from_spec(other: NonEmptyKeyValuePairs<K, V>) -> Vec<(K, V)> {
        match other {
            NonEmptyKeyValuePairs::Def(x) => x,
            NonEmptyKeyValuePairs::Indef(x) => x,
        }
    }
}

impl<T> core::ops::Deref for CborSet<T> {
    type Target = Vec<T>;

    fn deref(&self) -> &Vec<T> {
        &self.0
    }
}

impl<T> From<Vec<T>> for CborSet<T> {
    fn from(value: Vec<T>) -> CborSet<T> {
        CborSet(value)
    }
}

impl<T> vstd::std_specs::convert::FromSpecImpl<Vec<T>> for CborSet<T> {
    open spec fn obeys_from_spec() -> bool {
        true
    }

    closed spec fn from_spec(value: Vec<T>) -> CborSet<T> {
        CborSet(value)
    }
}

impl<T> core::ops::Deref for NonEmptySet<T> {
    type Target = Vec<T>;

    fn deref(&self) -> &Vec<T> {
        &self.0
    }
}

impl<P> core::ops::Deref for OrderPreservingProperties<P> {
    type Target = Vec<P>;

    fn deref(&self) -> &Vec<P> {
        &self.0
    }
}

impl<P> From<Vec<P>> for OrderPreservingProperties<P> {
    fn from(value: Vec<P>) -> OrderPreservingProperties<P> {
        OrderPreservingProperties(value)
    }
}

impl<P> vstd::std_specs::convert::FromSpecImpl<Vec<P>> for OrderPreservingProperties<P> {
    open spec fn obeys_from_spec() -> bool {
        true
    }

    closed spec fn from_spec(value: Vec<P>) -> OrderPreservingProperties<P> {
        OrderPreservingProperties(value)
    }
}

} // verus!

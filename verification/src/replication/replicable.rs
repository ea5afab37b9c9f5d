//! Values that can travel: how each one is written and read back.

use vstd::prelude::*;
use vstd::bytes::{u16_from_le_bytes, u16_to_le_bytes, u64_from_le_bytes};
use vstd::slice::{slice_subrange, slice_to_vec};
use vstd::utf8::{decode_utf8, encode_utf8, valid_utf8};
use crate::replication::types::ErrorCode;
use crate::replication::wire::{blob_wire, counted_wire, lemma_blob_round_trip, lemma_counted_round_trip, lemma_u32_bytes, list_wire, put_blob, put_bytes, put_u32, put_u64, take_blob, take_counted, take_list, u32_from_bytes, u32_of, u32_wire, u64_wire, Reader};

verus! {

/// A value that can be written to the wire and read back from exactly the
/// bytes that were written.
///
/// `Model` is the mathematical value that an instance stands for. The bytes
/// may come from an untrusted peer, so reading malformed ones fails cleanly.
pub trait Replicable: Sized {
    type Model;

    /// The value of an instance.
    spec fn model(&self) -> Self::Model;

    /// The bytes of a value.
    spec fn wire(m: Self::Model) -> Seq<u8>;

    /// The value that bytes stand for, if they are well-formed.
    spec fn parse(bytes: Seq<u8>) -> Option<Self::Model>;

    /// Every length in the value fits the 32 bits it has on the wire.
    spec fn fits(m: Self::Model) -> bool;

    /// The placeholder value.
    spec fn placeholder() -> Self::Model;

    /// Reading a value back from its bytes gives the value.
    proof fn lemma_round_trip(m: Self::Model)
        requires
            Self::fits(m),
        ensures
            Self::parse(Self::wire(m)) == Some(m),
    ;

    /// A placeholder for a row whose real value has not arrived yet.
    fn replicate_default() -> (v: Self)
        ensures
            v.model() == Self::placeholder(),
    ;

    /// Appends the bytes of this value.
    fn replicate_encode(&self, buf: &mut Vec<u8>)
        ensures
            final(buf)@ == old(buf)@ + Self::wire(self.model()),
    ;

    /// Reads a value back from exactly the bytes that were written for it.
    fn replicate_decode(bytes: &[u8]) -> (out: Result<Self, ErrorCode>)
        ensures
            match Self::parse(bytes@) {
                Some(m) => out matches Ok(v) && v.model() == m,
                None => out matches Err(e) && e == ErrorCode::InvalidData,
            },
    ;
}

impl Replicable for u8 {
    type Model = u8;

    open spec fn model(&self) -> u8 {
        *self
    }

    open spec fn wire(m: u8) -> Seq<u8> {
        seq![m]
    }

    open spec fn parse(bytes: Seq<u8>) -> Option<u8> {
        if bytes.len() == 1 {
            Some(bytes[0])
        } else {
            None
        }
    }

    open spec fn fits(m: u8) -> bool {
        true
    }

    open spec fn placeholder() -> u8 {
        0
    }

    proof fn lemma_round_trip(m: u8) {
    }

    fn replicate_default() -> (v: u8) {
        0
    }

    fn replicate_encode(&self, buf: &mut Vec<u8>) {
        buf.push(*self);
        proof {
            assert(buf@ =~= old(buf)@ + seq![*self]);
        }
    }

    fn replicate_decode(bytes: &[u8]) -> (out: Result<u8, ErrorCode>) {
        if bytes.len() != 1 {
            return Err(ErrorCode::InvalidData);
        }
        Ok(bytes[0])
    }
}

impl Replicable for u16 {
    type Model = u16;

    open spec fn model(&self) -> u16 {
        *self
    }

    open spec fn wire(m: u16) -> Seq<u8> {
        vstd::bytes::spec_u16_to_le_bytes(m)
    }

    open spec fn parse(bytes: Seq<u8>) -> Option<u16> {
        if bytes.len() == 2 {
            Some(vstd::bytes::spec_u16_from_le_bytes(bytes))
        } else {
            None
        }
    }

    open spec fn fits(m: u16) -> bool {
        true
    }

    open spec fn placeholder() -> u16 {
        0
    }

    proof fn lemma_round_trip(m: u16) {
        vstd::bytes::lemma_auto_spec_u16_to_from_le_bytes();
    }

    fn replicate_default() -> (v: u16) {
        0
    }

    fn replicate_encode(&self, buf: &mut Vec<u8>) {
        let mut bytes = u16_to_le_bytes(*self);
        buf.append(&mut bytes);
    }

    fn replicate_decode(bytes: &[u8]) -> (out: Result<u16, ErrorCode>) {
        if bytes.len() != 2 {
            return Err(ErrorCode::InvalidData);
        }
        Ok(u16_from_le_bytes(bytes))
    }
}

impl Replicable for u32 {
    type Model = u32;

    open spec fn model(&self) -> u32 {
        *self
    }

    open spec fn wire(m: u32) -> Seq<u8> {
        u32_wire(m)
    }

    open spec fn parse(bytes: Seq<u8>) -> Option<u32> {
        if bytes.len() == 4 {
            Some(u32_of(bytes))
        } else {
            None
        }
    }

    open spec fn fits(m: u32) -> bool {
        true
    }

    open spec fn placeholder() -> u32 {
        0
    }

    proof fn lemma_round_trip(m: u32) {
        lemma_u32_bytes();
    }

    fn replicate_default() -> (v: u32) {
        0
    }

    fn replicate_encode(&self, buf: &mut Vec<u8>) {
        put_u32(buf, *self);
    }

    fn replicate_decode(bytes: &[u8]) -> (out: Result<u32, ErrorCode>) {
        if bytes.len() != 4 {
            return Err(ErrorCode::InvalidData);
        }
        Ok(u32_from_bytes(bytes))
    }
}

impl Replicable for u64 {
    type Model = u64;

    open spec fn model(&self) -> u64 {
        *self
    }

    open spec fn wire(m: u64) -> Seq<u8> {
        u64_wire(m)
    }

    open spec fn parse(bytes: Seq<u8>) -> Option<u64> {
        if bytes.len() == 8 {
            Some(vstd::bytes::spec_u64_from_le_bytes(bytes))
        } else {
            None
        }
    }

    open spec fn fits(m: u64) -> bool {
        true
    }

    open spec fn placeholder() -> u64 {
        0
    }

    proof fn lemma_round_trip(m: u64) {
        vstd::bytes::lemma_auto_spec_u64_to_from_le_bytes();
    }

    fn replicate_default() -> (v: u64) {
        0
    }

    fn replicate_encode(&self, buf: &mut Vec<u8>) {
        put_u64(buf, *self);
    }

    fn replicate_decode(bytes: &[u8]) -> (out: Result<u64, ErrorCode>) {
        if bytes.len() != 8 {
            return Err(ErrorCode::InvalidData);
        }
        Ok(u64_from_le_bytes(bytes))
    }
}

/// A signed number travels as the unsigned one with the same bits.
impl Replicable for i8 {
    type Model = i8;

    open spec fn model(&self) -> i8 {
        *self
    }

    open spec fn wire(m: i8) -> Seq<u8> {
        u8::wire(m as u8)
    }

    open spec fn parse(bytes: Seq<u8>) -> Option<i8> {
        match u8::parse(bytes) {
            Some(x) => Some(x as i8),
            None => None,
        }
    }

    open spec fn fits(m: i8) -> bool {
        true
    }

    open spec fn placeholder() -> i8 {
        0
    }

    proof fn lemma_round_trip(m: i8) {
        u8::lemma_round_trip(m as u8);
        assert((m as u8) as i8 == m) by (bit_vector);
    }

    fn replicate_default() -> (v: i8) {
        0
    }

    fn replicate_encode(&self, buf: &mut Vec<u8>) {
        (*self as u8).replicate_encode(buf);
    }

    fn replicate_decode(bytes: &[u8]) -> (out: Result<i8, ErrorCode>) {
        match u8::replicate_decode(bytes) {
            Ok(x) => Ok(x as i8),
            Err(e) => Err(e),
        }
    }
}

impl Replicable for i16 {
    type Model = i16;

    open spec fn model(&self) -> i16 {
        *self
    }

    open spec fn wire(m: i16) -> Seq<u8> {
        u16::wire(m as u16)
    }

    open spec fn parse(bytes: Seq<u8>) -> Option<i16> {
        match u16::parse(bytes) {
            Some(x) => Some(x as i16),
            None => None,
        }
    }

    open spec fn fits(m: i16) -> bool {
        true
    }

    open spec fn placeholder() -> i16 {
        0
    }

    proof fn lemma_round_trip(m: i16) {
        u16::lemma_round_trip(m as u16);
        assert((m as u16) as i16 == m) by (bit_vector);
    }

    fn replicate_default() -> (v: i16) {
        0
    }

    fn replicate_encode(&self, buf: &mut Vec<u8>) {
        (*self as u16).replicate_encode(buf);
    }

    fn replicate_decode(bytes: &[u8]) -> (out: Result<i16, ErrorCode>) {
        match u16::replicate_decode(bytes) {
            Ok(x) => Ok(x as i16),
            Err(e) => Err(e),
        }
    }
}

impl Replicable for i32 {
    type Model = i32;

    open spec fn model(&self) -> i32 {
        *self
    }

    open spec fn wire(m: i32) -> Seq<u8> {
        u32::wire(m as u32)
    }

    open spec fn parse(bytes: Seq<u8>) -> Option<i32> {
        match u32::parse(bytes) {
            Some(x) => Some(x as i32),
            None => None,
        }
    }

    open spec fn fits(m: i32) -> bool {
        true
    }

    open spec fn placeholder() -> i32 {
        0
    }

    proof fn lemma_round_trip(m: i32) {
        u32::lemma_round_trip(m as u32);
        assert((m as u32) as i32 == m) by (bit_vector);
    }

    fn replicate_default() -> (v: i32) {
        0
    }

    fn replicate_encode(&self, buf: &mut Vec<u8>) {
        (*self as u32).replicate_encode(buf);
    }

    fn replicate_decode(bytes: &[u8]) -> (out: Result<i32, ErrorCode>) {
        match u32::replicate_decode(bytes) {
            Ok(x) => Ok(x as i32),
            Err(e) => Err(e),
        }
    }
}

impl Replicable for i64 {
    type Model = i64;

    open spec fn model(&self) -> i64 {
        *self
    }

    open spec fn wire(m: i64) -> Seq<u8> {
        u64::wire(m as u64)
    }

    open spec fn parse(bytes: Seq<u8>) -> Option<i64> {
        match u64::parse(bytes) {
            Some(x) => Some(x as i64),
            None => None,
        }
    }

    open spec fn fits(m: i64) -> bool {
        true
    }

    open spec fn placeholder() -> i64 {
        0
    }

    proof fn lemma_round_trip(m: i64) {
        u64::lemma_round_trip(m as u64);
        assert((m as u64) as i64 == m) by (bit_vector);
    }

    fn replicate_default() -> (v: i64) {
        0
    }

    fn replicate_encode(&self, buf: &mut Vec<u8>) {
        (*self as u64).replicate_encode(buf);
    }

    fn replicate_decode(bytes: &[u8]) -> (out: Result<i64, ErrorCode>) {
        match u64::replicate_decode(bytes) {
            Ok(x) => Ok(x as i64),
            Err(e) => Err(e),
        }
    }
}

/// Four-byte words one after another, little-endian.
pub open spec fn words_wire(words: Seq<u32>) -> Seq<u8> {
    list_wire(|w: u32| u32_wire(w), words)
}

/// Word `i` of a byte sequence.
pub open spec fn word_at(bytes: Seq<u8>, i: int) -> u32 {
    u32_of(bytes.subrange(4 * i, 4 * i + 4))
}

/// The first `n` words of a byte sequence.
pub open spec fn words_of(bytes: Seq<u8>, n: nat) -> Seq<u32> {
    Seq::new(n, |i: int| word_at(bytes, i))
}

proof fn lemma_words_round_trip(words: Seq<u32>)
    ensures
        words_wire(words).len() == 4 * words.len(),
        words_of(words_wire(words), words.len()) == words,
    decreases words.len(),
{
    let wire = |w: u32| u32_wire(w);
    if words.len() == 0 {
        assert(words_of(words_wire(words), 0) =~= words);
    } else {
        let init = words.drop_last();
        lemma_words_round_trip(init);
        lemma_u32_bytes();
        let s = words_wire(words);
        assert(s == words_wire(init) + u32_wire(words.last()));
        let n = init.len() as int;
        assert(s.subrange(4 * n, 4 * n + 4) =~= u32_wire(words.last()));
        assert forall|i: int| 0 <= i < n implies word_at(s, i) == words[i] by {
            assert(s.subrange(4 * i, 4 * i + 4) =~= words_wire(init).subrange(4 * i, 4 * i + 4));
            assert(words_of(words_wire(init), init.len())[i] == init[i]);
        }
        assert(words_of(s, words.len()) =~= words);
    }
}

fn read_word(bytes: &[u8], i: usize) -> (w: u32)
    requires
        4 * i + 4 <= bytes@.len(),
    ensures
        w == word_at(bytes@, i as int),
{
    let len: usize = bytes.len();
    assert(4 * i + 4 <= len);
    u32_from_bytes(slice_subrange(bytes, 4 * i, 4 * i + 4))
}

/// Two float lanes as bit patterns.
impl Replicable for [u32; 2] {
    type Model = Seq<u32>;

    open spec fn model(&self) -> Seq<u32> {
        self@
    }

    open spec fn wire(m: Seq<u32>) -> Seq<u8> {
        words_wire(m)
    }

    open spec fn parse(bytes: Seq<u8>) -> Option<Seq<u32>> {
        if bytes.len() == 8 {
            Some(words_of(bytes, 2))
        } else {
            None
        }
    }

    open spec fn fits(m: Seq<u32>) -> bool {
        m.len() == 2
    }

    open spec fn placeholder() -> Seq<u32> {
        seq![0u32, 0u32]
    }

    proof fn lemma_round_trip(m: Seq<u32>) {
        lemma_words_round_trip(m);
    }

    fn replicate_default() -> (v: [u32; 2]) {
        let v: [u32; 2] = [0, 0];
        proof {
            assert(v@ =~= seq![0u32, 0u32]);
        }
        v
    }

    fn replicate_encode(&self, buf: &mut Vec<u8>) {
        put_words(buf, self.as_slice());
    }

    fn replicate_decode(bytes: &[u8]) -> (out: Result<[u32; 2], ErrorCode>) {
        if bytes.len() != 8 {
            return Err(ErrorCode::InvalidData);
        }
        let v: [u32; 2] = [read_word(bytes, 0), read_word(bytes, 1)];
        proof {
            assert(v@ =~= words_of(bytes@, 2));
        }
        Ok(v)
    }
}

/// Three float lanes as bit patterns.
impl Replicable for [u32; 3] {
    type Model = Seq<u32>;

    open spec fn model(&self) -> Seq<u32> {
        self@
    }

    open spec fn wire(m: Seq<u32>) -> Seq<u8> {
        words_wire(m)
    }

    open spec fn parse(bytes: Seq<u8>) -> Option<Seq<u32>> {
        if bytes.len() == 12 {
            Some(words_of(bytes, 3))
        } else {
            None
        }
    }

    open spec fn fits(m: Seq<u32>) -> bool {
        m.len() == 3
    }

    open spec fn placeholder() -> Seq<u32> {
        seq![0u32, 0u32, 0u32]
    }

    proof fn lemma_round_trip(m: Seq<u32>) {
        lemma_words_round_trip(m);
    }

    fn replicate_default() -> (v: [u32; 3]) {
        let v: [u32; 3] = [0, 0, 0];
        proof {
            assert(v@ =~= seq![0u32, 0u32, 0u32]);
        }
        v
    }

    fn replicate_encode(&self, buf: &mut Vec<u8>) {
        put_words(buf, self.as_slice());
    }

    fn replicate_decode(bytes: &[u8]) -> (out: Result<[u32; 3], ErrorCode>) {
        if bytes.len() != 12 {
            return Err(ErrorCode::InvalidData);
        }
        let v: [u32; 3] = [read_word(bytes, 0), read_word(bytes, 1), read_word(bytes, 2)];
        proof {
            assert(v@ =~= words_of(bytes@, 3));
        }
        Ok(v)
    }
}

/// Four float lanes as bit patterns.
impl Replicable for [u32; 4] {
    type Model = Seq<u32>;

    open spec fn model(&self) -> Seq<u32> {
        self@
    }

    open spec fn wire(m: Seq<u32>) -> Seq<u8> {
        words_wire(m)
    }

    open spec fn parse(bytes: Seq<u8>) -> Option<Seq<u32>> {
        if bytes.len() == 16 {
            Some(words_of(bytes, 4))
        } else {
            None
        }
    }

    open spec fn fits(m: Seq<u32>) -> bool {
        m.len() == 4
    }

    open spec fn placeholder() -> Seq<u32> {
        seq![0u32, 0u32, 0u32, 0u32]
    }

    proof fn lemma_round_trip(m: Seq<u32>) {
        lemma_words_round_trip(m);
    }

    fn replicate_default() -> (v: [u32; 4]) {
        let v: [u32; 4] = [0, 0, 0, 0];
        proof {
            assert(v@ =~= seq![0u32, 0u32, 0u32, 0u32]);
        }
        v
    }

    fn replicate_encode(&self, buf: &mut Vec<u8>) {
        put_words(buf, self.as_slice());
    }

    fn replicate_decode(bytes: &[u8]) -> (out: Result<[u32; 4], ErrorCode>) {
        if bytes.len() != 16 {
            return Err(ErrorCode::InvalidData);
        }
        let v: [u32; 4] = [
            read_word(bytes, 0),
            read_word(bytes, 1),
            read_word(bytes, 2),
            read_word(bytes, 3),
        ];
        proof {
            assert(v@ =~= words_of(bytes@, 4));
        }
        Ok(v)
    }
}

fn put_words(buf: &mut Vec<u8>, words: &[u32])
    ensures
        final(buf)@ == old(buf)@ + words_wire(words@),
{
    let ghost wire = |w: u32| u32_wire(w);
    let ghost start = buf@;
    let mut i: usize = 0;
    proof {
        assert(start =~= start + list_wire(wire, words@.subrange(0, 0)));
    }
    while i < words.len()
        invariant
            i <= words@.len(),
            wire == (|w: u32| u32_wire(w)),
            buf@ == start + list_wire(wire, words@.subrange(0, i as int)),
        decreases words@.len() - i,
    {
        put_u32(buf, words[i]);
        proof {
            let upto = words@.subrange(0, i + 1);
            assert(upto.drop_last() =~= words@.subrange(0, i as int));
            assert(buf@ =~= start + list_wire(wire, upto));
        }
        i = i + 1;
    }
    proof {
        assert(words@.subrange(0, words@.len() as int) =~= words@);
    }
}

/// `String::from_utf8`: the string whose UTF-8 form the bytes are, and nothing
/// if the bytes are not valid UTF-8.
#[verifier::external_body]
fn string_from_utf8(bytes: Vec<u8>) -> (out: Option<String>)
    ensures
        match out {
            Some(s) => valid_utf8(bytes@) && s@ == decode_utf8(bytes@),
            None => !valid_utf8(bytes@),
        },
{
    String::from_utf8(bytes).ok()
}

/// A string travels as its UTF-8 form.
impl Replicable for String {
    type Model = Seq<char>;

    open spec fn model(&self) -> Seq<char> {
        self@
    }

    open spec fn wire(m: Seq<char>) -> Seq<u8> {
        encode_utf8(m)
    }

    open spec fn parse(bytes: Seq<u8>) -> Option<Seq<char>> {
        if valid_utf8(bytes) {
            Some(decode_utf8(bytes))
        } else {
            None
        }
    }

    open spec fn fits(m: Seq<char>) -> bool {
        true
    }

    open spec fn placeholder() -> Seq<char> {
        Seq::empty()
    }

    proof fn lemma_round_trip(m: Seq<char>) {
        vstd::utf8::encode_utf8_valid_utf8(m);
        vstd::utf8::encode_utf8_decode_utf8(m);
    }

    fn replicate_default() -> (v: String) {
        let v = String::new();
        v
    }

    fn replicate_encode(&self, buf: &mut Vec<u8>) {
        put_bytes(buf, self.as_str().as_bytes());
    }

    fn replicate_decode(bytes: &[u8]) -> (out: Result<String, ErrorCode>) {
        match string_from_utf8(slice_to_vec(bytes)) {
            Some(s) => Ok(s),
            None => Err(ErrorCode::InvalidData),
        }
    }
}

/// One element of a list: its bytes behind their length.
pub open spec fn element_wire<T: Replicable>(m: T::Model) -> Seq<u8> {
    blob_wire(T::wire(m))
}

/// Reads one element of a list.
pub open spec fn take_element<T: Replicable>(s: Seq<u8>) -> Option<(T::Model, Seq<u8>)> {
    match take_blob(s) {
        None => None,
        Some((b, rest)) => match T::parse(b) {
            None => None,
            Some(m) => Some((m, rest)),
        },
    }
}

/// The values of a vector's elements.
pub open spec fn models<T: Replicable>(v: Seq<T>) -> Seq<T::Model> {
    v.map_values(|x: T| x.model())
}

/// A vector travels as its counted elements, each behind its own length, so
/// that it nests.
impl<T: Replicable> Replicable for Vec<T> {
    type Model = Seq<T::Model>;

    open spec fn model(&self) -> Seq<T::Model> {
        models(self@)
    }

    open spec fn wire(m: Seq<T::Model>) -> Seq<u8> {
        counted_wire(|x: T::Model| element_wire::<T>(x), m)
    }

    open spec fn parse(bytes: Seq<u8>) -> Option<Seq<T::Model>> {
        match take_counted(|s: Seq<u8>| take_element::<T>(s), bytes) {
            None => None,
            Some((xs, _)) => Some(xs),
        }
    }

    open spec fn fits(m: Seq<T::Model>) -> bool {
        &&& m.len() <= u32::MAX
        &&& forall|i: int|
            0 <= i < m.len() ==> T::fits(#[trigger] m[i]) && T::wire(m[i]).len() <= u32::MAX
    }

    open spec fn placeholder() -> Seq<T::Model> {
        Seq::empty()
    }

    proof fn lemma_round_trip(m: Seq<T::Model>) {
        let wire = |x: T::Model| element_wire::<T>(x);
        let item = |s: Seq<u8>| take_element::<T>(s);
        assert forall|i: int, r: Seq<u8>| 0 <= i < m.len() implies #[trigger] item(wire(m[i]) + r) == Some(
            (m[i], r),
        ) by {
            lemma_blob_round_trip(T::wire(m[i]), r);
            T::lemma_round_trip(m[i]);
        }
        lemma_counted_round_trip(item, wire, m, Seq::empty());
        assert(counted_wire(wire, m) + Seq::<u8>::empty() =~= counted_wire(wire, m));
    }

    fn replicate_default() -> (v: Vec<T>) {
        let v: Vec<T> = Vec::new();
        proof {
            assert(models(v@) =~= Seq::<T::Model>::empty());
        }
        v
    }

    fn replicate_encode(&self, buf: &mut Vec<u8>) {
        let ghost wire = |x: T::Model| element_wire::<T>(x);
        let ghost all = models(self@);
        let ghost first = buf@;
        put_u32(buf, self.len() as u32);
        let ghost start = buf@;
        let mut i: usize = 0;
        proof {
            assert(start =~= start + list_wire(wire, all.subrange(0, 0)));
        }
        while i < self.len()
            invariant
                i <= self@.len(),
                all == models(self@),
                wire == (|x: T::Model| element_wire::<T>(x)),
                buf@ == start + list_wire(wire, all.subrange(0, i as int)),
            decreases self@.len() - i,
        {
            let mut elem: Vec<u8> = Vec::new();
            self[i].replicate_encode(&mut elem);
            put_blob(buf, elem.as_slice());
            proof {
                assert(elem@ =~= T::wire(self@[i as int].model()));
                let upto = all.subrange(0, i + 1);
                assert(upto.drop_last() =~= all.subrange(0, i as int));
                assert(upto.last() == self@[i as int].model());
                assert(buf@ =~= start + list_wire(wire, upto));
            }
            i = i + 1;
        }
        proof {
            assert(all.subrange(0, all.len() as int) =~= all);
            assert(buf@ =~= first + counted_wire(wire, all));
        }
    }

    fn replicate_decode(bytes: &[u8]) -> (out: Result<Vec<T>, ErrorCode>) {
        let ghost item = |s: Seq<u8>| take_element::<T>(s);
        let ghost goal = take_counted(item, bytes@);
        let mut r = Reader::new(bytes);
        let count: u32 = match r.read_u32() {
            None => {
                return Err(ErrorCode::InvalidData);
            },
            Some(n) => n,
        };
        let mut out: Vec<T> = Vec::new();
        let mut i: u32 = 0;
        proof {
            assert(models(out@) =~= Seq::<T::Model>::empty());
        }
        while i < count
            invariant
                i <= count,
                r.well_formed(),
                item == (|s: Seq<u8>| take_element::<T>(s)),
                goal == take_counted(item, bytes@),
                goal == take_list(item, (count - i) as nat, models(out@), r.rest()),
            decreases count - i,
        {
            let ghost before = models(out@);
            let blob = match r.read_blob() {
                None => {
                    return Err(ErrorCode::InvalidData);
                },
                Some(b) => b,
            };
            match T::replicate_decode(blob.as_slice()) {
                Err(e) => {
                    return Err(e);
                },
                Ok(x) => {
                    out.push(x);
                    proof {
                        assert(models(out@) =~= before.push(x.model()));
                    }
                },
            }
            i = i + 1;
        }
        Ok(out)
    }
}

/// The value of an optional instance.
pub open spec fn option_model<T: Replicable>(v: Option<T>) -> Option<T::Model> {
    match v {
        None => None,
        Some(x) => Some(x.model()),
    }
}

/// An optional value travels as a tag byte, then the value if there is one.
impl<T: Replicable> Replicable for Option<T> {
    type Model = Option<T::Model>;

    open spec fn model(&self) -> Option<T::Model> {
        option_model(*self)
    }

    open spec fn wire(m: Option<T::Model>) -> Seq<u8> {
        match m {
            None => seq![0u8],
            Some(x) => seq![1u8] + T::wire(x),
        }
    }

    open spec fn parse(bytes: Seq<u8>) -> Option<Option<T::Model>> {
        if bytes.len() == 0 {
            None
        } else if bytes[0] == 0 {
            Some(None)
        } else if bytes[0] == 1 {
            match T::parse(bytes.skip(1)) {
                None => None,
                Some(x) => Some(Some(x)),
            }
        } else {
            None
        }
    }

    open spec fn fits(m: Option<T::Model>) -> bool {
        match m {
            None => true,
            Some(x) => T::fits(x),
        }
    }

    open spec fn placeholder() -> Option<T::Model> {
        None
    }

    proof fn lemma_round_trip(m: Option<T::Model>) {
        match m {
            None => {},
            Some(x) => {
                T::lemma_round_trip(x);
                assert(Self::wire(m).skip(1) =~= T::wire(x));
            },
        }
    }

    fn replicate_default() -> (v: Option<T>) {
        None
    }

    fn replicate_encode(&self, buf: &mut Vec<u8>) {
        let ghost first = buf@;
        match self {
            None => {
                buf.push(0);
                proof {
                    assert(buf@ =~= first + seq![0u8]);
                }
            },
            Some(v) => {
                buf.push(1);
                v.replicate_encode(buf);
                proof {
                    assert(buf@ =~= first + (seq![1u8] + T::wire(v.model())));
                }
            },
        }
    }

    fn replicate_decode(bytes: &[u8]) -> (out: Result<Option<T>, ErrorCode>) {
        if bytes.len() == 0 {
            return Err(ErrorCode::InvalidData);
        }
        if bytes[0] == 0 {
            return Ok(None);
        }
        if bytes[0] != 1 {
            return Err(ErrorCode::InvalidData);
        }
        let body = slice_subrange(bytes, 1, bytes.len());
        proof {
            assert(body@ =~= bytes@.skip(1));
        }
        match T::replicate_decode(body) {
            Ok(x) => Ok(Some(x)),
            Err(e) => Err(e),
        }
    }
}

/// A number is read from exactly as many bytes as it has, no more and no fewer.
pub proof fn lemma_numbers_need_their_bytes(b: Seq<u8>)
    ensures
        u8::parse(b) is Some <==> b.len() == 1,
        u16::parse(b) is Some <==> b.len() == 2,
        u32::parse(b) is Some <==> b.len() == 4,
        u64::parse(b) is Some <==> b.len() == 8,
        i8::parse(b) is Some <==> b.len() == 1,
        i16::parse(b) is Some <==> b.len() == 2,
        i32::parse(b) is Some <==> b.len() == 4,
        i64::parse(b) is Some <==> b.len() == 8,
        <[u32; 2] as Replicable>::parse(b) is Some <==> b.len() == 8,
        <[u32; 3] as Replicable>::parse(b) is Some <==> b.len() == 12,
        <[u32; 4] as Replicable>::parse(b) is Some <==> b.len() == 16,
{
}

/// A number that was read has the bytes that it was read from.
pub proof fn lemma_numbers_keep_their_bytes(b: Seq<u8>)
    ensures
        u8::parse(b) matches Some(x) ==> u8::wire(x) == b,
        u16::parse(b) matches Some(x) ==> u16::wire(x) == b,
        u32::parse(b) matches Some(x) ==> u32::wire(x) == b,
        u64::parse(b) matches Some(x) ==> u64::wire(x) == b,
{
    vstd::bytes::lemma_auto_spec_u16_to_from_le_bytes();
    vstd::bytes::lemma_auto_spec_u64_to_from_le_bytes();
    lemma_u32_bytes();
    if b.len() == 1 {
        assert(u8::wire(b[0]) =~= b);
    }
    if b.len() == 4 {
        assert(u32_wire(u32_of(b)) == b);
    }
}

/// An optional value is told by its first byte: zero for none, one for some, and nothing
/// else. Its value is read from all the bytes behind.
pub proof fn lemma_options_are_tagged<T: Replicable>(b: Seq<u8>)
    ensures
        b.len() == 0 ==> Option::<T>::parse(b) is None,
        b.len() > 0 && b[0] == 0 ==> Option::<T>::parse(b) == Some(None::<T::Model>),
        b.len() > 0 && b[0] == 1 ==> (Option::<T>::parse(b) is Some <==> T::parse(b.skip(1)) is Some),
        b.len() > 0 && b[0] == 1 ==> (T::parse(b.skip(1)) matches Some(x) ==> Option::<T>::parse(b) == Some(Some(x))),
        b.len() > 0 && b[0] > 1 ==> Option::<T>::parse(b) is None,
{
}

/// What stands in for a value that has not arrived is zero, empty or none.
pub proof fn lemma_placeholders<T: Replicable>()
    ensures
        u8::placeholder() == 0,
        u16::placeholder() == 0,
        u32::placeholder() == 0,
        u64::placeholder() == 0,
        i8::placeholder() == 0,
        i16::placeholder() == 0,
        i32::placeholder() == 0,
        i64::placeholder() == 0,
        String::placeholder().len() == 0,
        Vec::<T>::placeholder().len() == 0,
        Option::<T>::placeholder() is None,
{
}

} // verus!

//! Little-endian building blocks of the wire format: what each value looks
//! like as bytes, and how it is read back from the front of a byte sequence.

use vstd::prelude::*;
use vstd::bytes::{u64_from_le_bytes, u64_to_le_bytes};
use vstd::slice::{slice_subrange, slice_to_vec};

verus! {

/// A `u32` as four little-endian bytes.
pub open spec fn u32_wire(x: u32) -> Seq<u8> {
    seq![
        (x & 0xff) as u8,
        ((x >> 8) & 0xff) as u8,
        ((x >> 16) & 0xff) as u8,
        ((x >> 24) & 0xff) as u8,
    ]
}

/// The `u32` that four little-endian bytes stand for.
pub open spec fn u32_of(s: Seq<u8>) -> u32 {
    (s[0] as u32) | (s[1] as u32) << 8 | (s[2] as u32) << 16 | (s[3] as u32) << 24
}

/// Numbers and their bytes determine each other.
pub proof fn lemma_u32_bytes()
    ensures
        forall|x: u32| #![trigger u32_wire(x)] u32_wire(x).len() == 4 && u32_of(u32_wire(x)) == x,
        forall|s: Seq<u8>| #![trigger u32_wire(u32_of(s))] s.len() == 4 ==> u32_wire(u32_of(s)) == s,
{
    assert forall|x: u32| #![trigger u32_wire(x)] u32_wire(x).len() == 4 && u32_of(u32_wire(x)) == x by {
        assert((((x & 0xff) as u8) as u32) | ((((x >> 8) & 0xff) as u8) as u32) << 8 | ((((x >> 16) & 0xff) as u8) as u32)
            << 16 | ((((x >> 24) & 0xff) as u8) as u32) << 24 == x) by (bit_vector);
    }
    assert forall|s: Seq<u8>| #![trigger u32_wire(u32_of(s))] s.len() == 4 implies u32_wire(u32_of(s)) == s by {
        let (a, b, c, d) = (s[0], s[1], s[2], s[3]);
        let x = u32_of(s);
        assert(x == (a as u32) | (b as u32) << 8 | (c as u32) << 16 | (d as u32) << 24 ==> (x & 0xff) as u8 == a
            && ((x >> 8) & 0xff) as u8 == b && ((x >> 16) & 0xff) as u8 == c && ((x >> 24) & 0xff) as u8 == d)
            by (bit_vector);
        assert(u32_wire(x) =~= s);
    }
}

/// The `u32` that four little-endian bytes stand for.
pub fn u32_from_bytes(bytes: &[u8]) -> (x: u32)
    requires
        bytes@.len() == 4,
    ensures
        x == u32_of(bytes@),
{
    (bytes[0] as u32) | (bytes[1] as u32) << 8 | (bytes[2] as u32) << 16 | (bytes[3] as u32) << 24
}

/// A `u64` as eight little-endian bytes.
pub open spec fn u64_wire(x: u64) -> Seq<u8> {
    vstd::bytes::spec_u64_to_le_bytes(x)
}

/// A byte blob behind its length.
pub open spec fn blob_wire(b: Seq<u8>) -> Seq<u8> {
    u32_wire(b.len() as u32) + b
}

/// The items' bytes one after another.
pub open spec fn list_wire<T>(wire: spec_fn(T) -> Seq<u8>, xs: Seq<T>) -> Seq<u8>
    decreases xs.len(),
{
    if xs.len() == 0 {
        Seq::empty()
    } else {
        list_wire(wire, xs.drop_last()) + wire(xs.last())
    }
}

/// The items behind their count.
pub open spec fn counted_wire<T>(wire: spec_fn(T) -> Seq<u8>, xs: Seq<T>) -> Seq<u8> {
    u32_wire(xs.len() as u32) + list_wire(wire, xs)
}

/// The first `n` bytes and the rest.
pub open spec fn take_bytes(n: nat, s: Seq<u8>) -> Option<(Seq<u8>, Seq<u8>)> {
    if s.len() < n {
        None
    } else {
        Some((s.take(n as int), s.skip(n as int)))
    }
}

/// The first byte and the rest.
pub open spec fn take_u8(s: Seq<u8>) -> Option<(u8, Seq<u8>)> {
    if s.len() < 1 {
        None
    } else {
        Some((s[0], s.skip(1)))
    }
}

/// The `u32` at the front and the rest.
pub open spec fn take_u32(s: Seq<u8>) -> Option<(u32, Seq<u8>)> {
    if s.len() < 4 {
        None
    } else {
        Some((u32_of(s.take(4)), s.skip(4)))
    }
}

/// The `u64` at the front and the rest.
pub open spec fn take_u64(s: Seq<u8>) -> Option<(u64, Seq<u8>)> {
    if s.len() < 8 {
        None
    } else {
        Some((vstd::bytes::spec_u64_from_le_bytes(s.take(8)), s.skip(8)))
    }
}

/// The length-prefixed blob at the front and the rest.
pub open spec fn take_blob(s: Seq<u8>) -> Option<(Seq<u8>, Seq<u8>)> {
    match take_u32(s) {
        None => None,
        Some((n, rest)) => take_bytes(n as nat, rest),
    }
}

/// `n` items from the front, appended to `acc`, and the rest.
pub open spec fn take_list<T>(
    item: spec_fn(Seq<u8>) -> Option<(T, Seq<u8>)>,
    n: nat,
    acc: Seq<T>,
    s: Seq<u8>,
) -> Option<(Seq<T>, Seq<u8>)>
    decreases n,
{
    if n == 0 {
        Some((acc, s))
    } else {
        match item(s) {
            None => None,
            Some((x, rest)) => take_list(item, (n - 1) as nat, acc.push(x), rest),
        }
    }
}

/// The counted items at the front and the rest.
pub open spec fn take_counted<T>(
    item: spec_fn(Seq<u8>) -> Option<(T, Seq<u8>)>,
    s: Seq<u8>,
) -> Option<(Seq<T>, Seq<u8>)> {
    match take_u32(s) {
        None => None,
        Some((n, rest)) => take_list(item, n as nat, Seq::empty(), rest),
    }
}

/// Reading back a `u32` that was written in front of `rest`.
pub proof fn lemma_u32_round_trip(x: u32, rest: Seq<u8>)
    ensures
        u32_wire(x).len() == 4,
        take_u32(u32_wire(x) + rest) == Some((x, rest)),
{
    lemma_u32_bytes();
    let s = u32_wire(x) + rest;
    assert(s.take(4) =~= u32_wire(x));
    assert(s.skip(4) =~= rest);
}

/// Reading back a `u64` that was written in front of `rest`.
pub proof fn lemma_u64_round_trip(x: u64, rest: Seq<u8>)
    ensures
        u64_wire(x).len() == 8,
        take_u64(u64_wire(x) + rest) == Some((x, rest)),
{
    vstd::bytes::lemma_auto_spec_u64_to_from_le_bytes();
    let s = u64_wire(x) + rest;
    assert(s.take(8) =~= u64_wire(x));
    assert(s.skip(8) =~= rest);
}

/// Reading back a blob that was written in front of `rest`.
pub proof fn lemma_blob_round_trip(b: Seq<u8>, rest: Seq<u8>)
    requires
        b.len() <= u32::MAX,
    ensures
        take_blob(blob_wire(b) + rest) == Some((b, rest)),
{
    lemma_u32_round_trip(b.len() as u32, b + rest);
    assert(blob_wire(b) + rest =~= u32_wire(b.len() as u32) + (b + rest));
    assert((b + rest).take(b.len() as int) =~= b);
    assert((b + rest).skip(b.len() as int) =~= rest);
}

/// The bytes of a list start with those of its first item.
pub proof fn lemma_list_wire_front<T>(wire: spec_fn(T) -> Seq<u8>, xs: Seq<T>)
    requires
        xs.len() > 0,
    ensures
        list_wire(wire, xs) == wire(xs[0]) + list_wire(wire, xs.drop_first()),
    decreases xs.len(),
{
    if xs.len() == 1 {
        assert(xs.drop_last() =~= Seq::<T>::empty());
        assert(xs.drop_first() =~= Seq::<T>::empty());
        assert(list_wire(wire, xs.drop_last()) =~= Seq::<u8>::empty());
        assert(list_wire(wire, xs) =~= wire(xs[0]) + list_wire(wire, xs.drop_first()));
    } else {
        lemma_list_wire_front(wire, xs.drop_last());
        let ys = xs.drop_first();
        assert(xs.drop_last().drop_first() =~= ys.drop_last());
        assert(ys.last() == xs.last());
        assert(xs.drop_last()[0] == xs[0]);
        assert(list_wire(wire, ys) == list_wire(wire, ys.drop_last()) + wire(ys.last()));
        assert(list_wire(wire, xs) =~= wire(xs[0]) + list_wire(wire, ys));
    }
}

/// Reading back a list that was written in front of `rest`, for items that
/// can each be read back.
pub proof fn lemma_list_round_trip<T>(
    item: spec_fn(Seq<u8>) -> Option<(T, Seq<u8>)>,
    wire: spec_fn(T) -> Seq<u8>,
    xs: Seq<T>,
    acc: Seq<T>,
    rest: Seq<u8>,
)
    requires
        forall|i: int, r: Seq<u8>|
            0 <= i < xs.len() ==> #[trigger] item(wire(xs[i]) + r) == Some((xs[i], r)),
    ensures
        take_list(item, xs.len(), acc, list_wire(wire, xs) + rest) == Some((acc + xs, rest)),
    decreases xs.len(),
{
    if xs.len() == 0 {
        assert(list_wire(wire, xs) + rest =~= rest);
        assert(acc + xs =~= acc);
    } else {
        let ys = xs.drop_first();
        let tail = list_wire(wire, ys) + rest;
        lemma_list_wire_front(wire, xs);
        assert(list_wire(wire, xs) + rest =~= wire(xs[0]) + tail);
        assert(item(wire(xs[0]) + tail) == Some((xs[0], tail)));
        assert forall|i: int, r: Seq<u8>| 0 <= i < ys.len() implies #[trigger] item(wire(ys[i]) + r) == Some(
            (ys[i], r),
        ) by {
            assert(ys[i] == xs[i + 1]);
            assert(item(wire(xs[i + 1]) + r) == Some((xs[i + 1], r)));
        }
        lemma_list_round_trip(item, wire, ys, acc.push(xs[0]), rest);
        assert(acc.push(xs[0]) + ys =~= acc + xs);
    }
}

/// Reading back a counted list that was written in front of `rest`, for items
/// that can each be read back.
pub proof fn lemma_counted_round_trip<T>(
    item: spec_fn(Seq<u8>) -> Option<(T, Seq<u8>)>,
    wire: spec_fn(T) -> Seq<u8>,
    xs: Seq<T>,
    rest: Seq<u8>,
)
    requires
        xs.len() <= u32::MAX,
        forall|i: int, r: Seq<u8>|
            0 <= i < xs.len() ==> #[trigger] item(wire(xs[i]) + r) == Some((xs[i], r)),
    ensures
        take_counted(item, counted_wire(wire, xs) + rest) == Some((xs, rest)),
{
    let tail = list_wire(wire, xs) + rest;
    lemma_u32_round_trip(xs.len() as u32, tail);
    assert(counted_wire(wire, xs) + rest =~= u32_wire(xs.len() as u32) + tail);
    lemma_list_round_trip(item, wire, xs, Seq::empty(), rest);
    assert(Seq::<T>::empty() + xs =~= xs);
}

/// Bytes behind what an item was read from do not matter to it.
pub open spec fn reads_on<T>(item: spec_fn(Seq<u8>) -> Option<(T, Seq<u8>)>) -> bool {
    forall|s: Seq<u8>, t: Seq<u8>|
        #![trigger item(s + t)]
        item(s) matches Some((x, rest)) ==> item(s + t) == Some((x, rest + t))
}

pub(crate) proof fn lemma_u32_reads_on(s: Seq<u8>, t: Seq<u8>)
    requires
        s.len() >= 4,
    ensures
        take_u32(s + t) == Some((take_u32(s).unwrap().0, s.skip(4) + t)),
{
    assert((s + t).take(4) =~= s.take(4));
    assert((s + t).skip(4) =~= s.skip(4) + t);
}

pub(crate) proof fn lemma_u64_reads_on(s: Seq<u8>, t: Seq<u8>)
    requires
        s.len() >= 8,
    ensures
        take_u64(s + t) == Some((take_u64(s).unwrap().0, s.skip(8) + t)),
{
    assert((s + t).take(8) =~= s.take(8));
    assert((s + t).skip(8) =~= s.skip(8) + t);
}

pub(crate) proof fn lemma_blob_reads_on(s: Seq<u8>, t: Seq<u8>)
    requires
        take_blob(s) is Some,
    ensures
        take_blob(s + t) == Some((take_blob(s).unwrap().0, take_blob(s).unwrap().1 + t)),
{
    lemma_u32_reads_on(s, t);
    let n = take_u32(s).unwrap().0 as int;
    let rest = s.skip(4);
    assert((rest + t).take(n) =~= rest.take(n));
    assert((rest + t).skip(n) =~= rest.skip(n) + t);
}

proof fn lemma_list_reads_on<T>(
    item: spec_fn(Seq<u8>) -> Option<(T, Seq<u8>)>,
    n: nat,
    acc: Seq<T>,
    s: Seq<u8>,
    t: Seq<u8>,
)
    requires
        reads_on(item),
        take_list(item, n, acc, s) is Some,
    ensures
        take_list(item, n, acc, s + t) == Some(
            (take_list(item, n, acc, s).unwrap().0, take_list(item, n, acc, s).unwrap().1 + t),
        ),
    decreases n,
{
    if n > 0 {
        let (x, rest) = item(s)->0;
        assert(item(s + t) == Some((x, rest + t)));
        lemma_list_reads_on(item, (n - 1) as nat, acc.push(x), rest, t);
    }
}

pub(crate) proof fn lemma_counted_reads_on<T>(
    item: spec_fn(Seq<u8>) -> Option<(T, Seq<u8>)>,
    s: Seq<u8>,
    t: Seq<u8>,
)
    requires
        reads_on(item),
        take_counted(item, s) is Some,
    ensures
        take_counted(item, s + t) == Some((take_counted(item, s).unwrap().0, take_counted(item, s).unwrap().1 + t)),
{
    lemma_u32_reads_on(s, t);
    let (n, rest) = take_u32(s)->0;
    lemma_list_reads_on(item, n as nat, Seq::empty(), rest, t);
}

/// The bytes that `n` items were read from are those of the items, for items that
/// are each read from their own bytes only.
pub(crate) proof fn lemma_list_read_from<T>(
    item: spec_fn(Seq<u8>) -> Option<(T, Seq<u8>)>,
    wire: spec_fn(T) -> Seq<u8>,
    n: nat,
    acc: Seq<T>,
    s: Seq<u8>,
) -> (xs: Seq<T>)
    requires
        forall|r: Seq<u8>| (#[trigger] item(r)) matches Some((x, rest)) ==> r == wire(x) + rest,
        take_list(item, n, acc, s) is Some,
    ensures
        xs.len() == n,
        take_list(item, n, acc, s).unwrap().0 == acc + xs,
        s == list_wire(wire, xs) + take_list(item, n, acc, s).unwrap().1,
    decreases n,
{
    if n == 0 {
        let xs = Seq::<T>::empty();
        assert(acc + xs =~= acc);
        assert(list_wire(wire, xs) + s =~= s);
        xs
    } else {
        let (x, rest) = item(s)->0;
        let tail = lemma_list_read_from(item, wire, (n - 1) as nat, acc.push(x), rest);
        let xs = seq![x] + tail;
        let left = take_list(item, n, acc, s).unwrap().1;
        assert(xs.drop_first() =~= tail);
        lemma_list_wire_front(wire, xs);
        assert(acc.push(x) + tail =~= acc + xs);
        assert(wire(x) + (list_wire(wire, tail) + left) =~= wire(x) + list_wire(wire, tail) + left);
        xs
    }
}

/// Appends the bytes of a `u32`.
pub fn put_u32(buf: &mut Vec<u8>, x: u32)
    ensures
        final(buf)@ == old(buf)@ + u32_wire(x),
{
    buf.push((x & 0xff) as u8);
    buf.push(((x >> 8) & 0xff) as u8);
    buf.push(((x >> 16) & 0xff) as u8);
    buf.push(((x >> 24) & 0xff) as u8);
    proof {
        assert(buf@ =~= old(buf)@ + u32_wire(x));
    }
}

/// Appends the bytes of a `u64`.
pub fn put_u64(buf: &mut Vec<u8>, x: u64)
    ensures
        final(buf)@ == old(buf)@ + u64_wire(x),
{
    let mut bytes = u64_to_le_bytes(x);
    buf.append(&mut bytes);
}

/// Appends bytes as they are.
pub fn put_bytes(buf: &mut Vec<u8>, bytes: &[u8])
    ensures
        final(buf)@ == old(buf)@ + bytes@,
{
    let mut copy = slice_to_vec(bytes);
    buf.append(&mut copy);
}

/// Appends a blob behind the low 32 bits of its length.
pub fn put_blob(buf: &mut Vec<u8>, bytes: &[u8])
    ensures
        final(buf)@ == old(buf)@ + blob_wire(bytes@),
{
    put_u32(buf, bytes.len() as u32);
    put_bytes(buf, bytes);
    proof {
        assert(old(buf)@ + blob_wire(bytes@) =~= old(buf)@ + u32_wire(bytes@.len() as u32) + bytes@);
    }
}

/// A read position in a byte slice.
pub struct Reader<'a> {
    pub bytes: &'a [u8],
    pub at: usize,
}

impl<'a> Reader<'a> {
    /// The position is within the slice.
    pub open spec fn well_formed(&self) -> bool {
        self.at <= self.bytes@.len()
    }

    /// What has not been read yet.
    pub open spec fn rest(&self) -> Seq<u8> {
        self.bytes@.skip(self.at as int)
    }

    /// Starts reading at the front.
    pub fn new(bytes: &'a [u8]) -> (r: Reader<'a>)
        ensures
            r.well_formed(),
            r.rest() == bytes@,
    {
        proof {
            assert(bytes@.skip(0) =~= bytes@);
        }
        Reader { bytes, at: 0 }
    }

    /// How many bytes have not been read yet.
    pub fn remaining(&self) -> (n: usize)
        requires
            self.well_formed(),
        ensures
            n == self.rest().len(),
    {
        self.bytes.len() - self.at
    }

    /// Reads `n` bytes.
    pub fn read_bytes(&mut self, n: usize) -> (out: Option<&'a [u8]>)
        requires
            old(self).well_formed(),
        ensures
            final(self).well_formed(),
            final(self).bytes == old(self).bytes,
            match take_bytes(n as nat, old(self).rest()) {
                None => out is None && *final(self) == *old(self),
                Some((b, rest)) => out matches Some(s) && s@ == b && final(self).rest() == rest,
            },
    {
        if self.bytes.len() - self.at < n {
            return None;
        }
        let out = slice_subrange(self.bytes, self.at, self.at + n);
        proof {
            let s = self.rest();
            assert(out@ =~= s.take(n as int));
            assert(self.bytes@.skip(self.at + n) =~= s.skip(n as int));
        }
        self.at = self.at + n;
        Some(out)
    }

    /// Reads one byte.
    pub fn read_u8(&mut self) -> (out: Option<u8>)
        requires
            old(self).well_formed(),
        ensures
            final(self).well_formed(),
            final(self).bytes == old(self).bytes,
            match take_u8(old(self).rest()) {
                None => out is None && *final(self) == *old(self),
                Some((b, rest)) => out == Some(b) && final(self).rest() == rest,
            },
    {
        if self.at >= self.bytes.len() {
            return None;
        }
        let b: u8 = self.bytes[self.at];
        proof {
            assert(self.bytes@.skip(self.at + 1) =~= self.rest().skip(1));
        }
        self.at = self.at + 1;
        Some(b)
    }

    /// Reads a `u32`.
    pub fn read_u32(&mut self) -> (out: Option<u32>)
        requires
            old(self).well_formed(),
        ensures
            final(self).well_formed(),
            final(self).bytes == old(self).bytes,
            match take_u32(old(self).rest()) {
                None => out is None && *final(self) == *old(self),
                Some((x, rest)) => out == Some(x) && final(self).rest() == rest,
            },
    {
        match self.read_bytes(4) {
            None => None,
            Some(b) => Some(u32_from_bytes(b)),
        }
    }

    /// Reads a `u64`.
    pub fn read_u64(&mut self) -> (out: Option<u64>)
        requires
            old(self).well_formed(),
        ensures
            final(self).well_formed(),
            final(self).bytes == old(self).bytes,
            match take_u64(old(self).rest()) {
                None => out is None && *final(self) == *old(self),
                Some((x, rest)) => out == Some(x) && final(self).rest() == rest,
            },
    {
        match self.read_bytes(8) {
            None => None,
            Some(b) => Some(u64_from_le_bytes(b)),
        }
    }

    /// Reads a length-prefixed blob.
    pub fn read_blob(&mut self) -> (out: Option<Vec<u8>>)
        requires
            old(self).well_formed(),
        ensures
            final(self).well_formed(),
            final(self).bytes == old(self).bytes,
            match take_blob(old(self).rest()) {
                None => out is None,
                Some((b, rest)) => out matches Some(v) && v@ == b && final(self).rest() == rest,
            },
    {
        match self.read_u32() {
            None => None,
            Some(n) => match self.read_bytes(n as usize) {
                None => None,
                Some(b) => Some(slice_to_vec(b)),
            },
        }
    }
}

} // verus!

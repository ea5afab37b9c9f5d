//! Field values on the wire: plain bytes, variable-length numbers and custom
//! codecs.

use vstd::prelude::*;
use vstd::bytes::{u64_from_le_bytes, u64_to_le_bytes};
use crate::component::ComponentId;
use crate::replication::types::{ErrorCode, ReplicationEncoding};
use crate::replication::wire::{counted_wire, lemma_counted_round_trip, lemma_list_read_from, lemma_u32_bytes, lemma_u32_round_trip, lemma_u64_round_trip, list_wire, put_bytes, put_u32, take_counted, take_list, take_u32, u32_of, u32_wire, u64_wire, Reader};

verus! {

/// 128 to the power of `n`.
pub open spec fn pow128(n: nat) -> nat
    decreases n,
{
    if n == 0 {
        1
    } else {
        128 * pow128((n - 1) as nat)
    }
}

/// A number as base-128 digits, least significant first; every byte but the
/// last has its high bit set.
pub open spec fn leb128_wire(v: u64) -> Seq<u8>
    decreases v,
{
    if v < 128 {
        seq![v as u8]
    } else {
        seq![(v % 128 + 128) as u8] + leb128_wire(v / 128)
    }
}

/// The number that base-128 digits stand for, whatever their high bits.
pub open spec fn leb128_value(s: Seq<u8>) -> nat
    decreases s.len(),
{
    if s.len() == 0 {
        0
    } else {
        (s[0] % 128) as nat + 128 * leb128_value(s.skip(1))
    }
}

/// Byte `i` is the first one with a clear high bit.
pub open spec fn leb128_ends_at(s: Seq<u8>, i: int) -> bool {
    &&& 0 <= i < s.len()
    &&& s[i] < 128
    &&& forall|j: int| 0 <= j < i ==> #[trigger] s[j] >= 128
}

/// A 64-bit number has at most ten base-128 digits.
pub const LEB128_MAX_BYTES: usize = 10;

/// How many bytes the variable-length number at the front takes: up to and
/// with the first one whose high bit is clear, which must be among the first
/// `limit`.
pub open spec fn leb128_len(s: Seq<u8>, limit: nat) -> Option<nat>
    decreases limit,
{
    if limit == 0 || s.len() == 0 {
        None
    } else if s[0] < 128 {
        Some(1)
    } else {
        match leb128_len(s.skip(1), (limit - 1) as nat) {
            None => None,
            Some(n) => Some(n + 1),
        }
    }
}

/// The variable-length number at the front, modulo 2^64, and how many bytes it
/// takes. There is none if no byte among the first ten ends it.
pub open spec fn leb128_parse(s: Seq<u8>) -> Option<(u64, nat)> {
    match leb128_len(s, LEB128_MAX_BYTES as nat) {
        None => None,
        Some(n) => Some(
            ((leb128_value(s.take(n as int)) % 0x1_0000_0000_0000_0000) as u64, n),
        ),
    }
}

proof fn lemma_leb128_len(s: Seq<u8>, limit: nat, i: int)
    requires
        leb128_ends_at(s, i),
        i < limit,
    ensures
        leb128_len(s, limit) == Some((i + 1) as nat),
    decreases limit,
{
    if i > 0 {
        assert(s[0] >= 128);
        let t = s.skip(1);
        assert(leb128_ends_at(t, i - 1)) by {
            assert(t[i - 1] == s[i]);
            assert forall|j: int| 0 <= j < i - 1 implies #[trigger] t[j] >= 128 by {
                assert(t[j] == s[j + 1]);
            }
        }
        lemma_leb128_len(t, (limit - 1) as nat, i - 1);
    }
}

proof fn lemma_leb128_no_end(s: Seq<u8>, limit: nat)
    requires
        forall|j: int| 0 <= j < s.len() && j < limit ==> #[trigger] s[j] >= 128,
    ensures
        leb128_len(s, limit) is None,
    decreases limit,
{
    if limit > 0 && s.len() > 0 {
        assert(s[0] >= 128);
        let t = s.skip(1);
        assert forall|j: int| 0 <= j < t.len() && j < limit - 1 implies #[trigger] t[j] >= 128 by {
            assert(t[j] == s[j + 1]);
        }
        lemma_leb128_no_end(t, (limit - 1) as nat);
    }
}

proof fn lemma_leb128_value_push(s: Seq<u8>, b: u8)
    ensures
        leb128_value(s.push(b)) == leb128_value(s) + (b % 128) * pow128(s.len()),
    decreases s.len(),
{
    let t = s.push(b);
    if s.len() == 0 {
        assert(t.skip(1) =~= Seq::<u8>::empty());
        assert(leb128_value(t.skip(1)) == 0);
        assert(pow128(0) == 1);
    } else {
        assert(t.skip(1) =~= s.skip(1).push(b));
        lemma_leb128_value_push(s.skip(1), b);
        let d = (b % 128) as int;
        let p = pow128((s.len() - 1) as nat) as int;
        let v = leb128_value(s.skip(1)) as int;
        assert(128 * (v + d * p) == 128 * v + d * (128 * p)) by (nonlinear_arith);
        assert(pow128(s.len()) == 128 * p);
    }
}

proof fn lemma_leb128_value_bound(s: Seq<u8>)
    ensures
        leb128_value(s) < pow128(s.len()),
    decreases s.len(),
{
    if s.len() > 0 {
        lemma_leb128_value_bound(s.skip(1));
    }
}

proof fn lemma_pow128_values()
    ensures
        pow128(0) == 1,
        pow128(9) == 0x8000_0000_0000_0000,
        pow128(10) == 0x40_0000_0000_0000_0000,
{
    reveal_with_fuel(pow128, 11);
}

proof fn lemma_pow128_monotone(a: nat, b: nat)
    requires
        a <= b,
    ensures
        pow128(a) <= pow128(b),
        pow128(a) >= 1,
    decreases b,
{
    if b > 0 {
        if a < b {
            lemma_pow128_monotone(a, (b - 1) as nat);
        } else {
            lemma_pow128_monotone((a - 1) as nat, (b - 1) as nat);
        }
    }
}

/// The digits of a number below 128^k are at most `k` bytes, end where they
/// should and stand for the number.
proof fn lemma_leb128_wire_shape(v: u64, k: nat)
    requires
        v < pow128(k),
        k >= 1,
    ensures
        1 <= leb128_wire(v).len() <= k,
        leb128_value(leb128_wire(v)) == v,
        leb128_ends_at(leb128_wire(v), leb128_wire(v).len() - 1),
    decreases v,
{
    let w = leb128_wire(v);
    if v < 128 {
        assert(w.skip(1) =~= Seq::<u8>::empty());
        assert(leb128_value(w.skip(1)) == 0);
        assert(w[0] % 128 == v);
    } else {
        assert(k > 1) by {
            if k == 1 {
                assert(pow128(1) == 128 * pow128(0));
            }
        }
        let tail = leb128_wire(v / 128);
        assert(v / 128 < pow128((k - 1) as nat)) by {
            assert(pow128(k) == 128 * pow128((k - 1) as nat));
        }
        lemma_leb128_wire_shape(v / 128, (k - 1) as nat);
        assert(w.skip(1) =~= tail);
        assert(w[0] == (v % 128 + 128) as u8);
        assert(w[0] % 128 == v % 128);
        assert forall|j: int| 0 <= j < w.len() - 1 implies #[trigger] w[j] >= 128 by {
            if j > 0 {
                assert(w[j] == tail[j - 1]);
            }
        }
        assert(w[w.len() - 1] == tail[tail.len() - 1]);
    }
}

/// Reading back a variable-length number gives the number and its length,
/// also when other bytes follow.
pub proof fn lemma_leb128_round_trip(v: u64, rest: Seq<u8>)
    ensures
        leb128_parse(leb128_wire(v) + rest) == Some((v, leb128_wire(v).len())),
        1 <= leb128_wire(v).len() <= LEB128_MAX_BYTES,
{
    lemma_pow128_values();
    lemma_leb128_wire_shape(v, 10);
    let w = leb128_wire(v);
    let s = w + rest;
    let e = w.len() - 1;
    assert(leb128_ends_at(s, e)) by {
        assert(s[e] == w[e]);
        assert forall|j: int| 0 <= j < e implies #[trigger] s[j] >= 128 by {
            assert(s[j] == w[j]);
        }
    }
    lemma_leb128_len(s, LEB128_MAX_BYTES as nat, e);
    assert(s.take(e + 1) =~= w);
}

/// Appends a number as a variable-length number.
pub fn leb128_encode(value: u64, buf: &mut Vec<u8>)
    ensures
        final(buf)@ == old(buf)@ + leb128_wire(value),
{
    let mut v: u64 = value;
    let ghost start = buf@;
    while v >= 128
        invariant
            buf@ + leb128_wire(v) == start + leb128_wire(value),
        decreases v,
    {
        let ghost before = buf@;
        buf.push((v % 128 + 128) as u8);
        proof {
            assert(buf@ + leb128_wire(v / 128) =~= before + leb128_wire(v));
        }
        v = v / 128;
    }
    let ghost before = buf@;
    buf.push(v as u8);
    proof {
        assert(buf@ =~= before + leb128_wire(v));
    }
}

/// Reads the variable-length number at the front, and tells how many bytes it
/// took.
pub fn leb128_decode(data: &[u8]) -> (out: Result<(u64, usize), ErrorCode>)
    ensures
        match leb128_parse(data@) {
            Some((v, n)) => out matches Ok(r) && r.0 == v && r.1 == n,
            None => out == Err::<(u64, usize), ErrorCode>(ErrorCode::InvalidData),
        },
{
    let mut acc: u128 = 0;
    let mut scale: u64 = 1;
    let mut i: usize = 0;
    proof {
        assert(leb128_value(data@.take(0)) == 0);
    }
    while i < data.len() && i < LEB128_MAX_BYTES
        invariant
            i <= data@.len(),
            i <= LEB128_MAX_BYTES,
            acc == leb128_value(data@.take(i as int)),
            i < LEB128_MAX_BYTES ==> scale == pow128(i as nat),
            forall|j: int| 0 <= j < i ==> #[trigger] data@[j] >= 128,
        decreases data@.len() - i,
    {
        let byte: u8 = data[i];
        let digit: u8 = byte % 128;
        proof {
            let before = data@.take(i as int);
            assert(data@.take(i + 1) =~= before.push(byte));
            lemma_leb128_value_push(before, byte);
            lemma_leb128_value_bound(before);
            lemma_pow128_values();
            lemma_pow128_monotone(i as nat, 9);
            assert(digit * scale <= 127 * 0x8000_0000_0000_0000) by (nonlinear_arith)
                requires
                    digit <= 127,
                    scale <= 0x8000_0000_0000_0000,
            ;
        }
        acc = acc + (digit as u128) * (scale as u128);
        if byte < 128 {
            proof {
                assert(leb128_ends_at(data@, i as int));
                lemma_leb128_len(data@, LEB128_MAX_BYTES as nat, i as int);
                assert(acc as u64 == (acc % 0x1_0000_0000_0000_0000) as u64) by (bit_vector);
            }
            return Ok((acc as u64, i + 1));
        }
        proof {
            assert(pow128((i + 1) as nat) == 128 * pow128(i as nat));
            if i < 9 {
                lemma_pow128_monotone((i + 1) as nat, 9);
            }
        }
        if i + 1 < LEB128_MAX_BYTES {
            scale = scale * 128;
        }
        i = i + 1;
    }
    proof {
        lemma_leb128_no_end(data@, LEB128_MAX_BYTES as nat);
    }
    Err(ErrorCode::InvalidData)
}

/// The first eight bytes, with zeros for the missing ones.
pub open spec fn first_eight(b: Seq<u8>) -> Seq<u8> {
    Seq::new(
        8,
        |i: int|
            if i < b.len() {
                b[i]
            } else {
                0u8
            },
    )
}

/// The first eight bytes as a little-endian number.
pub open spec fn u64_lossy(b: Seq<u8>) -> u64 {
    vstd::bytes::spec_u64_from_le_bytes(first_eight(b))
}

/// The number `u64_lossy` gives back its eight bytes.
pub proof fn lemma_u64_lossy_bytes(b: Seq<u8>)
    ensures
        u64_wire(u64_lossy(b)) == first_eight(b),
{
    vstd::bytes::lemma_auto_spec_u64_to_from_le_bytes();
    assert(first_eight(b).len() == 8);
}

/// The first eight bytes, with zeros for the missing ones, as a little-endian
/// number. Longer input is cut off: this encoding carries scalars.
pub fn bytes_to_u64_lossy(bytes: &[u8]) -> (v: u64)
    ensures
        v == u64_lossy(bytes@),
{
    let mut eight: Vec<u8> = Vec::new();
    let mut i: usize = 0;
    while i < 8
        invariant
            i <= 8,
            eight@ == first_eight(bytes@).take(i as int),
        decreases 8 - i,
    {
        if i < bytes.len() {
            eight.push(bytes[i]);
        } else {
            eight.push(0);
        }
        i = i + 1;
        proof {
            assert(first_eight(bytes@).take(i as int) =~= first_eight(bytes@).take(i - 1).push(
                first_eight(bytes@)[i - 1],
            ));
        }
    }
    proof {
        assert(first_eight(bytes@).take(8) =~= first_eight(bytes@));
    }
    u64_from_le_bytes(eight.as_slice())
}

/// The byte at `i`, or zero behind the end.
pub open spec fn byte_or_zero(s: Seq<u8>, i: int) -> u8 {
    if i < s.len() {
        s[i]
    } else {
        0
    }
}

/// Byte-wise exclusive or, with zeros for the missing bytes of the shorter.
pub open spec fn xor_seq(a: Seq<u8>, b: Seq<u8>) -> Seq<u8> {
    Seq::new(
        if a.len() >= b.len() {
            a.len()
        } else {
            b.len()
        },
        |i: int| byte_or_zero(a, i) ^ byte_or_zero(b, i),
    )
}

/// Byte-wise exclusive or over the longer of the two lengths.
pub fn xor_bytes(a: &[u8], b: &[u8]) -> (out: Vec<u8>)
    ensures
        out@ == xor_seq(a@, b@),
{
    let n: usize = if a.len() >= b.len() {
        a.len()
    } else {
        b.len()
    };
    let mut out: Vec<u8> = Vec::new();
    let mut i: usize = 0;
    while i < n
        invariant
            i <= n,
            n == xor_seq(a@, b@).len(),
            out@ == xor_seq(a@, b@).take(i as int),
        decreases n - i,
    {
        let x: u8 = if i < a.len() {
            a[i]
        } else {
            0
        };
        let y: u8 = if i < b.len() {
            b[i]
        } else {
            0
        };
        out.push(x ^ y);
        i = i + 1;
        proof {
            assert(xor_seq(a@, b@).take(i as int) =~= xor_seq(a@, b@).take(i - 1).push(
                xor_seq(a@, b@)[i - 1],
            ));
        }
    }
    proof {
        assert(xor_seq(a@, b@).take(n as int) =~= xor_seq(a@, b@));
    }
    out
}

/// The destination after its first `n` bytes were replaced by those of `src`.
pub open spec fn overwritten(dst: Seq<u8>, src: Seq<u8>, n: int) -> Seq<u8> {
    src.take(n) + dst.skip(n)
}

/// Copies the first `n` bytes of `src` to the front of `dst`.
pub fn copy_prefix(dst: &mut [u8], src: &[u8], n: usize)
    requires
        n <= old(dst)@.len(),
        n <= src@.len(),
    ensures
        final(dst)@ == overwritten(old(dst)@, src@, n as int),
{
    let ghost start = dst@;
    let mut i: usize = 0;
    while i < n
        invariant
            i <= n,
            n <= src@.len(),
            n <= start.len(),
            dst@ == overwritten(start, src@, i as int),
        decreases n - i,
    {
        dst[i] = src[i];
        proof {
            assert(dst@ =~= overwritten(start, src@, i + 1));
        }
        i = i + 1;
    }
}

/// The caller's own codecs for fields with an opaque encoding: one for each
/// field, which a component type and a field index name. Each peer configures
/// them locally; they do not travel with the schema. A field without a codec, such
/// as one that was learned from a remote handshake only, is to be treated as
/// [`UnboundCodec`] treats it.
pub trait OpaqueCodec {
    /// Outcome and bytes of encoding `value` of a field.
    spec fn encoded(&self, component: ComponentId, field: u32, value: Seq<u8>) -> (ErrorCode, Seq<u8>);

    /// Outcome of decoding `data` of a field into `dst`, and what `dst` then
    /// holds.
    spec fn decoded(&self, component: ComponentId, field: u32, data: Seq<u8>, dst: Seq<u8>) -> (ErrorCode, Seq<u8>);

    /// Appends the encoding of `value`.
    fn encode(&self, component: ComponentId, field: u32, value: &[u8], buf: &mut Vec<u8>) -> (code: ErrorCode)
        ensures
            code == self.encoded(component, field, value@).0,
            final(buf)@ == old(buf)@ + self.encoded(component, field, value@).1,
    ;

    /// Decodes `data` into `dst`.
    fn decode(&self, component: ComponentId, field: u32, data: &[u8], dst: &mut [u8]) -> (code: ErrorCode)
        ensures
            code == self.decoded(component, field, data@, old(dst)@).0,
            final(dst)@ == self.decoded(component, field, data@, old(dst)@).1,
            final(dst)@.len() == old(dst)@.len(),
    ;
}

/// The codec of a field that was learned from a remote handshake only: it
/// writes nothing and refuses everything.
pub struct UnboundCodec;

impl OpaqueCodec for UnboundCodec {
    open spec fn encoded(&self, component: ComponentId, field: u32, value: Seq<u8>) -> (ErrorCode, Seq<u8>) {
        (ErrorCode::InvalidData, Seq::empty())
    }

    open spec fn decoded(&self, component: ComponentId, field: u32, data: Seq<u8>, dst: Seq<u8>) -> (ErrorCode, Seq<u8>) {
        (ErrorCode::InvalidData, dst)
    }

    fn encode(&self, component: ComponentId, field: u32, value: &[u8], buf: &mut Vec<u8>) -> (code: ErrorCode) {
        proof {
            assert(buf@ =~= buf@ + Seq::<u8>::empty());
        }
        ErrorCode::InvalidData
    }

    fn decode(&self, component: ComponentId, field: u32, data: &[u8], dst: &mut [u8]) -> (code: ErrorCode) {
        ErrorCode::InvalidData
    }
}

/// The codec of a field whose bytes go over the wire as they are. What does not
/// fit the destination is refused.
pub struct CopyCodec;

impl OpaqueCodec for CopyCodec {
    open spec fn encoded(&self, component: ComponentId, field: u32, value: Seq<u8>) -> (ErrorCode, Seq<u8>) {
        (ErrorCode::Success, value)
    }

    open spec fn decoded(&self, component: ComponentId, field: u32, data: Seq<u8>, dst: Seq<u8>) -> (ErrorCode, Seq<u8>) {
        if data.len() <= dst.len() {
            (ErrorCode::Success, data + dst.skip(data.len() as int))
        } else {
            (ErrorCode::InvalidData, dst)
        }
    }

    fn encode(&self, component: ComponentId, field: u32, value: &[u8], buf: &mut Vec<u8>) -> (code: ErrorCode) {
        put_bytes(buf, value);
        ErrorCode::Success
    }

    fn decode(&self, component: ComponentId, field: u32, data: &[u8], dst: &mut [u8]) -> (code: ErrorCode) {
        if data.len() > dst.len() {
            return ErrorCode::InvalidData;
        }
        copy_prefix(dst, data, data.len());
        proof {
            assert(dst@ =~= data@ + old(dst)@.skip(data@.len() as int));
        }
        ErrorCode::Success
    }
}

/// One field with a codec of its own, and the codecs of all other fields.
pub struct BoundCodec<C, R> {
    pub component: ComponentId,
    pub field: u32,
    /// The codec of that field.
    pub codec: C,
    /// The codecs of all other fields.
    pub rest: R,
}

impl<C: OpaqueCodec, R: OpaqueCodec> OpaqueCodec for BoundCodec<C, R> {
    open spec fn encoded(&self, component: ComponentId, field: u32, value: Seq<u8>) -> (ErrorCode, Seq<u8>) {
        if component == self.component && field == self.field {
            self.codec.encoded(component, field, value)
        } else {
            self.rest.encoded(component, field, value)
        }
    }

    open spec fn decoded(&self, component: ComponentId, field: u32, data: Seq<u8>, dst: Seq<u8>) -> (
        ErrorCode,
        Seq<u8>,
    ) {
        if component == self.component && field == self.field {
            self.codec.decoded(component, field, data, dst)
        } else {
            self.rest.decoded(component, field, data, dst)
        }
    }

    fn encode(&self, component: ComponentId, field: u32, value: &[u8], buf: &mut Vec<u8>) -> (code: ErrorCode) {
        if component.0 == self.component.0 && field == self.field {
            self.codec.encode(component, field, value, buf)
        } else {
            self.rest.encode(component, field, value, buf)
        }
    }

    fn decode(&self, component: ComponentId, field: u32, data: &[u8], dst: &mut [u8]) -> (code: ErrorCode) {
        if component.0 == self.component.0 && field == self.field {
            self.codec.decode(component, field, data, dst)
        } else {
            self.rest.decode(component, field, data, dst)
        }
    }
}

/// Outcome and bytes of encoding `value` without reference to earlier values.
pub open spec fn field_encoded<C: OpaqueCodec>(
    encoding: ReplicationEncoding,
    codec: &C,
    component: ComponentId,
    field: u32,
    value: Seq<u8>,
) -> (ErrorCode, Seq<u8>) {
    match encoding {
        ReplicationEncoding::Pod | ReplicationEncoding::Serialized
        | ReplicationEncoding::GpuHandle => (ErrorCode::Success, value),
        ReplicationEncoding::DeltaCompressed => (ErrorCode::Success, leb128_wire(u64_lossy(value))),
        ReplicationEncoding::Event => (ErrorCode::Success, Seq::empty()),
        ReplicationEncoding::Opaque => codec.encoded(component, field, value),
    }
}

/// Outcome of decoding `data` into `dst`, and what `dst` then holds.
pub open spec fn field_decoded<C: OpaqueCodec>(
    encoding: ReplicationEncoding,
    codec: &C,
    component: ComponentId,
    field: u32,
    data: Seq<u8>,
    dst: Seq<u8>,
) -> (ErrorCode, Seq<u8>) {
    match encoding {
        ReplicationEncoding::Pod | ReplicationEncoding::Serialized
        | ReplicationEncoding::GpuHandle => if data.len() < dst.len() {
            (ErrorCode::BufferTooSmall { needed: dst.len() as usize }, dst)
        } else {
            (ErrorCode::Success, data.take(dst.len() as int))
        },
        ReplicationEncoding::DeltaCompressed => match leb128_parse(data) {
            None => (ErrorCode::InvalidData, dst),
            Some((v, _)) => (
                ErrorCode::Success,
                overwritten(
                    dst,
                    u64_wire(v),
                    if dst.len() <= 8 {
                        dst.len() as int
                    } else {
                        8
                    },
                ),
            ),
        },
        ReplicationEncoding::Event => (ErrorCode::Success, dst),
        ReplicationEncoding::Opaque => codec.decoded(component, field, data, dst),
    }
}

/// Appends the value of a field in the given encoding. Which field it is matters
/// to an opaque encoding only.
///
/// `DeltaCompressed` writes the absolute value here: the difference to an
/// earlier one needs a [`DeltaCompressor`](crate::replication::compressor::DeltaCompressor).
pub fn encode_field_value<C: OpaqueCodec>(
    encoding: &ReplicationEncoding,
    value_bytes: &[u8],
    buf: &mut Vec<u8>,
    codec: &C,
    component: ComponentId,
    field: u32,
) -> (code: ErrorCode)
    ensures
        code == field_encoded(*encoding, codec, component, field, value_bytes@).0,
        final(buf)@ == old(buf)@ + field_encoded(*encoding, codec, component, field, value_bytes@).1,
{
    match encoding {
        ReplicationEncoding::Pod | ReplicationEncoding::Serialized
        | ReplicationEncoding::GpuHandle => {
            put_bytes(buf, value_bytes);
            ErrorCode::Success
        },
        ReplicationEncoding::DeltaCompressed => {
            leb128_encode(bytes_to_u64_lossy(value_bytes), buf);
            ErrorCode::Success
        },
        ReplicationEncoding::Event => {
            proof {
                assert(buf@ =~= buf@ + Seq::<u8>::empty());
            }
            ErrorCode::Success
        },
        ReplicationEncoding::Opaque => codec.encode(component, field, value_bytes, buf),
    }
}

/// Decodes the value of a field in the given encoding into `value_bytes`.
pub fn decode_field_value<C: OpaqueCodec>(
    encoding: &ReplicationEncoding,
    data: &[u8],
    value_bytes: &mut [u8],
    codec: &C,
    component: ComponentId,
    field: u32,
) -> (code: ErrorCode)
    ensures
        code == field_decoded(*encoding, codec, component, field, data@, old(value_bytes)@).0,
        final(value_bytes)@ == field_decoded(*encoding, codec, component, field, data@, old(value_bytes)@).1,
        final(value_bytes)@.len() == old(value_bytes)@.len(),
{
    let n: usize = value_bytes.len();
    match encoding {
        ReplicationEncoding::Pod | ReplicationEncoding::Serialized
        | ReplicationEncoding::GpuHandle => {
            if data.len() < n {
                return ErrorCode::BufferTooSmall { needed: n };
            }
            copy_prefix(value_bytes, data, n);
            proof {
                assert(value_bytes@ =~= data@.take(n as int));
            }
            ErrorCode::Success
        },
        ReplicationEncoding::DeltaCompressed => {
            let v: u64 = match leb128_decode(data) {
                Ok(r) => r.0,
                Err(e) => {
                    return e;
                },
            };
            let bytes = u64_to_le_bytes(v);
            let take: usize = if n <= 8 {
                n
            } else {
                8
            };
            copy_prefix(value_bytes, bytes.as_slice(), take);
            ErrorCode::Success
        },
        ReplicationEncoding::Event => ErrorCode::Success,
        ReplicationEncoding::Opaque => codec.decode(component, field, data, value_bytes),
    }
}

/// Copies a plain value straight into a buffer that is long enough, and
/// returns how many bytes it wrote.
pub fn encode_pod_raw(value_bytes: &[u8], buf: &mut [u8]) -> (written: usize)
    requires
        value_bytes@.len() <= old(buf)@.len(),
    ensures
        written == value_bytes@.len(),
        final(buf)@ == value_bytes@ + old(buf)@.skip(value_bytes@.len() as int),
{
    let n: usize = value_bytes.len();
    copy_prefix(buf, value_bytes, n);
    proof {
        assert(value_bytes@.take(n as int) =~= value_bytes@);
    }
    n
}

/// Decoding what a stateless encoding wrote gives the value back: whole for
/// the plain encodings, and in its first eight bytes for the compressed one.
pub proof fn lemma_field_value_round_trip<C: OpaqueCodec>(
    encoding: ReplicationEncoding,
    codec: &C,
    component: ComponentId,
    field: u32,
    value: Seq<u8>,
    dst: Seq<u8>,
)
    requires
        dst.len() == value.len(),
        encoding != ReplicationEncoding::Event,
        encoding != ReplicationEncoding::Opaque,
        encoding == ReplicationEncoding::DeltaCompressed ==> value.len() <= 8,
    ensures
        field_encoded(encoding, codec, component, field, value).0 == ErrorCode::Success,
        field_decoded(encoding, codec, component, field, field_encoded(encoding, codec, component, field, value).1, dst) == (
            ErrorCode::Success,
            value,
        ),
{
    if encoding == ReplicationEncoding::DeltaCompressed {
        let v = u64_lossy(value);
        lemma_leb128_round_trip(v, Seq::empty());
        assert(leb128_wire(v) + Seq::<u8>::empty() =~= leb128_wire(v));
        lemma_u64_lossy_bytes(value);
        assert(overwritten(dst, u64_wire(v), dst.len() as int) =~= value);
    } else {
        assert(value.take(value.len() as int) =~= value);
    }
}

/// The bytes that describe a set of component types: their counted numbers.
pub open spec fn archetype_key_wire(ids: Seq<ComponentId>) -> Seq<u8> {
    counted_wire(|c: ComponentId| u32_wire(c.0), ids)
}

/// One component number.
pub open spec fn take_component_id(s: Seq<u8>) -> Option<(ComponentId, Seq<u8>)> {
    match take_u32(s) {
        None => None,
        Some((x, rest)) => Some((ComponentId(x), rest)),
    }
}

/// The component types that `s` describes, if it is such a description from
/// its first byte to its last. Component number 0 is reserved: no type has it,
/// and no description names it.
pub open spec fn parse_archetype_key(s: Seq<u8>) -> Option<Seq<ComponentId>> {
    match take_counted(|s: Seq<u8>| take_component_id(s), s) {
        None => None,
        Some((ids, rest)) => if rest.len() == 0 && !ids.contains(ComponentId(0)) {
            Some(ids)
        } else {
            None
        },
    }
}

/// Reading a description of component types back gives the same types in the
/// same order.
pub proof fn lemma_archetype_key_round_trip(ids: Seq<ComponentId>)
    requires
        ids.len() <= u32::MAX,
        !ids.contains(ComponentId(0)),
    ensures
        parse_archetype_key(archetype_key_wire(ids)) == Some(ids),
{
    let wire = |c: ComponentId| u32_wire(c.0);
    let item = |s: Seq<u8>| take_component_id(s);
    assert forall|i: int, r: Seq<u8>| 0 <= i < ids.len() implies #[trigger] item(wire(ids[i]) + r) == Some(
        (ids[i], r),
    ) by {
        lemma_u32_round_trip(ids[i].0, r);
    }
    lemma_counted_round_trip(item, wire, ids, Seq::empty());
    assert(archetype_key_wire(ids) + Seq::<u8>::empty() =~= archetype_key_wire(ids));
}

/// Bytes that are read as a description of component types are the description
/// that is written of them, and of no others.
pub proof fn lemma_archetype_key_bytes(s: Seq<u8>)
    requires
        parse_archetype_key(s) is Some,
    ensures
        s == archetype_key_wire(parse_archetype_key(s)->0),
{
    let wire = |c: ComponentId| u32_wire(c.0);
    let item = |s: Seq<u8>| take_component_id(s);
    lemma_u32_bytes();
    assert forall|r: Seq<u8>| (#[trigger] item(r)) matches Some((x, rest)) implies r == wire(item(r).unwrap().0)
        + item(r).unwrap().1 by {
        assert(u32_wire(u32_of(r.take(4))) == r.take(4));
        assert(r =~= r.take(4) + r.skip(4));
    }
    let (count, rest) = take_u32(s)->0;
    let xs = lemma_list_read_from(item, wire, count as nat, Seq::empty(), rest);
    let ids = parse_archetype_key(s)->0;
    assert(ids =~= xs);
    let left = take_list(item, count as nat, Seq::empty(), rest).unwrap().1;
    assert(rest =~= list_wire(wire, xs));
    assert(u32_wire(u32_of(s.take(4))) == s.take(4));
    assert(s =~= s.take(4) + s.skip(4));
}

/// Writes a set of component types as the blob of a spawned entity.
pub fn encode_archetype_key(ids: &[ComponentId]) -> (bytes: Vec<u8>)
    ensures
        bytes@ == archetype_key_wire(ids@),
{
    let ghost wire = |c: ComponentId| u32_wire(c.0);
    let mut buf: Vec<u8> = Vec::new();
    put_u32(&mut buf, ids.len() as u32);
    let ghost start = buf@;
    let mut i: usize = 0;
    proof {
        assert(start =~= start + list_wire(wire, ids@.subrange(0, 0)));
    }
    while i < ids.len()
        invariant
            i <= ids@.len(),
            wire == (|c: ComponentId| u32_wire(c.0)),
            buf@ == start + list_wire(wire, ids@.subrange(0, i as int)),
        decreases ids@.len() - i,
    {
        put_u32(&mut buf, ids[i].0);
        proof {
            let upto = ids@.subrange(0, i + 1);
            assert(upto.drop_last() =~= ids@.subrange(0, i as int));
            assert(upto.last() == ids@[i as int]);
            assert(buf@ =~= start + list_wire(wire, upto));
        }
        i = i + 1;
    }
    proof {
        assert(ids@.subrange(0, ids@.len() as int) =~= ids@);
        assert(buf@ =~= archetype_key_wire(ids@));
    }
    buf
}

/// Reads a set of component types back. Returns `None` if the bytes are not
/// exactly such a description, or if they name the reserved number 0.
pub fn decode_archetype_key(bytes: &[u8]) -> (out: Option<Vec<ComponentId>>)
    ensures
        match parse_archetype_key(bytes@) {
            None => out is None,
            Some(ids) => out matches Some(v) && v@ == ids,
        },
{
    let ghost item = |s: Seq<u8>| take_component_id(s);
    let ghost goal = take_counted(item, bytes@);
    let mut r = Reader::new(bytes);
    let count: u32 = match r.read_u32() {
        None => {
            return None;
        },
        Some(n) => n,
    };
    let mut ids: Vec<ComponentId> = Vec::new();
    let mut i: u32 = 0;
    while i < count
        invariant
            i <= count,
            r.well_formed(),
            item == (|s: Seq<u8>| take_component_id(s)),
            goal == take_counted(item, bytes@),
            goal == take_list(item, (count - i) as nat, ids@, r.rest()),
        decreases count - i,
    {
        match r.read_u32() {
            None => {
                return None;
            },
            Some(x) => {
                ids.push(ComponentId(x));
            },
        }
        i = i + 1;
    }
    if r.remaining() != 0 {
        return None;
    }
    let mut k: usize = 0;
    while k < ids.len()
        invariant
            k <= ids@.len(),
            goal == take_counted(item, bytes@),
            item == (|s: Seq<u8>| take_component_id(s)),
            goal matches Some((list, rest)) && list == ids@ && rest.len() == 0,
            forall|j: int| 0 <= j < k ==> ids@[j] != ComponentId(0),
        decreases ids@.len() - k,
    {
        if ids[k].0 == 0 {
            proof {
                assert(ids@[k as int] == ComponentId(0));
            }
            return None;
        }
        k = k + 1;
    }
    Some(ids)
}

/// A number takes the bytes of its groups of seven bits, lowest first, each but the
/// last marked by the high bit. The bytes are read up to the first without the mark;
/// without one among the first bytes there is no number.
pub proof fn lemma_leb128_form(v: u64, s: Seq<u8>)
    ensures
        leb128_wire(v)[0] % 128 == v % 128,
        leb128_wire(v)[0] >= 128 <==> v >= 128,
        v < 128 ==> leb128_wire(v).len() == 1,
        v >= 128 ==> leb128_wire(v).skip(1) == leb128_wire(v / 128),
        leb128_parse(s) is None <==> forall|i: int|
            0 <= i < s.len() && i < LEB128_MAX_BYTES ==> #[trigger] s[i] >= 128,
        leb128_parse(s) matches Some((x, n)) ==> {
            &&& 1 <= n <= s.len()
            &&& n <= LEB128_MAX_BYTES
            &&& s[n - 1] < 128
            &&& forall|i: int| 0 <= i < n - 1 ==> #[trigger] s[i] >= 128
            &&& x % 128 == s[0] % 128
        },
{
    if v >= 128 {
        assert(leb128_wire(v).skip(1) =~= leb128_wire(v / 128));
    }
    let limit = LEB128_MAX_BYTES as nat;
    if exists|i: int| 0 <= i < s.len() && i < limit && #[trigger] s[i] < 128 {
        lemma_first_end(s, limit as int);
        let i = choose|i: int| #[trigger] leb128_ends_at(s, i) && i < limit;
        lemma_leb128_len(s, limit, i);
        let head = s.take(i + 1);
        let value = leb128_value(head);
        assert(head[0] == s[0]);
        assert(value == (s[0] % 128) as nat + 128 * leb128_value(head.skip(1)));
        assert((value % 0x1_0000_0000_0000_0000) % 128 == value % 128) by (nonlinear_arith);
        assert(value % 128 == s[0] % 128) by (nonlinear_arith)
            requires
                value == (s[0] % 128) as nat + 128 * leb128_value(head.skip(1)),
        ;
    } else {
        assert forall|j: int| 0 <= j < s.len() && j < limit implies #[trigger] s[j] >= 128 by {}
        lemma_leb128_no_end(s, limit);
    }
}

proof fn lemma_first_end(s: Seq<u8>, n: int)
    requires
        exists|i: int| 0 <= i < s.len() && i < n && #[trigger] s[i] < 128,
    ensures
        exists|i: int| #[trigger] leb128_ends_at(s, i) && i < n,
    decreases n,
{
    let i = choose|i: int| 0 <= i < s.len() && i < n && #[trigger] s[i] < 128;
    if !leb128_ends_at(s, i) {
        let j = choose|j: int| 0 <= j < i && #[trigger] s[j] < 128;
        assert(s[j] < 128 && j < i);
        lemma_first_end(s, i);
        let k = choose|k: int| #[trigger] leb128_ends_at(s, k) && k < i;
        assert(leb128_ends_at(s, k));
    }
}

/// What the encodings do to the bytes of a field: plain ones keep them, and want at
/// least as many back as the field has; events have none; compressed ones are a number
/// of the first eight bytes. A refused field stays as it was.
pub proof fn lemma_encodings<C: OpaqueCodec>(
    encoding: ReplicationEncoding,
    codec: &C,
    component: ComponentId,
    field: u32,
    data: Seq<u8>,
    dst: Seq<u8>,
)
    ensures
        ({
            let written = field_encoded(encoding, codec, component, field, data);
            let read = field_decoded(encoding, codec, component, field, data, dst);
            let plain = encoding == ReplicationEncoding::Pod || encoding == ReplicationEncoding::Serialized || encoding
                == ReplicationEncoding::GpuHandle;
            &&& plain ==> written == (ErrorCode::Success, data)
            &&& plain && data.len() < dst.len() ==> read == (
                ErrorCode::BufferTooSmall { needed: dst.len() as usize },
                dst,
            )
            &&& plain && data.len() >= dst.len() ==> read == (ErrorCode::Success, data.take(dst.len() as int))
            &&& encoding == ReplicationEncoding::Event ==> written.0 == ErrorCode::Success && written.1.len() == 0
                && read == (ErrorCode::Success, dst)
            &&& encoding == ReplicationEncoding::DeltaCompressed ==> {
                &&& written.0 == ErrorCode::Success
                &&& read.0 == ErrorCode::Success || read == (ErrorCode::InvalidData, dst)
                &&& read.0 == ErrorCode::InvalidData <==> forall|i: int|
                    0 <= i < data.len() && i < LEB128_MAX_BYTES ==> #[trigger] data[i] >= 128
                &&& read.1.len() == dst.len()
                &&& forall|i: int| 8 <= i < dst.len() ==> #[trigger] read.1[i] == dst[i]
            }
            &&& encoding == ReplicationEncoding::Opaque ==> written == codec.encoded(component, field, data) && read
                == codec.decoded(component, field, data, dst)
        }),
{
    lemma_leb128_form(0, data);
    vstd::bytes::lemma_auto_spec_u64_to_from_le_bytes();
    if let Some((v, n)) = leb128_parse(data) {
        lemma_u64_round_trip(v, Seq::empty());
    }
}

/// The number of a field is that of its first eight bytes, lowest first; missing bytes
/// count as zero.
pub proof fn lemma_number_of_bytes(b: Seq<u8>, i: int)
    requires
        0 <= i < 8,
    ensures
        u64_wire(u64_lossy(b)).len() == 8,
        u64_wire(u64_lossy(b))[i] == (if i < b.len() {
            b[i]
        } else {
            0
        }),
{
    lemma_u64_lossy_bytes(b);
}

/// The difference of two byte strings has a bit set exactly where they differ, the
/// shorter one taken as continued with zeros.
pub proof fn lemma_difference_bits(a: Seq<u8>, b: Seq<u8>, i: int)
    requires
        0 <= i < a.len() || 0 <= i < b.len(),
    ensures
        xor_seq(a, b).len() == vstd::math::max(a.len() as int, b.len() as int),
        i < a.len() && i < b.len() ==> xor_seq(a, b)[i] == a[i] ^ b[i],
        i >= b.len() ==> xor_seq(a, b)[i] == a[i],
        i >= a.len() ==> xor_seq(a, b)[i] == b[i],
{
    let x = byte_or_zero(a, i);
    let y = byte_or_zero(b, i);
    assert(x ^ 0 == x) by (bit_vector);
    assert(0 ^ y == y) by (bit_vector);
}

/// The description of component types is their number and then each of them, four
/// bytes apiece.
pub proof fn lemma_archetype_key_form(ids: Seq<ComponentId>, i: int)
    requires
        0 <= i < ids.len(),
    ensures
        archetype_key_wire(ids).len() == 4 + 4 * ids.len(),
        archetype_key_wire(ids).take(4) == u32_wire(ids.len() as u32),
        archetype_key_wire(ids).subrange(4 + 4 * i, 8 + 4 * i) == u32_wire(ids[i].0),
{
    let wire = |c: ComponentId| u32_wire(c.0);
    lemma_words_wire(ids, i);
    let list = list_wire(wire, ids);
    let all = archetype_key_wire(ids);
    assert(all.take(4) =~= u32_wire(ids.len() as u32));
    assert(all.subrange(4 + 4 * i, 8 + 4 * i) =~= list.subrange(4 * i, 4 + 4 * i));
}

proof fn lemma_words_wire(ids: Seq<ComponentId>, i: int)
    requires
        0 <= i < ids.len(),
    ensures
        list_wire(|c: ComponentId| u32_wire(c.0), ids).len() == 4 * ids.len(),
        list_wire(|c: ComponentId| u32_wire(c.0), ids).subrange(4 * i, 4 + 4 * i) == u32_wire(ids[i].0),
    decreases ids.len(),
{
    let wire = |c: ComponentId| u32_wire(c.0);
    let init = ids.drop_last();
    let all = list_wire(wire, ids);
    let before = list_wire(wire, init);
    if init.len() > 0 {
        lemma_words_wire(init, if i < init.len() { i } else { 0 });
    }
    assert(all == before + u32_wire(ids.last().0));
    if i < init.len() {
        assert(init[i] == ids[i]);
        assert(all.subrange(4 * i, 4 + 4 * i) =~= before.subrange(4 * i, 4 + 4 * i));
    } else {
        assert(all.subrange(4 * i, 4 + 4 * i) =~= u32_wire(ids[i].0));
    }
}

/// A bare frame number, which stands in the place of a description where none
/// was made, is not read as one.
///
/// This holds of the frames that fit 32 bits. The bytes of a later frame whose
/// low word is 1 are also those of a description of one component type, whose
/// number is the high word: the format does not tell the two apart.
pub proof fn lemma_frame_is_no_archetype_key(frame: u64)
    requires
        frame < 0x1_0000_0000,
    ensures
        parse_archetype_key(u64_wire(frame)) is None,
{
    let item = |s: Seq<u8>| take_component_id(s);
    let bytes = u64_wire(frame);
    lemma_u64_words(frame);
    if take_counted(item, bytes) is Some {
        let (count, rest) = take_u32(bytes)->0;
        assert(rest.len() == 4);
        if count == 0 {
            assert(take_list(item, 0, Seq::<ComponentId>::empty(), rest) == Some(
                (Seq::<ComponentId>::empty(), rest),
            ));
        } else {
            assert(item(rest) == Some((ComponentId(0), rest.skip(4))));
            let one = Seq::<ComponentId>::empty().push(ComponentId(0));
            assert(rest.skip(4).len() == 0);
            if count == 1 {
                assert(take_list(item, 0, one, rest.skip(4)) == Some((one, rest.skip(4))));
                assert(one[0] == ComponentId(0));
            } else {
                assert(item(rest.skip(4)) is None);
                assert(take_list(item, (count - 1) as nat, one, rest.skip(4)) is None);
            }
        }
    }
}

/// The bytes of a number that fits 32 bits: its low word, then zeros.
proof fn lemma_u64_words(x: u64)
    requires
        x < 0x1_0000_0000,
    ensures
        u64_wire(x).len() == 8,
        u64_wire(x).skip(4).len() == 4,
        u32_of(u64_wire(x).skip(4)) == 0,
{
    vstd::bytes::lemma_auto_spec_u64_to_from_le_bytes();
    vstd::bytes::spec_u64_to_le_bytes_to_open(x);
    let high = u64_wire(x).skip(4);
    assert(x < 0x1_0000_0000 ==> ((x >> 32) & 0xff) == 0 && ((x >> 40) & 0xff) == 0 && ((x >> 48) & 0xff) == 0 && ((x
        >> 56) & 0xff) == 0) by (bit_vector);
    assert(high =~= seq![0u8, 0u8, 0u8, 0u8]);
    assert(0u32 | 0u32 << 8 | 0u32 << 16 | 0u32 << 24 == 0) by (bit_vector);
}

} // verus!

//! Compression of slowly changing fields as differences from the last value.

use vstd::prelude::*;
use vstd::bytes::u64_to_le_bytes;
use vstd::slice::{slice_subrange, slice_to_vec};
use crate::component::ComponentId;
use crate::entity::Entity;
use crate::replication::encoding::{byte_or_zero, bytes_to_u64_lossy, copy_prefix, first_eight, leb128_decode, leb128_encode, leb128_parse, leb128_wire, lemma_leb128_round_trip, lemma_u64_lossy_bytes, overwritten, u64_lossy, xor_bytes, xor_seq};
use crate::replication::types::ErrorCode;
use crate::replication::wire::u64_wire;

verus! {

/// One replicated field of one entity: handle, component type, field index.
pub type FieldKey = (Entity, ComponentId, u32);

/// Caches, per field, the value that the connection last saw.
///
/// Sender and receiver must pass the same values in the same order for their
/// caches to stay in step. A compressor stands for a map from fields to their
/// last value, which is its view.
pub struct DeltaCompressor {
    last: Vec<(FieldKey, Vec<u8>)>,
}

impl View for DeltaCompressor {
    type V = Map<FieldKey, Seq<u8>>;

    closed spec fn view(&self) -> Map<FieldKey, Seq<u8>> {
        Map::new(
            |k: FieldKey| exists|i: int| 0 <= i < self.last@.len() && (#[trigger] self.last@[i]).0 == k,
            |k: FieldKey| self.last@[self.position(k)].1@,
        )
    }
}

/// The cached value of a field, or nothing if there is none.
pub open spec fn baseline(cache: Map<FieldKey, Seq<u8>>, key: FieldKey) -> Seq<u8> {
    if cache.contains_key(key) {
        cache[key]
    } else {
        Seq::empty()
    }
}

/// The bytes that stand for `value` against the baseline `prev`.
pub open spec fn difference_wire(value: Seq<u8>, prev: Seq<u8>) -> Seq<u8> {
    leb128_wire(u64_lossy(xor_seq(value, prev)))
}

/// What `dst` holds after the difference `diff` was applied to `prev`.
pub open spec fn difference_applied(diff: u64, prev: Seq<u8>, dst: Seq<u8>) -> Seq<u8> {
    let width = if dst.len() <= 8 {
        dst.len() as int
    } else {
        8
    };
    let result = xor_seq(u64_wire(diff).take(width), prev);
    overwritten(
        dst,
        result,
        if dst.len() <= result.len() {
            dst.len() as int
        } else {
            result.len() as int
        },
    )
}

impl Default for DeltaCompressor {
    fn default() -> (c: DeltaCompressor)
        ensures
            c.well_formed(),
            c@ == Map::<FieldKey, Seq<u8>>::empty(),
    {
        DeltaCompressor::new()
    }
}

impl DeltaCompressor {
    spec fn position(&self, k: FieldKey) -> int {
        choose|i: int| 0 <= i < self.last@.len() && (#[trigger] self.last@[i]).0 == k
    }

    /// No field is cached twice.
    pub closed spec fn well_formed(&self) -> bool {
        forall|i: int, j: int|
            0 <= i < self.last@.len() && 0 <= j < self.last@.len() && (#[trigger] self.last@[i]).0 == (
            #[trigger] self.last@[j]).0 ==> i == j
    }

    /// A compressor that has seen no value.
    pub fn new() -> (c: DeltaCompressor)
        ensures
            c.well_formed(),
            c@ == Map::<FieldKey, Seq<u8>>::empty(),
    {
        let c = DeltaCompressor { last: Vec::new() };
        proof {
            assert(c@ =~= Map::<FieldKey, Seq<u8>>::empty());
        }
        c
    }

    fn find(&self, key: FieldKey) -> (at: Option<usize>)
        requires
            self.well_formed(),
        ensures
            match at {
                Some(i) => {
                    &&& i < self.last@.len()
                    &&& self.last@[i as int].0 == key
                    &&& self@.contains_key(key)
                    &&& self@[key] == self.last@[i as int].1@
                },
                None => {
                    &&& !self@.contains_key(key)
                    &&& forall|i: int| 0 <= i < self.last@.len() ==> (#[trigger] self.last@[i]).0 != key
                },
            },
    {
        let mut i: usize = 0;
        while i < self.last.len()
            invariant
                i <= self.last@.len(),
                self.well_formed(),
                forall|j: int| 0 <= j < i ==> (#[trigger] self.last@[j]).0 != key,
            decreases self.last@.len() - i,
        {
            let k: FieldKey = self.last[i].0;
            if k.0 == key.0 && k.1 == key.1 && k.2 == key.2 {
                proof {
                    assert(self.last@[i as int].0 == key);
                    assert(self.position(key) == i);
                }
                return Some(i);
            }
            i = i + 1;
        }
        None
    }

    /// A copy of the cached value of a field; empty if there is none.
    fn previous(&self, key: FieldKey) -> (prev: Vec<u8>)
        requires
            self.well_formed(),
        ensures
            prev@ == baseline(self@, key),
    {
        match self.find(key) {
            Some(i) => slice_to_vec(self.last[i].1.as_slice()),
            None => Vec::new(),
        }
    }

    /// Sets the cached value of a field without sending anything, for example
    /// once a full snapshot gave both peers a fresh baseline.
    pub fn acknowledge(&mut self, key: FieldKey, value_bytes: &[u8])
        requires
            old(self).well_formed(),
        ensures
            final(self).well_formed(),
            final(self)@ == old(self)@.insert(key, value_bytes@),
    {
        let ghost before = *self;
        let value = slice_to_vec(value_bytes);
        match self.find(key) {
            Some(i) => {
                self.last[i] = (key, value);
                proof {
                    assert forall|j: int| 0 <= j < self.last@.len() implies (#[trigger] self.last@[j]).0
                        == before.last@[j].0 by {}
                    assert forall|k: FieldKey| #[trigger] before@.insert(key, value_bytes@).contains_key(k)
                        <==> self@.contains_key(k) by {
                        if before@.contains_key(k) {
                            let j = before.position(k);
                            assert(self.last@[j].0 == k);
                        }
                        if self@.contains_key(k) {
                            let j = self.position(k);
                            assert(before.last@[j].0 == k);
                        }
                        assert(self.last@[i as int].0 == key);
                    }
                    assert forall|k: FieldKey| #[trigger] self@.contains_key(k) implies self@[k]
                        == before@.insert(key, value_bytes@)[k] by {
                        let j = self.position(k);
                        assert(self.last@[j].0 == k);
                        assert(before.last@[j].0 == k);
                        assert(before.position(k) == j);
                    }
                    assert(self@ =~= before@.insert(key, value_bytes@));
                }
            },
            None => {
                self.last.push((key, value));
                proof {
                    let n = before.last@.len() as int;
                    assert forall|j: int| 0 <= j < n implies #[trigger] self.last@[j] == before.last@[j] by {}
                    assert forall|k: FieldKey| #[trigger] before@.insert(key, value_bytes@).contains_key(k)
                        <==> self@.contains_key(k) by {
                        if before@.contains_key(k) {
                            let j = before.position(k);
                            assert(self.last@[j].0 == k);
                        }
                        if self@.contains_key(k) {
                            let j = self.position(k);
                            if j < n {
                                assert(before.last@[j].0 == k);
                            }
                        }
                        assert(self.last@[n].0 == key);
                    }
                    assert forall|k: FieldKey| #[trigger] self@.contains_key(k) implies self@[k]
                        == before@.insert(key, value_bytes@)[k] by {
                        let j = self.position(k);
                        assert(self.last@[j].0 == k);
                        if j < n {
                            assert(before.last@[j].0 == k);
                            assert(before.position(k) == j);
                        }
                    }
                    assert(self@ =~= before@.insert(key, value_bytes@));
                }
            },
        }
    }

    /// Drops the cached value of a field, so that the next value starts from
    /// an all-zero baseline again.
    pub fn forget(&mut self, key: FieldKey)
        requires
            old(self).well_formed(),
        ensures
            final(self).well_formed(),
            final(self)@ == old(self)@.remove(key),
    {
        let ghost before = *self;
        match self.find(key) {
            None => {
                proof {
                    assert(self@ =~= before@.remove(key));
                }
            },
            Some(i) => {
                self.last.remove(i);
                proof {
                    let at = i as int;
                    assert forall|j: int| 0 <= j < self.last@.len() implies #[trigger] self.last@[j]
                        == before.last@[if j < at { j } else { j + 1 }] by {}
                    assert forall|a: int, b: int|
                        0 <= a < self.last@.len() && 0 <= b < self.last@.len() && (
                        #[trigger] self.last@[a]).0 == (#[trigger] self.last@[b]).0 implies a == b by {
                        let a0 = if a < at { a } else { a + 1 };
                        let b0 = if b < at { b } else { b + 1 };
                        assert(before.last@[a0].0 == before.last@[b0].0);
                    }
                    assert forall|k: FieldKey| #[trigger] before@.remove(key).contains_key(k)
                        <==> self@.contains_key(k) by {
                        if before@.contains_key(k) && k != key {
                            let j0 = before.position(k);
                            assert(before.last@[j0].0 == k);
                            let j = if j0 < at { j0 } else { j0 - 1 };
                            assert(self.last@[j].0 == k);
                        }
                        if self@.contains_key(k) {
                            let j = self.position(k);
                            assert(self.last@[j].0 == k);
                            let j0 = if j < at { j } else { j + 1 };
                            assert(before.last@[j0].0 == k);
                        }
                    }
                    assert forall|k: FieldKey| #[trigger] self@.contains_key(k) implies self@[k]
                        == before@.remove(key)[k] by {
                        let j = self.position(k);
                        assert(self.last@[j].0 == k);
                        let j0 = if j < at { j } else { j + 1 };
                        assert(before.last@[j0].0 == k);
                        assert(before.position(k) == j0);
                    }
                    assert(self@ =~= before@.remove(key));
                }
            },
        }
    }

    /// Appends `value_bytes` as a difference from the cached value of `key`,
    /// an all-zero one if there is none, and caches the new value.
    pub fn encode(&mut self, key: FieldKey, value_bytes: &[u8], buf: &mut Vec<u8>)
        requires
            old(self).well_formed(),
        ensures
            final(self).well_formed(),
            final(self)@ == old(self)@.insert(key, value_bytes@),
            final(buf)@ == old(buf)@ + difference_wire(value_bytes@, baseline(old(self)@, key)),
    {
        let prev = self.previous(key);
        let diff = xor_bytes(value_bytes, prev.as_slice());
        leb128_encode(bytes_to_u64_lossy(diff.as_slice()), buf);
        self.acknowledge(key, value_bytes);
    }

    /// Applies the difference in `data` to the cached value of `key`, writes
    /// the result to `value_bytes` and caches it.
    pub fn decode(&mut self, key: FieldKey, data: &[u8], value_bytes: &mut [u8]) -> (code: ErrorCode)
        requires
            old(self).well_formed(),
        ensures
            final(self).well_formed(),
            match leb128_parse(data@) {
                None => {
                    &&& code == ErrorCode::InvalidData
                    &&& final(self)@ == old(self)@
                    &&& final(value_bytes)@ == old(value_bytes)@
                },
                Some((diff, _)) => {
                    &&& code == ErrorCode::Success
                    &&& final(value_bytes)@ == difference_applied(
                        diff,
                        baseline(old(self)@, key),
                        old(value_bytes)@,
                    )
                    &&& final(self)@ == old(self)@.insert(key, final(value_bytes)@)
                },
            },
    {
        let diff: u64 = match leb128_decode(data) {
            Ok(r) => r.0,
            Err(e) => {
                return e;
            },
        };
        proof {
            vstd::bytes::lemma_auto_spec_u64_to_from_le_bytes();
        }
        let n: usize = value_bytes.len();
        let bytes = u64_to_le_bytes(diff);
        let width: usize = if n <= 8 {
            n
        } else {
            8
        };
        let prev = self.previous(key);
        let result = xor_bytes(slice_subrange(bytes.as_slice(), 0, width), prev.as_slice());
        let copied: usize = if n <= result.len() {
            n
        } else {
            result.len()
        };
        proof {
            assert(u64_wire(diff).subrange(0, width as int) =~= u64_wire(diff).take(width as int));
        }
        copy_prefix(value_bytes, result.as_slice(), copied);
        self.acknowledge(key, value_bytes);
        ErrorCode::Success
    }
}

/// Applying the difference that stands for `value` against a baseline to that
/// same baseline gives `value` back, for values of at most eight bytes.
pub proof fn lemma_difference_round_trip(value: Seq<u8>, prev: Seq<u8>, dst: Seq<u8>)
    requires
        value.len() <= 8,
        dst.len() == value.len(),
    ensures
        leb128_parse(difference_wire(value, prev)) matches Some((diff, n)) && difference_applied(
            diff,
            prev,
            dst,
        ) == value,
{
    let x = xor_seq(value, prev);
    let diff = u64_lossy(x);
    lemma_leb128_round_trip(diff, Seq::empty());
    assert(leb128_wire(diff) + Seq::<u8>::empty() =~= leb128_wire(diff));
    lemma_u64_lossy_bytes(x);
    let width = value.len() as int;
    let result = xor_seq(u64_wire(diff).take(width), prev);
    assert forall|i: int| 0 <= i < width implies result[i] == value[i] by {
        let v = value[i];
        let p = byte_or_zero(prev, i);
        assert(first_eight(x)[i] == v ^ p);
        assert(u64_wire(diff).take(width)[i] == v ^ p);
        assert((v ^ p) ^ p == v) by (bit_vector);
    }
    assert(overwritten(dst, result, width) =~= value);
}

/// Of a longer value the first eight bytes come back; what lies behind them is as in the
/// baseline, as far as that goes, and otherwise as it was.
pub proof fn lemma_long_difference(value: Seq<u8>, prev: Seq<u8>, dst: Seq<u8>)
    requires
        value.len() > 8,
        dst.len() == value.len(),
    ensures
        leb128_parse(difference_wire(value, prev)) matches Some((diff, n)) && {
            let out = difference_applied(diff, prev, dst);
            &&& out.len() == dst.len()
            &&& forall|i: int| 0 <= i < 8 ==> #[trigger] out[i] == value[i]
            &&& forall|i: int| 8 <= i < dst.len() && i < prev.len() ==> #[trigger] out[i] == prev[i]
            &&& forall|i: int| 8 <= i < dst.len() && prev.len() <= i ==> #[trigger] out[i] == dst[i]
        },
{
    let x = xor_seq(value, prev);
    let diff = u64_lossy(x);
    lemma_leb128_round_trip(diff, Seq::empty());
    assert(leb128_wire(diff) + Seq::<u8>::empty() =~= leb128_wire(diff));
    lemma_u64_lossy_bytes(x);
    let head = u64_wire(diff).take(8);
    let result = xor_seq(head, prev);
    let out = difference_applied(diff, prev, dst);
    assert forall|i: int| 0 <= i < 8 implies #[trigger] out[i] == value[i] by {
        let v = value[i];
        let p = byte_or_zero(prev, i);
        assert(first_eight(x)[i] == v ^ p);
        assert(head[i] == v ^ p);
        assert((v ^ p) ^ p == v) by (bit_vector);
        assert(out[i] == result[i]);
    }
    assert forall|i: int| 8 <= i < dst.len() && i < prev.len() implies #[trigger] out[i] == prev[i] by {
        let p = prev[i];
        assert(0u8 ^ p == p) by (bit_vector);
        assert(out[i] == result[i]);
    }
}

/// Two peers whose caches agree on a field stay in step: the receiver decodes
/// the value that the sender encoded, and both then cache that value.
pub proof fn lemma_peers_stay_in_step(
    sender: Map<FieldKey, Seq<u8>>,
    receiver: Map<FieldKey, Seq<u8>>,
    key: FieldKey,
    value: Seq<u8>,
    dst: Seq<u8>,
)
    requires
        baseline(sender, key) == baseline(receiver, key),
        value.len() <= 8,
        dst.len() == value.len(),
    ensures
        leb128_parse(difference_wire(value, baseline(sender, key))) matches Some((diff, n)) && {
            let decoded = difference_applied(diff, baseline(receiver, key), dst);
            &&& decoded == value
            &&& baseline(sender.insert(key, value), key) == baseline(receiver.insert(key, decoded), key)
        },
{
    lemma_difference_round_trip(value, baseline(sender, key), dst);
}

/// The first value of a field is sent as its absolute value.
pub proof fn lemma_first_value_is_absolute(cache: Map<FieldKey, Seq<u8>>, key: FieldKey, value: Seq<u8>)
    requires
        !cache.contains_key(key),
    ensures
        difference_wire(value, baseline(cache, key)) == leb128_wire(u64_lossy(value)),
{
    let x = xor_seq(value, Seq::empty());
    assert forall|i: int| 0 <= i < value.len() implies x[i] == value[i] by {
        let v = value[i];
        assert(v ^ 0u8 == v) by (bit_vector);
    }
    assert(x =~= value);
}

/// A value that equals the cached one is sent as a single zero byte.
pub proof fn lemma_repeated_value_is_one_byte(cache: Map<FieldKey, Seq<u8>>, key: FieldKey)
    requires
        cache.contains_key(key),
    ensures
        difference_wire(cache[key], baseline(cache, key)) == seq![0u8],
{
    let v = cache[key];
    let x = xor_seq(v, v);
    assert forall|i: int| 0 <= i < 8 implies first_eight(x)[i] == 0 by {
        if i < v.len() {
            let b = v[i];
            assert(b ^ b == 0) by (bit_vector);
        }
    }
    vstd::bytes::spec_u64_to_le_bytes_to_open(0);
    let zero = 0u64;
    assert(zero & 0xff == 0 && (zero >> 8) & 0xff == 0 && (zero >> 16) & 0xff == 0 && (zero >> 24) & 0xff
        == 0 && (zero >> 32) & 0xff == 0 && (zero >> 40) & 0xff == 0 && (zero >> 48) & 0xff == 0 && (zero
        >> 56) & 0xff == 0) by (bit_vector)
        requires
            zero == 0,
    ;
    assert(first_eight(x) =~= u64_wire(0));
    vstd::bytes::lemma_auto_spec_u64_to_from_le_bytes();
    assert(u64_lossy(x) == 0);
}

/// Caching a value for one field leaves what is sent for every other field as
/// it was.
pub proof fn lemma_fields_are_independent(
    cache: Map<FieldKey, Seq<u8>>,
    key: FieldKey,
    other: FieldKey,
    cached: Seq<u8>,
    value: Seq<u8>,
)
    requires
        key != other,
    ensures
        difference_wire(value, baseline(cache.insert(key, cached), other)) == difference_wire(
            value,
            baseline(cache, other),
        ),
        difference_wire(value, baseline(cache.remove(key), other)) == difference_wire(
            value,
            baseline(cache, other),
        ),
{
}

} // verus!

//! Component values whose fields can be replicated.

use vstd::prelude::*;
use vstd::bytes::u64_from_le_bytes;
use crate::component::ComponentId;
use crate::replication::types::ErrorCode;
use crate::replication::wire::{lemma_u32_bytes, put_u32, put_u64, u32_from_bytes, u32_of, u32_wire, u64_wire};

verus! {

/// A component value of a [`World`](crate::world::World) as replication sees
/// it: a default, and fields that can be written as bytes and read back.
///
/// Which field of which component type is meant is named by its index and the
/// type's id. The bytes may come from an untrusted peer.
pub trait ReplicatedValue: Sized {
    /// The value of a fresh row.
    spec fn default_of(cid: ComponentId) -> Self;

    /// The bytes of a field, if it can be written.
    spec fn field_bytes(&self, cid: ComponentId, field: u32) -> Option<Seq<u8>>;

    /// This value with a field replaced by what the bytes stand for.
    spec fn with_field(self, cid: ComponentId, field: u32, bytes: Seq<u8>) -> Result<Self, ErrorCode>;

    /// The bytes of the whole value.
    spec fn whole_bytes(&self) -> Seq<u8>;

    /// The value of a fresh row of component type `cid`.
    fn replicate_default(cid: ComponentId) -> (v: Self)
        ensures
            v == Self::default_of(cid),
    ;

    /// The bytes of a field.
    fn encode_field(&self, cid: ComponentId, field: u32) -> (out: Result<Vec<u8>, ErrorCode>)
        ensures
            match self.field_bytes(cid, field) {
                Some(b) => out matches Ok(v) && v@ == b,
                None => out is Err,
            },
    ;

    /// Replaces a field by what the bytes stand for.
    fn decode_field(&mut self, cid: ComponentId, field: u32, bytes: &[u8]) -> (out: Result<(), ErrorCode>)
        ensures
            match (*old(self)).with_field(cid, field, bytes@) {
                Ok(v) => out == Ok::<(), ErrorCode>(()) && *final(self) == v,
                Err(e) => out == Err::<(), ErrorCode>(e) && *final(self) == *old(self),
            },
    ;

    /// The bytes of the whole value.
    fn encode_whole(&self) -> (bytes: Vec<u8>)
        ensures
            bytes@ == self.whole_bytes(),
    ;
}

/// A component that is one 32-bit word: every field is the word itself.
impl ReplicatedValue for u32 {
    open spec fn default_of(cid: ComponentId) -> u32 {
        0
    }

    open spec fn field_bytes(&self, cid: ComponentId, field: u32) -> Option<Seq<u8>> {
        Some(u32_wire(*self))
    }

    open spec fn with_field(self, cid: ComponentId, field: u32, bytes: Seq<u8>) -> Result<u32, ErrorCode> {
        if bytes.len() == 4 {
            Ok(u32_of(bytes))
        } else {
            Err(ErrorCode::InvalidData)
        }
    }

    open spec fn whole_bytes(&self) -> Seq<u8> {
        u32_wire(*self)
    }

    fn replicate_default(cid: ComponentId) -> (v: u32) {
        0
    }

    fn encode_field(&self, cid: ComponentId, field: u32) -> (out: Result<Vec<u8>, ErrorCode>) {
        Ok(self.encode_whole())
    }

    fn decode_field(&mut self, cid: ComponentId, field: u32, bytes: &[u8]) -> (out: Result<(), ErrorCode>) {
        if bytes.len() != 4 {
            return Err(ErrorCode::InvalidData);
        }
        *self = u32_from_bytes(bytes);
        Ok(())
    }

    fn encode_whole(&self) -> (bytes: Vec<u8>) {
        let mut buf: Vec<u8> = Vec::new();
        put_u32(&mut buf, *self);
        proof {
            assert(buf@ =~= u32_wire(*self));
        }
        buf
    }
}

/// A component that is one 64-bit word: every field is the word itself.
impl ReplicatedValue for u64 {
    open spec fn default_of(cid: ComponentId) -> u64 {
        0
    }

    open spec fn field_bytes(&self, cid: ComponentId, field: u32) -> Option<Seq<u8>> {
        Some(u64_wire(*self))
    }

    open spec fn with_field(self, cid: ComponentId, field: u32, bytes: Seq<u8>) -> Result<u64, ErrorCode> {
        if bytes.len() == 8 {
            Ok(vstd::bytes::spec_u64_from_le_bytes(bytes))
        } else {
            Err(ErrorCode::InvalidData)
        }
    }

    open spec fn whole_bytes(&self) -> Seq<u8> {
        u64_wire(*self)
    }

    fn replicate_default(cid: ComponentId) -> (v: u64) {
        0
    }

    fn encode_field(&self, cid: ComponentId, field: u32) -> (out: Result<Vec<u8>, ErrorCode>) {
        Ok(self.encode_whole())
    }

    fn decode_field(&mut self, cid: ComponentId, field: u32, bytes: &[u8]) -> (out: Result<(), ErrorCode>) {
        if bytes.len() != 8 {
            return Err(ErrorCode::InvalidData);
        }
        *self = u64_from_le_bytes(bytes);
        Ok(())
    }

    fn encode_whole(&self) -> (bytes: Vec<u8>) {
        let mut buf: Vec<u8> = Vec::new();
        put_u64(&mut buf, *self);
        proof {
            assert(buf@ =~= u64_wire(*self));
        }
        buf
    }
}

/// A component of two 32-bit words, which are its fields 0 and 1.
impl ReplicatedValue for (u32, u32) {
    open spec fn default_of(cid: ComponentId) -> (u32, u32) {
        (0, 0)
    }

    open spec fn field_bytes(&self, cid: ComponentId, field: u32) -> Option<Seq<u8>> {
        if field == 0 {
            Some(u32_wire(self.0))
        } else if field == 1 {
            Some(u32_wire(self.1))
        } else {
            None
        }
    }

    open spec fn with_field(self, cid: ComponentId, field: u32, bytes: Seq<u8>) -> Result<(u32, u32), ErrorCode> {
        if bytes.len() != 4 || field > 1 {
            Err(ErrorCode::InvalidData)
        } else if field == 0 {
            Ok((u32_of(bytes), self.1))
        } else {
            Ok((self.0, u32_of(bytes)))
        }
    }

    open spec fn whole_bytes(&self) -> Seq<u8> {
        u32_wire(self.0) + u32_wire(self.1)
    }

    fn replicate_default(cid: ComponentId) -> (v: (u32, u32)) {
        (0, 0)
    }

    fn encode_field(&self, cid: ComponentId, field: u32) -> (out: Result<Vec<u8>, ErrorCode>) {
        if field > 1 {
            return Err(ErrorCode::InvalidData);
        }
        let word: u32 = if field == 0 {
            self.0
        } else {
            self.1
        };
        Ok(word.encode_whole())
    }

    fn decode_field(&mut self, cid: ComponentId, field: u32, bytes: &[u8]) -> (out: Result<(), ErrorCode>) {
        if bytes.len() != 4 || field > 1 {
            return Err(ErrorCode::InvalidData);
        }
        let word: u32 = u32_from_bytes(bytes);
        *self = if field == 0 {
            (word, self.1)
        } else {
            (self.0, word)
        };
        Ok(())
    }

    fn encode_whole(&self) -> (bytes: Vec<u8>) {
        let mut buf: Vec<u8> = Vec::new();
        put_u32(&mut buf, self.0);
        put_u32(&mut buf, self.1);
        proof {
            assert(buf@ =~= u32_wire(self.0) + u32_wire(self.1));
        }
        buf
    }
}

/// A word takes exactly four bytes and has them back; it starts as zero.
pub proof fn lemma_word_fields(v: u32, cid: ComponentId, field: u32, bytes: Seq<u8>)
    ensures
        v.with_field(cid, field, bytes) is Ok <==> bytes.len() == 4,
        v.with_field(cid, field, bytes) matches Ok(w) ==> w.field_bytes(cid, field) == Some(bytes),
        v.with_field(cid, field, bytes) matches Err(e) ==> e == ErrorCode::InvalidData,
        v.field_bytes(cid, field) == Some(v.whole_bytes()),
        v.whole_bytes() == u32_wire(v),
        u32::default_of(cid) == 0,
{
    lemma_u32_bytes();
    if bytes.len() == 4 {
        assert(u32_wire(u32_of(bytes)) == bytes);
    }
}

/// A double word takes exactly eight bytes and has them back; it starts as zero.
pub proof fn lemma_double_word_fields(v: u64, cid: ComponentId, field: u32, bytes: Seq<u8>)
    ensures
        v.with_field(cid, field, bytes) is Ok <==> bytes.len() == 8,
        v.with_field(cid, field, bytes) matches Ok(w) ==> w.field_bytes(cid, field) == Some(bytes),
        v.with_field(cid, field, bytes) matches Err(e) ==> e == ErrorCode::InvalidData,
        v.field_bytes(cid, field) == Some(v.whole_bytes()),
        v.whole_bytes() == u64_wire(v),
        u64::default_of(cid) == 0,
{
    vstd::bytes::lemma_auto_spec_u64_to_from_le_bytes();
}

/// A pair has two fields, its words. Writing one gives its bytes back and leaves the
/// other alone.
pub proof fn lemma_pair_fields(v: (u32, u32), cid: ComponentId, field: u32, bytes: Seq<u8>, other: u32)
    ensures
        v.with_field(cid, field, bytes) is Ok <==> bytes.len() == 4 && field <= 1,
        v.with_field(cid, field, bytes) matches Ok(w) ==> w.field_bytes(cid, field) == Some(bytes) && (other != field
            ==> w.field_bytes(cid, other) == v.field_bytes(cid, other)),
        v.with_field(cid, field, bytes) matches Err(e) ==> e == ErrorCode::InvalidData,
        v.field_bytes(cid, 0) == Some(u32_wire(v.0)),
        v.field_bytes(cid, 1) == Some(u32_wire(v.1)),
        v.field_bytes(cid, field) is Some <==> field <= 1,
        v.whole_bytes() == u32_wire(v.0) + u32_wire(v.1),
        <(u32, u32) as ReplicatedValue>::default_of(cid) == (0u32, 0u32),
{
    lemma_u32_bytes();
    if bytes.len() == 4 {
        assert(u32_wire(u32_of(bytes)) == bytes);
    }
}

} // verus!

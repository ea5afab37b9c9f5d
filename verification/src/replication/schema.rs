//! Replication schemas, their registry and the connection handshake.

use vstd::prelude::*;
use crate::component::ComponentId;
use crate::replication::types::{ErrorCode, EventChannel, ReplicationCondition, ReplicationEncoding};
use crate::replication::wire::{counted_wire, lemma_counted_reads_on, lemma_counted_round_trip, lemma_u32_reads_on, lemma_u32_round_trip, list_wire, put_u32, reads_on, take_counted, take_list, take_u32, u32_wire, Reader};

verus! {

/// One replicated field of a component type.
#[derive(Copy, Clone, Debug, PartialEq, Eq, Structural)]
pub struct FieldDescriptor {
    pub field_index: u32,
    pub encoding: ReplicationEncoding,
    pub condition: ReplicationCondition,
    pub event_channel: Option<EventChannel>,
    /// Whether this peer can read and write the field in its own components.
    /// Event fields, and fields that were learned from a remote handshake
    /// only, are not accessible.
    pub accessible: bool,
}

/// The replicated fields of one component type.
#[derive(Clone, Debug)]
pub struct ReplicationSchema {
    pub component_type: ComponentId,
    pub fields: Vec<FieldDescriptor>,
    /// Whether this peer registered the component type itself and so can make
    /// rows of it.
    pub local: bool,
}

/// The value of a [`ReplicationSchema`].
pub struct SchemaModel {
    pub component_type: ComponentId,
    pub fields: Seq<FieldDescriptor>,
    pub local: bool,
}

impl View for ReplicationSchema {
    type V = SchemaModel;

    open spec fn view(&self) -> SchemaModel {
        SchemaModel {
            component_type: self.component_type,
            fields: self.fields@,
            local: self.local,
        }
    }
}

/// Declares the replicated fields of a component type one after another.
#[derive(Clone, Debug)]
pub struct SchemaBuilder {
    pub component_type: ComponentId,
    pub fields: Vec<FieldDescriptor>,
}

impl SchemaBuilder {
    /// Declares a replicated field, numbered in declaration order.
    pub fn field(
        self,
        _name: &str,
        encoding: ReplicationEncoding,
        condition: ReplicationCondition,
    ) -> (b: SchemaBuilder)
        requires
            self.fields@.len() <= u32::MAX,
        ensures
            b.component_type == self.component_type,
            b.fields@ == self.fields@.push(
                (FieldDescriptor {
                    field_index: self.fields@.len() as u32,
                    encoding,
                    condition,
                    event_channel: None,
                    accessible: true,
                }),
            ),
    {
        let mut b = self;
        let field_index: u32 = b.fields.len() as u32;
        b.fields.push(
            FieldDescriptor {
                field_index,
                encoding,
                condition,
                event_channel: None,
                accessible: true,
            },
        );
        b
    }

    /// Declares the component itself as one replicated field.
    pub fn whole_field(
        self,
        name: &str,
        encoding: ReplicationEncoding,
        condition: ReplicationCondition,
    ) -> (b: SchemaBuilder)
        requires
            self.fields@.len() <= u32::MAX,
        ensures
            b.component_type == self.component_type,
            b.fields@ == self.fields@.push(
                (FieldDescriptor {
                    field_index: self.fields@.len() as u32,
                    encoding,
                    condition,
                    event_channel: None,
                    accessible: true,
                }),
            ),
    {
        self.field(name, encoding, condition)
    }

    /// Declares an event field.
    pub fn event(
        self,
        _name: &str,
        condition: ReplicationCondition,
        channel: EventChannel,
    ) -> (b: SchemaBuilder)
        requires
            self.fields@.len() <= u32::MAX,
        ensures
            b.component_type == self.component_type,
            b.fields@ == self.fields@.push(
                (FieldDescriptor {
                    field_index: self.fields@.len() as u32,
                    encoding: ReplicationEncoding::Event,
                    condition,
                    event_channel: Some(channel),
                    accessible: false,
                }),
            ),
    {
        let mut b = self;
        let field_index: u32 = b.fields.len() as u32;
        b.fields.push(
            FieldDescriptor {
                field_index,
                encoding: ReplicationEncoding::Event,
                condition,
                event_channel: Some(channel),
                accessible: false,
            },
        );
        b
    }

    /// The finished schema of a component type that this peer registered.
    pub fn build(self) -> (schema: ReplicationSchema)
        ensures
            schema@ == (SchemaModel {
                component_type: self.component_type,
                fields: self.fields@,
                local: true,
            }),
    {
        ReplicationSchema { component_type: self.component_type, fields: self.fields, local: true }
    }
}

/// The schemas of all replicated component types, at most one per type.
///
/// A registry stands for the list of its schemas in the order in which their
/// types were first registered, which is its view.
#[derive(Clone, Debug)]
pub struct ReplicationRegistry {
    schemas: Vec<ReplicationSchema>,
}

/// The contents of a list of schemas.
pub open spec fn schema_models(v: Seq<ReplicationSchema>) -> Seq<SchemaModel> {
    v.map_values(|s: ReplicationSchema| s@)
}

impl View for ReplicationRegistry {
    type V = Seq<SchemaModel>;

    closed spec fn view(&self) -> Seq<SchemaModel> {
        schema_models(self.schemas@)
    }
}

/// No component type has two schemas.
pub open spec fn unique_types(reg: Seq<SchemaModel>) -> bool {
    forall|i: int, j: int|
        0 <= i < reg.len() && 0 <= j < reg.len() && (#[trigger] reg[i]).component_type == (
        #[trigger] reg[j]).component_type ==> i == j
}

/// Some schema is of component type `cid`.
pub open spec fn has_type(reg: Seq<SchemaModel>, cid: ComponentId) -> bool {
    exists|i: int| 0 <= i < reg.len() && (#[trigger] reg[i]).component_type == cid
}

/// Where the schema of component type `cid` stands.
pub open spec fn type_index(reg: Seq<SchemaModel>, cid: ComponentId) -> int {
    choose|i: int| 0 <= i < reg.len() && (#[trigger] reg[i]).component_type == cid
}

/// The schema of component type `cid`, if there is one.
pub open spec fn schema_of(reg: Seq<SchemaModel>, cid: ComponentId) -> Option<SchemaModel> {
    if has_type(reg, cid) {
        Some(reg[type_index(reg, cid)])
    } else {
        None
    }
}

/// Replaces the schema of the same type, or adds the schema at the end.
pub open spec fn upsert(reg: Seq<SchemaModel>, m: SchemaModel) -> Seq<SchemaModel> {
    if has_type(reg, m.component_type) {
        reg.update(type_index(reg, m.component_type), m)
    } else {
        reg.push(m)
    }
}

/// The registry that adding the schemas one by one makes.
pub open spec fn collapse(xs: Seq<SchemaModel>) -> Seq<SchemaModel>
    decreases xs.len(),
{
    if xs.len() == 0 {
        Seq::empty()
    } else {
        upsert(collapse(xs.drop_last()), xs.last())
    }
}

/// A list without two schemas of one type is already a registry.
pub proof fn lemma_collapse_unique(xs: Seq<SchemaModel>)
    requires
        unique_types(xs),
    ensures
        collapse(xs) == xs,
    decreases xs.len(),
{
    if xs.len() > 0 {
        let init = xs.drop_last();
        assert forall|i: int, j: int|
            0 <= i < init.len() && 0 <= j < init.len() && (#[trigger] init[i]).component_type == (
            #[trigger] init[j]).component_type implies i == j by {
            assert(xs[i].component_type == xs[j].component_type);
        }
        lemma_collapse_unique(init);
        if has_type(init, xs.last().component_type) {
            let i = type_index(init, xs.last().component_type);
            assert(xs[i].component_type == xs[xs.len() - 1].component_type);
        }
        assert(init.push(xs.last()) =~= xs);
    } else {
        assert(collapse(xs) =~= xs);
    }
}

/// The wire code of an encoding.
pub open spec fn encoding_code(e: ReplicationEncoding) -> u8 {
    match e {
        ReplicationEncoding::Pod => 0,
        ReplicationEncoding::Serialized => 1,
        ReplicationEncoding::GpuHandle => 2,
        ReplicationEncoding::DeltaCompressed => 3,
        ReplicationEncoding::Event => 4,
        ReplicationEncoding::Opaque => 5,
    }
}

/// The wire code of a condition.
pub open spec fn condition_code(c: ReplicationCondition) -> u8 {
    match c {
        ReplicationCondition::Always => 0,
        ReplicationCondition::OwnerOnly => 1,
        ReplicationCondition::SkipOwner => 2,
        ReplicationCondition::SimulatedOnly => 3,
        ReplicationCondition::AutonomousOnly => 4,
        ReplicationCondition::InitialOnly => 5,
        ReplicationCondition::ServerAuthority => 6,
        ReplicationCondition::ClientAuthority => 7,
        ReplicationCondition::ServerToClient => 8,
        ReplicationCondition::ClientToServer => 9,
        ReplicationCondition::Multicast => 10,
    }
}

/// The wire code of an optional event channel.
pub open spec fn event_channel_code(ch: Option<EventChannel>) -> u8 {
    match ch {
        None => 0,
        Some(EventChannel::ReliableOrdered) => 1,
        Some(EventChannel::Unreliable) => 2,
    }
}

/// The encoding with the given wire code.
pub open spec fn encoding_of_code(v: u8) -> Option<ReplicationEncoding> {
    if v == 0 {
        Some(ReplicationEncoding::Pod)
    } else if v == 1 {
        Some(ReplicationEncoding::Serialized)
    } else if v == 2 {
        Some(ReplicationEncoding::GpuHandle)
    } else if v == 3 {
        Some(ReplicationEncoding::DeltaCompressed)
    } else if v == 4 {
        Some(ReplicationEncoding::Event)
    } else if v == 5 {
        Some(ReplicationEncoding::Opaque)
    } else {
        None
    }
}

/// The condition with the given wire code.
pub open spec fn condition_of_code(v: u8) -> Option<ReplicationCondition> {
    if v == 0 {
        Some(ReplicationCondition::Always)
    } else if v == 1 {
        Some(ReplicationCondition::OwnerOnly)
    } else if v == 2 {
        Some(ReplicationCondition::SkipOwner)
    } else if v == 3 {
        Some(ReplicationCondition::SimulatedOnly)
    } else if v == 4 {
        Some(ReplicationCondition::AutonomousOnly)
    } else if v == 5 {
        Some(ReplicationCondition::InitialOnly)
    } else if v == 6 {
        Some(ReplicationCondition::ServerAuthority)
    } else if v == 7 {
        Some(ReplicationCondition::ClientAuthority)
    } else if v == 8 {
        Some(ReplicationCondition::ServerToClient)
    } else if v == 9 {
        Some(ReplicationCondition::ClientToServer)
    } else if v == 10 {
        Some(ReplicationCondition::Multicast)
    } else {
        None
    }
}

/// The optional event channel with the given wire code.
pub open spec fn event_channel_of_code(v: u8) -> Option<Option<EventChannel>> {
    if v == 0 {
        Some(None)
    } else if v == 1 {
        Some(Some(EventChannel::ReliableOrdered))
    } else if v == 2 {
        Some(Some(EventChannel::Unreliable))
    } else {
        None
    }
}

/// The wire code of an encoding.
pub fn encoding_to_u8(enc: &ReplicationEncoding) -> (b: u8)
    ensures
        b == encoding_code(*enc),
{
    match enc {
        ReplicationEncoding::Pod => 0,
        ReplicationEncoding::Serialized => 1,
        ReplicationEncoding::GpuHandle => 2,
        ReplicationEncoding::DeltaCompressed => 3,
        ReplicationEncoding::Event => 4,
        ReplicationEncoding::Opaque => 5,
    }
}

/// The encoding with the given wire code.
pub fn u8_from_encoding(v: u8) -> (out: Result<ReplicationEncoding, ErrorCode>)
    ensures
        match encoding_of_code(v) {
            Some(x) => out matches Ok(e) && e == x,
            None => out matches Err(e) && e == ErrorCode::InvalidData,
        },
{
    match v {
        0 => Ok(ReplicationEncoding::Pod),
        1 => Ok(ReplicationEncoding::Serialized),
        2 => Ok(ReplicationEncoding::GpuHandle),
        3 => Ok(ReplicationEncoding::DeltaCompressed),
        4 => Ok(ReplicationEncoding::Event),
        5 => Ok(ReplicationEncoding::Opaque),
        _ => Err(ErrorCode::InvalidData),
    }
}

/// The wire code of a condition.
pub fn condition_to_u8(c: &ReplicationCondition) -> (b: u8)
    ensures
        b == condition_code(*c),
{
    match c {
        ReplicationCondition::Always => 0,
        ReplicationCondition::OwnerOnly => 1,
        ReplicationCondition::SkipOwner => 2,
        ReplicationCondition::SimulatedOnly => 3,
        ReplicationCondition::AutonomousOnly => 4,
        ReplicationCondition::InitialOnly => 5,
        ReplicationCondition::ServerAuthority => 6,
        ReplicationCondition::ClientAuthority => 7,
        ReplicationCondition::ServerToClient => 8,
        ReplicationCondition::ClientToServer => 9,
        ReplicationCondition::Multicast => 10,
    }
}

/// The condition with the given wire code.
pub fn u8_from_condition(v: u8) -> (out: Result<ReplicationCondition, ErrorCode>)
    ensures
        match condition_of_code(v) {
            Some(x) => out matches Ok(c) && c == x,
            None => out matches Err(e) && e == ErrorCode::InvalidData,
        },
{
    match v {
        0 => Ok(ReplicationCondition::Always),
        1 => Ok(ReplicationCondition::OwnerOnly),
        2 => Ok(ReplicationCondition::SkipOwner),
        3 => Ok(ReplicationCondition::SimulatedOnly),
        4 => Ok(ReplicationCondition::AutonomousOnly),
        5 => Ok(ReplicationCondition::InitialOnly),
        6 => Ok(ReplicationCondition::ServerAuthority),
        7 => Ok(ReplicationCondition::ClientAuthority),
        8 => Ok(ReplicationCondition::ServerToClient),
        9 => Ok(ReplicationCondition::ClientToServer),
        10 => Ok(ReplicationCondition::Multicast),
        _ => Err(ErrorCode::InvalidData),
    }
}

/// The wire code of an optional event channel.
pub fn event_channel_to_u8(ch: &Option<EventChannel>) -> (b: u8)
    ensures
        b == event_channel_code(*ch),
{
    match ch {
        None => 0,
        Some(EventChannel::ReliableOrdered) => 1,
        Some(EventChannel::Unreliable) => 2,
    }
}

/// The optional event channel with the given wire code.
pub fn u8_from_event_channel(v: u8) -> (out: Result<Option<EventChannel>, ErrorCode>)
    ensures
        match event_channel_of_code(v) {
            Some(x) => out matches Ok(ch) && ch == x,
            None => out matches Err(e) && e == ErrorCode::InvalidData,
        },
{
    match v {
        0 => Ok(None),
        1 => Ok(Some(EventChannel::ReliableOrdered)),
        2 => Ok(Some(EventChannel::Unreliable)),
        _ => Err(ErrorCode::InvalidData),
    }
}

/// The bytes of a field: its index and its three codes.
pub open spec fn field_wire(f: FieldDescriptor) -> Seq<u8> {
    u32_wire(f.field_index) + seq![
        encoding_code(f.encoding),
        condition_code(f.condition),
        event_channel_code(f.event_channel),
    ]
}

/// The field with the given index and codes, as a remote peer sees it.
pub open spec fn field_of_codes(index: u32, e: u8, c: u8, ch: u8) -> Option<FieldDescriptor> {
    match (encoding_of_code(e), condition_of_code(c), event_channel_of_code(ch)) {
        (Some(encoding), Some(condition), Some(event_channel)) => Some(
            FieldDescriptor {
                field_index: index,
                encoding,
                condition,
                event_channel,
                accessible: false,
            },
        ),
        _ => None,
    }
}

/// The field at the front and the rest.
pub open spec fn take_field(s: Seq<u8>) -> Option<(FieldDescriptor, Seq<u8>)> {
    match take_u32(s) {
        None => None,
        Some((index, r)) => if r.len() < 3 {
            None
        } else {
            match field_of_codes(index, r[0], r[1], r[2]) {
                None => None,
                Some(f) => Some((f, r.skip(3))),
            }
        },
    }
}

/// The bytes of a schema: its component type and its counted fields.
pub open spec fn schema_wire(m: SchemaModel) -> Seq<u8> {
    u32_wire(m.component_type.0) + counted_wire(|f: FieldDescriptor| field_wire(f), m.fields)
}

/// The schema at the front and the rest.
pub open spec fn take_schema(s: Seq<u8>) -> Option<(SchemaModel, Seq<u8>)> {
    match take_u32(s) {
        None => None,
        Some((cid, rest)) => match take_counted(|s: Seq<u8>| take_field(s), rest) {
            None => None,
            Some((fields, rest)) => Some(
                (SchemaModel { component_type: ComponentId(cid), fields, local: false }, rest),
            ),
        },
    }
}

/// The handshake message: the counted schemas.
pub open spec fn handshake_wire(reg: Seq<SchemaModel>) -> Seq<u8> {
    counted_wire(|m: SchemaModel| schema_wire(m), reg)
}

/// The registry that a handshake message stands for. A later schema of the
/// same component type replaces an earlier one; bytes behind the message do
/// not matter.
pub open spec fn parse_handshake(s: Seq<u8>) -> Option<Seq<SchemaModel>> {
    match take_counted(|s: Seq<u8>| take_schema(s), s) {
        None => None,
        Some((xs, _)) => Some(collapse(xs)),
    }
}

/// The field as a remote peer sees it: without local access.
pub open spec fn remote_field(f: FieldDescriptor) -> FieldDescriptor {
    FieldDescriptor { accessible: false, ..f }
}

/// The schema as a remote peer sees it: layout only.
pub open spec fn remote_schema(m: SchemaModel) -> SchemaModel {
    SchemaModel {
        component_type: m.component_type,
        fields: m.fields.map_values(|f: FieldDescriptor| remote_field(f)),
        local: false,
    }
}

/// The registry as a remote peer sees it.
pub open spec fn remote_view(reg: Seq<SchemaModel>) -> Seq<SchemaModel> {
    reg.map_values(|m: SchemaModel| remote_schema(m))
}

proof fn lemma_field_round_trip(f: FieldDescriptor, rest: Seq<u8>)
    requires
        !f.accessible,
    ensures
        take_field(field_wire(f) + rest) == Some((f, rest)),
{
    let codes = seq![
        encoding_code(f.encoding),
        condition_code(f.condition),
        event_channel_code(f.event_channel),
    ];
    let r = codes + rest;
    assert(field_wire(f) + rest =~= u32_wire(f.field_index) + r);
    lemma_u32_round_trip(f.field_index, r);
    assert(r[0] == codes[0] && r[1] == codes[1] && r[2] == codes[2]);
    assert(r.skip(3) =~= rest);
    assert(field_of_codes(f.field_index, r[0], r[1], r[2]) == Some(f));
}

proof fn lemma_schema_round_trip(m: SchemaModel, rest: Seq<u8>)
    requires
        m.fields.len() <= u32::MAX,
        !m.local,
        forall|i: int| 0 <= i < m.fields.len() ==> !(#[trigger] m.fields[i]).accessible,
    ensures
        take_schema(schema_wire(m) + rest) == Some((m, rest)),
{
    let wire = |f: FieldDescriptor| field_wire(f);
    let item = |s: Seq<u8>| take_field(s);
    let fields = counted_wire(wire, m.fields) + rest;
    assert(schema_wire(m) + rest =~= u32_wire(m.component_type.0) + fields);
    lemma_u32_round_trip(m.component_type.0, fields);
    assert forall|i: int, r: Seq<u8>| 0 <= i < m.fields.len() implies #[trigger] item(
        wire(m.fields[i]) + r,
    ) == Some((m.fields[i], r)) by {
        lemma_field_round_trip(m.fields[i], r);
    }
    lemma_counted_round_trip(item, wire, m.fields, rest);
}

/// The bytes of a list of fields do not tell whether they are accessible.
proof fn lemma_fields_wire_remote(fields: Seq<FieldDescriptor>)
    ensures
        list_wire(
            |f: FieldDescriptor| field_wire(f),
            fields.map_values(|f: FieldDescriptor| remote_field(f)),
        ) == list_wire(|f: FieldDescriptor| field_wire(f), fields),
    decreases fields.len(),
{
    if fields.len() > 0 {
        let remote = fields.map_values(|f: FieldDescriptor| remote_field(f));
        lemma_fields_wire_remote(fields.drop_last());
        assert(remote.drop_last() =~= fields.drop_last().map_values(|f: FieldDescriptor| remote_field(f)));
        assert(remote.last() == remote_field(fields.last()));
    }
}

/// The bytes of a list of schemas tell the layout only.
proof fn lemma_schemas_wire_remote(reg: Seq<SchemaModel>)
    ensures
        list_wire(|m: SchemaModel| schema_wire(m), remote_view(reg)) == list_wire(
            |m: SchemaModel| schema_wire(m),
            reg,
        ),
    decreases reg.len(),
{
    if reg.len() > 0 {
        let remote = remote_view(reg);
        lemma_schemas_wire_remote(reg.drop_last());
        assert(remote.drop_last() =~= remote_view(reg.drop_last()));
        assert(remote.last() == remote_schema(reg.last()));
        lemma_fields_wire_remote(reg.last().fields);
    }
}

/// A peer that reads a handshake message learns the layout of every schema of
/// the registry that sent it.
pub proof fn lemma_handshake_round_trip(reg: Seq<SchemaModel>)
    requires
        unique_types(reg),
        reg.len() <= u32::MAX,
        forall|i: int| 0 <= i < reg.len() ==> (#[trigger] reg[i]).fields.len() <= u32::MAX,
    ensures
        parse_handshake(handshake_wire(reg)) == Some(remote_view(reg)),
        take_counted(|s: Seq<u8>| take_schema(s), handshake_wire(reg)) == Some((remote_view(reg), Seq::<u8>::empty())),
{
    let wire = |m: SchemaModel| schema_wire(m);
    let item = |s: Seq<u8>| take_schema(s);
    let remote = remote_view(reg);
    lemma_schemas_wire_remote(reg);
    assert forall|i: int, r: Seq<u8>| 0 <= i < remote.len() implies #[trigger] item(wire(remote[i]) + r)
        == Some((remote[i], r)) by {
        lemma_schema_round_trip(remote[i], r);
    }
    lemma_counted_round_trip(item, wire, remote, Seq::empty());
    assert(counted_wire(wire, remote) + Seq::<u8>::empty() =~= handshake_wire(reg));
    assert forall|i: int, j: int|
        0 <= i < remote.len() && 0 <= j < remote.len() && (#[trigger] remote[i]).component_type == (
        #[trigger] remote[j]).component_type implies i == j by {
        assert(reg[i].component_type == reg[j].component_type);
    }
    lemma_collapse_unique(remote);
}

proof fn lemma_field_reads_on(s: Seq<u8>, t: Seq<u8>)
    requires
        take_field(s) is Some,
    ensures
        take_field(s + t) == Some((take_field(s).unwrap().0, take_field(s).unwrap().1 + t)),
{
    lemma_u32_reads_on(s, t);
    let r = s.skip(4);
    assert((r + t).skip(3) =~= r.skip(3) + t);
}

proof fn lemma_schema_reads_on(s: Seq<u8>, t: Seq<u8>)
    requires
        take_schema(s) is Some,
    ensures
        take_schema(s + t) == Some((take_schema(s).unwrap().0, take_schema(s).unwrap().1 + t)),
{
    let item = |s: Seq<u8>| take_field(s);
    lemma_u32_reads_on(s, t);
    assert forall|a: Seq<u8>, b: Seq<u8>| item(a) is Some implies #[trigger] item(a + b) == Some(
        (item(a).unwrap().0, item(a).unwrap().1 + b),
    ) by {
        lemma_field_reads_on(a, b);
    }
    assert(reads_on(item));
    lemma_counted_reads_on(item, s.skip(4), t);
}

/// A handshake message that is cut off anywhere is refused.
pub proof fn lemma_cut_handshake_is_refused(reg: Seq<SchemaModel>, k: int)
    requires
        unique_types(reg),
        reg.len() <= u32::MAX,
        forall|i: int| 0 <= i < reg.len() ==> (#[trigger] reg[i]).fields.len() <= u32::MAX,
        0 <= k < handshake_wire(reg).len(),
    ensures
        parse_handshake(handshake_wire(reg).take(k)) is None,
{
    let item = |s: Seq<u8>| take_schema(s);
    let whole = handshake_wire(reg);
    let head = whole.take(k);
    let tail = whole.skip(k);
    if parse_handshake(head) is Some {
        assert forall|a: Seq<u8>, b: Seq<u8>| item(a) is Some implies #[trigger] item(a + b) == Some(
            (item(a).unwrap().0, item(a).unwrap().1 + b),
        ) by {
            lemma_schema_reads_on(a, b);
        }
        assert(reads_on(item));
        lemma_counted_reads_on(item, head, tail);
        assert(head + tail =~= whole);
        lemma_handshake_round_trip(reg);
        let left = take_counted(item, head).unwrap().1;
        assert((left + tail).len() == 0);
    }
}

/// A component type has a schema exactly if the registry holds one of that type, and
/// then it is that one.
pub proof fn lemma_schema_is_found(reg: Seq<SchemaModel>, cid: ComponentId)
    requires
        unique_types(reg),
    ensures
        schema_of(reg, cid) matches Some(s) ==> s.component_type == cid && reg.contains(s),
        forall|i: int|
            0 <= i < reg.len() && (#[trigger] reg[i]).component_type == cid ==> schema_of(reg, cid) == Some(reg[i]),
        (forall|i: int| 0 <= i < reg.len() ==> (#[trigger] reg[i]).component_type != cid) ==> schema_of(reg, cid)
            is None,
{
    assert forall|i: int| 0 <= i < reg.len() && (#[trigger] reg[i]).component_type == cid implies schema_of(reg, cid)
        == Some(reg[i]) by {
        assert(has_type(reg, cid));
        let t = type_index(reg, cid);
        assert(reg[t].component_type == reg[i].component_type);
    }
}

/// A schema that was added is found under its type, as it is. Every other type has
/// the schema it had, and no schema changes its place.
pub proof fn lemma_added_schema_counts(reg: Seq<SchemaModel>, m: SchemaModel, cid: ComponentId)
    requires
        unique_types(reg),
    ensures
        unique_types(upsert(reg, m)),
        schema_of(upsert(reg, m), m.component_type) == Some(m),
        cid != m.component_type ==> schema_of(upsert(reg, m), cid) == schema_of(reg, cid),
        upsert(reg, m).len() == (if schema_of(reg, m.component_type) is Some {
            reg.len()
        } else {
            reg.len() + 1
        }),
        forall|i: int|
            0 <= i < reg.len() && (#[trigger] reg[i]).component_type != m.component_type ==> upsert(reg, m)[i]
                == reg[i],
        schema_of(reg, m.component_type) is None ==> upsert(reg, m).last() == m,
{
    let after = upsert(reg, m);
    let at = if has_type(reg, m.component_type) {
        type_index(reg, m.component_type)
    } else {
        reg.len() as int
    };
    assert(after[at] == m);
    assert forall|i: int, j: int|
        0 <= i < after.len() && 0 <= j < after.len() && (#[trigger] after[i]).component_type == (
        #[trigger] after[j]).component_type implies i == j by {
        if i < reg.len() && j < reg.len() {
            assert(reg[i].component_type == reg[j].component_type);
        } else if i < reg.len() {
            assert(reg[i].component_type == m.component_type);
        } else if j < reg.len() {
            assert(reg[j].component_type == m.component_type);
        }
    }
    lemma_schema_is_found(after, m.component_type);
    lemma_schema_is_found(after, cid);
    lemma_schema_is_found(reg, cid);
    if cid != m.component_type {
        if let Some(s) = schema_of(reg, cid) {
            let i = reg.index_of(s);
            assert(after[i].component_type == cid);
        } else {
            assert forall|i: int| 0 <= i < after.len() implies (#[trigger] after[i]).component_type != cid by {
                if i < reg.len() && i != at {
                    assert(reg[i] == after[i]);
                    assert(has_type(reg, reg[i].component_type));
                }
            }
        }
    }
}

/// Of several schemas of one type in a list the last one counts.
pub proof fn lemma_last_schema_counts(xs: Seq<SchemaModel>, cid: ComponentId)
    ensures
        unique_types(collapse(xs)),
        match schema_of(collapse(xs), cid) {
            Some(s) => exists|i: int|
                0 <= i < xs.len() && #[trigger] xs[i] == s && s.component_type == cid && forall|j: int|
                    i < j < xs.len() ==> (#[trigger] xs[j]).component_type != cid,
            None => forall|i: int| 0 <= i < xs.len() ==> (#[trigger] xs[i]).component_type != cid,
        },
    decreases xs.len(),
{
    if xs.len() > 0 {
        let init = xs.drop_last();
        let m = xs.last();
        let n = xs.len() - 1;
        assert(xs[n] == m);
        lemma_last_schema_counts(init, cid);
        lemma_added_schema_counts(collapse(init), m, cid);
        if m.component_type == cid {
            assert(xs[n] == m);
        } else if let Some(s) = schema_of(collapse(init), cid) {
            let i = choose|i: int|
                0 <= i < init.len() && #[trigger] init[i] == s && s.component_type == cid && forall|j: int|
                    i < j < init.len() ==> (#[trigger] init[j]).component_type != cid;
            assert(xs[i] == s);
            assert forall|j: int| i < j < xs.len() implies (#[trigger] xs[j]).component_type != cid by {
                if j < n {
                    assert(init[j] == xs[j]);
                }
            }
        } else {
            assert forall|i: int| 0 <= i < xs.len() implies (#[trigger] xs[i]).component_type != cid by {
                if i < n {
                    assert(init[i] == xs[i]);
                }
            }
        }
    }
}

/// The codes on the wire: a byte stands for an encoding, a condition or a channel
/// exactly if it is the code of it, and no two have the same code.
pub proof fn lemma_codes_match(e: ReplicationEncoding, c: ReplicationCondition, ch: Option<EventChannel>, v: u8)
    ensures
        encoding_of_code(v) == Some(e) <==> v == encoding_code(e),
        condition_of_code(v) == Some(c) <==> v == condition_code(c),
        event_channel_of_code(v) == Some(ch) <==> v == event_channel_code(ch),
        encoding_of_code(v) is None <==> v > 5,
        condition_of_code(v) is None <==> v > 10,
        event_channel_of_code(v) is None <==> v > 2,
{
}

/// The codes on the wire are the positions of the encodings, the conditions and the
/// channels in their declarations; no channel comes before both.
pub proof fn lemma_codes_are_fixed()
    ensures
        encoding_code(ReplicationEncoding::Pod) == 0,
        encoding_code(ReplicationEncoding::Serialized) == 1,
        encoding_code(ReplicationEncoding::GpuHandle) == 2,
        encoding_code(ReplicationEncoding::DeltaCompressed) == 3,
        encoding_code(ReplicationEncoding::Event) == 4,
        encoding_code(ReplicationEncoding::Opaque) == 5,
        condition_code(ReplicationCondition::Always) == 0,
        condition_code(ReplicationCondition::OwnerOnly) == 1,
        condition_code(ReplicationCondition::SkipOwner) == 2,
        condition_code(ReplicationCondition::SimulatedOnly) == 3,
        condition_code(ReplicationCondition::AutonomousOnly) == 4,
        condition_code(ReplicationCondition::InitialOnly) == 5,
        condition_code(ReplicationCondition::ServerAuthority) == 6,
        condition_code(ReplicationCondition::ClientAuthority) == 7,
        condition_code(ReplicationCondition::ServerToClient) == 8,
        condition_code(ReplicationCondition::ClientToServer) == 9,
        condition_code(ReplicationCondition::Multicast) == 10,
        event_channel_code(None) == 0,
        event_channel_code(Some(EventChannel::ReliableOrdered)) == 1,
        event_channel_code(Some(EventChannel::Unreliable)) == 2,
{
}

impl Default for ReplicationRegistry {
    fn default() -> (reg: ReplicationRegistry)
        ensures
            reg.well_formed(),
            reg@ == Seq::<SchemaModel>::empty(),
    {
        ReplicationRegistry::new()
    }
}

impl ReplicationRegistry {
    /// No component type has two schemas.
    pub open spec fn well_formed(&self) -> bool {
        unique_types(self@)
    }

    /// A registry without schemas.
    pub fn new() -> (reg: ReplicationRegistry)
        ensures
            reg.well_formed(),
            reg@ == Seq::<SchemaModel>::empty(),
    {
        let reg = ReplicationRegistry { schemas: Vec::new() };
        proof {
            assert(reg@ =~= Seq::<SchemaModel>::empty());
        }
        reg
    }

    /// Starts the schema of a component type. It takes effect when the
    /// builder is passed to [`ReplicationRegistry::insert`].
    pub fn register(&mut self, component_type: ComponentId) -> (b: SchemaBuilder)
        ensures
            *final(self) == *old(self),
            b.component_type == component_type,
            b.fields@.len() == 0,
    {
        SchemaBuilder { component_type, fields: Vec::new() }
    }

    fn find(&self, cid: ComponentId) -> (at: Option<usize>)
        requires
            self.well_formed(),
        ensures
            match at {
                Some(i) => {
                    &&& i < self.schemas@.len()
                    &&& self.schemas@[i as int].component_type == cid
                    &&& has_type(self@, cid)
                    &&& type_index(self@, cid) == i
                },
                None => !has_type(self@, cid),
            },
    {
        let mut i: usize = 0;
        while i < self.schemas.len()
            invariant
                i <= self.schemas@.len(),
                self.well_formed(),
                forall|j: int| 0 <= j < i ==> (#[trigger] self.schemas@[j]).component_type != cid,
            decreases self.schemas@.len() - i,
        {
            if self.schemas[i].component_type == cid {
                proof {
                    assert(self@[i as int].component_type == cid);
                    let t = type_index(self@, cid);
                    assert(self@[t].component_type == self@[i as int].component_type);
                }
                return Some(i);
            }
            i = i + 1;
        }
        proof {
            if has_type(self@, cid) {
                let t = type_index(self@, cid);
                assert(self@[t].component_type == cid);
                assert(self.schemas@[t].component_type == cid);
            }
        }
        None
    }

    /// Adds a schema, replacing the one of the same component type.
    pub fn insert_schema(&mut self, schema: ReplicationSchema)
        requires
            old(self).well_formed(),
        ensures
            final(self).well_formed(),
            final(self)@ == upsert(old(self)@, schema@),
    {
        let ghost before = *self;
        let ghost added = schema@;
        match self.find(schema.component_type) {
            Some(i) => {
                self.schemas[i] = schema;
                proof {
                    assert(self@ =~= before@.update(i as int, added));
                    assert forall|a: int, b: int|
                        0 <= a < self@.len() && 0 <= b < self@.len() && (#[trigger] self@[a]).component_type
                            == (#[trigger] self@[b]).component_type implies a == b by {
                        assert(before@[a].component_type == before@[b].component_type);
                    }
                }
            },
            None => {
                self.schemas.push(schema);
                proof {
                    assert(self@ =~= before@.push(added));
                    let n = before@.len() as int;
                    assert forall|a: int, b: int|
                        0 <= a < self@.len() && 0 <= b < self@.len() && (#[trigger] self@[a]).component_type
                            == (#[trigger] self@[b]).component_type implies a == b by {
                        if a < n && b < n {
                            assert(before@[a].component_type == before@[b].component_type);
                        } else if a < n {
                            assert(before@[a].component_type == added.component_type);
                        } else if b < n {
                            assert(before@[b].component_type == added.component_type);
                        }
                    }
                }
            },
        }
    }

    /// Finishes a builder and adds its schema.
    pub fn insert(&mut self, builder: SchemaBuilder)
        requires
            old(self).well_formed(),
        ensures
            final(self).well_formed(),
            final(self)@ == upsert(
                old(self)@,
                (SchemaModel {
                    component_type: builder.component_type,
                    fields: builder.fields@,
                    local: true,
                }),
            ),
    {
        self.insert_schema(builder.build());
    }

    /// The schema of a component type.
    pub fn schema(&self, cid: ComponentId) -> (found: Option<&ReplicationSchema>)
        requires
            self.well_formed(),
        ensures
            match found {
                Some(s) => schema_of(self@, cid) == Some(s@),
                None => schema_of(self@, cid) is None,
            },
    {
        match self.find(cid) {
            Some(i) => Some(&self.schemas[i]),
            None => None,
        }
    }

    /// How many component types have a schema.
    pub fn len(&self) -> (n: usize)
        ensures
            n == self@.len(),
    {
        self.schemas.len()
    }

    /// The schema at position `i`.
    pub fn at(&self, i: usize) -> (s: &ReplicationSchema)
        requires
            i < self@.len(),
        ensures
            s@ == self@[i as int],
    {
        &self.schemas[i]
    }

    /// Whether this peer can make rows of a component type: it registered the
    /// type itself, and did not only learn of it from a handshake.
    pub fn row_ops(&self, cid: ComponentId) -> (local: bool)
        requires
            self.well_formed(),
        ensures
            local == (schema_of(self@, cid) matches Some(s) && s.local),
    {
        match self.find(cid) {
            Some(i) => self.schemas[i].local,
            None => false,
        }
    }

    /// All schemas as the message that opens a connection.
    pub fn handshake_message(&self) -> (bytes: Vec<u8>)
        ensures
            bytes@ == handshake_wire(self@),
    {
        let ghost wire = |m: SchemaModel| schema_wire(m);
        let ghost all = self@;
        let mut buf: Vec<u8> = Vec::new();
        put_u32(&mut buf, self.schemas.len() as u32);
        let ghost start = buf@;
        let mut i: usize = 0;
        proof {
            assert(start =~= start + list_wire(wire, all.subrange(0, 0)));
        }
        while i < self.schemas.len()
            invariant
                i <= self.schemas@.len(),
                all == self@,
                wire == (|m: SchemaModel| schema_wire(m)),
                buf@ == start + list_wire(wire, all.subrange(0, i as int)),
            decreases self.schemas@.len() - i,
        {
            put_schema(&mut buf, &self.schemas[i]);
            proof {
                let upto = all.subrange(0, i + 1);
                assert(upto.drop_last() =~= all.subrange(0, i as int));
                assert(upto.last() == self.schemas@[i as int]@);
                assert(buf@ =~= start + list_wire(wire, upto));
            }
            i = i + 1;
        }
        proof {
            assert(all.subrange(0, all.len() as int) =~= all);
            assert(buf@ =~= handshake_wire(self@));
        }
        buf
    }

    /// Reads the handshake message of a remote peer.
    pub fn from_handshake(bytes: &[u8]) -> (out: Result<ReplicationRegistry, ErrorCode>)
        ensures
            match parse_handshake(bytes@) {
                Some(m) => out matches Ok(reg) && reg@ == m && reg.well_formed(),
                None => out matches Err(e) && e == ErrorCode::InvalidData,
            },
    {
        let ghost item = |s: Seq<u8>| take_schema(s);
        let ghost goal = take_counted(item, bytes@);
        let mut r = Reader::new(bytes);
        let count: u32 = match r.read_u32() {
            None => {
                return Err(ErrorCode::InvalidData);
            },
            Some(n) => n,
        };
        let mut reg = ReplicationRegistry::new();
        let ghost mut seen = Seq::<SchemaModel>::empty();
        let mut i: u32 = 0;
        while i < count
            invariant
                i <= count,
                r.well_formed(),
                reg.well_formed(),
                reg@ == collapse(seen),
                item == (|s: Seq<u8>| take_schema(s)),
                goal == take_counted(item, bytes@),
                goal == take_list(item, (count - i) as nat, seen, r.rest()),
            decreases count - i,
        {
            match read_schema(&mut r) {
                None => {
                    return Err(ErrorCode::InvalidData);
                },
                Some(s) => {
                    proof {
                        let next = seen.push(s@);
                        assert(next.drop_last() =~= seen);
                        seen = next;
                    }
                    reg.insert_schema(s);
                },
            }
            i = i + 1;
        }
        Ok(reg)
    }
}

/// Appends one schema.
fn put_schema(buf: &mut Vec<u8>, schema: &ReplicationSchema)
    ensures
        final(buf)@ == old(buf)@ + schema_wire(schema@),
{
    let ghost wire = |f: FieldDescriptor| field_wire(f);
    let ghost all = schema.fields@;
    let ghost first = buf@;
    put_u32(buf, schema.component_type.0);
    put_u32(buf, schema.fields.len() as u32);
    let ghost start = buf@;
    let mut i: usize = 0;
    proof {
        assert(start =~= start + list_wire(wire, all.subrange(0, 0)));
    }
    while i < schema.fields.len()
        invariant
            i <= schema.fields@.len(),
            all == schema.fields@,
            wire == (|f: FieldDescriptor| field_wire(f)),
            buf@ == start + list_wire(wire, all.subrange(0, i as int)),
        decreases schema.fields@.len() - i,
    {
        let ghost before = buf@;
        let f = schema.fields[i];
        put_u32(buf, f.field_index);
        buf.push(encoding_to_u8(&f.encoding));
        buf.push(condition_to_u8(&f.condition));
        buf.push(event_channel_to_u8(&f.event_channel));
        proof {
            assert(buf@ =~= before + field_wire(f));
            let upto = all.subrange(0, i + 1);
            assert(upto.drop_last() =~= all.subrange(0, i as int));
            assert(buf@ =~= start + list_wire(wire, upto));
        }
        i = i + 1;
    }
    proof {
        assert(all.subrange(0, all.len() as int) =~= all);
        assert(buf@ =~= first + schema_wire(schema@));
    }
}

/// Reads one field.
fn read_field(r: &mut Reader<'_>) -> (out: Option<FieldDescriptor>)
    requires
        old(r).well_formed(),
    ensures
        final(r).well_formed(),
        match take_field(old(r).rest()) {
            None => out is None,
            Some((f, rest)) => out == Some(f) && final(r).rest() == rest,
        },
{
    let field_index: u32 = match r.read_u32() {
        None => {
            return None;
        },
        Some(x) => x,
    };
    let ghost codes = r.rest();
    let e: u8 = match r.read_u8() {
        None => {
            return None;
        },
        Some(x) => x,
    };
    let c: u8 = match r.read_u8() {
        None => {
            return None;
        },
        Some(x) => x,
    };
    let ch: u8 = match r.read_u8() {
        None => {
            return None;
        },
        Some(x) => x,
    };
    proof {
        assert(codes.skip(1).skip(1).skip(1) =~= codes.skip(3));
        assert(codes.skip(1)[0] == codes[1]);
        assert(codes.skip(1).skip(1)[0] == codes[2]);
    }
    let encoding = match u8_from_encoding(e) {
        Ok(x) => x,
        Err(_) => {
            return None;
        },
    };
    let condition = match u8_from_condition(c) {
        Ok(x) => x,
        Err(_) => {
            return None;
        },
    };
    let event_channel = match u8_from_event_channel(ch) {
        Ok(x) => x,
        Err(_) => {
            return None;
        },
    };
    Some(FieldDescriptor { field_index, encoding, condition, event_channel, accessible: false })
}

/// Reads one schema.
fn read_schema(r: &mut Reader<'_>) -> (out: Option<ReplicationSchema>)
    requires
        old(r).well_formed(),
    ensures
        final(r).well_formed(),
        match take_schema(old(r).rest()) {
            None => out is None,
            Some((m, rest)) => out matches Some(s) && s@ == m && final(r).rest() == rest,
        },
{
    let cid: u32 = match r.read_u32() {
        None => {
            return None;
        },
        Some(x) => x,
    };
    let ghost item = |s: Seq<u8>| take_field(s);
    let ghost behind = r.rest();
    let ghost goal = take_counted(item, behind);
    let count: u32 = match r.read_u32() {
        None => {
            return None;
        },
        Some(n) => n,
    };
    let mut fields: Vec<FieldDescriptor> = Vec::new();
    let mut i: u32 = 0;
    while i < count
        invariant
            i <= count,
            r.well_formed(),
            item == (|s: Seq<u8>| take_field(s)),
            take_u32(old(r).rest()) == Some((cid, behind)),
            goal == take_counted(item, behind),
            goal == take_list(item, (count - i) as nat, fields@, r.rest()),
        decreases count - i,
    {
        match read_field(r) {
            None => {
                return None;
            },
            Some(f) => {
                fields.push(f);
            },
        }
        i = i + 1;
    }
    Some(ReplicationSchema { component_type: ComponentId(cid), fields, local: false })
}

} // verus!

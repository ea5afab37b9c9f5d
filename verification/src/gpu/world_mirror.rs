//! Mirroring the components of a world to device columns.
//!
//! Every mirrored component type numbers its rows on its own; the generation
//! column is indexed by entity instead.

use vstd::prelude::*;
use crate::component::ComponentId;
use crate::entity::Entity;
use crate::gpu::column::{column_models, GpuColumnDesc, MirrorMode};
use crate::gpu::component_rows::{lemma_acquired, ComponentGpuRows, RowsModel};
use crate::gpu::device::{make_word_row, make_zero_row, word_row, zero_row, CommandModel, CommandQueue, SyncStats};
use crate::gpu::dirty::marked_rows;
use crate::gpu::dynamic_buffer::{greatest, growth, CapacityError};
use crate::gpu::generation_mirror::{GenerationMirror, GenerationModel};
use crate::gpu::row_flags::with_rows;
use crate::gpu::scene_store::flush::{all_reserved, all_shrunk, some_refuses, some_reserved, some_shrinks};
use crate::gpu::scene_store::{SceneGpuStore, SceneModel};
use crate::gpu::upload::upload_stats;

verus! {

/// A component value whose fields can be mirrored.
pub trait GpuComponent {
    /// The bytes of a mirrored field of a component of type `cid`.
    spec fn gpu_field(&self, cid: ComponentId, field: ComponentId) -> Seq<u8>;

    /// The bytes of a mirrored field of a component of type `cid`.
    fn gpu_bytes(&self, cid: ComponentId, field: ComponentId) -> (bytes: Vec<u8>)
        ensures
            bytes@ == self.gpu_field(cid, field),
    ;
}

/// A component that is one word: its one field is the word.
impl GpuComponent for u32 {
    open spec fn gpu_field(&self, cid: ComponentId, field: ComponentId) -> Seq<u8> {
        word_row(*self)
    }

    fn gpu_bytes(&self, cid: ComponentId, field: ComponentId) -> (bytes: Vec<u8>) {
        make_word_row(*self)
    }
}

/// Whether a mirrored field is to be written: the component is new to the row,
/// it replaces no value, or it replaces one with other bytes in the field.
pub open spec fn is_due<V: GpuComponent>(
    value: V,
    prev: Option<V>,
    cid: ComponentId,
    field: ComponentId,
    first: bool,
) -> bool {
    first || match prev {
        Some(p) => p.gpu_field(cid, field) != value.gpu_field(cid, field),
        None => true,
    }
}

/// A borrowed value, if there is one.
pub open spec fn borrowed<V>(value: Option<&V>) -> Option<V> {
    match value {
        Some(v) => Some(*v),
        None => None,
    }
}

/// The store after the first `n` mirrored fields of a component that replaces
/// `prev` were written to a row where they are due, up to the first that is
/// refused.
pub open spec fn fields_mirrored<V: GpuComponent>(
    m: SceneModel,
    cid: ComponentId,
    value: V,
    prev: Option<V>,
    row: u32,
    first: bool,
    n: int,
) -> (SceneModel, Result<(), CapacityError>)
    decreases n,
{
    if n <= 0 {
        (m, Ok(()))
    } else {
        let before = fields_mirrored(m, cid, value, prev, row, first, n - 1);
        let d = m.mirrors[cid][n - 1];
        if before.1 is Ok && is_due(value, prev, cid, d.field_token.type_id, first) {
            before.0.field_written(
                d.field_token.type_id,
                d.mode,
                row,
                value.gpu_field(cid, d.field_token.type_id),
                first,
            )
        } else {
            before
        }
    }
}

/// The store after the first `n` mirrored fields of a component type were
/// zeroed in a row, up to the first that is refused.
pub open spec fn fields_cleared(m: SceneModel, cid: ComponentId, row: u32, n: int) -> (SceneModel, Result<
    (),
    CapacityError,
>)
    decreases n,
{
    if n <= 0 {
        (m, Ok(()))
    } else {
        let before = fields_cleared(m, cid, row, n - 1);
        let d = m.mirrors[cid][n - 1];
        if before.1 is Ok {
            before.0.field_written(
                d.field_token.type_id,
                d.mode,
                row,
                zero_row(d.field_token.layout.size as nat),
                true,
            )
        } else {
            before
        }
    }
}

/// The mirrored fields of a component type can be written to a row.
pub open spec fn row_writable(m: SceneModel, cid: ComponentId, row: u32) -> bool {
    forall|i: int|
        0 <= i < m.mirrors[cid].len() ==> m.writable(
            (#[trigger] m.mirrors[cid][i]).field_token.type_id,
            row,
            m.mirrors[cid][i].field_token.layout.size as nat,
        )
}

/// A value has the described size in every mirrored field.
pub open spec fn value_fits<V: GpuComponent>(m: SceneModel, cid: ComponentId, value: V) -> bool {
    forall|i: int|
        0 <= i < m.mirrors[cid].len() ==> value.gpu_field(
            cid,
            (#[trigger] m.mirrors[cid][i]).field_token.type_id,
        ).len() == m.mirrors[cid][i].field_token.layout.size
}

/// Two stores with the same fields, and with columns of the same kinds and
/// sizes of rows.
pub open spec fn same_layout(a: SceneModel, b: SceneModel) -> bool {
    &&& a.partners == b.partners
    &&& a.mirrors == b.mirrors
    &&& a.max_buffer_size == b.max_buffer_size
    &&& a.presence.dom() == b.presence.dom()
    &&& a.columns.dom() == b.columns.dom()
    &&& a.cells.fixed.dom() == b.cells.fixed.dom()
    &&& forall|c: ComponentId| #[trigger]
        a.columns.contains_key(c) ==> a.columns[c].buffer().stride == b.columns[c].buffer().stride
    &&& forall|c: ComponentId| #[trigger]
        a.cells.fixed.contains_key(c) ==> a.cells.fixed[c].stride == b.cells.fixed[c].stride
            && a.cells.fixed[c].capacity == b.cells.fixed[c].capacity
}

pub(crate) proof fn lemma_field_keeps_layout(
    m: SceneModel,
    field: ComponentId,
    mode: MirrorMode,
    row: u32,
    data: Seq<u8>,
    first: bool,
)
    ensures
        same_layout(m, m.field_written(field, mode, row, data, first).0),
{
    let after = m.field_written(field, mode, row, data, first).0;
    assert(after.columns.dom() =~= m.columns.dom());
    assert(after.cells.fixed.dom() =~= m.cells.fixed.dom());
}

pub(crate) proof fn lemma_layout_writable(a: SceneModel, b: SceneModel, field: ComponentId, row: u32, len: nat)
    requires
        same_layout(a, b),
        a.writable(field, row, len),
    ensures
        b.writable(field, row, len),
{
    let c = a.partners.resolve(field);
    if b.columns.contains_key(c) {
        assert(a.columns.dom().contains(c));
        assert(a.columns.contains_key(c));
    }
    if b.cells.fixed.contains_key(c) {
        assert(a.cells.fixed.dom().contains(c));
        assert(a.cells.fixed.contains_key(c));
    }
}

pub(crate) proof fn lemma_layout_trans(a: SceneModel, b: SceneModel, c: SceneModel)
    requires
        same_layout(a, b),
        same_layout(b, c),
    ensures
        same_layout(a, c),
{
    assert forall|x: ComponentId| #[trigger] a.columns.contains_key(x) implies a.columns[x].buffer().stride
        == c.columns[x].buffer().stride by {
        assert(b.columns.dom().contains(x));
        assert(b.columns.contains_key(x));
    }
    assert forall|x: ComponentId| #[trigger] a.cells.fixed.contains_key(x) implies a.cells.fixed[x].stride
        == c.cells.fixed[x].stride && a.cells.fixed[x].capacity == c.cells.fixed[x].capacity by {
        assert(b.cells.fixed.dom().contains(x));
        assert(b.cells.fixed.contains_key(x));
    }
}

proof fn lemma_mirrored_stops<V: GpuComponent>(
    m: SceneModel,
    cid: ComponentId,
    value: V,
    prev: Option<V>,
    row: u32,
    first: bool,
    k: int,
    n: int,
)
    requires
        0 <= k <= n,
        fields_mirrored(m, cid, value, prev, row, first, k).1 is Err,
    ensures
        fields_mirrored(m, cid, value, prev, row, first, n) == fields_mirrored(m, cid, value, prev, row, first, k),
    decreases n,
{
    if k < n {
        lemma_mirrored_stops(m, cid, value, prev, row, first, k, n - 1);
    }
}

proof fn lemma_cleared_stops(m: SceneModel, cid: ComponentId, row: u32, k: int, n: int)
    requires
        0 <= k <= n,
        fields_cleared(m, cid, row, k).1 is Err,
    ensures
        fields_cleared(m, cid, row, n) == fields_cleared(m, cid, row, k),
    decreases n,
{
    if k < n {
        lemma_cleared_stops(m, cid, row, k, n - 1);
    }
}

/// Whether two rows hold the same bytes.
fn same_bytes(a: &Vec<u8>, b: &Vec<u8>) -> (same: bool)
    ensures
        same == (a@ == b@),
{
    if a.len() != b.len() {
        return false;
    }
    let mut i: usize = 0;
    while i < a.len()
        invariant
            i <= a@.len(),
            a@.len() == b@.len(),
            forall|j: int| 0 <= j < i ==> a@[j] == b@[j],
        decreases a@.len() - i,
    {
        if a[i] != b[i] {
            return false;
        }
        i = i + 1;
    }
    proof {
        assert(a@ =~= b@);
    }
    true
}

/// Writes the mirrored fields of a component that replaces `prev` to a row where
/// they are due, each in the way of its column, up to the first that is refused.
pub fn write_changed_gpu_columns_at_row<V: GpuComponent>(
    store: &mut SceneGpuStore,
    row: u32,
    cid: ComponentId,
    data: &V,
    prev: Option<&V>,
    first_handoff: bool,
) -> (out: Result<(), CapacityError>)
    requires
        old(store).well_formed(),
        old(store)@.mirrors.contains_key(cid),
        row_writable(old(store)@, cid, row),
        value_fits(old(store)@, cid, *data),
    ensures
        final(store).well_formed(),
        (final(store)@, out) == fields_mirrored(
            old(store)@,
            cid,
            *data,
            borrowed(prev),
            row,
            first_handoff,
            old(store)@.mirrors[cid].len() as int,
        ),
{
    let ghost m = store@;
    let descs: Vec<GpuColumnDesc> = match store.gpu_column_descs_for_component(cid) {
        Some(v) => v,
        None => Vec::new(),
    };
    let ghost fields = m.mirrors[cid];
    let mut i: usize = 0;
    while i < descs.len()
        invariant
            i <= descs@.len(),
            column_models(descs@) == fields,
            fields == m.mirrors[cid],
            fields.len() == descs@.len(),
            m == old(store)@,
            m.mirrors.contains_key(cid),
            row_writable(m, cid, row),
            value_fits(m, cid, *data),
            store.well_formed(),
            same_layout(m, store@),
            (store@, Ok::<(), CapacityError>(())) == fields_mirrored(
                m,
                cid,
                *data,
                borrowed(prev),
                row,
                first_handoff,
                i as int,
            ),
        decreases descs@.len() - i,
    {
        let ghost before = store@;
        let field = descs[i].field_token.id();
        let bytes: Vec<u8> = data.gpu_bytes(cid, field);
        let due: bool = first_handoff || match prev {
            Some(p) => !same_bytes(&p.gpu_bytes(cid, field), &bytes),
            None => true,
        };
        proof {
            assert(fields[i as int] == descs@[i as int]@);
            lemma_layout_writable(m, before, field, row, bytes@.len());
            lemma_field_keeps_layout(before, field, descs@[i as int].mode, row, bytes@, first_handoff);
        }
        let step: Result<(), CapacityError> = if due {
            store.write_gpu_column_bytes_at_row(row, field, descs[i].mode, bytes.as_slice(), first_handoff)
        } else {
            Ok(())
        };
        proof {
            lemma_layout_trans(m, before, store@);
            assert((store@, step) == fields_mirrored(
                m,
                cid,
                *data,
                borrowed(prev),
                row,
                first_handoff,
                i + 1,
            ));
        }
        match step {
            Ok(done) => {
                assert(done == ());
            },
            Err(e) => {
                proof {
                    lemma_mirrored_stops(
                        m,
                        cid,
                        *data,
                        borrowed(prev),
                        row,
                        first_handoff,
                        i + 1,
                        fields.len() as int,
                    );
                }
                return Err(e);
            },
        }
        i = i + 1;
    }
    Ok(())
}

/// Writes every mirrored field of a component to a row, in the way of its
/// column, up to the first that is refused.
pub fn write_gpu_columns_at_row<V: GpuComponent>(
    store: &mut SceneGpuStore,
    row: u32,
    cid: ComponentId,
    data: &V,
    first_handoff: bool,
) -> (out: Result<(), CapacityError>)
    requires
        old(store).well_formed(),
        old(store)@.mirrors.contains_key(cid),
        row_writable(old(store)@, cid, row),
        value_fits(old(store)@, cid, *data),
    ensures
        final(store).well_formed(),
        (final(store)@, out) == fields_mirrored(
            old(store)@,
            cid,
            *data,
            None,
            row,
            first_handoff,
            old(store)@.mirrors[cid].len() as int,
        ),
{
    write_changed_gpu_columns_at_row(store, row, cid, data, None, first_handoff)
}

/// Zeroes every mirrored field of a component type in a row, up to the first
/// that is refused.
pub fn clear_gpu_columns_at_row(store: &mut SceneGpuStore, row: u32, cid: ComponentId) -> (out: Result<
    (),
    CapacityError,
>)
    requires
        old(store).well_formed(),
        old(store)@.mirrors.contains_key(cid),
        row_writable(old(store)@, cid, row),
    ensures
        final(store).well_formed(),
        (final(store)@, out) == fields_cleared(old(store)@, cid, row, old(store)@.mirrors[cid].len() as int),
{
    let ghost m = store@;
    let descs: Vec<GpuColumnDesc> = match store.gpu_column_descs_for_component(cid) {
        Some(v) => v,
        None => Vec::new(),
    };
    let ghost fields = m.mirrors[cid];
    let mut i: usize = 0;
    while i < descs.len()
        invariant
            i <= descs@.len(),
            column_models(descs@) == fields,
            fields == m.mirrors[cid],
            fields.len() == descs@.len(),
            m == old(store)@,
            m.mirrors.contains_key(cid),
            row_writable(m, cid, row),
            store.well_formed(),
            same_layout(m, store@),
            (store@, Ok::<(), CapacityError>(())) == fields_cleared(m, cid, row, i as int),
        decreases descs@.len() - i,
    {
        let ghost before = store@;
        let field = descs[i].field_token.id();
        let zeros: Vec<u8> = make_zero_row(descs[i].field_token.desc().size);
        proof {
            assert(fields[i as int] == descs@[i as int]@);
            lemma_layout_writable(m, before, field, row, zeros@.len());
            lemma_field_keeps_layout(before, field, descs@[i as int].mode, row, zeros@, true);
        }
        let step = store.write_gpu_column_bytes_at_row(row, field, descs[i].mode, zeros.as_slice(), true);
        proof {
            lemma_layout_trans(m, before, store@);
            assert((store@, step) == fields_cleared(m, cid, row, i + 1));
        }
        match step {
            Ok(done) => {
                assert(done == ());
            },
            Err(e) => {
                proof {
                    lemma_cleared_stops(m, cid, row, i + 1, fields.len() as int);
                }
                return Err(e);
            },
        }
        i = i + 1;
    }
    Ok(())
}

pub(crate) proof fn lemma_mirrored_layout<V: GpuComponent>(
    m: SceneModel,
    cid: ComponentId,
    value: V,
    prev: Option<V>,
    row: u32,
    first: bool,
    n: int,
)
    ensures
        same_layout(m, fields_mirrored(m, cid, value, prev, row, first, n).0),
    decreases n,
{
    if n > 0 {
        lemma_mirrored_layout(m, cid, value, prev, row, first, n - 1);
        let before = fields_mirrored(m, cid, value, prev, row, first, n - 1);
        let d = m.mirrors[cid][n - 1];
        let data = value.gpu_field(cid, d.field_token.type_id);
        lemma_field_keeps_layout(before.0, d.field_token.type_id, d.mode, row, data, first);
        lemma_layout_trans(m, before.0, before.0.field_written(d.field_token.type_id, d.mode, row, data, first).0);
    }
}

pub(crate) proof fn lemma_cleared_layout(m: SceneModel, cid: ComponentId, row: u32, n: int)
    ensures
        same_layout(m, fields_cleared(m, cid, row, n).0),
    decreases n,
{
    if n > 0 {
        lemma_cleared_layout(m, cid, row, n - 1);
        let before = fields_cleared(m, cid, row, n - 1);
        let d = m.mirrors[cid][n - 1];
        lemma_field_keeps_layout(
            before.0,
            d.field_token.type_id,
            d.mode,
            row,
            zero_row(d.field_token.layout.size as nat),
            true,
        );
        if before.1 is Ok {
            lemma_layout_trans(m, before.0, fields_cleared(m, cid, row, n).0);
        }
    }
}

/// Removing one component of an entity from the mirror does not stand in the
/// way of removing another, of this or of another entity.
pub proof fn lemma_removed_clears(m: MirrorModel, cid: ComponentId, e: Entity, other: ComponentId, x: Entity)
    requires
        m.clears(other, x),
        other != cid || x != e,
    ensures
        m.removed(cid, e).0.clears(other, x),
{
    if m.store.mirrors.contains_key(cid) && m.rows[cid].rows.contains_key(e) {
        let row = m.rows[cid].rows[e];
        let made = m.store.made_absent(cid, row);
        let after = m.removed(cid, e).0;
        assert(made.presence.dom().subset_of(m.store.presence.dom().insert(cid)));
        lemma_cleared_layout(made, cid, row, m.store.mirrors[cid].len() as int);
        if after.store.mirrors.contains_key(other) && after.rows[other].rows.contains_key(x) {
            assert(m.rows[other].rows.contains_key(x));
            assert(after.rows[other].rows[x] == m.rows[other].rows[x]);
            let r = m.rows[other].rows[x];
            assert(made.presence.contains_key(other));
            assert(after.store.presence.dom().contains(other));
            assert forall|i: int| 0 <= i < after.store.mirrors[other].len() implies after.store.writable(
                (#[trigger] after.store.mirrors[other][i]).field_token.type_id,
                r,
                after.store.mirrors[other][i].field_token.layout.size as nat,
            ) by {
                let d = m.store.mirrors[other][i];
                assert(m.store.writable(d.field_token.type_id, r, d.field_token.layout.size as nat));
                assert(made.writable(d.field_token.type_id, r, d.field_token.layout.size as nat));
                lemma_layout_writable(
                    made,
                    after.store,
                    d.field_token.type_id,
                    r,
                    d.field_token.layout.size as nat,
                );
            }
        }
    }
}

/// What a mirrored world needs: the store, the generation column and the rows
/// of the mirrored components.
pub struct GpuMirrorHandle {
    store: SceneGpuStore,
    generations: GenerationMirror,
    generation_queue: CommandQueue,
    component_rows: ComponentGpuRows,
}

/// The value of a [`GpuMirrorHandle`].
pub struct MirrorModel {
    pub store: SceneModel,
    pub generations: GenerationModel,
    /// The commands on the generation column.
    pub commands: Seq<CommandModel>,
    /// The rows of every component type.
    pub rows: Map<ComponentId, RowsModel>,
}

impl View for GpuMirrorHandle {
    type V = MirrorModel;

    closed spec fn view(&self) -> MirrorModel {
        MirrorModel {
            store: self.store@,
            generations: self.generations@,
            commands: self.generation_queue@,
            rows: Map::new(|c: ComponentId| true, |c: ComponentId| self.component_rows.of(c)),
        }
    }
}

impl MirrorModel {
    /// The invariants of the parts.
    pub open spec fn well_formed(self) -> bool {
        &&& self.store.well_formed()
        &&& self.generations.well_formed()
        &&& forall|c: ComponentId| #[trigger] self.rows.contains_key(c)
        &&& forall|c: ComponentId| (#[trigger] self.rows[c]).well_formed()
    }

    /// The row that an entity has, or gets, for a component type.
    pub open spec fn row_for(self, cid: ComponentId, e: Entity) -> u32 {
        if self.rows[cid].rows.contains_key(e) {
            self.rows[cid].rows[e]
        } else {
            self.rows[cid].next_row()
        }
    }

    /// The mirror can take a value of a component of an entity.
    pub open spec fn takes<V: GpuComponent>(self, cid: ComponentId, e: Entity, value: V) -> bool {
        self.store.mirrors.contains_key(cid) ==> {
            &&& self.store.presence.contains_key(cid)
            &&& self.rows[cid].occupied.len() < u32::MAX
            &&& row_writable(self.store, cid, self.row_for(cid, e))
            &&& value_fits(self.store, cid, value)
        }
    }

    /// The mirror can clear what it has of a component of an entity.
    pub open spec fn clears(self, cid: ComponentId, e: Entity) -> bool {
        self.store.mirrors.contains_key(cid) && self.rows[cid].rows.contains_key(e) ==> {
            &&& self.store.presence.contains_key(cid)
            &&& row_writable(self.store, cid, self.rows[cid].rows[e])
        }
    }

    /// A component of an entity has a new value, in place of `prev`: the entity's
    /// generation is known to the device, it has a row, the row is present, and
    /// its fields are written where they are due. A component type that is not
    /// mirrored is passed over.
    pub open spec fn inserted<V: GpuComponent>(self, cid: ComponentId, e: Entity, value: V, prev: Option<V>) -> (
        MirrorModel,
        Result<(), CapacityError>,
    ) {
        if self.store.mirrors.contains_key(cid) {
            let row = self.row_for(cid, e);
            let first = !self.store.is_present(cid, row);
            let written = fields_mirrored(
                self.store.made_present(cid, row),
                cid,
                value,
                prev,
                row,
                first,
                self.store.mirrors[cid].len() as int,
            );
            (
                MirrorModel {
                    store: written.0,
                    generations: self.generations.inserted(e.index(), e.generation()),
                    rows: if self.rows[cid].rows.contains_key(e) {
                        self.rows
                    } else {
                        self.rows.insert(cid, self.rows[cid].acquired(e))
                    },
                    ..self
                },
                written.1,
            )
        } else {
            (self, Ok(()))
        }
    }

    /// A component of an entity is gone: its row is absent and zeroed, and
    /// given back. An entity without a row is passed over.
    pub open spec fn removed(self, cid: ComponentId, e: Entity) -> (MirrorModel, Result<(), CapacityError>) {
        if self.store.mirrors.contains_key(cid) && self.rows[cid].rows.contains_key(e) {
            let row = self.rows[cid].rows[e];
            let cleared = fields_cleared(
                self.store.made_absent(cid, row),
                cid,
                row,
                self.store.mirrors[cid].len() as int,
            );
            (
                MirrorModel {
                    store: cleared.0,
                    rows: self.rows.insert(cid, self.rows[cid].released(e)),
                    ..self
                },
                cleared.1,
            )
        } else {
            (self, Ok(()))
        }
    }
}

/// What growing the generation column and every column of the store to `n`
/// rows does: all grow, or one refuses and some may have grown.
pub open spec fn mirror_reserved(m: MirrorModel, f: MirrorModel, n: u32, out: Result<(), CapacityError>) -> bool {
    let limit = m.store.max_buffer_size;
    let none = Map::<ComponentId, ComponentId>::empty();
    let own = growth(m.generations.column.buffer, n, limit).1;
    &&& f.rows == m.rows
    &&& f.store == (SceneModel { columns: f.store.columns, presence: f.store.presence, ..m.store })
    &&& match own {
        Ok(grew) => {
            &&& f.generations == (GenerationModel {
                column: m.generations.column.reserved(n, limit),
                mirrored: with_rows(m.generations.mirrored, n as nat),
            })
            &&& f.commands == (if grew {
                m.commands.push(
                    CommandModel::Reallocate {
                        capacity: f.generations.column.buffer.capacity,
                        keep: m.generations.column.kept(m.generations.column.buffer.capacity),
                    },
                )
            } else {
                m.commands
            })
        },
        Err(e) => f == m && out == Err::<(), CapacityError>(e),
    }
    &&& match out {
        Ok(_) => {
            &&& own is Ok
            &&& all_reserved(m.store.columns, f.store.columns, none, None, n, limit)
            &&& all_reserved(m.store.presence, f.store.presence, none, None, n, limit)
        },
        Err(e) => {
            &&& own == Err::<bool, CapacityError>(e) || some_refuses(m.store.columns, none, None, n, limit, e)
                || some_refuses(m.store.presence, none, None, n, limit, e)
            &&& some_reserved(m.store.columns, f.store.columns, none, None, n, limit)
            &&& some_reserved(m.store.presence, f.store.presence, none, None, n, limit)
        },
    }
}

/// What growing the columns of one component type does.
pub open spec fn component_reserved(
    m: MirrorModel,
    f: MirrorModel,
    cid: ComponentId,
    capacity: u32,
    out: Result<(), CapacityError>,
) -> bool {
    let owners = m.store.partners.world_owners;
    let limit = m.store.max_buffer_size;
    let presence = m.store.presence;
    &&& f == (MirrorModel { store: f.store, ..m })
    &&& f.store == (SceneModel { columns: f.store.columns, presence: f.store.presence, ..m.store })
    &&& match out {
        Ok(_) => {
            &&& all_reserved(m.store.columns, f.store.columns, owners, Some(cid), capacity, limit)
            &&& presence.contains_key(cid) ==> growth(presence[cid].buffer(), capacity, limit).1 is Ok
            &&& f.store.presence == (if presence.contains_key(cid) {
                presence.insert(cid, presence[cid].reserved(capacity, limit))
            } else {
                presence
            })
        },
        Err(e) => {
            &&& some_refuses(m.store.columns, owners, Some(cid), capacity, limit, e) || (presence.contains_key(
                cid,
            ) && growth(presence[cid].buffer(), capacity, limit).1 == Err::<bool, CapacityError>(e))
            &&& some_reserved(m.store.columns, f.store.columns, owners, Some(cid), capacity, limit)
            &&& f.store.presence == presence
        },
    }
}

/// What cutting the generation column and every column of the store does.
pub open spec fn mirror_shrunk(m: MirrorModel, f: MirrorModel, target: u32) -> bool {
    let none = Map::<ComponentId, ComponentId>::empty();
    let column = m.generations.column;
    &&& f.rows == m.rows
    &&& f.store == (SceneModel { columns: f.store.columns, presence: f.store.presence, ..m.store })
    &&& all_shrunk(m.store.columns, f.store.columns, none, None, target)
    &&& all_shrunk(m.store.presence, f.store.presence, none, None, target)
    &&& f.generations == (GenerationModel {
        column: if target < column.shadow.len() {
            column.shrunk(target)
        } else {
            column
        },
        mirrored: if target < m.generations.mirrored.len() {
            m.generations.mirrored.take(target as int)
        } else {
            m.generations.mirrored
        },
    })
    &&& f.commands == (if target < column.shadow.len() && target < column.buffer.capacity {
        m.commands.push(CommandModel::Reallocate { capacity: target, keep: column.kept(target) })
    } else {
        m.commands
    })
}

/// What cutting the columns of one component type does.
pub open spec fn component_shrunk(
    m: MirrorModel,
    f: MirrorModel,
    cid: ComponentId,
    target: u32,
    shrank: bool,
) -> bool {
    let owners = m.store.partners.world_owners;
    let presence = m.store.presence;
    &&& f == (MirrorModel { store: f.store, ..m })
    &&& f.store == (SceneModel { columns: f.store.columns, presence: f.store.presence, ..m.store })
    &&& all_shrunk(m.store.columns, f.store.columns, owners, Some(cid), target)
    &&& f.store.presence == (if presence.contains_key(cid) {
        presence.insert(cid, presence[cid].shrunk(target))
    } else {
        presence
    })
    &&& shrank == (some_shrinks(m.store.columns, owners, Some(cid), target) || (presence.contains_key(cid)
        && presence[cid].shrinks(target)))
}

/// How many rows cover `highest_live_row` and leave `headroom` rows free.
pub open spec fn covering_rows(highest_live_row: u32, headroom: u32) -> u32 {
    let n = highest_live_row + 1 + headroom;
    if n <= u32::MAX {
        n as u32
    } else {
        u32::MAX
    }
}

/// How many rows cover `highest_live_row` and leave `headroom` rows free.
pub fn count_covering_rows(highest_live_row: u32, headroom: u32) -> (rows: u32)
    ensures
        rows == covering_rows(highest_live_row, headroom),
{
    let n: u64 = highest_live_row as u64 + 1 + headroom as u64;
    if n <= u32::MAX as u64 {
        n as u32
    } else {
        u32::MAX
    }
}

impl MirrorModel {
    /// The last row of a component type that is or may be in use; an empty type
    /// keeps one row.
    pub open spec fn last_row(self, cid: ComponentId) -> u32 {
        if self.rows[cid].occupied.len() > 0 {
            (self.rows[cid].occupied.len() - 1) as u32
        } else {
            0
        }
    }
}

impl GpuMirrorHandle {
    /// The invariants of the parts.
    pub open spec fn well_formed(&self) -> bool {
        self@.well_formed()
    }

    /// A mirror without rows on top of a store.
    pub fn new(store: SceneGpuStore) -> (mirror: GpuMirrorHandle)
        requires
            store.well_formed(),
        ensures
            mirror.well_formed(),
            mirror@.store == store@,
            mirror@.commands == Seq::<CommandModel>::empty(),
            forall|c: ComponentId| #[trigger] mirror@.rows[c] == RowsModel::none(),
            mirror@.generations == GenerationModel::fresh(),
    {
        let mirror = GpuMirrorHandle {
            store,
            generations: GenerationMirror::new(),
            generation_queue: CommandQueue::new(),
            component_rows: ComponentGpuRows::new(),
        };
        proof {
            assert forall|c: ComponentId| (#[trigger] mirror@.rows[c]).well_formed() by {
                assert(mirror.component_rows.of(c).well_formed());
            }
        }
        mirror
    }

    /// The store.
    pub fn store(&self) -> (store: &SceneGpuStore)
        ensures
            store@ == self@.store,
    {
        &self.store
    }

    /// The store, to be changed: to register columns, or to take commands out.
    pub fn store_mut(&mut self) -> (store: &mut SceneGpuStore)
        ensures
            store@ == old(self)@.store,
            old(self).well_formed() ==> store.well_formed(),
            final(self)@ == (MirrorModel { store: final(store)@, ..old(self)@ }),
            old(self).well_formed() && final(store).well_formed() ==> final(self).well_formed(),
    {
        &mut self.store
    }

    /// The generation column.
    pub fn generations(&self) -> (g: &GenerationMirror)
        ensures
            g@ == self@.generations,
    {
        &self.generations
    }

    /// The row of an entity for a component type, if it has one. It is not
    /// related to the index of the entity.
    pub fn gpu_row_for_component(&self, component_id: ComponentId, entity: Entity) -> (row: Option<u32>)
        ensures
            match row {
                Some(r) => self@.rows[component_id].rows.contains_key(entity)
                    && self@.rows[component_id].rows[entity] == r,
                None => !self@.rows[component_id].rows.contains_key(entity),
            },
    {
        self.component_rows.get(component_id, entity)
    }

    /// How many entities have a row for a component type.
    pub fn gpu_live_count_for_component(&self, component_id: ComponentId) -> (n: u32)
        requires
            self.well_formed(),
        ensures
            n == self@.rows[component_id].rows.dom().len(),
    {
        proof {
            self.lemma_rows_ok();
        }
        self.component_rows.live_count(component_id)
    }

    /// How many rows the span of a component type has. It is bounded by how
    /// many entities had the component at the same time.
    pub fn gpu_row_span_for_component(&self, component_id: ComponentId) -> (n: u32)
        requires
            self.well_formed(),
        ensures
            n == self@.rows[component_id].occupied.len(),
    {
        proof {
            self.lemma_rows_ok();
        }
        self.component_rows.row_span(component_id)
    }

    proof fn lemma_rows_ok(&self)
        requires
            self.well_formed(),
        ensures
            self.component_rows.well_formed(),
            forall|c: ComponentId| #[trigger] self@.rows[c] == self.component_rows.of(c),
    {
        assert forall|c: ComponentId| #[trigger] self.component_rows.of(c).well_formed() by {
            assert(self@.rows[c].well_formed());
        }
    }

    /// Mirrors a new value of a component of an entity.
    pub fn note_insert<V: GpuComponent>(
        &mut self,
        component_id: ComponentId,
        entity: Entity,
        value: &V,
        prev: Option<&V>,
    ) -> (out: Result<(), CapacityError>)
        requires
            old(self).well_formed(),
            entity.index() < u32::MAX,
            component_id.0 < usize::MAX,
            old(self)@.takes(component_id, entity, *value),
        ensures
            final(self).well_formed(),
            (final(self)@, out) == old(self)@.inserted(component_id, entity, *value, borrowed(prev)),
    {
        let ghost m = self@;
        if self.store.gpu_column_descs_for_component(component_id).is_none() {
            return Ok(());
        }
        proof {
            self.lemma_rows_ok();
            assert(m.rows[component_id].well_formed());
            if !m.rows[component_id].rows.contains_key(entity) {
                lemma_acquired(m.rows[component_id], entity);
                assert(m.rows[component_id].acquired(entity).rows.contains_key(entity));
            }
        }
        self.generations.note_gpu_bearing_insert(entity.index(), entity.generation());
        let row: u32 = self.component_rows.acquire(component_id, entity);
        let ghost present = m.store.is_present(component_id, row);
        let first: bool = match self.store.mark_component_present(component_id, row) {
            Some(t) => t,
            None => false,
        };
        proof {
            let made = self.store@;
            assert(made == m.store.made_present(component_id, row));
            assert(row == m.row_for(component_id, entity));
            assert(made.mirrors == m.store.mirrors);
            assert forall|i: int| 0 <= i < made.mirrors[component_id].len() implies made.writable(
                (#[trigger] made.mirrors[component_id][i]).field_token.type_id,
                row,
                made.mirrors[component_id][i].field_token.layout.size as nat,
            ) by {
                assert(m.store.writable(
                    m.store.mirrors[component_id][i].field_token.type_id,
                    row,
                    m.store.mirrors[component_id][i].field_token.layout.size as nat,
                ));
            }
            assert(value_fits(made, component_id, *value)) by {
                assert forall|i: int| 0 <= i < made.mirrors[component_id].len() implies value.gpu_field(
                    component_id,
                    (#[trigger] made.mirrors[component_id][i]).field_token.type_id,
                ).len() == made.mirrors[component_id][i].field_token.layout.size by {
                    assert(m.store.mirrors[component_id][i] == made.mirrors[component_id][i]);
                }
            }
        }
        let out = write_changed_gpu_columns_at_row(&mut self.store, row, component_id, value, prev, first);
        proof {
            let want = m.inserted(component_id, entity, *value, borrowed(prev));
            assert(self@.rows =~= want.0.rows);
            assert((self@, out) == want);
            assert forall|c: ComponentId| (#[trigger] self@.rows[c]).well_formed() by {
                assert(self.component_rows.of(c).well_formed());
            }
        }
        out
    }

    /// Mirrors that a component of an entity is gone.
    pub fn note_remove(&mut self, component_id: ComponentId, entity: Entity) -> (out: Result<(), CapacityError>)
        requires
            old(self).well_formed(),
            old(self)@.clears(component_id, entity),
        ensures
            final(self).well_formed(),
            (final(self)@, out) == old(self)@.removed(component_id, entity),
    {
        let ghost m = self@;
        if self.store.gpu_column_descs_for_component(component_id).is_none() {
            return Ok(());
        }
        let row: u32 = match self.component_rows.get(component_id, entity) {
            Some(r) => r,
            None => {
                return Ok(());
            },
        };
        proof {
            self.lemma_rows_ok();
        }
        let was = self.store.mark_component_absent(component_id, row);
        proof {
            let made = self.store@;
            assert(made == m.store.made_absent(component_id, row));
            assert(made.mirrors == m.store.mirrors);
            assert forall|i: int| 0 <= i < made.mirrors[component_id].len() implies made.writable(
                (#[trigger] made.mirrors[component_id][i]).field_token.type_id,
                row,
                made.mirrors[component_id][i].field_token.layout.size as nat,
            ) by {
                assert(m.store.writable(
                    m.store.mirrors[component_id][i].field_token.type_id,
                    row,
                    m.store.mirrors[component_id][i].field_token.layout.size as nat,
                ));
            }
        }
        let out = clear_gpu_columns_at_row(&mut self.store, row, component_id);
        self.component_rows.release(component_id, entity);
        proof {
            let want = m.removed(component_id, entity);
            assert(self@.rows =~= want.0.rows);
            assert((self@, out) == want);
            assert forall|c: ComponentId| (#[trigger] self@.rows[c]).well_formed() by {
                assert(self.component_rows.of(c).well_formed());
            }
        }
        out
    }

    /// Mirrors that the slot of a despawned entity has moved on.
    pub fn note_despawn(&mut self, entity: Entity, new_generation: u32)
        requires
            old(self).well_formed(),
            entity.index() < u32::MAX,
        ensures
            final(self).well_formed(),
            final(self)@ == (MirrorModel {
                generations: old(self)@.generations.despawned(entity.index(), new_generation),
                ..old(self)@
            }),
    {
        let ghost m = self@;
        self.generations.note_despawn(entity.index(), new_generation);
        proof {
            assert(self@.rows =~= m.rows);
        }
    }

    /// Whether everything that is to be uploaded fits on the device.
    pub fn fits(&self) -> (yes: bool)
        requires
            self.well_formed(),
        ensures
            yes == self@.fits(),
    {
        let a: bool = self.generations.fits(self.store.max_buffer_size());
        let b: bool = self.store.fits();
        a && b
    }

    /// Uploads everything that changed since the last flush: generations, and
    /// the columns of the store.
    pub fn flush(&mut self) -> (stats: SyncStats)
        requires
            old(self).well_formed(),
            old(self)@.fits(),
        ensures
            final(self).well_formed(),
            final(self)@ == old(self)@.flushed(),
            stats == old(self)@.flush_stats(),
    {
        let ghost m = self@;
        let a = self.generations.flush(self.store.max_buffer_size(), &mut self.generation_queue);
        let b = self.store.flush_gpu_mirror();
        proof {
            assert(self@.rows =~= m.rows);
        }
        a.plus(b)
    }

    /// Grows the generation column and every column of the store to at least
    /// `n` rows, until one refuses.
    pub fn reserve(&mut self, n: u32) -> (out: Result<(), CapacityError>)
        requires
            old(self).well_formed(),
        ensures
            final(self).well_formed(),
            mirror_reserved(old(self)@, final(self)@, n, out),
    {
        let ghost m = self@;
        match self.generations.reserve(self.store.max_buffer_size(), &mut self.generation_queue, n) {
            Ok(_) => {},
            Err(e) => {
                proof {
                    assert(self@.rows =~= m.rows);
                }
                return Err(e);
            },
        }
        let out = self.store.reserve_world_mirror_capacity(n);
        proof {
            assert(self@.rows =~= m.rows);
        }
        out
    }

    /// Grows the columns of one component type to at least `capacity` rows,
    /// until one refuses.
    pub fn reserve_gpu_component_capacity(&mut self, component_id: ComponentId, capacity: u32) -> (out: Result<
        (),
        CapacityError,
    >)
        requires
            old(self).well_formed(),
        ensures
            final(self).well_formed(),
            component_reserved(old(self)@, final(self)@, component_id, capacity, out),
    {
        let ghost m = self@;
        let out = self.store.reserve_world_component_capacity(component_id, capacity);
        proof {
            assert(self@.rows =~= m.rows);
        }
        out
    }

    /// Cuts the generation column and every column of the store to as many rows
    /// as cover `highest_live_row`, and `headroom` more.
    pub fn shrink_to_fit(&mut self, highest_live_row: u32, headroom: u32)
        requires
            old(self).well_formed(),
        ensures
            final(self).well_formed(),
            mirror_shrunk(old(self)@, final(self)@, covering_rows(highest_live_row, headroom)),
    {
        let ghost m = self@;
        let target: u32 = count_covering_rows(highest_live_row, headroom);
        self.generations.shrink_to_fit(&mut self.generation_queue, target);
        self.store.shrink_world_mirror_to_fit(target);
        proof {
            assert(self@.rows =~= m.rows);
        }
    }

    /// Cuts the columns of one component type to its rows, and `headroom` more.
    /// Returns whether a device buffer shrank. No row moves.
    pub fn shrink_gpu_component_to_fit(&mut self, component_id: ComponentId, headroom: u32) -> (shrank: bool)
        requires
            old(self).well_formed(),
        ensures
            final(self).well_formed(),
            component_shrunk(
                old(self)@,
                final(self)@,
                component_id,
                covering_rows(old(self)@.last_row(component_id), headroom),
                shrank,
            ),
    {
        let ghost m = self@;
        let span: u32 = self.gpu_row_span_for_component(component_id);
        let last: u32 = if span > 0 {
            span - 1
        } else {
            0
        };
        let target: u32 = count_covering_rows(last, headroom);
        let shrank = self.store.shrink_world_component_to_fit(component_id, target);
        proof {
            assert(self@.rows =~= m.rows);
        }
        shrank
    }

    /// Takes the commands on the generation column out, for execution.
    pub fn take_generation_commands(&mut self) -> (queue: CommandQueue)
        ensures
            queue@ == old(self)@.commands,
            final(self)@ == (MirrorModel { commands: Seq::empty(), ..old(self)@ }),
    {
        let ghost m = self@;
        let mut queue = CommandQueue::new();
        std::mem::swap(&mut queue, &mut self.generation_queue);
        proof {
            assert(self@.rows =~= m.rows);
        }
        queue
    }
}

impl MirrorModel {
    /// Everything that is to be uploaded fits on the device.
    pub open spec fn fits(self) -> bool {
        &&& self.generations.column.shadow.len() <= greatest(
            self.generations.column.buffer.capacity as nat,
            self.generations.column.buffer.limit(self.store.max_buffer_size),
        )
        &&& self.store.fits()
    }

    /// Everything was uploaded.
    pub open spec fn flushed(self) -> MirrorModel {
        let limit = self.store.max_buffer_size;
        MirrorModel {
            store: self.store.flushed(),
            generations: GenerationModel {
                column: self.generations.column.flushed(limit),
                ..self.generations
            },
            commands: self.commands + self.generations.column.flush_commands(limit),
            ..self
        }
    }

    /// What that moved, wrapping around.
    pub open spec fn flush_stats(self) -> SyncStats {
        let after = self.generations.column.settled(self.store.max_buffer_size);
        let rows = marked_rows(after.dirty);
        SyncStats::sum(upload_stats(rows, after.values(rows), 4), self.store.flush_stats())
    }
}

} // verus!

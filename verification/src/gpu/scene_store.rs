//! The device-side store: the columns of resident cells and of world
//! components, and which field belongs to which.

use vstd::prelude::*;
use crate::component::ComponentId;
use crate::dense::DenseMap;
use crate::gpu::cell_store::{CellStore, FixedModel, RegionClassConfig, StoreModel};
use crate::gpu::column::{column_models, copy_columns, ColumnModel, GpuColumnDesc};
use crate::gpu::dirty_tracked_scene_buffer::DirtyTrackedReallocationPolicy;
use crate::gpu::partner::{GpuBufferResidency, GpuPartnerRegistry, PartnerError, PartnerModel};
use crate::gpu::world_column::{column_map, columns_ok, BufferKind, WorldColumn, WorldColumnModel};

pub mod cells;
pub mod columns;
pub mod flush;

verus! {

/// Sizes of a store.
#[derive(Debug)]
pub struct SceneGpuConfig {
    pub classes: Vec<RegionClassConfig>,
    /// Slots that a region has beyond its rows, for slots that wait for their
    /// retirement.
    pub tombstone_headroom: u32,
}

impl SceneGpuConfig {
    /// The usual headroom.
    pub fn default_headroom() -> (n: u32)
        ensures
            n == 64,
    {
        64
    }
}

/// The device-side store.
#[derive(Debug)]
pub struct SceneGpuStore {
    max_buffer_size: u64,
    policy: DirtyTrackedReallocationPolicy,
    partners: GpuPartnerRegistry,
    mirrors: DenseMap<Vec<GpuColumnDesc>>,
    transform: ComponentId,
    instance_info: ComponentId,
    cells: CellStore,
    columns: DenseMap<WorldColumn>,
    presence: DenseMap<WorldColumn>,
}

/// The value of a [`SceneGpuStore`].
pub struct SceneModel {
    /// Bytes of the largest buffer that the device can hold.
    pub max_buffer_size: u64,
    /// How columns with a shadow keep their contents when reallocated.
    pub policy: DirtyTrackedReallocationPolicy,
    pub partners: PartnerModel,
    /// The mirrored fields of every mirrored component type.
    pub mirrors: Map<ComponentId, Seq<ColumnModel>>,
    /// The column of cells that holds transforms.
    pub transform: ComponentId,
    /// The column of cells that holds instance data.
    pub instance_info: ComponentId,
    pub cells: StoreModel,
    /// The columns of world components.
    pub columns: Map<ComponentId, WorldColumnModel>,
    /// The presence columns of world components, by component type.
    pub presence: Map<ComponentId, WorldColumnModel>,
}

impl View for SceneGpuStore {
    type V = SceneModel;

    closed spec fn view(&self) -> SceneModel {
        SceneModel {
            max_buffer_size: self.max_buffer_size,
            policy: self.policy,
            partners: self.partners@,
            mirrors: self.mirrors@.map_values(|v: Vec<GpuColumnDesc>| column_models(v@)),
            transform: self.transform,
            instance_info: self.instance_info,
            cells: self.cells@,
            columns: column_map(self.columns@),
            presence: column_map(self.presence@),
        }
    }
}

/// The allocation domain of a column.
pub open spec fn residency_of(kind: BufferKind) -> Option<GpuBufferResidency> {
    match kind {
        BufferKind::Growable(_) => Some(GpuBufferResidency::GrowableWorld),
        BufferKind::Shadowed(_) => Some(GpuBufferResidency::DirtyTrackedWorld),
        BufferKind::Once(_) => Some(GpuBufferResidency::OnceWorld),
        BufferKind::Presence(_) => None,
    }
}

impl SceneModel {
    /// A store without fields, columns and cells.
    pub open spec fn empty(
        max_buffer_size: u64,
        classes: Seq<RegionClassConfig>,
        headroom: u32,
        transform: ComponentId,
        instance_info: ComponentId,
    ) -> SceneModel {
        SceneModel {
            max_buffer_size,
            policy: DirtyTrackedReallocationPolicy::GpuCopy,
            partners: PartnerModel::none(),
            mirrors: Map::empty(),
            transform,
            instance_info,
            cells: StoreModel {
                fixed: Map::empty(),
                slot_mirror: Seq::empty(),
                generations: Seq::empty(),
                phase: crate::gpu::cell_store::Phase::Write,
                row_pools: Seq::new(classes.len(), |i: int| crate::gpu::cell_store::row_pool(classes, i)),
                slot_pools: Seq::new(
                    classes.len(),
                    |i: int| crate::gpu::cell_store::slot_pool(classes, headroom, i),
                ),
                cells: Seq::empty(),
                gen_writes: 0,
            },
            columns: Map::empty(),
            presence: Map::empty(),
        }
    }

    /// The invariant of every store: a column is in the domain that claimed
    /// it, so that no field has two columns.
    pub open spec fn well_formed(self) -> bool {
        &&& self.partners.well_formed()
        &&& self.cells.well_formed()
        &&& columns_ok(self.columns)
        &&& columns_ok(self.presence)
        &&& forall|c: ComponentId| #[trigger]
            self.columns.contains_key(c) ==> (residency_of(self.columns[c].kind) matches Some(r)
                && self.partners.residencies.contains_key(c) && self.partners.residencies[c] == r)
        &&& forall|c: ComponentId| #[trigger]
            self.presence.contains_key(c) ==> self.presence[c].kind is Presence
        &&& forall|c: ComponentId| #[trigger]
            self.cells.fixed.contains_key(c) ==> self.partners.residencies.contains_key(c)
                && self.partners.residencies[c] == GpuBufferResidency::FixedCell
    }

    /// Whether a field has a column under its own id.
    pub open spec fn allocated(self, id: ComponentId) -> bool {
        self.cells.fixed.contains_key(id) || self.columns.contains_key(id)
    }

    /// Why a field is refused, if it is: it would have to share a column, but
    /// has one of its own, or the registry refuses it.
    pub open spec fn refusal(self, d: ColumnModel) -> Option<PartnerError> {
        let id = d.field_token.type_id;
        if d.buffer_key matches Some(k) && self.partners.named.contains_key(k) && self.partners.named[k] != id
            && self.allocated(id) {
            Some(PartnerError::Allocated)
        } else {
            self.partners.refusal(d)
        }
    }

    /// The registry with the fields, up to the first that is refused.
    pub open spec fn described(self, descs: Seq<ColumnModel>) -> (SceneModel, Result<(), PartnerError>)
        decreases descs.len(),
    {
        if descs.len() == 0 {
            (self, Ok(()))
        } else {
            let before = self.described(descs.drop_last());
            if before.1 is Err {
                before
            } else {
                match before.0.refusal(descs.last()) {
                    Some(e) => (before.0, Err(e)),
                    None => (
                        SceneModel { partners: before.0.partners.registered(descs.last()), ..before.0 },
                        Ok(()),
                    ),
                }
            }
        }
    }

    /// The column of a field was claimed for a domain.
    pub open spec fn claimed(self, field: ComponentId, r: GpuBufferResidency) -> SceneModel {
        SceneModel {
            partners: PartnerModel {
                residencies: self.partners.residencies.insert(self.partners.resolve(field), r),
                ..self.partners
            },
            ..self
        }
    }

    /// Whether another domain has the column of a field.
    pub open spec fn taken(self, field: ComponentId, r: GpuBufferResidency) -> bool {
        let c = self.partners.resolve(field);
        self.partners.residencies.contains_key(c) && self.partners.residencies[c] != r
    }

    /// A column of world components has a new value.
    pub open spec fn with_column(self, c: ComponentId, column: WorldColumnModel) -> SceneModel {
        SceneModel { columns: self.columns.insert(c, column), ..self }
    }

    /// A presence column has a new value.
    pub open spec fn with_presence(self, c: ComponentId, column: WorldColumnModel) -> SceneModel {
        SceneModel { presence: self.presence.insert(c, column), ..self }
    }

    /// A column of fixed capacity has a new value.
    pub open spec fn with_fixed(self, c: ComponentId, column: FixedModel) -> SceneModel {
        SceneModel { cells: StoreModel { fixed: self.cells.fixed.insert(c, column), ..self.cells }, ..self }
    }
}

/// No field has two columns: one of fixed capacity and one of world
/// components exclude each other.
pub proof fn lemma_one_column_each(m: SceneModel, c: ComponentId)
    requires
        m.well_formed(),
    ensures
        !(m.cells.fixed.contains_key(c) && m.columns.contains_key(c)),
{
    if m.cells.fixed.contains_key(c) && m.columns.contains_key(c) {
        assert(residency_of(m.columns[c].kind) is Some);
    }
}

impl SceneGpuStore {
    /// The invariant of every store.
    pub open spec fn well_formed(&self) -> bool {
        self@.well_formed()
    }

    /// A store without fields, columns and cells, for a device whose largest
    /// buffer has `max_buffer_size` bytes; `None` if the size classes do not
    /// fit into the numbers of rows and slots.
    fn empty(
        max_buffer_size: u64,
        cfg: &SceneGpuConfig,
        transform: ComponentId,
        instance_info: ComponentId,
    ) -> (store: Option<SceneGpuStore>)
        ensures
            store is Some <==> crate::gpu::cell_store::layout_fits(cfg.classes@, cfg.tombstone_headroom),
            store matches Some(s) ==> {
                &&& s.well_formed()
                &&& s@ == SceneModel::empty(
                    max_buffer_size,
                    cfg.classes@,
                    cfg.tombstone_headroom,
                    transform,
                    instance_info,
                )
            },
    {
        match CellStore::new(&cfg.classes, cfg.tombstone_headroom) {
            Some(cells) => {
                let store = SceneGpuStore {
                    max_buffer_size,
                    policy: DirtyTrackedReallocationPolicy::GpuCopy,
                    partners: GpuPartnerRegistry::new(),
                    mirrors: DenseMap::new(),
                    transform,
                    instance_info,
                    cells,
                    columns: DenseMap::new(),
                    presence: DenseMap::new(),
                };
                proof {
                    assert(store@.mirrors =~= Map::<ComponentId, Seq<ColumnModel>>::empty());
                    assert(store@.columns =~= Map::<ComponentId, WorldColumnModel>::empty());
                    assert(store@.presence =~= Map::<ComponentId, WorldColumnModel>::empty());
                }
                Some(store)
            },
            None => None,
        }
    }

    /// Selects how columns with a shadow keep their contents when reallocated.
    /// This must come before such columns are registered.
    pub fn set_dirty_tracked_reallocation_policy(&mut self, policy: DirtyTrackedReallocationPolicy)
        requires
            old(self).well_formed(),
            forall|c: ComponentId| #[trigger]
                old(self)@.columns.contains_key(c) ==> !(old(self)@.columns[c].kind is Shadowed),
            old(self)@.presence.dom() == Set::<ComponentId>::empty(),
        ensures
            final(self).well_formed(),
            final(self)@ == (SceneModel { policy, ..old(self)@ }),
    {
        self.policy = policy;
    }

    /// Bytes of the largest buffer that the device can hold.
    pub fn max_buffer_size(&self) -> (n: u64)
        ensures
            n == self@.max_buffer_size,
    {
        self.max_buffer_size
    }

    pub fn dirty_tracked_reallocation_policy(&self) -> (policy: DirtyTrackedReallocationPolicy)
        ensures
            policy == self@.policy,
    {
        self.policy
    }

    /// Makes mirrored fields known, up to the first that is refused. Fields
    /// that share a column must be known before the column is allocated.
    pub fn register_gpu_column_descs(&mut self, descs: &Vec<GpuColumnDesc>) -> (out: Result<(), PartnerError>)
        requires
            old(self).well_formed(),
            forall|i: int| 0 <= i < descs@.len() ==> (#[trigger] descs@[i]).field_token.type_id.0 < usize::MAX,
        ensures
            final(self).well_formed(),
            (final(self)@, out) == old(self)@.described(column_models(descs@)),
    {
        let ghost m = self@;
        let ghost all = column_models(descs@);
        let mut i: usize = 0;
        proof {
            assert(all.take(0) =~= Seq::<ColumnModel>::empty());
        }
        while i < descs.len()
            invariant
                i <= descs@.len(),
                all == column_models(descs@),
                all.len() == descs@.len(),
                forall|k: int| 0 <= k < descs@.len() ==> (#[trigger] descs@[k]).field_token.type_id.0 < usize::MAX,
                self.well_formed(),
                m == old(self)@,
                (self@, Ok::<(), PartnerError>(())) == m.described(all.take(i as int)),
            decreases descs@.len() - i,
        {
            let ghost before = self@;
            let desc = &descs[i];
            proof {
                assert(all.take(i + 1).drop_last() =~= all.take(i as int));
                assert(all.take(i + 1).last() == desc@);
            }
            let id = desc.field_token.id();
            if let Some(key) = &desc.buffer_key {
                if let Some(column) = self.partners.id_for_key(key) {
                    if column != id && (self.cells.fixed_column(id).is_some() || self.columns.contains(id)) {
                        proof {
                            assert(before.refusal(desc@) == Some(PartnerError::Allocated));
                            lemma_described_stops(m, all, i + 1);
                        }
                        return Err(PartnerError::Allocated);
                    }
                }
            }
            proof {
                assert(before.refusal(desc@) == before.partners.refusal(desc@));
            }
            match self.partners.register(desc.copy()) {
                Ok(_) => {},
                Err(e) => {
                    proof {
                        lemma_described_stops(m, all, i + 1);
                    }
                    return Err(e);
                },
            }
            i = i + 1;
        }
        proof {
            assert(all.take(all.len() as int) =~= all);
        }
        Ok(())
    }

    /// The column that a field belongs to.
    pub fn resolve_gpu_buffer_id(&self, id: ComponentId) -> (column: ComponentId)
        ensures
            column == self@.partners.resolve(id),
    {
        self.partners.resolve(id)
    }

    /// The column of a key, if it is in use.
    pub fn gpu_buffer_id_for_key(&self, key: &String) -> (found: Option<ComponentId>)
        ensures
            match found {
                Some(c) => self@.partners.named.contains_key(key@) && self@.partners.named[key@] == c,
                None => !self@.partners.named.contains_key(key@),
            },
    {
        self.partners.id_for_key(key)
    }

    /// Claims the column of a field for the rows of one component type.
    pub fn register_world_gpu_column_owner(&mut self, owner: ComponentId, field_id: ComponentId) -> (out: Result<
        (),
        PartnerError,
    >)
        requires
            old(self).well_formed(),
            old(self)@.partners.resolve(field_id).0 < usize::MAX,
        ensures
            final(self).well_formed(),
            ({
                let column = old(self)@.partners.resolve(field_id);
                let taken = old(self)@.partners.world_owners.contains_key(column)
                    && old(self)@.partners.world_owners[column] != owner;
                &&& out == (if taken {
                    Err::<(), PartnerError>(PartnerError::Owner)
                } else {
                    Ok(())
                })
                &&& final(self)@ == (if taken {
                    old(self)@
                } else {
                    SceneModel {
                        partners: PartnerModel {
                            world_owners: old(self)@.partners.world_owners.insert(column, owner),
                            ..old(self)@.partners
                        },
                        ..old(self)@
                    }
                })
            }),
    {
        self.partners.claim_world_owner(owner, field_id)
    }

    /// Makes a component type mirrored, with the given fields.
    pub fn register_world_mirror_registration(&mut self, id: ComponentId, descriptors: Vec<GpuColumnDesc>) -> (out:
        Result<(), PartnerError>)
        requires
            old(self).well_formed(),
            id.0 < usize::MAX,
        ensures
            final(self).well_formed(),
            out == (if old(self)@.mirrors.contains_key(id) {
                Err::<(), PartnerError>(PartnerError::Known)
            } else {
                Ok(())
            }),
            final(self)@ == (if old(self)@.mirrors.contains_key(id) {
                old(self)@
            } else {
                SceneModel {
                    mirrors: old(self)@.mirrors.insert(id, column_models(descriptors@)),
                    ..old(self)@
                }
            }),
    {
        let ghost before = self@;
        if self.mirrors.contains(id) {
            return Err(PartnerError::Known);
        }
        let ghost models = column_models(descriptors@);
        self.mirrors.set(id, descriptors);
        proof {
            assert(self@.mirrors =~= before.mirrors.insert(id, models));
        }
        Ok(())
    }

    /// The mirrored fields of a component type, if it is mirrored.
    pub fn gpu_column_descs_for_component(&self, id: ComponentId) -> (found: Option<Vec<GpuColumnDesc>>)
        ensures
            match found {
                Some(v) => self@.mirrors.contains_key(id) && column_models(v@) == self@.mirrors[id],
                None => !self@.mirrors.contains_key(id),
            },
    {
        match self.mirrors.get(id) {
            Some(v) => Some(copy_columns(v)),
            None => None,
        }
    }
}

proof fn lemma_described_stops(m: SceneModel, descs: Seq<ColumnModel>, k: int)
    requires
        0 <= k <= descs.len(),
        m.described(descs.take(k)).1 is Err,
    ensures
        m.described(descs) == m.described(descs.take(k)),
    decreases descs.len(),
{
    if k == descs.len() {
        assert(descs.take(k) =~= descs);
    } else {
        assert(descs.drop_last().take(k) =~= descs.take(k));
        lemma_described_stops(m, descs.drop_last(), k);
    }
}

} // verus!

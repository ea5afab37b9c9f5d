//! Which device column each mirrored field belongs to.

use vstd::prelude::*;
use crate::component::ComponentId;
use crate::dense::DenseMap;
use crate::gpu::column::{ColumnModel, GpuColumnDesc};

verus! {

/// Where the rows of a device column are managed.
#[derive(Copy, Clone, Debug, PartialEq, Eq, Structural)]
pub enum GpuBufferResidency {
    FixedCell,
    GrowableWorld,
    DirtyTrackedWorld,
    OnceWorld,
}

/// Why a field or a column was refused.
#[derive(Copy, Clone, Debug, PartialEq, Eq, Structural)]
pub enum PartnerError {
    /// The field and its value have different layouts.
    FieldLayout,
    /// The key is empty.
    EmptyKey,
    /// The field is known with another description.
    Metadata,
    /// The key is in use by rows of another layout.
    RowLayout,
    /// The key is in use by rows of another type.
    RowType,
    /// The key is in use with another mirror mode.
    Mode,
    /// The column belongs to another allocation domain.
    Residency,
    /// The column belongs to another component type.
    Owner,
    /// The field has a column of its own already.
    Allocated,
    /// The column has rows of another size.
    RowSize,
    /// The column has another capacity.
    Capacity,
    /// The component type is known already.
    Known,
}

/// Joins mirrored fields to device columns: fields with the same key share the
/// column of the first of them.
#[derive(Debug)]
pub struct GpuPartnerRegistry {
    aliases: DenseMap<ComponentId>,
    descriptors: DenseMap<GpuColumnDesc>,
    residencies: DenseMap<GpuBufferResidency>,
    world_owners: DenseMap<ComponentId>,
    named: Vec<(String, ComponentId)>,
}

/// The value of a [`GpuPartnerRegistry`].
pub struct PartnerModel {
    /// The column of every known field.
    pub aliases: Map<ComponentId, ComponentId>,
    pub descriptors: Map<ComponentId, ColumnModel>,
    pub residencies: Map<ComponentId, GpuBufferResidency>,
    /// The component type that a column belongs to.
    pub world_owners: Map<ComponentId, ComponentId>,
    /// The column of every key.
    pub named: Map<Seq<char>, ComponentId>,
}

/// Whether some entry has the given key.
pub open spec fn has_key(named: Seq<(String, ComponentId)>, key: Seq<char>) -> bool {
    exists|i: int| 0 <= i < named.len() && (#[trigger] named[i]).0@ == key
}

/// The first entry with the given key.
pub open spec fn key_index(named: Seq<(String, ComponentId)>, key: Seq<char>) -> int {
    choose|i: int|
        0 <= i < named.len() && (#[trigger] named[i]).0@ == key && forall|j: int|
            0 <= j < i ==> (#[trigger] named[j]).0@ != key
}

/// A list of keys with their columns, as a map. Of two entries with one key
/// the first counts.
pub open spec fn named_map(named: Seq<(String, ComponentId)>) -> Map<Seq<char>, ComponentId> {
    Map::new(|k: Seq<char>| has_key(named, k), |k: Seq<char>| named[key_index(named, k)].1)
}

proof fn lemma_key_index(named: Seq<(String, ComponentId)>, key: Seq<char>, i: int)
    requires
        0 <= i < named.len(),
        named[i].0@ == key,
        forall|j: int| 0 <= j < i ==> (#[trigger] named[j]).0@ != key,
    ensures
        named_map(named).contains_key(key),
        named_map(named)[key] == named[i].1,
{
    let k = key_index(named, key);
    assert(named[k].0@ == key);
    assert(k == i) by {
        if k < i {
            assert(named[k].0@ != key);
        }
        if i < k {
            assert(named[i].0@ != key);
        }
    }
}

proof fn lemma_first_key(named: Seq<(String, ComponentId)>, key: Seq<char>, i: int)
    requires
        0 <= i < named.len(),
        named[i].0@ == key,
    ensures
        exists|f: int|
            0 <= f < named.len() && (#[trigger] named[f]).0@ == key && forall|j: int|
                0 <= j < f ==> (#[trigger] named[j]).0@ != key,
    decreases i,
{
    if exists|j: int| 0 <= j < i && (#[trigger] named[j]).0@ == key {
        let j = choose|j: int| 0 <= j < i && (#[trigger] named[j]).0@ == key;
        lemma_first_key(named, key, j);
    } else {
        assert(named[i].0@ == key);
    }
}

proof fn lemma_named_push(named: Seq<(String, ComponentId)>, key: String, c: ComponentId)
    requires
        !has_key(named, key@),
    ensures
        named_map(named.push((key, c))) == named_map(named).insert(key@, c),
{
    let after = named.push((key, c));
    let want = named_map(named).insert(key@, c);
    let n = named.len() as int;
    assert forall|k: Seq<char>| #[trigger] named_map(after).contains_key(k) <==> want.contains_key(k) by {
        if has_key(named, k) {
            let i = choose|i: int| 0 <= i < named.len() && (#[trigger] named[i]).0@ == k;
            assert(after[i].0@ == k);
        }
        if has_key(after, k) {
            let i = choose|i: int| 0 <= i < after.len() && (#[trigger] after[i]).0@ == k;
            if i < n {
                assert(named[i].0@ == k);
            }
        }
        assert(after[n].0@ == key@);
    }
    assert forall|k: Seq<char>| #[trigger] named_map(after).contains_key(k) implies named_map(after)[k] == want[k] by {
        if k == key@ {
            assert forall|j: int| 0 <= j < n implies (#[trigger] after[j]).0@ != k by {
                assert(named[j].0@ != k);
            }
            lemma_key_index(after, k, n);
        } else {
            assert(want.contains_key(k));
            let i = choose|i: int| 0 <= i < named.len() && (#[trigger] named[i]).0@ == k;
            lemma_first_key(named, k, i);
            let f = choose|f: int|
                0 <= f < named.len() && (#[trigger] named[f]).0@ == k && forall|j: int|
                    0 <= j < f ==> (#[trigger] named[j]).0@ != k;
            lemma_key_index(named, k, f);
            assert forall|j: int| 0 <= j < f implies (#[trigger] after[j]).0@ != k by {
                assert(named[j].0@ != k);
            }
            assert(after[f].0@ == k);
            lemma_key_index(after, k, f);
        }
    }
    assert(named_map(after) =~= want);
}

impl View for GpuPartnerRegistry {
    type V = PartnerModel;

    closed spec fn view(&self) -> PartnerModel {
        PartnerModel {
            aliases: self.aliases@,
            descriptors: self.descriptors@.map_values(|d: GpuColumnDesc| d@),
            residencies: self.residencies@,
            world_owners: self.world_owners@,
            named: named_map(self.named@),
        }
    }
}

impl PartnerModel {
    /// No field is known.
    pub open spec fn none() -> PartnerModel {
        PartnerModel {
            aliases: Map::empty(),
            descriptors: Map::empty(),
            residencies: Map::empty(),
            world_owners: Map::empty(),
            named: Map::empty(),
        }
    }

    /// The column that a field belongs to; an unknown field has its own.
    pub open spec fn resolve(self, id: ComponentId) -> ComponentId {
        if self.aliases.contains_key(id) {
            self.aliases[id]
        } else {
            id
        }
    }

    /// Every known field is in the column of its key, or in its own if it has
    /// none, and agrees with the field that the column is named after.
    pub open spec fn well_formed(self) -> bool {
        &&& self.aliases.dom() == self.descriptors.dom()
        &&& forall|f: ComponentId| #[trigger]
            self.descriptors.contains_key(f) ==> {
                &&& self.descriptors[f].field_token.type_id == f
                &&& self.descriptors[f].buffer_key is None ==> self.aliases[f] == f
                &&& self.descriptors[f].buffer_key matches Some(k) ==> self.named.contains_key(k)
                    && self.aliases[f] == self.named[k]
                &&& self.descriptors[self.aliases[f]].value_token == self.descriptors[f].value_token
                &&& self.descriptors[self.aliases[f]].mode == self.descriptors[f].mode
            }
        &&& forall|k: Seq<char>| #[trigger]
            self.named.contains_key(k) ==> self.descriptors.contains_key(self.named[k])
                && self.descriptors[self.named[k]].buffer_key == Some(k)
    }

    /// Why a field is refused, if it is.
    pub open spec fn refusal(self, d: ColumnModel) -> Option<PartnerError> {
        let id = d.field_token.type_id;
        if d.field_token.layout != d.value_token.layout {
            Some(PartnerError::FieldLayout)
        } else if d.buffer_key matches Some(k) && k.len() == 0 {
            Some(PartnerError::EmptyKey)
        } else if self.descriptors.contains_key(id) {
            if self.descriptors[id] != d {
                Some(PartnerError::Metadata)
            } else {
                None
            }
        } else {
            match d.buffer_key {
                Some(k) if self.named.contains_key(k) => {
                    let first = self.descriptors[self.named[k]];
                    if first.value_token.layout != d.value_token.layout {
                        Some(PartnerError::RowLayout)
                    } else if first.value_token != d.value_token {
                        Some(PartnerError::RowType)
                    } else if first.mode != d.mode {
                        Some(PartnerError::Mode)
                    } else {
                        None
                    }
                },
                _ => None,
            }
        }
    }

    /// The registry with a field that it does not refuse.
    pub open spec fn registered(self, d: ColumnModel) -> PartnerModel {
        let id = d.field_token.type_id;
        if self.descriptors.contains_key(id) {
            self
        } else {
            let column = match d.buffer_key {
                Some(k) if self.named.contains_key(k) => self.named[k],
                _ => id,
            };
            PartnerModel {
                aliases: self.aliases.insert(id, column),
                descriptors: self.descriptors.insert(id, d),
                named: match d.buffer_key {
                    Some(k) if !self.named.contains_key(k) => self.named.insert(k, id),
                    _ => self.named,
                },
                ..self
            }
        }
    }
}

/// Keeps a registry well-formed: fields that share a key share a column, and
/// agree on row type and mode.
pub proof fn lemma_registered(m: PartnerModel, d: ColumnModel)
    requires
        m.well_formed(),
        m.refusal(d) is None,
    ensures
        m.registered(d).well_formed(),
        d.buffer_key matches Some(k) ==> m.registered(d).resolve(d.field_token.type_id) == m.registered(d).named[k],
        d.buffer_key is None ==> m.registered(d).resolve(d.field_token.type_id) == d.field_token.type_id,
        m.registered(d).descriptors[d.field_token.type_id] == d,
{
    let id = d.field_token.type_id;
    if !m.descriptors.contains_key(id) {
        let after = m.registered(d);
        assert(after.aliases.dom() =~= after.descriptors.dom());
        assert forall|f: ComponentId| #[trigger] after.descriptors.contains_key(f) implies {
            &&& after.descriptors[f].field_token.type_id == f
            &&& after.descriptors[f].buffer_key is None ==> after.aliases[f] == f
            &&& after.descriptors[f].buffer_key matches Some(k) ==> after.named.contains_key(k)
                && after.aliases[f] == after.named[k]
            &&& after.descriptors[after.aliases[f]].value_token == after.descriptors[f].value_token
            &&& after.descriptors[after.aliases[f]].mode == after.descriptors[f].mode
        } by {
            if f != id {
                assert(m.descriptors.contains_key(f));
                if m.descriptors[f].buffer_key is Some {
                    let k = m.descriptors[f].buffer_key.unwrap();
                    assert(m.named.contains_key(k));
                    assert(m.descriptors.contains_key(m.named[k]));
                }
            }
        }
    }
}

/// Two fields with the same key share one column, one row type and one mode.
pub proof fn lemma_same_key_same_column(m: PartnerModel, a: ComponentId, b: ComponentId)
    requires
        m.well_formed(),
        m.descriptors.contains_key(a),
        m.descriptors.contains_key(b),
        m.descriptors[a].buffer_key is Some,
        m.descriptors[a].buffer_key == m.descriptors[b].buffer_key,
    ensures
        m.resolve(a) == m.resolve(b),
        m.descriptors[a].value_token == m.descriptors[b].value_token,
        m.descriptors[a].mode == m.descriptors[b].mode,
{
    assert(m.aliases.dom().contains(a) && m.aliases.dom().contains(b));
}

/// A field without a key shares its column with no other field, whatever
/// their display names are.
pub proof fn lemma_private_column(m: PartnerModel, a: ComponentId, b: ComponentId)
    requires
        m.well_formed(),
        m.descriptors.contains_key(a),
        m.descriptors[a].buffer_key is None,
        m.descriptors.contains_key(b),
        a != b,
    ensures
        m.resolve(a) == a,
        m.resolve(b) != a,
{
    assert(m.aliases.dom().contains(a) && m.aliases.dom().contains(b));
    if m.descriptors[b].buffer_key is Some {
        let k = m.descriptors[b].buffer_key.unwrap();
        assert(m.named.contains_key(k));
    }
}

/// The column of a field is its own column.
pub proof fn lemma_resolve_twice(m: PartnerModel, id: ComponentId)
    requires
        m.well_formed(),
    ensures
        m.resolve(m.resolve(id)) == m.resolve(id),
{
    if m.aliases.contains_key(id) {
        assert(m.descriptors.dom().contains(id));
        assert(m.descriptors.contains_key(id));
        if m.descriptors[id].buffer_key is Some {
            let k = m.descriptors[id].buffer_key.unwrap();
            assert(m.named.contains_key(k));
            assert(m.descriptors.contains_key(m.named[k]));
        }
    }
}

impl GpuPartnerRegistry {
    /// Every known field is in the column of its key, or in its own if it has
    /// none.
    pub open spec fn well_formed(&self) -> bool {
        self@.well_formed()
    }

    /// A registry without fields.
    pub fn new() -> (r: GpuPartnerRegistry)
        ensures
            r.well_formed(),
            r@ == PartnerModel::none(),
    {
        let r = GpuPartnerRegistry {
            aliases: DenseMap::new(),
            descriptors: DenseMap::new(),
            residencies: DenseMap::new(),
            world_owners: DenseMap::new(),
            named: Vec::new(),
        };
        proof {
            assert(r@.descriptors =~= Map::<ComponentId, ColumnModel>::empty());
            assert(r@.named =~= Map::<Seq<char>, ComponentId>::empty());
            assert(r@.aliases.dom() =~= r@.descriptors.dom());
        }
        r
    }

    /// The column that a field belongs to; an unknown field has its own.
    pub fn resolve(&self, id: ComponentId) -> (column: ComponentId)
        ensures
            column == self@.resolve(id),
    {
        match self.aliases.get(id) {
            Some(c) => *c,
            None => id,
        }
    }

    /// The description of a field, if it is known.
    pub fn descriptor(&self, id: ComponentId) -> (found: Option<&GpuColumnDesc>)
        ensures
            match found {
                Some(d) => self@.descriptors.contains_key(id) && self@.descriptors[id] == d@,
                None => !self@.descriptors.contains_key(id),
            },
    {
        self.descriptors.get(id)
    }

    /// The column of a key, if it is in use.
    pub fn id_for_key(&self, key: &String) -> (found: Option<ComponentId>)
        ensures
            match found {
                Some(c) => self@.named.contains_key(key@) && self@.named[key@] == c,
                None => !self@.named.contains_key(key@),
            },
    {
        let mut i: usize = 0;
        while i < self.named.len()
            invariant
                i <= self.named@.len(),
                forall|j: int| 0 <= j < i ==> (#[trigger] self.named@[j]).0@ != key@,
            decreases self.named@.len() - i,
        {
            if self.named[i].0 == *key {
                proof {
                    lemma_key_index(self.named@, key@, i as int);
                }
                return Some(self.named[i].1);
            }
            i = i + 1;
        }
        None
    }

    /// Why a field would be refused, if it would.
    pub fn check(&self, desc: &GpuColumnDesc) -> (refused: Option<PartnerError>)
        requires
            self.well_formed(),
        ensures
            refused == self@.refusal(desc@),
    {
        if desc.field_token.desc() != desc.value_token.desc() {
            return Some(PartnerError::FieldLayout);
        }
        if let Some(key) = &desc.buffer_key {
            if key.as_str().is_empty() {
                return Some(PartnerError::EmptyKey);
            }
        }
        if let Some(previous) = self.descriptor(desc.field_token.id()) {
            return if previous.same(desc) {
                None
            } else {
                Some(PartnerError::Metadata)
            };
        }
        match &desc.buffer_key {
            Some(key) => match self.id_for_key(key) {
                Some(column) => match self.descriptor(column) {
                    Some(first) => if first.value_token.desc() != desc.value_token.desc() {
                        Some(PartnerError::RowLayout)
                    } else if first.value_token != desc.value_token {
                        Some(PartnerError::RowType)
                    } else if first.mode != desc.mode {
                        Some(PartnerError::Mode)
                    } else {
                        None
                    },
                    None => None,
                },
                None => None,
            },
            None => None,
        }
    }

    /// Makes a field known. Registering it again with the same description
    /// does nothing.
    pub fn register(&mut self, desc: GpuColumnDesc) -> (out: Result<(), PartnerError>)
        requires
            old(self).well_formed(),
            desc.field_token.type_id.0 < usize::MAX,
        ensures
            final(self).well_formed(),
            match old(self)@.refusal(desc@) {
                Some(e) => out == Err::<(), PartnerError>(e) && final(self)@ == old(self)@,
                None => out == Ok::<(), PartnerError>(()) && final(self)@ == old(self)@.registered(desc@),
            },
    {
        let ghost before = self@;
        let ghost model = desc@;
        if let Some(e) = self.check(&desc) {
            return Err(e);
        }
        proof {
            lemma_registered(before, model);
        }
        let id = desc.field_token.id();
        if self.descriptors.contains(id) {
            return Ok(());
        }
        let mut column = id;
        if let Some(key) = &desc.buffer_key {
            match self.id_for_key(key) {
                Some(first) => {
                    column = first;
                },
                None => {
                    proof {
                        lemma_named_push(self.named@, *key, id);
                    }
                    let name = key.clone();
                    proof {
                        lemma_named_push(self.named@, name, id);
                    }
                    self.named.push((name, id));
                },
            }
        }
        self.aliases.set(id, column);
        self.descriptors.set(id, desc);
        proof {
            let after = before.registered(model);
            assert(self@.descriptors =~= after.descriptors);
            assert(self@.named =~= after.named);
        }
        Ok(())
    }

    /// The allocation domain that has claimed a column.
    pub fn residency(&self, column: ComponentId) -> (found: Option<GpuBufferResidency>)
        ensures
            match found {
                Some(r) => self@.residencies.contains_key(column) && self@.residencies[column] == r,
                None => !self@.residencies.contains_key(column),
            },
    {
        match self.residencies.get(column) {
            Some(r) => Some(*r),
            None => None,
        }
    }

    /// Claims a column for an allocation domain. A column has one at most.
    pub fn claim_residency(&mut self, field_id: ComponentId, residency: GpuBufferResidency) -> (out: Result<
        (),
        PartnerError,
    >)
        requires
            old(self).well_formed(),
            old(self)@.resolve(field_id).0 < usize::MAX,
        ensures
            final(self).well_formed(),
            ({
                let column = old(self)@.resolve(field_id);
                let taken = old(self)@.residencies.contains_key(column) && old(self)@.residencies[column]
                    != residency;
                &&& out == (if taken {
                    Err::<(), PartnerError>(PartnerError::Residency)
                } else {
                    Ok(())
                })
                &&& final(self)@ == (if taken {
                    old(self)@
                } else {
                    PartnerModel { residencies: old(self)@.residencies.insert(column, residency), ..old(self)@ }
                })
            }),
    {
        let column = self.resolve(field_id);
        match self.residencies.get(column) {
            Some(previous) => {
                if *previous != residency {
                    return Err(PartnerError::Residency);
                }
                proof {
                    assert(self@.residencies.insert(column, residency) =~= self@.residencies);
                }
                Ok(())
            },
            None => {
                self.residencies.set(column, residency);
                Ok(())
            },
        }
    }

    /// Claims a column for a component type. A column has one owner at most,
    /// since every owner numbers its rows on its own.
    pub fn claim_world_owner(&mut self, owner: ComponentId, field_id: ComponentId) -> (out: Result<
        (),
        PartnerError,
    >)
        requires
            old(self).well_formed(),
            old(self)@.resolve(field_id).0 < usize::MAX,
        ensures
            final(self).well_formed(),
            ({
                let column = old(self)@.resolve(field_id);
                let taken = old(self)@.world_owners.contains_key(column) && old(self)@.world_owners[column] != owner;
                &&& out == (if taken {
                    Err::<(), PartnerError>(PartnerError::Owner)
                } else {
                    Ok(())
                })
                &&& final(self)@ == (if taken {
                    old(self)@
                } else {
                    PartnerModel { world_owners: old(self)@.world_owners.insert(column, owner), ..old(self)@ }
                })
            }),
    {
        let column = self.resolve(field_id);
        match self.world_owners.get(column) {
            Some(previous) => {
                if *previous != owner {
                    return Err(PartnerError::Owner);
                }
                proof {
                    assert(self@.world_owners.insert(column, owner) =~= self@.world_owners);
                }
                Ok(())
            },
            None => {
                self.world_owners.set(column, owner);
                Ok(())
            },
        }
    }

    /// The component type that each column belongs to.
    pub(crate) fn owners(&self) -> (owners: &DenseMap<ComponentId>)
        ensures
            owners@ == self@.world_owners,
    {
        &self.world_owners
    }

    /// The component type that the column of a field belongs to.
    pub fn world_owner(&self, field_id: ComponentId) -> (owner: Option<ComponentId>)
        ensures
            ({
                let column = self@.resolve(field_id);
                match owner {
                    Some(o) => self@.world_owners.contains_key(column) && self@.world_owners[column] == o,
                    None => !self@.world_owners.contains_key(column),
                }
            }),
    {
        match self.world_owners.get(self.resolve(field_id)) {
            Some(o) => Some(*o),
            None => None,
        }
    }
}

} // verus!

//! Descriptions of columns that are mirrored to a device.

use vstd::prelude::*;
use crate::component::ComponentId;

verus! {

/// Size and alignment of a type.
#[derive(Copy, Clone, Debug, PartialEq, Eq, Structural)]
pub struct TypeLayout {
    pub size: u32,
    pub align: u32,
}

/// Identity and layout of a type.
#[derive(Copy, Clone, Debug, PartialEq, Eq, Structural)]
pub struct TypeToken {
    pub type_id: ComponentId,
    pub layout: TypeLayout,
}

impl TypeToken {
    /// The number of the type.
    pub fn id(&self) -> (c: ComponentId)
        ensures
            c == self.type_id,
    {
        self.type_id
    }

    /// The layout of the type.
    pub fn desc(&self) -> (l: TypeLayout)
        ensures
            l == self.layout,
    {
        self.layout
    }
}

/// How a mirrored field reaches its device column.
#[derive(Copy, Clone, Debug, PartialEq, Eq, Structural)]
pub enum MirrorMode {
    /// Every change is uploaded with the next flush.
    DirtyTracked,
    /// One handoff per lifetime of the component. Changes are not uploaded;
    /// removal is, as zeros.
    Once,
}

/// One mirrored field of a component type.
#[derive(Debug)]
pub struct GpuColumnDesc {
    /// The field itself: identifies the host column.
    pub field_token: TypeToken,
    /// The type of the field's value: what must agree where fields share a
    /// device column.
    pub value_token: TypeToken,
    /// Where the field is within the component.
    pub field_offset: usize,
    pub mode: MirrorMode,
    /// Name for display.
    pub buffer_name: String,
    /// Fields with the same key share a device column; a field without one has
    /// a column of its own.
    pub buffer_key: Option<String>,
}

/// The value of a [`GpuColumnDesc`].
pub struct ColumnModel {
    pub field_token: TypeToken,
    pub value_token: TypeToken,
    pub field_offset: usize,
    pub mode: MirrorMode,
    pub buffer_name: Seq<char>,
    pub buffer_key: Option<Seq<char>>,
}

impl View for GpuColumnDesc {
    type V = ColumnModel;

    open spec fn view(&self) -> ColumnModel {
        ColumnModel {
            field_token: self.field_token,
            value_token: self.value_token,
            field_offset: self.field_offset,
            mode: self.mode,
            buffer_name: self.buffer_name@,
            buffer_key: match self.buffer_key {
                Some(k) => Some(k@),
                None => None,
            },
        }
    }
}

impl GpuColumnDesc {
    /// A second description with the same value.
    pub fn copy(&self) -> (d: GpuColumnDesc)
        ensures
            d@ == self@,
    {
        GpuColumnDesc {
            field_token: self.field_token,
            value_token: self.value_token,
            field_offset: self.field_offset,
            mode: self.mode,
            buffer_name: self.buffer_name.clone(),
            buffer_key: match &self.buffer_key {
                Some(k) => Some(k.clone()),
                None => None,
            },
        }
    }

    /// Whether two descriptions have the same value.
    pub fn same(&self, other: &GpuColumnDesc) -> (yes: bool)
        ensures
            yes == (self@ == other@),
    {
        let keys: bool = match (&self.buffer_key, &other.buffer_key) {
            (Some(a), Some(b)) => *a == *b,
            (None, None) => true,
            _ => false,
        };
        keys && self.field_token == other.field_token && self.value_token == other.value_token
            && self.field_offset == other.field_offset && self.mode == other.mode && self.buffer_name
            == other.buffer_name
    }
}

/// The contents of a list of descriptions.
pub open spec fn column_models(v: Seq<GpuColumnDesc>) -> Seq<ColumnModel> {
    v.map_values(|d: GpuColumnDesc| d@)
}

/// A copy of a list of descriptions.
pub fn copy_columns(v: &Vec<GpuColumnDesc>) -> (out: Vec<GpuColumnDesc>)
    ensures
        column_models(out@) == column_models(v@),
{
    let mut out: Vec<GpuColumnDesc> = Vec::new();
    let mut i: usize = 0;
    while i < v.len()
        invariant
            i <= v@.len(),
            out@.len() == i,
            forall|k: int| 0 <= k < i ==> (#[trigger] out@[k])@ == v@[k]@,
        decreases v@.len() - i,
    {
        out.push(v[i].copy());
        i = i + 1;
    }
    proof {
        assert(column_models(out@) =~= column_models(v@));
    }
    out
}

} // verus!

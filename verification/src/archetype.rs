//! Archetypes: one table per distinct set of component types.

use vstd::prelude::*;
use crate::ascending::lemma_rows_unique;
use crate::component::ComponentId;
use crate::entity::Entity;

verus! {

/// Position of an archetype in its world's archetype list.
#[derive(Copy, Clone, Debug, PartialEq, Eq, Structural, Hash)]
pub struct ArchetypeId(pub u32);

impl ArchetypeId {
    /// The archetype without components, which every world has.
    pub open spec fn spec_empty() -> ArchetypeId {
        ArchetypeId(0)
    }

    #[verifier::when_used_as_spec(spec_empty)]
    pub fn empty() -> (id: ArchetypeId)
        ensures
            id == ArchetypeId::spec_empty(),
    {
        ArchetypeId(0)
    }
}

/// Component ids in strictly ascending order.
pub open spec fn ascending(ids: Seq<ComponentId>) -> bool {
    forall|i: int, j: int| 0 <= i < j < ids.len() ==> (#[trigger] ids[i]).0 < (#[trigger] ids[j]).0
}

/// A set of component types, held as a strictly ascending list.
#[derive(Debug)]
pub struct ArchetypeKey(pub Vec<ComponentId>);

impl View for ArchetypeKey {
    type V = Seq<ComponentId>;

    open spec fn view(&self) -> Seq<ComponentId> {
        self.0@
    }
}

/// The raw numbers of a list of component ids.
pub open spec fn raw_ids(ids: Seq<ComponentId>) -> Seq<u32> {
    ids.map_values(|c: ComponentId| c.0)
}

/// Two strictly ascending lists with the same members are the same list.
pub proof fn lemma_ascending_unique(a: Seq<ComponentId>, b: Seq<ComponentId>)
    requires
        ascending(a),
        ascending(b),
        a.to_set() == b.to_set(),
    ensures
        a == b,
{
    let x = raw_ids(a);
    let y = raw_ids(b);
    assert forall|r: u32| #[trigger] x.contains(r) <==> y.contains(r) by {
        lemma_raw_contains(a, r);
        lemma_raw_contains(b, r);
        assert(a.to_set().contains(ComponentId(r)) == a.contains(ComponentId(r)));
        assert(b.to_set().contains(ComponentId(r)) == b.contains(ComponentId(r)));
    }
    assert forall|i: int, j: int| 0 <= i < j < x.len() implies #[trigger] x[i] < #[trigger] x[j] by {
        assert(a[i].0 < a[j].0);
    }
    assert forall|i: int, j: int| 0 <= i < j < y.len() implies #[trigger] y[i] < #[trigger] y[j] by {
        assert(b[i].0 < b[j].0);
    }
    lemma_rows_unique(x, y);
    lemma_raw_ids_injective(a, b);
}

proof fn lemma_raw_contains(ids: Seq<ComponentId>, r: u32)
    ensures
        raw_ids(ids).contains(r) <==> ids.contains(ComponentId(r)),
{
    if raw_ids(ids).contains(r) {
        let i = raw_ids(ids).index_of(r);
        assert(ids[i] == ComponentId(r));
    }
    if ids.contains(ComponentId(r)) {
        let i = ids.index_of(ComponentId(r));
        assert(raw_ids(ids)[i] == r);
    }
}

impl ArchetypeKey {
    /// The ids are strictly ascending.
    pub open spec fn well_formed(&self) -> bool {
        ascending(self@)
    }

    /// The key without component types.
    pub fn empty() -> (key: ArchetypeKey)
        ensures
            key.well_formed(),
            key@ == Seq::<ComponentId>::empty(),
    {
        ArchetypeKey(Vec::new())
    }

    /// The key of the component types in `ids`, in any order and with repeats.
    pub fn new(ids: Vec<ComponentId>) -> (key: ArchetypeKey)
        ensures
            key.well_formed(),
            key@.to_set() == ids@.to_set(),
    {
        let mut key = ArchetypeKey::empty();
        let mut i: usize = 0;
        proof {
            assert(key@.to_set() =~= ids@.subrange(0, 0).to_set());
        }
        while i < ids.len()
            invariant
                i <= ids.len(),
                key.well_formed(),
                key@.to_set() == ids@.subrange(0, i as int).to_set(),
            decreases ids.len() - i,
        {
            key = key.with(ids[i]);
            proof {
                let before = ids@.subrange(0, i as int);
                let after = ids@.subrange(0, i + 1);
                assert(after =~= before.push(ids@[i as int]));
                assert forall|c: ComponentId| #[trigger] after.to_set().contains(c) <==> before.to_set().insert(
                    ids@[i as int],
                ).contains(c) by {
                    if after.contains(c) {
                        let k = after.index_of(c);
                        if k < i {
                            assert(before[k] == c);
                        }
                    }
                    if before.contains(c) {
                        assert(after[before.index_of(c)] == c);
                    }
                    assert(after[i as int] == ids@[i as int]);
                }
                assert(after.to_set() =~= before.to_set().insert(ids@[i as int]));
            }
            i = i + 1;
        }
        proof {
            assert(ids@.subrange(0, ids.len() as int) =~= ids@);
        }
        key
    }

    /// The number of ids of the key that are below `cid`, which is where
    /// `cid` stands or would stand in the key.
    pub fn lower_bound(&self, cid: ComponentId) -> (at: usize)
        requires
            self.well_formed(),
        ensures
            at <= self@.len(),
            forall|i: int| 0 <= i < at ==> (#[trigger] self@[i]).0 < cid.0,
            forall|i: int| at <= i < self@.len() ==> (#[trigger] self@[i]).0 >= cid.0,
    {
        let mut lo: usize = 0;
        let mut hi: usize = self.0.len();
        while lo < hi
            invariant
                lo <= hi <= self@.len(),
                self.well_formed(),
                forall|i: int| 0 <= i < lo ==> (#[trigger] self@[i]).0 < cid.0,
                forall|i: int| hi <= i < self@.len() ==> (#[trigger] self@[i]).0 >= cid.0,
            decreases hi - lo,
        {
            let mid: usize = lo + (hi - lo) / 2;
            if self.0[mid].0 < cid.0 {
                proof {
                    assert(self@[mid as int].0 < cid.0);
                }
                lo = mid + 1;
            } else {
                proof {
                    assert(self@[mid as int].0 >= cid.0);
                }
                hi = mid;
            }
        }
        lo
    }

    /// Where `cid` stands in the key, if it does.
    pub fn position(&self, cid: ComponentId) -> (at: Option<usize>)
        requires
            self.well_formed(),
        ensures
            match at {
                Some(i) => i < self@.len() && self@[i as int] == cid && self@.index_of(cid) == i,
                None => !self@.contains(cid),
            },
    {
        let at = self.lower_bound(cid);
        if at < self.0.len() && self.0[at].0 == cid.0 {
            proof {
                assert(self@[at as int] == cid);
                lemma_index_of(self@, at as int);
            }
            Some(at)
        } else {
            proof {
                if self@.contains(cid) {
                    let k = self@.index_of(cid);
                    assert(self@[k] == cid);
                    if k < at {
                        assert(self@[k].0 < cid.0);
                    } else if k > at {
                        assert(self@[at as int].0 < self@[k].0);
                    }
                }
            }
            None
        }
    }

    /// This key with `cid` added.
    pub fn with(&self, cid: ComponentId) -> (key: ArchetypeKey)
        requires
            self.well_formed(),
        ensures
            key.well_formed(),
            key@.to_set() == self@.to_set().insert(cid),
            self@.contains(cid) ==> key@ == self@,
            !self@.contains(cid) ==> exists|at: int|
                0 <= at <= self@.len() && key@ == #[trigger] self@.insert(at, cid),
    {
        let at = self.lower_bound(cid);
        let mut ids = copy_ids(&self.0);
        if at < ids.len() && ids[at].0 == cid.0 {
            proof {
                assert(self@[at as int] == cid);
                assert(self@.to_set().insert(cid) =~= self@.to_set());
            }
            return ArchetypeKey(ids);
        }
        ids.insert(at, cid);
        let key = ArchetypeKey(ids);
        proof {
            let s = self@;
            let t = key@;
            assert(t == s.insert(at as int, cid));
            if s.contains(cid) {
                let k = s.index_of(cid);
                assert(s[k] == cid);
                if k > at {
                    assert(s[at as int].0 < s[k].0);
                }
            }
            assert forall|i: int, j: int| 0 <= i < j < t.len() implies (#[trigger] t[i]).0 < (#[trigger] t[j]).0 by {
                let i0 = if i < at { i } else { i - 1 };
                let j0 = if j < at { j } else { j - 1 };
                if i != at {
                    assert(t[i] == s[i0]);
                }
                if j != at {
                    assert(t[j] == s[j0]);
                }
                if i == at {
                    assert(s[at as int].0 > cid.0);
                    if j0 > at {
                        assert(s[at as int].0 < s[j0].0);
                    }
                }
            }
            assert forall|c: ComponentId| #[trigger] t.to_set().contains(c) <==> s.to_set().insert(cid).contains(c) by {
                if t.contains(c) {
                    let k = t.index_of(c);
                    assert(t[k] == c);
                    if k < at {
                        assert(s[k] == c);
                    } else if k > at {
                        assert(s[k - 1] == c);
                    }
                }
                if s.contains(c) {
                    let k = s.index_of(c);
                    if k < at {
                        assert(t[k] == c);
                    } else {
                        assert(t[k + 1] == c);
                    }
                }
                assert(t[at as int] == cid);
            }
            assert(t.to_set() =~= s.to_set().insert(cid));
        }
        key
    }

    /// This key with `cid` left out.
    pub fn without(&self, cid: ComponentId) -> (key: ArchetypeKey)
        requires
            self.well_formed(),
        ensures
            key.well_formed(),
            key@.to_set() == self@.to_set().remove(cid),
            !self@.contains(cid) ==> key@ == self@,
            self@.contains(cid) ==> key@ == self@.remove(self@.index_of(cid)),
    {
        let mut ids = copy_ids(&self.0);
        match self.position(cid) {
            None => {
                proof {
                    assert(self@.to_set().remove(cid) =~= self@.to_set());
                }
                ArchetypeKey(ids)
            },
            Some(at) => {
                ids.remove(at);
                let key = ArchetypeKey(ids);
                proof {
                    let s = self@;
                    let t = key@;
                    assert forall|i: int, j: int| 0 <= i < j < t.len() implies (#[trigger] t[i]).0 < (
                    #[trigger] t[j]).0 by {
                        let i0 = if i < at { i } else { i + 1 };
                        let j0 = if j < at { j } else { j + 1 };
                        assert(t[i] == s[i0] && t[j] == s[j0]);
                    }
                    assert forall|c: ComponentId| #[trigger] t.to_set().contains(c) <==> s.to_set().remove(
                        cid,
                    ).contains(c) by {
                        if t.contains(c) {
                            let k = t.index_of(c);
                            let k0 = if k < at { k } else { k + 1 };
                            assert(s[k0] == c);
                            if k0 < at {
                                assert(s[k0].0 < s[at as int].0);
                            } else {
                                assert(s[at as int].0 < s[k0].0);
                            }
                        }
                        if s.contains(c) && c != cid {
                            let k = s.index_of(c);
                            assert(s[k] == c);
                            if k < at {
                                assert(t[k] == c);
                            } else {
                                assert(k != at);
                                assert(t[k - 1] == c);
                            }
                        }
                    }
                    assert(t.to_set() =~= s.to_set().remove(cid));
                }
                key
            },
        }
    }

    /// A second key with the same ids.
    pub fn copy(&self) -> (key: ArchetypeKey)
        ensures
            key@ == self@,
    {
        ArchetypeKey(copy_ids(&self.0))
    }

    /// The raw numbers of the ids, in order.
    pub fn raw(&self) -> (ids: Vec<u32>)
        ensures
            ids@ == raw_ids(self@),
    {
        let mut ids: Vec<u32> = Vec::new();
        let mut i: usize = 0;
        while i < self.0.len()
            invariant
                i <= self.0.len(),
                ids@ == raw_ids(self@.subrange(0, i as int)),
            decreases self.0.len() - i,
        {
            ids.push(self.0[i].0);
            i = i + 1;
            proof {
                assert(raw_ids(self@.subrange(0, i as int)) =~= raw_ids(self@.subrange(0, i - 1)).push(
                    self@[i - 1].0,
                ));
            }
        }
        proof {
            assert(self@.subrange(0, self@.len() as int) =~= self@);
        }
        ids
    }
}

/// In an ascending list the first occurrence is the only one.
pub proof fn lemma_index_of(ids: Seq<ComponentId>, i: int)
    requires
        ascending(ids),
        0 <= i < ids.len(),
    ensures
        ids.contains(ids[i]),
        ids.index_of(ids[i]) == i,
{
    assert(ids.contains(ids[i]));
    let k = ids.index_of(ids[i]);
    assert(ids[k] == ids[i]);
    if k < i {
        assert(ids[k].0 < ids[i].0);
    } else if k > i {
        assert(ids[i].0 < ids[k].0);
    }
}

/// Two lists of ids with the same raw numbers are the same list.
pub proof fn lemma_raw_ids_injective(a: Seq<ComponentId>, b: Seq<ComponentId>)
    requires
        raw_ids(a) == raw_ids(b),
    ensures
        a == b,
{
    assert(a.len() == raw_ids(a).len());
    assert(b.len() == raw_ids(b).len());
    assert forall|i: int| 0 <= i < a.len() implies a[i] == b[i] by {
        assert(raw_ids(a)[i] == a[i].0);
        assert(raw_ids(b)[i] == b[i].0);
    }
    assert(a =~= b);
}

/// A copy of a list of component ids.
pub fn copy_ids(ids: &Vec<ComponentId>) -> (out: Vec<ComponentId>)
    ensures
        out@ == ids@,
{
    let mut out: Vec<ComponentId> = Vec::new();
    let mut i: usize = 0;
    while i < ids.len()
        invariant
            i <= ids.len(),
            out@ == ids@.subrange(0, i as int),
        decreases ids.len() - i,
    {
        out.push(ids[i]);
        i = i + 1;
        proof {
            assert(ids@.subrange(0, i as int) =~= ids@.subrange(0, i - 1).push(ids@[i - 1]));
        }
    }
    proof {
        assert(ids@.subrange(0, ids@.len() as int) =~= ids@);
    }
    out
}

/// The component values of one row, keyed by component type.
pub open spec fn zip_row<V>(key: Seq<ComponentId>, values: Seq<V>) -> Map<ComponentId, V> {
    Map::new(|c: ComponentId| key.contains(c), |c: ComponentId| values[key.index_of(c)])
}

/// A table of entities that have exactly the component types of `key`.
///
/// Column `i` holds the values of component type `key[i]`, row by row, beside
/// the entity that each row belongs to.
pub struct Archetype<V> {
    pub id: ArchetypeId,
    pub key: ArchetypeKey,
    pub entities: Vec<Entity>,
    pub columns: Vec<Vec<V>>,
}

/// A swap-remove: the last element takes the place of element `at`.
pub open spec fn swap_removed<T>(s: Seq<T>, at: int) -> Seq<T> {
    s.update(at, s.last()).drop_last()
}

/// The row that stands at `r` after row `at` of `len` rows was swap-removed.
pub open spec fn swap_source(len: int, at: int, r: int) -> int {
    if r == at {
        len - 1
    } else {
        r
    }
}

/// A swap-remove takes one element and moves at most one: the last takes its place.
pub proof fn lemma_swap_removed<T>(s: Seq<T>, at: int, r: int)
    requires
        0 <= at < s.len(),
        0 <= r < s.len() - 1,
    ensures
        swap_removed(s, at).len() == s.len() - 1,
        r != at ==> swap_removed(s, at)[r] == s[r],
        r == at ==> swap_removed(s, at)[r] == s[s.len() - 1],
        swap_removed(s, at)[r] == s[swap_source(s.len() as int, at, r)],
        at == s.len() - 1 ==> swap_removed(s, at) == s.drop_last(),
{
    if at == s.len() - 1 {
        assert(swap_removed(s, at) =~= s.drop_last());
    }
}

impl<V> Archetype<V> {
    /// Every column has one value per entity.
    pub open spec fn well_formed(&self) -> bool {
        &&& self.key.well_formed()
        &&& self.columns@.len() == self.key@.len()
        &&& forall|c: int|
            0 <= c < self.columns@.len() ==> (#[trigger] self.columns@[c])@.len()
                == self.entities@.len()
    }

    /// The values of row `row` in the order of the key.
    pub open spec fn row_values(&self, row: int) -> Seq<V> {
        Seq::new(self.columns@.len(), |c: int| self.columns@[c]@[row])
    }

    /// The components of the entity at row `row`.
    pub open spec fn components(&self, row: int) -> Map<ComponentId, V> {
        zip_row(self.key@, self.row_values(row))
    }

    /// An archetype without rows.
    pub fn new(id: ArchetypeId, key: ArchetypeKey) -> (arch: Archetype<V>)
        requires
            key.well_formed(),
        ensures
            arch.well_formed(),
            arch.id == id,
            arch.key@ == key@,
            arch.entities@.len() == 0,
    {
        let mut columns: Vec<Vec<V>> = Vec::new();
        let n: usize = key.0.len();
        let mut i: usize = 0;
        while i < n
            invariant
                i <= n,
                columns@.len() == i,
                forall|c: int| 0 <= c < i ==> (#[trigger] columns@[c])@.len() == 0,
            decreases n - i,
        {
            columns.push(Vec::new());
            i = i + 1;
        }
        Archetype { id, key, entities: Vec::new(), columns }
    }

    /// Whether the archetype has every component type in `ids`.
    pub fn has_columns(&self, ids: &[ComponentId]) -> (all: bool)
        requires
            self.well_formed(),
        ensures
            all == forall|i: int| 0 <= i < ids@.len() ==> self.key@.contains(#[trigger] ids@[i]),
    {
        let mut i: usize = 0;
        while i < ids.len()
            invariant
                i <= ids@.len(),
                self.well_formed(),
                forall|k: int| 0 <= k < i ==> self.key@.contains(#[trigger] ids@[k]),
            decreases ids@.len() - i,
        {
            if self.key.position(ids[i]).is_none() {
                proof {
                    assert(!self.key@.contains(ids@[i as int]));
                }
                return false;
            }
            i = i + 1;
        }
        true
    }

    /// Takes row `row` out and hands its values over in the order of the key.
    /// The last row moves into the gap.
    pub fn take_row(&mut self, row: usize) -> (values: Vec<V>)
        requires
            old(self).well_formed(),
            row < old(self).entities@.len(),
        ensures
            final(self).well_formed(),
            final(self).id == old(self).id,
            final(self).key@ == old(self).key@,
            final(self).entities@ == swap_removed(old(self).entities@, row as int),
            values@ == old(self).row_values(row as int),
            forall|r: int|
                0 <= r < final(self).entities@.len() ==> #[trigger] final(self).row_values(r)
                    == old(self).row_values(swap_source(old(self).entities@.len() as int, row as int, r)),
    {
        let ghost before = *self;
        let n: usize = self.columns.len();
        let mut values: Vec<V> = Vec::new();
        let mut i: usize = 0;
        while i < n
            invariant
                i <= n,
                n == self.columns@.len(),
                before.well_formed(),
                row < before.entities@.len(),
                self.id == before.id,
                self.key@ == before.key@,
                self.entities@ == before.entities@,
                self.columns@.len() == before.columns@.len(),
                values@ == before.row_values(row as int).subrange(0, i as int),
                forall|c: int|
                    0 <= c < i ==> (#[trigger] self.columns@[c])@ == swap_removed(
                        before.columns@[c]@,
                        row as int,
                    ),
                forall|c: int| i <= c < n ==> (#[trigger] self.columns@[c]) == before.columns@[c],
            decreases n - i,
        {
            let value = self.columns[i].swap_remove(row);
            values.push(value);
            proof {
                assert(before.row_values(row as int).subrange(0, i + 1) =~= before.row_values(
                    row as int,
                ).subrange(0, i as int).push(before.columns@[i as int]@[row as int]));
            }
            i = i + 1;
        }
        self.entities.swap_remove(row);
        proof {
            assert(values@ =~= before.row_values(row as int));
            assert forall|r: int| 0 <= r < self.entities@.len() implies #[trigger] self.row_values(r)
                == before.row_values(swap_source(before.entities@.len() as int, row as int, r)) by {
                assert(self.row_values(r) =~= before.row_values(
                    swap_source(before.entities@.len() as int, row as int, r),
                ));
            }
        }
        values
    }

    /// Appends a row for `entity` with the given values, in the order of the key.
    pub fn push_row(&mut self, entity: Entity, values: Vec<V>)
        requires
            old(self).well_formed(),
            values@.len() == old(self).key@.len(),
        ensures
            final(self).well_formed(),
            final(self).id == old(self).id,
            final(self).key@ == old(self).key@,
            final(self).entities@ == old(self).entities@.push(entity),
            final(self).row_values(old(self).entities@.len() as int) == values@,
            forall|r: int|
                0 <= r < old(self).entities@.len() ==> #[trigger] final(self).row_values(r)
                    == old(self).row_values(r),
    {
        let ghost before = *self;
        let ghost all = values@;
        let n: usize = self.columns.len();
        let mut rest = values;
        let mut i: usize = n;
        while i > 0
            invariant
                i <= n,
                n == self.columns@.len(),
                before.well_formed(),
                all.len() == n,
                self.id == before.id,
                self.key@ == before.key@,
                self.entities@ == before.entities@,
                self.columns@.len() == before.columns@.len(),
                rest@ == all.subrange(0, i as int),
                forall|c: int|
                    i <= c < n ==> (#[trigger] self.columns@[c])@ == before.columns@[c]@.push(all[c]),
                forall|c: int| 0 <= c < i ==> (#[trigger] self.columns@[c]) == before.columns@[c],
            decreases i,
        {
            i = i - 1;
            match rest.pop() {
                Some(value) => {
                    self.columns[i].push(value);
                },
                None => {},
            }
            proof {
                assert(all.subrange(0, i + 1).drop_last() =~= all.subrange(0, i as int));
            }
        }
        self.entities.push(entity);
        proof {
            assert(self.row_values(before.entities@.len() as int) =~= all);
            assert forall|r: int| 0 <= r < before.entities@.len() implies #[trigger] self.row_values(r)
                == before.row_values(r) by {
                assert(self.row_values(r) =~= before.row_values(r));
            }
        }
    }
}

} // verus!

//! Walking the entities that have given components.

use vstd::prelude::*;
use crate::archetype::{lemma_index_of, Archetype};
use crate::component::ComponentId;
use crate::entity::Entity;
use crate::world::World;

verus! {

/// One component of a query, and whether it may be changed.
#[derive(Copy, Clone, Debug, PartialEq, Eq, Structural)]
pub struct Access {
    pub component: ComponentId,
    pub mutable: bool,
}

/// Why a query was refused.
#[derive(Copy, Clone, Debug, PartialEq, Eq, Structural)]
pub enum QueryError {
    /// A component is asked for twice, and not both times for reading only.
    Aliased(ComponentId),
    /// A component is asked for to be changed in place, but is mirrored, so
    /// that changes have to go through an insert.
    Mirrored(ComponentId),
}

/// The accesses at `i` and `j` are to the same component and not both for
/// reading only.
pub open spec fn clash(accesses: Seq<Access>, i: int, j: int) -> bool {
    accesses[i].component == accesses[j].component && (accesses[i].mutable || accesses[j].mutable)
}

/// The access at `j` clashes with an earlier one.
pub open spec fn clashes_before(accesses: Seq<Access>, j: int) -> bool {
    exists|i: int| 0 <= i < j && #[trigger] clash(accesses, i, j)
}

/// No two accesses clash.
pub open spec fn compatible(accesses: Seq<Access>) -> bool {
    forall|i: int, j: int| 0 <= i < j < accesses.len() ==> !#[trigger] clash(accesses, i, j)
}

/// The error names the component of the first access that clashes with an
/// earlier one.
pub open spec fn first_alias(accesses: Seq<Access>, e: QueryError) -> bool {
    exists|j: int|
        0 <= j < accesses.len() && #[trigger] clashes_before(accesses, j) && e == QueryError::Aliased(
            accesses[j].component,
        ) && forall|k: int| 0 <= k < j ==> !#[trigger] clashes_before(accesses, k)
}

/// Checks that no component is asked for twice, unless for reading only. The
/// error names the component of the first access that clashes with an earlier
/// one.
pub fn validate_mutable_accesses(accesses: &Vec<Access>) -> (out: Result<(), QueryError>)
    ensures
        match out {
            Ok(_) => compatible(accesses@),
            Err(e) => !compatible(accesses@) && first_alias(accesses@, e),
        },
{
    let mut j: usize = 0;
    while j < accesses.len()
        invariant
            j <= accesses@.len(),
            forall|k: int| 0 <= k < j ==> !#[trigger] clashes_before(accesses@, k),
        decreases accesses@.len() - j,
    {
        let this = accesses[j];
        let mut i: usize = 0;
        while i < j
            invariant
                i <= j < accesses@.len(),
                this == accesses@[j as int],
                forall|k: int| 0 <= k < j ==> !#[trigger] clashes_before(accesses@, k),
                forall|k: int| 0 <= k < i ==> !#[trigger] clash(accesses@, k, j as int),
            decreases j - i,
        {
            if accesses[i].component == this.component && (accesses[i].mutable || this.mutable) {
                proof {
                    assert(clash(accesses@, i as int, j as int));
                    assert(clashes_before(accesses@, j as int));
                }
                return Err(QueryError::Aliased(this.component));
            }
            i = i + 1;
        }
        proof {
            assert(!clashes_before(accesses@, j as int));
        }
        j = j + 1;
    }
    proof {
        assert forall|i: int, k: int| 0 <= i < k < accesses@.len() implies !#[trigger] clash(accesses@, i, k) by {
            assert(!clashes_before(accesses@, k));
        }
    }
    Ok(())
}

/// A pattern of components to be read: a component, nothing, or a tuple of
/// patterns.
pub trait WorldQuery: Sized {
    /// The components that are asked for, in order.
    spec fn asked(&self) -> Seq<ComponentId>;

    /// Adds the components that are asked for to a list.
    fn collect_components(&self, ids: &mut Vec<ComponentId>)
        ensures
            final(ids)@ == old(ids)@ + self.asked(),
    ;
}

/// A pattern of components to be read or changed: a component, an access to
/// one, nothing, or a tuple of patterns.
pub trait WorldQueryMut: Sized {
    /// The accesses that are asked for, in order.
    spec fn asked_accesses(&self) -> Seq<Access>;

    /// Adds the accesses that are asked for to a list.
    fn collect_accesses(&self, accesses: &mut Vec<Access>)
        ensures
            final(accesses)@ == old(accesses)@ + self.asked_accesses(),
    ;
}

impl WorldQuery for ComponentId {
    open spec fn asked(&self) -> Seq<ComponentId> {
        seq![*self]
    }

    fn collect_components(&self, ids: &mut Vec<ComponentId>) {
        ids.push(*self);
        assert(ids@ =~= old(ids)@ + self.asked());
    }
}

impl WorldQuery for () {
    open spec fn asked(&self) -> Seq<ComponentId> {
        Seq::empty()
    }

    fn collect_components(&self, ids: &mut Vec<ComponentId>) {
        assert(ids@ =~= old(ids)@ + self.asked());
    }
}

impl WorldQueryMut for ComponentId {
    open spec fn asked_accesses(&self) -> Seq<Access> {
        seq![Access { component: *self, mutable: false }]
    }

    fn collect_accesses(&self, accesses: &mut Vec<Access>) {
        accesses.push(Access { component: *self, mutable: false });
        assert(accesses@ =~= old(accesses)@ + self.asked_accesses());
    }
}

impl WorldQueryMut for Access {
    open spec fn asked_accesses(&self) -> Seq<Access> {
        seq![*self]
    }

    fn collect_accesses(&self, accesses: &mut Vec<Access>) {
        accesses.push(*self);
        assert(accesses@ =~= old(accesses)@ + self.asked_accesses());
    }
}

impl WorldQueryMut for () {
    open spec fn asked_accesses(&self) -> Seq<Access> {
        Seq::empty()
    }

    fn collect_accesses(&self, accesses: &mut Vec<Access>) {
        assert(accesses@ =~= old(accesses)@ + self.asked_accesses());
    }
}

impl<A: WorldQuery> WorldQuery for (A,) {
    open spec fn asked(&self) -> Seq<ComponentId> {
        self.0.asked()
    }

    fn collect_components(&self, ids: &mut Vec<ComponentId>) {
        self.0.collect_components(ids);
        assert(ids@ =~= old(ids)@ + self.asked());
    }
}

impl<A: WorldQuery, B: WorldQuery> WorldQuery for (A, B) {
    open spec fn asked(&self) -> Seq<ComponentId> {
        self.0.asked() + self.1.asked()
    }

    fn collect_components(&self, ids: &mut Vec<ComponentId>) {
        self.0.collect_components(ids);
        self.1.collect_components(ids);
        assert(ids@ =~= old(ids)@ + self.asked());
    }
}

impl<A: WorldQuery, B: WorldQuery, C: WorldQuery> WorldQuery for (A, B, C) {
    open spec fn asked(&self) -> Seq<ComponentId> {
        self.0.asked() + self.1.asked() + self.2.asked()
    }

    fn collect_components(&self, ids: &mut Vec<ComponentId>) {
        self.0.collect_components(ids);
        self.1.collect_components(ids);
        self.2.collect_components(ids);
        assert(ids@ =~= old(ids)@ + self.asked());
    }
}

impl<A: WorldQuery, B: WorldQuery, C: WorldQuery, D: WorldQuery> WorldQuery for (A, B, C, D) {
    open spec fn asked(&self) -> Seq<ComponentId> {
        self.0.asked() + self.1.asked() + self.2.asked() + self.3.asked()
    }

    fn collect_components(&self, ids: &mut Vec<ComponentId>) {
        self.0.collect_components(ids);
        self.1.collect_components(ids);
        self.2.collect_components(ids);
        self.3.collect_components(ids);
        assert(ids@ =~= old(ids)@ + self.asked());
    }
}

impl<A: WorldQuery, B: WorldQuery, C: WorldQuery, D: WorldQuery, E: WorldQuery> WorldQuery for (A, B, C, D, E) {
    open spec fn asked(&self) -> Seq<ComponentId> {
        self.0.asked() + self.1.asked() + self.2.asked() + self.3.asked() + self.4.asked()
    }

    fn collect_components(&self, ids: &mut Vec<ComponentId>) {
        self.0.collect_components(ids);
        self.1.collect_components(ids);
        self.2.collect_components(ids);
        self.3.collect_components(ids);
        self.4.collect_components(ids);
        assert(ids@ =~= old(ids)@ + self.asked());
    }
}

impl<A: WorldQuery, B: WorldQuery, C: WorldQuery, D: WorldQuery, E: WorldQuery, F: WorldQuery> WorldQuery for (A, B, C, D, E, F) {
    open spec fn asked(&self) -> Seq<ComponentId> {
        self.0.asked() + self.1.asked() + self.2.asked() + self.3.asked() + self.4.asked() + self.5.asked()
    }

    fn collect_components(&self, ids: &mut Vec<ComponentId>) {
        self.0.collect_components(ids);
        self.1.collect_components(ids);
        self.2.collect_components(ids);
        self.3.collect_components(ids);
        self.4.collect_components(ids);
        self.5.collect_components(ids);
        assert(ids@ =~= old(ids)@ + self.asked());
    }
}

impl<A: WorldQuery, B: WorldQuery, C: WorldQuery, D: WorldQuery, E: WorldQuery, F: WorldQuery, G: WorldQuery> WorldQuery for (A, B, C, D, E, F, G) {
    open spec fn asked(&self) -> Seq<ComponentId> {
        self.0.asked() + self.1.asked() + self.2.asked() + self.3.asked() + self.4.asked() + self.5.asked() + self.6.asked()
    }

    fn collect_components(&self, ids: &mut Vec<ComponentId>) {
        self.0.collect_components(ids);
        self.1.collect_components(ids);
        self.2.collect_components(ids);
        self.3.collect_components(ids);
        self.4.collect_components(ids);
        self.5.collect_components(ids);
        self.6.collect_components(ids);
        assert(ids@ =~= old(ids)@ + self.asked());
    }
}

impl<A: WorldQuery, B: WorldQuery, C: WorldQuery, D: WorldQuery, E: WorldQuery, F: WorldQuery, G: WorldQuery, H: WorldQuery> WorldQuery for (A, B, C, D, E, F, G, H) {
    open spec fn asked(&self) -> Seq<ComponentId> {
        self.0.asked() + self.1.asked() + self.2.asked() + self.3.asked() + self.4.asked() + self.5.asked() + self.6.asked() + self.7.asked()
    }

    fn collect_components(&self, ids: &mut Vec<ComponentId>) {
        self.0.collect_components(ids);
        self.1.collect_components(ids);
        self.2.collect_components(ids);
        self.3.collect_components(ids);
        self.4.collect_components(ids);
        self.5.collect_components(ids);
        self.6.collect_components(ids);
        self.7.collect_components(ids);
        assert(ids@ =~= old(ids)@ + self.asked());
    }
}

impl<A: WorldQueryMut> WorldQueryMut for (A,) {
    open spec fn asked_accesses(&self) -> Seq<Access> {
        self.0.asked_accesses()
    }

    fn collect_accesses(&self, accesses: &mut Vec<Access>) {
        self.0.collect_accesses(accesses);
        assert(accesses@ =~= old(accesses)@ + self.asked_accesses());
    }
}

impl<A: WorldQueryMut, B: WorldQueryMut> WorldQueryMut for (A, B) {
    open spec fn asked_accesses(&self) -> Seq<Access> {
        self.0.asked_accesses() + self.1.asked_accesses()
    }

    fn collect_accesses(&self, accesses: &mut Vec<Access>) {
        self.0.collect_accesses(accesses);
        self.1.collect_accesses(accesses);
        assert(accesses@ =~= old(accesses)@ + self.asked_accesses());
    }
}

impl<A: WorldQueryMut, B: WorldQueryMut, C: WorldQueryMut> WorldQueryMut for (A, B, C) {
    open spec fn asked_accesses(&self) -> Seq<Access> {
        self.0.asked_accesses() + self.1.asked_accesses() + self.2.asked_accesses()
    }

    fn collect_accesses(&self, accesses: &mut Vec<Access>) {
        self.0.collect_accesses(accesses);
        self.1.collect_accesses(accesses);
        self.2.collect_accesses(accesses);
        assert(accesses@ =~= old(accesses)@ + self.asked_accesses());
    }
}

impl<A: WorldQueryMut, B: WorldQueryMut, C: WorldQueryMut, D: WorldQueryMut> WorldQueryMut for (A, B, C, D) {
    open spec fn asked_accesses(&self) -> Seq<Access> {
        self.0.asked_accesses() + self.1.asked_accesses() + self.2.asked_accesses() + self.3.asked_accesses()
    }

    fn collect_accesses(&self, accesses: &mut Vec<Access>) {
        self.0.collect_accesses(accesses);
        self.1.collect_accesses(accesses);
        self.2.collect_accesses(accesses);
        self.3.collect_accesses(accesses);
        assert(accesses@ =~= old(accesses)@ + self.asked_accesses());
    }
}

impl<A: WorldQueryMut, B: WorldQueryMut, C: WorldQueryMut, D: WorldQueryMut, E: WorldQueryMut> WorldQueryMut for (A, B, C, D, E) {
    open spec fn asked_accesses(&self) -> Seq<Access> {
        self.0.asked_accesses() + self.1.asked_accesses() + self.2.asked_accesses() + self.3.asked_accesses() + self.4.asked_accesses()
    }

    fn collect_accesses(&self, accesses: &mut Vec<Access>) {
        self.0.collect_accesses(accesses);
        self.1.collect_accesses(accesses);
        self.2.collect_accesses(accesses);
        self.3.collect_accesses(accesses);
        self.4.collect_accesses(accesses);
        assert(accesses@ =~= old(accesses)@ + self.asked_accesses());
    }
}

impl<A: WorldQueryMut, B: WorldQueryMut, C: WorldQueryMut, D: WorldQueryMut, E: WorldQueryMut, F: WorldQueryMut> WorldQueryMut for (A, B, C, D, E, F) {
    open spec fn asked_accesses(&self) -> Seq<Access> {
        self.0.asked_accesses() + self.1.asked_accesses() + self.2.asked_accesses() + self.3.asked_accesses() + self.4.asked_accesses() + self.5.asked_accesses()
    }

    fn collect_accesses(&self, accesses: &mut Vec<Access>) {
        self.0.collect_accesses(accesses);
        self.1.collect_accesses(accesses);
        self.2.collect_accesses(accesses);
        self.3.collect_accesses(accesses);
        self.4.collect_accesses(accesses);
        self.5.collect_accesses(accesses);
        assert(accesses@ =~= old(accesses)@ + self.asked_accesses());
    }
}

impl<A: WorldQueryMut, B: WorldQueryMut, C: WorldQueryMut, D: WorldQueryMut, E: WorldQueryMut, F: WorldQueryMut, G: WorldQueryMut> WorldQueryMut for (A, B, C, D, E, F, G) {
    open spec fn asked_accesses(&self) -> Seq<Access> {
        self.0.asked_accesses() + self.1.asked_accesses() + self.2.asked_accesses() + self.3.asked_accesses() + self.4.asked_accesses() + self.5.asked_accesses() + self.6.asked_accesses()
    }

    fn collect_accesses(&self, accesses: &mut Vec<Access>) {
        self.0.collect_accesses(accesses);
        self.1.collect_accesses(accesses);
        self.2.collect_accesses(accesses);
        self.3.collect_accesses(accesses);
        self.4.collect_accesses(accesses);
        self.5.collect_accesses(accesses);
        self.6.collect_accesses(accesses);
        assert(accesses@ =~= old(accesses)@ + self.asked_accesses());
    }
}

impl<A: WorldQueryMut, B: WorldQueryMut, C: WorldQueryMut, D: WorldQueryMut, E: WorldQueryMut, F: WorldQueryMut, G: WorldQueryMut, H: WorldQueryMut> WorldQueryMut for (A, B, C, D, E, F, G, H) {
    open spec fn asked_accesses(&self) -> Seq<Access> {
        self.0.asked_accesses() + self.1.asked_accesses() + self.2.asked_accesses() + self.3.asked_accesses() + self.4.asked_accesses() + self.5.asked_accesses() + self.6.asked_accesses() + self.7.asked_accesses()
    }

    fn collect_accesses(&self, accesses: &mut Vec<Access>) {
        self.0.collect_accesses(accesses);
        self.1.collect_accesses(accesses);
        self.2.collect_accesses(accesses);
        self.3.collect_accesses(accesses);
        self.4.collect_accesses(accesses);
        self.5.collect_accesses(accesses);
        self.6.collect_accesses(accesses);
        self.7.collect_accesses(accesses);
        assert(accesses@ =~= old(accesses)@ + self.asked_accesses());
    }
}

/// Accesses go together exactly if no two of them are of one component with one of
/// them to change it. Reading a component twice is allowed.
pub proof fn lemma_when_accesses_clash(accesses: Seq<Access>)
    ensures
        compatible(accesses) <==> forall|i: int, j: int|
            0 <= i < accesses.len() && 0 <= j < accesses.len() && i != j && (#[trigger] accesses[i]).mutable ==> (
            #[trigger] accesses[j]).component != accesses[i].component,
        (forall|i: int| 0 <= i < accesses.len() ==> !(#[trigger] accesses[i]).mutable) ==> compatible(accesses),
{
    if compatible(accesses) {
        assert forall|i: int, j: int|
            0 <= i < accesses.len() && 0 <= j < accesses.len() && i != j && (#[trigger] accesses[i]).mutable implies (
        #[trigger] accesses[j]).component != accesses[i].component by {
            if i < j {
                assert(!clash(accesses, i, j));
            } else {
                assert(!clash(accesses, j, i));
            }
        }
    }
    if forall|i: int, j: int|
        0 <= i < accesses.len() && 0 <= j < accesses.len() && i != j && (#[trigger] accesses[i]).mutable ==> (
        #[trigger] accesses[j]).component != accesses[i].component {
        assert forall|i: int, j: int| 0 <= i < j < accesses.len() implies !#[trigger] clash(accesses, i, j) by {
            if accesses[i].mutable {
                assert(accesses[j].component != accesses[i].component);
            }
            if accesses[j].mutable {
                assert(accesses[i].component != accesses[j].component);
            }
        }
    }
}

/// The component that is named as aliased is that of the first access which changes a
/// component that an earlier access names, or names one that an earlier access
/// changes.
pub proof fn lemma_which_alias_is_named(accesses: Seq<Access>, e: QueryError, j: int)
    requires
        0 <= j < accesses.len(),
        exists|i: int|
            0 <= i < j && (#[trigger] accesses[i]).component == accesses[j].component && (accesses[i].mutable
                || accesses[j].mutable),
        forall|k: int, i: int|
            0 <= i < k < j ==> !((#[trigger] accesses[i]).component == (#[trigger] accesses[k]).component && (
            accesses[i].mutable || accesses[k].mutable)),
    ensures
        first_alias(accesses, e) <==> e == QueryError::Aliased(accesses[j].component),
        !compatible(accesses),
{
    let i = choose|i: int|
        0 <= i < j && (#[trigger] accesses[i]).component == accesses[j].component && (accesses[i].mutable
            || accesses[j].mutable);
    assert(clash(accesses, i, j));
    assert(clashes_before(accesses, j));
    assert forall|k: int| 0 <= k < j implies !#[trigger] clashes_before(accesses, k) by {
        assert forall|x: int| 0 <= x < k implies !#[trigger] clash(accesses, x, k) by {
            assert(!(accesses[x].component == accesses[k].component && (accesses[x].mutable || accesses[k].mutable)));
        }
    }
    if first_alias(accesses, e) {
        let k = choose|k: int|
            0 <= k < accesses.len() && #[trigger] clashes_before(accesses, k) && e == QueryError::Aliased(
                accesses[k].component,
            ) && forall|l: int| 0 <= l < k ==> !#[trigger] clashes_before(accesses, l);
        assert(k == j);
    }
}

/// A pair of patterns asks for what either asks for.
pub proof fn lemma_pair_asks_for_both<A: WorldQuery, B: WorldQuery>(a: A, b: B, x: ComponentId)
    ensures
        (a, b).asked().contains(x) <==> a.asked().contains(x) || b.asked().contains(x),
        (a, b).asked().len() == a.asked().len() + b.asked().len(),
{
    let both = (a, b).asked();
    if both.contains(x) {
        let i = both.index_of(x);
        if i < a.asked().len() {
            assert(a.asked()[i] == x);
        } else {
            assert(b.asked()[i - a.asked().len()] == x);
        }
    }
    if a.asked().contains(x) {
        assert(both[a.asked().index_of(x)] == x);
    }
    if b.asked().contains(x) {
        assert(both[a.asked().len() + b.asked().index_of(x)] == x);
    }
}

/// A longer tuple of patterns asks for what its front and its last pattern ask for.
pub proof fn lemma_tuples_ask_for_all<
    A: WorldQuery,
    B: WorldQuery,
    C: WorldQuery,
    D: WorldQuery,
    E: WorldQuery,
    F: WorldQuery,
    G: WorldQuery,
    H: WorldQuery,
>(a: A, b: B, c: C, d: D, e: E, f: F, g: G, h: H)
    ensures
        (a,).asked() == a.asked(),
        (a, b, c).asked() == ((a, b), c).asked(),
        (a, b, c, d).asked() == ((a, b, c), d).asked(),
        (a, b, c, d, e).asked() == ((a, b, c, d), e).asked(),
        (a, b, c, d, e, f).asked() == ((a, b, c, d, e), f).asked(),
        (a, b, c, d, e, f, g).asked() == ((a, b, c, d, e, f), g).asked(),
        (a, b, c, d, e, f, g, h).asked() == ((a, b, c, d, e, f, g), h).asked(),
{
}

/// A pair of patterns to change asks for what either asks for.
pub proof fn lemma_pair_accesses_both<A: WorldQueryMut, B: WorldQueryMut>(a: A, b: B, x: Access)
    ensures
        (a, b).asked_accesses().contains(x) <==> a.asked_accesses().contains(x) || b.asked_accesses().contains(x),
        (a, b).asked_accesses().len() == a.asked_accesses().len() + b.asked_accesses().len(),
{
    let both = (a, b).asked_accesses();
    if both.contains(x) {
        let i = both.index_of(x);
        if i < a.asked_accesses().len() {
            assert(a.asked_accesses()[i] == x);
        } else {
            assert(b.asked_accesses()[i - a.asked_accesses().len()] == x);
        }
    }
    if a.asked_accesses().contains(x) {
        assert(both[a.asked_accesses().index_of(x)] == x);
    }
    if b.asked_accesses().contains(x) {
        assert(both[a.asked_accesses().len() + b.asked_accesses().index_of(x)] == x);
    }
}

/// A longer tuple of patterns to change asks for what its front and its last pattern
/// ask for.
pub proof fn lemma_tuples_access_all<
    A: WorldQueryMut,
    B: WorldQueryMut,
    C: WorldQueryMut,
    D: WorldQueryMut,
    E: WorldQueryMut,
    F: WorldQueryMut,
    G: WorldQueryMut,
    H: WorldQueryMut,
>(a: A, b: B, c: C, d: D, e: E, f: F, g: G, h: H)
    ensures
        (a,).asked_accesses() == a.asked_accesses(),
        (a, b, c).asked_accesses() == ((a, b), c).asked_accesses(),
        (a, b, c, d).asked_accesses() == ((a, b, c), d).asked_accesses(),
        (a, b, c, d, e).asked_accesses() == ((a, b, c, d), e).asked_accesses(),
        (a, b, c, d, e, f).asked_accesses() == ((a, b, c, d, e), f).asked_accesses(),
        (a, b, c, d, e, f, g).asked_accesses() == ((a, b, c, d, e, f), g).asked_accesses(),
        (a, b, c, d, e, f, g, h).asked_accesses() == ((a, b, c, d, e, f, g), h).asked_accesses(),
{
}

/// A component asks for itself, to be read unless it is said to be changed.
pub proof fn lemma_component_asks_for_itself(c: ComponentId, x: Access)
    ensures
        c.asked() == seq![c],
        c.asked_accesses() == seq![(Access { component: c, mutable: false })],
        x.asked_accesses() == seq![x],
        ().asked().len() == 0,
        ().asked_accesses().len() == 0,
{
}

/// An archetype has all of the components.
pub open spec fn matches<V>(arch: Archetype<V>, ids: Seq<ComponentId>) -> bool {
    forall|i: int| 0 <= i < ids.len() ==> arch.key@.contains(#[trigger] ids[i])
}

/// The entities of the matching archetypes from archetype `a`, row `r` on,
/// table by table.
pub open spec fn found_from<V>(archs: Seq<Archetype<V>>, ids: Seq<ComponentId>, a: int, r: int) -> Seq<Entity>
    decreases archs.len() - a,
{
    if a < 0 || a >= archs.len() {
        Seq::empty()
    } else if matches(archs[a], ids) && 0 <= r <= archs[a].entities@.len() {
        archs[a].entities@.skip(r) + found_from(archs, ids, a + 1, 0)
    } else {
        found_from(archs, ids, a + 1, 0)
    }
}

impl<V> World<V> {
    /// All entities that have the given components, table by table.
    pub open spec fn found(&self, ids: Seq<ComponentId>) -> Seq<Entity> {
        found_from(self.archetypes@, ids, 0, 0)
    }
}

proof fn lemma_found_contains<V>(archs: Seq<Archetype<V>>, ids: Seq<ComponentId>, a: int, e: Entity)
    requires
        0 <= a <= archs.len(),
    ensures
        found_from(archs, ids, a, 0).contains(e) <==> exists|b: int, r: int|
            a <= b < archs.len() && matches(archs[b], ids) && 0 <= r < archs[b].entities@.len()
                && #[trigger] archs[b].entities@[r] == e,
    decreases archs.len() - a,
{
    if a < archs.len() {
        lemma_found_contains(archs, ids, a + 1, e);
        let rest = found_from(archs, ids, a + 1, 0);
        let own = archs[a].entities@;
        assert(own.skip(0) =~= own);
        if matches(archs[a], ids) {
            let all = own + rest;
            if own.contains(e) {
                let r = own.index_of(e);
                assert(archs[a].entities@[r] == e);
                assert(all[r] == e);
            }
            if rest.contains(e) {
                let i = rest.index_of(e);
                assert(all[own.len() + i] == e);
            }
            if all.contains(e) {
                let i = all.index_of(e);
                if i < own.len() {
                    assert(own[i] == e);
                    assert(archs[a].entities@[i] == e);
                } else {
                    assert(rest[i - own.len()] == e);
                    assert(rest.contains(e));
                }
            }
        }
    }
}

/// A query finds exactly the live entities that have all of the components.
pub proof fn lemma_query_is_complete<V>(world: World<V>, ids: Seq<ComponentId>, e: Entity)
    requires
        world.well_formed(),
    ensures
        world.found(ids).contains(e) <==> world@.contains_key(e) && forall|i: int|
            0 <= i < ids.len() ==> world@[e].contains_key(#[trigger] ids[i]),
{
    lemma_found_contains(world.archetypes@, ids, 0, e);
    if world.found(ids).contains(e) {
        let (b, r) = choose|b: int, r: int|
            0 <= b < world.archetypes@.len() && matches(world.archetypes@[b], ids) && 0 <= r
                < world.archetypes@[b].entities@.len() && #[trigger] world.archetypes@[b].entities@[r] == e;
        lemma_row_entity(world, b, r);
    }
    if world@.contains_key(e) && forall|i: int| 0 <= i < ids.len() ==> world@[e].contains_key(#[trigger] ids[i]) {
        let x = e.index() as int;
        assert(world.slot_ok(x));
        let slot = world.entity_slots@[x];
        let b = slot.archetype.0 as int;
        crate::entity::lemma_entity_parts(e, e.index(), e.generation());
        assert(world.archetypes@[b].entities@[slot.row as int] == e);
        assert forall|i: int| 0 <= i < ids.len() implies world.archetypes@[b].key@.contains(#[trigger] ids[i]) by {
            assert(world@[e].contains_key(ids[i]));
        }
        assert(matches(world.archetypes@[b], ids));
    }
}

proof fn lemma_row_entity<V>(world: World<V>, b: int, r: int)
    requires
        world.well_formed(),
        0 <= b < world.archetypes@.len(),
        0 <= r < world.archetypes@[b].entities@.len(),
    ensures
        ({
            let e = world.archetypes@[b].entities@[r];
            &&& world@.contains_key(e)
            &&& world@[e] == world.archetypes@[b].components(r)
            &&& forall|c: ComponentId| #[trigger] world@[e].contains_key(c) <==> world.archetypes@[b].key@.contains(c)
        }),
{
    let e = world.archetypes@[b].entities@[r];
    assert(world.row_ok(b, r));
    assert(world.slot_ok(e.index() as int));
    crate::entity::lemma_entity_parts(
        e,
        e.index(),
        world.entity_slots@[e.index() as int].generation,
    );
}

proof fn lemma_found_once<V>(world: World<V>, ids: Seq<ComponentId>, a: int)
    requires
        world.well_formed(),
        0 <= a <= world.archetypes@.len(),
    ensures
        found_from(world.archetypes@, ids, a, 0).no_duplicates(),
    decreases world.archetypes@.len() - a,
{
    let archs = world.archetypes@;
    if a < archs.len() {
        lemma_found_once(world, ids, a + 1);
        let own = archs[a].entities@;
        let rest = found_from(archs, ids, a + 1, 0);
        assert(own.skip(0) =~= own);
        assert forall|i: int, j: int| 0 <= i < own.len() && 0 <= j < own.len() && i != j implies own[i] != own[j] by {
            assert(world.row_ok(a, i));
            assert(world.row_ok(a, j));
        }
        assert forall|i: int, j: int| 0 <= i < own.len() && 0 <= j < rest.len() implies own[i] != rest[j] by {
            assert(rest.contains(rest[j]));
            lemma_found_contains(archs, ids, a + 1, rest[j]);
            let (b, r) = choose|b: int, r: int|
                a + 1 <= b < archs.len() && matches(archs[b], ids) && 0 <= r < archs[b].entities@.len()
                    && #[trigger] archs[b].entities@[r] == rest[j];
            assert(world.row_ok(a, i));
            assert(world.row_ok(b, r));
        }
        assert forall|i: int, j: int| 0 <= i < (own + rest).len() && 0 <= j < (own + rest).len() && i != j implies (own
            + rest)[i] != (own + rest)[j] by {
            let n = own.len() as int;
            if i < n && j < n {
                assert(own[i] != own[j]);
            } else if i >= n && j >= n {
                assert(rest[i - n] != rest[j - n]);
            } else if i < n {
                assert(own[i] != rest[j - n]);
            } else {
                assert(own[j] != rest[i - n]);
            }
        }
    }
}

/// A query finds no entity twice.
pub proof fn lemma_query_finds_each_once<V>(world: World<V>, ids: Seq<ComponentId>)
    requires
        world.well_formed(),
    ensures
        world.found(ids).no_duplicates(),
{
    lemma_found_once(world, ids, 0);
}

/// What is found depends on the keys and entities of the tables alone.
proof fn lemma_found_same<V>(one: Seq<Archetype<V>>, two: Seq<Archetype<V>>, ids: Seq<ComponentId>, a: int, r: int)
    requires
        one.len() == two.len(),
        forall|i: int| 0 <= i < one.len() ==> (#[trigger] two[i]).key == one[i].key,
        forall|i: int| 0 <= i < one.len() ==> (#[trigger] two[i]).entities == one[i].entities,
    ensures
        found_from(one, ids, a, r) == found_from(two, ids, a, r),
    decreases one.len() - a,
{
    if 0 <= a < one.len() {
        lemma_found_same(one, two, ids, a + 1, 0);
        assert(two[a].key == one[a].key);
        assert(matches(one[a], ids) == matches(two[a], ids));
    }
}

/// Walks the entities that have given components.
pub struct QueryIter<'w, V> {
    world: &'w World<V>,
    ids: Vec<ComponentId>,
    arch_idx: usize,
    row: usize,
}

/// The next archetype and row at or after a position that holds an entity with
/// all of the components.
fn advance<V>(world: &World<V>, ids: &Vec<ComponentId>, from_arch: usize, from_row: usize) -> (at: Option<
    (usize, usize),
>)
    requires
        world.well_formed(),
        from_arch < world.archetypes@.len() ==> from_row <= world.archetypes@[from_arch as int].entities@.len(),
    ensures
        match at {
            Some((a, r)) => {
                &&& a < world.archetypes@.len()
                &&& r < world.archetypes@[a as int].entities@.len()
                &&& matches(world.archetypes@[a as int], ids@)
                &&& found_from(world.archetypes@, ids@, from_arch as int, from_row as int) == seq![
                    world.archetypes@[a as int].entities@[r as int],
                ] + found_from(world.archetypes@, ids@, a as int, r + 1)
            },
            None => found_from(world.archetypes@, ids@, from_arch as int, from_row as int) == Seq::<Entity>::empty(),
        },
{
    let ghost archs = world.archetypes@;
    let mut a: usize = from_arch;
    let mut r: usize = from_row;
    while a < world.archetypes.len()
        invariant
            world.well_formed(),
            archs == world.archetypes@,
            a < archs.len() ==> r <= archs[a as int].entities@.len(),
            found_from(archs, ids@, from_arch as int, from_row as int) == found_from(
                archs,
                ids@,
                a as int,
                r as int,
            ),
        decreases archs.len() - a,
    {
        proof {
            assert(world.archetype_ok(a as int));
        }
        if world.archetypes[a].has_columns(ids.as_slice()) {
            if r < world.archetypes[a].entities.len() {
                proof {
                    let own = archs[a as int].entities@;
                    let rest = found_from(archs, ids@, a + 1, 0);
                    assert(own.skip(r as int) + rest =~= seq![own[r as int]] + (own.skip(r + 1) + rest));
                }
                return Some((a, r));
            }
            proof {
                let own = archs[a as int].entities@;
                let rest = found_from(archs, ids@, a + 1, 0);
                assert(own.skip(r as int) + rest =~= rest);
            }
        }
        a = a + 1;
        r = 0;
    }
    None
}

impl<'w, V> QueryIter<'w, V> {
    /// The world that is walked.
    pub closed spec fn world(&self) -> World<V> {
        *self.world
    }

    /// The components that are asked for.
    pub closed spec fn ids(&self) -> Seq<ComponentId> {
        self.ids@
    }

    /// The entities that are still to come.
    pub closed spec fn remaining(&self) -> Seq<Entity> {
        found_from(self.world.archetypes@, self.ids@, self.arch_idx as int, self.row as int)
    }

    /// The position is within the tables.
    pub closed spec fn well_formed(&self) -> bool {
        &&& self.world.well_formed()
        &&& self.arch_idx < self.world.archetypes@.len() ==> self.row
            <= self.world.archetypes@[self.arch_idx as int].entities@.len()
    }

    /// The next entity with the values of the components that are asked for, in
    /// the order in which they are.
    pub fn next(&mut self) -> (item: Option<(Entity, Vec<&'w V>)>)
        requires
            old(self).well_formed(),
        ensures
            final(self).well_formed(),
            final(self).world() == old(self).world(),
            final(self).ids() == old(self).ids(),
            match item {
                Some((e, values)) => {
                    &&& old(self).remaining().len() > 0
                    &&& e == old(self).remaining().first()
                    &&& final(self).remaining() == old(self).remaining().skip(1)
                    &&& old(self).world()@.contains_key(e)
                    &&& values@.len() == old(self).ids().len()
                    &&& forall|k: int|
                        0 <= k < values@.len() ==> old(self).world()@[e].contains_key(
                            #[trigger] old(self).ids()[k],
                        ) && *values@[k] == old(self).world()@[e][old(self).ids()[k]]
                },
                None => old(self).remaining().len() == 0 && final(self).remaining().len() == 0,
            },
    {
        let ghost before = self.remaining();
        match advance(self.world, &self.ids, self.arch_idx, self.row) {
            None => None,
            Some((a, r)) => {
                let arch = &self.world.archetypes[a];
                let entity = arch.entities[r];
                let mut values: Vec<&'w V> = Vec::new();
                proof {
                    assert(self.world.archetype_ok(a as int));
                    lemma_row_entity(*self.world, a as int, r as int);
                }
                let mut k: usize = 0;
                while k < self.ids.len()
                    invariant
                        k <= self.ids@.len(),
                        self.world.well_formed(),
                        self.world.archetypes@[a as int] == *arch,
                        arch.well_formed(),
                        matches(*arch, self.ids@),
                        r < arch.entities@.len(),
                        self.world@[entity] == arch.components(r as int),
                        values@.len() == k,
                        forall|j: int|
                            0 <= j < k ==> self.world@[entity].contains_key(#[trigger] self.ids@[j])
                                && *values@[j] == self.world@[entity][self.ids@[j]],
                    decreases self.ids@.len() - k,
                {
                    let cid = self.ids[k];
                    proof {
                        assert(arch.key@.contains(self.ids@[k as int]));
                    }
                    if let Some(at) = arch.key.position(cid) {
                        proof {
                            lemma_index_of(arch.key@, at as int);
                        }
                        values.push(&arch.columns[at][r]);
                    }
                    k = k + 1;
                }
                let rows: usize = arch.entities.len();
                assert(r < rows);
                self.arch_idx = a;
                self.row = r + 1;
                proof {
                    assert(before.skip(1) =~= found_from(
                        self.world.archetypes@,
                        self.ids@,
                        a as int,
                        r + 1,
                    ));
                }
                Some((entity, values))
            },
        }
    }
}

impl<V> World<V> {
    /// Walks all entities that have the given components, table by table.
    /// Asking for none walks all entities.
    pub fn query<'w, Q: WorldQuery>(&'w self, pattern: &Q) -> (iter: QueryIter<'w, V>)
        requires
            self.well_formed(),
        ensures
            iter.well_formed(),
            iter.world() == *self,
            iter.ids() == pattern.asked(),
            iter.remaining() == self.found(pattern.asked()),
    {
        let mut ids: Vec<ComponentId> = Vec::new();
        pattern.collect_components(&mut ids);
        assert(ids@ =~= pattern.asked());
        QueryIter { world: self, ids, arch_idx: 0, row: 0 }
    }
}

/// The components of a list of accesses, in order.
pub open spec fn components_of(accesses: Seq<Access>) -> Seq<ComponentId> {
    accesses.map_values(|a: Access| a.component)
}

/// Walks the entities that have given components, and lets some of the
/// components be changed in place. The world is borrowed meanwhile, so no
/// entity comes, goes or moves.
pub struct QueryIterMut<'w, V> {
    pub world: &'w mut World<V>,
    pub accesses: Vec<Access>,
    pub ids: Vec<ComponentId>,
    pub arch_idx: usize,
    pub row: usize,
    pub current: Option<Entity>,
}

impl<'w, V> QueryIterMut<'w, V> {
    /// The world as it is now.
    pub open spec fn now(&self) -> World<V> {
        *self.world
    }

    /// What is asked for.
    pub open spec fn accesses(&self) -> Seq<Access> {
        self.accesses@
    }

    /// The entities that are still to come.
    pub open spec fn remaining(&self) -> Seq<Entity> {
        found_from(self.world.archetypes@, self.ids@, self.arch_idx as int, self.row as int)
    }

    /// The entity that `next` returned last.
    pub open spec fn current(&self) -> Option<Entity> {
        self.current
    }

    /// The position is within the tables, and the last entity returned has
    /// all of the components.
    pub open spec fn well_formed(&self) -> bool {
        &&& self.world.well_formed()
        &&& self.ids@ == components_of(self.accesses@)
        &&& compatible(self.accesses@)
        &&& self.arch_idx < self.world.archetypes@.len() ==> self.row
            <= self.world.archetypes@[self.arch_idx as int].entities@.len()
        &&& self.current matches Some(e) ==> self.world@.contains_key(e) && forall|k: int|
            0 <= k < self.ids@.len() ==> self.world@[e].contains_key(#[trigger] self.ids@[k])
    }

    /// Moves on to the next entity that has all of the components.
    pub fn next(&mut self) -> (entity: Option<Entity>)
        requires
            old(self).well_formed(),
        ensures
            final(self).well_formed(),
            final(self).now() == old(self).now(),
            *final(final(self).world) == *final(old(self).world),
            final(self).accesses() == old(self).accesses(),
            final(self).current() == entity,
            match entity {
                Some(e) => {
                    &&& old(self).remaining().len() > 0
                    &&& e == old(self).remaining().first()
                    &&& final(self).remaining() == old(self).remaining().skip(1)
                },
                None => old(self).remaining().len() == 0 && final(self).remaining().len() == 0,
            },
    {
        let ghost before = self.remaining();
        match advance(&*self.world, &self.ids, self.arch_idx, self.row) {
            None => {
                self.current = None;
                None
            },
            Some((a, r)) => {
                let entity = self.world.archetypes[a].entities[r];
                let rows: usize = self.world.archetypes[a].entities.len();
                assert(r < rows);
                proof {
                    lemma_row_entity(*self.world, a as int, r as int);
                }
                self.arch_idx = a;
                self.row = r + 1;
                self.current = Some(entity);
                proof {
                    assert(before.skip(1) =~= found_from(self.world.archetypes@, self.ids@, a as int, r + 1));
                }
                Some(entity)
            },
        }
    }

    /// The value of the `k`th component that is asked for, of the entity that
    /// `next` returned last.
    pub fn get(&self, k: usize) -> (value: Option<&V>)
        requires
            self.well_formed(),
            k < self.accesses().len(),
        ensures
            match (self.current(), value) {
                (Some(e), Some(v)) => {
                    &&& self.now()@.contains_key(e)
                    &&& self.now()@[e].contains_key(self.accesses()[k as int].component)
                    &&& *v == self.now()@[e][self.accesses()[k as int].component]
                },
                (None, None) => true,
                _ => false,
            },
    {
        match self.current {
            Some(e) => {
                proof {
                    assert(self.ids@[k as int] == self.accesses@[k as int].component);
                }
                self.world.get(e, self.accesses[k].component)
            },
            None => None,
        }
    }

    /// The value of the `k`th component that is asked for, of the entity that
    /// `next` returned last, to be changed. `None` where the component is asked
    /// for to be read only.
    pub fn get_mut(&mut self, k: usize) -> (value: Option<&mut V>)
        requires
            old(self).well_formed(),
            k < old(self).accesses().len(),
        ensures
            final(self).well_formed(),
            *final(final(self).world) == *final(old(self).world),
            final(self).accesses() == old(self).accesses(),
            final(self).current() == old(self).current(),
            final(self).remaining() == old(self).remaining(),
            value is Some <==> old(self).current() is Some && old(self).accesses()[k as int].mutable,
            match value {
                Some(v) => {
                    let e = old(self).current()->0;
                    let c = old(self).accesses()[k as int].component;
                    &&& old(self).now()@.contains_key(e)
                    &&& old(self).now()@[e].contains_key(c)
                    &&& *v == old(self).now()@[e][c]
                    &&& final(self).now()@ == old(self).now()@.insert(
                        e,
                        old(self).now()@[e].insert(c, *final(v)),
                    )
                    &&& final(self).now().entity_slots == old(self).now().entity_slots
                    &&& final(self).now().free_slots == old(self).now().free_slots
                },
                None => final(self).now() == old(self).now(),
            },
    {
        if !self.accesses[k].mutable {
            return None;
        }
        match self.current {
            Some(e) => {
                proof {
                    assert(self.ids@[k as int] == self.accesses@[k as int].component);
                }
                let cid = self.accesses[k].component;
                let ghost before = self.world.archetypes@;
                let value = self.world.get_mut(e, cid);
                proof {
                    lemma_found_same(
                        before,
                        after_borrow(self).world.archetypes@,
                        self.ids@,
                        self.arch_idx as int,
                        self.row as int,
                    );
                }
                value
            },
            None => None,
        }
    }
}

impl<V> World<V> {
    /// Walks all entities that have the components asked for, table by table,
    /// and lets those asked for as mutable be changed. A component that is
    /// asked for twice, and not both times for reading only, is refused.
    pub fn query_mut<'w, Q: WorldQueryMut>(&'w mut self, pattern: &Q) -> (out: Result<QueryIterMut<'w, V>, QueryError>)
        requires
            old(self).well_formed(),
        ensures
            out is Ok <==> compatible(pattern.asked_accesses()),
            match out {
                Ok(iter) => {
                    &&& iter.well_formed()
                    &&& iter.now() == *old(self)
                    &&& *final(self) == *final(iter.world)
                    &&& iter.accesses() == pattern.asked_accesses()
                    &&& iter.current() is None
                    &&& iter.remaining() == old(self).found(components_of(pattern.asked_accesses()))
                },
                Err(e) => *final(self) == *old(self) && first_alias(pattern.asked_accesses(), e),
            },
    {
        let mut accesses: Vec<Access> = Vec::new();
        pattern.collect_accesses(&mut accesses);
        assert(accesses@ =~= pattern.asked_accesses());
        match validate_mutable_accesses(&accesses) {
            Ok(_) => {},
            Err(e) => {
                return Err(e);
            },
        }
        let mut ids: Vec<ComponentId> = Vec::new();
        let mut i: usize = 0;
        while i < accesses.len()
            invariant
                i <= accesses@.len(),
                ids@ =~= components_of(accesses@.take(i as int)),
            decreases accesses@.len() - i,
        {
            ids.push(accesses[i].component);
            i = i + 1;
        }
        proof {
            assert(accesses@.take(i as int) =~= accesses@);
        }
        Ok(QueryIterMut { world: self, accesses, ids, arch_idx: 0, row: 0, current: None })
    }
}

} // verus!

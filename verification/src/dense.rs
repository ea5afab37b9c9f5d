//! Maps from component types to values, as lists indexed by type number.

use vstd::prelude::*;
use crate::component::ComponentId;

verus! {

/// A map from component types. Type numbers are small, so that looking one up
/// is one index operation. Its view is the map.
#[derive(Debug)]
pub struct DenseMap<V> {
    entries: Vec<Option<V>>,
}

impl<V> View for DenseMap<V> {
    type V = Map<ComponentId, V>;

    closed spec fn view(&self) -> Map<ComponentId, V> {
        Map::new(
            |c: ComponentId| c.0 < self.entries@.len() && self.entries@[c.0 as int] is Some,
            |c: ComponentId| self.entries@[c.0 as int].unwrap(),
        )
    }
}

impl<V> DenseMap<V> {
    /// A map without entries.
    pub fn new() -> (m: DenseMap<V>)
        ensures
            m@ == Map::<ComponentId, V>::empty(),
    {
        let m = DenseMap { entries: Vec::new() };
        proof {
            assert(m@ =~= Map::<ComponentId, V>::empty());
        }
        m
    }

    /// The value of a type, if it has one.
    pub fn get(&self, c: ComponentId) -> (found: Option<&V>)
        ensures
            match found {
                Some(v) => self@.contains_key(c) && self@[c] == *v,
                None => !self@.contains_key(c),
            },
    {
        let at: usize = c.0 as usize;
        if at < self.entries.len() {
            self.entries[at].as_ref()
        } else {
            None
        }
    }

    /// Whether a type has a value.
    pub fn contains(&self, c: ComponentId) -> (yes: bool)
        ensures
            yes == self@.contains_key(c),
    {
        self.get(c).is_some()
    }

    /// Gives a type a value.
    pub fn set(&mut self, c: ComponentId, value: V)
        requires
            c.0 < usize::MAX,
        ensures
            final(self)@ == old(self)@.insert(c, value),
    {
        let ghost before = self.entries@;
        let at: usize = c.0 as usize;
        while self.entries.len() <= at
            invariant
                at < usize::MAX,
                before.len() <= self.entries@.len(),
                self.entries@.len() <= at + 1 || self.entries@.len() == before.len(),
                forall|i: int| 0 <= i < before.len() ==> #[trigger] self.entries@[i] == before[i],
                forall|i: int| before.len() <= i < self.entries@.len() ==> #[trigger] self.entries@[i] is None,
            decreases at + 1 - self.entries@.len(),
        {
            self.entries.push(None);
        }
        let ghost grown = self.entries@;
        self.entries[at] = Some(value);
        proof {
            let want = old(self)@.insert(c, value);
            assert forall|x: ComponentId| #[trigger] self@.contains_key(x) <==> want.contains_key(x) by {
                if x.0 < grown.len() && x != c {
                    assert(self.entries@[x.0 as int] == grown[x.0 as int]);
                }
            }
            assert forall|x: ComponentId| #[trigger] self@.contains_key(x) implies self@[x] == want[x] by {
                if x != c {
                    assert(self.entries@[x.0 as int] == grown[x.0 as int]);
                }
            }
            assert(self@ =~= want);
        }
    }

    /// How many type numbers the list reaches; types beyond have no value.
    pub fn limit(&self) -> (n: usize)
        ensures
            forall|c: ComponentId| #[trigger] self@.contains_key(c) ==> c.0 < n,
    {
        self.entries.len()
    }

    /// The value of a type, for changing it in place.
    pub fn get_mut(&mut self, c: ComponentId) -> (found: Option<&mut V>)
        ensures
            match found {
                Some(v) => old(self)@.contains_key(c) && *v == old(self)@[c] && final(self)@ == old(self)@.insert(
                    c,
                    *final(v),
                ),
                None => !old(self)@.contains_key(c) && final(self)@ == old(self)@,
            },
    {
        let ghost before = self.entries@;
        let at: usize = c.0 as usize;
        if at < self.entries.len() {
            match &mut self.entries[at] {
                Some(v) => {
                    proof {
                        let after = after_borrow(self).entries@;
                        assert(after == before.update(at as int, Some(*final(v))));
                        let want = old(self)@.insert(c, *final(v));
                        let got = (*after_borrow(self))@;
                        assert forall|x: ComponentId| #[trigger] got.contains_key(x) <==> want.contains_key(x) by {
                            if x.0 < before.len() && x != c {
                                assert(after[x.0 as int] == before[x.0 as int]);
                            }
                        }
                        assert forall|x: ComponentId| #[trigger] got.contains_key(x) implies got[x] == want[x] by {
                            if x != c {
                                assert(after[x.0 as int] == before[x.0 as int]);
                            }
                        }
                        assert(got =~= want);
                    }
                    Some(v)
                },
                None => None,
            }
        } else {
            None
        }
    }
}

} // verus!

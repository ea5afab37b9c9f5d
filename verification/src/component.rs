//! Component type identities.

use vstd::prelude::*;

verus! {

/// Dense identity of a component type within one process.
#[derive(Copy, Clone, Debug, PartialEq, Eq, Structural, PartialOrd, Ord, Hash)]
pub struct ComponentId(pub u32);

} // verus!

//! Which component store a running blueprint works on.
//!
//! Scopes nest: the store entered last is the current one, and leaving a scope
//! makes the one around it current again. While a store is being accessed no
//! second access and no change of scope is let in, since it could reach the
//! same store again.

use vstd::prelude::*;

verus! {

/// Why a blueprint context was refused.
#[derive(Copy, Clone, Debug, PartialEq, Eq, Structural)]
pub enum ContextError {
    /// A store is being accessed.
    Recursive,
    /// There is no current store.
    Outside,
    /// The scope left is not the one entered last.
    Unbalanced,
}

/// The stores that were entered, by number, and whether the current one is
/// being accessed.
pub struct BlueprintContexts {
    contexts: Vec<u64>,
    accessed: bool,
}

impl BlueprintContexts {
    /// The stores that were entered and not left, the current one last.
    pub closed spec fn stack(&self) -> Seq<u64> {
        self.contexts@
    }

    /// Whether the current store is being accessed.
    pub closed spec fn accessed(&self) -> bool {
        self.accessed
    }

    /// A store is accessed only within a scope.
    pub closed spec fn well_formed(&self) -> bool {
        self.accessed ==> self.contexts@.len() > 0
    }

    /// No scope.
    pub fn new() -> (c: BlueprintContexts)
        ensures
            c.well_formed(),
            c.stack() == Seq::<u64>::empty(),
            !c.accessed(),
    {
        BlueprintContexts { contexts: Vec::new(), accessed: false }
    }

    /// Enters a scope in which `store` is the current store.
    pub fn enter(&mut self, store: u64) -> (out: Result<(), ContextError>)
        requires
            old(self).well_formed(),
        ensures
            final(self).well_formed(),
            final(self).accessed() == old(self).accessed(),
            out == (if old(self).accessed() {
                Err::<(), ContextError>(ContextError::Recursive)
            } else {
                Ok(())
            }),
            final(self).stack() == (if old(self).accessed() {
                old(self).stack()
            } else {
                old(self).stack().push(store)
            }),
    {
        if self.accessed {
            return Err(ContextError::Recursive);
        }
        self.contexts.push(store);
        Ok(())
    }

    /// Leaves the scope in which `store` is the current store.
    pub fn leave(&mut self, store: u64) -> (out: Result<(), ContextError>)
        requires
            old(self).well_formed(),
        ensures
            final(self).well_formed(),
            final(self).accessed() == old(self).accessed(),
            out == (if old(self).accessed() {
                Err::<(), ContextError>(ContextError::Recursive)
            } else if old(self).stack().len() == 0 {
                Err(ContextError::Outside)
            } else if old(self).stack().last() != store {
                Err(ContextError::Unbalanced)
            } else {
                Ok(())
            }),
            final(self).stack() == (if out is Ok {
                old(self).stack().drop_last()
            } else {
                old(self).stack()
            }),
    {
        if self.accessed {
            return Err(ContextError::Recursive);
        }
        let len: usize = self.contexts.len();
        if len == 0 {
            return Err(ContextError::Outside);
        }
        if self.contexts[len - 1] != store {
            return Err(ContextError::Unbalanced);
        }
        self.contexts.pop();
        Ok(())
    }

    /// Starts an access to the current store, and returns which one it is.
    pub fn begin_access(&mut self) -> (out: Result<u64, ContextError>)
        requires
            old(self).well_formed(),
        ensures
            final(self).well_formed(),
            final(self).stack() == old(self).stack(),
            out == (if old(self).accessed() {
                Err::<u64, ContextError>(ContextError::Recursive)
            } else if old(self).stack().len() == 0 {
                Err(ContextError::Outside)
            } else {
                Ok(old(self).stack().last())
            }),
            final(self).accessed() == (old(self).accessed() || out is Ok),
    {
        if self.accessed {
            return Err(ContextError::Recursive);
        }
        let len: usize = self.contexts.len();
        if len == 0 {
            return Err(ContextError::Outside);
        }
        self.accessed = true;
        Ok(self.contexts[len - 1])
    }

    /// Ends the access, if there is one.
    pub fn end_access(&mut self)
        requires
            old(self).well_formed(),
        ensures
            final(self).well_formed(),
            final(self).stack() == old(self).stack(),
            !final(self).accessed(),
    {
        self.accessed = false;
    }
}

/// A scope that is entered and left leaves the scopes around it as they were.
pub proof fn lemma_scope_is_restored(
    before: BlueprintContexts,
    inside: BlueprintContexts,
    after: BlueprintContexts,
    store: u64,
)
    requires
        inside.stack() == before.stack().push(store),
        after.stack() == inside.stack().drop_last(),
    ensures
        after.stack() == before.stack(),
        inside.stack().last() == store,
{
    assert(after.stack() =~= before.stack());
}

} // verus!

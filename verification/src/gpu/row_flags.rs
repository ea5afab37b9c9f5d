//! One flag per row, clear for rows that were never seen.

use vstd::prelude::*;

verus! {

/// Rows that have data on the device. Its view is the list of flags; rows
/// beyond it have none.
#[derive(Debug)]
pub struct GpuMirroredRows {
    rows: Vec<bool>,
}

impl View for GpuMirroredRows {
    type V = Seq<bool>;

    closed spec fn view(&self) -> Seq<bool> {
        self.rows@
    }
}

/// Whether the flag of a row is set.
pub open spec fn flagged(flags: Seq<bool>, row: u32) -> bool {
    row < flags.len() && flags[row as int]
}

/// The flags with that of `row` set.
pub open spec fn with_flag(flags: Seq<bool>, row: u32) -> Seq<bool> {
    Seq::new(
        if row < flags.len() {
            flags.len()
        } else {
            (row + 1) as nat
        },
        |i: int| i == row || (i < flags.len() && flags[i]),
    )
}

/// The flags with that of `row` clear.
pub open spec fn without_flag(flags: Seq<bool>, row: u32) -> Seq<bool> {
    Seq::new(flags.len(), |i: int| i != row && flags[i])
}

/// The flags of at least `n` rows.
pub open spec fn with_rows(flags: Seq<bool>, n: nat) -> Seq<bool> {
    Seq::new(
        if n < flags.len() {
            flags.len()
        } else {
            n
        },
        |i: int| i < flags.len() && flags[i],
    )
}

impl GpuMirroredRows {
    /// No row has data.
    pub fn new() -> (rows: GpuMirroredRows)
        ensures
            rows@ == Seq::<bool>::empty(),
    {
        GpuMirroredRows { rows: Vec::new() }
    }

    /// How many rows have a flag.
    pub fn len(&self) -> (n: usize)
        ensures
            n == self@.len(),
    {
        self.rows.len()
    }

    /// Whether the flag of a row is set.
    pub fn is_marked(&self, row: u32) -> (yes: bool)
        ensures
            yes == flagged(self@, row),
    {
        (row as usize) < self.rows.len() && self.rows[row as usize]
    }

    /// Makes room for at least `capacity` rows.
    pub fn reserve(&mut self, capacity: u32)
        ensures
            final(self)@ == with_rows(old(self)@, capacity as nat),
    {
        let ghost before = self.rows@;
        while self.rows.len() < capacity as usize
            invariant
                before.len() <= self.rows@.len(),
                self.rows@.len() <= capacity || self.rows@.len() == before.len(),
                self.rows@ == with_rows(before, self.rows@.len()),
            decreases capacity - self.rows@.len(),
        {
            self.rows.push(false);
            proof {
                assert(self.rows@ =~= with_rows(before, self.rows@.len()));
            }
        }
        proof {
            assert(self@ =~= with_rows(before, capacity as nat));
        }
    }

    /// Sets the flag of a row. Returns whether it was clear.
    pub fn mark_first_time(&mut self, row: u32) -> (first: bool)
        requires
            row < u32::MAX,
        ensures
            first == !flagged(old(self)@, row),
            final(self)@ == with_flag(old(self)@, row),
    {
        let ghost before = self.rows@;
        self.reserve(row + 1);
        let first: bool = !self.rows[row as usize];
        self.rows[row as usize] = true;
        proof {
            assert(self@ =~= with_flag(before, row));
        }
        first
    }

    /// Clears the flag of a row. Returns whether it was set.
    pub fn clear(&mut self, row: u32) -> (was: bool)
        ensures
            was == flagged(old(self)@, row),
            final(self)@ == without_flag(old(self)@, row),
    {
        let ghost before = self.rows@;
        if row as usize >= self.rows.len() {
            proof {
                assert(self@ =~= without_flag(before, row));
            }
            return false;
        }
        let was: bool = self.rows[row as usize];
        self.rows[row as usize] = false;
        proof {
            assert(self@ =~= without_flag(before, row));
        }
        was
    }

    /// Drops the flags beyond `target` rows.
    pub fn shrink_to_fit(&mut self, target: u32)
        ensures
            final(self)@ == (if target < old(self)@.len() {
                old(self)@.take(target as int)
            } else {
                old(self)@
            }),
    {
        if (target as usize) < self.rows.len() {
            self.rows.truncate(target as usize);
        }
    }
}

} // verus!

//! Which rows have changed since they were last uploaded.

use vstd::prelude::*;
use crate::ascending::rows_ascend;

verus! {

/// One mark per row. Its view is the list of marks.
#[derive(Debug)]
pub struct DirtyMask {
    marks: Vec<bool>,
}

impl View for DirtyMask {
    type V = Seq<bool>;

    closed spec fn view(&self) -> Seq<bool> {
        self.marks@
    }
}

/// A mask for `n` rows without marks.
pub open spec fn clean(n: nat) -> Seq<bool> {
    Seq::new(n, |i: int| false)
}

/// The marks, without those beyond `n` rows, and with clean rows up to `n`.
pub open spec fn resized(marks: Seq<bool>, n: nat) -> Seq<bool> {
    Seq::new(n, |i: int| i < marks.len() && marks[i])
}

/// The marked rows among the first `n`, in ascending order.
pub open spec fn marked_below(marks: Seq<bool>, n: int) -> Seq<u32>
    decreases n,
{
    if n <= 0 {
        Seq::empty()
    } else if marks[n - 1] {
        marked_below(marks, n - 1).push((n - 1) as u32)
    } else {
        marked_below(marks, n - 1)
    }
}

/// The marked rows in ascending order.
pub open spec fn marked_rows(marks: Seq<bool>) -> Seq<u32> {
    marked_below(marks, marks.len() as int)
}

proof fn lemma_marked_below(marks: Seq<bool>, n: int)
    requires
        0 <= n <= marks.len() <= u32::MAX,
    ensures
        rows_ascend(marked_below(marks, n)),
        forall|r: u32| #[trigger] marked_below(marks, n).contains(r) <==> r < n && marks[r as int],
        marked_below(marks, n).len() <= n,
    decreases n,
{
    if n > 0 {
        lemma_marked_below(marks, n - 1);
        let before = marked_below(marks, n - 1);
        if marks[n - 1] {
            let all = before.push((n - 1) as u32);
            assert forall|r: u32| #[trigger] all.contains(r) <==> r < n && marks[r as int] by {
                if before.contains(r) {
                    let i = before.index_of(r);
                    assert(all[i] == r);
                }
                if all.contains(r) {
                    let i = all.index_of(r);
                    if i < before.len() {
                        assert(before[i] == r);
                        assert(before.contains(r));
                    }
                }
                if r == n - 1 {
                    assert(all[before.len() as int] == r);
                }
            }
            assert forall|i: int, j: int| 0 <= i < j < all.len() implies #[trigger] all[i] < #[trigger] all[j] by {
                if j == before.len() {
                    assert(before.contains(before[i]));
                }
            }
        }
    }
}

/// The marked rows ascend strictly and are exactly the rows with a mark.
pub proof fn lemma_marked_rows(marks: Seq<bool>)
    requires
        marks.len() <= u32::MAX,
    ensures
        rows_ascend(marked_rows(marks)),
        forall|r: u32| #[trigger]
            marked_rows(marks).contains(r) <==> r < marks.len() && marks[r as int],
        marked_rows(marks).len() <= marks.len(),
{
    lemma_marked_below(marks, marks.len() as int);
}

impl DirtyMask {
    /// A mask for `capacity` rows, none of them marked.
    pub fn new(capacity: u32) -> (mask: DirtyMask)
        ensures
            mask@ == clean(capacity as nat),
    {
        let mut marks: Vec<bool> = Vec::new();
        let mut i: u32 = 0;
        while i < capacity
            invariant
                i <= capacity,
                marks@ == clean(i as nat),
            decreases capacity - i,
        {
            marks.push(false);
            i = i + 1;
            proof {
                assert(marks@ =~= clean(i as nat));
            }
        }
        DirtyMask { marks }
    }

    /// How many rows the mask covers.
    pub fn capacity(&self) -> (n: usize)
        ensures
            n == self@.len(),
    {
        self.marks.len()
    }

    /// Marks a row.
    pub fn mark(&mut self, row: u32)
        requires
            row < old(self)@.len(),
        ensures
            final(self)@ == old(self)@.update(row as int, true),
    {
        self.marks[row as usize] = true;
    }

    /// Whether a row is marked.
    pub fn is_marked(&self, row: u32) -> (yes: bool)
        requires
            row < self@.len(),
        ensures
            yes == self@[row as int],
    {
        self.marks[row as usize]
    }

    /// Marks the first `n` rows.
    pub fn mark_range(&mut self, n: u32)
        requires
            n <= old(self)@.len(),
        ensures
            final(self)@ == Seq::new(old(self)@.len(), |i: int| i < n || old(self)@[i]),
    {
        let ghost before = self.marks@;
        let mut i: u32 = 0;
        while i < n
            invariant
                i <= n <= self.marks@.len(),
                self.marks@.len() == before.len(),
                forall|k: int| 0 <= k < before.len() ==> #[trigger] self.marks@[k] == (k < i || before[k]),
            decreases n - i,
        {
            self.marks[i as usize] = true;
            i = i + 1;
        }
        proof {
            assert(self@ =~= Seq::new(before.len(), |k: int| k < n || before[k]));
        }
    }

    /// Takes all marks off.
    pub fn clear_all(&mut self)
        ensures
            final(self)@ == clean(old(self)@.len()),
    {
        let len: usize = self.marks.len();
        let mut i: usize = 0;
        while i < len
            invariant
                i <= len,
                self.marks@.len() == len,
                forall|k: int| 0 <= k < i ==> !#[trigger] self.marks@[k],
            decreases len - i,
        {
            self.marks[i] = false;
            i = i + 1;
        }
        proof {
            assert(self@ =~= clean(len as nat));
        }
    }

    /// Makes the mask cover `n` rows, keeping the marks of rows that stay.
    pub fn resize(&mut self, n: u32)
        ensures
            final(self)@ == resized(old(self)@, n as nat),
    {
        let ghost before = self.marks@;
        if self.marks.len() > n as usize {
            self.marks.truncate(n as usize);
        }
        while self.marks.len() < n as usize
            invariant
                self.marks@.len() <= n,
                before.len() <= self.marks@.len() || self.marks@.len() == n,
                self.marks@ == resized(before, self.marks@.len()),
            decreases n - self.marks@.len(),
        {
            self.marks.push(false);
            proof {
                assert(self.marks@ =~= resized(before, self.marks@.len()));
            }
        }
        proof {
            assert(self@ =~= resized(before, n as nat));
        }
    }

    /// The marked rows in ascending order.
    pub fn marked(&self) -> (rows: Vec<u32>)
        requires
            self@.len() <= u32::MAX,
        ensures
            rows@ == marked_rows(self@),
    {
        let mut rows: Vec<u32> = Vec::new();
        let mut i: usize = 0;
        while i < self.marks.len()
            invariant
                i <= self.marks@.len() <= u32::MAX,
                rows@ == marked_below(self.marks@, i as int),
            decreases self.marks@.len() - i,
        {
            if self.marks[i] {
                rows.push(i as u32);
            }
            i = i + 1;
        }
        rows
    }
}

} // verus!

//! Equal regions of a device buffer, handed out and taken back.

use vstd::prelude::*;

verus! {

/// Why a cell got no region.
#[derive(Copy, Clone, Debug, PartialEq, Eq, Structural)]
pub enum RegionError {
    RowsExhausted,
    SlotsExhausted,
}

/// `count` regions of `region_size` rows, one behind the other from `base` on.
///
/// A region that is given back is pinned to a serial number, and free once the
/// work with that number is complete.
#[derive(Debug)]
pub struct RegionPool {
    base: u32,
    region_size: u32,
    count: u32,
    free: Vec<u32>,
    pinned: Vec<(u32, u64)>,
}

/// The value of a [`RegionPool`].
pub struct PoolModel {
    pub base: u32,
    pub region_size: u32,
    pub count: u32,
    /// The free regions; the last one is handed out next.
    pub free: Seq<u32>,
    /// The pinned regions with the serial numbers that they wait for.
    pub pinned: Seq<(u32, u64)>,
}

impl View for RegionPool {
    type V = PoolModel;

    closed spec fn view(&self) -> PoolModel {
        PoolModel {
            base: self.base,
            region_size: self.region_size,
            count: self.count,
            free: self.free@,
            pinned: self.pinned@,
        }
    }
}

/// The regions `count - 1` down to 0.
pub open spec fn descending(count: nat) -> Seq<u32> {
    Seq::new(count, |i: int| (count - 1 - i) as u32)
}

/// The regions among `pinned` whose serial number is at most `done`.
pub open spec fn completed(pinned: Seq<(u32, u64)>, done: u64) -> Seq<u32>
    decreases pinned.len(),
{
    if pinned.len() == 0 {
        Seq::empty()
    } else {
        let before = completed(pinned.drop_last(), done);
        if pinned.last().1 <= done {
            before.push(pinned.last().0)
        } else {
            before
        }
    }
}

/// The others.
pub open spec fn waiting(pinned: Seq<(u32, u64)>, done: u64) -> Seq<(u32, u64)> {
    pinned.filter(|p: (u32, u64)| p.1 > done)
}

impl PoolModel {
    /// Whether a region is in nobody's hands: free or pinned.
    pub open spec fn holds(self, region: u32) -> bool {
        self.free.contains(region) || exists|i: int|
            0 <= i < self.pinned.len() && (#[trigger] self.pinned[i]).0 == region
    }

    /// The regions fit into the numbers of rows, and none is held twice.
    pub open spec fn well_formed(self) -> bool {
        &&& self.base + self.region_size * self.count <= u32::MAX
        &&& self.free.no_duplicates()
        &&& forall|i: int| 0 <= i < self.free.len() ==> (#[trigger] self.free[i]) < self.count
        &&& forall|i: int| 0 <= i < self.pinned.len() ==> (#[trigger] self.pinned[i]).0 < self.count
        &&& forall|i: int, j: int|
            0 <= i < j < self.pinned.len() ==> (#[trigger] self.pinned[i]).0 != (#[trigger] self.pinned[j]).0
        &&& forall|i: int| 0 <= i < self.pinned.len() ==> !self.free.contains((#[trigger] self.pinned[i]).0)
    }

    /// The first row of a region.
    pub open spec fn start(self, region: u32) -> int {
        self.base + self.region_size * region
    }

    /// A region was handed out.
    pub open spec fn allocated(self) -> PoolModel {
        PoolModel { free: self.free.drop_last(), ..self }
    }

    /// A region was given back.
    pub open spec fn given_back(self, region: u32, serial: u64) -> PoolModel {
        PoolModel { pinned: self.pinned.push((region, serial)), ..self }
    }

    /// The regions that waited for serial numbers up to `done` are free.
    pub open spec fn drained(self, done: u64) -> PoolModel {
        PoolModel {
            free: self.free + completed(self.pinned, done),
            pinned: waiting(self.pinned, done),
            ..self
        }
    }
}

/// Two regions of a pool have no row in common, and every region is within the
/// pool.
pub proof fn lemma_regions_disjoint(p: PoolModel, a: u32, b: u32)
    requires
        p.well_formed(),
        a < p.count,
        b < p.count,
        a != b,
    ensures
        p.start(a) + p.region_size <= p.start(b) || p.start(b) + p.region_size <= p.start(a),
        p.base <= p.start(a),
        p.start(a) + p.region_size <= p.base + p.region_size * p.count,
{
    let s = p.region_size as int;
    let x = a as int;
    let y = b as int;
    let n = p.count as int;
    assert(s * x + s <= s * y || s * y + s <= s * x) by (nonlinear_arith)
        requires
            s >= 0,
            x != y,
    ;
    assert(0 <= s * x && s * x + s <= s * n) by (nonlinear_arith)
        requires
            s >= 0,
            0 <= x < n,
    ;
}

/// A region starts within the numbers of rows.
pub proof fn lemma_region_start(p: PoolModel, region: u32)
    requires
        p.well_formed(),
        region < p.count,
    ensures
        0 <= p.region_size * region,
        p.start(region) + p.region_size <= p.base + p.region_size * p.count <= u32::MAX,
{
    let s = p.region_size as int;
    let x = region as int;
    let n = p.count as int;
    assert(0 <= s * x && s * x + s <= s * n) by (nonlinear_arith)
        requires
            s >= 0,
            0 <= x < n,
    ;
}

proof fn lemma_completed(pinned: Seq<(u32, u64)>, done: u64)
    ensures
        forall|r: u32| #[trigger]
            completed(pinned, done).contains(r) <==> exists|i: int|
                0 <= i < pinned.len() && (#[trigger] pinned[i]).0 == r && pinned[i].1 <= done,
    decreases pinned.len(),
{
    if pinned.len() > 0 {
        let init = pinned.drop_last();
        lemma_completed(init, done);
        let all = completed(pinned, done);
        let before = completed(init, done);
        let last = pinned.len() - 1;
        assert forall|r: u32| #[trigger] all.contains(r) <==> exists|i: int|
            0 <= i < pinned.len() && (#[trigger] pinned[i]).0 == r && pinned[i].1 <= done by {
            if all.contains(r) {
                let k = all.index_of(r);
                if k < before.len() {
                    assert(before[k] == r);
                    assert(before.contains(r));
                    let i = choose|i: int|
                        0 <= i < init.len() && (#[trigger] init[i]).0 == r && init[i].1 <= done;
                    assert(pinned[i].0 == r && pinned[i].1 <= done);
                } else {
                    assert(pinned[last].0 == r && pinned[last].1 <= done);
                }
            }
            if exists|i: int| 0 <= i < pinned.len() && (#[trigger] pinned[i]).0 == r && pinned[i].1 <= done {
                let i = choose|i: int|
                    0 <= i < pinned.len() && (#[trigger] pinned[i]).0 == r && pinned[i].1 <= done;
                if i < last {
                    assert(init[i].0 == r && init[i].1 <= done);
                    assert(before.contains(r));
                    assert(all[before.index_of(r)] == r);
                } else {
                    assert(all[before.len() as int] == r);
                }
            }
        }
    }
}

proof fn lemma_completed_unique(pinned: Seq<(u32, u64)>, done: u64)
    requires
        forall|i: int, j: int|
            0 <= i < j < pinned.len() ==> (#[trigger] pinned[i]).0 != (#[trigger] pinned[j]).0,
    ensures
        completed(pinned, done).no_duplicates(),
    decreases pinned.len(),
{
    if pinned.len() > 0 {
        let init = pinned.drop_last();
        assert forall|i: int, j: int| 0 <= i < j < init.len() implies (#[trigger] init[i]).0 != (
        #[trigger] init[j]).0 by {
            assert(pinned[i].0 != pinned[j].0);
        }
        lemma_completed_unique(init, done);
        lemma_completed(init, done);
        let before = completed(init, done);
        let last = pinned.len() - 1;
        if pinned.last().1 <= done {
            assert(!before.contains(pinned.last().0)) by {
                if before.contains(pinned.last().0) {
                    let i = choose|i: int|
                        0 <= i < init.len() && (#[trigger] init[i]).0 == pinned.last().0 && init[i].1 <= done;
                    assert(pinned[i].0 != pinned[last].0);
                }
            }
            let all = before.push(pinned.last().0);
            assert forall|i: int, j: int| 0 <= i < all.len() && 0 <= j < all.len() && i != j implies all[i]
                != all[j] by {
                if i == before.len() {
                    assert(before.contains(before[j]));
                } else if j == before.len() {
                    assert(before.contains(before[i]));
                }
            }
        }
    }
}

proof fn lemma_waiting(pinned: Seq<(u32, u64)>, done: u64)
    requires
        forall|i: int, j: int|
            0 <= i < j < pinned.len() ==> (#[trigger] pinned[i]).0 != (#[trigger] pinned[j]).0,
    ensures
        forall|i: int|
            0 <= i < waiting(pinned, done).len() ==> pinned.contains(#[trigger] waiting(pinned, done)[i])
                && waiting(pinned, done)[i].1 > done,
        forall|i: int, j: int|
            0 <= i < j < waiting(pinned, done).len() ==> (#[trigger] waiting(pinned, done)[i]).0 != (
            #[trigger] waiting(pinned, done)[j]).0,
    decreases pinned.len(),
{
    reveal(Seq::filter);
    if pinned.len() > 0 {
        let init = pinned.drop_last();
        assert forall|i: int, j: int| 0 <= i < j < init.len() implies (#[trigger] init[i]).0 != (
        #[trigger] init[j]).0 by {
            assert(pinned[i].0 != pinned[j].0);
        }
        lemma_waiting(init, done);
        let before = waiting(init, done);
        let all = waiting(pinned, done);
        let last = pinned.len() - 1;
        assert forall|i: int| 0 <= i < all.len() implies pinned.contains(#[trigger] all[i]) && all[i].1 > done by {
            if i < before.len() {
                assert(init.contains(before[i]));
                let k = init.index_of(before[i]);
                assert(pinned[k] == before[i]);
            } else {
                assert(pinned[last] == all[i]);
            }
        }
        assert forall|i: int, j: int| 0 <= i < j < all.len() implies (#[trigger] all[i]).0 != (#[trigger] all[j]).0 by {
            if j < before.len() {
                assert(before[i].0 != before[j].0);
            } else {
                assert(init.contains(before[i]));
                let k = init.index_of(before[i]);
                assert(pinned[k].0 != pinned[last].0);
            }
        }
    }
}

/// Draining keeps the pool well-formed and holds the same regions.
pub proof fn lemma_drained(p: PoolModel, done: u64)
    requires
        p.well_formed(),
    ensures
        p.drained(done).well_formed(),
        forall|r: u32| #[trigger] p.drained(done).holds(r) <==> p.holds(r),
{
    let after = p.drained(done);
    let freed = completed(p.pinned, done);
    lemma_completed(p.pinned, done);
    lemma_completed_unique(p.pinned, done);
    lemma_waiting(p.pinned, done);
    assert forall|i: int| 0 <= i < after.free.len() implies (#[trigger] after.free[i]) < after.count by {
        if i >= p.free.len() {
            assert(freed.contains(freed[i - p.free.len()]));
            let k = choose|k: int|
                0 <= k < p.pinned.len() && (#[trigger] p.pinned[k]).0 == freed[i - p.free.len()] && p.pinned[k].1
                    <= done;
            assert(p.pinned[k].0 < p.count);
        }
    }
    assert forall|i: int, j: int| 0 <= i < after.free.len() && 0 <= j < after.free.len() && i != j implies after.free[i]
        != after.free[j] by {
        let n = p.free.len() as int;
        if i < n && j >= n {
            assert(freed.contains(freed[j - n]));
            let k = choose|k: int|
                0 <= k < p.pinned.len() && (#[trigger] p.pinned[k]).0 == freed[j - n] && p.pinned[k].1 <= done;
            assert(!p.free.contains(p.pinned[k].0));
            assert(p.free.contains(p.free[i]));
        }
        if j < n && i >= n {
            assert(freed.contains(freed[i - n]));
            let k = choose|k: int|
                0 <= k < p.pinned.len() && (#[trigger] p.pinned[k]).0 == freed[i - n] && p.pinned[k].1 <= done;
            assert(!p.free.contains(p.pinned[k].0));
            assert(p.free.contains(p.free[j]));
        }
    }
    assert forall|i: int| 0 <= i < after.pinned.len() implies (#[trigger] after.pinned[i]).0 < after.count
        && !after.free.contains(after.pinned[i].0) by {
        assert(p.pinned.contains(after.pinned[i]));
        let k = p.pinned.index_of(after.pinned[i]);
        assert(p.pinned[k] == after.pinned[i]);
        if after.free.contains(after.pinned[i].0) {
            let j = after.free.index_of(after.pinned[i].0);
            if j < p.free.len() {
                assert(p.free[j] == p.pinned[k].0);
                assert(p.free.contains(p.pinned[k].0));
            } else {
                assert(freed.contains(freed[j - p.free.len()]));
                let m = choose|m: int|
                    0 <= m < p.pinned.len() && (#[trigger] p.pinned[m]).0 == freed[j - p.free.len()]
                        && p.pinned[m].1 <= done;
                assert(m != k);
                if m < k {
                    assert(p.pinned[m].0 != p.pinned[k].0);
                } else {
                    assert(p.pinned[k].0 != p.pinned[m].0);
                }
            }
        }
    }
    assert forall|r: u32| #[trigger] after.holds(r) <==> p.holds(r) by {
        if p.free.contains(r) {
            assert(after.free[p.free.index_of(r)] == r);
        }
        if exists|i: int| 0 <= i < p.pinned.len() && (#[trigger] p.pinned[i]).0 == r {
            let i = choose|i: int| 0 <= i < p.pinned.len() && (#[trigger] p.pinned[i]).0 == r;
            if p.pinned[i].1 <= done {
                assert(freed.contains(r));
                assert(after.free[p.free.len() + freed.index_of(r)] == r);
            } else {
                lemma_filter_keeps(p.pinned, i, done);
                let k = after.pinned.index_of(p.pinned[i]);
                assert(after.pinned[k].0 == r);
            }
        }
        if after.free.contains(r) {
            let j = after.free.index_of(r);
            if j < p.free.len() {
                assert(p.free[j] == r);
            } else {
                assert(freed.contains(freed[j - p.free.len()]));
            }
        }
        if exists|i: int| 0 <= i < after.pinned.len() && (#[trigger] after.pinned[i]).0 == r {
            let i = choose|i: int| 0 <= i < after.pinned.len() && (#[trigger] after.pinned[i]).0 == r;
            assert(p.pinned.contains(after.pinned[i]));
            let k = p.pinned.index_of(after.pinned[i]);
            assert(p.pinned[k].0 == r);
        }
    }
}

proof fn lemma_filter_keeps(pinned: Seq<(u32, u64)>, i: int, done: u64)
    requires
        0 <= i < pinned.len(),
        pinned[i].1 > done,
    ensures
        waiting(pinned, done).contains(pinned[i]),
    decreases pinned.len(),
{
    reveal(Seq::filter);
    let init = pinned.drop_last();
    let before = waiting(init, done);
    let all = waiting(pinned, done);
    if i < init.len() {
        lemma_filter_keeps(init, i, done);
        let k = before.index_of(pinned[i]);
        assert(all[k] == pinned[i]);
    } else {
        assert(all[before.len() as int] == pinned[i]);
    }
}

/// A drain frees exactly the regions that were given back for a serial that is done
/// by now, and leaves those of later serials waiting.
pub proof fn lemma_drain_is_timely(p: PoolModel, done: u64, region: u32)
    ensures
        p.drained(done).free.contains(region) <==> p.free.contains(region) || exists|i: int|
            0 <= i < p.pinned.len() && (#[trigger] p.pinned[i]).0 == region && p.pinned[i].1 <= done,
        forall|x: (u32, u64)| #[trigger]
            p.drained(done).pinned.contains(x) <==> p.pinned.contains(x) && x.1 > done,
        p.drained(done).base == p.base,
        p.drained(done).region_size == p.region_size,
        p.drained(done).count == p.count,
{
    lemma_completed_regions(p.pinned, done, region);
    let freed = completed(p.pinned, done);
    let after = p.drained(done);
    if after.free.contains(region) {
        let i = after.free.index_of(region);
        if i < p.free.len() {
            assert(p.free[i] == region);
        } else {
            assert(freed[i - p.free.len()] == region);
        }
    }
    if p.free.contains(region) {
        assert(after.free[p.free.index_of(region)] == region);
    }
    if freed.contains(region) {
        assert(after.free[p.free.len() + freed.index_of(region)] == region);
    }
    let keep = |x: (u32, u64)| x.1 > done;
    assert forall|x: (u32, u64)| #[trigger] after.pinned.contains(x) <==> p.pinned.contains(x) && x.1 > done by {
        if after.pinned.contains(x) {
            p.pinned.lemma_filter_contains_rev(keep, x);
            let k = after.pinned.index_of(x);
            p.pinned.lemma_filter_pred(keep, k);
        }
        if p.pinned.contains(x) && x.1 > done {
            let i = p.pinned.index_of(x);
            p.pinned.lemma_filter_contains(keep, i);
        }
    }
}

proof fn lemma_completed_regions(pinned: Seq<(u32, u64)>, done: u64, region: u32)
    ensures
        completed(pinned, done).contains(region) <==> exists|i: int|
            0 <= i < pinned.len() && (#[trigger] pinned[i]).0 == region && pinned[i].1 <= done,
    decreases pinned.len(),
{
    if pinned.len() > 0 {
        let init = pinned.drop_last();
        let n = pinned.len() - 1;
        lemma_completed_regions(init, done, region);
        let before = completed(init, done);
        let all = completed(pinned, done);
        assert(pinned[n] == pinned.last());
        if all.contains(region) {
            let k = all.index_of(region);
            if k < before.len() {
                assert(before[k] == region);
                let i = choose|i: int| 0 <= i < init.len() && (#[trigger] init[i]).0 == region && init[i].1 <= done;
                assert(pinned[i] == init[i]);
            } else {
                assert(pinned[n].0 == region);
            }
        }
        if exists|i: int| 0 <= i < pinned.len() && (#[trigger] pinned[i]).0 == region && pinned[i].1 <= done {
            let i = choose|i: int| 0 <= i < pinned.len() && (#[trigger] pinned[i]).0 == region && pinned[i].1 <= done;
            if i < n {
                assert(init[i] == pinned[i]);
                assert(all[before.index_of(region)] == region);
            } else {
                assert(all.last() == region);
            }
        }
    }
}

/// In a new pool every region is free, once, and the first one is handed out first.
pub proof fn lemma_new_pool_is_free(count: u32, region: u32)
    ensures
        descending(count as nat).contains(region) <==> region < count,
        descending(count as nat).no_duplicates(),
        descending(count as nat).len() == count,
        count > 0 ==> descending(count as nat).last() == 0,
{
    let all = descending(count as nat);
    if region < count {
        assert(all[count - 1 - region] == region);
    }
}

impl RegionPool {
    /// The regions fit into the numbers of rows, and none is held twice.
    pub open spec fn well_formed(&self) -> bool {
        self@.well_formed()
    }

    /// A pool whose regions are all free. They are handed out from the first
    /// on.
    pub fn new(base: u32, region_size: u32, count: u32) -> (pool: RegionPool)
        requires
            base + region_size * count <= u32::MAX,
        ensures
            pool.well_formed(),
            pool@ == (PoolModel {
                base,
                region_size,
                count,
                free: descending(count as nat),
                pinned: Seq::empty(),
            }),
    {
        let mut free: Vec<u32> = Vec::new();
        let mut i: u32 = 0;
        while i < count
            invariant
                i <= count,
                free@.len() == i,
                forall|k: int| 0 <= k < i ==> #[trigger] free@[k] == count - 1 - k,
            decreases count - i,
        {
            free.push(count - 1 - i);
            i = i + 1;
        }
        proof {
            assert(free@ =~= descending(count as nat));
        }
        RegionPool { base, region_size, count, free, pinned: Vec::new() }
    }

    /// How many regions are free.
    pub fn free_count(&self) -> (n: usize)
        ensures
            n == self@.free.len(),
    {
        self.free.len()
    }

    /// Rows of one region.
    pub fn region_size(&self) -> (n: u32)
        ensures
            n == self@.region_size,
    {
        self.region_size
    }

    /// The first row of a region.
    pub fn start(&self, region: u32) -> (row: u32)
        requires
            self.well_formed(),
            region < self@.count,
        ensures
            row == self@.start(region),
    {
        proof {
            lemma_region_start(self@, region);
        }
        self.base + self.region_size * region
    }

    /// Hands out a region; `None` if none is free.
    pub fn allocate(&mut self) -> (region: Option<u32>)
        requires
            old(self).well_formed(),
        ensures
            final(self).well_formed(),
            match region {
                Some(r) => {
                    &&& old(self)@.free.len() > 0
                    &&& r == old(self)@.free.last()
                    &&& r < old(self)@.count
                    &&& final(self)@ == old(self)@.allocated()
                    &&& old(self)@.holds(r)
                    &&& !final(self)@.holds(r)
                    &&& forall|x: u32|
                        x != r ==> (#[trigger] final(self)@.holds(x) <==> old(self)@.holds(x))
                },
                None => old(self)@.free.len() == 0 && final(self)@ == old(self)@,
            },
    {
        let ghost before = self@;
        match self.free.pop() {
            Some(r) => {
                proof {
                    let after = self@;
                    let last = before.free.len() - 1;
                    assert(self.free@ =~= before.free.drop_last());
                    assert(after == before.allocated());
                    assert(after.pinned == before.pinned);
                    assert(before.free[last] == r);
                    assert(before.free.contains(r));
                    assert forall|x: u32| #[trigger] after.free.contains(x) <==> before.free.contains(x) && x != r by {
                        if after.free.contains(x) {
                            let k = after.free.index_of(x);
                            assert(before.free[k] == x);
                            assert(before.free[k] != before.free[last]);
                        }
                        if before.free.contains(x) && x != r {
                            let k = before.free.index_of(x);
                            assert(after.free[k] == x);
                        }
                    }
                    assert forall|i: int| 0 <= i < after.pinned.len() implies !after.free.contains(
                        (#[trigger] after.pinned[i]).0,
                    ) by {
                        assert(!before.free.contains(before.pinned[i].0));
                    }
                    assert forall|i: int, j: int|
                        0 <= i < after.free.len() && 0 <= j < after.free.len() && i != j implies after.free[i]
                        != after.free[j] by {
                        assert(before.free[i] != before.free[j]);
                    }
                    assert forall|i: int| 0 <= i < after.free.len() implies (#[trigger] after.free[i])
                        < after.count by {
                        assert(before.free[i] < before.count);
                    }
                    assert(after.well_formed());
                }
                Some(r)
            },
            None => None,
        }
    }

    /// Takes a region back. It is free once the work with the given serial
    /// number is complete.
    pub fn free_pinned(&mut self, region: u32, serial: u64)
        requires
            old(self).well_formed(),
            region < old(self)@.count,
            !old(self)@.holds(region),
        ensures
            final(self).well_formed(),
            final(self)@ == old(self)@.given_back(region, serial),
            forall|x: u32| #[trigger] final(self)@.holds(x) <==> old(self)@.holds(x) || x == region,
    {
        let ghost before = self@;
        self.pinned.push((region, serial));
        proof {
            let after = self@;
            let n = before.pinned.len() as int;
            assert forall|x: u32| #[trigger] after.holds(x) <==> before.holds(x) || x == region by {
                if exists|i: int| 0 <= i < before.pinned.len() && (#[trigger] before.pinned[i]).0 == x {
                    let i = choose|i: int| 0 <= i < before.pinned.len() && (#[trigger] before.pinned[i]).0 == x;
                    assert(after.pinned[i].0 == x);
                }
                if exists|i: int| 0 <= i < after.pinned.len() && (#[trigger] after.pinned[i]).0 == x {
                    let i = choose|i: int| 0 <= i < after.pinned.len() && (#[trigger] after.pinned[i]).0 == x;
                    if i < n {
                        assert(before.pinned[i].0 == x);
                    }
                }
                assert(after.pinned[n].0 == region);
            }
            assert forall|i: int, j: int| 0 <= i < j < after.pinned.len() implies (#[trigger] after.pinned[i]).0 != (
            #[trigger] after.pinned[j]).0 by {
                if j == n {
                    assert(before.pinned[i].0 == after.pinned[i].0);
                } else {
                    assert(before.pinned[i].0 != before.pinned[j].0);
                }
            }
            assert forall|i: int| 0 <= i < after.pinned.len() implies !after.free.contains((#[trigger] after.pinned[i]).0) by {
                if i < n {
                    assert(!before.free.contains(before.pinned[i].0));
                }
            }
            assert forall|i: int| 0 <= i < after.pinned.len() implies (#[trigger] after.pinned[i]).0 < after.count by {
                if i < n {
                    assert(before.pinned[i].0 < before.count);
                }
            }
        }
    }

    /// Frees the regions that waited for serial numbers up to `done`.
    pub fn drain_completed(&mut self, done: u64)
        requires
            old(self).well_formed(),
        ensures
            final(self).well_formed(),
            final(self)@ == old(self)@.drained(done),
            forall|x: u32| #[trigger] final(self)@.holds(x) <==> old(self)@.holds(x),
    {
        let ghost before = self@;
        let ghost all = self.pinned@;
        let ghost keep = |p: (u32, u64)| p.1 > done;
        let mut rest: Vec<(u32, u64)> = Vec::new();
        let mut i: usize = 0;
        proof {
            reveal(Seq::filter);
            assert(all.take(0) =~= Seq::<(u32, u64)>::empty());
            assert(self.free@ =~= before.free + completed(all.take(0), done));
        }
        while i < self.pinned.len()
            invariant
                i <= all.len(),
                all == self.pinned@,
                keep == (|p: (u32, u64)| p.1 > done),
                self.base == before.base,
                self.region_size == before.region_size,
                self.count == before.count,
                self.free@ == before.free + completed(all.take(i as int), done),
                rest@ == all.take(i as int).filter(keep),
            decreases all.len() - i,
        {
            let entry: (u32, u64) = self.pinned[i];
            let ghost freed = completed(all.take(i as int), done);
            proof {
                reveal(Seq::filter);
                assert(all.take(i + 1).drop_last() =~= all.take(i as int));
                assert(all.take(i + 1).last() == entry);
            }
            if entry.1 <= done {
                self.free.push(entry.0);
                proof {
                    assert(self.free@ =~= before.free + freed.push(entry.0));
                }
            } else {
                rest.push(entry);
            }
            i = i + 1;
        }
        proof {
            assert(all.take(all.len() as int) =~= all);
        }
        self.pinned = rest;
        proof {
            lemma_drained(before, done);
        }
    }
}

} // verus!

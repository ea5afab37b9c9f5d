//! Strictly ascending lists of numbers.

use vstd::prelude::*;

verus! {

/// Strictly ascending rows.
pub open spec fn rows_ascend(rows: Seq<u32>) -> bool {
    forall|i: int, j: int| 0 <= i < j < rows.len() ==> #[trigger] rows[i] < #[trigger] rows[j]
}

/// A row is found where it stands.
pub proof fn lemma_index_of_row(rows: Seq<u32>, i: int)
    requires
        rows_ascend(rows),
        0 <= i < rows.len(),
    ensures
        rows.contains(rows[i]),
        rows.index_of(rows[i]) == i,
{
    let j = rows.index_of(rows[i]);
    assert(rows[j] == rows[i]);
    if j < i {
        assert(rows[j] < rows[i]);
    }
    if i < j {
        assert(rows[i] < rows[j]);
    }
}

/// The row at position `i` is `i` or more.
pub proof fn lemma_row_at_least(rows: Seq<u32>, i: int)
    requires
        rows_ascend(rows),
        0 <= i < rows.len(),
    ensures
        rows[i] >= i,
    decreases i,
{
    if i > 0 {
        lemma_row_at_least(rows, i - 1);
        assert(rows[i - 1] < rows[i]);
    }
}

/// `rows` with `r` at its place, if it is not there yet.
pub open spec fn with_row(rows: Seq<u32>, r: u32) -> Seq<u32>
    decreases rows.len(),
{
    if rows.len() == 0 || rows.last() < r {
        rows.push(r)
    } else if rows.last() == r {
        rows
    } else {
        with_row(rows.drop_last(), r).push(rows.last())
    }
}

/// Adding a row to an ascending list gives an ascending list with one more
/// member.
pub proof fn lemma_with_row(rows: Seq<u32>, r: u32)
    requires
        rows_ascend(rows),
    ensures
        rows_ascend(with_row(rows, r)),
        forall|x: u32| #[trigger] with_row(rows, r).contains(x) <==> rows.contains(x) || x == r,
    decreases rows.len(),
{
    let out = with_row(rows, r);
    if rows.len() == 0 || rows.last() < r {
        assert forall|i: int, j: int| 0 <= i < j < out.len() implies #[trigger] out[i] < #[trigger] out[j] by {
            if j == rows.len() && i < rows.len() - 1 {
                assert(rows[i] < rows[rows.len() - 1]);
            }
        }
        assert forall|x: u32| #[trigger] out.contains(x) <==> rows.contains(x) || x == r by {
            if rows.contains(x) {
                assert(out[rows.index_of(x)] == x);
            }
            assert(out[rows.len() as int] == r);
        }
    } else if rows.last() == r {
        assert(rows[rows.len() - 1] == r);
    } else {
        let init = rows.drop_last();
        let last = rows.last();
        assert(rows[rows.len() - 1] == last);
        assert forall|i: int, j: int| 0 <= i < j < init.len() implies #[trigger] init[i] < #[trigger] init[j] by {
            assert(rows[i] < rows[j]);
        }
        lemma_with_row(init, r);
        let sub = with_row(init, r);
        assert forall|i: int| 0 <= i < sub.len() implies #[trigger] sub[i] < last by {
            assert(sub.contains(sub[i]));
            if sub[i] != r {
                let k = init.index_of(sub[i]);
                assert(rows[k] < rows[rows.len() - 1]);
            }
        }
        assert forall|i: int, j: int| 0 <= i < j < out.len() implies #[trigger] out[i] < #[trigger] out[j] by {
            if j < sub.len() {
                assert(sub[i] < sub[j]);
            } else {
                assert(sub[i] < last);
            }
        }
        assert forall|x: u32| #[trigger] out.contains(x) <==> rows.contains(x) || x == r by {
            if out.contains(x) {
                let i = out.index_of(x);
                if i < sub.len() {
                    assert(sub[i] == x);
                    assert(sub.contains(x));
                    if init.contains(x) {
                        assert(rows[init.index_of(x)] == x);
                    }
                }
            }
            if rows.contains(x) {
                let i = rows.index_of(x);
                if i < init.len() {
                    assert(init[i] == x);
                    assert(sub.contains(x));
                    assert(out[sub.index_of(x)] == x);
                } else {
                    assert(out[sub.len() as int] == x);
                }
            }
            if x == r {
                assert(sub.contains(r));
                assert(out[sub.index_of(r)] == r);
            }
        }
    }
}

/// Two strictly ascending lists with the same members are the same list.
pub proof fn lemma_rows_unique(a: Seq<u32>, b: Seq<u32>)
    requires
        rows_ascend(a),
        rows_ascend(b),
        forall|r: u32| #[trigger] a.contains(r) <==> b.contains(r),
    ensures
        a == b,
    decreases a.len(),
{
    if a.len() == 0 {
        if b.len() > 0 {
            assert(b.contains(b[0]));
            assert(a.contains(b[0]));
        }
        assert(a =~= b);
    } else if b.len() == 0 {
        assert(a.contains(a[0]));
    } else {
        let x = a.last();
        let y = b.last();
        assert(a[a.len() - 1] == x && b[b.len() - 1] == y);
        assert(a.contains(x) && b.contains(x));
        assert(b.contains(y) && a.contains(y));
        let i = b.index_of(x);
        let j = a.index_of(y);
        assert(b[i] == x && a[j] == y);
        assert(x == y) by {
            if i < b.len() - 1 {
                assert(b[i] < b[b.len() - 1]);
            }
            if j < a.len() - 1 {
                assert(a[j] < a[a.len() - 1]);
            }
        }
        let a1 = a.drop_last();
        let b1 = b.drop_last();
        assert forall|r: u32| #[trigger] a1.contains(r) <==> b1.contains(r) by {
            if a1.contains(r) {
                let k = a1.index_of(r);
                assert(a[k] == r);
                assert(a[k] < a[a.len() - 1]);
                assert(a.contains(r));
                let m = b.index_of(r);
                assert(b[m] == r);
                assert(b1[m] == r);
            }
            if b1.contains(r) {
                let k = b1.index_of(r);
                assert(b[k] == r);
                assert(b[k] < b[b.len() - 1]);
                assert(b.contains(r));
                assert(a.contains(r));
                let m = a.index_of(r);
                assert(a[m] == r);
                assert(a1[m] == r);
            }
        }
        lemma_rows_unique(a1, b1);
        assert(a =~= a1.push(x));
        assert(b =~= b1.push(y));
    }
}

} // verus!

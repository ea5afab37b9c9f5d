//! Uploading scattered rows: few contiguous runs are written directly, many
//! are written in one scatter pass.

use vstd::prelude::*;
use crate::ascending::{lemma_index_of_row, rows_ascend};
use crate::gpu::device::{executed, lemma_run_concat, lemma_run_one, patched, run, CommandModel, CommandQueue, GpuCommand, Row, SyncStats};
use crate::replication::types::blobs;

verus! {

/// Up to this many contiguous runs are written one by one. A scatter pass has
/// a fixed cost that does not pay off below it.
pub const SCATTER_RUN_THRESHOLD: u32 = 4;

/// How many rows from the first on follow each other without a gap.
pub open spec fn run_len(rows: Seq<u32>) -> nat
    decreases rows.len(),
{
    if rows.len() <= 1 {
        rows.len()
    } else if rows[1] == rows[0] + 1 {
        1 + run_len(rows.skip(1))
    } else {
        1
    }
}

proof fn lemma_run_len(rows: Seq<u32>)
    requires
        rows.len() > 0,
    ensures
        1 <= run_len(rows) <= rows.len(),
        forall|i: int| 0 <= i < run_len(rows) ==> #[trigger] rows[i] == rows[0] + i,
        run_len(rows) < rows.len() ==> rows[run_len(rows) as int] != rows[0] + run_len(rows),
    decreases rows.len(),
{
    if rows.len() > 1 && rows[1] == rows[0] + 1 {
        let rest = rows.skip(1);
        lemma_run_len(rest);
        assert forall|i: int| 0 <= i < run_len(rows) implies #[trigger] rows[i] == rows[0] + i by {
            if i > 0 {
                assert(rest[i - 1] == rows[i]);
            }
        }
        if run_len(rows) < rows.len() {
            assert(rest[run_len(rest) as int] == rows[run_len(rows) as int]);
        }
    }
}

/// One write for every contiguous run of rows.
pub open spec fn direct_writes(rows: Seq<u32>, values: Seq<Seq<u8>>) -> Seq<CommandModel>
    decreases rows.len(),
{
    if rows.len() == 0 {
        Seq::empty()
    } else {
        let k = run_len(rows) as int;
        if 0 < k <= rows.len() {
            seq![CommandModel::Write { row: rows[0], data: values.take(k) }] + direct_writes(
                rows.skip(k),
                values.skip(k),
            )
        } else {
            Seq::empty()
        }
    }
}

/// The commands that write `values[i]` to row `rows[i]`, for every `i`.
pub open spec fn uploads(rows: Seq<u32>, values: Seq<Seq<u8>>) -> Seq<CommandModel> {
    if rows.len() == 0 {
        Seq::empty()
    } else if direct_writes(rows, values).len() <= SCATTER_RUN_THRESHOLD {
        direct_writes(rows, values)
    } else {
        seq![CommandModel::Scatter { rows, data: values }]
    }
}

/// What an upload of rows of `stride` bytes moved.
pub open spec fn upload_stats(rows: Seq<u32>, values: Seq<Seq<u8>>, stride: u32) -> SyncStats {
    SyncStats { ranges: uploads(rows, values).len() as u32, bytes: (rows.len() * stride) as u64 }
}

/// Direct writes put every value into its row and leave all other rows alone.
pub proof fn lemma_direct_writes(mem: Seq<Seq<u8>>, rows: Seq<u32>, values: Seq<Seq<u8>>, stride: nat)
    requires
        rows_ascend(rows),
        rows.len() == values.len(),
        forall|i: int| 0 <= i < rows.len() ==> (#[trigger] rows[i]) < mem.len(),
        mem.len() <= u32::MAX,
    ensures
        run(mem, direct_writes(rows, values), stride) == patched(mem, rows, values),
    decreases rows.len(),
{
    if rows.len() == 0 {
        assert(patched(mem, rows, values) =~= mem);
    } else {
        lemma_run_len(rows);
        let k = run_len(rows) as int;
        let first = CommandModel::Write { row: rows[0], data: values.take(k) };
        let rest_rows = rows.skip(k);
        let rest_values = values.skip(k);
        let mid = executed(mem, first, stride);
        assert forall|i: int, j: int| 0 <= i < j < rest_rows.len() implies #[trigger] rest_rows[i]
            < #[trigger] rest_rows[j] by {
            assert(rows[i + k] < rows[j + k]);
        }
        assert forall|i: int| 0 <= i < rest_rows.len() implies (#[trigger] rest_rows[i]) < mid.len() by {
            assert(rows[i + k] < mem.len());
        }
        lemma_direct_writes(mid, rest_rows, rest_values, stride);
        lemma_run_one(mem, first, stride);
        lemma_run_concat(mem, seq![first], direct_writes(rest_rows, rest_values), stride);
        let want = patched(mem, rows, values);
        let got = patched(mid, rest_rows, rest_values);
        assert forall|i: int| 0 <= i < mem.len() implies #[trigger] want[i] == got[i] by {
            let r = i as u32;
            if rest_rows.contains(r) {
                let j = rest_rows.index_of(r);
                assert(rows[j + k] == r);
                lemma_index_of_row(rows, j + k);
            } else if rows[0] <= i < rows[0] + k {
                let j = i - rows[0];
                assert(rows[j] == r);
                lemma_index_of_row(rows, j);
            } else if rows.contains(r) {
                let j = rows.index_of(r);
                if j < k {
                    assert(rows[j] == rows[0] + j);
                } else {
                    assert(rest_rows[j - k] == r);
                }
            }
        }
        assert(want =~= got);
    }
}

/// Whether written directly or in one pass, an upload puts every value into
/// its row and leaves all other rows alone.
pub proof fn lemma_uploads(mem: Seq<Seq<u8>>, rows: Seq<u32>, values: Seq<Seq<u8>>, stride: nat)
    requires
        rows_ascend(rows),
        rows.len() == values.len(),
        forall|i: int| 0 <= i < rows.len() ==> (#[trigger] rows[i]) < mem.len(),
        mem.len() <= u32::MAX,
    ensures
        run(mem, uploads(rows, values), stride) == patched(mem, rows, values),
{
    lemma_direct_writes(mem, rows, values, stride);
    if rows.len() > 0 && direct_writes(rows, values).len() > SCATTER_RUN_THRESHOLD {
        lemma_run_one(mem, CommandModel::Scatter { rows, data: values }, stride);
    }
}

fn first_run(rows: &Vec<u32>, from: usize) -> (end: usize)
    requires
        from < rows@.len(),
        rows_ascend(rows@),
    ensures
        end == from + run_len(rows@.skip(from as int)),
        from < end <= rows@.len(),
{
    let len: usize = rows.len();
    let mut end: usize = from + 1;
    let ghost mut counted: nat = 1;
    while end < len && rows[end] - rows[end - 1] == 1
        invariant
            from < end <= len,
            len == rows@.len(),
            rows_ascend(rows@),
            counted == end - from,
            run_len(rows@.skip(from as int)) == counted - 1 + run_len(rows@.skip(end - 1)),
        decreases rows@.len() - end,
    {
        proof {
            let here = rows@.skip(end - 1);
            assert(here[0] == rows@[end - 1]);
            assert(here[1] == rows@[end as int]);
            assert(here.skip(1) =~= rows@.skip(end as int));
            counted = counted + 1;
        }
        end = end + 1;
    }
    proof {
        let here = rows@.skip(end - 1);
        if end < rows@.len() {
            assert(here[1] == rows@[end as int]);
            assert(here[0] == rows@[end - 1]);
            assert(rows@[end - 1] < rows@[end as int]);
        }
        assert(run_len(here) == 1);
    }
    end
}

/// How many contiguous runs the rows form.
pub(crate) fn count_runs(rows: &Vec<u32>, Ghost(values): Ghost<Seq<Seq<u8>>>) -> (n: usize)
    requires
        rows_ascend(rows@),
        rows@.len() == values.len(),
    ensures
        n == direct_writes(rows@, values).len(),
{
    let mut n: usize = 0;
    let mut at: usize = 0;
    proof {
        assert(rows@.skip(0) =~= rows@);
        assert(values.skip(0) =~= values);
    }
    while at < rows.len()
        invariant
            at <= rows@.len(),
            n <= at,
            rows_ascend(rows@),
            rows@.len() == values.len(),
            direct_writes(rows@, values).len() == n + direct_writes(
                rows@.skip(at as int),
                values.skip(at as int),
            ).len(),
        decreases rows@.len() - at,
    {
        let end: usize = first_run(rows, at);
        proof {
            let k = end - at;
            assert(rows@.skip(at as int).skip(k) =~= rows@.skip(end as int));
            assert(values.skip(at as int).skip(k) =~= values.skip(end as int));
        }
        n = n + 1;
        at = end;
    }
    n
}

/// Queues one write for every contiguous run of rows.
pub fn queue_direct_writes(queue: &mut CommandQueue, rows: &Vec<u32>, values: &Vec<Row>)
    requires
        rows_ascend(rows@),
        rows@.len() == values@.len(),
    ensures
        final(queue)@ == old(queue)@ + direct_writes(rows@, blobs(values@)),
{
    let ghost all = blobs(values@);
    let ghost before = queue@;
    let mut at: usize = 0;
    proof {
        assert(rows@.skip(0) =~= rows@);
        assert(all.skip(0) =~= all);
    }
    while at < rows.len()
        invariant
            at <= rows@.len(),
            rows_ascend(rows@),
            rows@.len() == values@.len(),
            all == blobs(values@),
            before + direct_writes(rows@, all) == queue@ + direct_writes(
                rows@.skip(at as int),
                all.skip(at as int),
            ),
        decreases rows@.len() - at,
    {
        let ghost queued = queue@;
        let end: usize = first_run(rows, at);
        let data: Vec<Row> = copy_rows(values, at, end);
        let ghost command = CommandModel::Write { row: rows@[at as int], data: blobs(data@) };
        queue.push(GpuCommand::Write { row: rows[at], data });
        proof {
            let k = end - at;
            let here = rows@.skip(at as int);
            let rest = direct_writes(rows@.skip(end as int), all.skip(end as int));
            assert(here.skip(k) =~= rows@.skip(end as int));
            assert(all.skip(at as int).skip(k) =~= all.skip(end as int));
            assert(all.skip(at as int).take(k) =~= all.subrange(at as int, end as int));
            assert(direct_writes(here, all.skip(at as int)) == seq![command] + rest);
            assert(queued + (seq![command] + rest) =~= queue@ + rest);
        }
        at = end;
    }
    proof {
        assert(queue@ + direct_writes(rows@.skip(at as int), all.skip(at as int)) =~= queue@);
    }
}

/// Queues the upload of `values[i]` to row `rows[i]`, for every `i`.
pub fn queue_uploads(queue: &mut CommandQueue, rows: Vec<u32>, values: Vec<Row>, stride: u32) -> (stats: SyncStats)
    requires
        rows_ascend(rows@),
        rows@.len() == values@.len(),
        rows@.len() <= u32::MAX,
    ensures
        final(queue)@ == old(queue)@ + uploads(rows@, blobs(values@)),
        stats == upload_stats(rows@, blobs(values@), stride),
{
    let ghost all = blobs(values@);
    let ghost before = queue@;
    let ghost row_list = rows@;
    let count: usize = rows.len();
    let runs: usize = count_runs(&rows, Ghost(all));
    proof {
        assert(count * stride <= u32::MAX * u32::MAX) by (nonlinear_arith)
            requires
                0 <= count <= u32::MAX,
                0 <= stride <= u32::MAX,
        ;
    }
    let bytes: u64 = count as u64 * stride as u64;
    if count == 0 {
        proof {
            assert(before + uploads(rows@, all) =~= before);
            assert(rows@.len() * stride == 0) by (nonlinear_arith)
                requires
                    rows@.len() == 0,
            ;
        }
        return SyncStats { ranges: 0, bytes: 0 };
    }
    if runs > SCATTER_RUN_THRESHOLD as usize {
        queue.push(GpuCommand::Scatter { rows, data: values });
        proof {
            assert(queue@ =~= before + uploads(row_list, all));
        }
        return SyncStats { ranges: 1, bytes };
    }
    queue_direct_writes(queue, &rows, &values);
    SyncStats { ranges: runs as u32, bytes }
}

/// Copies of the rows from `from` up to `end`.
fn copy_rows(values: &Vec<Row>, from: usize, end: usize) -> (out: Vec<Row>)
    requires
        from <= end <= values@.len(),
    ensures
        blobs(out@) == blobs(values@).subrange(from as int, end as int),
{
    let mut out: Vec<Row> = Vec::new();
    let mut i: usize = from;
    while i < end
        invariant
            from <= i <= end <= values@.len(),
            out@.len() == i - from,
            forall|k: int| 0 <= k < out@.len() ==> (#[trigger] out@[k])@ == values@[from + k]@,
        decreases end - i,
    {
        out.push(vstd::slice::slice_to_vec(values[i].as_slice()));
        i = i + 1;
    }
    proof {
        assert(blobs(out@) =~= blobs(values@).subrange(from as int, end as int));
    }
    out
}

} // verus!

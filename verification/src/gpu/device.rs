//! Device memory, and the commands that change it.

use vstd::prelude::*;
use crate::replication::types::blobs;

verus! {

/// Bytes of one row of a device buffer.
pub type Row = Vec<u8>;

/// A command on one device buffer.
#[derive(Debug)]
pub enum GpuCommand {
    /// Replaces the buffer by a zeroed one with `capacity` rows and copies the
    /// first `keep` rows of the old one into it.
    Reallocate { capacity: u32, keep: u32 },
    /// Writes `data` to consecutive rows from `row` on.
    Write { row: u32, data: Vec<Row> },
    /// Writes `data[i]` to row `rows[i]` for every `i`, in one pass.
    Scatter { rows: Vec<u32>, data: Vec<Row> },
}

/// The value of a [`GpuCommand`].
pub enum CommandModel {
    Reallocate { capacity: u32, keep: u32 },
    Write { row: u32, data: Seq<Seq<u8>> },
    Scatter { rows: Seq<u32>, data: Seq<Seq<u8>> },
}

impl View for GpuCommand {
    type V = CommandModel;

    open spec fn view(&self) -> CommandModel {
        match self {
            GpuCommand::Reallocate { capacity, keep } => CommandModel::Reallocate {
                capacity: *capacity,
                keep: *keep,
            },
            GpuCommand::Write { row, data } => CommandModel::Write { row: *row, data: blobs(data@) },
            GpuCommand::Scatter { rows, data } => CommandModel::Scatter {
                rows: rows@,
                data: blobs(data@),
            },
        }
    }
}

/// The commands of one buffer in the order in which they are to be executed.
/// Its view is the list of them.
#[derive(Debug)]
pub struct CommandQueue {
    pub commands: Vec<GpuCommand>,
}

/// The contents of a list of commands.
pub open spec fn command_models(v: Seq<GpuCommand>) -> Seq<CommandModel> {
    v.map_values(|c: GpuCommand| c@)
}

impl View for CommandQueue {
    type V = Seq<CommandModel>;

    open spec fn view(&self) -> Seq<CommandModel> {
        command_models(self.commands@)
    }
}

impl CommandQueue {
    /// A queue without commands.
    pub fn new() -> (q: CommandQueue)
        ensures
            q@ == Seq::<CommandModel>::empty(),
    {
        let q = CommandQueue { commands: Vec::new() };
        proof {
            assert(q@ =~= Seq::<CommandModel>::empty());
        }
        q
    }

    /// Appends a command.
    pub fn push(&mut self, command: GpuCommand)
        ensures
            final(self)@ == old(self)@.push(command@),
    {
        let ghost before = self@;
        let ghost added = command@;
        self.commands.push(command);
        proof {
            assert(self@ =~= before.push(added));
        }
    }
}

/// A row of zeros.
pub open spec fn zero_row(stride: nat) -> Seq<u8> {
    Seq::new(stride, |i: int| 0u8)
}

/// A row of zeros.
pub fn make_zero_row(stride: u32) -> (row: Row)
    ensures
        row@ == zero_row(stride as nat),
{
    let mut row: Vec<u8> = Vec::new();
    let mut i: u32 = 0;
    while i < stride
        invariant
            i <= stride,
            row@ == zero_row(i as nat),
        decreases stride - i,
    {
        row.push(0);
        i = i + 1;
        proof {
            assert(row@ =~= zero_row(i as nat));
        }
    }
    row
}

/// A row of one 32-bit word, least significant byte first.
pub open spec fn word_row(x: u32) -> Seq<u8> {
    seq![
        (x & 0xff) as u8,
        ((x >> 8) & 0xff) as u8,
        ((x >> 16) & 0xff) as u8,
        ((x >> 24) & 0xff) as u8,
    ]
}

/// A row of one 32-bit word, least significant byte first.
pub fn make_word_row(x: u32) -> (row: Row)
    ensures
        row@ == word_row(x),
{
    let mut row: Vec<u8> = Vec::new();
    row.push((x & 0xff) as u8);
    row.push(((x >> 8) & 0xff) as u8);
    row.push(((x >> 16) & 0xff) as u8);
    row.push(((x >> 24) & 0xff) as u8);
    proof {
        assert(row@ =~= word_row(x));
    }
    row
}

/// The zero word is a row of zeros, and different words are different rows.
pub proof fn lemma_word_row()
    ensures
        word_row(0) == zero_row(4),
        forall|x: u32, y: u32| #[trigger] word_row(x) == #[trigger] word_row(y) ==> x == y,
{
    assert((0u32 & 0xff) as u8 == 0 && ((0u32 >> 8) & 0xff) as u8 == 0 && ((0u32 >> 16) & 0xff) as u8 == 0
        && ((0u32 >> 24) & 0xff) as u8 == 0) by (bit_vector);
    assert(word_row(0) =~= zero_row(4));
    assert forall|x: u32, y: u32| #[trigger] word_row(x) == #[trigger] word_row(y) implies x == y by {
        assert(word_row(x)[0] == word_row(y)[0]);
        assert(word_row(x)[1] == word_row(y)[1]);
        assert(word_row(x)[2] == word_row(y)[2]);
        assert(word_row(x)[3] == word_row(y)[3]);
        assert((x & 0xff) as u8 == (y & 0xff) as u8 && ((x >> 8) & 0xff) as u8 == ((y >> 8) & 0xff) as u8
            && ((x >> 16) & 0xff) as u8 == ((y >> 16) & 0xff) as u8 && ((x >> 24) & 0xff) as u8 == ((y >> 24)
            & 0xff) as u8 ==> x == y) by (bit_vector);
    }
}

/// `mem` with `values[i]` in row `rows[i]`, for every `i`.
pub open spec fn patched(mem: Seq<Seq<u8>>, rows: Seq<u32>, values: Seq<Seq<u8>>) -> Seq<Seq<u8>> {
    Seq::new(
        mem.len(),
        |i: int|
            if rows.contains(i as u32) {
                values[rows.index_of(i as u32)]
            } else {
                mem[i]
            },
    )
}

/// Device memory after a command, with rows of `stride` bytes.
pub open spec fn executed(mem: Seq<Seq<u8>>, command: CommandModel, stride: nat) -> Seq<Seq<u8>> {
    match command {
        CommandModel::Reallocate { capacity, keep } => Seq::new(
            capacity as nat,
            |i: int|
                if i < keep {
                    mem[i]
                } else {
                    zero_row(stride)
                },
        ),
        CommandModel::Write { row, data } => Seq::new(
            mem.len(),
            |i: int|
                if row <= i < row + data.len() {
                    data[i - row]
                } else {
                    mem[i]
                },
        ),
        CommandModel::Scatter { rows, data } => patched(mem, rows, data),
    }
}

/// Device memory after commands were executed one after another.
pub open spec fn run(mem: Seq<Seq<u8>>, commands: Seq<CommandModel>, stride: nat) -> Seq<Seq<u8>>
    decreases commands.len(),
{
    if commands.len() == 0 {
        mem
    } else {
        executed(run(mem, commands.drop_last(), stride), commands.last(), stride)
    }
}

/// Running two lists one after the other is running both as one list.
pub proof fn lemma_run_concat(mem: Seq<Seq<u8>>, a: Seq<CommandModel>, b: Seq<CommandModel>, stride: nat)
    ensures
        run(mem, a + b, stride) == run(run(mem, a, stride), b, stride),
    decreases b.len(),
{
    if b.len() == 0 {
        assert(a + b =~= a);
    } else {
        lemma_run_concat(mem, a, b.drop_last(), stride);
        assert((a + b).drop_last() =~= a + b.drop_last());
        assert((a + b).last() == b.last());
    }
}

/// Running one command.
pub proof fn lemma_run_one(mem: Seq<Seq<u8>>, command: CommandModel, stride: nat)
    ensures
        run(mem, seq![command], stride) == executed(mem, command, stride),
{
    assert(seq![command].drop_last() =~= Seq::<CommandModel>::empty());
    assert(run(mem, Seq::<CommandModel>::empty(), stride) == mem);
}

/// How much an upload moved.
#[derive(Copy, Clone, Debug, PartialEq, Eq, Structural)]
pub struct SyncStats {
    /// Device operations that were issued.
    pub ranges: u32,
    /// Bytes that were uploaded.
    pub bytes: u64,
}

impl SyncStats {
    /// Nothing moved.
    pub fn none() -> (s: SyncStats)
        ensures
            s == (SyncStats { ranges: 0, bytes: 0 }),
    {
        SyncStats { ranges: 0, bytes: 0 }
    }

    /// Both uploads together; the totals wrap around.
    pub open spec fn sum(a: SyncStats, b: SyncStats) -> SyncStats {
        SyncStats {
            ranges: ((a.ranges + b.ranges) % 0x1_0000_0000) as u32,
            bytes: ((a.bytes + b.bytes) % 0x1_0000_0000_0000_0000) as u64,
        }
    }

    /// Both uploads together; the totals wrap around.
    pub fn plus(self, other: SyncStats) -> (s: SyncStats)
        ensures
            s == Self::sum(self, other),
    {
        SyncStats {
            ranges: self.ranges.wrapping_add(other.ranges),
            bytes: self.bytes.wrapping_add(other.bytes),
        }
    }
}

} // verus!

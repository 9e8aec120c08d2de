//! The optimizing engine: folds a program into a tree of blocks, cleans the tree up,
//! and runs it.

use vstd::prelude::*;

use crate::program::Instruction;
use crate::state::{instr_effect, Machine, ProgramState, RunError};

verus! {

/// A program as a tree of blocks.
#[derive(Debug)]
pub struct OProgram(pub Vec<Block>);

/// A run of moves, increments and decrements folded into one step: `ops` pairs an
/// offset from the data pointer with the net change of that cell, and `distance` is the
/// net move of the pointer. `ops` is a map from offsets to changes kept as a vector, in
/// the order the offsets were first touched: each offset appears once and no change is 0
/// (`wf`), and the fixed order makes the error that a failing block reports exact.
#[derive(Debug)]
pub struct OpArgs {
    pub ops: Vec<(isize, i16)>,
    pub distance: isize,
}

/// One block of an optimized program.
#[derive(Debug)]
pub enum Block {
    DataOps(OpArgs),
    Loop(OProgram),
    Io(IoInstruction),
}

/// An instruction that reads or writes a byte.
#[derive(Clone, Copy, Debug, PartialEq, Eq, Structural)]
pub enum IoInstruction {
    Write,
    Read,
}

/// A block as mathematics: the offset/change pairs and the pointer move of a run, an
/// I/O instruction, or a loop round a sequence of blocks.
pub ghost enum BlockView {
    DataOps(Seq<(int, int)>, int),
    Io(IoInstruction),
    Loop(Seq<BlockView>),
}

/// Offset/change pairs as integers.
pub open spec fn pairs_view(v: Seq<(isize, i16)>) -> Seq<(int, int)> {
    v.map_values(|o: (isize, i16)| (o.0 as int, o.1 as int))
}

/// Each offset appears once.
pub open spec fn distinct_offsets(ops: Seq<(int, int)>) -> bool {
    forall|s: int, t: int| 0 <= s < t < ops.len() ==> (#[trigger] ops[s]).0 != (#[trigger] ops[t]).0
}

impl OpArgs {
    /// The offset/change pairs as integers.
    pub open spec fn ops_view(&self) -> Seq<(int, int)> {
        pairs_view(self.ops@)
    }

    /// Each offset appears once, and no change is 0.
    pub open spec fn wf(&self) -> bool {
        &&& distinct_offsets(self.ops_view())
        &&& forall|t: int| 0 <= t < self.ops_view().len() ==> (#[trigger] self.ops_view()[t]).1 != 0
    }
}

impl IoInstruction {
    /// The instruction that this one stands for.
    pub open spec fn instr(self) -> Instruction {
        match self {
            IoInstruction::Write => Instruction::Write,
            IoInstruction::Read => Instruction::Read,
        }
    }
}

/// The view of one block.
pub open spec fn block_view(b: Block) -> BlockView
    decreases b,
{
    match b {
        Block::DataOps(a) => BlockView::DataOps(a.ops_view(), a.distance as int),
        Block::Io(io) => BlockView::Io(io),
        Block::Loop(body) => BlockView::Loop(blocks_view(body.0@)),
    }
}

/// The views of a sequence of blocks.
pub open spec fn blocks_view(bs: Seq<Block>) -> Seq<BlockView>
    decreases bs,
{
    if bs.len() == 0 {
        Seq::empty()
    } else {
        seq![block_view(bs[0])] + blocks_view(bs.drop_first())
    }
}

impl View for OProgram {
    type V = Seq<BlockView>;

    open spec fn view(&self) -> Seq<BlockView> {
        blocks_view(self.0@)
    }
}

/// Adds each change to the cell at its offset from the data pointer, in order, and
/// stops at the first that leaves the tape or the byte range.
pub open spec fn apply_ops(ops: Seq<(int, int)>, m: Machine) -> (Machine, Result<(), RunError>)
    decreases ops.len(),
{
    if ops.len() == 0 {
        (m, Ok(()))
    } else {
        let at = m.ptr + ops[0].0;
        if !(0 <= at < m.tape.len()) {
            (m, Err(RunError::TapeBoundsExceeded))
        } else {
            let v = m.tape[at] + ops[0].1;
            if v > 255 {
                (m, Err(RunError::CellOverflow))
            } else if v < 0 {
                (m, Err(RunError::CellUnderflow))
            } else {
                apply_ops(
                    ops.drop_first(),
                    Machine {
                        tape: m.tape.update(at, v as u8),
                        ptr: m.ptr,
                        input: m.input,
                        output: m.output,
                    },
                )
            }
        }
    }
}

/// What a data block does: its changes, then its pointer move.
pub open spec fn data_ops_effect(ops: Seq<(int, int)>, shift: int, m: Machine) -> (
    Machine,
    Result<(), RunError>,
) {
    let (m1, r) = apply_ops(ops, m);
    if r is Err {
        (m1, r)
    } else if !(0 <= m1.ptr + shift < m1.tape.len()) {
        (m1, Err(RunError::TapeBoundsExceeded))
    } else {
        (m1.with_ptr(m1.ptr + shift), Ok(()))
    }
}

/// What an I/O block does: the same as its instruction.
pub open spec fn io_effect(io: IoInstruction, m: Machine) -> (Machine, Result<(), RunError>) {
    match instr_effect(io.instr(), m) {
        Ok((_, m2)) => (m2, Ok(())),
        Err(e) => (m, Err(e)),
    }
}

/// Runs blocks in order, each loop entry allowed at most `fuel` passes (and each pass
/// of its body one less): the machine where it stopped, and why.
pub open spec fn run_blocks(bs: Seq<BlockView>, m: Machine, fuel: nat) -> (
    Machine,
    Result<(), RunError>,
)
    decreases fuel, bs,
{
    if bs.len() == 0 {
        (m, Ok(()))
    } else {
        let (m1, r) = run_block(bs[0], m, fuel);
        if r is Err {
            (m1, r)
        } else {
            run_blocks(bs.drop_first(), m1, fuel)
        }
    }
}

/// Runs one block.
pub open spec fn run_block(b: BlockView, m: Machine, fuel: nat) -> (Machine, Result<(), RunError>)
    decreases fuel, b,
{
    match b {
        BlockView::DataOps(ops, shift) => data_ops_effect(ops, shift, m),
        BlockView::Io(io) => io_effect(io, m),
        BlockView::Loop(body) => run_loop(body, m, fuel),
    }
}

/// Runs a loop: its body again and again while the cell under the pointer is not 0.
pub open spec fn run_loop(body: Seq<BlockView>, m: Machine, fuel: nat) -> (
    Machine,
    Result<(), RunError>,
)
    decreases fuel, body,
{
    if !m.in_bounds() {
        (m, Err(RunError::TapeBoundsExceeded))
    } else if m.cell() == 0 {
        (m, Ok(()))
    } else if fuel == 0 {
        (m, Err(RunError::StepLimitReached))
    } else {
        let (m1, r) = run_blocks(body, m, (fuel - 1) as nat);
        if r is Err {
            (m1, r)
        } else {
            run_loop(body, m1, (fuel - 1) as nat)
        }
    }
}

/// The cleanup pass: drops data blocks that change nothing and move nothing, drops a
/// loop that directly follows a loop (it starts on the 0 that ended the first), and
/// cleans up loop bodies. `after_loop` says whether the blocks follow a loop.
pub open spec fn improve_blocks(bs: Seq<BlockView>, after_loop: bool) -> Seq<BlockView>
    decreases bs,
{
    if bs.len() == 0 {
        Seq::empty()
    } else {
        let rest = bs.drop_first();
        match bs[0] {
            BlockView::DataOps(ops, shift) => if ops.len() == 0 && shift == 0 {
                improve_blocks(rest, after_loop)
            } else {
                seq![bs[0]] + improve_blocks(rest, false)
            },
            BlockView::Io(_) => seq![bs[0]] + improve_blocks(rest, false),
            BlockView::Loop(body) => if after_loop {
                improve_blocks(rest, true)
            } else {
                seq![BlockView::Loop(improve_blocks(body, false))] + improve_blocks(rest, true)
            },
        }
    }
}

/// A pointer move, an increment or a decrement.
pub open spec fn is_data(i: Instruction) -> bool {
    i is MoveLeft || i is MoveRight || i is Increment || i is Decrement
}

/// The change so far at offset `k`: 0 where the offset is not touched yet.
pub open spec fn delta_at(ops: Seq<(int, int)>, k: int) -> int {
    let i = key_index(ops, k);
    if i < ops.len() {
        ops[i].1
    } else {
        0
    }
}

/// Whether instruction `x` can join a run whose tally so far is `t`: an increment or a
/// decrement must keep the change at its offset within `i16`, a move must keep the net
/// move within `isize`.
pub open spec fn fits(t: (Seq<(int, int)>, int), x: Instruction) -> bool {
    match x {
        Instruction::MoveLeft => t.1 - 1 >= isize::MIN,
        Instruction::MoveRight => t.1 + 1 <= isize::MAX,
        Instruction::Increment => delta_at(t.0, t.1) + 1 <= i16::MAX,
        Instruction::Decrement => delta_at(t.0, t.1) - 1 >= i16::MIN,
        _ => false,
    }
}

/// Where the run of data instructions that starts at `start` ends, scanning from `i`:
/// at the first other instruction or at the end. The run is maximal, except that it ends
/// early before an increment or decrement that would take its offset's change out of
/// `i16`, or before a move that would take the net move out of `isize`.
pub open spec fn run_end(p: Seq<Instruction>, start: int, i: int) -> int
    decreases p.len() - i,
{
    if 0 <= start <= i < p.len() && is_data(p[i]) && fits(tally(p.subrange(start, i)), p[i]) {
        run_end(p, start, i + 1)
    } else {
        i
    }
}

/// The first index of `ops` with offset `k`, or its length if there is none.
pub open spec fn key_index(ops: Seq<(int, int)>, k: int) -> int
    decreases ops.len(),
{
    if ops.len() == 0 {
        0
    } else if ops[0].0 == k {
        0
    } else {
        1 + key_index(ops.drop_first(), k)
    }
}

/// Adds `x` to the change at offset `k`, appending the offset if it is new.
pub open spec fn bump(ops: Seq<(int, int)>, k: int, x: int) -> Seq<(int, int)> {
    let i = key_index(ops, k);
    if i < ops.len() {
        ops.update(i, (k, ops[i].1 + x))
    } else {
        ops.push((k, x))
    }
}

/// The net change of each offset that a run of data instructions touches, in the order
/// the offsets are first touched, and the net move of the pointer.
pub open spec fn tally(r: Seq<Instruction>) -> (Seq<(int, int)>, int)
    decreases r.len(),
{
    if r.len() == 0 {
        (Seq::empty(), 0)
    } else {
        let (ops, d) = tally(r.drop_last());
        match r.last() {
            Instruction::MoveLeft => (ops, d - 1),
            Instruction::MoveRight => (ops, d + 1),
            Instruction::Increment => (bump(ops, d, 1), d),
            Instruction::Decrement => (bump(ops, d, -1), d),
            _ => (ops, d),
        }
    }
}

/// The offset/change pairs whose change is not 0, in order.
pub open spec fn drop_zero(ops: Seq<(int, int)>) -> Seq<(int, int)>
    decreases ops.len(),
{
    if ops.len() == 0 {
        ops
    } else if ops[0].1 == 0 {
        drop_zero(ops.drop_first())
    } else {
        seq![ops[0]] + drop_zero(ops.drop_first())
    }
}

/// The block that a run of data instructions folds into: the changes that are not 0,
/// and the net move.
pub open spec fn fold_run(r: Seq<Instruction>) -> BlockView {
    BlockView::DataOps(drop_zero(tally(r).0), tally(r).1)
}

/// A data block at `i`, if a data instruction stands there, and where it ends.
pub open spec fn data_at(p: Seq<Instruction>, i: int) -> (Option<BlockView>, int) {
    if 0 <= i < p.len() && is_data(p[i]) {
        let e = run_end(p, i, i);
        (Some(fold_run(p.subrange(i, e))), e)
    } else {
        (None, i)
    }
}

/// An I/O block at `i`, if a `Write` or `Read` stands there, and where it ends.
pub open spec fn io_at(p: Seq<Instruction>, i: int) -> (Option<BlockView>, int) {
    if 0 <= i < p.len() && p[i] is Write {
        (Some(BlockView::Io(IoInstruction::Write)), i + 1)
    } else if 0 <= i < p.len() && p[i] is Read {
        (Some(BlockView::Io(IoInstruction::Read)), i + 1)
    } else {
        (None, i)
    }
}

/// The instructions left from `i`.
pub open spec fn remaining(p: Seq<Instruction>, i: int) -> nat {
    if i < p.len() {
        (p.len() - i) as nat
    } else {
        0
    }
}

/// A loop block at `i`: a `[`, the blocks after it, and the `]` that ends them. Where
/// the `]` is missing there is none, and the position is where the blocks ended.
pub open spec fn loop_at(p: Seq<Instruction>, i: int) -> (Option<BlockView>, int)
    decreases remaining(p, i), 0int,
{
    if 0 <= i < p.len() && p[i] is JumpLeft {
        let (body, k) = blocks_at(p, i + 1);
        if 0 <= k < p.len() && p[k] is JumpRight {
            (Some(BlockView::Loop(body)), k + 1)
        } else {
            (None, k)
        }
    } else {
        (None, i)
    }
}

/// The block at `i`: a data block, else an I/O block, else a loop.
pub open spec fn block_at(p: Seq<Instruction>, i: int) -> (Option<BlockView>, int)
    decreases remaining(p, i), 1int,
{
    if data_at(p, i).0 is Some {
        data_at(p, i)
    } else if io_at(p, i).0 is Some {
        io_at(p, i)
    } else {
        loop_at(p, i)
    }
}

/// The blocks from `i` on, as many as parse, and where they end.
pub open spec fn blocks_at(p: Seq<Instruction>, i: int) -> (Seq<BlockView>, int)
    decreases remaining(p, i), 2int,
{
    let (b, j) = block_at(p, i);
    match b {
        Some(b) => if 0 <= i < j <= p.len() {
            let (rest, k) = blocks_at(p, j);
            (seq![b] + rest, k)
        } else {
            (seq![b], j)
        },
        None => (Seq::empty(), j),
    }
}

/// A data run ends within the instructions and holds only data instructions; it takes
/// at least the data instruction it starts on.
pub proof fn lemma_run_end(p: Seq<Instruction>, start: int, i: int)
    requires
        0 <= start <= i <= p.len(),
        forall|k: int| start <= k < i ==> is_data(#[trigger] p[k]),
    ensures
        i <= run_end(p, start, i) <= p.len(),
        forall|k: int| start <= k < run_end(p, start, i) ==> is_data(#[trigger] p[k]),
        i == start && i < p.len() && is_data(p[i]) ==> start < run_end(p, start, i),
    decreases p.len() - i,
{
    if i == start && i < p.len() && is_data(p[i]) {
        assert(p.subrange(start, i).len() == 0);
        assert(tally(p.subrange(start, i)) == (Seq::<(int, int)>::empty(), 0int));
        assert(key_index(Seq::<(int, int)>::empty(), 0) == 0);
    }
    if 0 <= start <= i < p.len() && is_data(p[i]) && fits(tally(p.subrange(start, i)), p[i]) {
        lemma_run_end(p, start, i + 1);
    }
}

/// Parsing never moves backwards nor past the end, and a block that parses takes at
/// least one instruction.
pub proof fn lemma_block_at_bounds(p: Seq<Instruction>, i: int)
    requires
        0 <= i <= p.len(),
    ensures
        i <= block_at(p, i).1 <= p.len(),
        block_at(p, i).0 is Some ==> i < block_at(p, i).1,
        i <= blocks_at(p, i).1 <= p.len(),
    decreases remaining(p, i),
{
    if data_at(p, i).0 is Some {
        lemma_run_end(p, i, i);
    } else if io_at(p, i).0 is Some {
    } else if 0 <= i < p.len() && p[i] is JumpLeft {
        lemma_block_at_bounds(p, i + 1);
    }
    let j = block_at(p, i).1;
    if block_at(p, i).0 is Some && j < p.len() + 1 && i < j {
        lemma_block_at_bounds(p, j);
    }
}

/// The first index with offset `k` is that: no earlier index has it.
pub proof fn lemma_key_index(ops: Seq<(int, int)>, k: int)
    ensures
        0 <= key_index(ops, k) <= ops.len(),
        key_index(ops, k) < ops.len() ==> ops[key_index(ops, k)].0 == k,
        forall|t: int| 0 <= t < key_index(ops, k) ==> ops[t].0 != k,
    decreases ops.len(),
{
    if ops.len() > 0 && ops[0].0 != k {
        lemma_key_index(ops.drop_first(), k);
        assert forall|t: int| 0 <= t < key_index(ops, k) implies ops[t].0 != k by {
            if t > 0 {
                assert(ops[t] == ops.drop_first()[t - 1]);
            }
        }
    }
}

/// The tally of a run names each offset once.
pub proof fn lemma_tally_distinct(r: Seq<Instruction>)
    ensures
        distinct_offsets(tally(r).0),
    decreases r.len(),
{
    if r.len() > 0 {
        lemma_tally_distinct(r.drop_last());
        let (ops0, d0) = tally(r.drop_last());
        lemma_key_index(ops0, d0);
    }
}

/// Dropping the changes that are 0 keeps the offsets distinct and leaves no change of 0;
/// what is left comes from the pairs given.
pub proof fn lemma_drop_zero(ops: Seq<(int, int)>)
    requires
        distinct_offsets(ops),
    ensures
        distinct_offsets(drop_zero(ops)),
        forall|t: int| 0 <= t < drop_zero(ops).len() ==> (#[trigger] drop_zero(ops)[t]).1 != 0,
        forall|t: int|
            0 <= t < drop_zero(ops).len() ==> exists|u: int|
                0 <= u < ops.len() && ops[u] == #[trigger] drop_zero(ops)[t],
    decreases ops.len(),
{
    if ops.len() > 0 {
        let rest = ops.drop_first();
        assert forall|s: int, t: int| 0 <= s < t < rest.len() implies (#[trigger] rest[s]).0
            != (#[trigger] rest[t]).0 by {
            assert(rest[s] == ops[s + 1] && rest[t] == ops[t + 1]);
        }
        lemma_drop_zero(rest);
        let d = drop_zero(rest);
        assert forall|t: int| 0 <= t < d.len() implies exists|u: int|
            0 <= u < ops.len() && ops[u] == #[trigger] d[t] by {
            let u = choose|u: int| 0 <= u < rest.len() && rest[u] == d[t];
            assert(ops[u + 1] == d[t]);
        }
        if ops[0].1 != 0 {
            let z = seq![ops[0]] + d;
            assert(drop_zero(ops) == z);
            assert forall|t: int| 0 <= t < d.len() implies (#[trigger] d[t]).0 != ops[0].0 by {
                let u = choose|u: int| 0 <= u < ops.len() && ops[u] == d[t];
                if u == 0 {
                    let v = choose|v: int| 0 <= v < rest.len() && rest[v] == d[t];
                    assert(ops[v + 1] == d[t]);
                    assert(ops[0].0 != ops[v + 1].0);
                }
            }
            assert forall|s: int, t: int| 0 <= s < t < z.len() implies (#[trigger] z[s]).0
                != (#[trigger] z[t]).0 by {
                assert(z[t] == d[t - 1]);
                if s > 0 {
                    assert(z[s] == d[s - 1]);
                }
            }
            assert forall|t: int| 0 <= t < z.len() implies exists|u: int|
                0 <= u < ops.len() && ops[u] == #[trigger] z[t] by {
                if t == 0 {
                    assert(ops[0] == z[0]);
                } else {
                    assert(z[t] == d[t - 1]);
                }
            }
        }
    }
}

/// The view of a sequence of blocks has one view per block.
pub proof fn lemma_blocks_view(bs: Seq<Block>)
    ensures
        blocks_view(bs).len() == bs.len(),
        forall|i: int| 0 <= i < bs.len() ==> #[trigger] blocks_view(bs)[i] == block_view(bs[i]),
    decreases bs.len(),
{
    if bs.len() > 0 {
        lemma_blocks_view(bs.drop_first());
        assert forall|i: int| 0 <= i < bs.len() implies #[trigger] blocks_view(bs)[i] == block_view(
            bs[i],
        ) by {
            if i > 0 {
                assert(bs.drop_first()[i - 1] == bs[i]);
            }
        }
    }
}

/// `ptr + off`, where that is an index of a tape of `len` cells.
fn offset_index(ptr: usize, off: isize, len: usize) -> (r: Option<usize>)
    ensures
        r == if 0 <= ptr + off < len {
            Some((ptr + off) as usize)
        } else {
            None::<usize>
        },
{
    if off >= 0 {
        let o = off as usize;
        if ptr >= len || o >= len - ptr {
            None
        } else {
            Some(ptr + o)
        }
    } else {
        let o = ((-(off + 1)) as usize) + 1;
        if o > ptr || ptr - o >= len {
            None
        } else {
            Some(ptr - o)
        }
    }
}

impl OpArgs {
    /// Applies this block to `state`: each change, then the pointer move.
    fn apply<const LEN: usize>(
        &self,
        state: &mut ProgramState<LEN>,
        Ghost(input): Ghost<Seq<u8>>,
        Ghost(output): Ghost<Seq<u8>>,
    ) -> (r: Result<(), RunError>)
        ensures
            final(state).instr_ptr == old(state).instr_ptr,
            (final(state).machine(input, output), r) == data_ops_effect(
                self.ops_view(),
                self.distance as int,
                old(state).machine(input, output),
            ),
    {
        let n = self.ops.len();
        let ghost ops = self.ops_view();
        proof {
            assert(ops.subrange(0, n as int) == ops);
        }
        let mut i: usize = 0;
        while i < n
            invariant
                n == self.ops.len(),
                ops == self.ops_view(),
                i <= n,
                state.instr_ptr == old(state).instr_ptr,
                data_ops_effect(ops.subrange(i as int, n as int), self.distance as int, state.machine(input, output))
                    == data_ops_effect(ops, self.distance as int, old(state).machine(input, output)),
            decreases n - i,
        {
            let (off, d) = self.ops[i];
            let ghost rest = ops.subrange(i as int, n as int);
            proof {
                assert(rest.drop_first() == ops.subrange(i as int + 1, n as int));
                assert(rest[0] == (off as int, d as int));
            }
            let at = match offset_index(state.data_ptr, off, LEN) {
                Some(at) => at,
                None => {
                    return Err(RunError::TapeBoundsExceeded);
                },
            };
            let v = state.data[at] as i32 + d as i32;
            if v > 255 {
                return Err(RunError::CellOverflow);
            }
            if v < 0 {
                return Err(RunError::CellUnderflow);
            }
            state.data[at] = v as u8;
            i = i + 1;
        }
        proof {
            assert(ops.subrange(n as int, n as int) == Seq::<(int, int)>::empty());
        }
        match offset_index(state.data_ptr, self.distance, LEN) {
            Some(p) => {
                state.data_ptr = p;
                Ok(())
            },
            None => Err(RunError::TapeBoundsExceeded),
        }
    }
}

impl OProgram {
    /// Runs this program on `state`. Each loop entry is allowed `u64::MAX` passes,
    /// which no real run reaches.
    pub fn run<const LEN: usize>(
        &self,
        state: &mut ProgramState<LEN>,
        input: &mut &[u8],
        output: &mut Vec<u8>,
    ) -> (r: Result<(), RunError>)
        ensures
            final(state).instr_ptr == old(state).instr_ptr,
            (final(state).machine(final(input)@, final(output)@), r) == run_blocks(
                self@,
                old(state).machine(old(input)@, old(output)@),
                u64::MAX as nat,
            ),
    {
        self.run_with_limit(state, input, output, u64::MAX)
    }

    /// Runs this program on `state`, each loop entry allowed at most `limit` passes.
    pub fn run_with_limit<const LEN: usize>(
        &self,
        state: &mut ProgramState<LEN>,
        input: &mut &[u8],
        output: &mut Vec<u8>,
        limit: u64,
    ) -> (r: Result<(), RunError>)
        ensures
            final(state).instr_ptr == old(state).instr_ptr,
            (final(state).machine(final(input)@, final(output)@), r) == run_blocks(
                self@,
                old(state).machine(old(input)@, old(output)@),
                limit as nat,
            ),
        decreases limit,
    {
        proof {
            lemma_blocks_view(self.0@);
        }
        let n = self.0.len();
        proof {
            assert(self@.subrange(0, n as int) == self@);
        }
        let mut i: usize = 0;
        while i < n
            invariant
                n == self.0.len(),
                i <= n,
                self@.len() == n,
                forall|k: int| 0 <= k < n ==> #[trigger] self@[k] == block_view(self.0@[k]),
                state.instr_ptr == old(state).instr_ptr,
                run_blocks(self@.subrange(i as int, n as int), state.machine(input@, output@), limit as nat)
                    == run_blocks(
                    self@,
                    old(state).machine(old(input)@, old(output)@),
                    limit as nat,
                ),
            decreases n - i,
        {
            proof {
                assert(self@.subrange(i as int, n as int).drop_first() == self@.subrange(
                    i as int + 1,
                    n as int,
                ));
                assert(self@.subrange(i as int, n as int)[0] == self@[i as int]);
            }
            let ghost mi = state.machine(input@, output@);
            let res = match &self.0[i] {
                Block::DataOps(args) => args.apply(state, Ghost(input@), Ghost(output@)),
                Block::Io(io) => {
                    let instr = match io {
                        IoInstruction::Write => Instruction::Write,
                        IoInstruction::Read => Instruction::Read,
                    };
                    match instr.step(state, input, output) {
                        Ok(_) => Ok(()),
                        Err(e) => Err(e),
                    }
                },
                Block::Loop(body) => {
                    let mut fuel = limit;
                    let mut res: Result<(), RunError> = Ok(());
                    loop
                        invariant_except_break
                            res is Ok,
                            run_loop(body@, state.machine(input@, output@), fuel as nat)
                                == run_loop(body@, mi, limit as nat),
                        invariant
                            fuel <= limit,
                            state.instr_ptr == old(state).instr_ptr,
                        ensures
                            state.instr_ptr == old(state).instr_ptr,
                            (state.machine(input@, output@), res) == run_loop(body@, mi, limit as nat),
                        decreases fuel,
                    {
                        if state.data_ptr >= LEN {
                            res = Err(RunError::TapeBoundsExceeded);
                            break;
                        }
                        if state.data[state.data_ptr] == 0 {
                            assert(state.machine(input@, output@).cell() == 0);
                            res = Ok(());
                            break;
                        }
                        if fuel == 0 {
                            res = Err(RunError::StepLimitReached);
                            break;
                        }
                        fuel = fuel - 1;
                        match body.run_with_limit(state, input, output, fuel) {
                            Ok(()) => {},
                            Err(e) => {
                                res = Err(e);
                                break;
                            },
                        }
                    }
                    res
                },
            };
            assert((state.machine(input@, output@), res) == run_block(self@[i as int], mi, limit as nat));
            if res.is_err() {
                return res;
            }
            i = i + 1;
        }
        Ok(())
    }
}

/// Whether an instruction moves the pointer or changes a cell.
fn is_data_instr(i: &Instruction) -> (r: bool)
    ensures
        r == is_data(*i),
{
    match i {
        Instruction::MoveLeft | Instruction::MoveRight | Instruction::Increment
        | Instruction::Decrement => true,
        _ => false,
    }
}

/// The first index of `ops` with offset `k`, or its length if there is none.
fn find_key(ops: &Vec<(isize, i16)>, k: isize) -> (j: usize)
    ensures
        j == key_index(pairs_view(ops@), k as int),
{
    let ghost v = pairs_view(ops@);
    proof {
        lemma_key_index(v, k as int);
    }
    let n = ops.len();
    let mut j: usize = 0;
    while j < n
        invariant
            n == ops.len(),
            j <= n,
            v == pairs_view(ops@),
            forall|t: int| 0 <= t < j ==> ops@[t].0 != k,
        decreases n - j,
    {
        if ops[j].0 == k {
            proof {
                lemma_key_index(v, k as int);
                let ki = key_index(v, k as int);
                if ki < j {
                    assert(v[ki].0 == ops@[ki].0);
                }
                if ki > j {
                    assert(v[j as int].0 != k);
                }
            }
            return j;
        }
        j = j + 1;
    }
    proof {
        lemma_key_index(v, k as int);
        let ki = key_index(v, k as int);
        if ki < n {
            assert(v[ki].0 == ops@[ki].0);
        }
    }
    n
}

impl IoInstruction {
    /// An I/O block at `*pos`, if a `Write` or `Read` stands there; moves past it.
    pub fn parse(instrs: &[Instruction], pos: &mut usize) -> (r: Option<Self>)
        ensures
            ({
                let (b, j) = io_at(instrs@, *old(pos) as int);
                &&& *final(pos) == j
                &&& match r {
                    Some(io) => b == Some(BlockView::Io(io)),
                    None => b is None,
                }
            }),
    {
        if *pos < instrs.len() {
            match instrs[*pos] {
                Instruction::Write => {
                    *pos = *pos + 1;
                    return Some(IoInstruction::Write);
                },
                Instruction::Read => {
                    *pos = *pos + 1;
                    return Some(IoInstruction::Read);
                },
                _ => {},
            }
        }
        None
    }
}

impl OpArgs {
    /// A data block at `*pos`, if a data instruction stands there: folds the run of
    /// data instructions there and moves past it.
    pub fn parse(instrs: &[Instruction], pos: &mut usize) -> (r: Option<Self>)
        ensures
            ({
                let (b, j) = data_at(instrs@, *old(pos) as int);
                &&& *final(pos) == j
                &&& match r {
                    Some(a) => b == Some(BlockView::DataOps(a.ops_view(), a.distance as int))
                        && a.wf(),
                    None => b is None,
                }
            }),
    {
        let start = *pos;
        let ghost p = instrs@;
        if start >= instrs.len() || !is_data_instr(&instrs[start]) {
            return None;
        }
        let mut ops: Vec<(isize, i16)> = Vec::new();
        let mut distance: isize = 0;
        let mut i: usize = start;
        proof {
            assert(p.subrange(start as int, start as int) == Seq::<Instruction>::empty());
        }
        loop
            invariant
                p == instrs@,
                start <= i <= instrs.len(),
                forall|k: int| start <= k < i ==> is_data(#[trigger] p[k]),
                run_end(p, start as int, start as int) == run_end(p, start as int, i as int),
                (pairs_view(ops@), distance as int) == tally(p.subrange(start as int, i as int)),
            ensures
                run_end(p, start as int, start as int) == i,
            decreases instrs.len() - i,
        {
            if i >= instrs.len() {
                break;
            }
            let ghost r = p.subrange(start as int, i as int + 1);
            let ghost t = tally(p.subrange(start as int, i as int));
            proof {
                assert(r.drop_last() == p.subrange(start as int, i as int));
                assert(r.last() == p[i as int]);
                lemma_key_index(t.0, distance as int);
            }
            match instrs[i] {
                Instruction::MoveLeft => {
                    if distance == isize::MIN {
                        break;
                    }
                    distance = distance - 1;
                },
                Instruction::MoveRight => {
                    if distance == isize::MAX {
                        break;
                    }
                    distance = distance + 1;
                },
                Instruction::Increment => {
                    let j = find_key(&ops, distance);
                    if j < ops.len() {
                        let (key, val) = ops[j];
                        proof {
                            assert(t.0[j as int] == (key as int, val as int));
                        }
                        if val == i16::MAX {
                            break;
                        }
                        ops.set(j, (key, val + 1));
                        proof {
                            assert(pairs_view(ops@) =~= bump(t.0, distance as int, 1));
                        }
                    } else {
                        ops.push((distance, 1));
                        proof {
                            assert(pairs_view(ops@) =~= bump(t.0, distance as int, 1));
                        }
                    }
                },
                Instruction::Decrement => {
                    let j = find_key(&ops, distance);
                    if j < ops.len() {
                        let (key, val) = ops[j];
                        proof {
                            assert(t.0[j as int] == (key as int, val as int));
                        }
                        if val == i16::MIN {
                            break;
                        }
                        ops.set(j, (key, val - 1));
                        proof {
                            assert(pairs_view(ops@) =~= bump(t.0, distance as int, -1));
                        }
                    } else {
                        ops.push((distance, -1));
                        proof {
                            assert(pairs_view(ops@) =~= bump(t.0, distance as int, -1));
                        }
                    }
                },
                _ => {
                    break;
                },
            }
            i = i + 1;
        }
        proof {
            lemma_run_end(p, start as int, start as int);
        }
        *pos = i;
        let ghost all = pairs_view(ops@);
        let mut kept: Vec<(isize, i16)> = Vec::new();
        let n = ops.len();
        let mut t: usize = 0;
        proof {
            assert(all.subrange(0, n as int) == all);
            assert(pairs_view(kept@) == Seq::<(int, int)>::empty());
        }
        while t < n
            invariant
                n == ops.len(),
                t <= n,
                all == pairs_view(ops@),
                pairs_view(kept@) + drop_zero(all.subrange(t as int, n as int)) == drop_zero(all),
            decreases n - t,
        {
            let o = ops[t];
            let ghost old_kept = kept@;
            proof {
                assert(all.subrange(t as int, n as int).drop_first() == all.subrange(
                    t as int + 1,
                    n as int,
                ));
                assert(all.subrange(t as int, n as int)[0] == all[t as int]);
            }
            if o.1 != 0 {
                kept.push(o);
                proof {
                    assert(pairs_view(kept@) == pairs_view(old_kept).push(all[t as int]));
                }
            }
            t = t + 1;
        }
        proof {
            assert(all.subrange(n as int, n as int) == Seq::<(int, int)>::empty());
            assert(pairs_view(kept@) + Seq::<(int, int)>::empty() == pairs_view(kept@));
            lemma_tally_distinct(p.subrange(start as int, i as int));
            lemma_drop_zero(all);
        }
        Some(OpArgs { ops: kept, distance })
    }
}

impl Block {
    /// The block at `*pos`: a data block, else an I/O block, else a loop; moves past it.
    pub fn parse(instrs: &[Instruction], pos: &mut usize) -> (r: Option<Self>)
        ensures
            ({
                let (b, j) = block_at(instrs@, *old(pos) as int);
                &&& *final(pos) == j
                &&& match r {
                    Some(blk) => b == Some(block_view(blk)),
                    None => b is None,
                }
            }),
        decreases remaining(instrs@, *old(pos) as int), 1int,
    {
        match OpArgs::parse(instrs, pos) {
            Some(a) => {
                return Some(Block::DataOps(a));
            },
            None => {},
        }
        match IoInstruction::parse(instrs, pos) {
            Some(io) => {
                return Some(Block::Io(io));
            },
            None => {},
        }
        match OProgram::parse_loop(instrs, pos) {
            Some(body) => Some(Block::Loop(body)),
            None => None,
        }
    }
}

impl OProgram {
    /// A loop at `*pos`: a `[`, the blocks after it and the `]` that ends them. Moves
    /// past what it read, also where the `]` is missing.
    pub fn parse_loop(instrs: &[Instruction], pos: &mut usize) -> (r: Option<Self>)
        ensures
            ({
                let (b, j) = loop_at(instrs@, *old(pos) as int);
                &&& *final(pos) == j
                &&& match r {
                    Some(body) => b == Some(BlockView::Loop(body@)),
                    None => b is None,
                }
            }),
        decreases remaining(instrs@, *old(pos) as int), 0int,
    {
        if *pos < instrs.len() {
            if let Instruction::JumpLeft(_) = instrs[*pos] {
                *pos = *pos + 1;
                let body = OProgram::parse(instrs, pos);
                if *pos < instrs.len() {
                    if let Instruction::JumpRight(_) = instrs[*pos] {
                        *pos = *pos + 1;
                        return Some(body);
                    }
                }
                return None;
            }
        }
        None
    }

    /// The blocks from `*pos` on, as many as parse; moves past them.
    pub fn parse(instrs: &[Instruction], pos: &mut usize) -> (r: Self)
        ensures
            (r@, *final(pos) as int) == blocks_at(instrs@, *old(pos) as int),
        decreases remaining(instrs@, *old(pos) as int), 2int,
    {
        let ghost p = instrs@;
        let ghost start = *pos as int;
        let mut blocks: Vec<Block> = Vec::new();
        proof {
            lemma_blocks_view(blocks@);
            assert(blocks_view(blocks@) == Seq::<BlockView>::empty());
        }
        loop
            invariant_except_break
                blocks_view(blocks@) + blocks_at(p, *pos as int).0 == blocks_at(p, start).0,
                blocks_at(p, *pos as int).1 == blocks_at(p, start).1,
            invariant
                p == instrs@,
                start == *old(pos) as int,
                start <= *pos,
            ensures
                blocks_view(blocks@) == blocks_at(p, start).0,
                *pos as int == blocks_at(p, start).1,
            decreases remaining(p, *pos as int),
        {
            let ghost before = *pos as int;
            proof {
                if before <= p.len() {
                    lemma_block_at_bounds(p, before);
                }
            }
            match Block::parse(instrs, pos) {
                Some(b) => {
                    let ghost old_blocks = blocks@;
                    proof {
                        lemma_blocks_view(blocks@);
                    }
                    blocks.push(b);
                    proof {
                        lemma_blocks_view(blocks@);
                        lemma_blocks_view(old_blocks);
                        assert(blocks_view(blocks@) =~= blocks_view(old_blocks).push(block_view(b)));
                    }
                },
                None => {
                    proof {
                        assert(blocks_view(blocks@) + Seq::<BlockView>::empty() == blocks_view(
                            blocks@,
                        ));
                    }
                    break;
                },
            }
        }
        OProgram(blocks)
    }
}

impl OProgram {
    /// The cleanup pass (see `improve_blocks`).
    #[must_use]
    pub fn improve(self) -> (r: Self)
        ensures
            r@ == improve_blocks(self@, false),
        decreases self@,
    {
        let ghost all = self@;
        let ghost n = self.0@.len() as int;
        proof {
            lemma_blocks_view(self.0@);
            assert(all.subrange(0, n) == all);
            lemma_blocks_view(Seq::<Block>::empty());
        }
        let mut improved: Vec<Block> = Vec::new();
        let mut prev_was_loop = false;
        for block in it: self.0
            invariant
                it.seq() == self.0@,
                n == self.0@.len(),
                all == self@,
                all.len() == n,
                forall|k: int| 0 <= k < n ==> #[trigger] all[k] == block_view(self.0@[k]),
                blocks_view(improved@) + improve_blocks(
                    all.subrange(it.index() as int, n),
                    prev_was_loop,
                ) == improve_blocks(all, false),
        {
            let ghost k = it.index() as int;
            let ghost old_improved = improved@;
            proof {
                assert(all.subrange(k, n).drop_first() == all.subrange(k + 1, n));
                assert(all.subrange(k, n)[0] == all[k]);
                assert(block == self.0@[k]);
                lemma_blocks_view(old_improved);
            }
            match block {
                Block::DataOps(op_args) => {
                    if op_args.ops.len() > 0 || op_args.distance != 0 {
                        improved.push(Block::DataOps(op_args));
                        prev_was_loop = false;
                    }
                },
                Block::Loop(body) => {
                    if !prev_was_loop {
                        proof {
                            assert(all[k] == BlockView::Loop(body@));
                            assert(decreases_to!(all => all[k]));
                        }
                        improved.push(Block::Loop(body.improve()));
                        prev_was_loop = true;
                    }
                },
                Block::Io(io) => {
                    improved.push(Block::Io(io));
                    prev_was_loop = false;
                },
            }
            proof {
                lemma_blocks_view(improved@);
                if improved@.len() > old_improved.len() {
                    assert(improved@.drop_last() == old_improved);
                    assert(blocks_view(improved@) =~= blocks_view(old_improved).push(
                        block_view(improved@.last()),
                    ));
                } else {
                    assert(improved@ == old_improved);
                }
            }
        }
        proof {
            assert(all.subrange(n, n) == Seq::<BlockView>::empty());
            assert(blocks_view(improved@) + Seq::<BlockView>::empty() == blocks_view(improved@));
        }
        OProgram(improved)
    }
}

} // verus!

//! What holds of the engines together: optimizing does not change what a program does,
//! and the cleanup pass needs no second run.

use vstd::prelude::*;

use crate::optimized::{
    apply_ops, block_at, blocks_at, bump, drop_zero, fold_run, improve_blocks, io_effect, is_data,
    key_index, lemma_block_at_bounds, lemma_key_index, lemma_run_end, loop_at, run_block,
    run_blocks, run_end, run_loop, tally, BlockView, IoInstruction,
};
use crate::program::{resolved, Instruction};
use crate::state::{instr_effect, run_naive, Machine, RunError};

verus! {

/// The edges of the tape and of a cell are errors: an increment on 255, a decrement on 0,
/// a move left from the first cell and a move right from the last.
pub proof fn lemma_boundaries(m: Machine)
    ensures
        m.in_bounds() && m.cell() == 255 ==> instr_effect(Instruction::Increment, m) == Err::<
            (Option<usize>, Machine),
            RunError,
        >(RunError::CellOverflow),
        m.in_bounds() && m.cell() == 0 ==> instr_effect(Instruction::Decrement, m) == Err::<
            (Option<usize>, Machine),
            RunError,
        >(RunError::CellUnderflow),
        m.ptr == 0 ==> instr_effect(Instruction::MoveLeft, m) == Err::<
            (Option<usize>, Machine),
            RunError,
        >(RunError::TapeBoundsExceeded),
        m.ptr == m.tape.len() - 1 ==> instr_effect(Instruction::MoveRight, m) == Err::<
            (Option<usize>, Machine),
            RunError,
        >(RunError::TapeBoundsExceeded),
{
}

/// Blocks that the cleanup pass has nothing left to do on: no data block that does
/// nothing, no loop right after a loop (or first, when they follow one), and loop bodies
/// of the same kind.
pub open spec fn is_improved(bs: Seq<BlockView>, after_loop: bool) -> bool
    decreases bs,
{
    if bs.len() == 0 {
        true
    } else {
        let rest = bs.drop_first();
        match bs[0] {
            BlockView::DataOps(ops, shift) => !(ops.len() == 0 && shift == 0) && is_improved(
                rest,
                false,
            ),
            BlockView::Io(_) => is_improved(rest, false),
            BlockView::Loop(body) => !after_loop && is_improved(body, false) && is_improved(
                rest,
                true,
            ),
        }
    }
}

/// The cleanup pass leaves nothing for a second pass to do.
pub proof fn lemma_improve_is_improved(bs: Seq<BlockView>, after_loop: bool)
    ensures
        is_improved(improve_blocks(bs, after_loop), after_loop),
    decreases bs,
{
    if bs.len() > 0 {
        let rest = bs.drop_first();
        let r = improve_blocks(bs, after_loop);
        match bs[0] {
            BlockView::DataOps(ops, shift) => {
                if ops.len() == 0 && shift == 0 {
                    lemma_improve_is_improved(rest, after_loop);
                } else {
                    lemma_improve_is_improved(rest, false);
                    assert(r.drop_first() == improve_blocks(rest, false));
                }
            },
            BlockView::Io(_) => {
                lemma_improve_is_improved(rest, false);
                assert(r.drop_first() == improve_blocks(rest, false));
            },
            BlockView::Loop(body) => {
                lemma_improve_is_improved(rest, true);
                if !after_loop {
                    lemma_improve_is_improved(body, false);
                    assert(r.drop_first() == improve_blocks(rest, true));
                }
            },
        }
    }
}

/// On blocks it has nothing to do on, the cleanup pass changes nothing.
pub proof fn lemma_improve_fixes_improved(bs: Seq<BlockView>, after_loop: bool)
    requires
        is_improved(bs, after_loop),
    ensures
        improve_blocks(bs, after_loop) == bs,
    decreases bs,
{
    if bs.len() > 0 {
        let rest = bs.drop_first();
        assert(bs == seq![bs[0]] + rest);
        match bs[0] {
            BlockView::DataOps(_, _) => {
                lemma_improve_fixes_improved(rest, false);
            },
            BlockView::Io(_) => {
                lemma_improve_fixes_improved(rest, false);
            },
            BlockView::Loop(body) => {
                lemma_improve_fixes_improved(rest, true);
                lemma_improve_fixes_improved(body, false);
            },
        }
    }
}

/// Cleaning up an already cleaned-up block tree changes nothing.
pub proof fn lemma_improve_idempotent(bs: Seq<BlockView>)
    ensures
        improve_blocks(improve_blocks(bs, false), false) == improve_blocks(bs, false),
{
    lemma_improve_is_improved(bs, false);
    lemma_improve_fixes_improved(improve_blocks(bs, false), false);
}

/// A run of blocks that succeeds with some fuel succeeds the same way with more.
pub proof fn lemma_blocks_fuel_mono(bs: Seq<BlockView>, m: Machine, f: nat, g: nat)
    requires
        f <= g,
        run_blocks(bs, m, f).1 is Ok,
    ensures
        run_blocks(bs, m, g) == run_blocks(bs, m, f),
    decreases f, bs,
{
    if bs.len() > 0 {
        assert(run_block(bs[0], m, f).1 is Ok);
        if let BlockView::Loop(body) = bs[0] {
            assert(run_block(bs[0], m, f) == run_loop(body, m, f));
            assert(run_block(bs[0], m, g) == run_loop(body, m, g));
            lemma_loop_fuel_mono(body, m, f, g);
        }
        assert(run_block(bs[0], m, g) == run_block(bs[0], m, f));
        let m1 = run_block(bs[0], m, f).0;
        assert(run_blocks(bs, m, f) == run_blocks(bs.drop_first(), m1, f));
        lemma_blocks_fuel_mono(bs.drop_first(), m1, f, g);
    }
}

/// A loop that succeeds with some fuel succeeds the same way with more.
pub proof fn lemma_loop_fuel_mono(body: Seq<BlockView>, m: Machine, f: nat, g: nat)
    requires
        f <= g,
        run_loop(body, m, f).1 is Ok,
    ensures
        run_loop(body, m, g) == run_loop(body, m, f),
    decreases f, body,
{
    if m.in_bounds() && m.cell() != 0 && f > 0 {
        assert(run_blocks(body, m, (f - 1) as nat).1 is Ok);
        lemma_blocks_fuel_mono(body, m, (f - 1) as nat, (g - 1) as nat);
        let m1 = run_blocks(body, m, (f - 1) as nat).0;
        lemma_loop_fuel_mono(body, m1, (f - 1) as nat, (g - 1) as nat);
    }
}

/// A loop that ends without error leaves the pointer on the tape, on a 0.
pub proof fn lemma_loop_exit(body: Seq<BlockView>, m: Machine, f: nat)
    requires
        run_loop(body, m, f).1 is Ok,
    ensures
        run_loop(body, m, f).0.in_bounds(),
        run_loop(body, m, f).0.cell() == 0,
    decreases f,
{
    if m.in_bounds() && m.cell() != 0 && f > 0 {
        let m1 = run_blocks(body, m, (f - 1) as nat).0;
        lemma_loop_exit(body, m1, (f - 1) as nat);
    }
}

/// Where blocks run without error, their cleaned-up form runs the same way; after a
/// loop (`after_loop`) the cell under the pointer must be 0.
pub proof fn lemma_improve_blocks_run(bs: Seq<BlockView>, after_loop: bool, m: Machine, g: nat)
    requires
        run_blocks(bs, m, g).1 is Ok,
        after_loop ==> m.in_bounds() && m.cell() == 0,
    ensures
        run_blocks(improve_blocks(bs, after_loop), m, g) == run_blocks(bs, m, g),
    decreases g, bs, 1int,
{
    if bs.len() > 0 {
        let rest = bs.drop_first();
        let r = improve_blocks(bs, after_loop);
        let m1 = run_block(bs[0], m, g).0;
        assert(run_block(bs[0], m, g).1 is Ok);
        assert(run_blocks(bs, m, g) == run_blocks(rest, m1, g));
        match bs[0] {
            BlockView::DataOps(ops, shift) => {
                if ops.len() == 0 && shift == 0 {
                    assert(m1 == m);
                    lemma_improve_blocks_run(rest, after_loop, m, g);
                } else {
                    lemma_improve_blocks_run(rest, false, m1, g);
                    assert(r[0] == bs[0]);
                    assert(r.drop_first() == improve_blocks(rest, false));
                    assert(run_blocks(r, m, g) == run_blocks(r.drop_first(), m1, g));
                }
            },
            BlockView::Io(_) => {
                lemma_improve_blocks_run(rest, false, m1, g);
                assert(r[0] == bs[0]);
                assert(r.drop_first() == improve_blocks(rest, false));
                assert(run_blocks(r, m, g) == run_blocks(r.drop_first(), m1, g));
            },
            BlockView::Loop(body) => {
                assert(run_block(bs[0], m, g) == run_loop(body, m, g));
                lemma_loop_exit(body, m, g);
                lemma_improve_blocks_run(rest, true, m1, g);
                if !after_loop {
                    lemma_improve_loop_run(body, m, g);
                    let b2 = BlockView::Loop(improve_blocks(body, false));
                    assert(r[0] == b2);
                    assert(r.drop_first() == improve_blocks(rest, true));
                    assert(run_block(b2, m, g) == run_loop(improve_blocks(body, false), m, g));
                    assert(run_blocks(r, m, g) == run_blocks(r.drop_first(), m1, g));
                } else {
                    assert(m1 == m);
                }
            },
        }
    }
}

/// Where a loop runs without error, the loop round its cleaned-up body runs the same way.
pub proof fn lemma_improve_loop_run(body: Seq<BlockView>, m: Machine, g: nat)
    requires
        run_loop(body, m, g).1 is Ok,
    ensures
        run_loop(improve_blocks(body, false), m, g) == run_loop(body, m, g),
    decreases g, body, 0int,
{
    if m.in_bounds() && m.cell() != 0 && g > 0 {
        assert(run_blocks(body, m, (g - 1) as nat).1 is Ok);
        lemma_improve_blocks_run(body, false, m, (g - 1) as nat);
        let m1 = run_blocks(body, m, (g - 1) as nat).0;
        lemma_improve_loop_run(body, m1, (g - 1) as nat);
    }
}

/// Runs instructions one after another, ignoring jumps: the machine after the last.
pub open spec fn run_straight(r: Seq<Instruction>, m: Machine) -> Result<Machine, RunError>
    decreases r.len(),
{
    if r.len() == 0 {
        Ok(m)
    } else {
        match run_straight(r.drop_last(), m) {
            Ok(m1) => match instr_effect(r.last(), m1) {
                Ok((_, m2)) => Ok(m2),
                Err(e) => Err(e),
            },
            Err(e) => Err(e),
        }
    }
}

/// A halting naive run crosses a stretch of data instructions one step each.
pub proof fn lemma_data_steps(p: Seq<Instruction>, a: int, i: int, m: Machine, f: nat)
    requires
        0 <= a <= i <= p.len(),
        forall|k: int| a <= k < i ==> is_data(#[trigger] p[k]),
        run_naive(p, a, m, f).2 is Ok,
    ensures
        run_straight(p.subrange(a, i), m) is Ok,
        f >= i - a,
        run_naive(p, i, run_straight(p.subrange(a, i), m)->Ok_0, (f - (i - a)) as nat)
            == run_naive(p, a, m, f),
    decreases i - a,
{
    if i == a {
        assert(p.subrange(a, i).len() == 0);
    } else {
        lemma_data_steps(p, a, i - 1, m, f);
        let m1 = run_straight(p.subrange(a, i - 1), m)->Ok_0;
        let f1 = (f - (i - 1 - a)) as nat;
        assert(p.subrange(a, i).drop_last() == p.subrange(a, i - 1));
        assert(p.subrange(a, i).last() == p[i - 1]);
        assert(is_data(p[i - 1]));
        assert(f1 > 0);
        assert(instr_effect(p[i - 1], m1) is Ok);
    }
}

/// Some offset of `ops` from `base` is `j`.
pub open spec fn covers(ops: Seq<(int, int)>, base: int, j: int) -> bool {
    exists|t: int| 0 <= t < ops.len() && base + (#[trigger] ops[t]).0 == j
}

/// `ops` and `d` say what took `m` to `m1`: the pointer moved by `d`, each offset of
/// `ops` (each once) changed by its change, and no other cell changed.
pub open spec fn tally_matches(ops: Seq<(int, int)>, d: int, m: Machine, m1: Machine) -> bool {
    &&& m1.ptr == m.ptr + d
    &&& m1.tape.len() == m.tape.len()
    &&& m1.input == m.input
    &&& m1.output == m.output
    &&& forall|s: int, t: int| 0 <= s < t < ops.len() ==> (#[trigger] ops[s]).0 != (#[trigger] ops[t]).0
    &&& forall|t: int|
        #![trigger ops[t]]
        0 <= t < ops.len() ==> 0 <= m.ptr + ops[t].0 < m.tape.len() && m1.tape[m.ptr + ops[t].0]
            == m.tape[m.ptr + ops[t].0] + ops[t].1
    &&& forall|j: int|
        0 <= j < m.tape.len() && !covers(ops, m.ptr, j) ==> #[trigger] m1.tape[j] == m.tape[j]
}

/// The tally of a run of data instructions says what the run did.
pub proof fn lemma_tally(r: Seq<Instruction>, m: Machine)
    requires
        forall|k: int| 0 <= k < r.len() ==> is_data(#[trigger] r[k]),
        run_straight(r, m) is Ok,
    ensures
        tally_matches(tally(r).0, tally(r).1, m, run_straight(r, m)->Ok_0),
        r.len() > 0 ==> (run_straight(r, m)->Ok_0).in_bounds(),
    decreases r.len(),
{
    if r.len() == 0 {
        let m1 = run_straight(r, m)->Ok_0;
        assert(m1 == m);
    } else {
        let q = r.drop_last();
        assert forall|k: int| 0 <= k < q.len() implies is_data(#[trigger] q[k]) by {
            assert(q[k] == r[k]);
        }
        assert(is_data(r.last())) by {
            assert(r.last() == r[r.len() - 1]);
        }
        lemma_tally(q, m);
        let m0 = run_straight(q, m)->Ok_0;
        let m1 = run_straight(r, m)->Ok_0;
        let (ops0, d0) = tally(q);
        let (ops, d) = tally(r);
        assert(instr_effect(r.last(), m0) is Ok);
        if r.last() is Increment || r.last() is Decrement {
            let x: int = if r.last() is Increment {
                1
            } else {
                -1
            };
            assert(ops == bump(ops0, d0, x));
            assert(d == d0);
            assert(m0.in_bounds());
            assert(m1.tape == m0.tape.update(m0.ptr, (m0.tape[m0.ptr] + x) as u8));
            lemma_key_index(ops0, d0);
            let ki = key_index(ops0, d0);
            if ki < ops0.len() {
                assert(ops == ops0.update(ki, (d0, ops0[ki].1 + x)));
                assert forall|t: int|
                    #![trigger ops[t]]
                    0 <= t < ops.len() implies 0 <= m.ptr + ops[t].0 < m.tape.len() && m1.tape[m.ptr
                        + ops[t].0] == m.tape[m.ptr + ops[t].0] + ops[t].1 by {
                    assert(ops0[t].0 == ops[t].0);
                    if t != ki {
                        assert(ops[t] == ops0[t]);
                        assert(ops0[t].0 != ops0[ki].0);
                    }
                }
                assert forall|j: int|
                    0 <= j < m.tape.len() && !covers(ops, m.ptr, j) implies #[trigger] m1.tape[j]
                    == m.tape[j] by {
                    if covers(ops0, m.ptr, j) {
                        let t = choose|t: int| 0 <= t < ops0.len() && m.ptr + (#[trigger] ops0[t]).0 == j;
                        assert(m.ptr + ops[t].0 == j);
                    }
                    assert(j != m0.ptr) by {
                        assert(m.ptr + ops[ki].0 == m0.ptr);
                    }
                }
                assert forall|s: int, t: int| 0 <= s < t < ops.len() implies (#[trigger] ops[s]).0
                    != (#[trigger] ops[t]).0 by {
                    assert(ops0[s].0 == ops[s].0);
                    assert(ops0[t].0 == ops[t].0);
                }
            } else {
                assert(ops == ops0.push((d0, x)));
                assert(!covers(ops0, m.ptr, m0.ptr)) by {
                    if covers(ops0, m.ptr, m0.ptr) {
                        let t = choose|t: int| 0 <= t < ops0.len() && m.ptr + (#[trigger] ops0[t]).0 == m0.ptr;
                        assert(ops0[t].0 != d0);
                    }
                }
                assert forall|t: int|
                    #![trigger ops[t]]
                    0 <= t < ops.len() implies 0 <= m.ptr + ops[t].0 < m.tape.len() && m1.tape[m.ptr
                        + ops[t].0] == m.tape[m.ptr + ops[t].0] + ops[t].1 by {
                    if t < ops0.len() {
                        assert(ops[t] == ops0[t]);
                        assert(ops0[t].0 != d0);
                    }
                }
                assert forall|j: int|
                    0 <= j < m.tape.len() && !covers(ops, m.ptr, j) implies #[trigger] m1.tape[j]
                    == m.tape[j] by {
                    if covers(ops0, m.ptr, j) {
                        let t = choose|t: int| 0 <= t < ops0.len() && m.ptr + (#[trigger] ops0[t]).0 == j;
                        assert(ops[t] == ops0[t]);
                    }
                    assert(j != m0.ptr) by {
                        assert(m.ptr + ops[ops0.len() as int].0 == m0.ptr);
                    }
                }
                assert forall|s: int, t: int| 0 <= s < t < ops.len() implies (#[trigger] ops[s]).0
                    != (#[trigger] ops[t]).0 by {
                    assert(ops[s] == ops0[s]);
                    if t < ops0.len() {
                        assert(ops[t] == ops0[t]);
                    }
                }
            }
        } else {
            assert(ops == ops0);
            assert(m1.tape == m0.tape);
        }
    }
}

/// Applying the changes that are not 0, each at its own offset, gives the tape that says
/// what each offset became.
pub proof fn lemma_apply_drop_zero(ops: Seq<(int, int)>, m: Machine, tape: Seq<u8>)
    requires
        tape.len() == m.tape.len(),
        forall|s: int, t: int| 0 <= s < t < ops.len() ==> (#[trigger] ops[s]).0 != (#[trigger] ops[t]).0,
        forall|t: int|
            #![trigger ops[t]]
            0 <= t < ops.len() ==> 0 <= m.ptr + ops[t].0 < m.tape.len() && tape[m.ptr + ops[t].0]
                == m.tape[m.ptr + ops[t].0] + ops[t].1,
        forall|j: int| 0 <= j < m.tape.len() && !covers(ops, m.ptr, j) ==> #[trigger] tape[j] == m.tape[j],
    ensures
        apply_ops(drop_zero(ops), m) == (
            Machine { tape, ptr: m.ptr, input: m.input, output: m.output },
            Ok::<(), RunError>(()),
        ),
    decreases ops.len(),
{
    if ops.len() == 0 {
        assert(tape =~= m.tape);
    } else {
        let rest = ops.drop_first();
        let at = m.ptr + ops[0].0;
        assert forall|s: int, t: int| 0 <= s < t < rest.len() implies (#[trigger] rest[s]).0
            != (#[trigger] rest[t]).0 by {
            assert(rest[s] == ops[s + 1]);
            assert(rest[t] == ops[t + 1]);
        }
        assert forall|t: int| 0 <= t < rest.len() implies #[trigger] rest[t] == ops[t + 1]
            && rest[t].0 != ops[0].0 by {
            assert(ops[0].0 != ops[t + 1].0);
        }
        if ops[0].1 == 0 {
            assert(drop_zero(ops) == drop_zero(rest));
            assert forall|j: int| 0 <= j < m.tape.len() && !covers(rest, m.ptr, j) implies #[trigger] tape[j]
                == m.tape[j] by {
                if j != at && covers(ops, m.ptr, j) {
                    let t = choose|t: int| 0 <= t < ops.len() && m.ptr + (#[trigger] ops[t]).0 == j;
                    assert(m.ptr + rest[t - 1].0 == j);
                }
            }
            lemma_apply_drop_zero(rest, m, tape);
        } else {
            let d = drop_zero(rest);
            assert(drop_zero(ops) == seq![ops[0]] + d);
            assert((seq![ops[0]] + d)[0] == ops[0]);
            assert((seq![ops[0]] + d).drop_first() == d);
            let m2 = Machine {
                tape: m.tape.update(at, tape[at]),
                ptr: m.ptr,
                input: m.input,
                output: m.output,
            };
            assert forall|j: int| 0 <= j < m.tape.len() && !covers(rest, m.ptr, j) implies #[trigger] tape[j]
                == m2.tape[j] by {
                if j != at && covers(ops, m.ptr, j) {
                    let t = choose|t: int| 0 <= t < ops.len() && m.ptr + (#[trigger] ops[t]).0 == j;
                    assert(m.ptr + rest[t - 1].0 == j);
                }
            }
            assert forall|t: int|
                #![trigger rest[t]]
                0 <= t < rest.len() implies 0 <= m2.ptr + rest[t].0 < m2.tape.len() && tape[m2.ptr
                    + rest[t].0] == m2.tape[m2.ptr + rest[t].0] + rest[t].1 by {
                assert(rest[t] == ops[t + 1]);
            }
            lemma_apply_drop_zero(rest, m2, tape);
        }
    }
}

/// A run of data instructions that runs without error does what its folded block does.
pub proof fn lemma_fold_run(r: Seq<Instruction>, m: Machine, g: nat)
    requires
        r.len() > 0,
        forall|k: int| 0 <= k < r.len() ==> is_data(#[trigger] r[k]),
        run_straight(r, m) is Ok,
    ensures
        run_block(fold_run(r), m, g) == (run_straight(r, m)->Ok_0, Ok::<(), RunError>(())),
{
    lemma_tally(r, m);
    let m1 = run_straight(r, m)->Ok_0;
    let (ops, d) = tally(r);
    lemma_apply_drop_zero(ops, m, m1.tape);
}

/// Every bracket in `[a, e)` has its partner in `[a, e)`.
pub open spec fn closed(p: Seq<Instruction>, a: int, e: int) -> bool {
    forall|k: int|
        #![trigger p[k]]
        a <= k < e ==> (p[k] is JumpLeft ==> p[k]->JumpLeft_0 < e) && (p[k] is JumpRight
            ==> p[k]->JumpRight_0 >= a)
}

/// Between a `[` and its `]` the brackets pair up among themselves.
pub proof fn lemma_loop_inside(p: Seq<Instruction>, a: int)
    requires
        resolved(p),
        0 <= a < p.len(),
        p[a] is JumpLeft,
    ensures
        a < p[a]->JumpLeft_0 < p.len(),
        p[p[a]->JumpLeft_0 as int] is JumpRight,
        p[p[a]->JumpLeft_0 as int]->JumpRight_0 as int == a,
        closed(p, a + 1, p[a]->JumpLeft_0 as int),
{
    let t = p[a]->JumpLeft_0 as int;
    assert forall|k: int|
        #![trigger p[k]]
        a + 1 <= k < t implies (p[k] is JumpLeft ==> p[k]->JumpLeft_0 < t) && (p[k] is JumpRight
            ==> p[k]->JumpRight_0 >= a + 1) by {
        if p[k] is JumpRight {
            let z = p[k]->JumpRight_0 as int;
            assert(p[z] is JumpLeft && p[z]->JumpLeft_0 as int == k);
            if z < a {
                assert(p[z] is JumpLeft && p[a] is JumpLeft);
            }
        }
    }
}

/// After a loop, the rest of a closed stretch is closed.
pub proof fn lemma_closed_after_loop(p: Seq<Instruction>, a: int, e: int)
    requires
        resolved(p),
        0 <= a < e <= p.len(),
        closed(p, a, e),
        p[a] is JumpLeft,
    ensures
        closed(p, p[a]->JumpLeft_0 + 1, e),
{
    let t = p[a]->JumpLeft_0 as int;
    lemma_loop_inside(p, a);
    assert forall|k: int|
        #![trigger p[k]]
        t + 1 <= k < e implies (p[k] is JumpLeft ==> p[k]->JumpLeft_0 < e) && (p[k] is JumpRight
            ==> p[k]->JumpRight_0 >= t + 1) by {
        if p[k] is JumpRight {
            let z = p[k]->JumpRight_0 as int;
            assert(p[z] is JumpLeft && p[z]->JumpLeft_0 as int == k);
            assert(z >= a);
            if a < z < t {
                assert(p[z] is JumpLeft && p[a] is JumpLeft);
            }

            if z == t {
                assert(p[t] is JumpRight);
            }
        }
    }
}

/// After data instructions, the rest of a closed stretch is closed.
pub proof fn lemma_closed_after_data(p: Seq<Instruction>, a: int, j: int, e: int)
    requires
        resolved(p),
        0 <= a <= j <= e <= p.len(),
        closed(p, a, e),
        forall|k: int| a <= k < j ==> !(#[trigger] p[k] is JumpLeft),
    ensures
        closed(p, j, e),
{
    assert forall|k: int|
        #![trigger p[k]]
        j <= k < e implies (p[k] is JumpLeft ==> p[k]->JumpLeft_0 < e) && (p[k] is JumpRight
            ==> p[k]->JumpRight_0 >= j) by {
        if p[k] is JumpRight {
            let z = p[k]->JumpRight_0 as int;
            assert(p[z] is JumpLeft && p[z]->JumpLeft_0 as int == k);
        }
    }
}

/// On a closed stretch that ends at the end or at a `]`, the blocks parsed at its start
/// end at its end.
pub proof fn lemma_blocks_at_end(p: Seq<Instruction>, a: int, e: int)
    requires
        resolved(p),
        0 <= a <= e <= p.len(),
        closed(p, a, e),
        e == p.len() || p[e] is JumpRight,
    ensures
        blocks_at(p, a).1 == e,
    decreases e - a,
{
    lemma_block_at_bounds(p, a);
    if a == e {
        assert(block_at(p, a) == (None::<BlockView>, a));
    } else if is_data(p[a]) {
        lemma_run_end(p, a, a);
        let j = run_end(p, a, a);
        if j > e {
            assert(is_data(p[e]));
        }
        lemma_closed_after_data(p, a, j, e);
        lemma_blocks_at_end(p, j, e);
    } else if p[a] is Write || p[a] is Read {
        lemma_closed_after_data(p, a, a + 1, e);
        lemma_blocks_at_end(p, a + 1, e);
    } else if p[a] is JumpLeft {
        let t = p[a]->JumpLeft_0 as int;
        lemma_loop_inside(p, a);
        lemma_blocks_at_end(p, a + 1, t);
        assert(block_at(p, a).1 == t + 1);
        lemma_closed_after_loop(p, a, e);
        lemma_blocks_at_end(p, t + 1, e);
    } else {
        assert(p[a] is JumpRight);
        let z = p[a]->JumpRight_0 as int;
        assert(z < a);
    }
}

/// A halting naive run from `a` goes through the blocks parsed at `a`: they run without
/// error (with no more loop passes than the steps it had) to the machine that the naive
/// run has at the end `e` of the closed stretch, and the naive run goes on from there.
pub proof fn lemma_simulate_blocks(p: Seq<Instruction>, a: int, e: int, m: Machine, f: nat) -> (res: (
    nat,
    Machine,
    nat,
))
    requires
        resolved(p),
        0 <= a <= e <= p.len(),
        closed(p, a, e),
        e == p.len() || p[e] is JumpRight,
        run_naive(p, a, m, f).2 is Ok,
    ensures
        res.0 <= f,
        res.2 <= f,
        run_blocks(blocks_at(p, a).0, m, res.0) == (res.1, Ok::<(), RunError>(())),
        run_naive(p, e, res.1, res.2) == run_naive(p, a, m, f),
    decreases f, e - a, 1int,
{
    lemma_block_at_bounds(p, a);
    if a == e {
        assert(block_at(p, a) == (None::<BlockView>, a));
        (0, m, f)
    } else if is_data(p[a]) {
        lemma_run_end(p, a, a);
        let j = run_end(p, a, a);
        if j > e {
            assert(is_data(p[e]));
        }
        let r = p.subrange(a, j);
        lemma_data_steps(p, a, j, m, f);
        let m1 = run_straight(r, m)->Ok_0;
        lemma_closed_after_data(p, a, j, e);
        let (g2, m2, f2) = lemma_simulate_blocks(p, j, e, m1, (f - (j - a)) as nat);
        assert forall|k: int| 0 <= k < r.len() implies is_data(#[trigger] r[k]) by {
            assert(r[k] == p[a + k]);
        }
        lemma_fold_run(r, m, g2);
        assert(block_at(p, a) == (Some(fold_run(r)), j));
        let bs = blocks_at(p, a).0;
        assert(bs == seq![fold_run(r)] + blocks_at(p, j).0);
        assert(bs[0] == fold_run(r));
        assert(bs.drop_first() == blocks_at(p, j).0);
        assert(run_blocks(bs, m, g2) == run_blocks(bs.drop_first(), m1, g2));
        (g2, m2, f2)
    } else if p[a] is Write || p[a] is Read {
        let io = if p[a] is Write {
            IoInstruction::Write
        } else {
            IoInstruction::Read
        };
        assert(io.instr() == p[a]);
        assert(f > 0);
        assert(instr_effect(p[a], m) is Ok);
        let m1 = instr_effect(p[a], m)->Ok_0.1;
        assert(run_naive(p, a, m, f) == run_naive(p, a + 1, m1, (f - 1) as nat));
        lemma_closed_after_data(p, a, a + 1, e);
        let (g2, m2, f2) = lemma_simulate_blocks(p, a + 1, e, m1, (f - 1) as nat);
        assert(io_effect(io, m) == (m1, Ok::<(), RunError>(())));
        assert(block_at(p, a) == (Some(BlockView::Io(io)), a + 1));
        let bs = blocks_at(p, a).0;
        assert(bs == seq![BlockView::Io(io)] + blocks_at(p, a + 1).0);
        assert(bs[0] == BlockView::Io(io));
        assert(bs.drop_first() == blocks_at(p, a + 1).0);
        assert(run_block(bs[0], m, g2) == (m1, Ok::<(), RunError>(())));
        assert(run_blocks(bs, m, g2) == run_blocks(bs.drop_first(), m1, g2));
        (g2, m2, f2)
    } else if p[a] is JumpLeft {
        let t = p[a]->JumpLeft_0 as int;
        lemma_loop_inside(p, a);
        lemma_blocks_at_end(p, a + 1, t);
        let body = blocks_at(p, a + 1).0;
        assert(loop_at(p, a) == (Some(BlockView::Loop(body)), t + 1));
        assert(block_at(p, a) == (Some(BlockView::Loop(body)), t + 1));
        let (g1, m1, f1) = lemma_simulate_loop(p, a, m, f);
        lemma_closed_after_loop(p, a, e);
        let (g2, m2, f2) = lemma_simulate_blocks(p, t + 1, e, m1, f1);
        let g = if g1 < g2 {
            g2
        } else {
            g1
        };
        lemma_loop_fuel_mono(body, m, g1, g);
        lemma_blocks_fuel_mono(blocks_at(p, t + 1).0, m1, g2, g);
        let bs = blocks_at(p, a).0;
        assert(bs == seq![BlockView::Loop(body)] + blocks_at(p, t + 1).0);
        assert(bs[0] == BlockView::Loop(body));
        assert(bs.drop_first() == blocks_at(p, t + 1).0);
        assert(run_block(bs[0], m, g) == run_loop(body, m, g));
        assert(run_blocks(bs, m, g) == run_blocks(bs.drop_first(), m1, g));
        (g, m2, f2)
    } else {
        assert(p[a] is JumpRight);
        let z = p[a]->JumpRight_0 as int;
        assert(z < a);
        (0, m, f)
    }
}

/// A halting naive run from a `[` goes through the loop parsed there: the loop runs
/// without error to the machine that the naive run has after the matching `]`.
pub proof fn lemma_simulate_loop(p: Seq<Instruction>, a: int, m: Machine, f: nat) -> (res: (
    nat,
    Machine,
    nat,
))
    requires
        resolved(p),
        0 <= a < p.len(),
        p[a] is JumpLeft,
        run_naive(p, a, m, f).2 is Ok,
    ensures
        res.0 <= f,
        res.2 <= f,
        run_loop(blocks_at(p, a + 1).0, m, res.0) == (res.1, Ok::<(), RunError>(())),
        run_naive(p, p[a]->JumpLeft_0 + 1, res.1, res.2) == run_naive(p, a, m, f),
    decreases f, 0int, 0int,
{
    let t = p[a]->JumpLeft_0 as int;
    let body = blocks_at(p, a + 1).0;
    lemma_loop_inside(p, a);
    assert(f > 0);
    assert(m.in_bounds());
    if m.cell() == 0 {
        assert(run_naive(p, a, m, f) == run_naive(p, t, m, (f - 1) as nat));
        assert(f - 1 > 0);
        assert(run_naive(p, t, m, (f - 1) as nat) == run_naive(p, t + 1, m, (f - 2) as nat));
        (0, m, (f - 2) as nat)
    } else {
        assert(run_naive(p, a, m, f) == run_naive(p, a + 1, m, (f - 1) as nat));
        let (g1, m1, f1) = lemma_simulate_blocks(p, a + 1, t, m, (f - 1) as nat);
        assert(f1 > 0);
        assert(m1.in_bounds());
        if m1.cell() == 0 {
            assert(run_naive(p, t, m1, f1) == run_naive(p, t + 1, m1, (f1 - 1) as nat));
            assert(run_loop(body, m1, g1) == (m1, Ok::<(), RunError>(())));
            (g1 + 1, m1, (f1 - 1) as nat)
        } else {
            assert(run_naive(p, t, m1, f1) == run_naive(p, a, m1, (f1 - 1) as nat));
            let (g2, m2, f2) = lemma_simulate_loop(p, a, m1, (f1 - 1) as nat);
            let g = if g1 < g2 {
                g2
            } else {
                g1
            };
            lemma_blocks_fuel_mono(body, m, g1, g);
            lemma_loop_fuel_mono(body, m1, g2, g);
            (g + 1, m2, f2)
        }
    }
}

/// Optimizing never changes what a program does: where the naive executor runs a program
/// whose brackets the parser resolved to its end, the cleaned-up block tree parsed from it
/// runs from the same machine, with the same allowance, to the same tape, pointer, input
/// and output.
pub proof fn lemma_optimized_matches_naive(p: Seq<Instruction>, m: Machine, fuel: nat)
    requires
        resolved(p),
        run_naive(p, 0, m, fuel).2 is Ok,
    ensures
        run_blocks(improve_blocks(blocks_at(p, 0).0, false), m, fuel) == (
            run_naive(p, 0, m, fuel).1,
            Ok::<(), RunError>(()),
        ),
{
    let bs = blocks_at(p, 0).0;
    let (g, m1, f1) = lemma_simulate_blocks(p, 0, p.len() as int, m, fuel);
    assert(run_naive(p, p.len() as int, m1, f1) == (p.len() as int, m1, Ok::<(), RunError>(())));
    lemma_blocks_fuel_mono(bs, m, g, fuel);
    lemma_improve_blocks_run(bs, false, m, fuel);
}

} // verus!

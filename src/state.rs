//! The tape machine: its state, what each instruction does, and the step-by-step engine.

use vstd::prelude::*;
use vstd::slice::slice_subrange;

use crate::program::{Instruction, Program};

verus! {

/// Why a run stopped before the end of its program.
#[derive(Clone, Copy, Debug, PartialEq, Eq, Structural)]
pub enum RunError {
    /// The data pointer would leave the tape, or a cell off the tape was addressed.
    TapeBoundsExceeded,
    /// A cell would go above 255.
    CellOverflow,
    /// A cell would go below 0.
    CellUnderflow,
    /// A `Read` found no byte left in the input.
    InputExhausted,
    /// The output sink refused a byte.
    OutputFailure,
    /// The run used up the steps it was allowed.
    StepLimitReached,
}

impl RunError {
    /// A human-readable description of the error.
    pub fn message(&self) -> (r: String)
        ensures
            r@ == match self {
                RunError::TapeBoundsExceeded => "data pointer left the tape"@,
                RunError::CellOverflow => "cell incremented above 255"@,
                RunError::CellUnderflow => "cell decremented below 0"@,
                RunError::InputExhausted => "read past the end of the input"@,
                RunError::OutputFailure => "could not write to the output"@,
                RunError::StepLimitReached => "step limit reached"@,
            },
    {
        match self {
            RunError::TapeBoundsExceeded => "data pointer left the tape".to_owned(),
            RunError::CellOverflow => "cell incremented above 255".to_owned(),
            RunError::CellUnderflow => "cell decremented below 0".to_owned(),
            RunError::InputExhausted => "read past the end of the input".to_owned(),
            RunError::OutputFailure => "could not write to the output".to_owned(),
            RunError::StepLimitReached => "step limit reached".to_owned(),
        }
    }
}

/// The observable state of a run: the tape, the data pointer, the input still to be
/// read and the output written so far.
pub ghost struct Machine {
    pub tape: Seq<u8>,
    pub ptr: int,
    pub input: Seq<u8>,
    pub output: Seq<u8>,
}

impl Machine {
    /// The data pointer addresses a cell of the tape.
    pub open spec fn in_bounds(self) -> bool {
        0 <= self.ptr < self.tape.len()
    }

    /// The cell under the data pointer.
    pub open spec fn cell(self) -> u8 {
        self.tape[self.ptr]
    }

    /// The same machine with the data pointer at `ptr`.
    pub open spec fn with_ptr(self, ptr: int) -> Machine {
        Machine { tape: self.tape, ptr, input: self.input, output: self.output }
    }

    /// The same machine with `v` in the cell under the data pointer.
    pub open spec fn with_cell(self, v: u8) -> Machine {
        Machine {
            tape: self.tape.update(self.ptr, v),
            ptr: self.ptr,
            input: self.input,
            output: self.output,
        }
    }
}

/// What one instruction does to `m`: the jump it takes (`None`: go on to the next
/// instruction) and the machine after it, or the error that stops it.
pub open spec fn instr_effect(instr: Instruction, m: Machine) -> Result<
    (Option<usize>, Machine),
    RunError,
> {
    match instr {
        Instruction::MoveLeft => if m.ptr - 1 < 0 || m.ptr - 1 >= m.tape.len() {
            Err(RunError::TapeBoundsExceeded)
        } else {
            Ok((None, m.with_ptr(m.ptr - 1)))
        },
        Instruction::MoveRight => if m.ptr + 1 < 0 || m.ptr + 1 >= m.tape.len() {
            Err(RunError::TapeBoundsExceeded)
        } else {
            Ok((None, m.with_ptr(m.ptr + 1)))
        },
        _ => if !m.in_bounds() {
            Err(RunError::TapeBoundsExceeded)
        } else {
            match instr {
                Instruction::Increment => if m.cell() == 255 {
                    Err(RunError::CellOverflow)
                } else {
                    Ok((None, m.with_cell((m.cell() + 1) as u8)))
                },
                Instruction::Decrement => if m.cell() == 0 {
                    Err(RunError::CellUnderflow)
                } else {
                    Ok((None, m.with_cell((m.cell() - 1) as u8)))
                },
                Instruction::Write => Ok(
                    (
                        None,
                        Machine {
                            tape: m.tape,
                            ptr: m.ptr,
                            input: m.input,
                            output: m.output.push(m.cell()),
                        },
                    ),
                ),
                Instruction::Read => if m.input.len() == 0 {
                    Err(RunError::InputExhausted)
                } else {
                    Ok(
                        (
                            None,
                            Machine {
                                tape: m.tape.update(m.ptr, m.input[0]),
                                ptr: m.ptr,
                                input: m.input.drop_first(),
                                output: m.output,
                            },
                        ),
                    )
                },
                Instruction::JumpLeft(target) => if m.cell() == 0 {
                    Ok((Some(target), m))
                } else {
                    Ok((None, m))
                },
                Instruction::JumpRight(target) => if m.cell() != 0 {
                    Ok((Some(target), m))
                } else {
                    Ok((None, m))
                },
                _ => Ok((None, m)),
            }
        },
    }
}

/// One step of program `p` at instruction `ip`: the next instruction pointer and machine.
pub open spec fn next(p: Seq<Instruction>, ip: int, m: Machine) -> Result<(int, Machine), RunError> {
    match instr_effect(p[ip], m) {
        Ok((Some(target), m2)) => Ok((target as int, m2)),
        Ok((None, m2)) => Ok((ip + 1, m2)),
        Err(e) => Err(e),
    }
}

/// Runs `p` from instruction `ip` for at most `fuel` steps: the instruction pointer and
/// machine where it stopped, and why. It halts normally once `ip` leaves the program.
pub open spec fn run_naive(p: Seq<Instruction>, ip: int, m: Machine, fuel: nat) -> (
    int,
    Machine,
    Result<(), RunError>,
)
    decreases fuel,
{
    if !(0 <= ip < p.len()) {
        (ip, m, Ok(()))
    } else if fuel == 0 {
        (ip, m, Err(RunError::StepLimitReached))
    } else {
        match next(p, ip, m) {
            Ok((ip2, m2)) => run_naive(p, ip2, m2, (fuel - 1) as nat),
            Err(e) => (ip, m, Err(e)),
        }
    }
}

/// The mutable state of a run: a tape of `LEN` cells, the data pointer and the
/// instruction pointer.
#[derive(Debug)]
pub struct ProgramState<const LEN: usize> {
    pub data: [u8; LEN],
    pub data_ptr: usize,
    pub instr_ptr: usize,
}

impl<const LEN: usize> Default for ProgramState<LEN> {
    /// A zeroed tape, with both pointers at 0.
    fn default() -> (r: Self)
        ensures
            r.data@ == Seq::new(LEN as nat, |i: int| 0u8),
            r.data_ptr == 0,
            r.instr_ptr == 0,
    {
        let r = ProgramState { data: [0u8; LEN], data_ptr: 0, instr_ptr: 0 };
        assert(r.data@ =~= Seq::new(LEN as nat, |i: int| 0u8));
        r
    }
}

impl<const LEN: usize> ProgramState<LEN> {
    /// This state, with the given input and output, as a machine.
    pub open spec fn machine(&self, input: Seq<u8>, output: Seq<u8>) -> Machine {
        Machine { tape: self.data@, ptr: self.data_ptr as int, input, output }
    }

    /// Runs `prog` from the current instruction pointer until it halts or fails.
    /// Allows `u64::MAX` steps, which no real run reaches.
    pub fn run(&mut self, prog: &Program, input: &mut &[u8], output: &mut Vec<u8>) -> (r: Result<
        (),
        RunError,
    >)
        ensures
            ({
                let (ip, m, res) = run_naive(
                    prog.0@,
                    old(self).instr_ptr as int,
                    old(self).machine(old(input)@, old(output)@),
                    u64::MAX as nat,
                );
                &&& final(self).instr_ptr == ip
                &&& final(self).machine(final(input)@, final(output)@) == m
                &&& r == res
            }),
    {
        self.run_with_limit(prog, input, output, u64::MAX)
    }

    /// Runs `prog` from the current instruction pointer for at most `limit` steps.
    pub fn run_with_limit(
        &mut self,
        prog: &Program,
        input: &mut &[u8],
        output: &mut Vec<u8>,
        limit: u64,
    ) -> (r: Result<(), RunError>)
        ensures
            ({
                let (ip, m, res) = run_naive(
                    prog.0@,
                    old(self).instr_ptr as int,
                    old(self).machine(old(input)@, old(output)@),
                    limit as nat,
                );
                &&& final(self).instr_ptr == ip
                &&& final(self).machine(final(input)@, final(output)@) == m
                &&& r == res
            }),
    {
        let mut fuel = limit;
        while self.instr_ptr < prog.0.len()
            invariant
                run_naive(prog.0@, self.instr_ptr as int, self.machine(input@, output@), fuel as nat)
                    == run_naive(
                    prog.0@,
                    old(self).instr_ptr as int,
                    old(self).machine(old(input)@, old(output)@),
                    limit as nat,
                ),
            decreases fuel,
        {
            if fuel == 0 {
                return Err(RunError::StepLimitReached);
            }
            let instr = prog.0[self.instr_ptr];
            match self.step(instr, input, output) {
                Ok(()) => {},
                Err(e) => {
                    return Err(e);
                },
            }
            fuel = fuel - 1;
        }
        Ok(())
    }

    /// Runs one instruction: applies it, then moves the instruction pointer to the jump
    /// target or to the next instruction. On an error nothing changes.
    pub fn step(&mut self, instr: Instruction, input: &mut &[u8], output: &mut Vec<u8>) -> (r:
        Result<(), RunError>)
        requires
            old(self).instr_ptr < usize::MAX,
        ensures
            ({
                let m = old(self).machine(old(input)@, old(output)@);
                match instr_effect(instr, m) {
                    Ok((jump, m2)) => {
                        &&& r is Ok
                        &&& final(self).machine(final(input)@, final(output)@) == m2
                        &&& final(self).instr_ptr == match jump {
                            Some(t) => t as int,
                            None => old(self).instr_ptr + 1,
                        }
                    },
                    Err(e) => {
                        &&& r == Err::<(), RunError>(e)
                        &&& final(self).machine(final(input)@, final(output)@) == m
                        &&& final(self).instr_ptr == old(self).instr_ptr
                    },
                }
            }),
    {
        match instr.step(self, input, output) {
            Ok(Some(target)) => {
                self.instr_ptr = target;
                Ok(())
            },
            Ok(None) => {
                self.instr_ptr = self.instr_ptr + 1;
                Ok(())
            },
            Err(e) => Err(e),
        }
    }
}

impl Instruction {
    /// Applies this instruction to `state`, reading from `input` and writing to `output`.
    /// Returns the jump target when a jump is taken. The instruction pointer is left alone;
    /// on an error nothing changes.
    pub fn step<const LEN: usize>(
        self,
        state: &mut ProgramState<LEN>,
        input: &mut &[u8],
        output: &mut Vec<u8>,
    ) -> (r: Result<Option<usize>, RunError>)
        ensures
            final(state).instr_ptr == old(state).instr_ptr,
            ({
                let m = old(state).machine(old(input)@, old(output)@);
                match instr_effect(self, m) {
                    Ok((jump, m2)) => {
                        &&& r == Ok::<Option<usize>, RunError>(jump)
                        &&& final(state).machine(final(input)@, final(output)@) == m2
                    },
                    Err(e) => {
                        &&& r == Err::<Option<usize>, RunError>(e)
                        &&& final(state).machine(final(input)@, final(output)@) == m
                    },
                }
            }),
    {
        let p = state.data_ptr;
        match self {
            Instruction::MoveLeft => {
                if p == 0 || p - 1 >= LEN {
                    return Err(RunError::TapeBoundsExceeded);
                }
                state.data_ptr = p - 1;
                return Ok(None);
            },
            Instruction::MoveRight => {
                if LEN == 0 || p >= LEN - 1 {
                    return Err(RunError::TapeBoundsExceeded);
                }
                state.data_ptr = p + 1;
                return Ok(None);
            },
            _ => {},
        }
        if p >= LEN {
            return Err(RunError::TapeBoundsExceeded);
        }
        let v = state.data[p];
        match self {
            Instruction::Increment => {
                if v == 255 {
                    return Err(RunError::CellOverflow);
                }
                state.data[p] = v + 1;
                Ok(None)
            },
            Instruction::Decrement => {
                if v == 0 {
                    return Err(RunError::CellUnderflow);
                }
                state.data[p] = v - 1;
                Ok(None)
            },
            Instruction::Write => {
                output.push(v);
                Ok(None)
            },
            Instruction::Read => {
                if input.len() == 0 {
                    return Err(RunError::InputExhausted);
                }
                state.data[p] = input[0];
                *input = slice_subrange(*input, 1, input.len());
                Ok(None)
            },
            Instruction::JumpLeft(target) => {
                if v == 0 {
                    Ok(Some(target))
                } else {
                    Ok(None)
                }
            },
            Instruction::JumpRight(target) => {
                if v != 0 {
                    Ok(Some(target))
                } else {
                    Ok(None)
                }
            },
            _ => Ok(None),
        }
    }
}

impl Program {
    /// Runs this program on `state` from instruction `instr_ptr` until it halts or fails.
    pub fn run<const LEN: usize>(
        &self,
        instr_ptr: usize,
        state: &mut ProgramState<LEN>,
        input: &mut &[u8],
        output: &mut Vec<u8>,
    ) -> (r: Result<(), RunError>)
        ensures
            ({
                let (ip, m, res) = run_naive(
                    self.0@,
                    instr_ptr as int,
                    old(state).machine(old(input)@, old(output)@),
                    u64::MAX as nat,
                );
                &&& final(state).instr_ptr == ip
                &&& final(state).machine(final(input)@, final(output)@) == m
                &&& r == res
            }),
    {
        state.instr_ptr = instr_ptr;
        state.run(self, input, output)
    }
}

} // verus!

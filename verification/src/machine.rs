//! The meaning of a program: a tape, and a machine that runs a program on it
//! one instruction at a time, reading from and writing to byte sequences.

use vstd::prelude::*;
use crate::error::Error;
use crate::instruction::Instruction;

verus! {

/// A tape of byte cells and the position of the pointer on it.
pub struct Tape {
    pub cells: Seq<u8>,
    pub pointer: int,
}

impl Tape {
    /// The pointer stands on a cell.
    pub open spec fn wf(self) -> bool {
        0 <= self.pointer < self.cells.len()
    }

    /// A tape of `size` cells that all hold 0, with the pointer at 0.
    pub open spec fn blank(size: nat) -> Tape {
        Tape { cells: Seq::new(size, |i: int| 0u8), pointer: 0 }
    }

    /// The cell under the pointer.
    pub open spec fn cell(self) -> u8 {
        self.cells[self.pointer]
    }

    /// The tape with `value` in the cell under the pointer.
    pub open spec fn stored(self, value: u8) -> Tape {
        Tape { cells: self.cells.update(self.pointer, value), pointer: self.pointer }
    }

    /// The tape with `delta` added to the cell under the pointer, modulo 256.
    pub open spec fn added(self, delta: int) -> Tape {
        self.stored(((self.cell() + delta) % 256) as u8)
    }

    /// The tape with the pointer `by` cells further on.
    pub open spec fn moved(self, by: int) -> Tape {
        Tape { cells: self.cells, pointer: self.pointer + by }
    }

    /// Why the pointer cannot move by `by` cells, if it cannot.
    pub open spec fn move_fault(self, by: int) -> Option<Error> {
        if self.pointer + by < 0 {
            Some(Error::PointerUnderflow)
        } else if self.pointer + by >= self.cells.len() {
            Some(Error::PointerOverflow)
        } else {
            None
        }
    }

    /// The error that `instruction` raises on this tape, if it raises one.
    pub open spec fn fault(self, instruction: Instruction) -> Option<Error> {
        match instruction {
            Instruction::Move(n) => self.move_fault(n as int),
            _ => None,
        }
    }

    /// The tape after `instruction`, where `incoming` is the byte that a
    /// `Read` stores.
    pub open spec fn after(self, instruction: Instruction, incoming: u8) -> Tape {
        match instruction {
            Instruction::Move(n) => self.moved(n as int),
            Instruction::Add(n) => self.added(n as int),
            Instruction::Read => self.stored(incoming),
            Instruction::Clear => self.stored(0),
            _ => self,
        }
    }

    /// The index of the instruction to execute after the `instruction` at `pc`.
    pub open spec fn successor(self, instruction: Instruction, pc: int) -> int {
        match instruction {
            Instruction::JumpIfZero(target) if self.cell() == 0 => target + 1,
            Instruction::JumpIfNonZero(target) if self.cell() != 0 => target + 1,
            _ => pc + 1,
        }
    }
}

/// The byte that a `Read` stores: the first byte of the input that is left,
/// or 0 when none is left.
pub open spec fn incoming(input: Seq<u8>) -> u8 {
    if input.len() > 0 {
        input[0]
    } else {
        0
    }
}

/// A program in execution: the tape, the index of the next instruction, the
/// input not yet read and the output written so far.
pub struct Machine {
    pub tape: Tape,
    pub pc: int,
    pub input: Seq<u8>,
    pub output: Seq<u8>,
}

impl Machine {
    /// The machine in front of the first instruction, with nothing written.
    pub open spec fn start(tape: Tape, input: Seq<u8>) -> Machine {
        Machine { tape, pc: 0, input, output: Seq::empty() }
    }

    /// No instruction is left to execute.
    pub open spec fn halted(self, program: Seq<Instruction>) -> bool {
        !(0 <= self.pc < program.len())
    }

    /// The error that the next instruction raises, if it raises one.
    pub open spec fn fault(self, program: Seq<Instruction>) -> Option<Error> {
        if self.halted(program) {
            None
        } else {
            self.tape.fault(program[self.pc])
        }
    }

    /// The run is over: the machine has halted or the next instruction fails.
    pub open spec fn stopped(self, program: Seq<Instruction>) -> bool {
        self.halted(program) || self.fault(program) is Some
    }

    /// How the run ended, for a machine that has stopped.
    pub open spec fn outcome(self, program: Seq<Instruction>) -> Result<(), Error> {
        match self.fault(program) {
            Some(error) => Err(error),
            None => Ok(()),
        }
    }

    /// The machine after its next instruction.
    pub open spec fn next(self, program: Seq<Instruction>) -> Machine {
        let instruction = program[self.pc];
        Machine {
            tape: self.tape.after(instruction, incoming(self.input)),
            pc: self.tape.successor(instruction, self.pc),
            input: if instruction is Read && self.input.len() > 0 {
                self.input.skip(1)
            } else {
                self.input
            },
            output: if instruction is Print {
                self.output.push(self.tape.cell())
            } else {
                self.output
            },
        }
    }

    /// The machine after `steps` instructions, or where it stopped before that.
    pub open spec fn run(self, program: Seq<Instruction>, steps: nat) -> Machine
        decreases steps,
    {
        if steps == 0 || self.stopped(program) {
            self
        } else {
            self.next(program).run(program, (steps - 1) as nat)
        }
    }
}

/// Running `first` steps and then `second` more is running `first + second` steps.
pub proof fn lemma_run_split(program: Seq<Instruction>, machine: Machine, first: nat, second: nat)
    ensures
        machine.run(program, first + second) == machine.run(program, first).run(program, second),
    decreases first,
{
    if first > 0 && !machine.stopped(program) {
        lemma_run_split(program, machine.next(program), (first - 1) as nat, second);
    }
}

/// A machine that has stopped stays as it is.
pub proof fn lemma_run_stays(program: Seq<Instruction>, machine: Machine, before: nat, after: nat)
    requires
        before <= after,
        machine.run(program, before).stopped(program),
    ensures
        machine.run(program, after) == machine.run(program, before),
{
    lemma_run_split(program, machine, before, (after - before) as nat);
}

/// Additions add up: adding `first` and then `second` is adding their sum.
pub proof fn lemma_added_twice(tape: Tape, first: int, second: int)
    requires
        tape.wf(),
    ensures
        tape.added(first).added(second) == tape.added(first + second),
        tape.added(0) == tape,
{
    let cell = tape.cell() as int;
    assert(((cell + first) % 256 + second) % 256 == (cell + first + second) % 256);
    assert(tape.added(first).added(second).cells =~= tape.added(first + second).cells);
    assert(tape.added(0).cells =~= tape.cells);
}

} // verus!

//! The execution engine: a tape and the function that executes one
//! instruction on it. Whoever drives it performs the input and output that
//! an instruction asks for.

use vstd::prelude::*;
use crate::error::{Error, Result};
use crate::instruction::Instruction;
use crate::machine::{incoming, Machine, Tape};

verus! {

/// What the caller has to do after an instruction has been executed.
#[derive(Debug, PartialEq, Eq, Clone, Copy, Structural)]
pub enum Action {
    /// Nothing.
    Continue,
    /// Write this byte to the output.
    Print(u8),
    /// Read one byte from the input and hand it to `read_char`.
    Read,
}

/// A tape of byte cells with a pointer on one of them.
#[derive(Debug)]
pub struct Interpreter {
    memory: Vec<u8>,
    pointer: usize,
}

impl View for Interpreter {
    type V = Tape;

    closed spec fn view(&self) -> Tape {
        Tape { cells: self.memory@, pointer: self.pointer as int }
    }
}

/// What `step` asks of its caller after `instruction`.
pub open spec fn requested(instruction: Instruction, tape: Tape) -> Action {
    match instruction {
        Instruction::Print => Action::Print(tape.cell()),
        Instruction::Read => Action::Read,
        _ => Action::Continue,
    }
}

/// The target of a jump can be stepped over without leaving `usize`.
pub open spec fn target_fits(instruction: Instruction) -> bool {
    match instruction {
        Instruction::JumpIfZero(target) => target < usize::MAX,
        Instruction::JumpIfNonZero(target) => target < usize::MAX,
        _ => true,
    }
}

impl Interpreter {
    /// A tape of `memory_size` cells that all hold 0, with the pointer at 0.
    /// A tape without cells can be made, but nothing runs on it: the pointer
    /// stands on a cell only where there is one.
    pub fn new(memory_size: usize) -> (interpreter: Self)
        ensures
            interpreter@ == Tape::blank(memory_size as nat),
            memory_size > 0 ==> interpreter@.wf(),
    {
        let interpreter = Interpreter { memory: vec![0u8; memory_size], pointer: 0 };
        assert(interpreter@.cells =~= Tape::blank(memory_size as nat).cells);
        interpreter
    }

    /// The cell under the pointer.
    pub fn read_memory(&self) -> (value: u8)
        requires
            self@.wf(),
        ensures
            value == self@.cell(),
    {
        self.memory[self.pointer]
    }

    /// Puts `value` in the cell under the pointer.
    pub fn store_memory(&mut self, value: u8)
        requires
            old(self)@.wf(),
        ensures
            final(self)@ == old(self)@.stored(value),
    {
        self.memory.set(self.pointer, value);
    }

    /// Completes a `Read`: stores the byte that was read, or 0 at end of input.
    pub fn read_char(&mut self, input: Option<u8>)
        requires
            old(self)@.wf(),
        ensures
            final(self)@ == old(self)@.stored(
                match input {
                    Some(byte) => byte,
                    None => 0,
                },
            ),
    {
        match input {
            Some(byte) => self.store_memory(byte),
            None => self.store_memory(0),
        }
    }

    /// Executes the instruction at `pc`. Returns the index of the instruction
    /// to execute next and what the caller has to do before that. A `Read`
    /// leaves the tape as it is: the caller reads and calls `read_char`.
    /// Fails, with the tape unchanged, exactly when the pointer would leave
    /// the tape.
    pub fn step(&mut self, program: &[Instruction], pc: usize) -> (result: Result<(usize, Action)>)
        requires
            old(self)@.wf(),
            pc < program.len(),
            target_fits(program[pc as int]),
        ensures
            final(self)@.wf(),
            match old(self)@.fault(program[pc as int]) {
                Some(error) => result == Err::<(usize, Action), Error>(error) && final(self)@ == old(
                    self,
                )@,
                None => {
                    &&& result matches Ok((next, action))
                    &&& next == old(self)@.successor(program[pc as int], pc as int)
                    &&& action == requested(program[pc as int], old(self)@)
                    &&& final(self)@ == if program[pc as int] is Read {
                        old(self)@
                    } else {
                        old(self)@.after(program[pc as int], 0)
                    }
                },
            },
    {
        let mut next: usize = pc + 1;
        let mut action = Action::Continue;
        match program[pc] {
            Instruction::Move(n) => {
                if n > 0 {
                    let by = n as usize;
                    if by <= self.memory.len() && self.pointer < self.memory.len() - by {
                        self.pointer += by;
                    } else {
                        return Err(Error::PointerOverflow);
                    }
                } else if n < 0 {
                    let by = (-(n + 1)) as usize + 1;
                    if self.pointer >= by {
                        self.pointer -= by;
                    } else {
                        return Err(Error::PointerUnderflow);
                    }
                }
            },
            Instruction::Add(n) => {
                let value = self.read_memory();
                let delta = match n.checked_rem_euclid(256) {
                    Some(delta) => delta as u8,
                    None => 0,
                };
                self.store_memory(value.wrapping_add(delta));
            },
            Instruction::JumpIfZero(address) => {
                if self.read_memory() == 0 {
                    next = address + 1;
                }
            },
            Instruction::JumpIfNonZero(address) => {
                if self.read_memory() != 0 {
                    next = address + 1;
                }
            },
            Instruction::Print => {
                action = Action::Print(self.read_memory());
            },
            Instruction::Read => {
                action = Action::Read;
            },
            Instruction::Clear => {
                self.store_memory(0);
            },
        }
        Ok((next, action))
    }
}

/// The machine after its caller has done what `step` asked for: `left` is
/// the tape as `step` left it, `next` the index and `action` the action that
/// it returned. After `Action::Read` the caller has taken the first byte of
/// the input that was left, if there was one, and handed it to `read_char`;
/// after `Action::Print` it has written the byte behind the output.
pub open spec fn driven(machine: Machine, left: Tape, next: int, action: Action) -> Machine {
    Machine {
        tape: if action is Read {
            left.stored(incoming(machine.input))
        } else {
            left
        },
        pc: next,
        input: if action is Read && machine.input.len() > 0 {
            machine.input.skip(1)
        } else {
            machine.input
        },
        output: match action {
            Action::Print(byte) => machine.output.push(byte),
            _ => machine.output,
        },
    }
}

/// A call of `step` that succeeds, followed by what it asks of the caller,
/// is one step of the machine: where `left`, `next` and `action` are what
/// the contract of `step` gives for the tape and the next instruction of
/// `machine`, the machine after them is `machine.next(program)`.
pub proof fn lemma_step_is_next(
    program: Seq<Instruction>,
    machine: Machine,
    left: Tape,
    next: usize,
    action: Action,
)
    requires
        machine.tape.wf(),
        !machine.stopped(program),
        next == machine.tape.successor(program[machine.pc], machine.pc),
        action == requested(program[machine.pc], machine.tape),
        left == if program[machine.pc] is Read {
            machine.tape
        } else {
            machine.tape.after(program[machine.pc], 0)
        },
    ensures
        machine.tape.fault(program[machine.pc]) is None,
        machine.next(program) == driven(machine, left, next as int, action),
        machine.next(program).tape.wf(),
{
}

/// A call of `step` fails exactly when the machine stops on an error, and
/// with that error: a machine that has not halted fails as `step` does on
/// its tape and its next instruction.
pub proof fn lemma_step_fails_as_machine(program: Seq<Instruction>, machine: Machine)
    requires
        !machine.halted(program),
    ensures
        machine.fault(program) == machine.tape.fault(program[machine.pc]),
        machine.stopped(program) <==> machine.tape.fault(program[machine.pc]) is Some,
        machine.tape.fault(program[machine.pc]) matches Some(error) ==> machine.outcome(program)
            == Err::<(), Error>(error),
{
}

} // verus!

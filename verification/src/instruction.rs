//! The instruction set shared by the parser, the optimizer and the interpreter.

use vstd::prelude::*;

verus! {

/// One instruction of a program. Jump payloads are absolute indices into the
/// program that holds the instruction.
#[derive(Debug, PartialOrd, PartialEq, Eq, Clone, Copy, Structural)]
pub enum Instruction {
    /// Move the tape pointer by this many cells; positive is forward.
    Move(isize),
    /// Add this delta to the current cell, modulo 256.
    Add(isize),
    /// Emit the current cell.
    Print,
    /// Store the next input byte in the current cell, or 0 at end of input.
    Read,
    /// Continue after the instruction at this index if the current cell is 0.
    JumpIfZero(usize),
    /// Continue after the instruction at this index if the current cell is not 0.
    JumpIfNonZero(usize),
    /// Set the current cell to 0.
    Clear,
}

/// `count` times the character `chr`; nothing for a count below 1.
pub open spec fn repeated(chr: char, count: int) -> Seq<char> {
    Seq::new(
        if count > 0 {
            count as nat
        } else {
            0
        },
        |i: int| chr,
    )
}

impl Instruction {
    /// The source characters that stand for this instruction: a move or an
    /// addition is as many characters as its magnitude, none if that is 0,
    /// and `Clear` is the loop that it replaces.
    pub open spec fn rendering(self) -> Seq<char> {
        match self {
            Instruction::Move(n) => if n > 0 {
                repeated('>', n as int)
            } else {
                repeated('<', -n)
            },
            Instruction::Add(n) => if n > 0 {
                repeated('+', n as int)
            } else {
                repeated('-', -n)
            },
            Instruction::Print => seq!['.'],
            Instruction::Read => seq![','],
            Instruction::JumpIfZero(_) => seq!['['],
            Instruction::JumpIfNonZero(_) => seq![']'],
            Instruction::Clear => seq!['[', '-', ']'],
        }
    }

    /// The source text of this instruction.
    pub fn to_string(&self) -> (text: String)
        ensures
            text@ == self.rendering(),
    {
        proof {
            reveal_strlit(">");
            reveal_strlit("<");
            reveal_strlit("+");
            reveal_strlit("-");
            reveal_strlit(".");
            reveal_strlit(",");
            reveal_strlit("[");
            reveal_strlit("]");
            reveal_strlit("[-]");
        }
        let text = match *self {
            Instruction::Move(n) => if n > 0 {
                repeat(">", n as usize)
            } else if n < 0 {
                repeat("<", (-(n + 1)) as usize + 1)
            } else {
                String::new()
            },
            Instruction::Add(n) => if n > 0 {
                repeat("+", n as usize)
            } else if n < 0 {
                repeat("-", (-(n + 1)) as usize + 1)
            } else {
                String::new()
            },
            Instruction::Print => ".".to_owned(),
            Instruction::Read => ",".to_owned(),
            Instruction::JumpIfZero(_) => "[".to_owned(),
            Instruction::JumpIfNonZero(_) => "]".to_owned(),
            Instruction::Clear => "[-]".to_owned(),
        };
        assert(text@ =~= self.rendering());
        text
    }
}

/// `count` times the one character of `piece`.
fn repeat(piece: &str, count: usize) -> (text: String)
    requires
        piece@.len() == 1,
    ensures
        text@ == repeated(piece@[0], count as int),
{
    let mut text = String::new();
    let mut written: usize = 0;
    while written < count
        invariant
            written <= count,
            piece@.len() == 1,
            text@ == repeated(piece@[0], written as int),
        decreases count - written,
    {
        text.append(piece);
        written += 1;
        assert(text@ =~= repeated(piece@[0], written as int));
    }
    text
}

/// The source text of a program: the renderings of its instructions in order.
pub open spec fn rendered(program: Seq<Instruction>) -> Seq<char>
    decreases program.len(),
{
    if program.len() == 0 {
        Seq::empty()
    } else {
        rendered(program.drop_last()) + program.last().rendering()
    }
}

} // verus!

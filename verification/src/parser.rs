//! From source text to a linked program.

use vstd::prelude::*;
use crate::error::{Error, Result};
use crate::instruction::Instruction;
use crate::optimizer::amount;
use crate::program::{balanced, depth, has_stray_close, is_pair, lemma_same_shape_pair, linked, same_shape, unlinked};

verus! {

const TYPICAL_LOOP_NESTING: usize = 10;

/// The instruction that a source character stands for, with unit magnitude
/// and an unresolved jump target; `None` for a comment character.
pub open spec fn decoded(chr: char) -> Option<Instruction> {
    if chr == '>' {
        Some(Instruction::Move(1))
    } else if chr == '<' {
        Some(Instruction::Move(-1isize))
    } else if chr == '+' {
        Some(Instruction::Add(1))
    } else if chr == '-' {
        Some(Instruction::Add(-1isize))
    } else if chr == '.' {
        Some(Instruction::Print)
    } else if chr == ',' {
        Some(Instruction::Read)
    } else if chr == '[' {
        Some(Instruction::JumpIfZero(0))
    } else if chr == ']' {
        Some(Instruction::JumpIfNonZero(0))
    } else {
        None
    }
}

/// The instructions of a source text in order, one for each character that
/// is not a comment, before any jump is resolved.
pub open spec fn scanned(code: Seq<char>) -> Seq<Instruction>
    decreases code.len(),
{
    if code.len() == 0 {
        Seq::empty()
    } else {
        match decoded(code.last()) {
            Some(instruction) => scanned(code.drop_last()).push(instruction),
            None => scanned(code.drop_last()),
        }
    }
}

/// Every move and every addition of the program is by one cell or by one.
pub open spec fn is_unit(program: Seq<Instruction>) -> bool {
    forall|i: int| 0 <= i < program.len() ==> -1 <= amount(#[trigger] program[i]) <= 1
}

/// What is scanned from a source text is no longer than the text and moves
/// and adds by one only.
pub proof fn lemma_scanned_is_unit(code: Seq<char>)
    ensures
        scanned(code).len() <= code.len(),
        is_unit(scanned(code)),
    decreases code.len(),
{
    if code.len() > 0 {
        lemma_scanned_is_unit(code.drop_last());
    }
}

fn decode(chr: char) -> (instruction: Option<Instruction>)
    ensures
        instruction == decoded(chr),
{
    match chr {
        '>' => Some(Instruction::Move(1)),
        '<' => Some(Instruction::Move(-1)),
        '+' => Some(Instruction::Add(1)),
        '-' => Some(Instruction::Add(-1)),
        '.' => Some(Instruction::Print),
        ',' => Some(Instruction::Read),
        '[' => Some(Instruction::JumpIfZero(0)),
        ']' => Some(Instruction::JumpIfNonZero(0)),
        _ => None,
    }
}

/// Parses a source text. Characters other than the eight commands are
/// comments. Fails exactly when the brackets do not pair up.
pub fn parse(code: &[char]) -> (result: Result<Vec<Instruction>>)
    ensures
        result is Ok <==> balanced(scanned(code@)),
        result matches Ok(program) ==> same_shape(program@, scanned(code@)) && linked(program@),
        result matches Ok(program) ==> is_unit(program@),
        has_stray_close(scanned(code@)) ==> (result matches Err(error) && error.is_syntax(
            "Unexpected closing bracket"@,
        )),
        !has_stray_close(scanned(code@)) && !balanced(scanned(code@)) ==> (result matches Err(
            error,
        ) && error.is_syntax("Unclosed bracket"@)),
{
    let mut program: Vec<Instruction> = Vec::with_capacity(code.len());
    let mut index: usize = 0;
    while index < code.len()
        invariant
            index <= code.len(),
            program@ == scanned(code@.take(index as int)),
        decreases code.len() - index,
    {
        proof {
            let next = code@.take(index + 1);
            assert(next.drop_last() =~= code@.take(index as int));
            assert(next.last() == code@[index as int]);
        }
        match decode(code[index]) {
            Some(instruction) => program.push(instruction),
            None => {},
        }
        index += 1;
    }
    assert(code@.take(index as int) =~= code@);
    proof {
        lemma_scanned_is_unit(code@);
    }
    let result = link_jumps(program);
    proof {
        if result is Ok {
            let linked_program = result->Ok_0@;
            assert forall|i: int| 0 <= i < linked_program.len() implies -1 <= amount(
                #[trigger] linked_program[i],
            ) <= 1 by {
                assert(unlinked(linked_program[i]) == unlinked(scanned(code@)[i]));
            }
        }
    }
    result
}

/// What the stack of `link_jumps` holds after the first `n` instructions:
/// entry `k` is the opening jump that raised the depth from `k` and has not
/// been closed since.
spec fn pending(program: Seq<Instruction>, stack: Seq<usize>, n: int) -> bool {
    &&& stack.len() == depth(program, n)
    &&& forall|k: int|
        0 <= k < stack.len() ==> {
            let open = #[trigger] stack[k] as int;
            &&& 0 <= open < n
            &&& program[open] is JumpIfZero
            &&& depth(program, open) == k
            &&& forall|m: int| open < m <= n ==> #[trigger] depth(program, m) > k
        }
}

/// What `link_jumps` has done to the program after the first `n`
/// instructions: each closing jump among them is tied to its opening jump,
/// and each opening jump among them is tied to its closing jump or waits on
/// the stack.
spec fn resolved(
    program: Seq<Instruction>,
    current: Seq<Instruction>,
    stack: Seq<usize>,
    n: int,
) -> bool {
    &&& same_shape(program, current)
    &&& forall|i: int|
        0 <= i < n ==> match #[trigger] current[i] {
            Instruction::JumpIfZero(target) => stack.contains(i as usize) || (target < n
                && is_pair(program, i, target as int)),
            Instruction::JumpIfNonZero(target) => is_pair(program, target as int, i),
            _ => true,
        }
}

/// Points every jump at its partner. Fails exactly when the brackets do not
/// pair up: on the first closing jump that has no partner, else at the end
/// if an opening jump is left over.
pub fn link_jumps(program: Vec<Instruction>) -> (result: Result<Vec<Instruction>>)
    ensures
        result is Ok <==> balanced(program@),
        result matches Ok(linked_program) ==> same_shape(linked_program@, program@) && linked(
            linked_program@,
        ),
        has_stray_close(program@) ==> (result matches Err(error) && error.is_syntax(
            "Unexpected closing bracket"@,
        )),
        !has_stray_close(program@) && !balanced(program@) ==> (result matches Err(error)
            && error.is_syntax("Unclosed bracket"@)),
{
    let ghost given = program@;
    let mut current = program;
    let mut jump_stack: Vec<usize> = Vec::with_capacity(TYPICAL_LOOP_NESTING);
    let mut index: usize = 0;
    while index < current.len()
        invariant
            index <= current.len(),
            given == program@,
            forall|n: int| 0 <= n <= index ==> depth(given, n) >= 0,
            pending(given, jump_stack@, index as int),
            resolved(given, current@, jump_stack@, index as int),
        decreases current.len() - index,
    {
        let ghost before = current@;
        let ghost stack_before = jump_stack@;
        assert(unlinked(given[index as int]) == unlinked(current[index as int]));
        match current[index] {
            Instruction::JumpIfZero(_) => {
                jump_stack.push(index);
                proof {
                    assert(jump_stack@[stack_before.len() as int] == index);
                    assert forall|i: int| 0 <= i < index + 1 implies match #[trigger] current@[i] {
                        Instruction::JumpIfZero(target) => jump_stack@.contains(i as usize) || (
                        target < index + 1 && is_pair(given, i, target as int)),
                        Instruction::JumpIfNonZero(target) => is_pair(given, target as int, i),
                        _ => true,
                    } by {
                        if i < index {
                            if stack_before.contains(i as usize) {
                                let k = choose|k: int|
                                    0 <= k < stack_before.len() && stack_before[k] == i as usize;
                                assert(jump_stack@[k] == i as usize);
                            }
                        }
                    }
                }
            },
            Instruction::JumpIfNonZero(_) => {
                match jump_stack.pop() {
                    None => {
                        assert(depth(given, index + 1) < 0);
                        return Err(Error::Syntax("Unexpected closing bracket".to_owned()));
                    },
                    Some(jump_index) => {
                        current.set(index, Instruction::JumpIfNonZero(jump_index));
                        current.set(jump_index, Instruction::JumpIfZero(index));
                        proof {
                            let level = jump_stack@.len() as int;
                            assert(stack_before[level] == jump_index);
                            assert(is_pair(given, jump_index as int, index as int));
                            assert forall|i: int| 0 <= i < index + 1 implies match #[trigger] current@[i] {
                                Instruction::JumpIfZero(target) => jump_stack@.contains(i as usize)
                                    || (target < index + 1 && is_pair(given, i, target as int)),
                                Instruction::JumpIfNonZero(target) => is_pair(
                                    given,
                                    target as int,
                                    i,
                                ),
                                _ => true,
                            } by {
                                if i != jump_index && i != index {
                                    assert(current@[i] == before[i]);
                                    if stack_before.contains(i as usize) {
                                        let k = choose|k: int|
                                            0 <= k < stack_before.len() && stack_before[k]
                                                == i as usize;
                                        assert(jump_stack@[k] == i as usize);
                                    }
                                }
                            }
                            assert forall|i: int| 0 <= i < given.len() implies unlinked(
                                #[trigger] given[i],
                            ) == unlinked(current@[i]) by {
                                assert(unlinked(given[i]) == unlinked(before[i]));
                            }
                        }
                    },
                }
            },
            _ => {},
        }
        index += 1;
    }
    if jump_stack.is_empty() {
        proof {
            assert forall|i: int| 0 <= i < current@.len() implies match #[trigger] current@[i] {
                Instruction::JumpIfZero(target) => is_pair(current@, i, target as int),
                Instruction::JumpIfNonZero(target) => is_pair(current@, target as int, i),
                _ => true,
            } by {
                match current@[i] {
                    Instruction::JumpIfZero(target) => {
                        assert(!jump_stack@.contains(i as usize));
                        lemma_same_shape_pair(given, current@, i, target as int);
                    },
                    Instruction::JumpIfNonZero(target) => {
                        lemma_same_shape_pair(given, current@, target as int, i);
                    },
                    _ => {},
                }
            }
        }
        Ok(current)
    } else {
        Err(Error::Syntax("Unclosed bracket".to_owned()))
    }
}

} // verus!

//! Peephole optimization: runs of moves and of additions become one
//! instruction each, and the loop that counts a cell down to zero becomes
//! `Clear`.
//!
//! A run that sums to zero still yields its instruction, `Move(0)` or
//! `Add(0)`: the optimizer never drops a run. Comments are no longer there
//! when the optimizer runs, so they do not interrupt a run.

use vstd::prelude::*;
use crate::error::Result;
use crate::instruction::Instruction;
use crate::parser::link_jumps;
use crate::program::{balanced, has_stray_close, linked, same_shape};

verus! {

/// Both instructions are moves, or both are additions.
pub open spec fn stackable(first: Instruction, second: Instruction) -> bool {
    (first is Move && second is Move) || (first is Add && second is Add)
}

/// The payload of a move or of an addition.
pub open spec fn amount(instruction: Instruction) -> int {
    match instruction {
        Instruction::Move(n) => n as int,
        Instruction::Add(n) => n as int,
        _ => 0,
    }
}

/// How many instructions from `from` on, without a gap, are stackable with `like`.
pub open spec fn run_len(program: Seq<Instruction>, like: Instruction, from: int) -> nat
    decreases program.len() - from,
{
    if 0 <= from < program.len() && stackable(like, program[from]) {
        1 + run_len(program, like, from + 1)
    } else {
        0
    }
}

/// The sum of the payloads at the positions `from..to`.
pub open spec fn total(program: Seq<Instruction>, from: int, to: int) -> int
    decreases to - from,
{
    if from >= to {
        0
    } else {
        total(program, from, to - 1) + amount(program[to - 1])
    }
}

/// The three instructions at `at` are the loop that counts the current cell
/// down to zero.
pub open spec fn is_clear_loop(program: Seq<Instruction>, at: int) -> bool {
    &&& 0 <= at
    &&& at + 2 < program.len()
    &&& program[at] is JumpIfZero
    &&& program[at + 1] == Instruction::Add(-1isize)
    &&& program[at + 2] is JumpIfNonZero
}

/// How many instructions the optimizer replaces by one when it stands at `at`.
pub open spec fn stride(program: Seq<Instruction>, at: int) -> nat {
    match program[at] {
        Instruction::Move(_) | Instruction::Add(_) => 1 + run_len(program, program[at], at + 1),
        Instruction::JumpIfZero(_) => if is_clear_loop(program, at) {
            3
        } else {
            1
        },
        _ => 1,
    }
}

/// The one instruction that the optimizer puts in place of the `stride`
/// instructions at `at`. A jump keeps the target it had.
pub open spec fn replacement(program: Seq<Instruction>, at: int) -> Instruction {
    match program[at] {
        Instruction::Move(_) => Instruction::Move(
            total(program, at, at + stride(program, at)) as isize,
        ),
        Instruction::Add(_) => Instruction::Add(
            total(program, at, at + stride(program, at)) as isize,
        ),
        Instruction::JumpIfZero(_) => if is_clear_loop(program, at) {
            Instruction::Clear
        } else {
            program[at]
        },
        other => other,
    }
}

/// What the optimizer makes of the instructions from `at` on, before it
/// links the jumps again.
pub open spec fn folded_from(program: Seq<Instruction>, at: int) -> Seq<Instruction>
    decreases
            (if at < program.len() {
                program.len() - at
            } else {
                0
            }),
{
    if 0 <= at < program.len() {
        seq![replacement(program, at)] + folded_from(program, at + stride(program, at))
    } else {
        Seq::empty()
    }
}

/// What the optimizer makes of a program, before it links the jumps again.
pub open spec fn folded(program: Seq<Instruction>) -> Seq<Instruction> {
    folded_from(program, 0)
}

/// A run of moves or of additions starts at `at`.
pub open spec fn starts_run(program: Seq<Instruction>, at: int) -> bool {
    &&& 0 <= at < program.len()
    &&& program[at] is Move || program[at] is Add
    &&& at == 0 || !stackable(program[at - 1], program[at])
}

/// The sum of every run of moves and of every run of additions is a value
/// that an instruction can hold.
pub open spec fn totals_fit(program: Seq<Instruction>) -> bool {
    forall|at: int| #[trigger]
        starts_run(program, at) ==> isize::MIN <= total(program, at, at + stride(program, at))
            <= isize::MAX
}

pub proof fn lemma_run_len(program: Seq<Instruction>, like: Instruction, from: int, to: int)
    requires
        0 <= from <= to <= program.len(),
        forall|k: int| from <= k < to ==> stackable(like, #[trigger] program[k]),
        to == program.len() || !stackable(like, program[to]),
    ensures
        run_len(program, like, from) == to - from,
    decreases to - from,
{
    if from < to {
        lemma_run_len(program, like, from + 1, to);
    }
}

fn is_stackable(first: Instruction, second: Instruction) -> (yes: bool)
    ensures
        yes == stackable(first, second),
{
    match (first, second) {
        (Instruction::Move(_), Instruction::Move(_)) => true,
        (Instruction::Add(_), Instruction::Add(_)) => true,
        _ => false,
    }
}

fn payload(instruction: Instruction) -> (n: isize)
    ensures
        n == amount(instruction),
{
    match instruction {
        Instruction::Move(n) => n,
        Instruction::Add(n) => n,
        _ => 0,
    }
}

/// Sums the run that starts at `start`; returns the sum, which may be more
/// than an instruction can hold, and the position behind the run.
fn sum_run(program: &[Instruction], start: usize) -> (sum: (i128, usize))
    requires
        start < program.len(),
        program[start as int] is Move || program[start as int] is Add,
    ensures
        sum.1 == start + stride(program@, start as int),
        sum.1 <= program.len(),
        sum.0 == total(program@, start as int, sum.1 as int),
{
    let like = program[start];
    assert(total(program@, start as int, start as int) == 0);
    let mut sum: i128 = payload(like) as i128;
    let mut end: usize = start + 1;
    while end < program.len() && is_stackable(like, program[end])
        invariant
            start < end <= program.len(),
            like == program[start as int],
            sum == total(program@, start as int, end as int),
            forall|k: int| start < k < end ==> stackable(like, #[trigger] program[k]),
            -(end - start) * 0x8000_0000_0000_0000 <= sum <= (end - start) * 0x8000_0000_0000_0000,
        decreases program.len() - end,
    {
        sum = sum + payload(program[end]) as i128;
        end += 1;
    }
    proof {
        lemma_run_len(program@, like, start + 1, end as int);
    }
    (sum, end)
}

/// Whether the sum of every run is a value that an instruction can hold:
/// what `optimize` asks of its argument.
pub fn runs_fit(program: &[Instruction]) -> (fit: bool)
    ensures
        fit == totals_fit(program@),
{
    let mut index: usize = 0;
    while index < program.len()
        invariant
            index <= program.len(),
            forall|at: int| at < index && #[trigger] starts_run(program@, at) ==> isize::MIN <= total(
                program@,
                at,
                at + stride(program@, at),
            ) <= isize::MAX,
            index < program.len() ==> index == 0 || !stackable(
                program[index - 1],
                program[index as int],
            ),
        decreases program.len() - index,
    {
        let like = program[index];
        if !is_stackable(like, like) {
            index += 1;
        } else {
            let ghost start = index as int;
            assert(starts_run(program@, start));
            let (sum, end) = sum_run(program, index);
            if sum < isize::MIN as i128 || sum > isize::MAX as i128 {
                return false;
            }
            proof {
                lemma_run_stops(program@, like, start + 1);
                assert forall|at: int| at < end && #[trigger] starts_run(program@, at) implies isize::MIN
                    <= total(program@, at, at + stride(program@, at)) <= isize::MAX by {
                    if at > start {
                        assert(stackable(like, program[at]));
                        assert(stackable(like, program[at - 1]));
                    }
                }
            }
            index = end;
        }
    }
    true
}

/// A program of moves and additions by at most one, no longer than
/// `isize::MAX`, has runs whose sums fit.
pub proof fn lemma_unit_totals_fit(program: Seq<Instruction>)
    requires
        program.len() <= isize::MAX,
        forall|i: int| 0 <= i < program.len() ==> -1 <= amount(#[trigger] program[i]) <= 1,
    ensures
        totals_fit(program),
{
    assert forall|at: int| #[trigger] starts_run(program, at) implies isize::MIN <= total(
        program,
        at,
        at + stride(program, at),
    ) <= isize::MAX by {
        lemma_run_stops(program, program[at], at + 1);
        lemma_unit_total(program, at, at + stride(program, at));
    }
}

proof fn lemma_unit_total(program: Seq<Instruction>, from: int, to: int)
    requires
        0 <= from <= to <= program.len(),
        forall|i: int| 0 <= i < program.len() ==> -1 <= amount(#[trigger] program[i]) <= 1,
    ensures
        from - to <= total(program, from, to) <= to - from,
    decreases to - from,
{
    if from < to {
        lemma_unit_total(program, from, to - 1);
    }
}

/// Optimizes a program and links its jumps again; the targets that the
/// jumps held before are ignored. Fails exactly when the brackets of the
/// result do not pair up.
pub fn optimize(program: &[Instruction]) -> (result: Result<Vec<Instruction>>)
    requires
        totals_fit(program@),
    ensures
        result is Ok <==> balanced(folded(program@)),
        result matches Ok(optimized) ==> same_shape(optimized@, folded(program@)) && linked(
            optimized@,
        ),
        has_stray_close(folded(program@)) ==> (result matches Err(error) && error.is_syntax(
            "Unexpected closing bracket"@,
        )),
        !has_stray_close(folded(program@)) && !balanced(folded(program@)) ==> (result matches Err(
            error,
        ) && error.is_syntax("Unclosed bracket"@)),
{
    let mut optimized: Vec<Instruction> = Vec::with_capacity(program.len());
    let mut index: usize = 0;
    while index < program.len()
        invariant
            index <= program.len(),
            totals_fit(program@),
            index < program.len() ==> index == 0 || !stackable(
                program[index - 1],
                program[index as int],
            ),
            optimized@ + folded_from(program@, index as int) == folded(program@),
        decreases program.len() - index,
    {
        let ghost before = optimized@;
        let ghost at = index as int;
        let instruction = program[index];
        match instruction {
            Instruction::Move(_) => {
                assert(starts_run(program@, at));
                let (sum, end) = sum_run(program, index);
                optimized.push(Instruction::Move(sum as isize));
                index = end;
            },
            Instruction::Add(_) => {
                assert(starts_run(program@, at));
                let (sum, end) = sum_run(program, index);
                optimized.push(Instruction::Add(sum as isize));
                index = end;
            },
            Instruction::JumpIfZero(_) => {
                if program.len() - index > 2 && is_decrement(program[index + 1]) && is_closing(
                    program[index + 2],
                ) {
                    optimized.push(Instruction::Clear);
                    index += 3;
                } else {
                    optimized.push(instruction);
                    index += 1;
                }
            },
            _ => {
                optimized.push(instruction);
                index += 1;
            },
        }
        proof {
            assert(optimized@ == before.push(replacement(program@, at)));
            assert(index == at + stride(program@, at));
            assert(optimized@ + folded_from(program@, index as int) =~= before + folded_from(
                program@,
                at,
            ));
            if index < program.len() {
                if instruction is Move || instruction is Add {
                    lemma_run_stops(program@, instruction, at + 1);
                }
            }
        }
    }
    assert(optimized@ =~= folded(program@));
    link_jumps(optimized)
}

fn is_decrement(instruction: Instruction) -> (yes: bool)
    ensures
        yes == (instruction == Instruction::Add(-1isize)),
{
    match instruction {
        Instruction::Add(n) => n == -1,
        _ => false,
    }
}

fn is_closing(instruction: Instruction) -> (yes: bool)
    ensures
        yes == (instruction is JumpIfNonZero),
{
    match instruction {
        Instruction::JumpIfNonZero(_) => true,
        _ => false,
    }
}

/// A run is followed by the end of the program or by an instruction that is
/// not stackable with it, and holds stackable instructions only.
pub proof fn lemma_run_stops(program: Seq<Instruction>, like: Instruction, from: int)
    requires
        0 <= from <= program.len(),
    ensures
        from + run_len(program, like, from) <= program.len(),
        from + run_len(program, like, from) < program.len() ==> !stackable(
            like,
            program[from + run_len(program, like, from)],
        ),
        forall|k: int|
            from <= k < from + run_len(program, like, from) ==> stackable(
                like,
                #[trigger] program[k],
            ),
    decreases program.len() - from,
{
    if from < program.len() && stackable(like, program[from]) {
        lemma_run_stops(program, like, from + 1);
    }
}

} // verus!

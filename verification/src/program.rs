//! The vocabulary in which the contracts speak of programs: the nesting
//! depth of a position, bracket pairs, and what it means for the jumps of a
//! program to be linked.

use vstd::prelude::*;
use crate::instruction::Instruction;

verus! {

/// What an instruction adds to the nesting depth: an opening jump 1, a
/// closing jump -1, any other instruction 0.
pub open spec fn nesting(instruction: Instruction) -> int {
    match instruction {
        Instruction::JumpIfZero(_) => 1,
        Instruction::JumpIfNonZero(_) => -1,
        _ => 0,
    }
}

/// The nesting depth in front of position `n`: the opening jumps among the
/// first `n` instructions minus the closing ones.
pub open spec fn depth(program: Seq<Instruction>, n: int) -> int
    decreases n,
{
    if n <= 0 {
        0
    } else {
        depth(program, n - 1) + nesting(program[n - 1])
    }
}

/// Some closing jump has no opening jump in front of it to pair with.
pub open spec fn has_stray_close(program: Seq<Instruction>) -> bool {
    exists|n: int| 0 <= n <= program.len() && depth(program, n) < 0
}

/// Every closing jump pairs with an opening jump in front of it, and no
/// opening jump is left over.
pub open spec fn balanced(program: Seq<Instruction>) -> bool {
    !has_stray_close(program) && depth(program, program.len() as int) == 0
}

/// The opening jump at `open` and the closing jump at `close` enclose one
/// properly nested block: the depth stays above the level in front of `open`
/// up to `close`, and is back at that level right behind it.
pub open spec fn is_pair(program: Seq<Instruction>, open: int, close: int) -> bool {
    &&& 0 <= open < close < program.len()
    &&& program[open] is JumpIfZero
    &&& program[close] is JumpIfNonZero
    &&& depth(program, close + 1) == depth(program, open)
    &&& forall|k: int| open < k <= close ==> #[trigger] depth(program, k) > depth(program, open)
}

/// Every jump holds the index of its partner: an opening jump that of the
/// closing jump it pairs with, and a closing jump that of its opening jump.
pub open spec fn linked(program: Seq<Instruction>) -> bool {
    forall|i: int|
        0 <= i < program.len() ==> match #[trigger] program[i] {
            Instruction::JumpIfZero(target) => is_pair(program, i, target as int),
            Instruction::JumpIfNonZero(target) => is_pair(program, target as int, i),
            _ => true,
        }
}

/// An instruction with its jump target, if it has one, set to 0.
pub open spec fn unlinked(instruction: Instruction) -> Instruction {
    match instruction {
        Instruction::JumpIfZero(_) => Instruction::JumpIfZero(0),
        Instruction::JumpIfNonZero(_) => Instruction::JumpIfNonZero(0),
        other => other,
    }
}

/// The two programs hold the same instructions but for their jump targets.
pub open spec fn same_shape(first: Seq<Instruction>, second: Seq<Instruction>) -> bool {
    &&& first.len() == second.len()
    &&& forall|i: int| 0 <= i < first.len() ==> unlinked(#[trigger] first[i]) == unlinked(second[i])
}

/// Programs of one shape have the same depth everywhere.
pub proof fn lemma_same_shape_depth(first: Seq<Instruction>, second: Seq<Instruction>, n: int)
    requires
        same_shape(first, second),
        n <= first.len(),
    ensures
        depth(first, n) == depth(second, n),
    decreases n,
{
    if n > 0 {
        lemma_same_shape_depth(first, second, n - 1);
        assert(unlinked(first[n - 1]) == unlinked(second[n - 1]));
    }
}

/// Programs of one shape have the same pairs.
pub proof fn lemma_same_shape_pair(
    first: Seq<Instruction>,
    second: Seq<Instruction>,
    open: int,
    close: int,
)
    requires
        same_shape(first, second),
        is_pair(first, open, close),
    ensures
        is_pair(second, open, close),
{
    lemma_same_shape_depth(first, second, open);
    lemma_same_shape_depth(first, second, close + 1);
    assert(unlinked(first[open]) == unlinked(second[open]));
    assert(unlinked(first[close]) == unlinked(second[close]));
    assert forall|k: int| open < k <= close implies #[trigger] depth(second, k) > depth(
        second,
        open,
    ) by {
        lemma_same_shape_depth(first, second, k);
    }
}

/// An opening jump pairs with at most one closing jump.
pub proof fn lemma_pair_close_unique(program: Seq<Instruction>, open: int, close: int, other: int)
    requires
        is_pair(program, open, close),
        is_pair(program, open, other),
    ensures
        close == other,
{
    if close < other {
        assert(depth(program, close + 1) > depth(program, open));
    } else if other < close {
        assert(depth(program, other + 1) > depth(program, open));
    }
}

/// A closing jump pairs with at most one opening jump.
pub proof fn lemma_pair_open_unique(program: Seq<Instruction>, open: int, other: int, close: int)
    requires
        is_pair(program, open, close),
        is_pair(program, other, close),
    ensures
        open == other,
{
    if open < other {
        assert(depth(program, other) > depth(program, open));
        assert(depth(program, other + 1) > depth(program, other));
    } else if other < open {
        assert(depth(program, open) > depth(program, other));
        assert(depth(program, open + 1) > depth(program, open));
    }
}

/// Linking is determined by the shape: two linked programs of one shape are
/// the same program.
pub proof fn lemma_linked_unique(first: Seq<Instruction>, second: Seq<Instruction>)
    requires
        same_shape(first, second),
        linked(first),
        linked(second),
    ensures
        first == second,
{
    assert forall|i: int| 0 <= i < first.len() implies first[i] == second[i] by {
        assert(unlinked(first[i]) == unlinked(second[i]));
        match (first[i], second[i]) {
            (Instruction::JumpIfZero(a), Instruction::JumpIfZero(b)) => {
                lemma_same_shape_pair(first, second, i, a as int);
                lemma_pair_close_unique(second, i, a as int, b as int);
            },
            (Instruction::JumpIfNonZero(a), Instruction::JumpIfNonZero(b)) => {
                lemma_same_shape_pair(first, second, a as int, i);
                lemma_pair_open_unique(second, a as int, b as int, i);
            },
            _ => {},
        }
    }
    assert(first =~= second);
}

/// In a linked program each jump points at a jump of the other kind that
/// points back at it.
pub proof fn lemma_linked_symmetric(program: Seq<Instruction>, i: int)
    requires
        linked(program),
        0 <= i < program.len(),
    ensures
        program[i] matches Instruction::JumpIfZero(j) ==> i < j < program.len() && program[j as int]
            == Instruction::JumpIfNonZero(i as usize),
        program[i] matches Instruction::JumpIfNonZero(j) ==> j < i && program[j as int]
            == Instruction::JumpIfZero(i as usize),
{
    match program[i] {
        Instruction::JumpIfZero(j) => {
            match program[j as int] {
                Instruction::JumpIfNonZero(back) => {
                    lemma_pair_open_unique(program, i, back as int, j as int);
                },
                _ => {},
            }
        },
        Instruction::JumpIfNonZero(j) => {
            match program[j as int] {
                Instruction::JumpIfZero(back) => {
                    lemma_pair_close_unique(program, j as int, i, back as int);
                },
                _ => {},
            }
        },
        _ => {},
    }
}

} // verus!

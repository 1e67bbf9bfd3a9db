//! Rendering a program gives back the commands of its source text.

use vstd::prelude::*;
use crate::instruction::{rendered, repeated, Instruction};
use crate::optimizer::{
    amount, folded, folded_from, is_clear_loop, lemma_run_len, lemma_run_stops, replacement,
    run_len, stackable, starts_run, stride, total, totals_fit,
};
use crate::parser::{decoded, scanned};
use crate::program::{same_shape, unlinked};

verus! {

/// The commands of a source text: its characters without the comments.
pub open spec fn commands(code: Seq<char>) -> Seq<char> {
    code.filter(|chr: char| decoded(chr) is Some)
}

/// One instruction pulls the pointer or the cell one way and the other pulls
/// it back.
pub open spec fn opposed(first: Instruction, second: Instruction) -> bool {
    &&& stackable(first, second)
    &&& (amount(first) < 0 && amount(second) > 0) || (amount(first) > 0 && amount(second) < 0)
}

/// No run of moves and no run of additions holds two opposed instructions.
pub open spec fn runs_one_way(program: Seq<Instruction>) -> bool {
    forall|i: int, j: int|
        0 <= i <= j < program.len() && j < i + run_len(program, program[i], i) ==> !opposed(
            #[trigger] program[i],
            #[trigger] program[j],
        )
}

/// The rendering of two programs in a row is the two renderings in a row.
pub proof fn lemma_rendered_concat(first: Seq<Instruction>, second: Seq<Instruction>)
    ensures
        rendered(first + second) == rendered(first) + rendered(second),
    decreases second.len(),
{
    if second.len() == 0 {
        assert(first + second =~= first);
        assert(rendered(first) + rendered(second) =~= rendered(first));
    } else {
        lemma_rendered_concat(first, second.drop_last());
        assert((first + second).drop_last() =~= first + second.drop_last());
        assert((first + second).last() == second.last());
        assert(rendered(first + second) =~= rendered(first) + rendered(second));
    }
}

/// The rendering does not depend on the jump targets.
pub proof fn lemma_rendered_shape(first: Seq<Instruction>, second: Seq<Instruction>)
    requires
        same_shape(first, second),
    ensures
        rendered(first) == rendered(second),
    decreases first.len(),
{
    if first.len() > 0 {
        assert(unlinked(first.last()) == unlinked(second.last()));
        assert(same_shape(first.drop_last(), second.drop_last())) by {
            assert forall|i: int| 0 <= i < first.drop_last().len() implies unlinked(
                #[trigger] first.drop_last()[i],
            ) == unlinked(second.drop_last()[i]) by {
                assert(unlinked(first[i]) == unlinked(second[i]));
            }
        }
        lemma_rendered_shape(first.drop_last(), second.drop_last());
    }
}

/// Rendering what was scanned from a source text gives the commands of that text.
pub proof fn lemma_scanned_round_trip(code: Seq<char>)
    ensures
        rendered(scanned(code)) == commands(code),
    decreases code.len(),
{
    reveal(Seq::filter);
    if code.len() > 0 {
        lemma_scanned_round_trip(code.drop_last());
        match decoded(code.last()) {
            Some(instruction) => {
                let front = scanned(code.drop_last());
                assert(front.push(instruction).drop_last() =~= front);
                assert(instruction.rendering() =~= seq![code.last()]);
                assert(rendered(scanned(code)) =~= commands(code.drop_last()).push(code.last()));
            },
            None => {},
        }
    }
}

/// The rendering of the instructions `from..to` of a program.
pub open spec fn rendered_between(program: Seq<Instruction>, from: int, to: int) -> Seq<char> {
    rendered(program.subrange(from, to))
}

proof fn lemma_rendered_step(program: Seq<Instruction>, from: int, to: int)
    requires
        0 <= from < to <= program.len(),
    ensures
        rendered_between(program, from, to) == rendered_between(program, from, to - 1)
            + program[to - 1].rendering(),
{
    let part = program.subrange(from, to);
    assert(part.drop_last() =~= program.subrange(from, to - 1));
}

/// The rendering of a move or an addition by `sum`, for any `sum`.
spec fn signed(like: Instruction, sum: int) -> Seq<char> {
    if like is Move {
        if sum > 0 {
            repeated('>', sum)
        } else {
            repeated('<', -sum)
        }
    } else {
        if sum > 0 {
            repeated('+', sum)
        } else {
            repeated('-', -sum)
        }
    }
}

/// A run whose instructions all pull one way renders as its sum does.
proof fn lemma_run_rendering(program: Seq<Instruction>, from: int, to: int)
    requires
        0 <= from < to <= program.len(),
        forall|k: int| from <= k < to ==> stackable(program[from], #[trigger] program[k]),
        forall|j: int, k: int|
            from <= j <= k < to ==> !opposed(#[trigger] program[j], #[trigger] program[k]),
    ensures
        rendered_between(program, from, to) == signed(program[from], total(program, from, to)),
        total(program, from, to) > 0 ==> exists|k: int| from <= k < to && amount(program[k]) > 0,
        total(program, from, to) < 0 ==> exists|k: int| from <= k < to && amount(program[k]) < 0,
    decreases to - from,
{
    let sum = total(program, from, to);
    let last = program[to - 1];
    assert(stackable(program[from], last));
    lemma_rendered_step(program, from, to);
    if to - 1 == from {
        assert(total(program, from, from) == 0);
        assert(program.subrange(from, from) =~= Seq::empty());
        assert(rendered_between(program, from, to) =~= last.rendering());
        if sum > 0 {
            assert(amount(program[from]) > 0);
        }
        if sum < 0 {
            assert(amount(program[from]) < 0);
        }
    } else {
        let front = total(program, from, to - 1);
        lemma_run_rendering(program, from, to - 1);
        if front > 0 {
            let k = choose|k: int| from <= k < to - 1 && amount(program[k]) > 0;
            assert(!opposed(program[k], program[to - 1]));
        }
        if front < 0 {
            let k = choose|k: int| from <= k < to - 1 && amount(program[k]) < 0;
            assert(!opposed(program[k], program[to - 1]));
        }
        if sum > 0 {
            if amount(last) > 0 {
                assert(amount(program[to - 1]) > 0);
            } else {
                let k = choose|k: int| from <= k < to - 1 && amount(program[k]) > 0;
                assert(amount(program[k]) > 0);
            }
        }
        if sum < 0 {
            if amount(last) < 0 {
                assert(amount(program[to - 1]) < 0);
            } else {
                let k = choose|k: int| from <= k < to - 1 && amount(program[k]) < 0;
                assert(amount(program[k]) < 0);
            }
        }
        assert(signed(program[from], front) + last.rendering() =~= signed(program[from], sum));
    }
}

/// Where no run holds opposed instructions, what the optimizer makes of the
/// instructions from `at` on renders as those instructions do.
proof fn lemma_folded_rendering(program: Seq<Instruction>, at: int)
    requires
        runs_one_way(program),
        totals_fit(program),
        0 <= at <= program.len(),
        at == 0 || at == program.len() || !stackable(program[at - 1], program[at]),
    ensures
        rendered(folded_from(program, at)) == rendered_between(program, at, program.len() as int),
    decreases program.len() - at,
{
    let len = program.len() as int;
    if at == len {
        assert(program.subrange(at, len) =~= Seq::empty());
    } else {
        let by = stride(program, at) as int;
        let one = replacement(program, at);
        let block = program.subrange(at, at + by);
        if program[at] is Move || program[at] is Add {
            lemma_run_stops(program, program[at], at + 1);
            assert(starts_run(program, at));
            assert forall|j: int, k: int| at <= j <= k < at + by implies !opposed(
                #[trigger] program[j],
                #[trigger] program[k],
            ) by {
                assert(stackable(program[at], program[j]));
                lemma_run_len(program, program[j], j, at + by);
            }
            lemma_run_rendering(program, at, at + by);
            assert(rendered(block) == one.rendering());
        } else if is_clear_loop(program, at) {
            lemma_rendered_step(program, at, at + 3);
            lemma_rendered_step(program, at, at + 2);
            lemma_rendered_step(program, at, at + 1);
            assert(program.subrange(at, at) =~= Seq::empty());
            assert(rendered(block) =~= one.rendering());
        } else {
            lemma_rendered_step(program, at, at + 1);
            assert(program.subrange(at, at) =~= Seq::empty());
            assert(rendered(block) =~= one.rendering());
        }
        lemma_folded_rendering(program, at + by);
        let rest = folded_from(program, at + by);
        lemma_rendered_concat(seq![one], rest);
        assert(seq![one].drop_last() =~= Seq::empty());
        assert(rendered(Seq::<Instruction>::empty()) =~= Seq::empty());
        assert(rendered(seq![one]) =~= one.rendering());
        lemma_rendered_concat(block, program.subrange(at + by, len));
        assert(program.subrange(at, len) =~= block + program.subrange(at + by, len));
    }
}

/// Rendering a parsed program gives the commands of its source text.
pub proof fn lemma_parse_round_trip(code: Seq<char>, parsed: Seq<Instruction>)
    requires
        same_shape(parsed, scanned(code)),
    ensures
        rendered(parsed) == commands(code),
{
    lemma_rendered_shape(parsed, scanned(code));
    lemma_scanned_round_trip(code);
}

/// Rendering an optimized program gives the rendering of the program that
/// was optimized, where no run of that program holds opposed instructions.
/// (A run that does shrinks: `Add(1), Add(-1)` becomes `Add(0)`, which
/// renders as nothing.)
pub proof fn lemma_optimize_round_trip(program: Seq<Instruction>, optimized: Seq<Instruction>)
    requires
        totals_fit(program),
        runs_one_way(program),
        same_shape(optimized, folded(program)),
    ensures
        rendered(optimized) == rendered(program),
{
    lemma_rendered_shape(optimized, folded(program));
    lemma_folded_rendering(program, 0);
    assert(program.subrange(0, program.len() as int) =~= program);
}

} // verus!

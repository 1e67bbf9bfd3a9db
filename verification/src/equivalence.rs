//! Optimizing a program does not change what it does.

use vstd::prelude::*;
use crate::error::Error;
use crate::instruction::Instruction;
use crate::machine::{lemma_added_twice, lemma_run_split, lemma_run_stays, Machine, Tape};
use crate::optimizer::{
    amount, folded, folded_from, is_clear_loop, lemma_run_stops, replacement, stackable,
    starts_run, stride, total, totals_fit,
};
use crate::program::{
    balanced, depth, is_pair, lemma_pair_close_unique, lemma_pair_open_unique,
    lemma_same_shape_pair, linked, nesting, same_shape, unlinked,
};

verus! {

/// The position in `program` of what instruction `k` of the folded program replaces.
pub open spec fn origin(program: Seq<Instruction>, k: nat) -> int
    decreases k,
{
    if k == 0 {
        0
    } else {
        origin(program, (k - 1) as nat) + stride(program, origin(program, (k - 1) as nat))
    }
}

/// No run reaches across the position `at`.
pub open spec fn is_boundary(program: Seq<Instruction>, at: int) -> bool {
    at <= 0 || at >= program.len() || !stackable(program[at - 1], program[at])
}

/// The depth does not change over instructions that are no jumps.
proof fn lemma_depth_level(program: Seq<Instruction>, from: int, to: int)
    requires
        0 <= from <= to,
        forall|k: int| from <= k < to ==> nesting(#[trigger] program[k]) == 0,
    ensures
        depth(program, to) == depth(program, from),
    decreases to - from,
{
    if from < to {
        lemma_depth_level(program, from, to - 1);
    }
}

/// What the optimizer replaces at `at` lies within the program, ends where
/// no run reaches across, and changes the depth as its replacement does.
proof fn lemma_block(program: Seq<Instruction>, at: int)
    requires
        0 <= at < program.len(),
    ensures
        at + stride(program, at) <= program.len(),
        is_boundary(program, at + stride(program, at)),
        depth(program, at + stride(program, at)) == depth(program, at) + nesting(
            replacement(program, at),
        ),
{
    let by = stride(program, at) as int;
    if program[at] is Move || program[at] is Add {
        lemma_run_stops(program, program[at], at + 1);
        assert forall|k: int| at <= k < at + by implies nesting(#[trigger] program[k]) == 0 by {
            assert(stackable(program[at], program[k]));
        }
        lemma_depth_level(program, at, at + by);
        if at + by < program.len() {
            assert(stackable(program[at], program[at + by - 1]));
        }
    } else if is_clear_loop(program, at) {
        assert(depth(program, at + 3) == depth(program, at + 2) + nesting(program[at + 2]));
        assert(depth(program, at + 2) == depth(program, at + 1) + nesting(program[at + 1]));
        assert(depth(program, at + 1) == depth(program, at) + nesting(program[at]));
    } else {
        assert(depth(program, at + 1) == depth(program, at) + nesting(program[at]));
    }
}

/// Where the folded program begins, it holds the replacements in order;
/// its end is the end of the program.
proof fn lemma_origin(program: Seq<Instruction>, k: nat)
    requires
        k <= folded(program).len(),
    ensures
        0 <= origin(program, k) <= program.len(),
        folded_from(program, origin(program, k)) == folded(program).skip(k as int),
        k < folded(program).len() ==> origin(program, k) < program.len() && folded(program)[k as int]
            == replacement(program, origin(program, k)),
        k == folded(program).len() ==> origin(program, k) == program.len(),
        is_boundary(program, origin(program, k)),
        depth(folded(program), k as int) == depth(program, origin(program, k)),
    decreases k,
{
    let result = folded(program);
    if k == 0 {
        assert(result.skip(0) =~= result);
    } else {
        let before = (k - 1) as nat;
        lemma_origin(program, before);
        let at = origin(program, before);
        lemma_block(program, at);
        assert(result.skip(before as int).skip(1) =~= result.skip(k as int));
        assert(folded_from(program, at).skip(1) =~= folded_from(program, at + stride(program, at)));
    }
    let here = origin(program, k);
    if k < result.len() {
        assert(result.skip(k as int)[0] == result[k as int]);
        assert(folded_from(program, here).len() > 0);
    } else {
        assert(result.skip(k as int).len() == 0);
    }
}

/// Later instructions of the folded program come from later positions.
proof fn lemma_origin_increasing(program: Seq<Instruction>, first: nat, second: nat)
    requires
        first <= second,
    ensures
        origin(program, first) <= origin(program, second),
        first < second ==> origin(program, first) < origin(program, second),
    decreases second,
{
    if first < second {
        lemma_origin_increasing(program, first, (second - 1) as nat);
    }
}

/// The index, in the folded program, of the replacement that covers position `at`.
pub open spec fn slot(program: Seq<Instruction>, at: int) -> nat
    decreases at,
{
    if at <= 0 {
        0
    } else {
        let before = slot(program, at - 1);
        if origin(program, before + 1) <= at {
            before + 1
        } else {
            before
        }
    }
}

proof fn lemma_slot(program: Seq<Instruction>, at: int)
    requires
        0 <= at < program.len(),
    ensures
        slot(program, at) < folded(program).len(),
        origin(program, slot(program, at)) <= at < origin(program, slot(program, at) + 1),
    decreases at,
{
    if at > 0 {
        lemma_slot(program, at - 1);
    }
    let k = slot(program, at);
    assert(origin(program, k) <= at < origin(program, k + 1));
    if k >= folded(program).len() {
        lemma_origin(program, folded(program).len());
        lemma_origin_increasing(program, folded(program).len(), k);
    }
}

/// A position that the folded program does not start a replacement at
/// lies in a run behind its first instruction, or in a clear loop.
proof fn lemma_inside(program: Seq<Instruction>, at: int)
    requires
        0 <= at < program.len(),
        origin(program, slot(program, at)) != at,
    ensures
        ({
            let start = origin(program, slot(program, at));
            &&& 0 <= start < at
            &&& if is_clear_loop(program, start) {
                at == start + 1 || at == start + 2
            } else {
                stackable(program[start], program[at])
            }
        }),
{
    lemma_slot(program, at);
    let k = slot(program, at);
    lemma_origin(program, k);
    let start = origin(program, k);
    if program[start] is Move || program[start] is Add {
        lemma_run_stops(program, program[start], start + 1);
    }
}

/// In a linked program the depth never falls below 0.
proof fn lemma_linked_depth_floor(program: Seq<Instruction>, n: int)
    requires
        linked(program),
        0 <= n <= program.len(),
    ensures
        depth(program, n) >= 0,
    decreases n,
{
    if n > 0 {
        lemma_linked_depth_floor(program, n - 1);
        match program[n - 1] {
            Instruction::JumpIfNonZero(target) => {
                lemma_linked_depth_floor(program, target as int);
            },
            _ => {},
        }
    }
}

/// In a linked program the depth is nowhere lower than at the end.
proof fn lemma_linked_depth_end(program: Seq<Instruction>, n: int)
    requires
        linked(program),
        0 <= n <= program.len(),
    ensures
        depth(program, n) >= depth(program, program.len() as int),
    decreases program.len() - n,
{
    if n < program.len() {
        lemma_linked_depth_end(program, n + 1);
        match program[n] {
            Instruction::JumpIfZero(target) => {
                lemma_linked_depth_end(program, target + 1);
            },
            _ => {},
        }
    }
}

/// The brackets of a linked program pair up.
pub proof fn lemma_linked_is_balanced(program: Seq<Instruction>)
    requires
        linked(program),
    ensures
        balanced(program),
{
    assert forall|n: int| 0 <= n <= program.len() implies depth(program, n) >= 0 by {
        lemma_linked_depth_floor(program, n);
    }
    lemma_linked_depth_end(program, 0);
}

/// Optimizing keeps the brackets paired: on a program whose brackets pair
/// up, and so on every linked program, `optimize` succeeds.
pub proof fn lemma_folded_is_balanced(program: Seq<Instruction>)
    requires
        balanced(program),
    ensures
        balanced(folded(program)),
{
    let result = folded(program);
    assert forall|n: int| 0 <= n <= result.len() implies depth(result, n) >= 0 by {
        lemma_origin(program, n as nat);
    }
    lemma_origin(program, result.len());
}

/// The three instructions of a clear loop are a pair with a decrement between.
proof fn lemma_clear_loop_pair(program: Seq<Instruction>, at: int)
    requires
        is_clear_loop(program, at),
    ensures
        is_pair(program, at, at + 2),
{
    assert(depth(program, at + 3) == depth(program, at + 2) + nesting(program[at + 2]));
    assert(depth(program, at + 2) == depth(program, at + 1) + nesting(program[at + 1]));
    assert(depth(program, at + 1) == depth(program, at) + nesting(program[at]));
}

/// A pair of the program whose jumps the optimizer keeps is a pair of the
/// folded program.
proof fn lemma_pair_folds(program: Seq<Instruction>, open: int, close: int)
    requires
        is_pair(program, open, close),
        !is_clear_loop(program, open),
    ensures
        ({
            let first = slot(program, open);
            let second = slot(program, close);
            &&& origin(program, first) == open
            &&& origin(program, second) == close
            &&& origin(program, second + 1) == close + 1
            &&& origin(program, first + 1) == open + 1
            &&& is_pair(folded(program), first as int, second as int)
        }),
{
    let result = folded(program);
    let first = slot(program, open);
    let second = slot(program, close);
    lemma_slot(program, open);
    lemma_slot(program, close);
    lemma_origin(program, first);
    lemma_origin(program, second);
    if origin(program, first) != open {
        lemma_inside(program, open);
    }
    if origin(program, second) != close {
        lemma_inside(program, close);
        let start = origin(program, second);
        lemma_clear_loop_pair(program, start);
        lemma_pair_open_unique(program, open, start, close);
    }
    if is_clear_loop(program, close) {
    }
    if first >= second {
        lemma_origin_increasing(program, second, first);
    }
    lemma_origin(program, second + 1);
    assert forall|k: int| first < k <= second implies #[trigger] depth(result, k) > depth(
        result,
        first as int,
    ) by {
        lemma_origin(program, k as nat);
        lemma_origin_increasing(program, first, k as nat);
        lemma_origin_increasing(program, k as nat, second);
    }
}

/// What ties a program to its optimized form: the program is linked and its
/// runs have sums that fit, and the form is what `optimize` returns for it.
pub open spec fn optimized_from(program: Seq<Instruction>, optimized: Seq<Instruction>) -> bool {
    &&& linked(program)
    &&& totals_fit(program)
    &&& same_shape(optimized, folded(program))
    &&& linked(optimized)
}

/// The replacement that covers the position that replacement `k` starts at is `k`.
proof fn lemma_slot_of_origin(program: Seq<Instruction>, k: nat)
    requires
        k < folded(program).len(),
    ensures
        slot(program, origin(program, k)) == k,
{
    lemma_origin(program, k);
    let at = origin(program, k);
    lemma_slot(program, at);
    let other = slot(program, at);
    if other < k {
        lemma_origin_increasing(program, other + 1, k);
    } else if k < other {
        lemma_origin_increasing(program, k + 1, other);
    }
}

/// The opening jump of a pair whose closing jump the optimizer keeps does
/// not open a clear loop.
proof fn lemma_open_is_kept(program: Seq<Instruction>, open: int, close: int, k: nat)
    requires
        is_pair(program, open, close),
        k < folded(program).len(),
        origin(program, k) == close,
    ensures
        !is_clear_loop(program, open),
{
    if is_clear_loop(program, open) {
        lemma_clear_loop_pair(program, open);
        lemma_pair_close_unique(program, open, close, open + 2);
        lemma_slot_of_origin(program, k);
        lemma_slot(program, open);
        let inner = slot(program, open);
        lemma_origin(program, inner);
        if origin(program, inner) != open {
            lemma_inside(program, open);
            assert(false);
        }
        assert(origin(program, inner + 1) == open + 3);
        if inner < k {
            lemma_origin_increasing(program, inner + 1, k);
        } else {
            lemma_origin_increasing(program, k, inner);
        }
        assert(false);
    }
}

/// An opening jump of the optimized program leads where the jump that it
/// stands for led: behind the replacement of the partner.
proof fn lemma_open_target_agrees(
    program: Seq<Instruction>,
    optimized: Seq<Instruction>,
    k: nat,
    target: usize,
)
    requires
        optimized_from(program, optimized),
        k < optimized.len(),
        optimized[k as int] == Instruction::JumpIfZero(target),
    ensures
        program[origin(program, k)] matches Instruction::JumpIfZero(other) && origin(
            program,
            (target + 1) as nat,
        ) == other + 1,
        target < optimized.len(),
{
    let result = folded(program);
    let at = origin(program, k);
    lemma_origin(program, k);
    assert(unlinked(optimized[k as int]) == unlinked(result[k as int]));
    assert(program[at] is JumpIfZero && !is_clear_loop(program, at));
    let other = program[at]->JumpIfZero_0 as int;
    assert(is_pair(program, at, other));
    lemma_pair_folds(program, at, other);
    lemma_slot_of_origin(program, k);
    let partner = slot(program, other);
    assert(is_pair(result, k as int, partner as int));
    lemma_same_shape_pair(result, optimized, k as int, partner as int);
    assert(is_pair(optimized, k as int, target as int));
    lemma_pair_close_unique(optimized, k as int, target as int, partner as int);
}

/// A closing jump of the optimized program leads where the jump that it
/// stands for led: behind the replacement of the partner.
proof fn lemma_close_target_agrees(
    program: Seq<Instruction>,
    optimized: Seq<Instruction>,
    k: nat,
    target: usize,
)
    requires
        optimized_from(program, optimized),
        k < optimized.len(),
        optimized[k as int] == Instruction::JumpIfNonZero(target),
    ensures
        program[origin(program, k)] matches Instruction::JumpIfNonZero(other) && origin(
            program,
            (target + 1) as nat,
        ) == other + 1,
        target < optimized.len(),
{
    let result = folded(program);
    let at = origin(program, k);
    lemma_origin(program, k);
    assert(unlinked(optimized[k as int]) == unlinked(result[k as int]));
    assert(program[at] is JumpIfNonZero);
    let other = program[at]->JumpIfNonZero_0 as int;
    assert(is_pair(program, other, at));
    lemma_open_is_kept(program, other, at, k);
    lemma_pair_folds(program, other, at);
    lemma_slot_of_origin(program, k);
    let partner = slot(program, other);
    assert(is_pair(result, partner as int, k as int));
    lemma_same_shape_pair(result, optimized, partner as int, k as int);
    assert(is_pair(optimized, target as int, k as int));
    lemma_pair_open_unique(optimized, target as int, partner as int, k as int);
}

/// The machine with this tape in front of this instruction, and the input
/// and output that it has.
pub open spec fn placed(machine: Machine, tape: Tape, pc: int) -> Machine {
    Machine { tape, pc, input: machine.input, output: machine.output }
}

/// One step of a machine that has not stopped.
proof fn lemma_one_step(program: Seq<Instruction>, machine: Machine)
    requires
        !machine.stopped(program),
    ensures
        machine.run(program, 1) == machine.next(program),
{
    assert(machine.next(program).run(program, 0) == machine.next(program));
}

/// A run of additions adds their sum.
proof fn lemma_add_run(program: Seq<Instruction>, machine: Machine, to: int)
    requires
        machine.tape.wf(),
        0 <= machine.pc <= to <= program.len(),
        forall|k: int| machine.pc <= k < to ==> #[trigger] program[k] is Add,
    ensures
        machine.run(program, (to - machine.pc) as nat) == placed(
            machine,
            machine.tape.added(total(program, machine.pc, to)),
            to,
        ),
    decreases to - machine.pc,
{
    let from = machine.pc;
    if from == to {
        lemma_added_twice(machine.tape, 0, 0);
    } else {
        lemma_add_run(program, machine, to - 1);
        let before = machine.run(program, (to - 1 - from) as nat);
        lemma_run_split(program, machine, (to - 1 - from) as nat, 1);
        assert(program[to - 1] is Add);
        lemma_one_step(program, before);
        lemma_added_twice(machine.tape, total(program, from, to - 1), amount(program[to - 1]));
    }
}

/// A run of moves moves by their sum, unless the pointer leaves the tape on
/// the way: then the machine stands in front of the move that fails.
proof fn lemma_move_run(program: Seq<Instruction>, machine: Machine, to: int) -> (steps: nat)
    requires
        machine.tape.wf(),
        0 <= machine.pc <= to <= program.len(),
        forall|k: int| machine.pc <= k < to ==> #[trigger] program[k] is Move,
    ensures
        ({
            let end = machine.run(program, steps);
            &&& machine.pc <= end.pc <= to
            &&& end == placed(
                machine,
                machine.tape.moved(total(program, machine.pc, end.pc)),
                end.pc,
            )
            &&& end.tape.wf()
            &&& steps == end.pc - machine.pc
            &&& end.pc < to ==> end.fault(program) is Some
        }),
    decreases to - machine.pc,
{
    let from = machine.pc;
    if from == to {
        assert(machine.tape.moved(0) == machine.tape);
        0
    } else {
        let steps = lemma_move_run(program, machine, to - 1);
        let before = machine.run(program, steps);
        assert(program[to - 1] is Move);
        if before.pc < to - 1 || before.fault(program) is Some {
            steps
        } else {
            lemma_run_split(program, machine, steps, 1);
            lemma_one_step(program, before);
            steps + 1
        }
    }
}

/// The loop that counts a cell down leaves 0 in it.
proof fn lemma_countdown(program: Seq<Instruction>, machine: Machine, at: int) -> (steps: nat)
    requires
        machine.tape.wf(),
        is_clear_loop(program, at),
        program[at + 2] matches Instruction::JumpIfNonZero(target) && target == at,
        machine.pc == at + 1,
        machine.tape.cell() > 0,
    ensures
        machine.run(program, steps) == placed(machine, machine.tape.stored(0), at + 3),
    decreases machine.tape.cell(),
{
    let decremented = machine.next(program);
    lemma_one_step(program, machine);
    let looped = decremented.next(program);
    lemma_one_step(program, decremented);
    lemma_run_split(program, machine, 1, 1);
    assert(decremented.tape.cell() == machine.tape.cell() - 1);
    if decremented.tape.cell() == 0 {
        assert(looped.tape.cells =~= machine.tape.stored(0).cells);
        2
    } else {
        let rest = lemma_countdown(program, looped, at);
        lemma_run_split(program, machine, 2, rest);
        assert(looped.tape.stored(0).cells =~= machine.tape.stored(0).cells);
        2 + rest
    }
}

/// A clear loop does what `Clear` does.
proof fn lemma_clear_loop(program: Seq<Instruction>, machine: Machine) -> (steps: nat)
    requires
        linked(program),
        machine.tape.wf(),
        is_clear_loop(program, machine.pc),
    ensures
        steps >= 1,
        machine.run(program, steps) == placed(machine, machine.tape.stored(0), machine.pc + 3),
{
    let at = machine.pc;
    lemma_clear_loop_pair(program, at);
    match program[at] {
        Instruction::JumpIfZero(target) => {
            lemma_pair_close_unique(program, at, target as int, at + 2);
        },
        _ => {},
    }
    match program[at + 2] {
        Instruction::JumpIfNonZero(target) => {
            lemma_pair_open_unique(program, target as int, at, at + 2);
        },
        _ => {},
    }
    lemma_one_step(program, machine);
    let entered = machine.next(program);
    if machine.tape.cell() == 0 {
        assert(machine.tape.stored(0).cells =~= machine.tape.cells);
        1
    } else {
        let rest = lemma_countdown(program, entered, at);
        lemma_run_split(program, machine, 1, rest);
        1 + rest
    }
}

/// Where the run begins that the instruction at `at` belongs to.
pub open spec fn run_start(program: Seq<Instruction>, at: int) -> int
    decreases at,
{
    if 0 < at < program.len() && stackable(program[at - 1], program[at]) {
        run_start(program, at - 1)
    } else {
        at
    }
}

/// The error that the run around the next instruction raises when it is
/// taken as one move, from where the pointer stood when the run began.
pub open spec fn run_fault(machine: Machine, program: Seq<Instruction>) -> Option<Error> {
    let start = run_start(program, machine.pc);
    machine.tape.moved(-total(program, start, machine.pc)).move_fault(
        total(program, start, start + stride(program, start)),
    )
}

/// If the next instruction fails, the run around it, taken as one move,
/// fails in the same way.
pub open spec fn steady(machine: Machine, program: Seq<Instruction>) -> bool {
    machine.fault(program) matches Some(error) ==> run_fault(machine, program) == Some(error)
}

/// However long the machine runs, a move that fails is part of a run that,
/// taken as one move, fails in the same way. This leaves out the runs in
/// which the pointer leaves the tape on the way and would have come back, or
/// would have left it at the other end: there the optimized program goes on,
/// or fails otherwise.
pub open spec fn runs_steadily(machine: Machine, program: Seq<Instruction>) -> bool {
    forall|steps: nat| steady(#[trigger] machine.run(program, steps), program)
}

/// The two machines stand in front of corresponding instructions, with the
/// same tape, input and output.
pub open spec fn in_step(program: Seq<Instruction>, plain: Machine, reduced: Machine) -> bool {
    &&& 0 <= reduced.pc <= folded(program).len()
    &&& plain.pc == origin(program, reduced.pc as nat)
    &&& plain.tape == reduced.tape
    &&& plain.tape.wf()
    &&& plain.input == reduced.input
    &&& plain.output == reduced.output
}

/// Both machines have stopped, in the same way, with the same output
/// written, the same input left and the same cells; where they halted, the
/// pointer is the same too.
pub open spec fn same_end(
    program: Seq<Instruction>,
    plain: Machine,
    optimized: Seq<Instruction>,
    reduced: Machine,
) -> bool {
    &&& plain.stopped(program)
    &&& reduced.stopped(optimized)
    &&& plain.outcome(program) == reduced.outcome(optimized)
    &&& plain.output == reduced.output
    &&& plain.input == reduced.input
    &&& plain.tape.cells == reduced.tape.cells
    &&& plain.outcome(program) is Ok ==> plain.tape == reduced.tape
}

proof fn lemma_run_start(program: Seq<Instruction>, start: int, at: int)
    requires
        is_boundary(program, start),
        0 <= start <= at < program.len(),
        forall|k: int| start <= k <= at ==> stackable(program[start], #[trigger] program[k]),
    ensures
        run_start(program, at) == start,
    decreases at - start,
{
    if start < at {
        assert(stackable(program[start], program[at - 1]));
        assert(stackable(program[start], program[at]));
        lemma_run_start(program, start, at - 1);
    }
}

proof fn lemma_steadily_on(program: Seq<Instruction>, machine: Machine, steps: nat)
    requires
        runs_steadily(machine, program),
    ensures
        runs_steadily(machine.run(program, steps), program),
        steady(machine.run(program, steps), program),
{
    assert forall|more: nat| steady(
        #[trigger] machine.run(program, steps).run(program, more),
        program,
    ) by {
        lemma_run_split(program, machine, steps, more);
        assert(steady(machine.run(program, steps + more), program));
    }
}

/// One instruction of the optimized program does what the instructions
/// that it replaces do.
proof fn lemma_replacement(
    program: Seq<Instruction>,
    optimized: Seq<Instruction>,
    plain: Machine,
    reduced: Machine,
) -> (steps: nat)
    requires
        optimized_from(program, optimized),
        in_step(program, plain, reduced),
        !reduced.halted(optimized),
        runs_steadily(plain, program),
    ensures
        match reduced.fault(optimized) {
            None => steps >= 1 && in_step(
                program,
                plain.run(program, steps),
                reduced.next(optimized),
            ),
            Some(error) => {
                let end = plain.run(program, steps);
                &&& !end.halted(program)
                &&& end.fault(program) == Some(error)
                &&& end.output == reduced.output
                &&& end.input == reduced.input
                &&& end.tape.cells == reduced.tape.cells
            },
        },
{
    let k = reduced.pc as nat;
    let at = plain.pc;
    let by = stride(program, at) as int;
    lemma_origin(program, k);
    lemma_origin(program, k + 1);
    lemma_block(program, at);
    assert(unlinked(optimized[k as int]) == unlinked(folded(program)[k as int]));
    match program[at] {
        Instruction::Add(_) => {
            lemma_run_stops(program, program[at], at + 1);
            assert(starts_run(program, at));
            assert forall|j: int| at <= j < at + by implies #[trigger] program[j] is Add by {
                assert(stackable(program[at], program[j]));
            }
            lemma_add_run(program, plain, at + by);
            by as nat
        },
        Instruction::Move(_) => {
            lemma_run_stops(program, program[at], at + 1);
            assert(starts_run(program, at));
            assert forall|j: int| at <= j < at + by implies #[trigger] program[j] is Move by {
                assert(stackable(program[at], program[j]));
            }
            let steps = lemma_move_run(program, plain, at + by);
            let end = plain.run(program, steps);
            if end.pc < at + by {
                lemma_steadily_on(program, plain, steps);
                assert forall|j: int| at <= j <= end.pc implies stackable(
                    program[at],
                    #[trigger] program[j],
                ) by {
                    assert(program[j] is Move);
                }
                lemma_run_start(program, at, end.pc);
                assert(end.tape.moved(-total(program, at, end.pc)) == plain.tape);
            }
            steps
        },
        Instruction::JumpIfZero(_) => {
            if is_clear_loop(program, at) {
                lemma_clear_loop(program, plain)
            } else {
                lemma_open_target_agrees(
                    program,
                    optimized,
                    k,
                    optimized[k as int]->JumpIfZero_0,
                );
                lemma_one_step(program, plain);
                1
            }
        },
        Instruction::JumpIfNonZero(_) => {
            lemma_close_target_agrees(
                program,
                optimized,
                k,
                optimized[k as int]->JumpIfNonZero_0,
            );
            lemma_one_step(program, plain);
            1
        },
        _ => {
            lemma_one_step(program, plain);
            1
        },
    }
}

/// The machine of the program has come as far as the machine of the
/// optimized program: it is in step with it, or both are in front of a move
/// that fails in the same way, with the same cells, input and output.
spec fn caught_up(
    program: Seq<Instruction>,
    plain: Machine,
    optimized: Seq<Instruction>,
    reduced: Machine,
) -> bool {
    match reduced.fault(optimized) {
        None => in_step(program, plain, reduced),
        Some(error) => {
            &&& !plain.halted(program)
            &&& plain.fault(program) == Some(error)
            &&& plain.output == reduced.output
            &&& plain.input == reduced.input
            &&& plain.tape.cells == reduced.tape.cells
        },
    }
}

/// From machines that are in step: when the program stops, the optimized
/// program has stopped in the same way, after no more steps.
proof fn lemma_stops_within(
    program: Seq<Instruction>,
    optimized: Seq<Instruction>,
    plain: Machine,
    reduced: Machine,
    steps: nat,
)
    requires
        optimized_from(program, optimized),
        in_step(program, plain, reduced),
        runs_steadily(plain, program),
        plain.run(program, steps).stopped(program),
    ensures
        same_end(program, plain.run(program, steps), optimized, reduced.run(optimized, steps)),
    decreases steps,
{
    lemma_origin(program, reduced.pc as nat);
    if reduced.halted(optimized) {
    } else {
        let block = lemma_replacement(program, optimized, plain, reduced);
        let after = plain.run(program, block);
        lemma_steadily_on(program, plain, block);
        match reduced.fault(optimized) {
            Some(error) => {
                if block <= steps {
                    lemma_run_stays(program, plain, block, steps);
                } else {
                    lemma_run_stays(program, plain, steps, block);
                }
            },
            None => {
                let onward = reduced.next(optimized);
                if steps == 0 {
                    lemma_steadily_on(program, plain, 0);
                } else if block <= steps {
                    lemma_run_split(program, plain, block, (steps - block) as nat);
                    lemma_stops_within(program, optimized, after, onward, (steps - block) as nat);
                    lemma_run_stays(
                        optimized,
                        onward,
                        (steps - block) as nat,
                        (steps - 1) as nat,
                    );
                } else {
                    lemma_run_stays(program, plain, steps, block);
                    lemma_stops_within(program, optimized, after, onward, 0);
                    lemma_run_stays(optimized, onward, 0, (steps - 1) as nat);
                }
            },
        }
    }
}

/// From machines that are in step: wherever the optimized program has come
/// after `steps` steps, the program comes after the number of steps that is
/// returned.
proof fn lemma_catches_up(
    program: Seq<Instruction>,
    optimized: Seq<Instruction>,
    plain: Machine,
    reduced: Machine,
    steps: nat,
) -> (needed: nat)
    requires
        optimized_from(program, optimized),
        in_step(program, plain, reduced),
        runs_steadily(plain, program),
    ensures
        caught_up(program, plain.run(program, needed), optimized, reduced.run(optimized, steps)),
    decreases steps,
{
    if reduced.halted(optimized) || steps == 0 && reduced.fault(optimized) is None {
        0
    } else {
        let block = lemma_replacement(program, optimized, plain, reduced);
        match reduced.fault(optimized) {
            Some(error) => block,
            None => {
                lemma_steadily_on(program, plain, block);
                let rest = lemma_catches_up(
                    program,
                    optimized,
                    plain.run(program, block),
                    reduced.next(optimized),
                    (steps - 1) as nat,
                );
                lemma_run_split(program, plain, block, rest);
                block + rest
            },
        }
    }
}

/// When a program stops, its optimized form has stopped in the same way,
/// after no more steps: with the same result, the same output written, the
/// same input left and the same cells.
pub proof fn lemma_optimized_stops_alike(
    program: Seq<Instruction>,
    optimized: Seq<Instruction>,
    tape: Tape,
    input: Seq<u8>,
    steps: nat,
)
    requires
        optimized_from(program, optimized),
        tape.wf(),
        runs_steadily(Machine::start(tape, input), program),
        Machine::start(tape, input).run(program, steps).stopped(program),
    ensures
        same_end(
            program,
            Machine::start(tape, input).run(program, steps),
            optimized,
            Machine::start(tape, input).run(optimized, steps),
        ),
{
    let start = Machine::start(tape, input);
    lemma_stops_within(program, optimized, start, start, steps);
}

/// When the optimized form of a program stops, the program stops in the
/// same way, after the number of steps that is returned.
pub proof fn lemma_program_stops_alike(
    program: Seq<Instruction>,
    optimized: Seq<Instruction>,
    tape: Tape,
    input: Seq<u8>,
    steps: nat,
) -> (needed: nat)
    requires
        optimized_from(program, optimized),
        tape.wf(),
        runs_steadily(Machine::start(tape, input), program),
        Machine::start(tape, input).run(optimized, steps).stopped(optimized),
    ensures
        same_end(
            program,
            Machine::start(tape, input).run(program, needed),
            optimized,
            Machine::start(tape, input).run(optimized, steps),
        ),
{
    let start = Machine::start(tape, input);
    let needed = lemma_catches_up(program, optimized, start, start, steps);
    lemma_origin(program, start.run(optimized, steps).pc as nat);
    needed
}

/// Whatever the optimized form of a program has written and read after
/// `steps` steps, and whatever its cells hold then, the program has written
/// and read, and its cells hold, after the number of steps that is
/// returned: also in a run that never stops.
pub proof fn lemma_program_keeps_up(
    program: Seq<Instruction>,
    optimized: Seq<Instruction>,
    tape: Tape,
    input: Seq<u8>,
    steps: nat,
) -> (needed: nat)
    requires
        optimized_from(program, optimized),
        tape.wf(),
        runs_steadily(Machine::start(tape, input), program),
    ensures
        ({
            let plain = Machine::start(tape, input).run(program, needed);
            let reduced = Machine::start(tape, input).run(optimized, steps);
            &&& plain.output == reduced.output
            &&& plain.input == reduced.input
            &&& plain.tape.cells == reduced.tape.cells
        }),
{
    let start = Machine::start(tape, input);
    lemma_catches_up(program, optimized, start, start, steps)
}

/// A program stops if and only if its optimized form stops.
pub proof fn lemma_stops_or_runs_on_alike(
    program: Seq<Instruction>,
    optimized: Seq<Instruction>,
    tape: Tape,
    input: Seq<u8>,
)
    requires
        optimized_from(program, optimized),
        tape.wf(),
        runs_steadily(Machine::start(tape, input), program),
    ensures
        (exists|steps: nat| Machine::start(tape, input).run(program, steps).stopped(program)) <==> (
        exists|steps: nat| Machine::start(tape, input).run(optimized, steps).stopped(optimized)),
{
    let start = Machine::start(tape, input);
    if exists|steps: nat| start.run(program, steps).stopped(program) {
        let steps = choose|steps: nat| start.run(program, steps).stopped(program);
        lemma_optimized_stops_alike(program, optimized, tape, input, steps);
    }
    if exists|steps: nat| start.run(optimized, steps).stopped(optimized) {
        let steps = choose|steps: nat| start.run(optimized, steps).stopped(optimized);
        let needed = lemma_program_stops_alike(program, optimized, tape, input, steps);
    }
}

} // verus!

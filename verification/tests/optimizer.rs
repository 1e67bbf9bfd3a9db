use brainwhat::optimizer::runs_fit;
use brainwhat::Instruction::{Add, Clear, JumpIfNonZero, JumpIfZero, Move, Print, Read};
use brainwhat::{optimize, Error, Instruction};

#[test]
fn optimize_empty() {
    assert_eq!(optimize(&[]).unwrap(), vec![]);
}

#[test]
fn optimize_instruction_stacking() {
    let program = [
        Add(1),
        Add(1),
        Add(1),
        Add(1),
        Move(1),
        Move(1),
        Move(1),
        Add(-1),
        Add(-1),
        Add(-1),
        Add(-1),
        Add(-1),
        Move(-1),
        Move(-1),
    ];
    assert_eq!(optimize(&program).unwrap(), vec![Add(4), Move(3), Add(-5), Move(-2)]);
}

#[test]
fn optimize_similar_instruction_stacking() {
    let program = [
        Add(1),
        Add(1),
        Add(1),
        Add(1),
        Add(-1),
        Add(-1),
        Add(-1),
        Add(-1),
        Add(-1),
        Move(1),
        Move(1),
        Move(1),
        Move(-1),
        Move(-1),
    ];
    assert_eq!(optimize(&program).unwrap(), vec![Add(-1), Move(1)]);
}

#[test]
fn optimize_clear_pattern() {
    let program = [Add(1), JumpIfZero(0), Add(-1), JumpIfNonZero(0)];
    assert_eq!(optimize(&program).unwrap(), vec![Add(1), Clear]);
}

#[test]
fn optimize_clear_pattern_in_the_middle() {
    let program = [JumpIfZero(2), Add(-1), JumpIfNonZero(0), Move(1), Print];
    assert_eq!(optimize(&program).unwrap(), vec![Clear, Move(1), Print]);
}

#[test]
fn optimize_keeps_loops_that_only_look_like_clear() {
    let program = [JumpIfZero(3), Add(-1), Add(-1), JumpIfNonZero(0)];
    assert_eq!(
        optimize(&program).unwrap(),
        vec![JumpIfZero(2), Add(-2), JumpIfNonZero(0)]
    );
    let program = [JumpIfZero(2), Add(1), JumpIfNonZero(0)];
    assert_eq!(
        optimize(&program).unwrap(),
        vec![JumpIfZero(2), Add(1), JumpIfNonZero(0)]
    );
    let program = [JumpIfZero(2), Move(-1), JumpIfNonZero(0)];
    assert_eq!(
        optimize(&program).unwrap(),
        vec![JumpIfZero(2), Move(-1), JumpIfNonZero(0)]
    );
}

#[test]
fn optimize_emits_runs_that_cancel() {
    assert_eq!(optimize(&[Add(1), Add(-1)]).unwrap(), vec![Add(0)]);
    assert_eq!(optimize(&[Move(2), Move(-2), Print]).unwrap(), vec![Move(0), Print]);
}

#[test]
fn optimize_does_not_merge_across_other_instructions() {
    assert_eq!(
        optimize(&[Add(1), Print, Add(1), Move(1), Read, Move(1)]).unwrap(),
        vec![Add(1), Print, Add(1), Move(1), Read, Move(1)]
    );
    assert_eq!(optimize(&[Add(2), Move(3), Add(4)]).unwrap(), vec![Add(2), Move(3), Add(4)]);
}

#[test]
fn optimize_keeps_a_clear_that_is_there() {
    assert_eq!(optimize(&[Clear, Add(1), Add(1)]).unwrap(), vec![Clear, Add(2)]);
}

#[test]
fn optimize_link_loops() {
    let program = [
        Add(1),
        Add(1),
        Add(1),
        Add(1),
        JumpIfZero(12),
        Add(-1),
        Move(1),
        Move(1),
        Add(1),
        Add(1),
        Add(1),
        Move(-1),
        Move(-1),
        JumpIfNonZero(4),
    ];
    assert_eq!(
        optimize(&program).unwrap(),
        vec![
            Add(4),
            JumpIfZero(6),
            Add(-1),
            Move(2),
            Add(3),
            Move(-2),
            JumpIfNonZero(1),
        ]
    );
}

#[test]
fn optimize_loop_syntax_errors() {
    let program = [Add(1), JumpIfZero(4), Read, Print];
    assert!(matches!(optimize(&program), Err(Error::Syntax(_))));
}

#[test]
fn optimize_error_messages_name_the_bracket() {
    match optimize(&[Add(1), JumpIfZero(4), Read, Print]) {
        Err(Error::Syntax(message)) => assert_eq!(message, "Unclosed bracket"),
        other => panic!("expected a syntax error, got {:?}", other),
    }
    match optimize(&[Add(1), JumpIfNonZero(4), Read, Print]) {
        Err(Error::Syntax(message)) => assert_eq!(message, "Unexpected closing bracket"),
        other => panic!("expected a syntax error, got {:?}", other),
    }
}

#[test]
fn optimize_real_program() {
    let program = [
        Move(1), Add(1), Add(1), Add(1), Add(1), Add(1), JumpIfZero(25), Add(-1),
        Move(-1), Add(1), Add(1), Add(1), Move(1), Move(1), Add(1), Add(1),
        Add(1), Add(1), Add(1), Add(1), Move(1), Add(1), Add(1), Move(-1),
        Move(-1), JumpIfNonZero(6), Move(-1), JumpIfZero(38), Add(-1), Move(1),
        Add(1), Add(1), Add(1), Add(1), Add(1), Add(1), Add(1), Move(-1),
        JumpIfNonZero(27), Move(1), Add(-1), Print, Add(1), Print, Move(1),
        Add(1), Add(1), Add(1), Print, Move(1), Print,
    ];
    let expected: Vec<Instruction> = vec![
        Move(1), Add(5), JumpIfZero(11), Add(-1), Move(-1), Add(3), Move(2),
        Add(6), Move(1), Add(2), Move(-2), JumpIfNonZero(2), Move(-1),
        JumpIfZero(18), Add(-1), Move(1), Add(7), Move(-1), JumpIfNonZero(13),
        Move(1), Add(-1), Print, Add(1), Print, Move(1), Add(3), Print, Move(1),
        Print,
    ];
    assert_eq!(optimize(&program).unwrap(), expected);
}

#[test]
fn optimize_sums_large_payloads() {
    let program = [Add(isize::MAX), Add(-1), Add(isize::MIN), Add(1)];
    assert!(runs_fit(&program));
    assert_eq!(optimize(&program).unwrap(), vec![Add(-1)]);
    let program = [Move(isize::MAX), Move(1), Move(-2)];
    assert!(runs_fit(&program));
    assert_eq!(optimize(&program).unwrap(), vec![Move(isize::MAX - 1)]);
}

#[test]
fn runs_fit_tells_sums_that_an_instruction_cannot_hold() {
    assert!(runs_fit(&[]));
    assert!(runs_fit(&[Add(isize::MAX), Move(1), Add(1)]));
    assert!(runs_fit(&[Add(isize::MAX), Add(0)]));
    assert!(!runs_fit(&[Add(isize::MAX), Add(1)]));
    assert!(!runs_fit(&[Print, Move(isize::MIN), Move(-1), Print]));
    assert!(!runs_fit(&[Move(1), Add(isize::MIN), Add(isize::MIN)]));
    assert!(runs_fit(&[Move(isize::MIN), Add(isize::MIN)]));
}

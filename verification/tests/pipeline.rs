use std::io::{Read as ByteSource, Write as ByteSink};

use brainwhat::optimizer::runs_fit;
use brainwhat::Instruction::{Add, Clear, JumpIfNonZero, JumpIfZero, Move};
use brainwhat::{optimize, parse, Action, Error, Instruction, Interpreter};

fn drive<I: ByteSource, O: ByteSink>(
    interpreter: &mut Interpreter,
    program: &[Instruction],
    input: &mut I,
    output: &mut O,
) -> Result<(), Error> {
    let mut index = 0;
    while index < program.len() {
        let (next, action) = interpreter.step(program, index)?;
        match action {
            Action::Continue => {}
            Action::Print(byte) => output.write_all(&[byte])?,
            Action::Read => {
                let mut buffer = [0; 1];
                let bytes = input.read(&mut buffer)?;
                interpreter.read_char(if bytes > 0 { Some(buffer[0]) } else { None });
            }
        }
        index = next;
    }
    Ok(())
}

fn chars_of(code: &str) -> Vec<char> {
    code.chars().collect()
}

/// Output, bytes of input left over, and how the run ended.
fn observe(program: &[Instruction], tape: usize, input: &[u8]) -> (Vec<u8>, usize, String) {
    let mut interpreter = Interpreter::new(tape);
    let mut input: &[u8] = input;
    let mut output: Vec<u8> = Vec::new();
    let ended = match drive(&mut interpreter, program, &mut input, &mut output) {
        Ok(()) => "ok".to_string(),
        Err(Error::PointerOverflow) => "overflow".to_string(),
        Err(Error::PointerUnderflow) => "underflow".to_string(),
        Err(other) => format!("{:?}", other),
    };
    (output, input.len(), ended)
}

fn same_behaviour(code: &str, tape: usize, input: &[u8]) {
    let parsed = parse(&chars_of(code)).unwrap();
    assert!(runs_fit(&parsed));
    let optimized = optimize(&parsed).unwrap();
    assert_eq!(observe(&parsed, tape, input), observe(&optimized, tape, input));
}

#[test]
fn three_increments_print_three() {
    let parsed = parse(&chars_of("+++.")).unwrap();
    let optimized = optimize(&parsed).unwrap();
    assert_eq!(optimized, vec![Add(3), Instruction::Print]);
    assert_eq!(observe(&optimized, 65_536, &[]), (vec![3], 0, "ok".to_string()));
    assert_eq!(observe(&parsed, 65_536, &[]), (vec![3], 0, "ok".to_string()));
}

#[test]
fn echo_until_zero() {
    let parsed = parse(&chars_of("+[,.]")).unwrap();
    let input = [9, 8, 7, 6, 5, 4, 3, 2, 1];
    assert_eq!(
        observe(&parsed, 65_536, &input),
        (vec![9, 8, 7, 6, 5, 4, 3, 2, 1, 0], 0, "ok".to_string())
    );
    assert_eq!(
        observe(&parsed, 65_536, &[5, 0, 7]),
        (vec![5, 0], 1, "ok".to_string())
    );
    let optimized = optimize(&parsed).unwrap();
    assert_eq!(
        observe(&optimized, 65_536, &input),
        (vec![9, 8, 7, 6, 5, 4, 3, 2, 1, 0], 0, "ok".to_string())
    );
}

#[test]
fn an_unclosed_bracket_is_a_syntax_error() {
    match parse(&chars_of("+[")) {
        Err(Error::Syntax(message)) => assert_eq!(message, "Unclosed bracket"),
        other => panic!("expected a syntax error, got {:?}", other),
    }
}

#[test]
fn moving_left_of_the_first_cell_underflows() {
    let program = [Move(3), Move(-3), Move(-1)];
    assert_eq!(observe(&program, 65_536, &[]), (vec![], 0, "underflow".to_string()));
    let parsed = parse(&chars_of("<")).unwrap();
    assert_eq!(observe(&parsed, 65_536, &[]), (vec![], 0, "underflow".to_string()));
}

#[test]
fn the_clear_loop_and_clear_leave_zero() {
    let program = [Add(1), JumpIfZero(3), Add(-1), JumpIfNonZero(1)];
    let optimized = optimize(&program).unwrap();
    assert_eq!(optimized, vec![Add(1), Clear]);

    let mut input: &[u8] = &[];
    let mut output: Vec<u8> = Vec::new();
    let mut first = Interpreter::new(65_536);
    drive(&mut first, &program, &mut input, &mut output).unwrap();
    assert_eq!(first.read_memory(), 0);
    let mut second = Interpreter::new(65_536);
    drive(&mut second, &optimized, &mut input, &mut output).unwrap();
    assert_eq!(second.read_memory(), 0);
    assert!(output.is_empty());
}

#[test]
fn the_clear_loop_clears_any_cell() {
    let program = [Instruction::Read, JumpIfZero(3), Add(-1), JumpIfNonZero(1), Instruction::Print];
    for value in [0u8, 1, 2, 127, 128, 255] {
        assert_eq!(observe(&program, 8, &[value]), (vec![0], 0, "ok".to_string()));
    }
}

#[test]
fn optimizing_keeps_the_behaviour() {
    same_behaviour("", 16, &[]);
    same_behaviour("+++.", 16, &[]);
    same_behaviour("+[,.]", 16, &[9, 8, 7, 0, 5]);
    same_behaviour(",[.[-],]", 16, &[101, 99, 104, 111]);
    same_behaviour("++>+++++[<+>-]++++++++[<++++++>-]<.", 16, &[]);
    same_behaviour(",>,<[->+<]>.", 16, &[200, 100]);
    same_behaviour("+-+-.>><<.++--.[-].,[-]+.", 16, &[77]);
    same_behaviour(">>>>>>>>>>>>>>>.>", 16, &[]);
    same_behaviour(">>>>>>>>>>>>>>>>.", 16, &[]);
    same_behaviour(".<<.", 16, &[]);
    same_behaviour("+[>+]", 16, &[]);
    same_behaviour(
        ">+++++[<+++++++++++++++++++++>-]<-.+.>+++[<---------->-]<---.>+++[<------->-]<--.",
        65_536,
        &[],
    );
}

#[test]
fn optimizing_keeps_the_behaviour_of_a_long_program() {
    let code = "
>>>+[[-]>>[-]++>+>+++++++[<++++>>++<-]++>>+>+>+++++[>++>++++++<<-]+>>>,<++[[>[
->>]<[>>]<<-]<[<]<+>>[>]>[<+>-[[<+>-]>]<[[[-]<]++<-[<+++++++++>[<->-]>>]>>]]<<
]<]<[[<]>[[>]>>[>>]+[<<]<[<]<+>>-]>[>]+[->>]<<<<[[<<]<[<]+<<[+>+<<-[>-->+<<-[>
+<[>>+<<-]]]>[<+>-]<]++>>-->[>]>>[>>]]<<[>>+<[[<]<]>[[<<]<[<]+[-<+>>-[<<+>++>-
[<->[<<+>>-]]]<[>+<-]>]>[>]>]>[>>]>>]<<[>>+>>+>>]<<[->>>>>>>>]<<[>.>>>>>>>]<<[
>->>>>>]<<[>,>>>]<<[>+>]<<[+<<]<]
";
    same_behaviour(code, 65_536, b"++++++++[>++++++++<-]>+.+.+.!");
    same_behaviour(code, 65_536, b",[.,]!echo");
}

#[test]
fn a_move_that_comes_back_differs_at_the_edge_of_the_tape() {
    let parsed = parse(&chars_of("<>.")).unwrap();
    let optimized = optimize(&parsed).unwrap();
    assert_eq!(optimized, vec![Move(0), Instruction::Print]);
    assert_eq!(observe(&parsed, 16, &[]), (vec![], 0, "underflow".to_string()));
    assert_eq!(observe(&optimized, 16, &[]), (vec![0], 0, "ok".to_string()));
}

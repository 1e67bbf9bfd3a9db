use brainwhat::{optimize, parse, Instruction};

fn program_to_chars(program: &[Instruction]) -> Vec<char> {
    program
        .into_iter()
        .fold(Vec::new(), |mut result, instruction| {
            result.extend(instruction.to_string().chars());
            result
        })
}

#[test]
fn test_display() {
    // this program is perfect for this test because it contains every
    // instruction, nested loops and comments
    let source_code = "
>>>+[[-]>>[-]++>+>+++++++[<++++>>++<-]++>>+>+>+++++[>++>++++++<<-]+>>>,<++[[>[
->>]<[>>]<<-]<[<]<+>>[>]>[<+>-[[<+>-]>]<[[[-]<]++<-[<+++++++++>[<->-]>>]>>]]<<
]<]<[[<]>[[>]>>[>>]+[<<]<[<]<+>>-]>[>]+[->>]<<<<[[<<]<[<]+<<[+>+<<-[>-->+<<-[>
+<[>>+<<-]]]>[<+>-]<]++>>-->[>]>>[>>]]<<[>>+<[[<]<]>[[<<]<[<]+[-<+>>-[<<+>++>-
[<->[<<+>>-]]]<[>+<-]>]>[>]>]>[>>]>>]<<[>>+>>+>>]<<[->>>>>>>>]<<[>.>>>>>>>]<<[
>->>>>>]<<[>,>>>]<<[>+>]<<[+<<]<]
[input a brainfuck program and its input, separated by an exclamation point.
Daniel B Cristofani (cristofdathevanetdotcom)
http://www.hevanet.com/cristofd/brainfuck/]
";
    let source_code_chars = source_code.chars().collect::<Vec<_>>();

    let expected_code_chars = source_code_chars
        .clone()
        .into_iter()
        .filter(|chr| match chr {
            '>' | '<' | '+' | '-' | '.' | ',' | '[' | ']' => true,
            _ => false,
        })
        .collect::<Vec<char>>();

    let parsed_program = parse(&source_code_chars).unwrap();
    assert_eq!(program_to_chars(&parsed_program), expected_code_chars);

    let optimized_program = optimize(&parsed_program).unwrap();
    assert_eq!(program_to_chars(&optimized_program), expected_code_chars);
}

#[test]
fn display_of_each_instruction() {
    assert_eq!(Instruction::Move(3).to_string(), ">>>");
    assert_eq!(Instruction::Move(-2).to_string(), "<<");
    assert_eq!(Instruction::Move(0).to_string(), "");
    assert_eq!(Instruction::Add(4).to_string(), "++++");
    assert_eq!(Instruction::Add(-1).to_string(), "-");
    assert_eq!(Instruction::Add(0).to_string(), "");
    assert_eq!(Instruction::Print.to_string(), ".");
    assert_eq!(Instruction::Read.to_string(), ",");
    assert_eq!(Instruction::JumpIfZero(7).to_string(), "[");
    assert_eq!(Instruction::JumpIfNonZero(2).to_string(), "]");
    assert_eq!(Instruction::Clear.to_string(), "[-]");
}

#[test]
fn display_of_optimized_clear_loops() {
    let source: Vec<char> = "+[-]>[-]".chars().collect();
    let parsed = parse(&source).unwrap();
    let optimized = optimize(&parsed).unwrap();
    assert_eq!(
        optimized,
        vec![
            Instruction::Add(1),
            Instruction::Clear,
            Instruction::Move(1),
            Instruction::Clear
        ]
    );
    assert_eq!(program_to_chars(&optimized), source);
}

#[test]
fn display_shrinks_where_a_run_cancels() {
    let source: Vec<char> = "+-".chars().collect();
    let parsed = parse(&source).unwrap();
    assert_eq!(program_to_chars(&parsed), source);
    let optimized = optimize(&parsed).unwrap();
    assert_eq!(optimized, vec![Instruction::Add(0)]);
    assert_eq!(program_to_chars(&optimized), Vec::<char>::new());
}

#[test]
fn instructions_compare_by_variant_and_payload() {
    assert_eq!(Instruction::Add(1), Instruction::Add(1));
    assert_ne!(Instruction::Add(1), Instruction::Add(2));
    assert_ne!(Instruction::Add(1), Instruction::Move(1));
    assert_ne!(Instruction::JumpIfZero(1), Instruction::JumpIfNonZero(1));
    assert_eq!(Instruction::Clear, Instruction::Clear);
}

use rustybf::parser::{parse, Instruction, Position};
use rustybf::interpreter::Interpreter;
use rustybf::optimizer::Optimizer;
use rustybf::BrainfuckError;

fn run_prog(prog: &str, input: &str) -> Vec<u8> {
    let instructions = parse(prog.as_bytes()).unwrap();
    let mut interpreter = Interpreter::builder()
        .input(input.as_bytes().to_vec())
        .output(Vec::new())
        .build();
    interpreter.run(&instructions).unwrap();
    interpreter.output().unwrap().clone()
}

fn run_prog_optimized(prog: &str, input: &str) -> Vec<u8> {
    let instructions = parse(prog.as_bytes()).unwrap();
    let instructions = Optimizer::with_passes_str("all").unwrap().run(instructions);
    let mut interpreter = Interpreter::builder()
        .input(input.as_bytes().to_vec())
        .output(Vec::new())
        .build();
    interpreter.run(&instructions).unwrap();
    interpreter.output().unwrap().clone()
}

fn assert_prog(prog: &str, input: &str, expected_output: &str) {
    assert_eq!(run_prog(prog, input).as_slice(), expected_output.as_bytes());
    assert_eq!(
        run_prog_optimized(prog, input).as_slice(),
        expected_output.as_bytes()
    );
}

#[test]
fn test_simple1() {
    let prog = r#"
        ++       Cell c0 = 2
        > +++++  Cell c1 = 5

        [            Start your loops with your cell pointer on the loop counter (c1 in our case)
            < +      Add 1 to c0
            > -      Subtract 1 from c1
        ]            End your loops with the cell pointer on the loop counter

        At this point our program has added 5 to 2 leaving 7 in c0 and 0 in c1
        but we cannot output this value to the terminal since it is not ASCII encoded!

        To display the ASCII character "7" we must add 48 to the value 7

        48 = 6 * 8 so let's use another loop to help us!

        ++++ ++++      c1 = 8 and this will be our loop counter again
        [
            < +++ +++  Add 6 to c0
            > -        Subtract 1 from c1
        ]
        < .            Print out c0 which has the value 55 which translates to "7"!
    "#;

    assert_prog(prog, "", "7");
}

#[test]
fn test_simple2() {
    let prog = r#"
        ++++++++[>++++[>++>+++>+++>+<<<<-]>+>+>->>+[<]<-]>>.>---.+++++++..+++.>>.<-.<.+++.------.--------.>>+.>++.
    "#;

    assert_prog(prog, "", "Hello World!\n");
}

#[test]
fn test_input() {
    let prog = ",+.,+.";
    assert_prog(prog, "AB", "BC");
}

#[test]
fn test_underflow() {
    let instructions = parse("<".as_bytes()).unwrap();
    let result = Interpreter::new().run(&instructions);
    assert!(result.is_err());
    assert!(matches!(result, Err(BrainfuckError::TapeUnderflow)));
}

#[test]
fn test_overflow() {
    let instructions = parse(">>".as_bytes()).unwrap();
    let result = Interpreter::builder().tape_size(2).build().run(&instructions);
    assert!(result.is_err());
    assert!(matches!(result, Err(BrainfuckError::TapeOverflow)));
}

#[test]
fn test_digit_nine() {
    assert_prog("+++++++[>++++++++<-]>+.", "", "9");
}

#[test]
fn test_input_exhausted_is_io_error() {
    let instructions = parse(",,".as_bytes()).unwrap();
    let mut interpreter = Interpreter::builder()
        .input("A".as_bytes().to_vec())
        .output(Vec::new())
        .build();
    assert!(matches!(
        interpreter.run(&instructions),
        Err(BrainfuckError::IoError)
    ));
}

#[test]
fn test_input_without_stream_writes_zero() {
    // Without a configured input, `,` writes 0 into the current cell.
    let instructions = parse("+++,".as_bytes()).unwrap();
    let mut interpreter = Interpreter::new();
    interpreter.run(&instructions).unwrap();
    assert_eq!(interpreter.tape()[0], 0);
    assert_eq!(interpreter.tape_position(), 0);
}

#[test]
fn test_wrapping_cell_arithmetic() {
    // 255 increments followed by one more wrap to zero; `-` on zero wraps
    // to 255.
    let mut plus_255_wrap = String::new();
    for _ in 0..256 {
        plus_255_wrap.push('+');
    }
    let instructions = parse(plus_255_wrap.as_bytes()).unwrap();
    let mut interpreter = Interpreter::new();
    interpreter.run(&instructions).unwrap();
    assert_eq!(interpreter.tape()[0], 0);

    let instructions = parse("-".as_bytes()).unwrap();
    let mut interpreter = Interpreter::new();
    interpreter.run(&instructions).unwrap();
    assert_eq!(interpreter.tape()[0], 255);
}

#[test]
fn test_tape_state_after_run() {
    let instructions = parse("++>+++>+".as_bytes()).unwrap();
    let mut interpreter = Interpreter::builder().tape_size(4).build();
    interpreter.run(&instructions).unwrap();
    assert_eq!(interpreter.tape().as_slice(), &[2, 3, 1, 0]);
    assert_eq!(interpreter.tape_position(), 2);
}

#[test]
fn test_mul_instruction_semantics() {
    let p = Position { start: 0, end: 0 };
    // tape[0] = 3, then Mul { offset: 2, amount: 5 }: tape[2] += 3 * 5.
    let instructions = vec![
        Instruction::Add { amount: 3, position: p },
        Instruction::Mul { offset: 2, amount: 5, position: p },
    ];
    let mut interpreter = Interpreter::builder().tape_size(4).build();
    interpreter.run(&instructions).unwrap();
    assert_eq!(interpreter.tape().as_slice(), &[3, 0, 15, 0]);

    // On a zero cell, Mul is a no-op even when the target would fall off
    // the tape.
    let instructions = vec![Instruction::Mul { offset: -7, amount: 1, position: p }];
    let mut interpreter = Interpreter::builder().tape_size(4).build();
    assert!(interpreter.run(&instructions).is_ok());

    // On a nonzero cell, a Mul whose target falls off the tape faults.
    let instructions = vec![
        Instruction::Add { amount: 1, position: p },
        Instruction::Mul { offset: -7, amount: 1, position: p },
    ];
    let mut interpreter = Interpreter::builder().tape_size(4).build();
    assert!(matches!(
        interpreter.run(&instructions),
        Err(BrainfuckError::TapeUnderflow)
    ));
}

#[test]
fn test_clear_instruction_semantics() {
    let p = Position { start: 0, end: 0 };
    let instructions = vec![
        Instruction::Add { amount: 9, position: p },
        Instruction::Clear { position: p },
    ];
    let mut interpreter = Interpreter::builder().tape_size(2).build();
    interpreter.run(&instructions).unwrap();
    assert_eq!(interpreter.tape().as_slice(), &[0, 0]);
}

#[test]
fn test_output_without_stream_is_noop() {
    let instructions = parse("+.".as_bytes()).unwrap();
    let mut interpreter = Interpreter::new();
    interpreter.run(&instructions).unwrap();
    assert!(interpreter.output().is_none());
    assert!(interpreter.input().is_none());
}

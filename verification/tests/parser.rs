use rustybf::parser::{parse, Instruction, Position};
use rustybf::BrainfuckError;

fn pos(i: usize) -> Position {
    Position { start: i, end: i }
}

#[test]
fn test_empty_program() {
    assert_eq!(parse("".as_bytes()).unwrap(), vec![]);
}

#[test]
fn test_simple_parse() {
    assert_eq!(
        parse("+-><.,".as_bytes()).unwrap(),
        vec![
            Instruction::Add { amount: 1, position: pos(0) },
            Instruction::Add { amount: u8::MAX, position: pos(1) },
            Instruction::Move { offset: 1, position: pos(2) },
            Instruction::Move { offset: -1, position: pos(3) },
            Instruction::Output { position: pos(4) },
            Instruction::Input { position: pos(5) },
        ]
    );
}

#[test]
fn test_empty_loop() {
    assert_eq!(
        parse("[]".as_bytes()).unwrap(),
        vec![Instruction::Loop { body: vec![], position: Position { start: 0, end: 1 } }]
    );
}

#[test]
fn test_nested_loop() {
    assert_eq!(
        parse("[+[,][+[.]-]-]".as_bytes()).unwrap(),
        vec![Instruction::Loop {
            position: Position { start: 0, end: 13 },
            body: vec![
                Instruction::Add { amount: 1, position: pos(1) },
                Instruction::Loop {
                    position: Position { start: 2, end: 4 },
                    body: vec![Instruction::Input { position: pos(3) }],
                },
                Instruction::Loop {
                    position: Position { start: 5, end: 11 },
                    body: vec![
                        Instruction::Add { amount: 1, position: pos(6) },
                        Instruction::Loop {
                            position: Position { start: 7, end: 9 },
                            body: vec![Instruction::Output { position: pos(8) }],
                        },
                        Instruction::Add { amount: u8::MAX, position: pos(10) },
                    ],
                },
                Instruction::Add { amount: u8::MAX, position: pos(12) },
            ],
        }]
    );
}

#[test]
fn test_mismatched_brackets() {
    assert!(parse("[".as_bytes()).is_err());
    assert!(parse("]".as_bytes()).is_err());
    assert!(parse("[[]".as_bytes()).is_err());
    assert!(parse("[][".as_bytes()).is_err());
    assert!(parse("[[]".as_bytes()).is_err());
    assert!(parse("[]]".as_bytes()).is_err());
    assert!(parse("[[".as_bytes()).is_err());
}

#[test]
fn test_comments_are_ignored() {
    // Adding comment bytes between tokens changes positions only.
    let with_comments = parse("a+b- c> d< e. f, g".as_bytes()).unwrap();
    let without = parse("+-><.,".as_bytes()).unwrap();
    assert_eq!(with_comments.len(), without.len());
    for (a, b) in with_comments.iter().zip(without.iter()) {
        match (a, b) {
            (
                Instruction::Add { amount: x, .. },
                Instruction::Add { amount: y, .. },
            ) => assert_eq!(x, y),
            (
                Instruction::Move { offset: x, .. },
                Instruction::Move { offset: y, .. },
            ) => assert_eq!(x, y),
            (Instruction::Output { .. }, Instruction::Output { .. }) => {}
            (Instruction::Input { .. }, Instruction::Input { .. }) => {}
            _ => panic!("token streams differ"),
        }
    }
}

#[test]
fn test_unmatched_close_offset() {
    match parse("++]".as_bytes()) {
        Err(BrainfuckError::ParseError { position, .. }) => {
            assert_eq!(position, pos(2));
        }
        other => panic!("expected a parse error, got {:?}", other),
    }
}

#[test]
fn test_unmatched_open_offset() {
    // The outermost bracket still open at end of input is reported.
    match parse("+[[]".as_bytes()) {
        Err(BrainfuckError::ParseError { position, .. }) => {
            assert_eq!(position, pos(1));
        }
        other => panic!("expected a parse error, got {:?}", other),
    }
}

#[test]
fn test_position_merge() {
    let a = Position { start: 3, end: 5 };
    let b = Position { start: 1, end: 4 };
    assert_eq!(a.merge(b), Position { start: 1, end: 5 });
    assert_eq!(Position::from(7), pos(7));
}

#[test]
fn test_instruction_predicates() {
    let lp = Instruction::Loop { body: vec![], position: pos(0) };
    let clear = Instruction::Clear { position: pos(0) };
    let mul = Instruction::Mul { offset: 1, amount: 2, position: pos(0) };
    let add = Instruction::Add { amount: 1, position: pos(4) };
    assert!(lp.is_loop() && clear.is_loop() && mul.is_loop());
    assert!(!add.is_loop());
    assert!(lp.clears_current_cell() && clear.clears_current_cell());
    assert!(!mul.clears_current_cell() && !add.clears_current_cell());
    assert_eq!(add.position(), pos(4));
}

#[test]
fn test_print_instruction_is_nonempty() {
    let instructions = parse("+-><.,[+[-]]".as_bytes()).unwrap();
    for i in &instructions {
        let text = rustybf::parser::print_instruction(i, 0);
        assert!(!text.is_empty());
        let indented = rustybf::parser::print_instruction(i, 2);
        assert!(indented.len() >= text.len());
    }
    // A loop renders its body on indented lines between braces.
    let rendered = rustybf::parser::print_instruction(&instructions[6], 0);
    assert!(rendered.starts_with("Loop {"));
    assert!(rendered.ends_with("}"));
    assert!(rendered.contains("    Add(1)"));
    assert!(rendered.contains("Clear") || rendered.contains("Add(255)"));
    // Signed offsets keep their sign; amounts are decimal.
    let move_text = rustybf::parser::print_instruction(&instructions[2], 0);
    assert_eq!(move_text, "Move <+1>");
    let back_text = rustybf::parser::print_instruction(&instructions[3], 0);
    assert_eq!(back_text, "Move <-1>");
}

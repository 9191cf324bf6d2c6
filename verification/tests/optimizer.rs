use rustybf::parser::{parse, Instruction, Position};
use rustybf::optimizer::{Optimizer, Pass, PassKind, default_optimization_passes};
use rustybf::optimizer::passes::{recognize_mul_loop, collapse_increments, clear_loops, mul_loops,
    remove_dead_code_inner, CollapseIncrements, ClearLoops, MulLoops, DeadCode};
use rustybf::BrainfuckError;
use rustybf::interpreter::Interpreter;

fn p(s: &str) -> Vec<Instruction> {
    parse(s.as_bytes()).unwrap()
}

#[test]
fn test_recognize_mul_loop() {
    // Empty loop
    assert_eq!(recognize_mul_loop(&p("-")).unwrap(), vec![]);

    // Loop with single multiplication
    assert_eq!(recognize_mul_loop(&p("->+<")).unwrap(), vec![(1, 1)]);
    assert_eq!(recognize_mul_loop(&p("->++<")).unwrap(), vec![(1, 2)]);

    // Loop with more than one single multiplication
    assert_eq!(recognize_mul_loop(&p("->+>+<<")).unwrap(), vec![(1, 1), (2, 1)]);
    assert_eq!(recognize_mul_loop(&p("->++>+++<<")).unwrap(), vec![(1, 2), (2, 3)]);

    // Negative offsets
    assert_eq!(recognize_mul_loop(&p("-<+>")).unwrap(), vec![(-1, 1)]);
    assert_eq!(recognize_mul_loop(&p("-<+>>+<")).unwrap(), vec![(-1, 1), (1, 1)]);

    // Strange loops with interleaving sums
    assert_eq!(
        recognize_mul_loop(&p("->>++<++++>+>++<<<<-->")).unwrap(),
        vec![(-1, 254 /* = -2 */), (1, 4), (2, 3), (3, 2)]
    );

    // Loops must not start with a `-`
    assert_eq!(recognize_mul_loop(&p(">+<->+<")).unwrap(), vec![(1, 2)]);

    // Now a couple of tests on invalid loops
    assert!(recognize_mul_loop(&p("")).is_none());
    assert!(recognize_mul_loop(&p("+")).is_none());
    assert!(recognize_mul_loop(&p("--")).is_none());
    assert!(recognize_mul_loop(&p("->")).is_none());
    assert!(recognize_mul_loop(&p("-<")).is_none());
    assert!(recognize_mul_loop(&p("->+<+")).is_none());
}

#[test]
fn test_initial_loop_is_dead() {
    // An initial loop can never run: the tape starts all zero.
    let optimizer = Optimizer::with_passes_str("all").unwrap();
    let optimized = optimizer.run(p("[+++]"));
    assert_eq!(optimized, vec![]);
}

#[test]
fn test_unknown_pass_name() {
    match Optimizer::with_passes_str("no-such-pass") {
        Err(BrainfuckError::UnknownOptimizationPass(name)) => {
            assert_eq!(name, "no-such-pass");
        }
        other => panic!("expected an unknown-pass error, got {:?}", other.is_ok()),
    }
    // The first unknown name of the list is reported.
    match Optimizer::with_passes_str("dead-code,bogus,mul-loops") {
        Err(BrainfuckError::UnknownOptimizationPass(name)) => {
            assert_eq!(name, "bogus");
        }
        other => panic!("expected an unknown-pass error, got {:?}", other.is_ok()),
    }
    // Lookup is case-sensitive.
    assert!(Optimizer::with_passes_str("Dead-Code").is_err());
}

#[test]
fn test_pass_selectors() {
    assert_eq!(Optimizer::with_passes_str("none").unwrap().passes().len(), 0);
    assert_eq!(
        Optimizer::with_passes_str("all").unwrap().passes().as_slice(),
        &[PassKind::DeadCode, PassKind::CollapseIncrements, PassKind::MulLoops]
    );
    assert_eq!(
        Optimizer::with_passes_str("clear-loops,collapse-increments")
            .unwrap()
            .passes()
            .as_slice(),
        &[PassKind::ClearLoops, PassKind::CollapseIncrements]
    );
    assert_eq!(
        default_optimization_passes().as_slice(),
        &[PassKind::DeadCode, PassKind::CollapseIncrements, PassKind::MulLoops]
    );
    let optimizer = Optimizer::with_passes(vec![PassKind::ClearLoops]);
    assert_eq!(optimizer.passes().as_slice(), &[PassKind::ClearLoops]);
}

#[test]
fn test_pass_names() {
    assert_eq!(CollapseIncrements.name(), "collapse-increments");
    assert_eq!(ClearLoops.name(), "clear-loops");
    assert_eq!(MulLoops.name(), "mul-loops");
    assert_eq!(DeadCode.name(), "dead-code");
}

#[test]
fn test_collapse_increments_fuses_runs() {
    let pos = |start: usize, end: usize| Position { start, end };
    assert_eq!(
        collapse_increments(p("+++")),
        vec![Instruction::Add { amount: 3, position: pos(0, 2) }]
    );
    assert_eq!(
        collapse_increments(p(">><")),
        vec![Instruction::Move { offset: 1, position: pos(0, 2) }]
    );
    // `+-` fuses to a null Add; collapse keeps it, dead-code removes it.
    assert_eq!(
        collapse_increments(p("+-")),
        vec![Instruction::Add { amount: 0, position: pos(0, 1) }]
    );
    // Fusion does not cross other instructions.
    assert_eq!(collapse_increments(p("+.+")).len(), 3);
    // Loop bodies are collapsed too.
    assert_eq!(
        collapse_increments(p("[--]")),
        vec![Instruction::Loop {
            body: vec![Instruction::Add { amount: 254, position: pos(1, 2) }],
            position: pos(0, 3),
        }]
    );
    // The pass never increases the number of instructions.
    let before = p("+++>><<<---[+++.---]");
    let n = before.len();
    assert!(collapse_increments(before).len() <= n);
}

#[test]
fn test_clear_loops_rewrites_idiom() {
    let out = clear_loops(p("+[-]"));
    assert_eq!(
        out,
        vec![
            Instruction::Add { amount: 1, position: Position { start: 0, end: 0 } },
            Instruction::Clear { position: Position { start: 1, end: 3 } },
        ]
    );
    // `[+]` is not the idiom; `[--]` neither.
    assert_eq!(clear_loops(p("+[+]")).len(), 2);
    assert!(matches!(clear_loops(p("+[+]"))[1], Instruction::Loop { .. }));
    assert!(matches!(clear_loops(p("+[--]"))[1], Instruction::Loop { .. }));
    // The idiom is rewritten inside outer loops as well.
    let out = clear_loops(p("+[>[-]<]"));
    match &out[1] {
        Instruction::Loop { body, .. } => {
            assert!(matches!(body[1], Instruction::Clear { .. }));
        }
        other => panic!("expected a loop, got {:?}", other),
    }
}

#[test]
fn test_mul_loops_rewrites_recognized_loop() {
    // One Mul per entry plus one Clear.
    let out = mul_loops(p("+[->+>+<<]"));
    assert_eq!(out.len(), 4);
    assert!(matches!(out[0], Instruction::Add { amount: 1, .. }));
    assert!(matches!(out[1], Instruction::Mul { offset: 1, amount: 1, .. }));
    assert!(matches!(out[2], Instruction::Mul { offset: 2, amount: 1, .. }));
    assert!(matches!(out[3], Instruction::Clear { .. }));

    // A loop with I/O is left alone, but its body is still visited.
    let out = mul_loops(p("+[.[-]]"));
    assert_eq!(out.len(), 2);
    match &out[1] {
        Instruction::Loop { body, .. } => {
            assert!(matches!(body[0], Instruction::Output { .. }));
            assert!(matches!(body[1], Instruction::Clear { .. }));
        }
        other => panic!("expected a loop, got {:?}", other),
    }
}

#[test]
fn test_dead_code_rules() {
    // Null increments are removed (after collapse created them).
    let collapsed = collapse_increments(p("+-><"));
    assert_eq!(remove_dead_code_inner(collapsed, true), vec![]);

    // Leading loops are dead at the top level only.
    assert_eq!(remove_dead_code_inner(p("[.][,]"), true), vec![]);
    let kept = remove_dead_code_inner(p("+[.[,]]"), true);
    assert_eq!(kept.len(), 2);

    // A loop right after a clearing instruction is dead.
    let out = remove_dead_code_inner(p("+[.][,]"), true);
    assert_eq!(out.len(), 2);
    assert!(matches!(out[1], Instruction::Loop { .. }));
}

#[test]
fn test_optimizer_runs_passes_in_order() {
    // dead-code, collapse-increments, mul-loops: a second round removes
    // the null increments the first round's collapse created.
    let optimizer = Optimizer::with_passes_str("all").unwrap();
    assert_eq!(optimizer.run(p("+-")), vec![]);

    // With no passes the instructions come back unchanged.
    let optimizer = Optimizer::with_passes_str("none").unwrap();
    assert_eq!(optimizer.run(p("+-")).len(), 2);
}

#[test]
fn test_optimized_program_still_runs() {
    let instructions = Optimizer::with_passes_str("all")
        .unwrap()
        .run(p("+++++++[>++++++++<-]>+."));
    // The mul-loop must have disappeared into Mul/Clear instructions.
    assert!(instructions.iter().all(|i| !matches!(i, Instruction::Loop { .. })));
    let mut interpreter = Interpreter::builder().output(Vec::new()).build();
    interpreter.run(&instructions).unwrap();
    assert_eq!(interpreter.output().unwrap().as_slice(), "9".as_bytes());
}

#[test]
fn test_trailing_comma_is_unknown_name() {
    // `split(',')` semantics: "dead-code," has an empty trailing segment,
    // which is not a registered name.
    match Optimizer::with_passes_str("dead-code,") {
        Err(BrainfuckError::UnknownOptimizationPass(name)) => assert_eq!(name, ""),
        other => panic!("expected an unknown-pass error, got {:?}", other.is_ok()),
    }
}

#[test]
fn test_mul_rewrite_preserves_behaviour() {
    // The rewritten program computes the same tape as the loop it
    // replaces, cell by cell.
    let program = "+++++[->++>+++<<]>";
    let plain = p(program);
    let optimized = Optimizer::with_passes_str("all").unwrap().run(p(program));
    let mut a = Interpreter::builder().tape_size(8).build();
    a.run(&plain).unwrap();
    let mut b = Interpreter::builder().tape_size(8).build();
    b.run(&optimized).unwrap();
    assert_eq!(a.tape(), b.tape());
    assert_eq!(a.tape_position(), b.tape_position());
    assert_eq!(a.tape().as_slice(), &[0, 10, 15, 0, 0, 0, 0, 0]);
}

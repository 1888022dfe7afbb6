use bfjit::tokenizer::{optimize, tokenizer, Token, TokenizerErrorKind};
use bfjit::vm::{Step, VmError, MEMORY_SIZE, VM};

/// Runs `vm` to the end on `input`, collecting what it writes.
fn drive(vm: &mut VM, input: &[u8]) -> (Result<(), VmError>, Vec<u8>) {
    let mut out = Vec::new();
    let mut pos = 0;
    loop {
        match vm.step() {
            Ok(Step::Halted) => return (Ok(()), out),
            Ok(Step::Ran) => {}
            Ok(Step::Output(b)) => out.push(b),
            Ok(Step::Input) => {
                let b = input.get(pos).copied();
                if b.is_some() {
                    pos += 1;
                }
                vm.feed_input(b);
            }
            Err(e) => return (Err(e), out),
        }
    }
}

fn build_unoptimized(src: &str) -> VM {
    VM::new(tokenizer(src).unwrap()).ok().unwrap()
}

#[test]
fn sixty_five_increments_print_a() {
    let src = format!("{}.", "+".repeat(65));
    let mut vm = VM::build(&src).ok().unwrap();
    assert_eq!(vm.program(), &vec![Token::IncrementData(65), Token::Output]);
    let (r, out) = drive(&mut vm, &[]);
    assert!(r.is_ok());
    assert_eq!(out, vec![65u8]);
}

#[test]
fn empty_source_is_refused() {
    assert!(matches!(VM::build(""), Err(VmError::InstructionIsNull)));
    assert!(matches!(VM::build("only comments\n here"), Err(VmError::InstructionIsNull)));
    assert!(matches!(VM::new(vec![]), Err(VmError::InstructionIsNull)));
}

#[test]
fn structural_errors_pass_through_build() {
    match VM::build("+]") {
        Err(VmError::Token(e)) => {
            assert_eq!(e.kind, TokenizerErrorKind::UncloseLeftBracket);
            assert_eq!((e.line, e.col), (1, 2));
        }
        _ => panic!(),
    }
    match VM::build("[") {
        Err(VmError::Token(e)) => assert_eq!(e.kind, TokenizerErrorKind::UncloseRightBracket),
        _ => panic!(),
    }
}

#[test]
fn new_machine_starts_zeroed() {
    let vm = VM::build("+").ok().unwrap();
    assert_eq!(vm.pc(), 0);
    assert_eq!(vm.pointer(), 0);
    assert_eq!(vm.memory_len(), MEMORY_SIZE);
    assert_eq!(vm.cell(0), 0);
    assert_eq!(vm.cell(MEMORY_SIZE - 1), 0);
}

#[test]
fn byte_increments_wrap() {
    let src = "+".repeat(254 + 5);
    let mut vm = build_unoptimized(&src);
    let (r, _) = drive(&mut vm, &[]);
    assert!(r.is_ok());
    assert_eq!(vm.cell(0), 3);

    let mut vm = VM::build(&src).ok().unwrap();
    let (r, _) = drive(&mut vm, &[]);
    assert!(r.is_ok());
    assert_eq!(vm.cell(0), 3);
}

#[test]
fn byte_decrements_wrap() {
    let mut vm = VM::build("---").ok().unwrap();
    let (r, _) = drive(&mut vm, &[]);
    assert!(r.is_ok());
    assert_eq!(vm.cell(0), 253);
}

#[test]
fn pointer_below_zero_fails_at_once() {
    let mut vm = VM::build("+<+").ok().unwrap();
    assert_eq!(vm.step().ok(), Some(Step::Ran));
    assert!(matches!(vm.step(), Err(VmError::PointerOverFlow)));
    assert_eq!(vm.pc(), 1);
    assert_eq!(vm.pointer(), 0);
    assert_eq!(vm.cell(0), 1);
}

#[test]
fn pointer_past_memory_fails() {
    let mut vm = VM::new(vec![Token::IncrementPointer(MEMORY_SIZE), Token::Output]).ok().unwrap();
    let (r, out) = drive(&mut vm, &[]);
    assert!(matches!(r, Err(VmError::PointerOverFlow)));
    assert!(out.is_empty());
    assert_eq!(vm.pc(), 0);

    let mut vm = VM::new(vec![Token::IncrementPointer(MEMORY_SIZE - 1), Token::Output]).ok().unwrap();
    let (r, out) = drive(&mut vm, &[]);
    assert!(r.is_ok());
    assert_eq!(out, vec![0]);
    assert_eq!(vm.pointer(), MEMORY_SIZE - 1);
}

#[test]
fn pointer_moves_back_and_forth() {
    let mut vm = VM::build(">>>+<<").ok().unwrap();
    let (r, _) = drive(&mut vm, &[]);
    assert!(r.is_ok());
    assert_eq!(vm.pointer(), 1);
    assert_eq!(vm.cell(3), 1);
}

#[test]
fn input_at_end_keeps_cell() {
    let mut vm = VM::build("+++,.").ok().unwrap();
    let (r, out) = drive(&mut vm, &[]);
    assert!(r.is_ok());
    assert_eq!(out, vec![3]);
    assert_eq!(vm.cell(0), 3);
}

#[test]
fn input_is_echoed() {
    let mut vm = VM::build(",.,.").ok().unwrap();
    let (r, out) = drive(&mut vm, b"hi");
    assert!(r.is_ok());
    assert_eq!(out, b"hi".to_vec());
}

#[test]
fn step_waits_for_input() {
    let mut vm = VM::build(",").ok().unwrap();
    assert_eq!(vm.step().ok(), Some(Step::Input));
    assert_eq!(vm.pc(), 0);
    vm.feed_input(Some(9));
    assert_eq!(vm.cell(0), 9);
    assert_eq!(vm.pc(), 1);
    assert_eq!(vm.step().ok(), Some(Step::Halted));
}

#[test]
fn loops_move_values() {
    let mut vm = VM::build("++[->+++<]>.").ok().unwrap();
    let (r, out) = drive(&mut vm, &[]);
    assert!(r.is_ok());
    assert_eq!(out, vec![6]);
}

#[test]
fn loop_on_zero_cell_is_skipped() {
    let mut vm = VM::build("[+++.]+.").ok().unwrap();
    let (r, out) = drive(&mut vm, &[]);
    assert!(r.is_ok());
    assert_eq!(out, vec![1]);
}

#[test]
fn optimized_and_plain_programs_agree() {
    let src = "++++++++[>++++[>++>+++>+++>+<<<<-]>+>+>->>+[<]<-]>>.>---.+++++++..+++.>>.<-.<.+++.------.--------.>>+.>++.,[.[-],]";
    let input = b"xyz";
    let mut plain = build_unoptimized(src);
    let (r1, out1) = drive(&mut plain, input);
    let mut tokens = tokenizer(src).unwrap();
    optimize(&mut tokens);
    let mut fast = VM::new(tokens).ok().unwrap();
    let (r2, out2) = drive(&mut fast, input);
    assert!(r1.is_ok() && r2.is_ok());
    assert_eq!(out1, out2);
    assert_eq!(&out1[..13], b"Hello World!\n");
    assert_eq!(&out1[13..], b"xyz");
}

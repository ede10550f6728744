use bf_compiler::{
    add_wrapping, compile_plan, fold, interpret, lower, match_brackets, plan_wrap, wrap_position,
    Action, Instruction, IrOp, Machine, RunError, Wrap, TAPE_LEN,
};

const HELLO: &[u8] = b"++++++++[>++++[>++>+++>+++>+<<<<-]>+>+>->>+[<]<-]>>.>---.+++++++..+++.>>.<-.<.+++.------.--------.>>+.>++.";

fn machine_for(source: &[u8], scan: bool) -> Machine {
    Machine::new(fold(source, scan).unwrap()).unwrap()
}

fn run_to_halt(m: &mut Machine) -> Vec<u8> {
    m.run(&[], 1_000_000)
}

#[test]
fn hello_world() {
    let out = interpret(HELLO, b"", 1_000_000).unwrap();
    assert_eq!(out, b"Hello World!\n".to_vec());
}

#[test]
fn hello_world_without_scan_idiom() {
    let mut m = machine_for(HELLO, false);
    assert_eq!(run_to_halt(&mut m), b"Hello World!\n".to_vec());
}

#[test]
fn identity_with_eof() {
    let out = interpret(b",.,.,.", b"ab", 1000).unwrap();
    assert_eq!(out, vec![b'a', b'b', 0]);
}

#[test]
fn clear_fusion() {
    let ins = fold(b"+++[-]", false).unwrap();
    assert_eq!(ins, vec![Instruction::Add(3), Instruction::Clear]);
    let mut m = Machine::new(ins).unwrap();
    assert_eq!(m.step(), Action::Continue);
    assert_eq!(m.cell(0), 3);
    assert_eq!(m.step(), Action::Continue);
    assert_eq!(m.cell(0), 0);
    assert_eq!(m.step(), Action::Halt);
}

#[test]
fn even_delta_is_not_fused() {
    let ins = fold(b"[--]", false).unwrap();
    assert_eq!(ins, vec![Instruction::JumpRight, Instruction::Add(-2), Instruction::JumpLeft]);
}

#[test]
fn add_to_fusion() {
    for scan in [false, true] {
        let ins = fold(b"++>+++<[->+<]", scan).unwrap();
        assert_eq!(
            ins,
            vec![Instruction::Add(2), Instruction::Move(1), Instruction::Add(3), Instruction::Move(-1), Instruction::AddTo(1)]
        );
        let mut m = Machine::new(ins).unwrap();
        run_to_halt(&mut m);
        assert_eq!((m.cell(0), m.cell(1)), (0, 5));
        assert_eq!(m.pointer(), 0);
    }
}

#[test]
fn add_to_matches_unfused_loop() {
    // the same loop written with a no-op in between is not fused
    let mut fused = machine_for(b"+++++>>>++<<<[->>>+<<<]", false);
    let mut plain = machine_for(b"+++++>>>++<<<[-.>>>+<<<]", false);
    run_to_halt(&mut fused);
    let out = run_to_halt(&mut plain);
    assert_eq!(out, vec![4, 3, 2, 1, 0]);
    assert_eq!((fused.cell(0), fused.cell(3)), (plain.cell(0), plain.cell(3)));
    assert_eq!(fused.cell(3), 7);
}

#[test]
fn move_until_fusion() {
    let source = b">+>+>+>+>+<<<<<>>>[>]";
    let ins = fold(source, true).unwrap();
    assert_eq!(ins.last(), Some(&Instruction::MoveUntil(1)));
    let mut m = Machine::new(ins).unwrap();
    run_to_halt(&mut m);
    assert_eq!(m.pointer(), 6);
    let plain = fold(source, false).unwrap();
    assert_eq!(&plain[plain.len() - 3..], &[Instruction::JumpRight, Instruction::Move(1), Instruction::JumpLeft]);
}

#[test]
fn high_bit_output() {
    let out = interpret(b"++++++++[>++++++++++++++++<-]>.", b"", 100_000).unwrap();
    assert_eq!(out, vec![0x80]);
}

#[test]
fn tape_wraps_both_ways() {
    assert_eq!(wrap_position(0, -1), 29_999);
    assert_eq!(wrap_position(29_999, 1), 0);
    assert_eq!(wrap_position(5, 30_000), 5);
    assert_eq!(wrap_position(10, -60_005), 5);
    assert_eq!(wrap_position(100, i32::MAX), (100 + 2_147_483_647usize) % 30_000);
    assert_eq!(wrap_position(100, i32::MIN), 6_452);
    assert_eq!(TAPE_LEN, 30_000);
}

#[test]
fn pointer_wraps_in_machine() {
    let mut m = machine_for(b"<+", false);
    run_to_halt(&mut m);
    assert_eq!(m.pointer(), 29_999);
    assert_eq!(m.cell(29_999), 1);
}

#[test]
fn byte_wraps() {
    assert_eq!(add_wrapping(255, 1), 0);
    assert_eq!(add_wrapping(0, -1), 255);
    assert_eq!(add_wrapping(200, 100), 44);
    assert_eq!(add_wrapping(10, -128), 138);
    let out = interpret(b"-.", b"", 10).unwrap();
    assert_eq!(out, vec![255]);
}

#[test]
fn runs_fold_into_one_instruction() {
    let ins = fold(b"+++--a>>><.,", false).unwrap();
    assert_eq!(ins, vec![Instruction::Add(1), Instruction::Move(2), Instruction::Output, Instruction::Input]);
    let ins = fold(&[b'+'; 257], false).unwrap();
    assert_eq!(ins, vec![Instruction::Add(1)]);
    let ins = fold(&[b'-'; 128], false).unwrap();
    assert_eq!(ins, vec![Instruction::Add(-128)]);
}

#[test]
fn refolding_rendered_stream_is_identity() {
    let ins = fold(HELLO, true).unwrap();
    let mut rendered = Vec::new();
    for i in &ins {
        match *i {
            Instruction::Add(d) if d > 0 => rendered.extend(std::iter::repeat(b'+').take(d as usize)),
            Instruction::Add(d) => rendered.extend(std::iter::repeat(b'-').take(d.unsigned_abs() as usize)),
            Instruction::Move(k) if k > 0 => rendered.extend(std::iter::repeat(b'>').take(k as usize)),
            Instruction::Move(k) => rendered.extend(std::iter::repeat(b'<').take(k.unsigned_abs() as usize)),
            Instruction::Output => rendered.push(b'.'),
            Instruction::Input => rendered.push(b','),
            Instruction::JumpRight => rendered.push(b'['),
            Instruction::JumpLeft => rendered.push(b']'),
            Instruction::Clear => rendered.extend_from_slice(b"[-]"),
            Instruction::AddTo(k) => {
                let (there, back) = if k > 0 { (b'>', b'<') } else { (b'<', b'>') };
                rendered.extend_from_slice(b"[-");
                rendered.extend(std::iter::repeat(there).take(k.unsigned_abs() as usize));
                rendered.push(b'+');
                rendered.extend(std::iter::repeat(back).take(k.unsigned_abs() as usize));
                rendered.push(b']');
            }
            Instruction::MoveUntil(k) => {
                rendered.push(b'[');
                let c = if k > 0 { b'>' } else { b'<' };
                rendered.extend(std::iter::repeat(c).take(k.unsigned_abs() as usize));
                rendered.push(b']');
            }
        }
    }
    assert_eq!(fold(&rendered, true).unwrap(), ins);
}

#[test]
fn unbalanced_brackets_are_reported_by_byte() {
    assert_eq!(fold(b"ab]", false), Err(RunError::UnbalancedBrackets(']', 2)));
    assert_eq!(fold(b"[]]", false), Err(RunError::UnbalancedBrackets(']', 2)));
    assert_eq!(fold(b"x[[]", false), Err(RunError::UnbalancedBrackets('[', 1)));
    assert_eq!(fold(b"[x[", true), Err(RunError::UnbalancedBrackets('[', 2)));
    assert_eq!(interpret(b"]", b"", 10), Err(RunError::UnbalancedBrackets(']', 0)));
    assert_eq!(compile_plan(b"[[]").unwrap_err(), RunError::UnbalancedBrackets('[', 0));
    assert!(fold(b"[[]][]", false).is_ok());
}

#[test]
fn clear_idiom_for_every_cell_value() {
    for n in [1i8, 3, -1, 127, -127] {
        for v in 0..=255u8 {
            let mut source = vec![b'+'; v as usize];
            source.push(b'[');
            source.push(b'x');
            let d = if n > 0 { b'+' } else { b'-' };
            source.extend(std::iter::repeat(d).take(n.unsigned_abs() as usize));
            source.push(b'x');
            source.push(b'.');
            source.push(b']');
            // the `.` keeps the loop from being fused: it is run as written
            let mut m = machine_for(&source, false);
            let out = m.run(&[], 10_000);
            assert!(out.len() <= 256);
            assert_eq!(m.cell(0), 0);
        }
    }
}

#[test]
fn add_to_wraps_across_tape_end() {
    let mut m = machine_for(b"+++<++>[-<+>]", false);
    run_to_halt(&mut m);
    assert_eq!(m.cell(0), 0);
    assert_eq!(m.cell(29_999), 5);
}

#[test]
fn eof_stores_zero() {
    let mut m = machine_for(b"+,", false);
    assert_eq!(m.step(), Action::Continue);
    assert_eq!(m.step(), Action::Input);
    m.supply(None);
    assert_eq!(m.cell(0), 0);
    assert_eq!(m.step(), Action::Halt);
    let mut m = machine_for(b",", false);
    assert_eq!(m.step(), Action::Input);
    m.supply(Some(7));
    assert_eq!(m.cell(0), 7);
}

#[test]
fn bracket_partners() {
    let ins = vec![Instruction::JumpRight, Instruction::JumpRight, Instruction::Output, Instruction::JumpLeft, Instruction::JumpLeft];
    assert_eq!(match_brackets(&ins), Some(vec![4, 3, 0, 1, 0]));
    assert_eq!(match_brackets(&vec![Instruction::JumpLeft, Instruction::JumpRight]), None);
    assert!(Machine::new(vec![Instruction::JumpRight]).is_none());
}

#[test]
fn wrap_plans_reduce_displacement() {
    assert_eq!(plan_wrap(1), Wrap { delta: 1, wrapped: -29_999 });
    assert_eq!(plan_wrap(-1), Wrap { delta: -1, wrapped: 29_999 });
    assert_eq!(plan_wrap(40_000), Wrap { delta: 10_000, wrapped: -20_000 });
    assert_eq!(plan_wrap(-30_000), Wrap { delta: 0, wrapped: 30_000 });
}

#[test]
fn lowering_expands_scan_loops() {
    let ops = lower(&vec![Instruction::Add(2), Instruction::MoveUntil(-2), Instruction::AddTo(3), Instruction::Clear]);
    assert_eq!(
        ops,
        vec![
            IrOp::AddCell(2),
            IrOp::LoopOpen,
            IrOp::MovePointer(Wrap { delta: -2, wrapped: 29_998 }),
            IrOp::LoopClose,
            IrOp::AddToCell(Wrap { delta: 3, wrapped: -29_997 }),
            IrOp::ClearCell,
        ]
    );
    let ops = compile_plan(b",[.,]").unwrap();
    assert_eq!(ops, vec![IrOp::Read, IrOp::LoopOpen, IrOp::Write, IrOp::Read, IrOp::LoopClose]);
    let ops = compile_plan(b"[>>]").unwrap();
    assert_eq!(ops[0], IrOp::LoopOpen);
}

#[test]
fn step_limit_stops_endless_loops() {
    let mut m = machine_for(b"+[]", false);
    let out = m.run(&[], 50);
    assert!(out.is_empty());
    assert_eq!(m.cell(0), 1);
}

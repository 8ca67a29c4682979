use tapevm::interpreter::{Context, ExecError, Instruction, OpCode};
use tapevm::compiler::process_code;
use tapevm::optimizer::resolve_jumps;

fn ins(opcode: OpCode, offset: i32) -> Instruction {
    Instruction { opcode, offset }
}

fn parse(source: &str) -> Vec<Instruction> {
    source.chars().map(Instruction::from_char).collect()
}

/// The source, instruction by instruction, with no pass applied.
fn plain(source: &str) -> Vec<Instruction> {
    let mut code = parse(source);
    code.push(Instruction::from_op(OpCode::Halt));
    resolve_jumps(&mut code).unwrap();
    code
}

fn tape(ctx: &Context) -> Vec<i8> {
    (0..ctx.len() as i64).map(|i| ctx.cell((i - ctx.cursor()) as i32).unwrap()).collect()
}

#[test]
fn new_context_is_all_zero() {
    let ctx = Context::new(5);
    assert_eq!(ctx.len(), 5);
    assert_eq!(ctx.cursor(), 0);
    assert_eq!(ctx.pc(), 0);
    assert_eq!(tape(&ctx), vec![0, 0, 0, 0, 0]);
    assert!(ctx.output().is_empty());
}

#[test]
fn cells_are_addressed_from_the_cursor() {
    let mut ctx = Context::new(4);
    ctx.move_cursor(2);
    assert_eq!(ctx.get_index(0), Ok(2));
    assert_eq!(ctx.get_index(1), Ok(3));
    assert_eq!(ctx.get_index(-2), Ok(0));
    assert_eq!(ctx.get_index(2), Err(ExecError::OutOfBounds));
    assert_eq!(ctx.get_index(-3), Err(ExecError::OutOfBounds));
    assert_eq!(ctx.set_cell(-1, 9), Ok(()));
    assert_eq!(ctx.cell(-1), Ok(9));
    assert_eq!(tape(&ctx), vec![0, 9, 0, 0]);
    assert_eq!(ctx.set_cell(2, 1), Err(ExecError::OutOfBounds));
    assert_eq!(ctx.cell(-3), Err(ExecError::OutOfBounds));
    assert_eq!(tape(&ctx), vec![0, 9, 0, 0]);
}

#[test]
fn move_cursor_addresses_no_cell() {
    let mut ctx = Context::new(1);
    ctx.move_cursor(-7);
    assert_eq!(ctx.cursor(), -7);
    ctx.move_cursor(7);
    assert_eq!(ctx.cursor(), 0);
    assert_eq!(ctx.cell(0), Ok(0));
}

#[test]
fn jump_sets_the_program_counter() {
    let mut ctx = Context::new(1);
    ctx.jump(12);
    assert_eq!(ctx.pc(), 12);
}

#[test]
fn read_takes_bytes_in_order_then_zero() {
    let mut ctx = Context::new(1);
    ctx.feed(0x41);
    ctx.feed(200);
    assert_eq!(ctx.read(), 0x41);
    assert_eq!(ctx.read(), -56);
    assert_eq!(ctx.read(), 0);
    assert_eq!(ctx.read(), 0);
    ctx.feed(1);
    assert_eq!(ctx.read(), 1);
}

#[test]
fn write_emits_raw_bytes() {
    let mut ctx = Context::new(1);
    ctx.write(65);
    ctx.write(-1);
    ctx.write(-128);
    ctx.write(0);
    assert_eq!(ctx.output(), &vec![65u8, 255, 128, 0]);
    assert_eq!(ctx.take_output(), vec![65u8, 255, 128, 0]);
    assert!(ctx.output().is_empty());
    ctx.write(1);
    assert_eq!(ctx.take_output(), vec![1u8]);
}

#[test]
fn halt_stops_and_changes_nothing() {
    let mut ctx = Context::new(2);
    assert_eq!(ins(OpCode::Halt, 5).execute(&mut ctx), Ok(false));
    assert_eq!(ctx.cursor(), 0);
    assert_eq!(tape(&ctx), vec![0, 0]);
}

#[test]
fn noop_only_moves() {
    let mut ctx = Context::new(2);
    assert_eq!(ins(OpCode::NoOp, 5).execute(&mut ctx), Ok(true));
    assert_eq!(ctx.cursor(), 5);
    assert_eq!(ins(OpCode::NoOp, -5).execute(&mut ctx), Ok(true));
    assert_eq!(tape(&ctx), vec![0, 0]);
}

#[test]
fn set_assigns_then_moves() {
    let mut ctx = Context::new(3);
    assert_eq!(ins(OpCode::SetCell(-7), 2).execute(&mut ctx), Ok(true));
    assert_eq!(ctx.cursor(), 2);
    assert_eq!(tape(&ctx), vec![-7, 0, 0]);
}

#[test]
fn add_wraps_at_eight_bits() {
    let mut ctx = Context::new(1);
    ctx.set_cell(0, 127).unwrap();
    assert_eq!(ins(OpCode::Add(1), 0).execute(&mut ctx), Ok(true));
    assert_eq!(ctx.cell(0), Ok(-128));
    assert_eq!(ins(OpCode::Add(-1), 0).execute(&mut ctx), Ok(true));
    assert_eq!(ctx.cell(0), Ok(127));
    assert_eq!(ins(OpCode::Add(-128), 0).execute(&mut ctx), Ok(true));
    assert_eq!(ctx.cell(0), Ok(-1));
    assert_eq!(ins(OpCode::Add(-128), 0).execute(&mut ctx), Ok(true));
    assert_eq!(ctx.cell(0), Ok(127));
}

#[test]
fn add_applies_its_trailing_displacement() {
    let mut ctx = Context::new(4);
    assert_eq!(ins(OpCode::Add(5), 3).execute(&mut ctx), Ok(true));
    assert_eq!(ctx.cursor(), 3);
    assert_eq!(tape(&ctx), vec![5, 0, 0, 0]);
}

#[test]
fn move_and_add_moves_the_value() {
    let mut ctx = Context::new(4);
    ctx.set_cell(0, 5).unwrap();
    ctx.set_cell(2, 3).unwrap();
    assert_eq!(ins(OpCode::MoveAndAddTo(2), 1).execute(&mut ctx), Ok(true));
    assert_eq!(ctx.cursor(), 1);
    assert_eq!(tape(&ctx), vec![0, 0, 8, 0]);
}

#[test]
fn move_and_add_wraps() {
    let mut ctx = Context::new(2);
    ctx.set_cell(0, 100).unwrap();
    ctx.set_cell(1, 100).unwrap();
    assert_eq!(ins(OpCode::MoveAndAddTo(1), 0).execute(&mut ctx), Ok(true));
    assert_eq!(tape(&ctx), vec![0, -56]);
}

#[test]
fn move_and_add_from_a_zero_cell_touches_nothing() {
    let mut ctx = Context::new(2);
    ctx.set_cell(1, 3).unwrap();
    assert_eq!(ins(OpCode::MoveAndAddTo(1), 0).execute(&mut ctx), Ok(true));
    assert_eq!(tape(&ctx), vec![0, 3]);
    // The target is not even addressed.
    assert_eq!(ins(OpCode::MoveAndAddTo(100), 0).execute(&mut ctx), Ok(true));
    assert_eq!(tape(&ctx), vec![0, 3]);
}

#[test]
fn move_and_add_to_a_cell_off_the_tape_fails() {
    let mut ctx = Context::new(2);
    ctx.set_cell(0, 1).unwrap();
    assert_eq!(ins(OpCode::MoveAndAddTo(2), 0).execute(&mut ctx), Err(ExecError::OutOfBounds));
    assert_eq!(ins(OpCode::MoveAndAddTo(-1), 0).execute(&mut ctx), Err(ExecError::OutOfBounds));
    assert_eq!(tape(&ctx), vec![1, 0]);
    assert_eq!(ctx.cursor(), 0);
}

#[test]
fn find_zero_walks_to_the_first_zero_cell() {
    let mut ctx = Context::new(6);
    for (i, v) in [1i8, 2, 3, 0, 5, 0].iter().enumerate() {
        ctx.set_cell(i as i32, *v).unwrap();
    }
    assert_eq!(ins(OpCode::FindZero(1), 0).execute(&mut ctx), Ok(true));
    assert_eq!(ctx.cursor(), 3);
    // Standing on a zero cell it does not move.
    assert_eq!(ins(OpCode::FindZero(1), 0).execute(&mut ctx), Ok(true));
    assert_eq!(ctx.cursor(), 3);
}

#[test]
fn find_zero_walks_in_strides_and_backwards() {
    let mut ctx = Context::new(6);
    for (i, v) in [0i8, 0, 1, 0, 1, 0].iter().enumerate() {
        ctx.set_cell(i as i32, *v).unwrap();
    }
    ctx.move_cursor(4);
    assert_eq!(ins(OpCode::FindZero(-2), 0).execute(&mut ctx), Ok(true));
    assert_eq!(ctx.cursor(), 0);
    ctx.move_cursor(4);
    assert_eq!(ins(OpCode::FindZero(-1), 0).execute(&mut ctx), Ok(true));
    assert_eq!(ctx.cursor(), 3);
}

#[test]
fn find_zero_ignores_its_offset() {
    let mut ctx = Context::new(4);
    ctx.set_cell(0, 1).unwrap();
    ctx.set_cell(1, 1).unwrap();
    assert_eq!(ins(OpCode::FindZero(1), 7).execute(&mut ctx), Ok(true));
    assert_eq!(ctx.cursor(), 2);
}

#[test]
fn find_zero_leaving_the_tape_fails() {
    let mut ctx = Context::new(3);
    for i in 0..3 {
        ctx.set_cell(i, 1).unwrap();
    }
    assert_eq!(ins(OpCode::FindZero(1), 0).execute(&mut ctx), Err(ExecError::OutOfBounds));
    assert_eq!(ins(OpCode::FindZero(-1), 0).execute(&mut ctx), Err(ExecError::OutOfBounds));
    assert_eq!(ins(OpCode::FindZero(2), 0).execute(&mut ctx), Err(ExecError::OutOfBounds));
    assert_eq!(ctx.cursor(), 0);
}

#[test]
fn find_zero_with_no_stride_on_a_non_zero_cell_never_finishes() {
    let mut ctx = Context::new(3);
    ctx.set_cell(0, 1).unwrap();
    assert_eq!(ins(OpCode::FindZero(0), 0).execute(&mut ctx), Err(ExecError::Unfinished));
    ctx.set_cell(0, 0).unwrap();
    assert_eq!(ins(OpCode::FindZero(0), 0).execute(&mut ctx), Ok(true));
}

#[test]
fn brackets_jump_on_the_cell_and_never_move_the_cursor() {
    let mut ctx = Context::new(2);
    assert_eq!(ins(OpCode::JumpIfZero, 9).execute(&mut ctx), Ok(true));
    assert_eq!(ctx.pc(), 9);
    assert_eq!(ctx.cursor(), 0);
    assert_eq!(ins(OpCode::JumpIfNonZero, 4).execute(&mut ctx), Ok(true));
    assert_eq!(ctx.pc(), 9);
    ctx.set_cell(0, 1).unwrap();
    assert_eq!(ins(OpCode::JumpIfZero, 2).execute(&mut ctx), Ok(true));
    assert_eq!(ctx.pc(), 9);
    assert_eq!(ins(OpCode::JumpIfNonZero, 4).execute(&mut ctx), Ok(true));
    assert_eq!(ctx.pc(), 4);
    assert_eq!(ctx.cursor(), 0);
}

#[test]
fn every_access_off_the_tape_fails() {
    for op in [
        OpCode::SetCell(1),
        OpCode::Add(1),
        OpCode::Input,
        OpCode::Output,
        OpCode::JumpIfZero,
        OpCode::JumpIfNonZero,
        OpCode::FindZero(1),
        OpCode::MoveAndAddTo(1),
    ] {
        let mut right = Context::new(2);
        right.move_cursor(2);
        right.feed(1);
        assert_eq!(ins(op, 0).execute(&mut right), Err(ExecError::OutOfBounds));
        let mut left = Context::new(2);
        left.move_cursor(-1);
        assert_eq!(ins(op, 0).execute(&mut left), Err(ExecError::OutOfBounds));
        assert_eq!(left.cursor(), -1);
        assert!(left.output().is_empty());
    }
}

#[test]
fn a_failed_input_consumes_nothing() {
    let mut ctx = Context::new(1);
    ctx.feed(5);
    ctx.move_cursor(1);
    assert_eq!(ins(OpCode::Input, 0).execute(&mut ctx), Err(ExecError::OutOfBounds));
    ctx.move_cursor(-1);
    assert_eq!(ins(OpCode::Input, 0).execute(&mut ctx), Ok(true));
    assert_eq!(ctx.cell(0), Ok(5));
}

#[test]
fn step_advances_behind_the_instruction_or_the_jump_target() {
    let code = plain("+[-]");
    let mut ctx = Context::new(1);
    assert_eq!(ctx.step(&code), Ok(true));
    assert_eq!(ctx.pc(), 1);
    assert_eq!(ctx.step(&code), Ok(true)); // [ with a non-zero cell
    assert_eq!(ctx.pc(), 2);
    assert_eq!(ctx.step(&code), Ok(true)); // -
    assert_eq!(ctx.step(&code), Ok(true)); // ] with a zero cell
    assert_eq!(ctx.pc(), 4);
    assert_eq!(ctx.step(&code), Ok(false));
    assert_eq!(ctx.pc(), 4);
}

#[test]
fn input_then_output_echoes_the_byte() {
    let code = process_code(parse(",.")).unwrap();
    let mut ctx = Context::new(1);
    ctx.feed(0x41);
    assert_eq!(ctx.execute(&code, 100), Ok(()));
    assert_eq!(ctx.output(), &vec![0x41u8]);
}

#[test]
fn input_at_end_of_input_reads_zero() {
    let code = process_code(parse(",.")).unwrap();
    let mut ctx = Context::new(1);
    ctx.set_cell(0, 9).unwrap();
    assert_eq!(ctx.execute(&code, 100), Ok(()));
    assert_eq!(ctx.output(), &vec![0u8]);
    assert_eq!(ctx.cell(0), Ok(0));
}

#[test]
fn moving_off_a_tape_of_one_cell_and_touching_fails() {
    for source in [">+", ">.", ">,", "<-", ">>>>>.", ">[-]", ">[>]", "<[->+<]"] {
        let code = process_code(parse(source)).unwrap();
        let mut ctx = Context::new(1);
        assert_eq!(ctx.execute(&code, 100), Err(ExecError::OutOfBounds), "{}", source);
        let mut unoptimized = Context::new(1);
        assert_eq!(unoptimized.execute(&plain(source), 100), Err(ExecError::OutOfBounds), "{}", source);
        assert_eq!(tape_after_fault_is_untouched(&ctx), true);
    }
}

fn tape_after_fault_is_untouched(ctx: &Context) -> bool {
    ctx.len() == 1 && ctx.output().is_empty()
}

#[test]
fn moving_off_the_tape_alone_addresses_no_cell() {
    let code = process_code(parse(">")).unwrap();
    let mut ctx = Context::new(1);
    assert_eq!(ctx.execute(&code, 100), Ok(()));
    assert_eq!(ctx.cursor(), 1);
    assert_eq!(ctx.cell(0), Err(ExecError::OutOfBounds));
}

#[test]
fn the_cursor_does_not_wrap_around_the_tape() {
    let code = process_code(parse("+<+")).unwrap();
    let mut ctx = Context::new(3);
    assert_eq!(ctx.execute(&code, 100), Err(ExecError::OutOfBounds));
    assert_eq!(tape(&ctx), vec![1, 0, 0]);
    assert_eq!(ctx.cursor(), -1);
}

#[test]
fn execute_runs_from_the_start_and_restores_the_program_counter() {
    let code = plain("+++");
    let mut ctx = Context::new(1);
    ctx.jump(2);
    assert_eq!(ctx.execute(&code, 10), Ok(()));
    assert_eq!(ctx.cell(0), Ok(3));
    assert_eq!(ctx.pc(), 2);
}

#[test]
fn execute_counts_every_fetch() {
    let code = plain("+++");
    // Three adds and the halt.
    let mut enough = Context::new(1);
    assert_eq!(enough.execute(&code, 4), Ok(()));
    let mut short = Context::new(1);
    assert_eq!(short.execute(&code, 3), Err(ExecError::Unfinished));
    assert_eq!(short.cell(0), Ok(3));
    let mut none = Context::new(1);
    assert_eq!(none.execute(&code, 0), Err(ExecError::Unfinished));
    assert_eq!(none.cell(0), Ok(0));
}

#[test]
fn an_endless_loop_uses_up_any_budget() {
    let code = plain("+[]");
    let mut ctx = Context::new(1);
    assert_eq!(ctx.execute(&code, 10_000), Err(ExecError::Unfinished));
    assert_eq!(ctx.cell(0), Ok(1));
}

#[test]
fn a_loop_runs_until_its_cell_is_zero() {
    let code = plain("+++[>++<-]>.");
    let mut ctx = Context::new(2);
    assert_eq!(ctx.execute(&code, 1000), Ok(()));
    assert_eq!(tape(&ctx), vec![0, 6]);
    assert_eq!(ctx.cursor(), 1);
    assert_eq!(ctx.output(), &vec![6u8]);
}

#[test]
fn a_loop_on_a_zero_cell_is_skipped() {
    let code = plain("[+>+<]+");
    let mut ctx = Context::new(2);
    assert_eq!(ctx.execute(&code, 1000), Ok(()));
    assert_eq!(tape(&ctx), vec![1, 0]);
}

#[test]
fn nested_loops_multiply() {
    let code = plain("++[>+++[>++<-]<-]>>.");
    let mut ctx = Context::new(3);
    assert_eq!(ctx.execute(&code, 1000), Ok(()));
    assert_eq!(tape(&ctx), vec![0, 0, 12]);
    assert_eq!(ctx.output(), &vec![12u8]);
}

#[test]
fn output_keeps_program_order_up_to_a_fault() {
    let code = plain("+.+.>>.");
    let mut ctx = Context::new(2);
    assert_eq!(ctx.execute(&code, 1000), Err(ExecError::OutOfBounds));
    assert_eq!(ctx.output(), &vec![1u8, 2]);
}

#[test]
fn clear_loop_takes_the_fast_path() {
    let code = process_code(parse("[-]")).unwrap();
    assert_eq!(code, vec![ins(OpCode::SetCell(0), 0), ins(OpCode::Halt, 0)]);
    let mut ctx = Context::new(1);
    ctx.set_cell(0, 7).unwrap();
    // Two fetches: the assignment and the halt.
    assert_eq!(ctx.execute(&code, 2), Ok(()));
    assert_eq!(ctx.cell(0), Ok(0));
}

#[test]
fn seek_loop_stops_on_the_first_zero_cell() {
    let code = process_code(parse("[>]")).unwrap();
    assert_eq!(code, vec![ins(OpCode::FindZero(1), 0), ins(OpCode::Halt, 0)]);
    let mut ctx = Context::new(8);
    for (i, v) in [4i8, 1, -1, 0, 9, 0].iter().enumerate() {
        ctx.set_cell(i as i32, *v).unwrap();
    }
    assert_eq!(ctx.execute(&code, 2), Ok(()));
    assert_eq!(ctx.cursor(), 3);
    assert_eq!(tape(&ctx), vec![4, 1, -1, 0, 9, 0, 0, 0]);
}

#[test]
fn move_loop_adds_the_source_to_the_target() {
    let code = process_code(parse("[->>+<<]")).unwrap();
    assert_eq!(code, vec![ins(OpCode::MoveAndAddTo(2), 0), ins(OpCode::Halt, 0)]);
    let mut ctx = Context::new(3);
    ctx.set_cell(0, 5).unwrap();
    ctx.set_cell(2, 3).unwrap();
    assert_eq!(ctx.execute(&code, 2), Ok(()));
    assert_eq!(tape(&ctx), vec![0, 0, 8]);
    assert_eq!(ctx.cursor(), 0);
}

#[test]
fn move_loop_on_a_zero_source_leaves_the_target() {
    let code = process_code(parse("[->>+<<]")).unwrap();
    let mut ctx = Context::new(3);
    ctx.set_cell(2, 3).unwrap();
    assert_eq!(ctx.execute(&code, 2), Ok(()));
    assert_eq!(tape(&ctx), vec![0, 0, 3]);
}

use tapevm::interpreter::{Instruction, OpCode};
use tapevm::compiler::process_code;
use tapevm::optimizer::{
    collapse_adds, collapse_moves, optimize, pattern_move_cell, pattern_seek_zero,
    pattern_set_cell, resolve_jumps, JumpError,
};

fn ins(opcode: OpCode, offset: i32) -> Instruction {
    Instruction { opcode, offset }
}

fn op(opcode: OpCode) -> Instruction {
    Instruction { opcode, offset: 0 }
}

fn mv(offset: i32) -> Instruction {
    Instruction { opcode: OpCode::NoOp, offset }
}

fn parse(source: &str) -> Vec<Instruction> {
    source.chars().map(Instruction::from_char).collect()
}

#[test]
fn collapse_adds_folds_a_run_into_one_add() {
    assert_eq!(collapse_adds(parse("+++")), vec![op(OpCode::Add(3))]);
    assert_eq!(collapse_adds(parse("--")), vec![op(OpCode::Add(-2))]);
    assert_eq!(collapse_adds(parse("+-+")), vec![op(OpCode::Add(1))]);
}

#[test]
fn collapse_adds_wraps_the_sum() {
    let plus = |n: usize| collapse_adds(parse(&"+".repeat(n)));
    assert_eq!(plus(127), vec![op(OpCode::Add(127))]);
    assert_eq!(plus(128), vec![op(OpCode::Add(-128))]);
    assert_eq!(plus(130), vec![op(OpCode::Add(-126))]);
    assert_eq!(plus(256), vec![op(OpCode::Add(0))]);
    assert_eq!(plus(257), vec![op(OpCode::Add(1))]);
    let minus = |n: usize| collapse_adds(parse(&"-".repeat(n)));
    assert_eq!(minus(128), vec![op(OpCode::Add(-128))]);
    assert_eq!(minus(129), vec![op(OpCode::Add(127))]);
    assert_eq!(minus(256), vec![op(OpCode::Add(0))]);
}

#[test]
fn collapse_adds_yields_its_seed_for_an_empty_stream() {
    assert_eq!(collapse_adds(Vec::new()), vec![op(OpCode::Add(0))]);
}

#[test]
fn collapse_adds_drops_an_add_of_zero_before_another_instruction() {
    assert_eq!(collapse_adds(parse("+->")), vec![mv(1)]);
    assert_eq!(collapse_adds(parse("+-.")), vec![op(OpCode::Output)]);
    assert_eq!(collapse_adds(parse(">+-")), vec![mv(1), op(OpCode::Add(0))]);
}

#[test]
fn collapse_adds_keeps_runs_apart() {
    assert_eq!(
        collapse_adds(parse("++>--[+]")),
        vec![
            op(OpCode::Add(2)),
            mv(1),
            op(OpCode::Add(-2)),
            op(OpCode::JumpIfZero),
            op(OpCode::Add(1)),
            op(OpCode::JumpIfNonZero),
        ]
    );
}

#[test]
fn collapse_adds_takes_the_displacement_of_the_second_add() {
    let out = collapse_adds(vec![op(OpCode::Add(1)), ins(OpCode::Add(2), 5)]);
    assert_eq!(out, vec![ins(OpCode::Add(3), 5)]);
}

#[test]
fn collapse_adds_does_not_fold_across_a_displacement() {
    let code = vec![ins(OpCode::Add(1), 2), op(OpCode::Add(2)), op(OpCode::Add(3))];
    assert_eq!(collapse_adds(code), vec![ins(OpCode::Add(1), 2), op(OpCode::Add(5))]);
    let zero = vec![ins(OpCode::Add(0), 1), op(OpCode::Output)];
    assert_eq!(collapse_adds(zero.clone()), zero);
}

#[test]
fn collapse_moves_sums_a_run_of_moves() {
    assert_eq!(collapse_moves(parse(">>>"), false), vec![mv(3)]);
    assert_eq!(collapse_moves(parse("<<>"), false), vec![mv(-1)]);
    assert_eq!(collapse_moves(parse("><"), false), vec![mv(0)]);
    assert_eq!(collapse_moves(parse(">>>"), true), vec![mv(3)]);
}

#[test]
fn collapse_moves_yields_its_seed_for_an_empty_stream() {
    assert_eq!(collapse_moves(Vec::new(), false), vec![mv(0)]);
    assert_eq!(collapse_moves(Vec::new(), true), vec![mv(0)]);
}

#[test]
fn collapse_moves_drops_an_idle_move_before_another_instruction() {
    assert_eq!(collapse_moves(parse("><+"), false), vec![op(OpCode::Add(1))]);
    assert_eq!(collapse_moves(parse("a+b"), false), vec![op(OpCode::Add(1)), mv(0)]);
    assert_eq!(
        collapse_moves(parse("[ ]"), false),
        vec![op(OpCode::JumpIfZero), op(OpCode::JumpIfNonZero)]
    );
}

#[test]
fn collapse_moves_without_compacting_leaves_other_instructions() {
    assert_eq!(collapse_moves(parse("+>>"), false), vec![op(OpCode::Add(1)), mv(2)]);
    assert_eq!(
        collapse_moves(parse(".>,<"), false),
        vec![op(OpCode::Output), mv(1), op(OpCode::Input), mv(-1)]
    );
}

#[test]
fn collapse_moves_compacting_folds_a_move_into_the_instruction_before() {
    assert_eq!(collapse_moves(parse("+>>"), true), vec![ins(OpCode::Add(1), 2)]);
    assert_eq!(
        collapse_moves(parse(".>,<"), true),
        vec![ins(OpCode::Output, 1), ins(OpCode::Input, -1)]
    );
    for opcode in [
        OpCode::SetCell(4),
        OpCode::Add(4),
        OpCode::Input,
        OpCode::Output,
        OpCode::FindZero(1),
        OpCode::MoveAndAddTo(2),
        OpCode::Halt,
    ] {
        assert_eq!(
            collapse_moves(vec![ins(opcode, 1), mv(2), mv(-5)], true),
            vec![ins(opcode, -2)]
        );
    }
}

#[test]
fn collapse_moves_never_folds_into_a_bracket() {
    let code = parse("[>]>");
    assert_eq!(collapse_moves(code.clone(), true), code);
}

#[test]
fn collapse_moves_leaves_a_sum_that_is_no_offset() {
    let up = vec![mv(i32::MAX), mv(1)];
    assert_eq!(collapse_moves(up.clone(), false), up);
    let down = vec![ins(OpCode::Add(1), i32::MIN), mv(-1)];
    assert_eq!(collapse_moves(down.clone(), true), down);
    assert_eq!(collapse_moves(vec![mv(i32::MAX), mv(i32::MIN)], false), vec![mv(-1)]);
}

#[test]
fn pattern_set_cell_rewrites_the_clear_loop() {
    assert_eq!(pattern_set_cell(parse("[-]")), vec![op(OpCode::SetCell(0))]);
    assert_eq!(pattern_set_cell(parse("[+]")), vec![op(OpCode::SetCell(0))]);
    assert_eq!(
        pattern_set_cell(parse("+[-]>[+]")),
        vec![op(OpCode::Add(1)), op(OpCode::SetCell(0)), mv(1), op(OpCode::SetCell(0))]
    );
}

#[test]
fn pattern_set_cell_wants_a_step_of_one() {
    for delta in [0i8, 2, -2, 3, 127, -128] {
        let code = vec![op(OpCode::JumpIfZero), op(OpCode::Add(delta)), op(OpCode::JumpIfNonZero)];
        assert_eq!(pattern_set_cell(code.clone()), code);
    }
}

#[test]
fn pattern_set_cell_wants_no_displacement_on_the_add() {
    let code = vec![op(OpCode::JumpIfZero), ins(OpCode::Add(-1), 1), op(OpCode::JumpIfNonZero)];
    assert_eq!(pattern_set_cell(code.clone()), code);
}

#[test]
fn pattern_set_cell_rewrites_the_inner_of_two_loops() {
    assert_eq!(
        pattern_set_cell(parse("[[-]]")),
        vec![op(OpCode::JumpIfZero), op(OpCode::SetCell(0)), op(OpCode::JumpIfNonZero)]
    );
}

#[test]
fn pattern_seek_zero_rewrites_the_seek_loop() {
    assert_eq!(pattern_seek_zero(parse("[>]")), vec![op(OpCode::FindZero(1))]);
    assert_eq!(pattern_seek_zero(parse("[<]")), vec![op(OpCode::FindZero(-1))]);
    let wide = vec![op(OpCode::JumpIfZero), mv(-128), op(OpCode::JumpIfNonZero)];
    assert_eq!(pattern_seek_zero(wide), vec![op(OpCode::FindZero(-128))]);
}

#[test]
fn pattern_seek_zero_wants_a_stride_that_is_a_cell_value() {
    for stride in [128, -129, 1000] {
        let code = vec![op(OpCode::JumpIfZero), mv(stride), op(OpCode::JumpIfNonZero)];
        assert_eq!(pattern_seek_zero(code.clone()), code);
    }
}

#[test]
fn pattern_seek_zero_leaves_other_loops() {
    for source in ["[>>]", "[+]", "[.]", "[>+]", "[]"] {
        assert_eq!(pattern_seek_zero(parse(source)), parse(source), "{}", source);
    }
}

fn move_loop(decr: i8, to: i32, incr: i8, from: i32) -> Vec<Instruction> {
    vec![
        op(OpCode::JumpIfZero),
        op(OpCode::Add(decr)),
        mv(to),
        op(OpCode::Add(incr)),
        mv(from),
        op(OpCode::JumpIfNonZero),
    ]
}

#[test]
fn pattern_move_cell_rewrites_the_move_loop() {
    assert_eq!(pattern_move_cell(move_loop(-1, 2, 1, -2)), vec![op(OpCode::MoveAndAddTo(2))]);
    assert_eq!(pattern_move_cell(move_loop(-1, -3, 1, 3)), vec![op(OpCode::MoveAndAddTo(-3))]);
    assert_eq!(pattern_move_cell(move_loop(1, 1, -1, -1)), vec![op(OpCode::MoveAndAddTo(1))]);
    assert_eq!(pattern_move_cell(move_loop(-1, 127, 1, -127)), vec![op(OpCode::MoveAndAddTo(127))]);
    assert_eq!(pattern_move_cell(parse("[->+<]")), vec![op(OpCode::MoveAndAddTo(1))]);
}

#[test]
fn pattern_move_cell_wants_opposite_steps_of_one_and_opposite_moves() {
    for code in [
        move_loop(-1, 2, 1, -1),
        move_loop(-1, 2, 1, 2),
        move_loop(-1, 2, -1, -2),
        move_loop(1, 2, 1, -2),
        move_loop(-2, 2, 2, -2),
        move_loop(-1, 2, 2, -2),
        move_loop(-2, 2, 1, -2),
        move_loop(-128, 1, -128, -1),
        move_loop(-1, 128, 1, -128),
        move_loop(-1, -129, 1, 129),
        move_loop(-1, i32::MIN, 1, i32::MIN),
    ] {
        assert_eq!(pattern_move_cell(code.clone()), code);
    }
}

#[test]
fn pattern_move_cell_wants_no_displacement_on_the_adds() {
    let mut code = move_loop(-1, 2, 1, -2);
    code[1].offset = 1;
    assert_eq!(pattern_move_cell(code.clone()), code);
    let mut code = move_loop(-1, 2, 1, -2);
    code[3].offset = -1;
    assert_eq!(pattern_move_cell(code.clone()), code);
}

#[test]
fn optimize_chains_the_passes() {
    assert_eq!(
        optimize(parse("+++[->>+<<]>>.")),
        vec![op(OpCode::Add(3)), ins(OpCode::MoveAndAddTo(2), 2), op(OpCode::Output)]
    );
    assert_eq!(
        optimize(parse("++>[-]<[>]")),
        vec![ins(OpCode::Add(2), 1), ins(OpCode::SetCell(0), -1), op(OpCode::FindZero(1))]
    );
    assert_eq!(
        optimize(parse(",>,<[->+<]>.")),
        vec![
            ins(OpCode::Input, 1),
            ins(OpCode::Input, -1),
            ins(OpCode::MoveAndAddTo(1), 1),
            op(OpCode::Output),
        ]
    );
}

#[test]
fn optimize_drops_comments() {
    assert_eq!(
        optimize(parse("add two: ++\nthen print it: .")),
        vec![op(OpCode::Add(2)), op(OpCode::Output)]
    );
    assert_eq!(optimize(parse("+ done")), vec![op(OpCode::Add(1))]);
    assert_eq!(optimize(parse("[ done")), vec![op(OpCode::JumpIfZero), mv(0)]);
}

#[test]
fn optimize_of_nothing_yields_a_seed() {
    assert_eq!(optimize(Vec::new()), vec![op(OpCode::Add(0))]);
}

#[test]
fn optimize_runs_each_pass_once() {
    // The adds around the idle moves meet only after the moves are gone, when
    // adds are no longer collapsed.
    assert_eq!(optimize(parse("+><+")), vec![op(OpCode::Add(1)), op(OpCode::Add(1))]);
}

#[test]
fn optimize_leaves_optimal_code_unchanged() {
    let optimal = vec![
        op(OpCode::Add(3)),
        op(OpCode::JumpIfZero),
        mv(3),
        ins(OpCode::Output, 2),
        ins(OpCode::Add(-1), -2),
        op(OpCode::JumpIfNonZero),
        ins(OpCode::MoveAndAddTo(2), 1),
        op(OpCode::FindZero(-1)),
        ins(OpCode::SetCell(0), 4),
    ];
    assert_eq!(optimize(optimal.clone()), optimal);
    assert_eq!(optimize(optimize(optimal.clone())), optimal);
}

#[test]
fn resolve_jumps_pairs_brackets_both_ways() {
    let mut code = parse("[+[-]>[.]]");
    assert_eq!(resolve_jumps(&mut code), Ok(()));
    let offsets: Vec<i32> = code.iter().map(|i| i.offset).collect();
    //            [  +  [  -  ]  >  [  .  ]  ]
    assert_eq!(offsets, vec![9, 0, 4, 0, 2, 1, 8, 0, 6, 0]);
    for (i, ins) in code.iter().enumerate() {
        if ins.use_offset() && ins.opcode != OpCode::NoOp {
            assert_eq!(code[ins.offset as usize].offset as usize, i);
            assert_ne!(code[ins.offset as usize].opcode, ins.opcode);
        }
    }
}

#[test]
fn resolve_jumps_keeps_opcodes_and_other_offsets() {
    let mut code = vec![
        ins(OpCode::Add(1), 3),
        ins(OpCode::JumpIfZero, 77),
        mv(-4),
        ins(OpCode::JumpIfNonZero, 88),
        ins(OpCode::Halt, 5),
    ];
    assert_eq!(resolve_jumps(&mut code), Ok(()));
    assert_eq!(
        code,
        vec![
            ins(OpCode::Add(1), 3),
            ins(OpCode::JumpIfZero, 3),
            mv(-4),
            ins(OpCode::JumpIfNonZero, 1),
            ins(OpCode::Halt, 5),
        ]
    );
}

#[test]
fn resolve_jumps_accepts_code_without_brackets() {
    let mut code = parse("+>.<");
    assert_eq!(resolve_jumps(&mut code), Ok(()));
    assert_eq!(code, parse("+>.<"));
    let mut empty: Vec<Instruction> = Vec::new();
    assert_eq!(resolve_jumps(&mut empty), Ok(()));
}

#[test]
fn resolve_jumps_reports_a_dangling_close_bracket() {
    for source in ["]", "+]", "[]]", "[]][", "][", "[[]]]+[", "]]"] {
        let mut code = parse(source);
        assert_eq!(resolve_jumps(&mut code), Err(JumpError::DanglingCloseBracket), "{}", source);
    }
}

#[test]
fn resolve_jumps_reports_a_dangling_open_bracket() {
    for source in ["[", "[+", "[[]", "[][", "[[[", "[]+[-"] {
        let mut code = parse(source);
        assert_eq!(resolve_jumps(&mut code), Err(JumpError::DanglingOpenBracket), "{}", source);
    }
}

#[test]
fn resolve_jumps_patches_the_pairs_closed_before_it_fails() {
    let mut code = parse("[]]");
    assert_eq!(resolve_jumps(&mut code), Err(JumpError::DanglingCloseBracket));
    assert_eq!(code.iter().map(|i| i.offset).collect::<Vec<_>>(), vec![1, 0, 0]);
    let mut code = parse("[[]");
    assert_eq!(resolve_jumps(&mut code), Err(JumpError::DanglingOpenBracket));
    assert_eq!(code.iter().map(|i| i.offset).collect::<Vec<_>>(), vec![0, 2, 1]);
}

#[test]
fn jump_errors_have_their_messages() {
    assert_eq!(JumpError::DanglingCloseBracket.message(), "parse error: dangling ]");
    assert_eq!(JumpError::DanglingOpenBracket.message(), "parse error: dangling [");
}

#[test]
fn process_code_ends_in_halt_and_resolves_brackets() {
    let code = process_code(parse("+[>+<-]")).unwrap();
    assert_eq!(
        code,
        vec![
            op(OpCode::Add(1)),
            ins(OpCode::JumpIfZero, 5),
            ins(OpCode::NoOp, 1),
            ins(OpCode::Add(1), -1),
            op(OpCode::Add(-1)),
            ins(OpCode::JumpIfNonZero, 1),
            op(OpCode::Halt),
        ]
    );
}

#[test]
fn process_code_of_nothing_is_a_seed_and_a_halt() {
    assert_eq!(process_code(Vec::new()), Ok(vec![op(OpCode::Add(0)), op(OpCode::Halt)]));
}

#[test]
fn process_code_reports_malformed_brackets() {
    assert_eq!(process_code(parse("+]")), Err(JumpError::DanglingCloseBracket));
    assert_eq!(process_code(parse("[[-]")), Err(JumpError::DanglingOpenBracket));
    assert_eq!(process_code(parse("[>]]")), Err(JumpError::DanglingCloseBracket));
}

use tapevm::interpreter::{Context, ExecError, Instruction, OpCode};
use tapevm::compiler::process_code;
use tapevm::optimizer::{optimize, resolve_jumps};

fn parse(source: &str) -> Vec<Instruction> {
    source.chars().map(Instruction::from_char).collect()
}

/// The source, instruction by instruction, with no pass applied.
fn plain(source: &str) -> Vec<Instruction> {
    let mut code = parse(source);
    code.push(Instruction::from_op(OpCode::Halt));
    resolve_jumps(&mut code).unwrap();
    code
}

struct Ended {
    result: Result<(), ExecError>,
    cells: Vec<i8>,
    cursor: i64,
    output: Vec<u8>,
}

fn run(code: &[Instruction], cells: &[i8], cursor: i32, input: &[u8], budget: u64) -> Ended {
    let mut ctx = Context::new(cells.len());
    for (i, v) in cells.iter().enumerate() {
        ctx.set_cell(i as i32, *v).unwrap();
    }
    ctx.move_cursor(cursor);
    for b in input {
        ctx.feed(*b);
    }
    let result = ctx.execute(code, budget);
    let cells = (0..ctx.len() as i64)
        .map(|i| ctx.cell((i - ctx.cursor()) as i32).unwrap())
        .collect();
    Ended { result, cells, cursor: ctx.cursor(), output: ctx.output().clone() }
}

fn assert_alike(source: &str, cells: &[i8], cursor: i32, input: &[u8]) {
    let slow = run(&plain(source), cells, cursor, input, 1_000_000);
    let fast = run(&process_code(parse(source)).unwrap(), cells, cursor, input, 1_000_000);
    assert_eq!(slow.result, Ok(()), "{}", source);
    assert_eq!(fast.result, Ok(()), "{}", source);
    assert_eq!(fast.output, slow.output, "{}", source);
    assert_eq!(fast.cells, slow.cells, "{}", source);
    assert_eq!(fast.cursor, slow.cursor, "{}", source);
}

const HELLO: &str = "++++++++++[>+++++++>++++++++++>+++>+<<<<-]>++.>+.+++++++..+++.>++.\
                     <<+++++++++++++++.>.+++.------.--------.>+.>.";

#[test]
fn hello_world_prints_the_same_optimized() {
    let fast = run(&process_code(parse(HELLO)).unwrap(), &[0; 8], 0, &[], 10_000);
    assert_eq!(fast.result, Ok(()));
    assert_eq!(fast.output, b"Hello World!\n".to_vec());
    assert_alike(HELLO, &[0; 8], 0, &[]);
}

#[test]
fn optimized_code_is_shorter_and_takes_fewer_steps() {
    let slow = plain(HELLO);
    let fast = process_code(parse(HELLO)).unwrap();
    assert!(fast.len() < slow.len());
    let mut budget = 0;
    while run(&fast, &[0; 8], 0, &[], budget).result.is_err() {
        budget += 1;
    }
    assert_eq!(run(&slow, &[0; 8], 0, &[], budget).result, Err(ExecError::Unfinished));
}

#[test]
fn optimized_programs_halt_on_the_same_tape() {
    let tapes: [&[i8]; 4] =
        [&[0, 0, 0, 0, 0, 0], &[5, 0, 3, 0, 0, 0], &[-1, 2, -3, 4, 0, 7], &[1, 1, 1, 0, 1, 0]];
    let sources = [
        "",
        "+",
        "+++>++<-",
        "+-",
        "+-.",
        "><",
        ">>+<<-",
        "[-]",
        "[+]",
        ">[-]<[-]",
        "[->>+<<]",
        "[+>>-<<]",
        "[->+<]>[-<+>]<",
        ">>[-<<+>>]<<",
        "[>]",
        "[>].",
        "[>]+",
        ">>>>>[<]",
        ",.,.,.",
        ",[.,]",
        ",>,<[->+<]>.",
        "++[>+++[>++<-]<-]>>.",
        "+++[>+++[>+++<-]<-]>>[-<+<+>>]<.<.",
        "a comment + with . symbols , in it",
        "+[-[-]]",
        "-[+]",
        "+[[-]]",
    ];
    for source in sources {
        for cells in tapes {
            for input in [&b""[..], &b"A"[..], &[200u8, 0, 3][..]] {
                assert_alike(source, cells, 0, input);
            }
        }
    }
}

#[test]
fn optimized_programs_halt_alike_from_any_cursor() {
    for cursor in 0..4 {
        assert_alike("[-]>[-]", &[3, 4, 5, 6, 7], cursor, &[]);
        assert_alike("[->+<]", &[3, 4, 5, 6, 7], cursor, &[]);
        assert_alike("+.>-.", &[3, 4, 5, 6, 7], cursor, &[]);
    }
    assert_alike("<<[-]", &[3, 4, 5], 2, &[]);
    assert_alike("<[-<+>]", &[3, 4, 5], 2, &[]);
}

#[test]
fn seek_loops_with_a_stride_halt_alike() {
    assert_alike("[>>]", &[1, 0, 1, 0, 0, 0], 0, &[]);
    assert_alike("[>>>]", &[1, 0, 0, 1, 0, 0, 0], 0, &[]);
    assert_alike("[<<]", &[0, 0, 1, 0, 1], 4, &[]);
    assert_alike("+[>+]", &[0, 5, -1, 0], 0, &[]);
}

#[test]
fn optimized_programs_wrap_like_plain_ones() {
    assert_alike("-", &[-128], 0, &[]);
    assert_alike("+", &[127], 0, &[]);
    assert_alike("[->+<]", &[100, 100], 0, &[]);
    assert_alike("[+>-<]", &[100, 100], 0, &[]);
    assert_alike("[-]", &[-128], 0, &[]);
    assert_alike("[+]", &[1], 0, &[]);
    assert_alike(&"+".repeat(300), &[0], 0, &[]);
    assert_alike(&"-".repeat(300), &[7], 0, &[]);
}

#[test]
fn both_fail_where_a_cell_off_the_tape_is_addressed() {
    for source in [">>+", "<.", "+[>+]", "[->>>+<<<]", "[<]", "+[>]", "[>>]"] {
        let slow = run(&plain(source), &[1, 1], 0, &[], 100_000);
        let fast = run(&process_code(parse(source)).unwrap(), &[1, 1], 0, &[], 100_000);
        assert_eq!(slow.result, Err(ExecError::OutOfBounds), "{}", source);
        assert_eq!(fast.result, Err(ExecError::OutOfBounds), "{}", source);
        assert_eq!(fast.output, slow.output, "{}", source);
    }
}

#[test]
fn both_run_on_where_a_loop_never_ends() {
    for source in ["+[]", "+[>+<]", "+[.]", "+[-+]", "+[><]"] {
        let slow = run(&plain(source), &[0, 0], 0, &[], 5_000);
        let fast = run(&process_code(parse(source)).unwrap(), &[0, 0], 0, &[], 5_000);
        assert_eq!(slow.result, Err(ExecError::Unfinished), "{}", source);
        assert_eq!(fast.result, Err(ExecError::Unfinished), "{}", source);
    }
}

#[test]
fn a_seek_loop_merged_with_a_move_stays_on_the_zero_cell() {
    let code = optimize(parse("[>]>"));
    assert_eq!(code, vec![Instruction { opcode: OpCode::FindZero(1), offset: 1 }]);
    let fast = run(&process_code(parse("[>]>")).unwrap(), &[1, 1, 0, 0], 0, &[], 100);
    assert_eq!(fast.result, Ok(()));
    assert_eq!(fast.cursor, 2);
}

#[test]
fn an_add_of_nothing_still_addresses_its_cell() {
    // Nothing to run, but the pipeline yields its seed, which addresses the
    // current cell.
    let fast = run(&process_code(Vec::new()).unwrap(), &[], 0, &[], 100);
    assert_eq!(fast.result, Err(ExecError::OutOfBounds));
    let slow = run(&plain(""), &[], 0, &[], 100);
    assert_eq!(slow.result, Ok(()));
}

#[test]
fn an_access_that_is_optimized_away_cannot_fail() {
    // The plain program addresses a cell left of the tape; the two adds
    // cancel, and the optimized program addresses none.
    let slow = run(&plain("<+->"), &[0], 0, &[], 100);
    assert_eq!(slow.result, Err(ExecError::OutOfBounds));
    let fast = run(&process_code(parse("<+->")).unwrap(), &[0], 0, &[], 100);
    assert_eq!(fast.result, Ok(()));
    assert_eq!(fast.cursor, 0);
}

//! The instruction set and the tape machine that executes it.
//!
//! The machine is described twice: once as a mathematical model
//! ([`Machine`], [`Instruction::effect`], [`run`]) and once as executable
//! code ([`Context`], [`Instruction::execute`], [`Context::execute`]) that is
//! proved to follow the model step for step.

use vstd::prelude::*;

verus! {

/// Instruction offsets: cursor displacements and resolved jump targets.
pub type BfOffset = i32;

/// Cell values and opcode payloads; all arithmetic on them wraps at 8 bits.
pub type BfValue = i8;

/// The longest tape a [`Context`] can hold: every cell index fits a
/// [`BfOffset`].
pub const MAX_TAPE: usize = 0x7fff_ffff;

/// The farthest from the origin a cursor may stand when a single
/// instruction is executed: any displacement from here is representable.
pub const CURSOR_REACH: i64 = 0x7fff_ffff_0000_0000;

/// The farthest from the origin a cursor may stand when a whole program is
/// started: however the program moves it, each displacement is representable.
pub const CURSOR_START: i64 = 0x4000_0000_0000_0000;

#[derive(Copy, Clone, Debug, PartialEq, Eq, Structural)]
pub enum OpCode {
    /// Ends the run.
    Halt,
    /// Touches no cell; the instruction's offset is a cursor displacement.
    NoOp,
    /// Adds the payload to the current cell, wrapping.
    Add(BfValue),
    /// Stores the next input byte in the current cell, or 0 at end of input.
    Input,
    /// Emits the current cell as one byte.
    Output,
    /// Opening bracket: jumps behind its partner when the current cell is 0.
    JumpIfZero,
    /// Closing bracket: jumps behind its partner when the current cell is not 0.
    JumpIfNonZero,
    /// Stores the payload in the current cell.
    SetCell(BfValue),
    /// Steps the cursor by the payload until it stands on a zero cell.
    FindZero(BfValue),
    /// Adds the current cell to the cell at the payload's distance and clears
    /// the current cell; does nothing when the current cell is 0.
    MoveAndAddTo(BfValue),
}

#[derive(Copy, Clone, Debug, PartialEq, Eq, Structural)]
pub struct Instruction {
    pub opcode: OpCode,
    /// For `NoOp` the displacement itself, for a resolved bracket the index
    /// of its partner, for every other opcode a displacement applied after
    /// the opcode's effect.
    pub offset: BfOffset,
}

/// Why a run stopped before reaching `Halt`.
#[derive(Copy, Clone, Debug, PartialEq, Eq, Structural)]
pub enum ExecError {
    /// A cell outside the tape was addressed.
    OutOfBounds,
    /// The step budget ran out, or an instruction can never complete.
    Unfinished,
}

/// Sum of two cell values modulo 256, in two's complement.
pub open spec fn wrap_add(a: BfValue, b: BfValue) -> BfValue {
    if a + b > 127 {
        (a + b - 256) as BfValue
    } else if a + b < -128 {
        (a + b + 256) as BfValue
    } else {
        (a + b) as BfValue
    }
}

/// The raw byte with the same bit pattern as a cell value.
pub open spec fn byte_of(v: BfValue) -> u8 {
    if v >= 0 {
        v as u8
    } else {
        (v + 256) as u8
    }
}

/// The cell value with the same bit pattern as a raw byte.
pub open spec fn value_of(b: u8) -> BfValue {
    if b < 128 {
        b as BfValue
    } else {
        (b - 256) as BfValue
    }
}

/// The instruction a source character stands for.
pub open spec fn parse_char(c: char) -> Instruction {
    if c == '+' {
        Instruction { opcode: OpCode::Add(1), offset: 0 }
    } else if c == '-' {
        Instruction { opcode: OpCode::Add(-1i8), offset: 0 }
    } else if c == '>' {
        Instruction { opcode: OpCode::NoOp, offset: 1 }
    } else if c == '<' {
        Instruction { opcode: OpCode::NoOp, offset: -1i32 }
    } else if c == '[' {
        Instruction { opcode: OpCode::JumpIfZero, offset: 0 }
    } else if c == ']' {
        Instruction { opcode: OpCode::JumpIfNonZero, offset: 0 }
    } else if c == '.' {
        Instruction { opcode: OpCode::Output, offset: 0 }
    } else if c == ',' {
        Instruction { opcode: OpCode::Input, offset: 0 }
    } else {
        Instruction { opcode: OpCode::NoOp, offset: 0 }
    }
}

/// The state of a tape machine, as the contracts see it.
pub struct Machine {
    pub cells: Seq<BfValue>,
    /// Position of the current cell; it may stand outside the tape as long
    /// as no cell is addressed.
    pub cursor: int,
    pub pc: int,
    /// Input bytes not yet consumed.
    pub input: Seq<u8>,
    /// Bytes emitted so far.
    pub output: Seq<u8>,
}

impl Machine {
    /// Whether the cell at `offset` from the cursor lies on the tape.
    pub open spec fn addressable(self, offset: int) -> bool {
        0 <= self.cursor + offset < self.cells.len()
    }

    pub open spec fn cell(self, offset: int) -> BfValue {
        self.cells[self.cursor + offset]
    }

    pub open spec fn store(self, offset: int, value: BfValue) -> Machine {
        Machine { cells: self.cells.update(self.cursor + offset, value), ..self }
    }

    pub open spec fn shift(self, amount: int) -> Machine {
        Machine { cursor: self.cursor + amount, ..self }
    }

    pub open spec fn goto(self, target: int) -> Machine {
        Machine { pc: target, ..self }
    }

    /// The next input byte as a cell value, 0 at end of input.
    pub open spec fn next_input(self) -> BfValue {
        if self.input.len() > 0 {
            value_of(self.input[0])
        } else {
            0
        }
    }

    pub open spec fn consume_input(self) -> Machine {
        if self.input.len() > 0 {
            Machine { input: self.input.skip(1), ..self }
        } else {
            self
        }
    }

    pub open spec fn emit(self, value: BfValue) -> Machine {
        Machine { output: self.output.push(byte_of(value)), ..self }
    }
}

/// Where a walk in equal steps ends.
pub enum Seek {
    /// On the first zero cell met, at this position.
    At(int),
    /// Outside the tape, every cell met before being non-zero.
    OffTape,
    /// Nowhere: the step is 0 and the cell is not.
    Never,
}

/// Walks from `cursor` in steps of `step` until a zero cell is met.
pub open spec fn seek_zero(cells: Seq<BfValue>, cursor: int, step: int) -> Seek
    decreases
        (if !(0 <= cursor < cells.len()) {
            0
        } else if step > 0 {
            cells.len() - cursor
        } else {
            cursor + 1
        }),
{
    if !(0 <= cursor < cells.len()) {
        Seek::OffTape
    } else if cells[cursor] == 0 {
        Seek::At(cursor)
    } else if step == 0 {
        Seek::Never
    } else {
        seek_zero(cells, cursor + step, step)
    }
}

/// A walk that ends on a cell ends on a zero cell of the tape.
pub proof fn lemma_seek_zero_lands(cells: Seq<BfValue>, cursor: int, step: int)
    ensures
        match seek_zero(cells, cursor, step) {
            Seek::At(c) => 0 <= c < cells.len() && cells[c] == 0,
            _ => true,
        },
    decreases
        (if !(0 <= cursor < cells.len()) {
            0
        } else if step > 0 {
            cells.len() - cursor
        } else {
            cursor + 1
        }),
{
    if 0 <= cursor < cells.len() && cells[cursor] != 0 && step != 0 {
        lemma_seek_zero_lands(cells, cursor + step, step);
    }
}

/// What executing one instruction does to a machine.
pub enum Step {
    /// The instruction was `Halt`.
    Halted,
    /// The instruction completed and left this state. The program counter
    /// is the one it was fetched at, or a jump's target.
    Next(Machine),
    /// The instruction addressed a cell outside the tape.
    OutOfBounds,
    /// The instruction can never complete.
    Stuck,
}

impl Instruction {
    /// What executing this instruction does to `m`.
    pub open spec fn effect(self, m: Machine) -> Step {
        match self.opcode {
            OpCode::Halt => Step::Halted,
            OpCode::NoOp => Step::Next(m.shift(self.offset as int)),
            OpCode::SetCell(value) => if m.addressable(0) {
                Step::Next(m.store(0, value).shift(self.offset as int))
            } else {
                Step::OutOfBounds
            },
            OpCode::Add(delta) => if m.addressable(0) {
                Step::Next(m.store(0, wrap_add(m.cell(0), delta)).shift(self.offset as int))
            } else {
                Step::OutOfBounds
            },
            OpCode::MoveAndAddTo(target) => if !m.addressable(0) {
                Step::OutOfBounds
            } else if m.cell(0) == 0 {
                Step::Next(m.shift(self.offset as int))
            } else if !m.addressable(target as int) {
                Step::OutOfBounds
            } else {
                Step::Next(
                    m.store(target as int, wrap_add(m.cell(target as int), m.cell(0))).store(
                        0,
                        0,
                    ).shift(self.offset as int),
                )
            },
            OpCode::Input => if m.addressable(0) {
                Step::Next(m.store(0, m.next_input()).consume_input().shift(self.offset as int))
            } else {
                Step::OutOfBounds
            },
            OpCode::Output => if m.addressable(0) {
                Step::Next(m.emit(m.cell(0)).shift(self.offset as int))
            } else {
                Step::OutOfBounds
            },
            OpCode::JumpIfZero => if !m.addressable(0) {
                Step::OutOfBounds
            } else if m.cell(0) == 0 {
                Step::Next(m.goto(self.offset as int))
            } else {
                Step::Next(m)
            },
            OpCode::JumpIfNonZero => if !m.addressable(0) {
                Step::OutOfBounds
            } else if m.cell(0) != 0 {
                Step::Next(m.goto(self.offset as int))
            } else {
                Step::Next(m)
            },
            OpCode::FindZero(step) => match seek_zero(m.cells, m.cursor, step as int) {
                Seek::At(cursor) => Step::Next(Machine { cursor, ..m }),
                Seek::OffTape => Step::OutOfBounds,
                Seek::Never => Step::Stuck,
            },
        }
    }

    /// Whether the opcode is one of the two brackets.
    pub open spec fn is_bracket(self) -> bool {
        self.opcode is JumpIfZero || self.opcode is JumpIfNonZero
    }
}

/// An instruction that completes leaves the cursor on the tape if it is a
/// bracket or a `FindZero`, and otherwise moves it by its offset.
pub proof fn lemma_effect_cursor(ins: Instruction, m: Machine)
    ensures
        match ins.effect(m) {
            Step::Next(n) => n.cells.len() == m.cells.len() && if ins.is_bracket()
                || ins.opcode is FindZero {
                0 <= n.cursor < m.cells.len()
            } else {
                n.cursor == m.cursor + ins.offset
            },
            _ => true,
        },
{
    if let OpCode::FindZero(step) = ins.opcode {
        lemma_seek_zero_lands(m.cells, m.cursor, step as int);
    }
}

/// A sequence that the machine can run: it ends in `Halt`, its indices fit
/// an offset, and each bracket holds the index of a bracket of the other
/// kind that holds its index in turn, the opening one standing first.
pub open spec fn is_program(code: Seq<Instruction>) -> bool {
    &&& 0 < code.len() <= MAX_TAPE
    &&& code.last().opcode is Halt
    &&& forall|i: int|
        0 <= i < code.len() && (#[trigger] code[i]).opcode is JumpIfZero ==> {
            let j = code[i].offset as int;
            i < j < code.len() && code[j].opcode is JumpIfNonZero && code[j].offset == i
        }
    &&& forall|j: int|
        0 <= j < code.len() && (#[trigger] code[j]).opcode is JumpIfNonZero ==> {
            let i = code[j].offset as int;
            0 <= i < j && code[i].opcode is JumpIfZero && code[i].offset == j
        }
}

/// One fetch-execute cycle at `m.pc`: the fetched instruction's effect, with
/// the program counter moved behind the instruction or behind its jump's
/// target.
pub open spec fn step_at(code: Seq<Instruction>, m: Machine) -> Step {
    if 0 <= m.pc < code.len() {
        match code[m.pc].effect(m) {
            Step::Next(n) => Step::Next(n.goto(n.pc + 1)),
            other => other,
        }
    } else {
        Step::Stuck
    }
}

/// How a run ended.
pub enum Outcome {
    Halted,
    OutOfBounds,
    Unfinished,
}

/// Runs `code` from `m` for at most `fuel` fetches. Returns how the run
/// ended and the state before the fetch at which it ended.
pub open spec fn run(code: Seq<Instruction>, m: Machine, fuel: nat) -> (Outcome, Machine)
    decreases fuel,
{
    if fuel == 0 {
        (Outcome::Unfinished, m)
    } else {
        match step_at(code, m) {
            Step::Halted => (Outcome::Halted, m),
            Step::OutOfBounds => (Outcome::OutOfBounds, m),
            Step::Stuck => (Outcome::Unfinished, m),
            Step::Next(n) => run(code, n, (fuel - 1) as nat),
        }
    }
}

impl Instruction {
    pub fn from(op: OpCode, offset: BfOffset) -> (r: Self)
        ensures
            r == (Instruction { opcode: op, offset: offset }),
    {
        Instruction { opcode: op, offset: offset }
    }

    pub fn from_op(op: OpCode) -> (r: Self)
        ensures
            r == (Instruction { opcode: op, offset: 0 }),
    {
        Instruction::from(op, 0)
    }

    pub fn from_char(c: char) -> (r: Self)
        ensures
            r == parse_char(c),
    {
        match c {
            '+' => Instruction::from_op(OpCode::Add(1)),
            '-' => Instruction::from_op(OpCode::Add(-1)),
            '>' => Instruction::from(OpCode::NoOp, 1),
            '<' => Instruction::from(OpCode::NoOp, -1),
            '[' => Instruction::from_op(OpCode::JumpIfZero),
            ']' => Instruction::from_op(OpCode::JumpIfNonZero),
            '.' => Instruction::from_op(OpCode::Output),
            ',' => Instruction::from_op(OpCode::Input),
            _ => Instruction::from_op(OpCode::NoOp),
        }
    }

    /// Whether the opcode gives the offset a meaning of its own, so that no
    /// displacement may be folded into it.
    pub open spec fn uses_offset(self) -> bool {
        self.opcode is NoOp || self.opcode is JumpIfZero || self.opcode is JumpIfNonZero
    }

    pub fn use_offset(&self) -> (r: bool)
        ensures
            r == self.uses_offset(),
    {
        match self.opcode {
            OpCode::NoOp | OpCode::JumpIfZero | OpCode::JumpIfNonZero => true,
            _ => false,
        }
    }

    /// The offset as a cell value, where it is one.
    pub open spec fn offset_value(self) -> Option<BfValue> {
        if -128 <= self.offset <= 127 {
            Some(self.offset as BfValue)
        } else {
            None
        }
    }

    pub fn offset_to_value(&self) -> (r: Option<BfValue>)
        ensures
            r == self.offset_value(),
    {
        if -128 <= self.offset && self.offset <= 127 {
            Some(self.offset as BfValue)
        } else {
            None
        }
    }

    /// Executes this instruction on `ctx`. Returns `Ok(false)` for `Halt`
    /// and `Ok(true)` where the run goes on; the caller moves the program
    /// counter behind the instruction. On an error `ctx` is left as it was.
    pub fn execute(&self, ctx: &mut Context) -> (r: Result<bool, ExecError>)
        requires
            old(ctx).wf(),
            -CURSOR_REACH <= old(ctx)@.cursor <= CURSOR_REACH,
            self.is_bracket() ==> self.offset >= 0,
        ensures
            final(ctx).wf(),
            match self.effect(old(ctx)@) {
                Step::Halted => r == Ok::<bool, ExecError>(false) && final(ctx)@ == old(ctx)@,
                Step::Next(m) => r == Ok::<bool, ExecError>(true) && final(ctx)@ == m,
                Step::OutOfBounds => r == Err::<bool, ExecError>(ExecError::OutOfBounds)
                    && final(ctx)@ == old(ctx)@,
                Step::Stuck => r == Err::<bool, ExecError>(ExecError::Unfinished) && final(ctx)@
                    == old(ctx)@,
            },
    {
        let mut offset = self.offset;
        match self.opcode {
            OpCode::Halt => {
                return Ok(false);
            },
            OpCode::NoOp => {},
            OpCode::SetCell(val) => {
                ctx.set_cell(0, val)?;
            },
            OpCode::Add(val) => {
                let cur = ctx.cell(0)?;
                ctx.set_cell(0, cur.wrapping_add(val))?;
            },
            OpCode::MoveAndAddTo(target) => {
                let cur = ctx.cell(0)?;
                if cur != 0 {
                    let target = target as BfOffset;
                    let there = ctx.cell(target)?;
                    ctx.set_cell(target, there.wrapping_add(cur))?;
                    ctx.set_cell(0, 0)?;
                }
            },
            OpCode::Input => {
                let _ = ctx.get_index(0)?;
                let val = ctx.read();
                ctx.set_cell(0, val)?;
            },
            OpCode::Output => {
                let cur = ctx.cell(0)?;
                ctx.write(cur);
            },
            OpCode::JumpIfZero => {
                if ctx.cell(0)? == 0 {
                    ctx.jump(offset);
                }
                offset = 0;
            },
            OpCode::JumpIfNonZero => {
                if ctx.cell(0)? != 0 {
                    ctx.jump(offset);
                }
                offset = 0;
            },
            OpCode::FindZero(step) => {
                let found = ctx.find_zero(step)?;
                ctx.move_cursor_to(found);
                offset = 0;
            },
        }
        ctx.move_cursor(offset);
        Ok(true)
    }
}

/// A tape machine: a fixed number of cells, a cursor, a program counter, the
/// input still to be read and the output written so far.
pub struct Context {
    cells: Vec<BfValue>,
    cursor: i64,
    pc: usize,
    input: Vec<u8>,
    consumed: usize,
    output: Vec<u8>,
}

impl Context {
    /// The machine this context stands for.
    pub closed spec fn view(&self) -> Machine {
        Machine {
            cells: self.cells@,
            cursor: self.cursor as int,
            pc: self.pc as int,
            input: self.input@.skip(self.consumed as int),
            output: self.output@,
        }
    }

    /// The tape is no longer than [`MAX_TAPE`].
    pub closed spec fn wf(&self) -> bool {
        &&& self.cells.len() <= MAX_TAPE
        &&& self.consumed <= self.input.len()
    }

    /// A well-formed context holds a tape no longer than [`MAX_TAPE`], so
    /// that a cursor on the tape, or within [`CURSOR_START`] of it, is within
    /// reach.
    pub proof fn lemma_wf_tape(&self)
        requires
            self.wf(),
        ensures
            self@.cells.len() <= MAX_TAPE,
            self@.addressable(0) ==> -CURSOR_START <= self@.cursor <= CURSOR_START,
    {
    }

    /// A machine with `size` zero cells, the cursor on the first of them, no
    /// input and no output.
    pub fn new(size: usize) -> (ctx: Self)
        requires
            size <= MAX_TAPE,
        ensures
            ctx.wf(),
            ctx@ == (Machine {
                cells: Seq::new(size as nat, |i: int| 0i8),
                cursor: 0,
                pc: 0,
                input: Seq::empty(),
                output: Seq::empty(),
            }),
    {
        let ctx = Context {
            cells: vec![0i8; size],
            cursor: 0,
            pc: 0,
            input: Vec::new(),
            consumed: 0,
            output: Vec::new(),
        };
        assert(ctx.cells@ =~= Seq::new(size as nat, |i: int| 0i8));
        assert(ctx.input@.skip(0) =~= Seq::empty());
        ctx
    }

    /// Index of the cell at `offset` from the cursor.
    pub fn get_index(&self, offset: BfOffset) -> (r: Result<usize, ExecError>)
        requires
            self.wf(),
            -CURSOR_REACH <= self@.cursor <= CURSOR_REACH,
        ensures
            match r {
                Ok(i) => self@.addressable(offset as int) && i == self@.cursor + offset,
                Err(e) => !self@.addressable(offset as int) && e == ExecError::OutOfBounds,
            },
    {
        let at: i64 = self.cursor + offset as i64;
        if at < 0 || at >= self.cells.len() as i64 {
            Err(ExecError::OutOfBounds)
        } else {
            Ok(at as usize)
        }
    }

    /// The cell at `offset` from the cursor.
    pub fn cell(&self, offset: BfOffset) -> (r: Result<BfValue, ExecError>)
        requires
            self.wf(),
            -CURSOR_REACH <= self@.cursor <= CURSOR_REACH,
        ensures
            match r {
                Ok(v) => self@.addressable(offset as int) && v == self@.cell(offset as int),
                Err(e) => !self@.addressable(offset as int) && e == ExecError::OutOfBounds,
            },
    {
        let idx = self.get_index(offset)?;
        Ok(self.cells[idx])
    }

    /// Stores `value` in the cell at `offset` from the cursor.
    pub fn set_cell(&mut self, offset: BfOffset, value: BfValue) -> (r: Result<(), ExecError>)
        requires
            old(self).wf(),
            -CURSOR_REACH <= old(self)@.cursor <= CURSOR_REACH,
        ensures
            final(self).wf(),
            match r {
                Ok(_) => old(self)@.addressable(offset as int) && final(self)@ == old(self)@.store(
                    offset as int,
                    value,
                ),
                Err(e) => !old(self)@.addressable(offset as int) && e == ExecError::OutOfBounds
                    && final(self)@ == old(self)@,
            },
    {
        let idx = self.get_index(offset)?;
        self.cells.set(idx, value);
        Ok(())
    }

    /// Moves the cursor by `amount`; no cell is addressed.
    pub fn move_cursor(&mut self, amount: BfOffset)
        requires
            old(self).wf(),
            i64::MIN <= old(self)@.cursor + amount <= i64::MAX,
        ensures
            final(self).wf(),
            final(self)@ == old(self)@.shift(amount as int),
    {
        self.cursor = self.cursor + amount as i64;
    }

    fn move_cursor_to(&mut self, position: i64)
        requires
            old(self).wf(),
        ensures
            final(self).wf(),
            final(self)@ == (Machine { cursor: position as int, ..old(self)@ }),
    {
        self.cursor = position;
    }

    /// Sets the program counter.
    pub fn jump(&mut self, val: BfOffset)
        requires
            old(self).wf(),
            val >= 0,
        ensures
            final(self).wf(),
            final(self)@ == old(self)@.goto(val as int),
    {
        self.pc = val as usize;
    }

    /// Takes the next input byte as a cell value; 0 once the input is used up.
    pub fn read(&mut self) -> (r: BfValue)
        requires
            old(self).wf(),
        ensures
            final(self).wf(),
            r == old(self)@.next_input(),
            final(self)@ == old(self)@.consume_input(),
    {
        if self.consumed < self.input.len() {
            let b = self.input[self.consumed];
            self.consumed = self.consumed + 1;
            proof {
                assert(old(self).input@.skip(old(self).consumed as int)[0] == b);
                assert(self.input@.skip(self.consumed as int) =~= old(self).input@.skip(
                    old(self).consumed as int,
                ).skip(1));
            }
            if b < 128 {
                b as BfValue
            } else {
                (b as i16 - 256) as BfValue
            }
        } else {
            0
        }
    }

    /// Appends `val` to the output as one raw byte.
    pub fn write(&mut self, val: BfValue)
        requires
            old(self).wf(),
        ensures
            final(self).wf(),
            final(self)@ == old(self)@.emit(val),
    {
        let b: u8 = if val >= 0 {
            val as u8
        } else {
            (val as i16 + 256) as u8
        };
        self.output.push(b);
    }

    /// Appends `byte` to the input still to be read.
    pub fn feed(&mut self, byte: u8)
        requires
            old(self).wf(),
        ensures
            final(self).wf(),
            final(self)@ == (Machine { input: old(self)@.input.push(byte), ..old(self)@ }),
    {
        self.input.push(byte);
        proof {
            assert(self.input@.skip(self.consumed as int) =~= old(self).input@.skip(
                old(self).consumed as int,
            ).push(byte));
        }
    }

    /// Hands out the output written so far and starts a new, empty one.
    pub fn take_output(&mut self) -> (out: Vec<u8>)
        requires
            old(self).wf(),
        ensures
            final(self).wf(),
            out@ == old(self)@.output,
            final(self)@ == (Machine { output: Seq::empty(), ..old(self)@ }),
    {
        let mut out: Vec<u8> = Vec::new();
        std::mem::swap(&mut self.output, &mut out);
        out
    }

    /// The output written so far.
    pub fn output(&self) -> (out: &Vec<u8>)
        ensures
            out@ == self@.output,
    {
        &self.output
    }

    pub fn cursor(&self) -> (r: i64)
        ensures
            r == self@.cursor,
    {
        self.cursor
    }

    pub fn pc(&self) -> (r: usize)
        ensures
            r == self@.pc,
    {
        self.pc
    }

    /// Number of cells on the tape.
    pub fn len(&self) -> (r: usize)
        ensures
            r == self@.cells.len(),
    {
        self.cells.len()
    }

    /// Walks from the cursor in steps of `step` to the first zero cell and
    /// returns its position; the cursor itself stays.
    fn find_zero(&self, step: BfValue) -> (r: Result<i64, ExecError>)
        requires
            self.wf(),
        ensures
            match seek_zero(self@.cells, self@.cursor, step as int) {
                Seek::At(cursor) => r == Ok::<i64, ExecError>(cursor as i64) && 0 <= cursor
                    < self@.cells.len(),
                Seek::OffTape => r == Err::<i64, ExecError>(ExecError::OutOfBounds),
                Seek::Never => r == Err::<i64, ExecError>(ExecError::Unfinished),
            },
    {
        let mut at: i64 = self.cursor;
        loop
            invariant
                self.wf(),
                seek_zero(self@.cells, at as int, step as int) == seek_zero(
                    self@.cells,
                    self@.cursor,
                    step as int,
                ),
            decreases
                (if !(0 <= at < self.cells.len()) {
                    0
                } else if step > 0 {
                    self.cells.len() - at + 1
                } else {
                    at + 2
                }),
        {
            if at < 0 || at >= self.cells.len() as i64 {
                return Err(ExecError::OutOfBounds);
            }
            if self.cells[at as usize] == 0 {
                return Ok(at);
            }
            if step == 0 {
                return Err(ExecError::Unfinished);
            }
            at = at + step as i64;
        }
    }

    /// One fetch-execute cycle: executes the instruction at the program
    /// counter and moves the counter behind it, or behind its jump's target.
    /// Returns `Ok(false)` on `Halt`. On `Halt` and on an error the machine
    /// is left as it was.
    pub fn step(&mut self, code: &[Instruction]) -> (r: Result<bool, ExecError>)
        requires
            old(self).wf(),
            is_program(code@),
            0 <= old(self)@.pc < code@.len(),
            -CURSOR_REACH <= old(self)@.cursor <= CURSOR_REACH,
        ensures
            final(self).wf(),
            match step_at(code@, old(self)@) {
                Step::Halted => r == Ok::<bool, ExecError>(false) && final(self)@ == old(self)@,
                Step::Next(m) => r == Ok::<bool, ExecError>(true) && final(self)@ == m && 0 <= m.pc
                    < code@.len(),
                Step::OutOfBounds => r == Err::<bool, ExecError>(ExecError::OutOfBounds)
                    && final(self)@ == old(self)@,
                Step::Stuck => r == Err::<bool, ExecError>(ExecError::Unfinished) && final(self)@
                    == old(self)@,
            },
    {
        let ins = code[self.pc];
        let go_on = ins.execute(self)?;
        if go_on {
            self.pc = self.pc + 1;
        }
        Ok(go_on)
    }

    /// Runs `code` from its first instruction until `Halt`, for at most
    /// `max_steps` fetches. The tape, the cursor, the input and the output
    /// are left as the run left them, the program counter as it was before
    /// the call.
    pub fn execute(&mut self, code: &[Instruction], max_steps: u64) -> (r: Result<(), ExecError>)
        requires
            old(self).wf(),
            is_program(code@),
            -CURSOR_START <= old(self)@.cursor <= CURSOR_START,
        ensures
            final(self).wf(),
            ({
                let (outcome, m) = run(code@, old(self)@.goto(0), max_steps as nat);
                &&& final(self)@ == m.goto(old(self)@.pc)
                &&& match outcome {
                    Outcome::Halted => r == Ok::<(), ExecError>(()),
                    Outcome::OutOfBounds => r == Err::<(), ExecError>(ExecError::OutOfBounds),
                    Outcome::Unfinished => r == Err::<(), ExecError>(ExecError::Unfinished),
                }
            }),
    {
        let old_pc = self.pc;
        self.pc = 0;
        let mut steps: u64 = 0;
        let mut result: Result<(), ExecError> = Err(ExecError::Unfinished);
        while steps < max_steps
            invariant_except_break
                result == Err::<(), ExecError>(ExecError::Unfinished),
                run(code@, self@, (max_steps - steps) as nat) == run(
                    code@,
                    old(self)@.goto(0),
                    max_steps as nat,
                ),
            invariant
                self.wf(),
                is_program(code@),
                steps <= max_steps,
                0 <= self@.pc < code@.len(),
                -(CURSOR_START + self@.pc * 0x8000_0000) <= self@.cursor <= CURSOR_START + self@.pc
                    * 0x8000_0000,
            ensures
                ({
                    let (outcome, m) = run(code@, old(self)@.goto(0), max_steps as nat);
                    &&& self@ == m
                    &&& match outcome {
                        Outcome::Halted => result == Ok::<(), ExecError>(()),
                        Outcome::OutOfBounds => result == Err::<(), ExecError>(
                            ExecError::OutOfBounds,
                        ),
                        Outcome::Unfinished => result == Err::<(), ExecError>(
                            ExecError::Unfinished,
                        ),
                    }
                }),
            decreases max_steps - steps,
        {
            proof {
                lemma_effect_cursor(code@[self@.pc], self@);
            }
            match self.step(code) {
                Ok(true) => {
                    steps = steps + 1;
                },
                Ok(false) => {
                    result = Ok(());
                    break ;
                },
                Err(e) => {
                    result = Err(e);
                    break ;
                },
            }
        }
        self.pc = old_pc;
        result
    }
}

} // verus!

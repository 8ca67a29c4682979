//! Loop idioms as data: the opcode shapes of a window of instructions, and
//! for each idiom the rule that decides what a window of that shape becomes.

use vstd::prelude::*;
use std::collections::VecDeque;
use crate::interpreter::{BfValue, Instruction, OpCode};

verus! {

/// Which variant an opcode is, whatever its payload.
#[derive(Copy, Clone, Debug, PartialEq, Eq, Structural)]
pub enum Shape {
    Halt,
    NoOp,
    Add,
    Input,
    Output,
    JumpIfZero,
    JumpIfNonZero,
    SetCell,
    FindZero,
    MoveAndAddTo,
}

pub open spec fn shape_of(op: OpCode) -> Shape {
    match op {
        OpCode::Halt => Shape::Halt,
        OpCode::NoOp => Shape::NoOp,
        OpCode::Add(_) => Shape::Add,
        OpCode::Input => Shape::Input,
        OpCode::Output => Shape::Output,
        OpCode::JumpIfZero => Shape::JumpIfZero,
        OpCode::JumpIfNonZero => Shape::JumpIfNonZero,
        OpCode::SetCell(_) => Shape::SetCell,
        OpCode::FindZero(_) => Shape::FindZero,
        OpCode::MoveAndAddTo(_) => Shape::MoveAndAddTo,
    }
}

/// A window fits a template if it has the template's length and shapes and
/// every instruction before its last either gives its offset a meaning of
/// its own or has offset 0.
pub open spec fn fits(window: Seq<Instruction>, template: Seq<Shape>) -> bool {
    &&& window.len() == template.len()
    &&& forall|i: int|
        0 <= i < window.len() ==> shape_of((#[trigger] window[i]).opcode) == template[i]
    &&& forall|i: int|
        0 <= i < window.len() - 1 ==> (#[trigger] window[i]).uses_offset() || window[i].offset
            == 0
}

/// `[-]` and `[+]`.
pub open spec fn set_cell_shapes() -> Seq<Shape> {
    seq![Shape::JumpIfZero, Shape::Add, Shape::JumpIfNonZero]
}

/// `[>]`, `[<]` and their like with longer strides.
pub open spec fn seek_zero_shapes() -> Seq<Shape> {
    seq![Shape::JumpIfZero, Shape::NoOp, Shape::JumpIfNonZero]
}

/// `[->+<]` and its like.
pub open spec fn move_cell_shapes() -> Seq<Shape> {
    seq![
        Shape::JumpIfZero,
        Shape::Add,
        Shape::NoOp,
        Shape::Add,
        Shape::NoOp,
        Shape::JumpIfNonZero,
    ]
}

/// A loop that adds 1 or -1 to the current cell clears it.
pub open spec fn set_cell_rule(window: Seq<Instruction>) -> Option<Instruction> {
    if fits(window, set_cell_shapes()) && (window[1].opcode == OpCode::Add(1) || window[1].opcode
        == OpCode::Add(-1i8)) {
        Some(Instruction { opcode: OpCode::SetCell(0), offset: 0 })
    } else {
        None
    }
}

/// A loop that only moves the cursor, by a stride that is a cell value,
/// seeks a zero cell.
pub open spec fn seek_zero_rule(window: Seq<Instruction>) -> Option<Instruction> {
    if fits(window, seek_zero_shapes()) {
        match window[1].offset_value() {
            Some(stride) => Some(Instruction { opcode: OpCode::FindZero(stride), offset: 0 }),
            None => None,
        }
    } else {
        None
    }
}

/// A loop that takes 1 from the current cell, moves, gives 1 to the cell
/// there and moves back by as much (or takes and gives in the other order of
/// signs) moves the current cell's value to that cell, if the distance is a
/// cell value.
pub open spec fn move_cell_rule(window: Seq<Instruction>) -> Option<Instruction> {
    if fits(window, move_cell_shapes()) {
        let decr = window[1].opcode->Add_0;
        let incr = window[3].opcode->Add_0;
        let to = window[2];
        let from = window[4];
        if (incr == 1 || incr == -1) && decr == -incr && to.offset == -from.offset {
            match to.offset_value() {
                Some(distance) => Some(
                    Instruction { opcode: OpCode::MoveAndAddTo(distance), offset: 0 },
                ),
                None => None,
            }
        } else {
            None
        }
    } else {
        None
    }
}

pub fn shape(op: &OpCode) -> (r: Shape)
    ensures
        r == shape_of(*op),
{
    match op {
        OpCode::Halt => Shape::Halt,
        OpCode::NoOp => Shape::NoOp,
        OpCode::Add(_) => Shape::Add,
        OpCode::Input => Shape::Input,
        OpCode::Output => Shape::Output,
        OpCode::JumpIfZero => Shape::JumpIfZero,
        OpCode::JumpIfNonZero => Shape::JumpIfNonZero,
        OpCode::SetCell(_) => Shape::SetCell,
        OpCode::FindZero(_) => Shape::FindZero,
        OpCode::MoveAndAddTo(_) => Shape::MoveAndAddTo,
    }
}

/// Whether `window` fits `template`.
pub fn matches_template(window: &VecDeque<Instruction>, template: &[Shape]) -> (r: bool)
    ensures
        r == fits(window@, template@),
{
    if window.len() != template.len() {
        return false;
    }
    let n = window.len();
    let mut i: usize = 0;
    while i < n
        invariant
            n == window@.len(),
            n == template@.len(),
            i <= n,
            forall|k: int| 0 <= k < i ==> shape_of((#[trigger] window@[k]).opcode) == template@[k],
            forall|k: int|
                0 <= k < i && k < n - 1 ==> (#[trigger] window@[k]).uses_offset()
                    || window@[k].offset == 0,
        decreases n - i,
    {
        let cur = window[i];
        if shape(&cur.opcode) != template[i] {
            return false;
        }
        if i + 1 < n && !cur.use_offset() && cur.offset != 0 {
            return false;
        }
        i = i + 1;
    }
    true
}

/// The payload of an `Add`.
fn delta(ins: &Instruction) -> (r: BfValue)
    requires
        ins.opcode is Add,
    ensures
        r == ins.opcode->Add_0,
{
    match ins.opcode {
        OpCode::Add(d) => d,
        _ => 0,
    }
}

pub fn match_set_cell(window: &VecDeque<Instruction>) -> (r: Option<Instruction>)
    ensures
        r == set_cell_rule(window@),
{
    let template = [Shape::JumpIfZero, Shape::Add, Shape::JumpIfNonZero];
    assert(template@ =~= set_cell_shapes());
    if !matches_template(window, template.as_slice()) {
        return None;
    }
    let incr = delta(&window[1]);
    if incr == 1 || incr == -1 {
        Some(Instruction::from_op(OpCode::SetCell(0)))
    } else {
        None
    }
}

pub fn match_seek_zero(window: &VecDeque<Instruction>) -> (r: Option<Instruction>)
    ensures
        r == seek_zero_rule(window@),
{
    let template = [Shape::JumpIfZero, Shape::NoOp, Shape::JumpIfNonZero];
    assert(template@ =~= seek_zero_shapes());
    if !matches_template(window, template.as_slice()) {
        return None;
    }
    match window[1].offset_to_value() {
        Some(stride) => Some(Instruction::from_op(OpCode::FindZero(stride))),
        None => None,
    }
}

pub fn match_move_cell(window: &VecDeque<Instruction>) -> (r: Option<Instruction>)
    ensures
        r == move_cell_rule(window@),
{
    let template = [
        Shape::JumpIfZero,
        Shape::Add,
        Shape::NoOp,
        Shape::Add,
        Shape::NoOp,
        Shape::JumpIfNonZero,
    ];
    assert(template@ =~= move_cell_shapes());
    if !matches_template(window, template.as_slice()) {
        return None;
    }
    let decr = delta(&window[1]);
    let to = window[2];
    let incr = delta(&window[3]);
    let from = window[4];
    if !((incr == 1 || incr == -1) && decr == -incr) || to.offset as i64 != -(from.offset as i64) {
        return None;
    }
    match to.offset_to_value() {
        Some(distance) => Some(Instruction::from_op(OpCode::MoveAndAddTo(distance))),
        None => None,
    }
}

} // verus!

use tapevm::interpreter::{Instruction, OpCode};

fn ins(opcode: OpCode, offset: i32) -> Instruction {
    Instruction { opcode, offset }
}

#[test]
fn from_keeps_opcode_and_offset() {
    assert_eq!(Instruction::from(OpCode::Add(3), 7), ins(OpCode::Add(3), 7));
    assert_eq!(Instruction::from(OpCode::NoOp, -2), ins(OpCode::NoOp, -2));
}

#[test]
fn from_op_has_no_displacement() {
    assert_eq!(Instruction::from_op(OpCode::Halt), ins(OpCode::Halt, 0));
    assert_eq!(Instruction::from_op(OpCode::SetCell(9)), ins(OpCode::SetCell(9), 0));
}

#[test]
fn from_char_maps_the_eight_symbols() {
    assert_eq!(Instruction::from_char('+'), ins(OpCode::Add(1), 0));
    assert_eq!(Instruction::from_char('-'), ins(OpCode::Add(-1), 0));
    assert_eq!(Instruction::from_char('>'), ins(OpCode::NoOp, 1));
    assert_eq!(Instruction::from_char('<'), ins(OpCode::NoOp, -1));
    assert_eq!(Instruction::from_char('['), ins(OpCode::JumpIfZero, 0));
    assert_eq!(Instruction::from_char(']'), ins(OpCode::JumpIfNonZero, 0));
    assert_eq!(Instruction::from_char('.'), ins(OpCode::Output, 0));
    assert_eq!(Instruction::from_char(','), ins(OpCode::Input, 0));
}

#[test]
fn from_char_maps_anything_else_to_an_idle_noop() {
    for c in ['a', ' ', '\n', '0', '#', '\u{e9}'] {
        assert_eq!(Instruction::from_char(c), ins(OpCode::NoOp, 0));
    }
}

#[test]
fn use_offset_holds_for_moves_and_brackets_only() {
    assert!(ins(OpCode::NoOp, 4).use_offset());
    assert!(ins(OpCode::JumpIfZero, 0).use_offset());
    assert!(ins(OpCode::JumpIfNonZero, 0).use_offset());
    assert!(!ins(OpCode::Halt, 0).use_offset());
    assert!(!ins(OpCode::Add(1), 0).use_offset());
    assert!(!ins(OpCode::Input, 0).use_offset());
    assert!(!ins(OpCode::Output, 0).use_offset());
    assert!(!ins(OpCode::SetCell(0), 0).use_offset());
    assert!(!ins(OpCode::FindZero(1), 0).use_offset());
    assert!(!ins(OpCode::MoveAndAddTo(1), 0).use_offset());
}

#[test]
fn offset_to_value_succeeds_within_a_cell() {
    assert_eq!(ins(OpCode::NoOp, 0).offset_to_value(), Some(0));
    assert_eq!(ins(OpCode::NoOp, 127).offset_to_value(), Some(127));
    assert_eq!(ins(OpCode::NoOp, -128).offset_to_value(), Some(-128));
    assert_eq!(ins(OpCode::NoOp, -1).offset_to_value(), Some(-1));
}

#[test]
fn offset_to_value_fails_beyond_a_cell() {
    assert_eq!(ins(OpCode::NoOp, 128).offset_to_value(), None);
    assert_eq!(ins(OpCode::NoOp, -129).offset_to_value(), None);
    assert_eq!(ins(OpCode::NoOp, 256).offset_to_value(), None);
    assert_eq!(ins(OpCode::NoOp, i32::MAX).offset_to_value(), None);
    assert_eq!(ins(OpCode::NoOp, i32::MIN).offset_to_value(), None);
}

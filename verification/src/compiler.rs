//! From parsed source to a program that the machine can run.

use vstd::prelude::*;
use crate::interpreter::{is_program, Instruction, OpCode, MAX_TAPE};
use crate::optimizer::{
    balanced,
    dangling_close_at,
    depth,
    halt,
    lemma_first_dangling,
    lemma_optimized_len,
    lemma_resolved_is_program,
    never_negative,
    optimize,
    optimized,
    resolution,
    resolve_jumps,
    JumpError,
};
use crate::preservation::{
    all_passable,
    lemma_balanced_halt,
    lemma_halt_depths,
    lemma_optimized_depths,
};

verus! {

/// Compiles parsed source: optimizes it, ends it with `Halt` and resolves
/// its brackets. Fails where the brackets of the optimized code do not pair
/// up, which for source without `Halt` and without `FindZero` is where the
/// brackets of the source do not pair up.
pub fn process_code(code: Vec<Instruction>) -> (r: Result<Vec<Instruction>, JumpError>)
    requires
        code@.len() < MAX_TAPE,
    ensures
        match r {
            Ok(program) => balanced(optimized(code@)) && program@ == resolution(
                optimized(code@).push(halt()),
            ) && is_program(program@),
            Err(JumpError::DanglingOpenBracket) => never_negative(
                optimized(code@),
                optimized(code@).len() as int,
            ) && depth(optimized(code@), optimized(code@).len() as int) > 0,
            Err(JumpError::DanglingCloseBracket) => exists|k: int|
                dangling_close_at(optimized(code@), k),
        },
        all_passable(code@) ==> match r {
            Ok(_) => balanced(code@),
            Err(JumpError::DanglingOpenBracket) => never_negative(code@, code@.len() as int)
                && depth(code@, code@.len() as int) > 0,
            Err(JumpError::DanglingCloseBracket) => exists|k: int| dangling_close_at(code@, k),
        },
{
    let ghost source = code@;
    proof {
        lemma_optimized_len(source);
    }
    let mut code = optimize(code);
    let ghost fast = code@;
    code.push(Instruction::from_op(OpCode::Halt));
    let ghost staged = code@;
    let r = resolve_jumps(code.as_mut_slice());
    proof {
        lemma_unhalted(fast, staged);
        if all_passable(source) {
            lemma_optimized_depths(source);
            if !never_negative(source, source.len() as int) {
                let k = lemma_first_dangling(source, source.len() as int);
            }
        }
        if !never_negative(fast, fast.len() as int) {
            let k = lemma_first_dangling(fast, fast.len() as int);
        }
    }
    match r {
        Ok(_) => {
            proof {
                lemma_resolved_is_program(staged, code@);
            }
            Ok(code)
        },
        Err(e) => Err(e),
    }
}

/// `Halt` behind code changes nothing about its brackets.
proof fn lemma_unhalted(code: Seq<Instruction>, staged: Seq<Instruction>)
    requires
        staged == code.push(halt()),
    ensures
        balanced(staged) == balanced(code),
        never_negative(staged, staged.len() as int) == never_negative(code, code.len() as int),
        depth(staged, staged.len() as int) == depth(code, code.len() as int),
        forall|k: int| dangling_close_at(staged, k) ==> !never_negative(code, code.len() as int),
{
    lemma_balanced_halt(code);
    lemma_halt_depths(code);
}

} // verus!

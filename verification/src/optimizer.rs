//! The peephole passes, the pipeline that chains them, and the resolution
//! of brackets to jump targets.

use vstd::prelude::*;
use std::collections::VecDeque;
use crate::interpreter::{
    is_program,
    parse_char,
    wrap_add,
    BfOffset,
    BfValue,
    Instruction,
    OpCode,
    MAX_TAPE,
};
use crate::itertools::{
    combine,
    combine_seq,
    lemma_combine_accepts,
    lemma_combine_function,
    lemma_combine_seq_apart,
    lemma_combine_seq_len,
    lemma_replace_function,
    lemma_replace_seq_apart,
    lemma_replace_seq_len,
    replace_seq,
    replace_sized_pattern,
};
use crate::patterns::{
    match_move_cell,
    match_seek_zero,
    match_set_cell,
    move_cell_rule,
    seek_zero_rule,
    set_cell_rule,
};

verus! {

/// What a pending instruction `a` and its successor `b` merge to when adds
/// are collapsed. A pending `Add(0)` without displacement gives way to its
/// successor; two adds merge if the first has no displacement, to an add of
/// the wrapped sum with the displacement of the second.
pub open spec fn merged_adds(a: Instruction, b: Instruction) -> Option<Instruction> {
    if a.offset != 0 {
        None
    } else if a.opcode == OpCode::Add(0) {
        Some(b)
    } else {
        match (a.opcode, b.opcode) {
            (OpCode::Add(n), OpCode::Add(m)) => Some(
                Instruction { opcode: OpCode::Add(wrap_add(n, m)), offset: b.offset },
            ),
            _ => None,
        }
    }
}

/// What a pending instruction `a` and its successor `b` merge to when moves
/// are collapsed. A pending `NoOp` without displacement gives way to its
/// successor. A `NoOp` is folded into a pending `NoOp`, and when compacting
/// into any pending instruction whose offset is a free displacement, by
/// adding the displacements, unless the sum is no offset.
pub open spec fn merged_moves(a: Instruction, b: Instruction, compact: bool) -> Option<
    Instruction,
> {
    if a.opcode is NoOp && a.offset == 0 {
        Some(b)
    } else if b.opcode is NoOp && (a.opcode is NoOp || (compact && !a.uses_offset())) && i32::MIN
        <= a.offset + b.offset <= i32::MAX {
        Some(Instruction { opcode: a.opcode, offset: (a.offset + b.offset) as BfOffset })
    } else {
        None
    }
}

/// The pending instruction that collapsing adds starts with.
pub open spec fn add_seed() -> Instruction {
    Instruction { opcode: OpCode::Add(0), offset: 0 }
}

/// The pending instruction that collapsing moves starts with.
pub open spec fn move_seed() -> Instruction {
    Instruction { opcode: OpCode::NoOp, offset: 0 }
}

pub open spec fn collapsed_adds(code: Seq<Instruction>) -> Seq<Instruction> {
    combine_seq(|a: Instruction, b: Instruction| merged_adds(a, b), add_seed(), code)
}

pub open spec fn collapsed_moves(code: Seq<Instruction>, compact: bool) -> Seq<Instruction> {
    combine_seq(|a: Instruction, b: Instruction| merged_moves(a, b, compact), move_seed(), code)
}

pub open spec fn with_set_cells(code: Seq<Instruction>) -> Seq<Instruction> {
    replace_seq(|w: Seq<Instruction>| set_cell_rule(w), 3, code)
}

pub open spec fn with_seek_zeros(code: Seq<Instruction>) -> Seq<Instruction> {
    replace_seq(|w: Seq<Instruction>| seek_zero_rule(w), 3, code)
}

pub open spec fn with_move_cells(code: Seq<Instruction>) -> Seq<Instruction> {
    replace_seq(|w: Seq<Instruction>| move_cell_rule(w), 6, code)
}

/// The whole pipeline: adds, moves, the three idioms, then moves again,
/// compacting. Each pass runs once.
pub open spec fn optimized(code: Seq<Instruction>) -> Seq<Instruction> {
    collapsed_moves(
        with_move_cells(with_seek_zeros(with_set_cells(collapsed_moves(collapsed_adds(code), false)))),
        true,
    )
}

fn merge_adds(a: &Instruction, b: &Instruction) -> (r: Option<Instruction>)
    ensures
        r == merged_adds(*a, *b),
{
    match (a.opcode, b.opcode) {
        (OpCode::Add(n), _) if n == 0 && a.offset == 0 => Some(*b),
        (OpCode::Add(n), OpCode::Add(m)) if a.offset == 0 => Some(
            Instruction::from(OpCode::Add(n.wrapping_add(m)), b.offset),
        ),
        _ => None,
    }
}

fn merge_moves(a: &Instruction, b: &Instruction, compact: bool) -> (r: Option<Instruction>)
    ensures
        r == merged_moves(*a, *b, compact),
{
    match (a.opcode, b.opcode) {
        (OpCode::NoOp, _) if a.offset == 0 => Some(*b),
        (OpCode::NoOp, OpCode::NoOp) => match a.offset.checked_add(b.offset) {
            Some(sum) => Some(Instruction::from(a.opcode, sum)),
            None => None,
        },
        (_, OpCode::NoOp) if compact && !a.use_offset() => match a.offset.checked_add(b.offset) {
            Some(sum) => Some(Instruction::from(a.opcode, sum)),
            None => None,
        },
        _ => None,
    }
}

/// Runs the whole pipeline over `code`.
pub fn optimize(code: Vec<Instruction>) -> (out: Vec<Instruction>)
    ensures
        out@ == optimized(code@),
{
    let code = collapse_adds(code);
    let code = collapse_moves(code, false);
    let code = pattern_set_cell(code);
    let code = pattern_seek_zero(code);
    let code = pattern_move_cell(code);
    let code = collapse_moves(code, true);
    code
}

/// Rewrites each loop that adds 1 or -1 to the current cell into `SetCell(0)`.
pub fn pattern_set_cell(code: Vec<Instruction>) -> (out: Vec<Instruction>)
    ensures
        out@ == with_set_cells(code@),
{
    let ghost before = code@;
    let matcher = |w: &VecDeque<Instruction>| -> (r: Option<Instruction>)
        ensures
            r == set_cell_rule(w@),
        { match_set_cell(w) };
    let ghost matcher_was = matcher;
    let out = replace_sized_pattern(code, 3, matcher);
    proof {
        lemma_replace_function(
            matcher_was,
            |w: Seq<Instruction>| set_cell_rule(w),
            3,
            before,
            out@,
        );
    }
    out
}

/// Rewrites each loop that only moves the cursor into `FindZero`.
pub fn pattern_seek_zero(code: Vec<Instruction>) -> (out: Vec<Instruction>)
    ensures
        out@ == with_seek_zeros(code@),
{
    let ghost before = code@;
    let matcher = |w: &VecDeque<Instruction>| -> (r: Option<Instruction>)
        ensures
            r == seek_zero_rule(w@),
        { match_seek_zero(w) };
    let ghost matcher_was = matcher;
    let out = replace_sized_pattern(code, 3, matcher);
    proof {
        lemma_replace_function(
            matcher_was,
            |w: Seq<Instruction>| seek_zero_rule(w),
            3,
            before,
            out@,
        );
    }
    out
}

/// Rewrites each loop that moves the current cell's value to another cell
/// into `MoveAndAddTo`.
pub fn pattern_move_cell(code: Vec<Instruction>) -> (out: Vec<Instruction>)
    ensures
        out@ == with_move_cells(code@),
{
    let ghost before = code@;
    let matcher = |w: &VecDeque<Instruction>| -> (r: Option<Instruction>)
        ensures
            r == move_cell_rule(w@),
        { match_move_cell(w) };
    let ghost matcher_was = matcher;
    let out = replace_sized_pattern(code, 6, matcher);
    proof {
        lemma_replace_function(
            matcher_was,
            |w: Seq<Instruction>| move_cell_rule(w),
            6,
            before,
            out@,
        );
    }
    out
}

/// Folds runs of cursor moves into one, and when `compact` is set also
/// folds a move into the instruction before it where that instruction's
/// offset is a free displacement.
pub fn collapse_moves(code: Vec<Instruction>, compact: bool) -> (out: Vec<Instruction>)
    ensures
        out@ == collapsed_moves(code@, compact),
{
    let ghost before = code@;
    let merger = |a: &Instruction, b: &Instruction| -> (r: Option<Instruction>)
        ensures
            r == merged_moves(*a, *b, compact),
        { merge_moves(a, b, compact) };
    let ghost merger_was = merger;
    proof {
        lemma_combine_accepts(merger_was, move_seed(), before);
    }
    let out = combine(code, Instruction::from(OpCode::NoOp, 0), merger);
    proof {
        lemma_combine_function(
            merger_was,
            |a: Instruction, b: Instruction| merged_moves(a, b, compact),
            move_seed(),
            before,
            out@,
        );
    }
    out
}

/// Folds runs of adds into one add of the wrapped sum.
pub fn collapse_adds(code: Vec<Instruction>) -> (out: Vec<Instruction>)
    ensures
        out@ == collapsed_adds(code@),
{
    let ghost before = code@;
    let merger = |a: &Instruction, b: &Instruction| -> (r: Option<Instruction>)
        ensures
            r == merged_adds(*a, *b),
        { merge_adds(a, b) };
    let ghost merger_was = merger;
    proof {
        lemma_combine_accepts(merger_was, add_seed(), before);
    }
    let out = combine(code, Instruction::from_op(OpCode::Add(0)), merger);
    proof {
        lemma_combine_function(
            merger_was,
            |a: Instruction, b: Instruction| merged_adds(a, b),
            add_seed(),
            before,
            out@,
        );
    }
    out
}

/// Why brackets could not be resolved.
#[derive(Copy, Clone, Debug, PartialEq, Eq, Structural)]
pub enum JumpError {
    /// A closing bracket has no opening bracket before it to pair with.
    DanglingCloseBracket,
    /// An opening bracket is never closed.
    DanglingOpenBracket,
}

impl JumpError {
    pub fn message(&self) -> (text: &'static str)
        ensures
            text == match *self {
                JumpError::DanglingCloseBracket => "parse error: dangling ]",
                JumpError::DanglingOpenBracket => "parse error: dangling [",
            },
    {
        match self {
            JumpError::DanglingCloseBracket => "parse error: dangling ]",
            JumpError::DanglingOpenBracket => "parse error: dangling [",
        }
    }
}

/// By how much an instruction changes the number of open brackets.
pub open spec fn depth_change(ins: Instruction) -> int {
    match ins.opcode {
        OpCode::JumpIfZero => 1,
        OpCode::JumpIfNonZero => -1,
        _ => 0,
    }
}

/// Opening minus closing brackets among the first `i` instructions.
pub open spec fn depth(code: Seq<Instruction>, i: int) -> int
    decreases i,
{
    if i <= 0 {
        0
    } else {
        depth(code, i - 1) + depth_change(code[i - 1])
    }
}

/// No prefix of the first `i` instructions closes more brackets than it
/// opens.
pub open spec fn never_negative(code: Seq<Instruction>, i: int) -> bool {
    forall|j: int| 0 <= j <= i ==> #[trigger] depth(code, j) >= 0
}

/// Every bracket has a partner.
pub open spec fn balanced(code: Seq<Instruction>) -> bool {
    never_negative(code, code.len() as int) && depth(code, code.len() as int) == 0
}

/// The closing bracket at `k` is the first without a partner.
pub open spec fn dangling_close_at(code: Seq<Instruction>, k: int) -> bool {
    0 <= k < code.len() && never_negative(code, k) && depth(code, k + 1) < 0
}

/// The opening bracket at `a` and the closing bracket at `b` are partners:
/// `b` is the first place behind `a` where the depth is back to what it was
/// before `a`.
pub open spec fn paired(code: Seq<Instruction>, a: int, b: int) -> bool {
    &&& 0 <= a < b < code.len()
    &&& code[a].opcode is JumpIfZero
    &&& code[b].opcode is JumpIfNonZero
    &&& depth(code, b + 1) == depth(code, a)
    &&& forall|k: int| a < k <= b ==> #[trigger] depth(code, k) > depth(code, a)
}

/// `k` is one of two partners the second of which stands before `stop`.
pub open spec fn in_pair_before(code: Seq<Instruction>, k: int, stop: int) -> bool {
    exists|a: int, b: int| #[trigger] paired(code, a, b) && b < stop && (k == a || k == b)
}

/// `after` is `before` with each pair of partners that closes before `stop`
/// holding each other's index, and nothing else changed.
pub open spec fn patched(before: Seq<Instruction>, after: Seq<Instruction>, stop: int) -> bool {
    &&& after.len() == before.len()
    &&& forall|k: int| 0 <= k < before.len() ==> (#[trigger] after[k]).opcode == before[k].opcode
    &&& forall|a: int, b: int| #[trigger]
        paired(before, a, b) && b < stop ==> after[a].offset == b && after[b].offset == a
    &&& forall|k: int|
        0 <= k < before.len() && !in_pair_before(before, k, stop) ==> #[trigger] after[k]
            == before[k]
}

/// In `after` every bracket of `before` holds the index of its partner.
pub open spec fn resolved(before: Seq<Instruction>, after: Seq<Instruction>) -> bool {
    &&& after.len() == before.len()
    &&& forall|k: int|
        0 <= k < before.len() && (#[trigger] before[k]).opcode is JumpIfZero ==> paired(
            before,
            k,
            after[k].offset as int,
        )
    &&& forall|k: int|
        0 <= k < before.len() && (#[trigger] before[k]).opcode is JumpIfNonZero ==> paired(
            before,
            after[k].offset as int,
            k,
        )
}

/// What the scan knows after the first `i` instructions: `stack` holds the
/// brackets still open, innermost last, and `code` is `before` with the pairs
/// closed so far patched.
pub closed spec fn scanned(
    before: Seq<Instruction>,
    code: Seq<Instruction>,
    stack: Seq<usize>,
    i: int,
) -> bool {
    &&& 0 <= i <= before.len()
    &&& never_negative(before, i)
    &&& stack.len() == depth(before, i)
    &&& forall|s: int|
        0 <= s < stack.len() ==> {
            let p = (#[trigger] stack[s]) as int;
            &&& 0 <= p < i
            &&& before[p].opcode is JumpIfZero
            &&& depth(before, p) == s
            &&& forall|k: int| p < k <= i ==> #[trigger] depth(before, k) > s
        }
    &&& patched(before, code, i)
    &&& forall|p: int|
        0 <= p < i && (#[trigger] before[p]).opcode is JumpIfZero ==> stack.contains(p as usize)
            || (paired(before, p, code[p].offset as int) && code[p].offset < i)
    &&& forall|q: int|
        0 <= q < i && (#[trigger] before[q]).opcode is JumpIfNonZero ==> paired(
            before,
            code[q].offset as int,
            q,
        )
}

proof fn lemma_scan_start(before: Seq<Instruction>)
    ensures
        scanned(before, before, Seq::empty(), 0),
{
    assert forall|a: int, b: int| #[trigger] paired(before, a, b) && b < 0 implies false by {}
}

/// A bracket stands in at most one pair.
pub proof fn lemma_partner_unique(code: Seq<Instruction>, a: int, b: int, c: int, d: int)
    requires
        paired(code, a, b),
        paired(code, c, d),
        a == c || b == d,
    ensures
        a == c && b == d,
{
    if a == c {
        if b < d {
            assert(depth(code, b + 1) > depth(code, c));
        } else if d < b {
            assert(depth(code, d + 1) > depth(code, a));
        }
    } else {
        if a < c {
            assert(depth(code, c) > depth(code, a));
            assert(depth(code, c + 1) > depth(code, c));
            if c + 1 <= b {
                assert(depth(code, b) > depth(code, a));
            }
            assert(depth(code, d) > depth(code, c));
        } else {
            assert(depth(code, a) > depth(code, c));
            assert(depth(code, b) > depth(code, a));
        }
    }
}

proof fn lemma_scan_other(
    before: Seq<Instruction>,
    code: Seq<Instruction>,
    stack: Seq<usize>,
    i: int,
)
    requires
        scanned(before, code, stack, i),
        i < before.len(),
        !before[i].is_bracket(),
    ensures
        scanned(before, code, stack, i + 1),
{
    assert(depth(before, i + 1) == depth(before, i));
    assert forall|a: int, b: int| #[trigger] paired(before, a, b) && b < i + 1 implies b < i by {}
    assert forall|k: int|
        0 <= k < before.len() && !in_pair_before(before, k, i + 1) implies !in_pair_before(
        before,
        k,
        i,
    ) by {
        if in_pair_before(before, k, i) {
            let (a, b) = choose|a: int, b: int| #[trigger]
                paired(before, a, b) && b < i && (k == a || k == b);
            assert(paired(before, a, b) && b < i + 1 && (k == a || k == b));
        }
    }
}

proof fn lemma_scan_open(
    before: Seq<Instruction>,
    code: Seq<Instruction>,
    stack: Seq<usize>,
    i: int,
)
    requires
        scanned(before, code, stack, i),
        i < before.len() <= usize::MAX,
        before[i].opcode is JumpIfZero,
    ensures
        scanned(before, code, stack.push(i as usize), i + 1),
{
    let grown = stack.push(i as usize);
    assert(depth(before, i + 1) == depth(before, i) + 1);
    assert forall|a: int, b: int| #[trigger] paired(before, a, b) && b < i + 1 implies b < i by {}
    assert forall|k: int|
        0 <= k < before.len() && !in_pair_before(before, k, i + 1) implies !in_pair_before(
        before,
        k,
        i,
    ) by {
        if in_pair_before(before, k, i) {
            let (a, b) = choose|a: int, b: int| #[trigger]
                paired(before, a, b) && b < i && (k == a || k == b);
            assert(paired(before, a, b) && b < i + 1 && (k == a || k == b));
        }
    }
    assert forall|s: int| 0 <= s < grown.len() implies {
        let p = (#[trigger] grown[s]) as int;
        &&& 0 <= p < i + 1
        &&& before[p].opcode is JumpIfZero
        &&& depth(before, p) == s
        &&& forall|k: int| p < k <= i + 1 ==> #[trigger] depth(before, k) > s
    } by {
        if s < stack.len() {
            assert(grown[s] == stack[s]);
            assert(depth(before, i) > s || stack[s] as int == i);
        }
    }
    assert forall|p: int| 0 <= p < i + 1 && (#[trigger] before[p]).opcode is JumpIfZero implies (
    grown.contains(p as usize) || (paired(before, p, code[p].offset as int) && code[p].offset < i
        + 1)) by {
        if p == i {
            assert(grown[stack.len() as int] == i as usize);
        } else if stack.contains(p as usize) {
            let s = choose|s: int| 0 <= s < stack.len() && stack[s] == p as usize;
            assert(grown[s] == p as usize);
        }
    }
}

proof fn lemma_scan_close(
    before: Seq<Instruction>,
    code: Seq<Instruction>,
    stack: Seq<usize>,
    i: int,
)
    requires
        scanned(before, code, stack, i),
        i < before.len() <= MAX_TAPE,
        before[i].opcode is JumpIfNonZero,
        stack.len() > 0,
    ensures
        paired(before, stack.last() as int, i),
        scanned(
            before,
            code.update(i, Instruction { offset: stack.last() as BfOffset, ..code[i] }).update(
                stack.last() as int,
                Instruction { offset: i as BfOffset, ..code[stack.last() as int] },
            ),
            stack.drop_last(),
            i + 1,
        ),
{
    let top = stack.len() - 1;
    let p = stack.last() as int;
    let shrunk = stack.drop_last();
    let after = code.update(i, Instruction { offset: p as BfOffset, ..code[i] }).update(
        p,
        Instruction { offset: i as BfOffset, ..code[p] },
    );
    assert(stack[top] as int == p);
    assert(depth(before, i + 1) == depth(before, i) - 1);
    assert(paired(before, p, i));
    assert forall|a: int, b: int| #[trigger] paired(before, a, b) && b < i + 1 implies after[a].offset
        == b && after[b].offset == a by {
        if b == i {
            lemma_partner_unique(before, a, b, p, i);
        } else {
            if a == p {
                lemma_partner_unique(before, a, b, p, i);
            }
            assert(after[a] == code[a]);
            assert(after[b] == code[b]);
        }
    }
    assert forall|k: int|
        0 <= k < before.len() && !in_pair_before(before, k, i + 1) implies #[trigger] after[k]
        == before[k] by {
        if in_pair_before(before, k, i) {
            let (a, b) = choose|a: int, b: int| #[trigger]
                paired(before, a, b) && b < i && (k == a || k == b);
            assert(paired(before, a, b) && b < i + 1 && (k == a || k == b));
        }
        assert(paired(before, p, i) && i < i + 1);
        assert(k != p && k != i);
    }
    assert forall|s: int| 0 <= s < shrunk.len() implies {
        let q = (#[trigger] shrunk[s]) as int;
        &&& 0 <= q < i + 1
        &&& before[q].opcode is JumpIfZero
        &&& depth(before, q) == s
        &&& forall|k: int| q < k <= i + 1 ==> #[trigger] depth(before, k) > s
    } by {
        assert(shrunk[s] == stack[s]);
    }
    assert forall|q: int| 0 <= q < i + 1 && (#[trigger] before[q]).opcode is JumpIfZero implies (
    shrunk.contains(q as usize) || (paired(before, q, after[q].offset as int) && after[q].offset
        < i + 1)) by {
        if q == p {
        } else if stack.contains(q as usize) {
            let s = choose|s: int| 0 <= s < stack.len() && stack[s] == q as usize;
            assert(s != top);
            assert(shrunk[s] == q as usize);
        } else {
            assert(after[q] == code[q]);
        }
    }
    assert forall|q: int| 0 <= q < i + 1 && (#[trigger] before[q]).opcode is JumpIfNonZero implies paired(
        before,
        after[q].offset as int,
        q,
    ) by {
        if q < i {
            assert(after[q] == code[q]);
        }
    }
}

/// A scan that ends with no bracket open has resolved every bracket.
proof fn lemma_scan_done(before: Seq<Instruction>, code: Seq<Instruction>, stack: Seq<usize>)
    requires
        scanned(before, code, stack, before.len() as int),
        stack.len() == 0,
    ensures
        balanced(before),
        patched(before, code, before.len() as int),
        resolved(before, code),
{
    assert forall|k: int|
        0 <= k < before.len() && (#[trigger] before[k]).opcode is JumpIfZero implies paired(
        before,
        k,
        code[k].offset as int,
    ) by {
        assert(!stack.contains(k as usize));
    }
}

/// Gives every bracket the index of its partner. Fails on the first closing
/// bracket without partner, and at the end if an opening bracket is left
/// without one; the pairs closed until then have been given their indices.
pub fn resolve_jumps(code: &mut [Instruction]) -> (r: Result<(), JumpError>)
    requires
        old(code)@.len() <= MAX_TAPE,
    ensures
        match r {
            Ok(_) => balanced(old(code)@) && final(code)@ == resolution(old(code)@) && resolved(
                old(code)@,
                final(code)@,
            ) && patched(old(code)@, final(code)@, old(code)@.len() as int),
            Err(JumpError::DanglingOpenBracket) => never_negative(
                old(code)@,
                old(code)@.len() as int,
            ) && depth(old(code)@, old(code)@.len() as int) > 0 && patched(
                old(code)@,
                final(code)@,
                old(code)@.len() as int,
            ),
            Err(JumpError::DanglingCloseBracket) => exists|k: int|
                dangling_close_at(old(code)@, k) && patched(old(code)@, final(code)@, k),
        },
{
    let ghost before = code@;
    let n = code.len();
    let mut stack: Vec<usize> = Vec::new();
    let mut i: usize = 0;
    proof {
        lemma_scan_start(before);
    }
    while i < n
        invariant
            before == old(code)@,
            n == before.len(),
            n <= MAX_TAPE,
            code@.len() == n,
            i <= n,
            scanned(before, code@, stack@, i as int),
        decreases n - i,
    {
        match code[i].opcode {
            OpCode::JumpIfZero => {
                proof {
                    lemma_scan_open(before, code@, stack@, i as int);
                }
                stack.push(i);
            },
            OpCode::JumpIfNonZero => {
                let ghost open = stack@;
                let j = match stack.pop() {
                    Some(val) => val,
                    None => {
                        proof {
                            assert(depth(before, i + 1) == depth(before, i as int) - 1);
                            assert(dangling_close_at(before, i as int));
                            assert(patched(before, code@, i as int));
                        }
                        return Err(JumpError::DanglingCloseBracket);
                    },
                };
                proof {
                    lemma_scan_close(before, code@, open, i as int);
                }
                code[i].offset = j as BfOffset;
                code[j].offset = i as BfOffset;
            },
            _ => {
                proof {
                    lemma_scan_other(before, code@, stack@, i as int);
                }
            },
        }
        i = i + 1;
    }
    if stack.len() == 0 {
        proof {
            lemma_scan_done(before, code@, stack@);
            lemma_resolution(before);
            lemma_patched_once(before, code@, resolution(before));
        }
        Ok(())
    } else {
        Err(JumpError::DanglingOpenBracket)
    }
}

/// The instruction that ends every program.
pub open spec fn halt() -> Instruction {
    Instruction { opcode: OpCode::Halt, offset: 0 }
}

/// A pending instruction that gives way to whatever follows it is yielded
/// only for an empty stream: the stream yielded is then no longer than the
/// one taken, unless that was empty.
proof fn lemma_seed_absorbed(
    f: spec_fn(Instruction, Instruction) -> Option<Instruction>,
    seed: Instruction,
    items: Seq<Instruction>,
)
    requires
        forall|b: Instruction| #[trigger] f(seed, b) == Some(b),
    ensures
        1 <= combine_seq(f, seed, items).len(),
        combine_seq(f, seed, items).len() <= if items.len() == 0 {
            1
        } else {
            items.len()
        },
{
    if items.len() > 0 {
        assert(f(seed, items[0]) == Some(items[0]));
        lemma_combine_seq_len(f, items[0], items.skip(1));
    }
}

/// The pipeline yields at least one instruction, and no more than it took
/// unless it took none.
pub proof fn lemma_optimized_len(code: Seq<Instruction>)
    ensures
        1 <= optimized(code).len(),
        optimized(code).len() <= if code.len() == 0 {
            1
        } else {
            code.len()
        },
{
    let a = collapsed_adds(code);
    let b = collapsed_moves(a, false);
    let c = with_set_cells(b);
    let d = with_seek_zeros(c);
    let e = with_move_cells(d);
    lemma_seed_absorbed(|x: Instruction, y: Instruction| merged_adds(x, y), add_seed(), code);
    lemma_seed_absorbed(|x: Instruction, y: Instruction| merged_moves(x, y, false), move_seed(), a);
    lemma_replace_seq_len(|w: Seq<Instruction>| set_cell_rule(w), 3, b);
    lemma_replace_seq_len(|w: Seq<Instruction>| seek_zero_rule(w), 3, c);
    lemma_replace_seq_len(|w: Seq<Instruction>| move_cell_rule(w), 6, d);
    lemma_seed_absorbed(|x: Instruction, y: Instruction| merged_moves(x, y, true), move_seed(), e);
}

/// Code that ends in `Halt`, with its brackets resolved, is a program.
pub proof fn lemma_resolved_is_program(before: Seq<Instruction>, after: Seq<Instruction>)
    requires
        0 < before.len() <= MAX_TAPE,
        before.last().opcode is Halt,
        resolved(before, after),
        patched(before, after, before.len() as int),
    ensures
        is_program(after),
{
    assert(after.last().opcode == before[before.len() - 1].opcode);
    assert forall|i: int| 0 <= i < after.len() && (#[trigger] after[i]).opcode is JumpIfZero implies {
        let j = after[i].offset as int;
        i < j < after.len() && after[j].opcode is JumpIfNonZero && after[j].offset == i
    } by {
        assert(before[i].opcode is JumpIfZero);
        assert(paired(before, i, after[i].offset as int));
    }
    assert forall|j: int|
        0 <= j < after.len() && (#[trigger] after[j]).opcode is JumpIfNonZero implies {
        let i = after[j].offset as int;
        0 <= i < j && after[i].opcode is JumpIfZero && after[i].offset == j
    } by {
        assert(before[j].opcode is JumpIfNonZero);
        assert(paired(before, after[j].offset as int, j));
    }
}

/// The cell value that an integer is congruent to modulo 256.
pub open spec fn wrap(x: int) -> BfValue {
    ((x + 128) % 256 - 128) as BfValue
}

/// The sum of the payloads of a run of adds.
pub open spec fn delta_sum(run: Seq<Instruction>) -> int
    decreases run.len(),
{
    if run.len() == 0 {
        0
    } else {
        run[0].opcode->Add_0 + delta_sum(run.skip(1))
    }
}

/// Collapsing a run of adds from a pending add yields one add of the
/// wrapped sum of all of them.
proof fn lemma_adds_fold_from(pending: BfValue, run: Seq<Instruction>)
    requires
        forall|i: int| 0 <= i < run.len() ==> (#[trigger] run[i]).opcode is Add && run[i].offset == 0,
    ensures
        combine_seq(
            |a: Instruction, b: Instruction| merged_adds(a, b),
            Instruction { opcode: OpCode::Add(pending), offset: 0 },
            run,
        ) == seq![Instruction { opcode: OpCode::Add(wrap(pending + delta_sum(run))), offset: 0 }],
    decreases run.len(),
{
    let f = |a: Instruction, b: Instruction| merged_adds(a, b);
    let carry = Instruction { opcode: OpCode::Add(pending), offset: 0 };
    if run.len() == 0 {
        assert(wrap(pending as int) == pending);
    } else {
        let d = run[0].opcode->Add_0;
        let next = Instruction { opcode: OpCode::Add(wrap_add(pending, d)), offset: 0 };
        assert(run[0] == Instruction { opcode: OpCode::Add(d), offset: 0 });
        assert(f(carry, run[0]) == Some(next));
        lemma_adds_fold_from(wrap_add(pending, d), run.skip(1));
        assert(wrap(wrap_add(pending, d) + delta_sum(run.skip(1))) == wrap(
            pending + delta_sum(run),
        ));
    }
}

/// A run of adds without displacement, such as the instructions of a run
/// of `+` and `-`, collapses to a single add of the sum of their payloads
/// modulo 256: 256 times `+` gives `Add(0)`.
pub proof fn lemma_adds_fold(run: Seq<Instruction>)
    requires
        forall|i: int| 0 <= i < run.len() ==> (#[trigger] run[i]).opcode is Add && run[i].offset == 0,
    ensures
        collapsed_adds(run) == seq![
            Instruction { opcode: OpCode::Add(wrap(delta_sum(run))), offset: 0 },
        ],
{
    lemma_adds_fold_from(0, run);
}

/// The instructions that a source text stands for.
pub open spec fn parsed(source: Seq<char>) -> Seq<Instruction> {
    Seq::new(source.len(), |i: int| parse_char(source[i]))
}

/// The number of `+` less the number of `-` in a text of the two.
pub open spec fn net_count(source: Seq<char>) -> int
    decreases source.len(),
{
    if source.len() == 0 {
        0
    } else if source[0] == '+' {
        1 + net_count(source.skip(1))
    } else {
        net_count(source.skip(1)) - 1
    }
}

proof fn lemma_net_count(source: Seq<char>)
    requires
        forall|i: int| 0 <= i < source.len() ==> source[i] == '+' || source[i] == '-',
    ensures
        delta_sum(parsed(source)) == net_count(source),
    decreases source.len(),
{
    if source.len() > 0 {
        assert(parsed(source).skip(1) =~= parsed(source.skip(1)));
        lemma_net_count(source.skip(1));
    }
}

/// A run of `n` characters `+` and `-` collapses to a single add of the
/// number of `+` less the number of `-`, modulo 256.
pub proof fn lemma_plus_minus_fold(source: Seq<char>)
    requires
        forall|i: int| 0 <= i < source.len() ==> source[i] == '+' || source[i] == '-',
    ensures
        collapsed_adds(parsed(source)) == seq![
            Instruction { opcode: OpCode::Add(wrap(net_count(source))), offset: 0 },
        ],
{
    lemma_net_count(source);
    lemma_adds_fold(parsed(source));
}

/// Code on which no pass finds anything to do: it is not empty, no
/// instruction merges with the one behind it, and no window is an idiom.
pub open spec fn is_optimal(code: Seq<Instruction>) -> bool {
    &&& code.len() > 0
    &&& forall|i: int|
        0 <= i < code.len() - 1 ==> merged_adds(#[trigger] code[i], code[i + 1]) is None
    &&& forall|i: int|
        0 <= i < code.len() - 1 ==> merged_moves(#[trigger] code[i], code[i + 1], true) is None
    &&& forall|i: int|
        0 <= i && i + 3 <= code.len() ==> set_cell_rule(#[trigger] code.subrange(i, i + 3))
            is None
    &&& forall|i: int|
        0 <= i && i + 3 <= code.len() ==> seek_zero_rule(#[trigger] code.subrange(i, i + 3))
            is None
    &&& forall|i: int|
        0 <= i && i + 6 <= code.len() ==> move_cell_rule(#[trigger] code.subrange(i, i + 6))
            is None
}

/// Optimizing optimal code yields the same code.
pub proof fn lemma_optimal_unchanged(code: Seq<Instruction>)
    requires
        is_optimal(code),
    ensures
        optimized(code) == code,
{
    let adds = |a: Instruction, b: Instruction| merged_adds(a, b);
    let moves = |a: Instruction, b: Instruction| merged_moves(a, b, false);
    let compacting = |a: Instruction, b: Instruction| merged_moves(a, b, true);
    let rest = code.skip(1);
    assert(seq![code[0]] + rest =~= code);
    assert forall|i: int| 0 <= i < rest.len() - 1 implies #[trigger] adds(
        rest[i],
        rest[i + 1],
    ) is None by {
        let j = i + 1;
        assert(merged_adds(code[j], code[j + 1]) is None);
    }
    assert forall|i: int| 0 <= i < rest.len() - 1 implies #[trigger] moves(
        rest[i],
        rest[i + 1],
    ) is None by {
        let j = i + 1;
        assert(merged_moves(code[j], code[j + 1], true) is None);
    }
    assert forall|i: int| 0 <= i < rest.len() - 1 implies #[trigger] compacting(
        rest[i],
        rest[i + 1],
    ) is None by {
        let j = i + 1;
        assert(merged_moves(code[j], code[j + 1], true) is None);
    }
    if rest.len() > 0 {
        assert(merged_adds(code[0], code[0int + 1]) is None);
        assert(merged_moves(code[0], code[0int + 1], true) is None);
    }
    assert(adds(add_seed(), code[0]) == Some(code[0]));
    lemma_combine_seq_apart(adds, code[0], rest);
    assert(collapsed_adds(code) == code);
    assert(moves(move_seed(), code[0]) == Some(code[0]));
    lemma_combine_seq_apart(moves, code[0], rest);
    assert(collapsed_moves(code, false) == code);
    lemma_replace_seq_apart(|w: Seq<Instruction>| set_cell_rule(w), 3, code);
    lemma_replace_seq_apart(|w: Seq<Instruction>| seek_zero_rule(w), 3, code);
    lemma_replace_seq_apart(|w: Seq<Instruction>| move_cell_rule(w), 6, code);
    assert(compacting(move_seed(), code[0]) == Some(code[0]));
    lemma_combine_seq_apart(compacting, code[0], rest);
    assert(collapsed_moves(code, true) == code);
}

/// Resolution is an involution: the instruction that a resolved bracket
/// points to is a bracket of the other kind that points back.
pub proof fn lemma_resolution_involution(before: Seq<Instruction>, after: Seq<Instruction>, i: int)
    requires
        resolved(before, after),
        patched(before, after, before.len() as int),
        0 <= i < before.len(),
        before[i].is_bracket(),
    ensures
        ({
            let j = after[i].offset as int;
            &&& 0 <= j < after.len()
            &&& j != i
            &&& after[j].is_bracket()
            &&& after[j].opcode != after[i].opcode
            &&& after[j].offset == i
        }),
{
    if before[i].opcode is JumpIfZero {
        assert(paired(before, i, after[i].offset as int));
    } else {
        assert(paired(before, after[i].offset as int, i));
    }
}

/// The code with every bracket holding the index of its partner.
pub open spec fn resolution(code: Seq<Instruction>) -> Seq<Instruction> {
    Seq::new(
        code.len(),
        |i: int|
            if code[i].opcode is JumpIfZero {
                Instruction { offset: (choose|j: int| paired(code, i, j)) as BfOffset, ..code[i] }
            } else if code[i].opcode is JumpIfNonZero {
                Instruction { offset: (choose|j: int| paired(code, j, i)) as BfOffset, ..code[i] }
            } else {
                code[i]
            },
    )
}

/// The depth changes by at most one from one instruction to the next.
proof fn lemma_depth_step(code: Seq<Instruction>, i: int)
    requires
        0 <= i < code.len(),
    ensures
        depth(code, i + 1) == depth(code, i) + depth_change(code[i]),
{
}

/// Behind an opening bracket of balanced code, with the depth above the
/// bracket's up to `x`, a partner follows.
proof fn lemma_find_close(code: Seq<Instruction>, i: int, x: int) -> (j: int)
    requires
        balanced(code),
        0 <= i < x <= code.len(),
        code[i].opcode is JumpIfZero,
        forall|k: int| i < k <= x ==> #[trigger] depth(code, k) > depth(code, i),
    ensures
        paired(code, i, j),
    decreases code.len() - x,
{
    assert(depth(code, i) >= 0);
    if x == code.len() {
        assert(depth(code, x) > depth(code, i));
        arbitrary()
    } else {
        lemma_depth_step(code, x);
        if depth(code, x + 1) == depth(code, i) {
            x
        } else {
            assert(depth(code, x) > depth(code, i));
            lemma_find_close(code, i, x + 1)
        }
    }
}

/// Before a closing bracket of balanced code, with the depth above what
/// it is behind the bracket down to `x`, a partner stands.
proof fn lemma_find_open(code: Seq<Instruction>, j: int, x: int) -> (i: int)
    requires
        balanced(code),
        0 <= x < j < code.len(),
        code[j].opcode is JumpIfNonZero,
        forall|k: int| x < k <= j ==> #[trigger] depth(code, k) > depth(code, j + 1),
    ensures
        paired(code, i, j),
    decreases x,
{
    lemma_depth_step(code, x);
    assert(depth(code, j + 1) >= 0);
    assert(depth(code, x + 1) > depth(code, j + 1));
    if depth(code, x) == depth(code, j + 1) {
        x
    } else {
        assert(depth(code, x) >= 0);
        assert(depth(code, x) > depth(code, j + 1)) by {
            if depth(code, x) < depth(code, j + 1) {
                assert(depth(code, x + 1) <= depth(code, x) + 1);
            }
        }
        lemma_find_open(code, j, x - 1)
    }
}

/// Balanced code has a resolution.
pub proof fn lemma_resolution(code: Seq<Instruction>)
    requires
        balanced(code),
        code.len() <= MAX_TAPE,
    ensures
        resolved(code, resolution(code)),
        patched(code, resolution(code), code.len() as int),
        resolution(code).len() == code.len(),
{
    let after = resolution(code);
    assert forall|k: int|
        0 <= k < code.len() && (#[trigger] code[k]).opcode is JumpIfZero implies paired(
        code,
        k,
        after[k].offset as int,
    ) by {
        lemma_depth_step(code, k);
        let j = lemma_find_close(code, k, k + 1);
        let chosen = choose|j: int| paired(code, k, j);
        assert(paired(code, k, chosen));
    }
    assert forall|k: int|
        0 <= k < code.len() && (#[trigger] code[k]).opcode is JumpIfNonZero implies paired(
        code,
        after[k].offset as int,
        k,
    ) by {
        lemma_depth_step(code, k);
        assert(depth(code, k + 1) >= 0);
        assert(k > 0) by {
            if k == 0 {
                assert(depth(code, 0) == 0);
            }
        }
        let i = lemma_find_open(code, k, k - 1);
        let chosen = choose|i: int| paired(code, i, k);
        assert(paired(code, chosen, k));
    }
    assert forall|a: int, b: int| #[trigger] paired(code, a, b) && b < code.len() implies after[a].offset
        == b && after[b].offset == a by {
        lemma_partner_unique(code, a, b, a, after[a].offset as int);
        lemma_partner_unique(code, a, b, after[b].offset as int, b);
    }
    assert forall|k: int|
        0 <= k < code.len() && !in_pair_before(code, k, code.len() as int) implies #[trigger] after[k]
        == code[k] by {
        if code[k].opcode is JumpIfZero {
            assert(paired(code, k, after[k].offset as int));
        } else if code[k].opcode is JumpIfNonZero {
            assert(paired(code, after[k].offset as int, k));
        }
    }
}

/// Resolution is determined by the code: two results of patching every
/// pair are the same.
pub proof fn lemma_patched_once(
    code: Seq<Instruction>,
    first: Seq<Instruction>,
    second: Seq<Instruction>,
)
    requires
        patched(code, first, code.len() as int),
        patched(code, second, code.len() as int),
    ensures
        first == second,
{
    assert forall|k: int| 0 <= k < code.len() implies first[k] == second[k] by {
        if in_pair_before(code, k, code.len() as int) {
            let (a, b) = choose|a: int, b: int| #[trigger]
                paired(code, a, b) && b < code.len() && (k == a || k == b);
            assert(first[k].offset == second[k].offset);
            assert(first[k].opcode == second[k].opcode);
        }
    }
    assert(first =~= second);
}

/// Where some prefix closes more brackets than it opens, a first closing
/// bracket has no partner.
pub proof fn lemma_first_dangling(code: Seq<Instruction>, n: int) -> (k: int)
    requires
        0 <= n <= code.len(),
        !never_negative(code, n),
    ensures
        dangling_close_at(code, k),
        k < n,
    decreases n,
{
    if n == 0 {
        assert(depth(code, 0) == 0);
        assert forall|j: int| 0 <= j <= 0 implies #[trigger] depth(code, j) >= 0 by {}
        arbitrary()
    } else if never_negative(code, n - 1) {
        assert(depth(code, n) < 0) by {
            if depth(code, n) >= 0 {
                assert forall|j: int| 0 <= j <= n implies #[trigger] depth(code, j) >= 0 by {
                    if j < n {
                        assert(never_negative(code, n - 1));
                    }
                }
            }
        }
        n - 1
    } else {
        lemma_first_dangling(code, n - 1)
    }
}

} // verus!

//! The passes keep what a program does: each pass cuts the code it is
//! given into groups and yields, for each group, one instruction that does
//! what the group does. A program that halts therefore still halts after
//! optimization, on the same tape and with the same output.

use vstd::prelude::*;
use crate::grouping::{
    covers,
    fused_effect,
    group_ok,
    grouping,
    idle,
    is_loop,
    lemma_depth_at,
    lemma_group_depth,
    lemma_grouping_follows,
    lemma_grouping_keeps_up,
    lemma_grouping_order,
    lemma_locate,
    lemma_unbracketed,
    loop_covers,
};
use crate::interpreter::{
    run,
    seek_zero,
    step_at,
    wrap_add,
    BfValue,
    Instruction,
    Machine,
    OpCode,
    Outcome,
    Seek,
    Step,
    MAX_TAPE,
};
use crate::itertools::{
    combine_seq,
    lemma_combine_seq_all,
    lemma_combine_seq_unmerged,
    lemma_replace_seq_all,
    lemma_replace_seq_inner,
    replace_seq,
};
use crate::optimizer::{
    add_seed,
    balanced,
    collapsed_adds,
    collapsed_moves,
    dangling_close_at,
    depth,
    halt,
    lemma_patched_once,
    lemma_resolution,
    lemma_resolved_is_program,
    merged_adds,
    merged_moves,
    move_seed,
    never_negative,
    optimized,
    patched,
    resolution,
    with_move_cells,
    with_seek_zeros,
    with_set_cells,
};
use crate::patterns::{
    move_cell_rule,
    move_cell_shapes,
    seek_zero_rule,
    seek_zero_shapes,
    set_cell_rule,
    set_cell_shapes,
    shape_of,
};
use crate::semantics::{
    lemma_follower_halts,
    lemma_leader_ends,
    lemma_seq_effect_elsewhere,
    lemma_seq_effect_push,
    loop_effect,
    same_tape,
    seq_effect,
    straight,
};

verus! {

/// An instruction that the passes may be given: not `Halt`, which ends the
/// code only after they have run, and no `FindZero` with a displacement.
pub open spec fn passable(ins: Instruction) -> bool {
    !(ins.opcode is Halt) && (ins.opcode is FindZero ==> ins.offset == 0)
}

/// Straight code of one instruction does what the instruction does.
pub proof fn lemma_seq_effect_one(ins: Instruction, m: Machine)
    ensures
        seq_effect(seq![ins], m) == ins.effect(m),
{
    let code = seq![ins];
    assert(code[0] == ins);
    assert(code.skip(1) =~= Seq::<Instruction>::empty());
    match ins.effect(m) {
        Step::Next(next) => {
            assert(seq_effect(code.skip(1), next) == Step::Next(next));
        },
        _ => {},
    }
}

/// An instruction that is no bracket covers itself.
pub proof fn lemma_covers_itself(ins: Instruction)
    requires
        passable(ins),
        !ins.is_bracket(),
    ensures
        straight(seq![ins]),
        covers(ins, seq![ins]),
{
    assert forall|m: Machine|
        #![trigger seq_effect(seq![ins], m)]
        (seq_effect(seq![ins], m) is Next ==> fused_effect(ins, m) == seq_effect(seq![ins], m))
            && (seq_effect(seq![ins], m) is Stuck ==> fused_effect(ins, m) is Stuck) by {
        lemma_seq_effect_one(ins, m);
        if ins.opcode is FindZero && ins.effect(m) is Next {
            let found = ins.effect(m)->Next_0;
            assert(found.shift(0) == found);
        }
    }
}

/// Idle code before an instruction adds nothing to what it does.
pub proof fn lemma_covers_behind_idle(before: Seq<Instruction>, ins: Instruction)
    requires
        straight(before),
        idle(before),
        passable(ins),
        !ins.is_bracket(),
    ensures
        straight(before.push(ins)),
        covers(ins, before.push(ins)),
{
    let group = before.push(ins);
    assert forall|m: Machine|
        #![trigger seq_effect(group, m)]
        (seq_effect(group, m) is Next ==> fused_effect(ins, m) == seq_effect(group, m)) && (
        seq_effect(group, m) is Stuck ==> fused_effect(ins, m) is Stuck) by {
        lemma_seq_effect_push(before, ins, m);
        assert(seq_effect(before, m) == Step::Next(m) || seq_effect(before, m) is OutOfBounds);
        if ins.opcode is FindZero && ins.effect(m) is Next {
            let found = ins.effect(m)->Next_0;
            assert(found.shift(0) == found);
        }
    }
    lemma_straight_push(before, ins);
}

/// Code covered by an instruction that changes nothing is idle.
pub proof fn lemma_idle_covered(by: Instruction, group: Seq<Instruction>)
    requires
        straight(group),
        covers(by, group),
        by == (Instruction { opcode: OpCode::NoOp, offset: 0 }) || by == (Instruction {
            opcode: OpCode::Add(0),
            offset: 0,
        }),
    ensures
        idle(group),
{
    assert forall|m: Machine|
        #![trigger seq_effect(group, m)]
        seq_effect(group, m) == Step::Next(m) || seq_effect(group, m) is OutOfBounds by {
        lemma_seq_effect_elsewhere(group, m, m.pc);
        assert(m.shift(0) == m);
        if by.opcode is Add && m.addressable(0) {
            assert(m.store(0, wrap_add(m.cell(0), 0)).cells =~= m.cells);
            assert(m.store(0, wrap_add(m.cell(0), 0)).shift(0) == m);
        }
    }
}

/// `merged` does what `first` and then `second` do: where both complete,
/// `merged` leaves the same state; `second` always completes or fails; and
/// where `first` can never complete, neither can `merged`.
pub open spec fn does_both(first: Instruction, second: Instruction, merged: Instruction) -> bool {
    forall|m: Machine|
        #![trigger fused_effect(first, m)]
        match fused_effect(first, m) {
            Step::Next(between) => !(second.effect(between) is Stuck) && (second.effect(between)
                is Next ==> fused_effect(merged, m) == second.effect(between)),
            Step::Stuck => fused_effect(merged, m) is Stuck,
            _ => true,
        }
}

/// Where `first` covers a group and `merged` does what `first` and then
/// `second` do, `merged` covers the group with `second` behind it.
pub proof fn lemma_covers_one_more(
    first: Instruction,
    group: Seq<Instruction>,
    second: Instruction,
    merged: Instruction,
)
    requires
        covers(first, group),
        does_both(first, second, merged),
    ensures
        covers(merged, group.push(second)),
{
    let longer = group.push(second);
    assert forall|m: Machine|
        #![trigger seq_effect(longer, m)]
        (seq_effect(longer, m) is Next ==> fused_effect(merged, m) == seq_effect(longer, m)) && (
        seq_effect(longer, m) is Stuck ==> fused_effect(merged, m) is Stuck) by {
        lemma_seq_effect_push(group, second, m);
        if seq_effect(group, m) is Next {
            assert(fused_effect(first, m) == seq_effect(group, m));
        }
        if seq_effect(group, m) is Stuck {
            assert(fused_effect(first, m) is Stuck);
        }
    }
}

/// Two adds on one cell do what one add of the wrapped sum does.
pub proof fn lemma_adds_do_both(n: BfValue, k: BfValue, offset: i32)
    ensures
        does_both(
            Instruction { opcode: OpCode::Add(n), offset: 0 },
            Instruction { opcode: OpCode::Add(k), offset },
            Instruction { opcode: OpCode::Add(wrap_add(n, k)), offset },
        ),
{
    let first = Instruction { opcode: OpCode::Add(n), offset: 0 };
    let second = Instruction { opcode: OpCode::Add(k), offset };
    let merged = Instruction { opcode: OpCode::Add(wrap_add(n, k)), offset };
    assert forall|m: Machine|
        #![trigger fused_effect(first, m)]
        match fused_effect(first, m) {
            Step::Next(between) => !(second.effect(between) is Stuck) && (second.effect(between)
                is Next ==> fused_effect(merged, m) == second.effect(between)),
            Step::Stuck => fused_effect(merged, m) is Stuck,
            _ => true,
        } by {
        if m.addressable(0) {
            let c = m.cell(0);
            let between = m.store(0, wrap_add(c, n)).shift(0);
            assert(between.cell(0) == wrap_add(c, n));
            assert(wrap_add(wrap_add(c, n), k) == wrap_add(c, wrap_add(n, k)));
            assert(between.store(0, wrap_add(wrap_add(c, n), k)).cells =~= m.store(
                0,
                wrap_add(c, wrap_add(n, k)),
            ).cells);
        }
    }
}

/// A move behind an instruction whose offset is a displacement does what
/// the instruction does with the sum of both as its displacement.
pub proof fn lemma_move_does_both(first: Instruction, by: i32)
    requires
        !first.is_bracket(),
        i32::MIN <= first.offset + by <= i32::MAX,
    ensures
        does_both(
            first,
            Instruction { opcode: OpCode::NoOp, offset: by },
            Instruction { opcode: first.opcode, offset: (first.offset + by) as i32 },
        ),
{
    let second = Instruction { opcode: OpCode::NoOp, offset: by };
    let merged = Instruction { opcode: first.opcode, offset: (first.offset + by) as i32 };
    assert forall|m: Machine|
        #![trigger fused_effect(first, m)]
        match fused_effect(first, m) {
            Step::Next(between) => !(second.effect(between) is Stuck) && (second.effect(between)
                is Next ==> fused_effect(merged, m) == second.effect(between)),
            Step::Stuck => fused_effect(merged, m) is Stuck,
            _ => true,
        } by {
        match first.opcode {
            OpCode::FindZero(_) => {
                if first.effect(m) is Next {
                    let found = first.effect(m)->Next_0;
                    assert(found.shift(first.offset as int).shift(by as int) == found.shift(
                        (first.offset + by) as int,
                    ));
                }
            },
            _ => {
                if first.effect(m) is Next {
                    let between = first.effect(m)->Next_0;
                    assert(merged.effect(m) == Step::Next(between.shift(by as int)));
                }
            },
        }
    }
}

/// A loop that only adds to the current cell has, when it ends, cleared
/// that cell and done nothing else.
pub proof fn lemma_clear_loop(delta: BfValue, m: Machine, rounds: nat)
    requires
        loop_effect(seq![Instruction { opcode: OpCode::Add(delta), offset: 0 }], m, rounds) is Next,
    ensures
        loop_effect(seq![Instruction { opcode: OpCode::Add(delta), offset: 0 }], m, rounds)
            == Step::Next(m.store(0, 0)),
        m.addressable(0),
    decreases rounds,
{
    let add = Instruction { opcode: OpCode::Add(delta), offset: 0 };
    let body = seq![add];
    if m.cell(0) == 0 {
        assert(m.store(0, 0).cells =~= m.cells);
    } else {
        lemma_seq_effect_one(add, m);
        let next = m.store(0, wrap_add(m.cell(0), delta)).shift(0);
        assert(seq_effect(body, m) == Step::Next(next));
        lemma_clear_loop(delta, next, (rounds - 1) as nat);
        assert(next.store(0, 0).cells =~= m.store(0, 0).cells);
    }
}

/// A loop that only moves the cursor has, when it ends, walked to the
/// first zero cell in its stride and done nothing else.
pub proof fn lemma_seek_loop(stride: i32, m: Machine, rounds: nat)
    requires
        loop_effect(seq![Instruction { opcode: OpCode::NoOp, offset: stride }], m, rounds) is Next,
    ensures
        ({
            let end = loop_effect(
                seq![Instruction { opcode: OpCode::NoOp, offset: stride }],
                m,
                rounds,
            )->Next_0;
            seek_zero(m.cells, m.cursor, stride as int) == Seek::At(end.cursor) && end == (Machine {
                cursor: end.cursor,
                ..m
            })
        }),
    decreases rounds,
{
    let step = Instruction { opcode: OpCode::NoOp, offset: stride };
    let body = seq![step];
    if m.cell(0) != 0 {
        lemma_seq_effect_one(step, m);
        let next = m.shift(stride as int);
        assert(seq_effect(body, m) == Step::Next(next));
        lemma_seek_loop(stride, next, (rounds - 1) as nat);
    }
}

/// One round of the loop that takes from the current cell and gives to
/// the cell at `to`.
pub open spec fn move_body(take: BfValue, to: i32, give: BfValue) -> Seq<Instruction> {
    seq![
        Instruction { opcode: OpCode::Add(take), offset: 0 },
        Instruction { opcode: OpCode::NoOp, offset: to },
        Instruction { opcode: OpCode::Add(give), offset: 0 },
        Instruction { opcode: OpCode::NoOp, offset: (-to) as i32 },
    ]
}

/// What one round of the moving loop does.
proof fn lemma_move_round(take: BfValue, to: i32, give: BfValue, m: Machine)
    requires
        to != i32::MIN,
        m.addressable(0),
    ensures
        seq_effect(move_body(take, to, give), m) == if m.addressable(to as int) {
            Step::Next(
                m.store(0, wrap_add(m.cell(0), take)).shift(to as int).store(
                    0,
                    wrap_add(m.store(0, wrap_add(m.cell(0), take)).cell(to as int), give),
                ).shift(-to as int),
            )
        } else {
            Step::OutOfBounds
        },
{
    let a = Instruction { opcode: OpCode::Add(take), offset: 0 };
    let b = Instruction { opcode: OpCode::NoOp, offset: to };
    let c = Instruction { opcode: OpCode::Add(give), offset: 0 };
    let d = Instruction { opcode: OpCode::NoOp, offset: (-to) as i32 };
    assert(move_body(take, to, give) =~= seq![a].push(b).push(c).push(d));
    lemma_seq_effect_one(a, m);
    lemma_seq_effect_push(seq![a], b, m);
    lemma_seq_effect_push(seq![a].push(b), c, m);
    lemma_seq_effect_push(seq![a].push(b).push(c), d, m);
    let m1 = m.store(0, wrap_add(m.cell(0), take)).shift(0);
    assert(m1 == m.store(0, wrap_add(m.cell(0), take)));
}

/// A loop that takes 1 from the current cell and gives 1 to another, or
/// the other way round, has, when it ends, added the current cell to the
/// other and cleared it, if it was not 0, and done nothing else.
pub proof fn lemma_move_loop(take: BfValue, to: i32, give: BfValue, m: Machine, rounds: nat)
    requires
        give == 1 || give == -1,
        take == -give,
        -128 <= to <= 127,
        loop_effect(move_body(take, to, give), m, rounds) is Next,
    ensures
        (Instruction { opcode: OpCode::MoveAndAddTo(to as BfValue), offset: 0 }).effect(m)
            == loop_effect(move_body(take, to, give), m, rounds),
    decreases rounds,
{
    let body = move_body(take, to, give);
    let by = Instruction { opcode: OpCode::MoveAndAddTo(to as BfValue), offset: 0 };
    assert(m.shift(0) == m);
    if m.cell(0) != 0 {
        lemma_move_round(take, to, give, m);
        let next = seq_effect(body, m)->Next_0;
        assert(loop_effect(body, m, rounds) == loop_effect(body, next, (rounds - 1) as nat));
        lemma_move_loop(take, to, give, next, (rounds - 1) as nat);
        let here = m.cursor;
        let there = m.cursor + to;
        let c = m.cell(0);
        let t = m.cell(to as int);
        assert(next.cursor == here);
        assert(next.shift(0) == next);
        if to == 0 {
            assert(wrap_add(wrap_add(c, take), give) == c);
            assert(next.cells =~= m.cells);
            assert(next == m);
        } else {
            assert(next.cells =~= m.cells.update(here, wrap_add(c, take)).update(
                there,
                wrap_add(t, give),
            ));
            assert(next.cell(0) == wrap_add(c, take));
            assert(next.cell(to as int) == wrap_add(t, give));
            let total = wrap_add(t, c);
            if next.cell(0) == 0 {
                assert(wrap_add(t, give) == total);
                assert(m.store(to as int, total).store(0, 0).cells =~= next.cells);
            } else {
                assert(wrap_add(wrap_add(t, give), wrap_add(c, take)) == total);
                assert(next.store(to as int, total).store(0, 0).cells =~= m.store(
                    to as int,
                    total,
                ).store(0, 0).cells);
            }
        }
    }
}

/// The number of rounds after which a cell that changes by `delta`, which
/// is 1 or -1, in each round is 0.
pub open spec fn turns(cell: BfValue, delta: BfValue) -> int {
    if cell == 0 {
        0
    } else if delta == 1 {
        if cell < 0 {
            -cell
        } else {
            256 - cell
        }
    } else {
        if cell > 0 {
            cell as int
        } else {
            cell + 256
        }
    }
}

/// A loop that adds 1 or -1 to the current cell comes to an end.
pub proof fn lemma_clear_ends(delta: BfValue, m: Machine, rounds: nat)
    requires
        delta == 1 || delta == -1,
        m.addressable(0),
        turns(m.cell(0), delta) <= rounds,
    ensures
        loop_effect(seq![Instruction { opcode: OpCode::Add(delta), offset: 0 }], m, rounds) is Next,
    decreases rounds,
{
    let add = Instruction { opcode: OpCode::Add(delta), offset: 0 };
    if m.cell(0) != 0 {
        lemma_seq_effect_one(add, m);
        let next = m.store(0, wrap_add(m.cell(0), delta)).shift(0);
        assert(seq_effect(seq![add], m) == Step::Next(next));
        assert(next.cell(0) == wrap_add(m.cell(0), delta));
        lemma_clear_ends(delta, next, (rounds - 1) as nat);
    }
}

/// A loop that only moves the cursor, where the walk in its stride ends on
/// a zero cell or off the tape, comes to an end or fails.
pub proof fn lemma_seek_ends(stride: i32, m: Machine) -> (rounds: nat)
    requires
        !(seek_zero(m.cells, m.cursor, stride as int) is Never),
    ensures
        !(loop_effect(seq![Instruction { opcode: OpCode::NoOp, offset: stride }], m, rounds)
            is Stuck),
    decreases
        (if !(0 <= m.cursor < m.cells.len()) {
            0
        } else if stride > 0 {
            m.cells.len() - m.cursor
        } else {
            m.cursor + 1
        }),
{
    let step = Instruction { opcode: OpCode::NoOp, offset: stride };
    if m.addressable(0) && m.cell(0) != 0 {
        lemma_seq_effect_one(step, m);
        let next = m.shift(stride as int);
        assert(seq_effect(seq![step], m) == Step::Next(next));
        let more = lemma_seek_ends(stride, next);
        assert(loop_effect(seq![step], m, more + 1) == loop_effect(seq![step], next, more));
        more + 1
    } else {
        0
    }
}

/// A loop that takes 1 from the current cell and gives 1 to another cell
/// on the tape, or the other way round, comes to an end.
pub proof fn lemma_move_ends(take: BfValue, to: i32, give: BfValue, m: Machine, rounds: nat)
    requires
        give == 1 || give == -1,
        take == -give,
        to != 0,
        -128 <= to <= 127,
        m.addressable(0),
        m.addressable(to as int),
        turns(m.cell(0), take) <= rounds,
    ensures
        loop_effect(move_body(take, to, give), m, rounds) is Next,
    decreases rounds,
{
    if m.cell(0) != 0 {
        lemma_move_round(take, to, give, m);
        let next = seq_effect(move_body(take, to, give), m)->Next_0;
        assert(next.cursor == m.cursor);
        assert(next.cells.len() == m.cells.len());
        assert(next.cell(0) == wrap_add(m.cell(0), take));
        lemma_move_ends(take, to, give, next, (rounds - 1) as nat);
    }
}

/// Code in which no move by nothing has an instruction behind it.
pub open spec fn settled(code: Seq<Instruction>) -> bool {
    forall|i: int| 0 <= i < code.len() - 1 ==> #[trigger] code[i] != move_seed()
}

/// `by` may stand for the group that is pending while neighbours are
/// merged: a bracket for a bracket of its kind behind idle straight code,
/// any other instruction for straight code that it covers.
pub open spec fn pending_ok(group: Seq<Instruction>, by: Instruction) -> bool {
    group.len() > 0 && if by.is_bracket() {
        group.last().opcode == by.opcode && straight(group.drop_last()) && idle(group.drop_last())
    } else {
        !(by.opcode is Halt) && straight(group) && covers(by, group)
    }
}

/// Merging with `f` keeps the pending instruction standing for the
/// pending group, grown by the instruction merged in.
pub open spec fn merge_keeps(
    f: spec_fn(Instruction, Instruction) -> Option<Instruction>,
    group: Seq<Instruction>,
    pending: Instruction,
    next: Instruction,
) -> bool {
    pending_ok(group, pending) && passable(next) && f(pending, next) is Some ==> pending_ok(
        group.push(next),
        f(pending, next)->0,
    )
}

/// Of settled windows the matcher `rule` only accepts loops around straight
/// code, and what it replaces a loop by covers the loop.
pub open spec fn rule_sound(
    rule: spec_fn(Seq<Instruction>) -> Option<Instruction>,
    window: Seq<Instruction>,
) -> bool {
    settled(window) && rule(window) is Some ==> {
        let by = rule(window)->0;
        &&& !by.is_bracket()
        &&& !(by.opcode is Halt)
        &&& is_loop(window)
        &&& loop_covers(by, window.subrange(1, window.len() - 1))
    }
}

proof fn lemma_straight_push(group: Seq<Instruction>, next: Instruction)
    requires
        straight(group),
        !next.is_bracket(),
        !(next.opcode is Halt),
    ensures
        straight(group.push(next)),
{
    assert forall|i: int| 0 <= i < group.push(next).len() implies !(#[trigger] group.push(
        next,
    )[i]).is_bracket() && !(group.push(next)[i].opcode is Halt) by {
        if i < group.len() {
            assert(group.push(next)[i] == group[i]);
        }
    }
}

/// The pending instruction gives way to `next`, having changed nothing.
proof fn lemma_gives_way(group: Seq<Instruction>, pending: Instruction, next: Instruction)
    requires
        pending_ok(group, pending),
        passable(next),
        pending == (Instruction { opcode: OpCode::NoOp, offset: 0 }) || pending == (Instruction {
            opcode: OpCode::Add(0),
            offset: 0,
        }),
    ensures
        pending_ok(group.push(next), next),
{
    lemma_idle_covered(pending, group);
    assert(group.push(next).drop_last() =~= group);
    if !next.is_bracket() {
        lemma_covers_behind_idle(group, next);
    }
}

pub proof fn lemma_adds_keep(group: Seq<Instruction>, pending: Instruction, next: Instruction)
    ensures
        merge_keeps(|a: Instruction, b: Instruction| merged_adds(a, b), group, pending, next),
{
    if pending_ok(group, pending) && passable(next) && merged_adds(pending, next) is Some {
        if pending.opcode == OpCode::Add(0) {
            lemma_gives_way(group, pending, next);
        } else {
            let n = pending.opcode->Add_0;
            let k = next.opcode->Add_0;
            lemma_adds_do_both(n, k, next.offset);
            lemma_covers_one_more(pending, group, next, merged_adds(pending, next)->0);
            lemma_straight_push(group, next);
        }
    }
}

pub proof fn lemma_moves_keep(
    group: Seq<Instruction>,
    pending: Instruction,
    next: Instruction,
    compact: bool,
)
    ensures
        merge_keeps(
            |a: Instruction, b: Instruction| merged_moves(a, b, compact),
            group,
            pending,
            next,
        ),
{
    if pending_ok(group, pending) && passable(next) && merged_moves(pending, next, compact)
        is Some {
        if pending.opcode is NoOp && pending.offset == 0 {
            lemma_gives_way(group, pending, next);
        } else {
            lemma_move_does_both(pending, next.offset);
            lemma_covers_one_more(pending, group, next, merged_moves(pending, next, compact)->0);
            lemma_straight_push(group, next);
        }
    }
}

pub proof fn lemma_set_cell_sound(window: Seq<Instruction>)
    ensures
        rule_sound(|w: Seq<Instruction>| set_cell_rule(w), window),
{
    if settled(window) && set_cell_rule(window) is Some {
        let by = set_cell_rule(window)->0;
        let body = window.subrange(1, window.len() - 1);
        assert(set_cell_shapes().len() == 3);
        assert(shape_of(window[0].opcode) == set_cell_shapes()[0]);
        assert(shape_of(window[1].opcode) == set_cell_shapes()[1]);
        assert(shape_of(window[2].opcode) == set_cell_shapes()[2]);
        assert(window[1].uses_offset() || window[1].offset == 0);
        let delta = window[1].opcode->Add_0;
        let add = Instruction { opcode: OpCode::Add(delta), offset: 0 };
        assert(body =~= seq![add]);
        assert(straight(body));
        assert forall|m: Machine, rounds: nat| #[trigger]
            loop_effect(body, m, rounds) is Next implies fused_effect(by, m) == loop_effect(
            body,
            m,
            rounds,
        ) by {
            lemma_clear_loop(delta, m, rounds);
            assert(m.store(0, 0).shift(0) == m.store(0, 0));
        }
        assert forall|m: Machine| !(#[trigger] fused_effect(by, m) is Stuck) implies exists|
            rounds: nat,
        |
            !(#[trigger] loop_effect(body, m, rounds) is Stuck) by {
            if m.addressable(0) {
                lemma_clear_ends(delta, m, 256);
                assert(!(loop_effect(body, m, 256) is Stuck));
            } else {
                assert(!(loop_effect(body, m, 0) is Stuck));
            }
        }
    }
}

pub proof fn lemma_seek_zero_sound(window: Seq<Instruction>)
    ensures
        rule_sound(|w: Seq<Instruction>| seek_zero_rule(w), window),
{
    if settled(window) && seek_zero_rule(window) is Some {
        let by = seek_zero_rule(window)->0;
        let body = window.subrange(1, window.len() - 1);
        assert(seek_zero_shapes().len() == 3);
        assert(shape_of(window[0].opcode) == seek_zero_shapes()[0]);
        assert(shape_of(window[1].opcode) == seek_zero_shapes()[1]);
        assert(shape_of(window[2].opcode) == seek_zero_shapes()[2]);
        let stride = window[1].offset;
        let step = Instruction { opcode: OpCode::NoOp, offset: stride };
        assert(body =~= seq![step]);
        assert(straight(body));
        assert forall|m: Machine, rounds: nat| #[trigger]
            loop_effect(body, m, rounds) is Next implies fused_effect(by, m) == loop_effect(
            body,
            m,
            rounds,
        ) by {
            lemma_seek_loop(stride, m, rounds);
            let end = loop_effect(body, m, rounds)->Next_0;
            assert(end.shift(0) == end);
        }
        assert forall|m: Machine| !(#[trigger] fused_effect(by, m) is Stuck) implies exists|
            rounds: nat,
        |
            !(#[trigger] loop_effect(body, m, rounds) is Stuck) by {
            let rounds = lemma_seek_ends(stride, m);
            assert(!(loop_effect(body, m, rounds) is Stuck));
        }
    }
}

pub proof fn lemma_move_cell_sound(window: Seq<Instruction>)
    ensures
        rule_sound(|w: Seq<Instruction>| move_cell_rule(w), window),
{
    if settled(window) && move_cell_rule(window) is Some {
        let by = move_cell_rule(window)->0;
        let body = window.subrange(1, window.len() - 1);
        assert(move_cell_shapes().len() == 6);
        assert(shape_of(window[0].opcode) == move_cell_shapes()[0]);
        assert(shape_of(window[1].opcode) == move_cell_shapes()[1]);
        assert(shape_of(window[2].opcode) == move_cell_shapes()[2]);
        assert(shape_of(window[3].opcode) == move_cell_shapes()[3]);
        assert(shape_of(window[4].opcode) == move_cell_shapes()[4]);
        assert(shape_of(window[5].opcode) == move_cell_shapes()[5]);
        assert(window[1].uses_offset() || window[1].offset == 0);
        assert(window[3].uses_offset() || window[3].offset == 0);
        let take = window[1].opcode->Add_0;
        let give = window[3].opcode->Add_0;
        let to = window[2].offset;
        assert(body =~= move_body(take, to, give));
        assert(straight(body));
        assert forall|m: Machine, rounds: nat| #[trigger]
            loop_effect(body, m, rounds) is Next implies fused_effect(by, m) == loop_effect(
            body,
            m,
            rounds,
        ) by {
            lemma_move_loop(take, to, give, m, rounds);
        }
        assert(window[2] != move_seed());
        assert(to != 0);
        assert forall|m: Machine| !(#[trigger] fused_effect(by, m) is Stuck) implies exists|
            rounds: nat,
        |
            !(#[trigger] loop_effect(body, m, rounds) is Stuck) by {
            if !m.addressable(0) || m.cell(0) == 0 {
                assert(!(loop_effect(body, m, 0) is Stuck));
            } else if m.addressable(to as int) {
                lemma_move_ends(take, to, give, m, 256);
                assert(!(loop_effect(body, m, 256) is Stuck));
            } else {
                lemma_move_round(take, to, give, m);
                assert(loop_effect(body, m, 1) is OutOfBounds);
            }
        }
    }
}

/// Merging neighbours cuts the code into groups: with `pending` standing
/// for the code from `start` up to `next`, what `combine_seq` yields from
/// there stands for the code from `start` on.
pub proof fn lemma_combine_grouping(
    f: spec_fn(Instruction, Instruction) -> Option<Instruction>,
    slow: Seq<Instruction>,
    start: int,
    next: int,
    pending: Instruction,
) -> (at: Seq<int>)
    requires
        0 <= start < next <= slow.len(),
        pending_ok(slow.subrange(start, next), pending),
        forall|i: int| 0 <= i < slow.len() ==> passable(#[trigger] slow[i]),
        forall|group: Seq<Instruction>, a: Instruction, b: Instruction| #[trigger]
            merge_keeps(f, group, a, b),
    ensures
        grouping(slow, combine_seq(f, pending, slow.skip(next)), at, start),
    decreases slow.len() - next,
{
    let rest = slow.skip(next);
    if next == slow.len() {
        let at = seq![start, next];
        assert(combine_seq(f, pending, rest) =~= seq![pending]);
        at
    } else {
        let b = slow[next];
        assert(rest[0] == b);
        assert(rest.skip(1) =~= slow.skip(next + 1));
        match f(pending, b) {
            Some(merged) => {
                assert(merge_keeps(f, slow.subrange(start, next), pending, b));
                assert(slow.subrange(start, next).push(b) =~= slow.subrange(start, next + 1));
                lemma_combine_grouping(f, slow, start, next + 1, merged)
            },
            None => {
                let single = slow.subrange(next, next + 1);
                assert(single =~= seq![b]);
                if b.is_bracket() {
                    assert(single.drop_last() =~= Seq::<Instruction>::empty());
                    assert(idle(single.drop_last()));
                } else {
                    lemma_covers_itself(b);
                }
                let tail = lemma_combine_grouping(f, slow, next, next + 1, b);
                let out = combine_seq(f, b, slow.skip(next + 1));
                let at = seq![start] + tail;
                let fast = seq![pending] + out;
                assert(combine_seq(f, pending, rest) == fast);
                assert forall|k: int| 0 <= k < fast.len() implies at[k] < #[trigger] at[k + 1]
                    && group_ok(slow.subrange(at[k], at[k + 1]), fast[k]) by {
                    if k > 0 {
                        let j = k - 1;
                        assert(tail[j] < tail[j + 1]);
                        assert(at[k] == tail[j] && at[k + 1] == tail[j + 1]);
                        assert(fast[k] == out[j]);
                    } else {
                        assert(at[1] == tail[0]);
                    }
                }
                assert(at.last() == tail.last());
                at
            },
        }
    }
}

/// Code stands for itself, instruction by instruction.
pub proof fn lemma_own_grouping(slow: Seq<Instruction>, from: int) -> (at: Seq<int>)
    requires
        0 <= from <= slow.len(),
        forall|i: int| 0 <= i < slow.len() ==> passable(#[trigger] slow[i]),
    ensures
        grouping(slow, slow.skip(from), at, from),
{
    let fast = slow.skip(from);
    let at = Seq::new((fast.len() + 1) as nat, |k: int| from + k);
    assert forall|k: int| 0 <= k < fast.len() implies at[k] < #[trigger] at[k + 1] && group_ok(
        slow.subrange(at[k], at[k + 1]),
        fast[k],
    ) by {
        let b = fast[k];
        let single = slow.subrange(at[k], at[k + 1]);
        assert(single =~= seq![b]);
        if b.is_bracket() {
            assert(single.drop_last() =~= Seq::<Instruction>::empty());
            assert(idle(single.drop_last()));
        } else {
            lemma_covers_itself(b);
        }
    }
    at
}

/// Replacing windows cuts the code into groups: what `replace_seq` yields
/// for the code from `from` on stands for that code.
pub proof fn lemma_replace_grouping(
    rule: spec_fn(Seq<Instruction>) -> Option<Instruction>,
    size: nat,
    slow: Seq<Instruction>,
    from: int,
) -> (at: Seq<int>)
    requires
        size > 0,
        0 <= from <= slow.len(),
        settled(slow),
        forall|i: int| 0 <= i < slow.len() ==> passable(#[trigger] slow[i]),
        forall|window: Seq<Instruction>| #[trigger] rule_sound(rule, window),
    ensures
        grouping(slow, replace_seq(rule, size, slow.skip(from)), at, from),
    decreases slow.len() - from,
{
    let rest = slow.skip(from);
    if rest.len() < size {
        lemma_own_grouping(slow, from)
    } else {
        let window = rest.take(size as int);
        assert(window =~= slow.subrange(from, from + size));
        assert forall|i: int| 0 <= i < window.len() - 1 implies #[trigger] window[i]
            != move_seed() by {
            assert(window[i] == slow[from + i]);
        }
        assert(rule_sound(rule, window));
        let (by, width) = match rule(window) {
            Some(r) => (r, size as int),
            None => (rest[0], 1int),
        };
        let single = slow.subrange(from, from + 1);
        assert(single =~= seq![rest[0]]);
        if rule(window) is None {
            if by.is_bracket() {
                assert(single.drop_last() =~= Seq::<Instruction>::empty());
                assert(idle(single.drop_last()));
            } else {
                lemma_covers_itself(by);
            }
        }
        assert(group_ok(slow.subrange(from, from + width), by));
        assert(rest.skip(width) =~= slow.skip(from + width));
        let tail = lemma_replace_grouping(rule, size, slow, from + width);
        let out = replace_seq(rule, size, slow.skip(from + width));
        let at = seq![from] + tail;
        let fast = seq![by] + out;
        assert(replace_seq(rule, size, rest) == fast);
        assert forall|k: int| 0 <= k < fast.len() implies at[k] < #[trigger] at[k + 1] && group_ok(
            slow.subrange(at[k], at[k + 1]),
            fast[k],
        ) by {
            if k > 0 {
                let j = k - 1;
                assert(tail[j] < tail[j + 1]);
                assert(at[k] == tail[j] && at[k + 1] == tail[j + 1]);
                assert(fast[k] == out[j]);
            } else {
                assert(at[1] == tail[0]);
            }
        }
        assert(at.last() == tail.last());
        at
    }
}

/// Code that stands for other code still does with `Halt` behind both.
pub proof fn lemma_grouping_halt(slow: Seq<Instruction>, fast: Seq<Instruction>, at: Seq<int>)
    requires
        grouping(slow, fast, at, 0),
    ensures
        grouping(slow.push(halt()), fast.push(halt()), at.push(slow.len() as int + 1), 0),
{
    let slow2 = slow.push(halt());
    let fast2 = fast.push(halt());
    let at2 = at.push(slow.len() as int + 1);
    assert forall|k: int| 0 <= k < fast2.len() implies at2[k] < #[trigger] at2[k + 1] && group_ok(
        slow2.subrange(at2[k], at2[k + 1]),
        fast2[k],
    ) by {
        if k < fast.len() {
            lemma_grouping_order(slow, fast, at, 0, k, k + 1);
            assert(at[k] < at[k + 1]);
            assert(slow2.subrange(at2[k], at2[k + 1]) =~= slow.subrange(at[k], at[k + 1]));
        } else {
            assert(at2[k] == slow.len());
            assert(slow2.subrange(at2[k], at2[k + 1]) =~= seq![halt()]);
        }
    }
}

/// Code that stands for balanced code is balanced, and no longer.
pub proof fn lemma_grouping_balanced(slow: Seq<Instruction>, fast: Seq<Instruction>, at: Seq<int>)
    requires
        grouping(slow, fast, at, 0),
        balanced(slow),
    ensures
        balanced(fast),
        fast.len() <= slow.len(),
{
    assert forall|j: int| 0 <= j <= fast.len() implies #[trigger] depth(fast, j) >= 0 by {
        lemma_depth_at(slow, fast, at, j);
        lemma_grouping_order(slow, fast, at, 0, j, j);
        assert(depth(slow, at[j]) >= 0);
    }
    lemma_depth_at(slow, fast, at, fast.len() as int);
    lemma_borders_apart(slow, fast, at, fast.len() as int);
}

proof fn lemma_borders_apart(slow: Seq<Instruction>, fast: Seq<Instruction>, at: Seq<int>, k: int)
    requires
        grouping(slow, fast, at, 0),
        0 <= k <= fast.len(),
    ensures
        k <= at[k],
    decreases k,
{
    if k > 0 {
        lemma_borders_apart(slow, fast, at, k - 1);
        let j = k - 1;
        assert(at[j] < at[j + 1]);
    }
}

/// `Halt` behind code changes nothing about its brackets.
pub proof fn lemma_balanced_halt(code: Seq<Instruction>)
    ensures
        balanced(code) == balanced(code.push(halt())),
{
    lemma_halt_depths(code);
}

/// `Halt` behind code changes no depth.
pub proof fn lemma_halt_depths(code: Seq<Instruction>)
    ensures
        never_negative(code.push(halt()), code.len() as int + 1) == never_negative(
            code,
            code.len() as int,
        ),
        depth(code.push(halt()), code.len() as int + 1) == depth(code, code.len() as int),
        forall|k: int|
            dangling_close_at(code.push(halt()), k) ==> !never_negative(code, code.len() as int),
{
    let longer = code.push(halt());
    lemma_depth_prefix(code, longer, code.len() as int);
    assert(depth(longer, longer.len() as int) == depth(longer, code.len() as int));
    if never_negative(code, code.len() as int) {
        assert forall|j: int| 0 <= j <= longer.len() implies #[trigger] depth(longer, j) >= 0 by {
            if j <= code.len() {
                lemma_depth_prefix(code, longer, j);
                assert(depth(code, j) >= 0);
            }
        }
    }
    if never_negative(longer, longer.len() as int) {
        assert forall|j: int| 0 <= j <= code.len() implies #[trigger] depth(code, j) >= 0 by {
            lemma_depth_prefix(code, longer, j);
            assert(depth(longer, j) >= 0);
        }
    }
    assert forall|k: int| dangling_close_at(longer, k) implies !never_negative(
        code,
        code.len() as int,
    ) by {
        assert(depth(longer, k + 1) < 0);
        if never_negative(code, code.len() as int) {
            assert(never_negative(longer, longer.len() as int));
        }
    }
}

proof fn lemma_depth_prefix(code: Seq<Instruction>, longer: Seq<Instruction>, j: int)
    requires
        0 <= j <= code.len() <= longer.len(),
        forall|i: int| 0 <= i < code.len() ==> code[i] == longer[i],
    ensures
        depth(code, j) == depth(longer, j),
    decreases j,
{
    if j > 0 {
        lemma_depth_prefix(code, longer, j - 1);
    }
}

/// Merging neighbours from a pending instruction that gives way to
/// whatever follows cuts code that is not empty into groups.
proof fn lemma_collapse_grouping(
    f: spec_fn(Instruction, Instruction) -> Option<Instruction>,
    seed: Instruction,
    slow: Seq<Instruction>,
) -> (at: Seq<int>)
    requires
        slow.len() > 0,
        forall|b: Instruction| #[trigger] f(seed, b) == Some(b),
        forall|i: int| 0 <= i < slow.len() ==> passable(#[trigger] slow[i]),
        forall|group: Seq<Instruction>, a: Instruction, b: Instruction| #[trigger]
            merge_keeps(f, group, a, b),
    ensures
        grouping(slow, combine_seq(f, seed, slow), at, 0),
{
    let first = slow[0];
    assert(f(seed, first) == Some(first));
    let single = slow.subrange(0, 1);
    assert(single =~= seq![first]);
    if first.is_bracket() {
        assert(single.drop_last() =~= Seq::<Instruction>::empty());
        assert(idle(single.drop_last()));
    } else {
        lemma_covers_itself(first);
    }
    lemma_combine_grouping(f, slow, 0, 1, first)
}

/// Pass `n` of the pipeline, counted from 1.
pub open spec fn pass(n: int, code: Seq<Instruction>) -> Seq<Instruction> {
    if n == 1 {
        collapsed_adds(code)
    } else if n == 2 {
        collapsed_moves(code, false)
    } else if n == 3 {
        with_set_cells(code)
    } else if n == 4 {
        with_seek_zeros(code)
    } else if n == 5 {
        with_move_cells(code)
    } else {
        collapsed_moves(code, true)
    }
}

/// The code after the first `n` passes.
pub open spec fn stage(source: Seq<Instruction>, n: nat) -> Seq<Instruction>
    decreases n,
{
    if n == 0 {
        source
    } else {
        pass(n as int, stage(source, (n - 1) as nat))
    }
}

/// After six passes the code is optimized.
pub proof fn lemma_last_stage(source: Seq<Instruction>)
    ensures
        stage(source, 6) == optimized(source),
{
    reveal_with_fuel(stage, 7);
}

/// Every instruction of the code may be given to a pass.
pub open spec fn all_passable(code: Seq<Instruction>) -> bool {
    forall|i: int| 0 <= i < code.len() ==> passable(#[trigger] code[i])
}

/// Every pass cuts code that is not empty into groups, and yields code
/// that is not empty and holds no `Halt`; every pass but the last yields
/// code that may be given to the next.
pub proof fn lemma_pass_grouping(n: int, code: Seq<Instruction>) -> (at: Seq<int>)
    requires
        1 <= n <= 6,
        code.len() > 0,
        all_passable(code),
        3 <= n <= 5 ==> settled(code),
    ensures
        grouping(code, pass(n, code), at, 0),
        pass(n, code).len() > 0,
        n <= 5 ==> all_passable(pass(n, code)),
        2 <= n <= 4 ==> settled(pass(n, code)),
        forall|i: int| 0 <= i < pass(n, code).len() ==> !((#[trigger] pass(n, code)[i]).opcode is Halt),
{
    let fine = |x: Instruction| passable(x);
    let no_halt = |x: Instruction| !(x.opcode is Halt);
    let after = pass(n, code);
    let at = if n == 1 {
        let adds = |a: Instruction, b: Instruction| merged_adds(a, b);
        assert forall|group: Seq<Instruction>, a: Instruction, b: Instruction| #[trigger]
            merge_keeps(adds, group, a, b) by {
            lemma_adds_keep(group, a, b);
        }
        lemma_combine_seq_all(fine, adds, add_seed(), code);
        lemma_collapse_grouping(adds, add_seed(), code)
    } else if n == 2 || n == 6 {
        let compact = n == 6;
        let moves = |a: Instruction, b: Instruction| merged_moves(a, b, compact);
        assert forall|group: Seq<Instruction>, a: Instruction, b: Instruction| #[trigger]
            merge_keeps(moves, group, a, b) by {
            lemma_moves_keep(group, a, b, compact);
        }
        if compact {
            lemma_combine_seq_all(no_halt, moves, move_seed(), code);
        } else {
            lemma_combine_seq_all(fine, moves, move_seed(), code);
            assert forall|i: int| 0 <= i < after.len() - 1 implies #[trigger] after[i]
                != move_seed() by {
                let b = lemma_combine_seq_unmerged(moves, move_seed(), code, i);
                assert(moves(after[i], b) is None);
            }
        }
        lemma_collapse_grouping(moves, move_seed(), code)
    } else {
        assert(code.skip(0) =~= code);
        let idle_move = |x: Instruction| x == move_seed();
        if n == 3 {
            let rule = |w: Seq<Instruction>| set_cell_rule(w);
            assert forall|w: Seq<Instruction>| #[trigger] rule_sound(rule, w) by {
                lemma_set_cell_sound(w);
            }
            lemma_replace_seq_all(fine, rule, 3, code);
            lemma_replace_seq_inner(idle_move, rule, 3, code);
            assert forall|i: int| 0 <= i < after.len() - 1 implies #[trigger] after[i]
                != move_seed() by {
                assert(!idle_move(after[i]));
            }
            lemma_replace_grouping(rule, 3, code, 0)
        } else if n == 4 {
            let rule = |w: Seq<Instruction>| seek_zero_rule(w);
            assert forall|w: Seq<Instruction>| #[trigger] rule_sound(rule, w) by {
                lemma_seek_zero_sound(w);
            }
            lemma_replace_seq_all(fine, rule, 3, code);
            lemma_replace_seq_inner(idle_move, rule, 3, code);
            assert forall|i: int| 0 <= i < after.len() - 1 implies #[trigger] after[i]
                != move_seed() by {
                assert(!idle_move(after[i]));
            }
            lemma_replace_grouping(rule, 3, code, 0)
        } else {
            let rule = |w: Seq<Instruction>| move_cell_rule(w);
            assert forall|w: Seq<Instruction>| #[trigger] rule_sound(rule, w) by {
                lemma_move_cell_sound(w);
            }
            lemma_replace_seq_all(fine, rule, 6, code);
            lemma_replace_grouping(rule, 6, code, 0)
        }
    };
    assert forall|i: int| 0 <= i < after.len() implies !((#[trigger] after[i]).opcode is Halt) by {
        if n == 6 {
            assert(no_halt(after[i]));
        } else {
            assert(fine(after[i]));
        }
    }
    if n <= 5 {
        assert forall|i: int| 0 <= i < after.len() implies passable(#[trigger] after[i]) by {
            assert(fine(after[i]));
        }
    }
    at
}

/// Before the last pass the code is not empty and may be given to a pass.
pub proof fn lemma_stage_passable(source: Seq<Instruction>, n: nat)
    requires
        source.len() > 0,
        all_passable(source),
        n <= 5,
    ensures
        stage(source, n).len() > 0,
        all_passable(stage(source, n)),
        2 <= n <= 4 ==> settled(stage(source, n)),
    decreases n,
{
    if n > 0 {
        lemma_stage_passable(source, (n - 1) as nat);
        let at = lemma_pass_grouping(n as int, stage(source, (n - 1) as nat));
    }
}

/// Code that stands for other code opens and closes brackets as that code
/// does: no prefix of the one closes more than it opens unless a prefix of
/// the other does, and both leave as many brackets open.
pub proof fn lemma_grouping_depths(slow: Seq<Instruction>, fast: Seq<Instruction>, at: Seq<int>)
    requires
        grouping(slow, fast, at, 0),
    ensures
        never_negative(slow, slow.len() as int) == never_negative(fast, fast.len() as int),
        depth(slow, slow.len() as int) == depth(fast, fast.len() as int),
{
    lemma_depth_at(slow, fast, at, fast.len() as int);
    if never_negative(slow, slow.len() as int) {
        assert forall|j: int| 0 <= j <= fast.len() implies #[trigger] depth(fast, j) >= 0 by {
            lemma_depth_at(slow, fast, at, j);
            lemma_grouping_order(slow, fast, at, 0, j, j);
            assert(depth(slow, at[j]) >= 0);
        }
    }
    if never_negative(fast, fast.len() as int) {
        assert forall|x: int| 0 <= x <= slow.len() implies #[trigger] depth(slow, x) >= 0 by {
            if x == slow.len() {
                assert(depth(fast, fast.len() as int) >= 0);
            } else {
                let j = lemma_locate(slow, fast, at, x, 0, fast.len() as int);
                lemma_grouping_order(slow, fast, at, 0, j, j + 1);
                lemma_depth_at(slow, fast, at, j);
                lemma_group_depth(slow, at[j], at[j + 1], fast[j]);
                assert(depth(fast, j) >= 0);
            }
        }
    }
}

/// The pipeline keeps the brackets in balance or out of it: no prefix of
/// the optimized code closes more brackets than it opens unless a prefix of
/// the given code does, and both leave as many brackets open.
pub proof fn lemma_optimized_depths(source: Seq<Instruction>)
    requires
        all_passable(source),
    ensures
        never_negative(optimized(source), optimized(source).len() as int) == never_negative(
            source,
            source.len() as int,
        ),
        depth(optimized(source), optimized(source).len() as int) == depth(
            source,
            source.len() as int,
        ),
{
    if source.len() == 0 {
        lemma_optimized_nothing();
        assert(source =~= Seq::<Instruction>::empty());
        let seed = seq![add_seed()];
        assert(depth(seed, 1) == depth(seed, 0));
        assert forall|j: int| 0 <= j <= seed.len() implies #[trigger] depth(seed, j) >= 0 by {
            assert(j == 0 || j == 1);
        }
        assert forall|j: int| 0 <= j <= source.len() implies #[trigger] depth(source, j) >= 0 by {}
    } else {
        lemma_stage_depths(source, 6);
        lemma_last_stage(source);
    }
}

proof fn lemma_stage_depths(source: Seq<Instruction>, n: nat)
    requires
        source.len() > 0,
        all_passable(source),
        n <= 6,
    ensures
        never_negative(stage(source, n), stage(source, n).len() as int) == never_negative(
            source,
            source.len() as int,
        ),
        depth(stage(source, n), stage(source, n).len() as int) == depth(source, source.len() as int),
    decreases n,
{
    if n > 0 {
        let before = stage(source, (n - 1) as nat);
        lemma_stage_depths(source, (n - 1) as nat);
        lemma_stage_passable(source, (n - 1) as nat);
        let at = lemma_pass_grouping(n as int, before);
        lemma_grouping_depths(before, stage(source, n), at);
    }
}

/// The pipeline on no code at all yields its first pending instruction,
/// an add of nothing.
pub proof fn lemma_optimized_nothing()
    ensures
        optimized(Seq::<Instruction>::empty()) == seq![add_seed()],
{
    let none = Seq::<Instruction>::empty();
    let seed = seq![add_seed()];
    assert(collapsed_adds(none) =~= seed);
    assert(seed.skip(1) =~= none);
    assert(seed[0] == add_seed());
    assert(merged_moves(move_seed(), add_seed(), false) == Some(add_seed()));
    assert(merged_moves(move_seed(), add_seed(), true) == Some(add_seed()));
    assert(combine_seq(
        |a: Instruction, b: Instruction| merged_moves(a, b, false),
        add_seed(),
        seed.skip(1),
    ) =~= seed);
    assert(collapsed_moves(seed, false) =~= seed);
    assert(with_set_cells(seed) == seed);
    assert(with_seek_zeros(seed) == seed);
    assert(with_move_cells(seed) == seed);
    assert(combine_seq(
        |a: Instruction, b: Instruction| merged_moves(a, b, true),
        add_seed(),
        seed.skip(1),
    ) =~= seed);
    assert(collapsed_moves(seed, true) =~= seed);
}

/// One pass: where `after` stands for `before` and the resolved `before`
/// halts, the resolved `after` halts on the same tape.
proof fn lemma_pass_halts(
    before: Seq<Instruction>,
    after: Seq<Instruction>,
    at: Seq<int>,
    m: Machine,
    fuel: nat,
) -> (budget: nat)
    requires
        grouping(before, after, at, 0),
        before.len() < MAX_TAPE,
        balanced(before),
        all_passable(after),
        m.pc == 0,
        run(resolution(before.push(halt())), m, fuel).0 is Halted,
    ensures
        run(resolution(after.push(halt())), m, budget).0 is Halted,
        same_tape(
            run(resolution(after.push(halt())), m, budget).1,
            run(resolution(before.push(halt())), m, fuel).1,
        ),
        balanced(after),
        after.len() <= before.len(),
{
    let slow_src = before.push(halt());
    let fast_src = after.push(halt());
    let slow = resolution(slow_src);
    let fast = resolution(fast_src);
    let at2 = at.push(before.len() as int + 1);
    lemma_balanced_halt(before);
    lemma_balanced_halt(after);
    lemma_grouping_halt(before, after, at);
    lemma_grouping_balanced(slow_src, fast_src, at2);
    lemma_resolution(slow_src);
    lemma_resolution(fast_src);
    lemma_resolved_is_program(fast_src, fast);
    assert forall|i: int|
        0 <= i < fast_src.len() && (#[trigger] fast_src[i]).opcode is FindZero implies fast_src[i].offset
        == 0 by {
        if i < after.len() {
            assert(passable(after[i]));
        }
    }
    lemma_grouping_follows(slow_src, fast_src, at2, slow, fast);
    assert(m.goto(at2[0]) == m);
    lemma_follower_halts(slow, fast, at2, m, fuel)
}

/// The first `n` passes: where the resolved source halts, the resolved
/// code after `n` passes halts on the same tape.
proof fn lemma_stage_halts(source: Seq<Instruction>, n: nat, m: Machine, fuel: nat) -> (budget: nat)
    requires
        source.len() > 0,
        all_passable(source),
        source.len() < MAX_TAPE,
        balanced(source),
        n <= 6,
        all_passable(stage(source, n)),
        m.pc == 0,
        run(resolution(source.push(halt())), m, fuel).0 is Halted,
    ensures
        run(resolution(stage(source, n).push(halt())), m, budget).0 is Halted,
        same_tape(
            run(resolution(stage(source, n).push(halt())), m, budget).1,
            run(resolution(source.push(halt())), m, fuel).1,
        ),
        balanced(stage(source, n)),
        stage(source, n).len() <= source.len(),
    decreases n,
{
    if n == 0 {
        fuel
    } else {
        let before = stage(source, (n - 1) as nat);
        lemma_stage_passable(source, (n - 1) as nat);
        let so_far = lemma_stage_halts(source, (n - 1) as nat, m, fuel);
        let at = lemma_pass_grouping(n as int, before);
        lemma_pass_halts(before, stage(source, n), at, m, so_far)
    }
}

/// Optimization keeps what a halting program does. Let `plain` be the
/// given code with `Halt` behind it and its brackets resolved, and `fast`
/// the optimized code with `Halt` behind it and its brackets resolved. If
/// `plain`, started on some tape, halts, then `fast`, started on the same
/// tape, halts as well, with the same cells, the same cursor, the same
/// input left and the same output.
///
/// This is stated of code whose optimized form holds no `FindZero` with a
/// displacement, which the machine would ignore, and for code that is
/// empty only where the cursor stands on the tape, since the add of
/// nothing that the pipeline then yields addresses the current cell.
pub proof fn lemma_optimized_halts_alike(
    source: Seq<Instruction>,
    plain: Seq<Instruction>,
    fast: Seq<Instruction>,
    m: Machine,
    fuel: nat,
) -> (budget: nat)
    requires
        all_passable(source),
        source.len() < MAX_TAPE,
        balanced(source),
        patched(source.push(halt()), plain, source.len() as int + 1),
        patched(optimized(source).push(halt()), fast, optimized(source).len() as int + 1),
        forall|i: int|
            0 <= i < optimized(source).len() && (#[trigger] optimized(source)[i]).opcode is FindZero
                ==> optimized(source)[i].offset == 0,
        source.len() > 0 || m.addressable(0),
        m.pc == 0,
        run(plain, m, fuel).0 is Halted,
    ensures
        run(fast, m, budget).0 is Halted,
        same_tape(run(fast, m, budget).1, run(plain, m, fuel).1),
{
    if source.len() == 0 {
        assert(source =~= Seq::<Instruction>::empty());
        lemma_optimized_nothing();
        let fast_src = optimized(source).push(halt());
        let plain_src = source.push(halt());
        lemma_unbracketed(fast_src, fast, 0, 2);
        lemma_unbracketed(plain_src, plain, 0, 1);
        assert(fast.subrange(0, 2)[0] == fast_src.subrange(0, 2)[0]);
        assert(fast.subrange(0, 2)[1] == fast_src.subrange(0, 2)[1]);
        assert(plain.subrange(0, 1)[0] == plain_src.subrange(0, 1)[0]);
        assert(fast[0] == add_seed());
        assert(fast[1] == halt());
        assert(plain[0] == halt());
        assert(fuel > 0);
        assert(run(plain, m, fuel) == (Outcome::Halted, m));
        let next = m.goto(1);
        assert(m.store(0, wrap_add(m.cell(0), 0)).cells =~= m.cells);
        assert(m.store(0, wrap_add(m.cell(0), 0)).shift(0) == m);
        assert(step_at(fast, m) == Step::Next(next));
        assert(run(fast, next, 1) == (Outcome::Halted, next));
        assert(run(fast, m, 2) == run(fast, next, 1));
        2
    } else {
        lemma_last_stage(source);
        lemma_stage_passable(source, 5);
        let last = lemma_pass_grouping(6, stage(source, 5));
        assert(optimized(source) == pass(6, stage(source, 5)));
        assert forall|i: int| 0 <= i < optimized(source).len() implies passable(
            #[trigger] optimized(source)[i],
        ) by {
            assert(!(pass(6, stage(source, 5))[i].opcode is Halt));
        }
        lemma_balanced_halt(source);
        lemma_resolution(source.push(halt()));
        lemma_patched_once(source.push(halt()), plain, resolution(source.push(halt())));
        let budget = lemma_stage_halts(source, 6, m, fuel);
        lemma_balanced_halt(optimized(source));
        lemma_resolution(optimized(source).push(halt()));
        lemma_patched_once(
            optimized(source).push(halt()),
            fast,
            resolution(optimized(source).push(halt())),
        );
        budget
    }
}

/// One pass, the other way round: where `after` stands for `before` and
/// the resolved `after` halts or fails, the resolved `before` halts on the
/// same tape, which it can only where `after` halts, or fails.
proof fn lemma_pass_ends(
    before: Seq<Instruction>,
    after: Seq<Instruction>,
    at: Seq<int>,
    m: Machine,
    fuel: nat,
) -> (budget: nat)
    requires
        grouping(before, after, at, 0),
        before.len() < MAX_TAPE,
        balanced(before),
        all_passable(after),
        m.pc == 0,
        run(resolution(after.push(halt())), m, fuel).0 is Halted || run(
            resolution(after.push(halt())),
            m,
            fuel,
        ).0 is OutOfBounds,
    ensures
        run(resolution(before.push(halt())), m, budget).0 is OutOfBounds || (run(
            resolution(after.push(halt())),
            m,
            fuel,
        ).0 is Halted && run(resolution(before.push(halt())), m, budget).0 is Halted && same_tape(
            run(resolution(before.push(halt())), m, budget).1,
            run(resolution(after.push(halt())), m, fuel).1,
        )),
{
    let slow_src = before.push(halt());
    let fast_src = after.push(halt());
    let slow = resolution(slow_src);
    let fast = resolution(fast_src);
    let at2 = at.push(before.len() as int + 1);
    lemma_balanced_halt(before);
    lemma_balanced_halt(after);
    lemma_grouping_halt(before, after, at);
    lemma_grouping_balanced(slow_src, fast_src, at2);
    lemma_resolution(slow_src);
    lemma_resolution(fast_src);
    lemma_resolved_is_program(fast_src, fast);
    assert forall|i: int|
        0 <= i < fast_src.len() && (#[trigger] fast_src[i]).opcode is FindZero implies fast_src[i].offset
        == 0 by {
        if i < after.len() {
            assert(passable(after[i]));
        }
    }
    lemma_grouping_keeps_up(slow_src, fast_src, at2, slow, fast);
    assert(m.goto(at2[0]) == m);
    lemma_leader_ends(slow, fast, at2, m, fuel)
}

/// The first `n` passes, the other way round: where the resolved code
/// after `n` passes halts or fails, the resolved source halts on the same
/// tape, which it can only where the former halts, or fails.
proof fn lemma_stage_ends(source: Seq<Instruction>, n: nat, m: Machine, fuel: nat) -> (budget: nat)
    requires
        source.len() > 0,
        all_passable(source),
        source.len() < MAX_TAPE,
        balanced(source),
        n <= 6,
        all_passable(stage(source, n)),
        m.pc == 0,
        run(resolution(stage(source, n).push(halt())), m, fuel).0 is Halted || run(
            resolution(stage(source, n).push(halt())),
            m,
            fuel,
        ).0 is OutOfBounds,
    ensures
        run(resolution(source.push(halt())), m, budget).0 is OutOfBounds || (run(
            resolution(stage(source, n).push(halt())),
            m,
            fuel,
        ).0 is Halted && run(resolution(source.push(halt())), m, budget).0 is Halted && same_tape(
            run(resolution(source.push(halt())), m, budget).1,
            run(resolution(stage(source, n).push(halt())), m, fuel).1,
        )),
    decreases n,
{
    if n == 0 {
        fuel
    } else {
        let before = stage(source, (n - 1) as nat);
        lemma_stage_passable(source, (n - 1) as nat);
        lemma_stage_depths(source, (n - 1) as nat);
        lemma_stage_size(source, (n - 1) as nat);
        let at = lemma_pass_grouping(n as int, before);
        let so_far = lemma_pass_ends(before, stage(source, n), at, m, fuel);
        lemma_stage_ends(source, (n - 1) as nat, m, so_far)
    }
}

/// No pass makes code that is not empty longer.
proof fn lemma_stage_size(source: Seq<Instruction>, n: nat)
    requires
        source.len() > 0,
        all_passable(source),
        n <= 6,
    ensures
        stage(source, n).len() <= source.len(),
    decreases n,
{
    if n > 0 {
        let before = stage(source, (n - 1) as nat);
        lemma_stage_size(source, (n - 1) as nat);
        lemma_stage_passable(source, (n - 1) as nat);
        let at = lemma_pass_grouping(n as int, before);
        lemma_borders_apart(before, stage(source, n), at, stage(source, n).len() as int);
    }
}

/// Optimization adds no run that ends. With `plain` and `fast` as in
/// `lemma_optimized_halts_alike`: if `fast`, started on some tape, halts,
/// then `plain`, started on the same tape, halts as well, with the same
/// cells, the same cursor, the same input left and the same output, unless
/// it addresses a cell outside the tape; and if `fast` addresses a cell
/// outside the tape, so does `plain`. A program that runs forever
/// therefore still does after optimization.
///
/// This is stated of the same code as `lemma_optimized_halts_alike`.
pub proof fn lemma_plain_ends_alike(
    source: Seq<Instruction>,
    plain: Seq<Instruction>,
    fast: Seq<Instruction>,
    m: Machine,
    fuel: nat,
) -> (budget: nat)
    requires
        all_passable(source),
        source.len() < MAX_TAPE,
        balanced(source),
        patched(source.push(halt()), plain, source.len() as int + 1),
        patched(optimized(source).push(halt()), fast, optimized(source).len() as int + 1),
        forall|i: int|
            0 <= i < optimized(source).len() && (#[trigger] optimized(source)[i]).opcode is FindZero
                ==> optimized(source)[i].offset == 0,
        source.len() > 0 || m.addressable(0),
        m.pc == 0,
        run(fast, m, fuel).0 is Halted || run(fast, m, fuel).0 is OutOfBounds,
    ensures
        run(plain, m, budget).0 is OutOfBounds || (run(fast, m, fuel).0 is Halted && run(
            plain,
            m,
            budget,
        ).0 is Halted && same_tape(run(plain, m, budget).1, run(fast, m, fuel).1)),
{
    if source.len() == 0 {
        assert(source =~= Seq::<Instruction>::empty());
        lemma_optimized_nothing();
        let fast_src = optimized(source).push(halt());
        let plain_src = source.push(halt());
        lemma_unbracketed(fast_src, fast, 0, 2);
        lemma_unbracketed(plain_src, plain, 0, 1);
        assert(fast.subrange(0, 2)[0] == fast_src.subrange(0, 2)[0]);
        assert(fast.subrange(0, 2)[1] == fast_src.subrange(0, 2)[1]);
        assert(plain.subrange(0, 1)[0] == plain_src.subrange(0, 1)[0]);
        assert(fast[0] == add_seed());
        assert(fast[1] == halt());
        assert(plain[0] == halt());
        assert(run(plain, m, 1) == (Outcome::Halted, m));
        let next = m.goto(1);
        assert(m.store(0, wrap_add(m.cell(0), 0)).cells =~= m.cells);
        assert(m.store(0, wrap_add(m.cell(0), 0)).shift(0) == m);
        assert(step_at(fast, m) == Step::Next(next));
        assert(fuel > 0);
        assert(run(fast, m, fuel) == run(fast, next, (fuel - 1) as nat));
        assert(fuel > 1);
        assert(run(fast, next, (fuel - 1) as nat) == (Outcome::Halted, next));
        1
    } else {
        lemma_last_stage(source);
        lemma_stage_passable(source, 5);
        let last = lemma_pass_grouping(6, stage(source, 5));
        assert(optimized(source) == pass(6, stage(source, 5)));
        assert forall|i: int| 0 <= i < optimized(source).len() implies passable(
            #[trigger] optimized(source)[i],
        ) by {
            assert(!(pass(6, stage(source, 5))[i].opcode is Halt));
        }
        lemma_stage_depths(source, 6);
        lemma_balanced_halt(source);
        lemma_resolution(source.push(halt()));
        lemma_patched_once(source.push(halt()), plain, resolution(source.push(halt())));
        lemma_balanced_halt(optimized(source));
        lemma_stage_size(source, 6);
        lemma_resolution(optimized(source).push(halt()));
        lemma_patched_once(
            optimized(source).push(halt()),
            fast,
            resolution(optimized(source).push(halt())),
        );
        lemma_stage_ends(source, 6, m, fuel)
    }
}

} // verus!

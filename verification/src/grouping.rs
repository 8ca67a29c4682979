//! Code cut into groups, each group standing for one instruction of
//! shorter code that does what the group does. Where code is grouped into
//! shorter code in this way, the shorter code, once both are resolved,
//! follows the longer one step by step.

use vstd::prelude::*;
use crate::interpreter::{is_program, step_at, Instruction, Machine, Step};
use crate::optimizer::{depth, depth_change, in_pair_before, paired, patched, resolved};
use crate::semantics::{
    advance,
    fails,
    follows,
    follows_at,
    follows_on,
    keeps_up,
    keeps_up_at,
    keeps_up_on,
    lemma_advance_more,
    lemma_effect_elsewhere,
    lemma_fails_after,
    lemma_fails_now,
    lemma_loop_ends,
    lemma_loop_run,
    lemma_seq_effect_elsewhere,
    lemma_never_halts_after,
    lemma_never_halts_now,
    lemma_straight_run,
    loop_at,
    loop_effect,
    never_halts,
    seq_effect,
    straight,
};

verus! {

/// What an instruction would do if `FindZero` applied its offset as a
/// displacement, as every other opcode with a free offset does.
pub open spec fn fused_effect(ins: Instruction, m: Machine) -> Step {
    if ins.opcode is FindZero {
        match ins.effect(m) {
            Step::Next(next) => Step::Next(next.shift(ins.offset as int)),
            other => other,
        }
    } else {
        ins.effect(m)
    }
}

/// Unless the straight code `group` fails, `by` alone does what it does:
/// where the group runs through, `by` leaves the same state, and where the
/// group can never complete, neither can `by`.
pub open spec fn covers(by: Instruction, group: Seq<Instruction>) -> bool {
    forall|m: Machine|
        #![trigger seq_effect(group, m)]
        (seq_effect(group, m) is Next ==> fused_effect(by, m) == seq_effect(group, m)) && (
        seq_effect(group, m) is Stuck ==> fused_effect(by, m) is Stuck)
}

/// The straight code `code` changes nothing: it runs through and leaves the
/// state that it found, or fails.
pub open spec fn idle(code: Seq<Instruction>) -> bool {
    forall|m: Machine|
        #![trigger seq_effect(code, m)]
        seq_effect(code, m) == Step::Next(m) || seq_effect(code, m) is OutOfBounds
}

/// Unless the loop around `body` fails, `by` alone does what it does:
/// where the loop comes to an end, `by` leaves the same state, and where
/// `by` completes or fails, the loop comes to an end or fails.
pub open spec fn loop_covers(by: Instruction, body: Seq<Instruction>) -> bool {
    &&& forall|m: Machine, rounds: nat| #[trigger]
        loop_effect(body, m, rounds) is Next ==> fused_effect(by, m) == loop_effect(
            body,
            m,
            rounds,
        )
    &&& forall|m: Machine|
        !(#[trigger] fused_effect(by, m) is Stuck) ==> exists|rounds: nat|
            !(#[trigger] loop_effect(body, m, rounds) is Stuck)
}

/// A group that is one loop around straight code.
pub open spec fn is_loop(group: Seq<Instruction>) -> bool {
    &&& group.len() >= 2
    &&& group[0].opcode is JumpIfZero
    &&& group.last().opcode is JumpIfNonZero
    &&& straight(group.subrange(1, group.len() - 1))
}

/// `by` may stand for `group`. A bracket stands for a bracket of its kind
/// behind idle straight code; `Halt` stands for itself; any other
/// instruction stands for straight code or for a loop that it covers.
pub open spec fn group_ok(group: Seq<Instruction>, by: Instruction) -> bool {
    group.len() > 0 && if by.is_bracket() {
        group.last().opcode == by.opcode && straight(group.drop_last()) && idle(group.drop_last())
    } else if by.opcode is Halt {
        group.len() == 1 && group[0].opcode is Halt
    } else {
        (straight(group) && covers(by, group)) || (is_loop(group) && loop_covers(
            by,
            group.subrange(1, group.len() - 1),
        ))
    }
}

/// `fast` stands for `slow` from index `from` on, group by group: group
/// `k` is `slow` from `at[k]` up to `at[k + 1]`.
pub open spec fn grouping(
    slow: Seq<Instruction>,
    fast: Seq<Instruction>,
    at: Seq<int>,
    from: int,
) -> bool {
    &&& at.len() == fast.len() + 1
    &&& 0 <= from == at[0]
    &&& at.last() == slow.len()
    &&& forall|k: int|
        0 <= k < fast.len() ==> at[k] < #[trigger] at[k + 1] && group_ok(
            slow.subrange(at[k], at[k + 1]),
            fast[k],
        )
}

proof fn lemma_borders_rise(
    slow: Seq<Instruction>,
    fast: Seq<Instruction>,
    at: Seq<int>,
    from: int,
    j: int,
    k: int,
)
    requires
        grouping(slow, fast, at, from),
        0 <= j <= k <= fast.len(),
    ensures
        at[j] <= at[k],
        j < k ==> at[j] < at[k],
    decreases k - j,
{
    if j < k {
        lemma_borders_rise(slow, fast, at, from, j, k - 1);
        let before = k - 1;
        assert(at[before] < at[before + 1]);
    }
}

/// The borders of the groups lie in order.
pub proof fn lemma_grouping_order(
    slow: Seq<Instruction>,
    fast: Seq<Instruction>,
    at: Seq<int>,
    from: int,
    j: int,
    k: int,
)
    requires
        grouping(slow, fast, at, from),
        0 <= j <= k <= fast.len(),
    ensures
        from <= at[j] <= at[k] <= slow.len(),
        j < k ==> at[j] < at[k],
{
    lemma_borders_rise(slow, fast, at, from, 0, j);
    lemma_borders_rise(slow, fast, at, from, j, k);
    lemma_borders_rise(slow, fast, at, from, k, fast.len() as int);
}

/// Code without brackets leaves the depth as it is.
pub proof fn lemma_depth_level(code: Seq<Instruction>, lo: int, hi: int)
    requires
        0 <= lo <= hi <= code.len(),
        forall|i: int| lo <= i < hi ==> !(#[trigger] code[i]).is_bracket(),
    ensures
        depth(code, hi) == depth(code, lo),
    decreases hi - lo,
{
    if lo < hi {
        lemma_depth_level(code, lo, hi - 1);
        assert(!code[hi - 1].is_bracket());
    }
}

/// Across a group the depth changes as it does across the instruction
/// that stands for it, and inside the group it does not fall below where
/// it started; before the bracket of a bracket's group it does not change.
pub proof fn lemma_group_depth(slow: Seq<Instruction>, lo: int, hi: int, by: Instruction)
    requires
        0 <= lo < hi <= slow.len(),
        group_ok(slow.subrange(lo, hi), by),
    ensures
        depth(slow, hi) == depth(slow, lo) + depth_change(by),
        forall|x: int| lo <= x < hi ==> #[trigger] depth(slow, x) >= depth(slow, lo),
        by.is_bracket() ==> forall|x: int|
            lo <= x < hi ==> #[trigger] depth(slow, x) == depth(slow, lo),
{
    let group = slow.subrange(lo, hi);
    assert(group.last() == slow[hi - 1]);
    assert(group[0] == slow[lo]);
    if by.is_bracket() {
        assert forall|i: int| lo <= i < hi - 1 implies !(#[trigger] slow[i]).is_bracket() by {
            assert(group.drop_last()[i - lo] == slow[i]);
        }
        assert forall|x: int| lo <= x < hi implies #[trigger] depth(slow, x) == depth(slow, lo) by {
            lemma_depth_level(slow, lo, x);
        }
        assert(depth(slow, hi - 1) == depth(slow, lo));
    } else if by.opcode is Halt {
    } else if straight(group) && covers(by, group) {
        assert forall|i: int| lo <= i < hi implies !(#[trigger] slow[i]).is_bracket() by {
            assert(group[i - lo] == slow[i]);
        }
        assert forall|x: int| lo <= x < hi implies #[trigger] depth(slow, x) >= depth(slow, lo) by {
            lemma_depth_level(slow, lo, x);
        }
        lemma_depth_level(slow, lo, hi);
    } else {
        let body = group.subrange(1, group.len() - 1);
        assert forall|i: int| lo + 1 <= i < hi - 1 implies !(#[trigger] slow[i]).is_bracket() by {
            assert(body[i - lo - 1] == slow[i]);
        }
        assert(depth(slow, lo + 1) == depth(slow, lo) + 1);
        assert forall|x: int| lo <= x < hi implies #[trigger] depth(slow, x) >= depth(slow, lo) by {
            if x > lo {
                lemma_depth_level(slow, lo + 1, x);
            }
        }
        lemma_depth_level(slow, lo + 1, hi - 1);
    }
}

/// At the border of a group the depth is what it is in `fast` at the
/// group's instruction.
pub proof fn lemma_depth_at(slow: Seq<Instruction>, fast: Seq<Instruction>, at: Seq<int>, k: int)
    requires
        grouping(slow, fast, at, 0),
        0 <= k <= fast.len(),
    ensures
        depth(slow, at[k]) == depth(fast, k),
    decreases k,
{
    if k > 0 {
        let j = k - 1;
        lemma_depth_at(slow, fast, at, j);
        lemma_grouping_order(slow, fast, at, 0, j, j + 1);
        assert(at[j] < at[j + 1]);
        lemma_group_depth(slow, at[j], at[j + 1], fast[j]);
    }
}

/// The group that an index of `slow` lies in.
pub proof fn lemma_locate(
    slow: Seq<Instruction>,
    fast: Seq<Instruction>,
    at: Seq<int>,
    x: int,
    lo: int,
    hi: int,
) -> (j: int)
    requires
        grouping(slow, fast, at, 0),
        0 <= lo < hi <= fast.len(),
        at[lo] <= x < at[hi],
    ensures
        lo <= j < hi,
        at[j] <= x < at[j + 1],
    decreases hi - lo,
{
    if x < at[hi - 1] {
        lemma_locate(slow, fast, at, x, lo, hi - 1)
    } else {
        hi - 1
    }
}

/// Brackets that are partners in `fast` stand for brackets that are
/// partners in `slow`.
pub proof fn lemma_partner_groups(
    slow: Seq<Instruction>,
    fast: Seq<Instruction>,
    at: Seq<int>,
    k: int,
    l: int,
)
    requires
        grouping(slow, fast, at, 0),
        paired(fast, k, l),
    ensures
        paired(slow, at[k + 1] - 1, at[l + 1] - 1),
{
    let a = at[k + 1] - 1;
    let b = at[l + 1] - 1;
    let d = depth(fast, k);
    lemma_grouping_order(slow, fast, at, 0, k, k + 1);
    lemma_grouping_order(slow, fast, at, 0, k + 1, l);
    lemma_grouping_order(slow, fast, at, 0, l, l + 1);
    assert(at[k] < at[k + 1]);
    assert(at[l] < at[l + 1]);
    lemma_depth_at(slow, fast, at, k);
    lemma_depth_at(slow, fast, at, l);
    lemma_depth_at(slow, fast, at, l + 1);
    lemma_group_depth(slow, at[k], at[k + 1], fast[k]);
    lemma_group_depth(slow, at[l], at[l + 1], fast[l]);
    assert(slow.subrange(at[k], at[k + 1]).last() == slow[a]);
    assert(slow.subrange(at[l], at[l + 1]).last() == slow[b]);
    assert(depth(slow, a) == d);
    assert(depth(fast, l + 1) == depth(fast, l) - 1);
    assert forall|x: int| a < x <= b implies #[trigger] depth(slow, x) > depth(slow, a) by {
        let j = lemma_locate(slow, fast, at, x, k + 1, l + 1);
        lemma_grouping_order(slow, fast, at, 0, j, j + 1);
        lemma_depth_at(slow, fast, at, j);
        lemma_group_depth(slow, at[j], at[j + 1], fast[j]);
        assert(depth(fast, j) > d);
    }
}

/// Resolution changes nothing but brackets.
pub proof fn lemma_unbracketed(before: Seq<Instruction>, after: Seq<Instruction>, lo: int, hi: int)
    requires
        patched(before, after, before.len() as int),
        0 <= lo <= hi <= before.len(),
        forall|i: int| lo <= i < hi ==> !(#[trigger] before[i]).is_bracket(),
    ensures
        after.subrange(lo, hi) == before.subrange(lo, hi),
{
    assert forall|i: int| lo <= i < hi implies after[i] == before[i] by {
        assert(!before[i].is_bracket());
        if in_pair_before(before, i, before.len() as int) {
            let (a, b) = choose|a: int, b: int| #[trigger]
                paired(before, a, b) && b < before.len() && (i == a || i == b);
            assert(false);
        }
    }
    assert(after.subrange(lo, hi) =~= before.subrange(lo, hi));
}

/// The brackets of a loop around straight code are partners.
pub proof fn lemma_loop_paired(code: Seq<Instruction>, lo: int, hi: int)
    requires
        0 <= lo < hi <= code.len(),
        is_loop(code.subrange(lo, hi)),
    ensures
        paired(code, lo, hi - 1),
{
    let group = code.subrange(lo, hi);
    let body = group.subrange(1, group.len() - 1);
    assert(group[0] == code[lo]);
    assert(group.last() == code[hi - 1]);
    assert forall|i: int| lo + 1 <= i < hi - 1 implies !(#[trigger] code[i]).is_bracket() by {
        assert(body[i - lo - 1] == code[i]);
    }
    assert(depth(code, lo + 1) == depth(code, lo) + 1);
    assert forall|x: int| lo < x <= hi - 1 implies #[trigger] depth(code, x) > depth(code, lo) by {
        lemma_depth_level(code, lo + 1, x);
    }
    lemma_depth_level(code, lo + 1, hi - 1);
}

/// What the lemmas on single groups start from: `fast_src` stands for
/// `slow_src` group by group, `slow` and `fast` are the two with their
/// brackets resolved, `fast` is a program, and no `FindZero` in it has a
/// displacement.
pub open spec fn resolved_grouping(
    slow_src: Seq<Instruction>,
    fast_src: Seq<Instruction>,
    at: Seq<int>,
    slow: Seq<Instruction>,
    fast: Seq<Instruction>,
) -> bool {
    &&& grouping(slow_src, fast_src, at, 0)
    &&& patched(slow_src, slow, slow_src.len() as int)
    &&& resolved(fast_src, fast)
    &&& patched(fast_src, fast, fast_src.len() as int)
    &&& is_program(fast)
    &&& forall|i: int|
        0 <= i < fast_src.len() && (#[trigger] fast_src[i]).opcode is FindZero
            ==> fast_src[i].offset == 0
}

proof fn lemma_follows_halt(
    slow_src: Seq<Instruction>,
    fast_src: Seq<Instruction>,
    at: Seq<int>,
    slow: Seq<Instruction>,
    fast: Seq<Instruction>,
    k: int,
    m: Machine,
)
    requires
        resolved_grouping(slow_src, fast_src, at, slow, fast),
        0 <= k < fast.len(),
        fast_src[k].opcode is Halt,
    ensures
        follows_on(slow, fast, at, k, m),
{
    let lo = at[k];
    let hi = at[k + 1];
    lemma_grouping_order(slow_src, fast_src, at, 0, k, k + 1);
    let group = slow_src.subrange(lo, hi);
    assert(group_ok(group, fast_src[k]));
    assert(group[0] == slow_src[lo]);
    assert(slow[lo].opcode == slow_src[lo].opcode);
    assert(fast[k].opcode == fast_src[k].opcode);
    let start = m.goto(lo);
    assert(advance(slow, start, 0) == Some(start));
}

proof fn lemma_follows_straight(
    slow_src: Seq<Instruction>,
    fast_src: Seq<Instruction>,
    at: Seq<int>,
    slow: Seq<Instruction>,
    fast: Seq<Instruction>,
    k: int,
    m: Machine,
)
    requires
        resolved_grouping(slow_src, fast_src, at, slow, fast),
        0 <= k < fast.len(),
        !fast_src[k].is_bracket(),
        !(fast_src[k].opcode is Halt),
        straight(slow_src.subrange(at[k], at[k + 1])),
        covers(fast_src[k], slow_src.subrange(at[k], at[k + 1])),
    ensures
        follows_on(slow, fast, at, k, m),
{
    let lo = at[k];
    let hi = at[k + 1];
    lemma_grouping_order(slow_src, fast_src, at, 0, k, k + 1);
    let group = slow_src.subrange(lo, hi);
    let by = fast_src[k];
    let start = m.goto(lo);
    assert forall|i: int| lo <= i < hi implies !(#[trigger] slow_src[i]).is_bracket() by {
        assert(group[i - lo] == slow_src[i]);
    }
    lemma_unbracketed(slow_src, slow, lo, hi);
    lemma_unbracketed(fast_src, fast, k, k + 1);
    assert(fast.subrange(k, k + 1)[0] == fast_src.subrange(k, k + 1)[0]);
    assert(fast[k] == by);
    lemma_straight_run(slow, lo, hi, start);
    match seq_effect(group, start) {
        Step::Next(end) => {
            assert(fused_effect(by, start) == Step::Next(end));
            assert(by.effect(start) == Step::Next(end)) by {
                if by.opcode is FindZero {
                    let found = by.effect(start)->Next_0;
                    assert(found.shift(0) == found);
                }
            }
            lemma_effect_elsewhere(by, start, k);
            assert(start.goto(k) == m.goto(k));
            let next = end.goto(k + 1);
            assert(end.goto(k).goto(k + 1) == next);
            assert(step_at(fast, m.goto(k)) == Step::Next(next));
            assert(next.goto(at[next.pc]) == end.goto(hi));
            assert(advance(slow, start, (hi - lo) as nat) == Some(next.goto(at[next.pc])));
        },
        _ => {},
    }
}

proof fn lemma_follows_loop(
    slow_src: Seq<Instruction>,
    fast_src: Seq<Instruction>,
    at: Seq<int>,
    slow: Seq<Instruction>,
    fast: Seq<Instruction>,
    k: int,
    m: Machine,
)
    requires
        resolved_grouping(slow_src, fast_src, at, slow, fast),
        0 <= k < fast.len(),
        !fast_src[k].is_bracket(),
        !(fast_src[k].opcode is Halt),
        is_loop(slow_src.subrange(at[k], at[k + 1])),
        loop_covers(
            fast_src[k],
            slow_src.subrange(at[k], at[k + 1]).subrange(1, at[k + 1] - at[k] - 1),
        ),
    ensures
        follows_on(slow, fast, at, k, m),
{
    let lo = at[k];
    let hi = at[k + 1];
    lemma_grouping_order(slow_src, fast_src, at, 0, k, k + 1);
    let group = slow_src.subrange(lo, hi);
    let body = group.subrange(1, group.len() - 1);
    let by = fast_src[k];
    let start = m.goto(lo);
    lemma_loop_paired(slow_src, lo, hi);
    assert(group[0] == slow_src[lo]);
    assert(group.last() == slow_src[hi - 1]);
    assert(body =~= slow_src.subrange(lo + 1, hi - 1));
    assert forall|i: int| lo + 1 <= i < hi - 1 implies !(#[trigger] slow_src[i]).is_bracket() by {
        assert(body[i - lo - 1] == slow_src[i]);
    }
    lemma_unbracketed(slow_src, slow, lo + 1, hi - 1);
    lemma_unbracketed(fast_src, fast, k, k + 1);
    assert(fast.subrange(k, k + 1)[0] == fast_src.subrange(k, k + 1)[0]);
    assert(fast[k] == by);
    assert(slow[lo].opcode == slow_src[lo].opcode);
    assert(slow[hi - 1].opcode == slow_src[hi - 1].opcode);
    assert(loop_at(slow, lo, hi - 1));
    lemma_loop_run(slow, lo, hi - 1, start);
    if !never_halts(slow, start) {
        let (rounds, n) = choose|rounds: nat, n: nat|
            n > 0 && #[trigger] loop_effect(slow.subrange(lo + 1, hi - 1), start, rounds) is Next
                && #[trigger] advance(slow, start, n) == Some(
                loop_effect(slow.subrange(lo + 1, hi - 1), start, rounds)->Next_0.goto(hi - 1 + 1),
            );
        let end = loop_effect(body, start, rounds)->Next_0;
        assert(fused_effect(by, start) == Step::Next(end));
        assert(by.effect(start) == Step::Next(end)) by {
            if by.opcode is FindZero {
                let found = by.effect(start)->Next_0;
                assert(found.shift(0) == found);
            }
        }
        lemma_effect_elsewhere(by, start, k);
        assert(start.goto(k) == m.goto(k));
        let next = end.goto(k + 1);
        assert(end.goto(k).goto(k + 1) == next);
        assert(step_at(fast, m.goto(k)) == Step::Next(next));
        assert(next.goto(at[next.pc]) == end.goto(hi));
        assert(advance(slow, start, n) == Some(next.goto(at[next.pc])));
    }
}

proof fn lemma_follows_bracket(
    slow_src: Seq<Instruction>,
    fast_src: Seq<Instruction>,
    at: Seq<int>,
    slow: Seq<Instruction>,
    fast: Seq<Instruction>,
    k: int,
    m: Machine,
)
    requires
        resolved_grouping(slow_src, fast_src, at, slow, fast),
        0 <= k < fast.len(),
        fast_src[k].is_bracket(),
    ensures
        follows_on(slow, fast, at, k, m),
{
    let lo = at[k];
    let hi = at[k + 1];
    let e = hi - 1;
    lemma_grouping_order(slow_src, fast_src, at, 0, k, k + 1);
    let group = slow_src.subrange(lo, hi);
    let by = fast_src[k];
    let start = m.goto(lo);
    let before = m.goto(e);
    assert(group_ok(group, by));
    assert(group.last() == slow_src[e]);
    assert(group.drop_last() =~= slow_src.subrange(lo, e));
    assert forall|i: int| lo <= i < e implies !(#[trigger] slow_src[i]).is_bracket() by {
        assert(group.drop_last()[i - lo] == slow_src[i]);
    }
    lemma_unbracketed(slow_src, slow, lo, e);
    assert(slow[e].opcode == slow_src[e].opcode);
    assert(fast[k].opcode == by.opcode);
    lemma_straight_run(slow, lo, e, start);
    if seq_effect(slow_src.subrange(lo, e), start) is Next {
        assert(seq_effect(slow_src.subrange(lo, e), start) == Step::Next(start));
        assert(start.goto(e) == before);
        assert(advance(slow, start, (e - lo) as nat) == Some(before));
        if !m.addressable(0) {
            lemma_never_halts_now(slow, before);
            lemma_never_halts_after(slow, start, (e - lo) as nat);
        } else {
            let jumps = if by.opcode is JumpIfZero {
                m.cell(0) == 0
            } else {
                m.cell(0) != 0
            };
            let l = fast[k].offset as int;
            if by.opcode is JumpIfZero {
                assert(paired(fast_src, k, l));
                lemma_partner_groups(slow_src, fast_src, at, k, l);
                assert(slow[e].offset == at[l + 1] - 1);
            } else {
                assert(paired(fast_src, l, k));
                lemma_partner_groups(slow_src, fast_src, at, l, k);
                assert(slow[e].offset == at[l + 1] - 1);
            }
            assert(fast[l].is_bracket());
            let next = if jumps {
                m.goto(l + 1)
            } else {
                m.goto(k + 1)
            };
            assert(m.goto(k).goto(l).goto(l + 1) == m.goto(l + 1));
            assert(m.goto(k).goto(k + 1) == m.goto(k + 1));
            assert(step_at(fast, m.goto(k)) == Step::Next(next));
            let landed = if jumps {
                m.goto(at[l + 1])
            } else {
                m.goto(hi)
            };
            assert(before.goto(at[l + 1] - 1).goto(at[l + 1] - 1 + 1) == m.goto(at[l + 1]));
            assert(before.goto(e + 1) == m.goto(hi));
            assert(step_at(slow, before) == Step::Next(landed));
            assert(advance(slow, landed, 0) == Some(landed));
            assert(advance(slow, before, 1) == Some(landed));
            lemma_advance_more(slow, start, (e - lo) as nat, 1);
            assert(next.goto(at[next.pc]) == landed);
            assert(advance(slow, start, (e - lo) as nat + 1) == Some(next.goto(at[next.pc])));
        }
    }
}

/// Where `fast_src` stands for `slow_src` group by group, the resolved
/// `fast` follows the resolved `slow`.
pub proof fn lemma_grouping_follows(
    slow_src: Seq<Instruction>,
    fast_src: Seq<Instruction>,
    at: Seq<int>,
    slow: Seq<Instruction>,
    fast: Seq<Instruction>,
)
    requires
        resolved_grouping(slow_src, fast_src, at, slow, fast),
    ensures
        follows(slow, fast, at),
{
    assert forall|k: int| 0 <= k < fast.len() implies follows_at(slow, fast, at, k) by {
        assert forall|m: Machine| #[trigger] follows_on(slow, fast, at, k, m) by {
            lemma_grouping_order(slow_src, fast_src, at, 0, k, k + 1);
            let group = slow_src.subrange(at[k], at[k + 1]);
            assert(group_ok(group, fast_src[k]));
            if fast_src[k].is_bracket() {
                lemma_follows_bracket(slow_src, fast_src, at, slow, fast, k, m);
            } else if fast_src[k].opcode is Halt {
                lemma_follows_halt(slow_src, fast_src, at, slow, fast, k, m);
            } else if straight(group) && covers(fast_src[k], group) {
                lemma_follows_straight(slow_src, fast_src, at, slow, fast, k, m);
            } else {
                lemma_follows_loop(slow_src, fast_src, at, slow, fast, k, m);
            }
        }
    }
}

proof fn lemma_keeps_up_halt(
    slow_src: Seq<Instruction>,
    fast_src: Seq<Instruction>,
    at: Seq<int>,
    slow: Seq<Instruction>,
    fast: Seq<Instruction>,
    k: int,
    m: Machine,
)
    requires
        resolved_grouping(slow_src, fast_src, at, slow, fast),
        0 <= k < fast.len(),
        fast_src[k].opcode is Halt,
    ensures
        keeps_up_on(slow, fast, at, k, m),
{
    let lo = at[k];
    let hi = at[k + 1];
    lemma_grouping_order(slow_src, fast_src, at, 0, k, k + 1);
    let group = slow_src.subrange(lo, hi);
    assert(group_ok(group, fast_src[k]));
    assert(group[0] == slow_src[lo]);
    assert(slow[lo].opcode == slow_src[lo].opcode);
    assert(fast[k].opcode == fast_src[k].opcode);
    let start = m.goto(lo);
    assert(advance(slow, start, 0) == Some(start));
}

proof fn lemma_keeps_up_straight(
    slow_src: Seq<Instruction>,
    fast_src: Seq<Instruction>,
    at: Seq<int>,
    slow: Seq<Instruction>,
    fast: Seq<Instruction>,
    k: int,
    m: Machine,
)
    requires
        resolved_grouping(slow_src, fast_src, at, slow, fast),
        0 <= k < fast.len(),
        !fast_src[k].is_bracket(),
        !(fast_src[k].opcode is Halt),
        straight(slow_src.subrange(at[k], at[k + 1])),
        covers(fast_src[k], slow_src.subrange(at[k], at[k + 1])),
    ensures
        keeps_up_on(slow, fast, at, k, m),
{
    let lo = at[k];
    let hi = at[k + 1];
    lemma_grouping_order(slow_src, fast_src, at, 0, k, k + 1);
    let group = slow_src.subrange(lo, hi);
    let by = fast_src[k];
    let start = m.goto(lo);
    assert forall|i: int| lo <= i < hi implies !(#[trigger] slow_src[i]).is_bracket() by {
        assert(group[i - lo] == slow_src[i]);
    }
    lemma_unbracketed(slow_src, slow, lo, hi);
    lemma_unbracketed(fast_src, fast, k, k + 1);
    assert(fast.subrange(k, k + 1)[0] == fast_src.subrange(k, k + 1)[0]);
    assert(fast[k] == by);
    lemma_straight_run(slow, lo, hi, start);
    lemma_seq_effect_elsewhere(group, start, lo);
    lemma_effect_elsewhere(by, start, k);
    assert(start.goto(k) == m.goto(k));
    match seq_effect(group, start) {
        Step::Next(end) => {
            assert(fused_effect(by, start) == Step::Next(end));
            assert(by.effect(start) == Step::Next(end)) by {
                if by.opcode is FindZero {
                    let found = by.effect(start)->Next_0;
                    assert(found.shift(0) == found);
                }
            }
            let next = end.goto(k + 1);
            assert(end.goto(k).goto(k + 1) == next);
            assert(step_at(fast, m.goto(k)) == Step::Next(next));
            assert(next.goto(at[next.pc]) == end.goto(hi));
            assert(advance(slow, start, (hi - lo) as nat) == Some(next.goto(at[next.pc])));
        },
        Step::Stuck => {
            assert(fused_effect(by, start) is Stuck);
            assert(by.effect(start) is Stuck);
            assert(step_at(fast, m.goto(k)) is Stuck);
        },
        Step::OutOfBounds => {
            assert(fails(slow, start));
        },
        Step::Halted => {},
    }
}

proof fn lemma_keeps_up_loop(
    slow_src: Seq<Instruction>,
    fast_src: Seq<Instruction>,
    at: Seq<int>,
    slow: Seq<Instruction>,
    fast: Seq<Instruction>,
    k: int,
    m: Machine,
)
    requires
        resolved_grouping(slow_src, fast_src, at, slow, fast),
        0 <= k < fast.len(),
        !fast_src[k].is_bracket(),
        !(fast_src[k].opcode is Halt),
        is_loop(slow_src.subrange(at[k], at[k + 1])),
        loop_covers(
            fast_src[k],
            slow_src.subrange(at[k], at[k + 1]).subrange(1, at[k + 1] - at[k] - 1),
        ),
    ensures
        keeps_up_on(slow, fast, at, k, m),
{
    let lo = at[k];
    let hi = at[k + 1];
    lemma_grouping_order(slow_src, fast_src, at, 0, k, k + 1);
    let group = slow_src.subrange(lo, hi);
    let body = group.subrange(1, group.len() - 1);
    let by = fast_src[k];
    let start = m.goto(lo);
    lemma_loop_paired(slow_src, lo, hi);
    assert(group[0] == slow_src[lo]);
    assert(group.last() == slow_src[hi - 1]);
    assert(body =~= slow_src.subrange(lo + 1, hi - 1));
    assert forall|i: int| lo + 1 <= i < hi - 1 implies !(#[trigger] slow_src[i]).is_bracket() by {
        assert(body[i - lo - 1] == slow_src[i]);
    }
    lemma_unbracketed(slow_src, slow, lo + 1, hi - 1);
    lemma_unbracketed(fast_src, fast, k, k + 1);
    assert(fast.subrange(k, k + 1)[0] == fast_src.subrange(k, k + 1)[0]);
    assert(fast[k] == by);
    assert(slow[lo].opcode == slow_src[lo].opcode);
    assert(slow[hi - 1].opcode == slow_src[hi - 1].opcode);
    assert(loop_at(slow, lo, hi - 1));
    lemma_effect_elsewhere(by, start, k);
    assert(start.goto(k) == m.goto(k));
    if !(fused_effect(by, start) is Stuck) {
        let rounds = choose|rounds: nat| !(#[trigger] loop_effect(body, start, rounds) is Stuck);
        lemma_loop_ends(slow, lo, hi - 1, start, rounds);
        match loop_effect(body, start, rounds) {
            Step::Next(end) => {
                assert(fused_effect(by, start) == Step::Next(end));
                assert(by.effect(start) == Step::Next(end)) by {
                    if by.opcode is FindZero {
                        let found = by.effect(start)->Next_0;
                        assert(found.shift(0) == found);
                    }
                }
                let next = end.goto(k + 1);
                assert(end.goto(k).goto(k + 1) == next);
                assert(step_at(fast, m.goto(k)) == Step::Next(next));
                assert(next.goto(at[next.pc]) == end.goto(hi));
                let n = choose|n: nat|
                    n > 0 && #[trigger] advance(slow, start, n) == Some(end.goto(hi - 1 + 1));
                assert(advance(slow, start, n) == Some(next.goto(at[next.pc])));
            },
            _ => {},
        }
    } else {
        assert(by.effect(start) is Stuck);
        assert(step_at(fast, m.goto(k)) is Stuck);
    }
}

proof fn lemma_keeps_up_bracket(
    slow_src: Seq<Instruction>,
    fast_src: Seq<Instruction>,
    at: Seq<int>,
    slow: Seq<Instruction>,
    fast: Seq<Instruction>,
    k: int,
    m: Machine,
)
    requires
        resolved_grouping(slow_src, fast_src, at, slow, fast),
        0 <= k < fast.len(),
        fast_src[k].is_bracket(),
    ensures
        keeps_up_on(slow, fast, at, k, m),
{
    let lo = at[k];
    let hi = at[k + 1];
    let e = hi - 1;
    lemma_grouping_order(slow_src, fast_src, at, 0, k, k + 1);
    let group = slow_src.subrange(lo, hi);
    let by = fast_src[k];
    let start = m.goto(lo);
    let before = m.goto(e);
    assert(group_ok(group, by));
    assert(group.last() == slow_src[e]);
    assert(group.drop_last() =~= slow_src.subrange(lo, e));
    assert forall|i: int| lo <= i < e implies !(#[trigger] slow_src[i]).is_bracket() by {
        assert(group.drop_last()[i - lo] == slow_src[i]);
    }
    lemma_unbracketed(slow_src, slow, lo, e);
    assert(slow[e].opcode == slow_src[e].opcode);
    assert(fast[k].opcode == by.opcode);
    lemma_straight_run(slow, lo, e, start);
    assert(seq_effect(slow_src.subrange(lo, e), start) == Step::Next(start) || seq_effect(
        slow_src.subrange(lo, e),
        start,
    ) is OutOfBounds);
    if seq_effect(slow_src.subrange(lo, e), start) is Next {
        assert(start.goto(e) == before);
        assert(advance(slow, start, (e - lo) as nat) == Some(before));
        if !m.addressable(0) {
            lemma_fails_now(slow, before);
            lemma_fails_after(slow, start, (e - lo) as nat);
        } else {
            let jumps = if by.opcode is JumpIfZero {
                m.cell(0) == 0
            } else {
                m.cell(0) != 0
            };
            let l = fast[k].offset as int;
            if by.opcode is JumpIfZero {
                assert(paired(fast_src, k, l));
                lemma_partner_groups(slow_src, fast_src, at, k, l);
                assert(slow[e].offset == at[l + 1] - 1);
            } else {
                assert(paired(fast_src, l, k));
                lemma_partner_groups(slow_src, fast_src, at, l, k);
                assert(slow[e].offset == at[l + 1] - 1);
            }
            assert(fast[l].is_bracket());
            let next = if jumps {
                m.goto(l + 1)
            } else {
                m.goto(k + 1)
            };
            assert(m.goto(k).goto(l).goto(l + 1) == m.goto(l + 1));
            assert(m.goto(k).goto(k + 1) == m.goto(k + 1));
            assert(step_at(fast, m.goto(k)) == Step::Next(next));
            let landed = if jumps {
                m.goto(at[l + 1])
            } else {
                m.goto(hi)
            };
            assert(before.goto(at[l + 1] - 1).goto(at[l + 1] - 1 + 1) == m.goto(at[l + 1]));
            assert(before.goto(e + 1) == m.goto(hi));
            assert(step_at(slow, before) == Step::Next(landed));
            assert(advance(slow, landed, 0) == Some(landed));
            assert(advance(slow, before, 1) == Some(landed));
            lemma_advance_more(slow, start, (e - lo) as nat, 1);
            assert(next.goto(at[next.pc]) == landed);
            assert(advance(slow, start, (e - lo) as nat + 1) == Some(next.goto(at[next.pc])));
        }
    }
}

/// Where `fast_src` stands for `slow_src` group by group, the resolved
/// `slow` keeps up with the resolved `fast`.
pub proof fn lemma_grouping_keeps_up(
    slow_src: Seq<Instruction>,
    fast_src: Seq<Instruction>,
    at: Seq<int>,
    slow: Seq<Instruction>,
    fast: Seq<Instruction>,
)
    requires
        resolved_grouping(slow_src, fast_src, at, slow, fast),
    ensures
        keeps_up(slow, fast, at),
{
    assert forall|k: int| 0 <= k < fast.len() implies keeps_up_at(slow, fast, at, k) by {
        assert forall|m: Machine| #[trigger] keeps_up_on(slow, fast, at, k, m) by {
            lemma_grouping_order(slow_src, fast_src, at, 0, k, k + 1);
            let group = slow_src.subrange(at[k], at[k + 1]);
            assert(group_ok(group, fast_src[k]));
            if fast_src[k].is_bracket() {
                lemma_keeps_up_bracket(slow_src, fast_src, at, slow, fast, k, m);
            } else if fast_src[k].opcode is Halt {
                lemma_keeps_up_halt(slow_src, fast_src, at, slow, fast, k, m);
            } else if straight(group) && covers(fast_src[k], group) {
                lemma_keeps_up_straight(slow_src, fast_src, at, slow, fast, k, m);
            } else {
                lemma_keeps_up_loop(slow_src, fast_src, at, slow, fast, k, m);
            }
        }
    }
}

} // verus!

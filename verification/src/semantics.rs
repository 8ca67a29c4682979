//! Runs of the machine taken apart: a run as a number of completed steps,
//! straight-line code as the composition of its instructions' effects, and a
//! simple loop as the repetition of its body.

use vstd::prelude::*;
use crate::interpreter::{
    run,
    step_at,
    Instruction,
    Machine,
    Step,
};

verus! {

/// The state after `n` completed steps, if the run gets that far.
pub open spec fn advance(code: Seq<Instruction>, m: Machine, n: nat) -> Option<Machine>
    decreases n,
{
    if n == 0 {
        Some(m)
    } else {
        match step_at(code, m) {
            Step::Next(next) => advance(code, next, (n - 1) as nat),
            _ => None,
        }
    }
}

/// No budget lets the run from `m` reach `Halt`.
pub open spec fn never_halts(code: Seq<Instruction>, m: Machine) -> bool {
    forall|fuel: nat| !((#[trigger] run(code, m, fuel)).0 is Halted)
}

/// Two machines that differ at most in their program counters.
pub open spec fn same_tape(a: Machine, b: Machine) -> bool {
    a.goto(0) == b.goto(0)
}

/// A run that has halted or failed within a budget ends in the same way
/// and in the same state within any larger budget.
pub proof fn lemma_run_longer(code: Seq<Instruction>, m: Machine, fuel: nat, more: nat)
    requires
        run(code, m, fuel).0 is Halted || run(code, m, fuel).0 is OutOfBounds,
    ensures
        run(code, m, fuel + more) == run(code, m, fuel),
    decreases fuel,
{
    if fuel > 0 {
        match step_at(code, m) {
            Step::Next(next) => {
                lemma_run_longer(code, next, (fuel - 1) as nat, more);
                assert(run(code, m, fuel + more) == run(code, next, (fuel + more - 1) as nat));
            },
            _ => {},
        }
    }
}

/// A run that completes `n` steps goes on from the state it has reached.
pub proof fn lemma_run_after(code: Seq<Instruction>, m: Machine, n: nat, fuel: nat)
    requires
        advance(code, m, n) is Some,
    ensures
        run(code, m, n + fuel) == run(code, advance(code, m, n)->0, fuel),
    decreases n,
{
    if n > 0 {
        let next = step_at(code, m)->Next_0;
        lemma_run_after(code, next, (n - 1) as nat, fuel);
    }
}

/// A run that completes `n` steps has not halted within `n` fetches.
pub proof fn lemma_run_short(code: Seq<Instruction>, m: Machine, n: nat, fuel: nat)
    requires
        advance(code, m, n) is Some,
        fuel <= n,
    ensures
        run(code, m, fuel).0 is Unfinished,
    decreases n,
{
    if fuel > 0 {
        let next = step_at(code, m)->Next_0;
        lemma_run_short(code, next, (n - 1) as nat, (fuel - 1) as nat);
    }
}

/// Completed steps add up.
pub proof fn lemma_advance_more(code: Seq<Instruction>, m: Machine, n: nat, k: nat)
    requires
        advance(code, m, n) is Some,
    ensures
        advance(code, m, n + k) == advance(code, advance(code, m, n)->0, k),
    decreases n,
{
    if n > 0 {
        let next = step_at(code, m)->Next_0;
        lemma_advance_more(code, next, (n - 1) as nat, k);
    }
}

/// A run that reaches, in completed steps, a state from which no run
/// halts, does not halt.
pub proof fn lemma_never_halts_after(code: Seq<Instruction>, m: Machine, n: nat)
    requires
        advance(code, m, n) is Some,
        never_halts(code, advance(code, m, n)->0),
    ensures
        never_halts(code, m),
{
    assert forall|fuel: nat| !((#[trigger] run(code, m, fuel)).0 is Halted) by {
        if fuel <= n {
            lemma_run_short(code, m, n, fuel);
        } else {
            lemma_run_after(code, m, n, (fuel - n) as nat);
            assert(n + (fuel - n) as nat == fuel);
        }
    }
}

/// A run whose next step fails or can never complete does not halt.
pub proof fn lemma_never_halts_now(code: Seq<Instruction>, m: Machine)
    requires
        step_at(code, m) is OutOfBounds || step_at(code, m) is Stuck,
    ensures
        never_halts(code, m),
{
    assert forall|fuel: nat| !((#[trigger] run(code, m, fuel)).0 is Halted) by {}
}

/// Some budget lets the run from `m` address a cell outside the tape.
pub open spec fn fails(code: Seq<Instruction>, m: Machine) -> bool {
    exists|fuel: nat| (#[trigger] run(code, m, fuel)).0 is OutOfBounds
}

/// A run whose next step fails, fails.
pub proof fn lemma_fails_now(code: Seq<Instruction>, m: Machine)
    requires
        step_at(code, m) is OutOfBounds,
    ensures
        fails(code, m),
{
    assert(run(code, m, 1).0 is OutOfBounds);
}

/// A run that reaches, in completed steps, a state from which the run
/// fails, fails.
pub proof fn lemma_fails_after(code: Seq<Instruction>, m: Machine, n: nat)
    requires
        advance(code, m, n) is Some,
        fails(code, advance(code, m, n)->0),
    ensures
        fails(code, m),
{
    let reached = advance(code, m, n)->0;
    let fuel = choose|fuel: nat| (#[trigger] run(code, reached, fuel)).0 is OutOfBounds;
    lemma_run_after(code, m, n, fuel);
}

/// `fast` follows `slow` at instruction `k` on the tape of `m`: when `fast`
/// executes its instruction `k`, `slow`, started on the same tape at
/// `at[k]`, either never halts or gets in one or more steps to where `fast`
/// gets in one, with `at` mapping the program counter.
pub open spec fn follows_on(
    slow: Seq<Instruction>,
    fast: Seq<Instruction>,
    at: Seq<int>,
    k: int,
    m: Machine,
) -> bool {
    never_halts(slow, m.goto(at[k])) || match step_at(fast, m.goto(k)) {
        Step::Next(next) => 0 <= next.pc < fast.len() && exists|n: nat|
            n > 0 && #[trigger] advance(slow, m.goto(at[k]), n) == Some(next.goto(at[next.pc])),
        Step::Halted => exists|n: nat|
            {
                let end = #[trigger] advance(slow, m.goto(at[k]), n);
                end is Some && same_tape(end->0, m) && step_at(slow, end->0) is Halted
            },
        _ => false,
    }
}

/// `fast` follows `slow` at instruction `k` on every tape.
pub open spec fn follows_at(
    slow: Seq<Instruction>,
    fast: Seq<Instruction>,
    at: Seq<int>,
    k: int,
) -> bool {
    forall|m: Machine| #[trigger] follows_on(slow, fast, at, k, m)
}

/// `fast` follows `slow` at every instruction.
pub open spec fn follows(slow: Seq<Instruction>, fast: Seq<Instruction>, at: Seq<int>) -> bool {
    &&& at.len() == fast.len() + 1
    &&& forall|k: int| 0 <= k < fast.len() ==> follows_at(slow, fast, at, k)
}

/// If `fast` follows `slow` and `slow` halts, then `fast` halts on the same
/// tape.
pub proof fn lemma_follower_halts(
    slow: Seq<Instruction>,
    fast: Seq<Instruction>,
    at: Seq<int>,
    m: Machine,
    fuel: nat,
) -> (budget: nat)
    requires
        follows(slow, fast, at),
        0 <= m.pc < fast.len(),
        run(slow, m.goto(at[m.pc]), fuel).0 is Halted,
    ensures
        run(fast, m, budget).0 is Halted,
        same_tape(run(fast, m, budget).1, run(slow, m.goto(at[m.pc]), fuel).1),
    decreases fuel,
{
    let k = m.pc;
    let start = m.goto(at[k]);
    assert(m.goto(k) == m);
    assert(follows_at(slow, fast, at, k));
    assert(follows_on(slow, fast, at, k, m));
    assert(!never_halts(slow, start));
    match step_at(fast, m) {
        Step::Next(next) => {
            let n = choose|n: nat|
                n > 0 && #[trigger] advance(slow, start, n) == Some(next.goto(at[next.pc]));
            if fuel <= n {
                lemma_run_short(slow, start, n, fuel);
            }
            lemma_run_after(slow, start, n, (fuel - n) as nat);
            assert(n + (fuel - n) as nat == fuel);
            let rest = lemma_follower_halts(slow, fast, at, next, (fuel - n) as nat);
            rest + 1
        },
        Step::Halted => {
            let n = choose|n: nat|
                {
                    let end = #[trigger] advance(slow, start, n);
                    end is Some && same_tape(end->0, m) && step_at(slow, end->0) is Halted
                };
            if fuel <= n {
                lemma_run_short(slow, start, n, fuel);
            }
            lemma_run_after(slow, start, n, (fuel - n) as nat);
            assert(n + (fuel - n) as nat == fuel);
            1
        },
        _ => { 0 },
    }
}

/// `slow` keeps up with `fast` at instruction `k` on the tape of `m`: when
/// `fast` executes its instruction `k`, `slow`, started on the same tape at
/// `at[k]`, either fails or gets in one or more steps to where `fast` gets
/// in one; where `fast` fails, `slow` fails.
pub open spec fn keeps_up_on(
    slow: Seq<Instruction>,
    fast: Seq<Instruction>,
    at: Seq<int>,
    k: int,
    m: Machine,
) -> bool {
    fails(slow, m.goto(at[k])) || match step_at(fast, m.goto(k)) {
        Step::Next(next) => 0 <= next.pc < fast.len() && exists|n: nat|
            n > 0 && #[trigger] advance(slow, m.goto(at[k]), n) == Some(next.goto(at[next.pc])),
        Step::Halted => exists|n: nat|
            {
                let end = #[trigger] advance(slow, m.goto(at[k]), n);
                end is Some && same_tape(end->0, m) && step_at(slow, end->0) is Halted
            },
        Step::OutOfBounds => false,
        Step::Stuck => true,
    }
}

/// `slow` keeps up with `fast` at instruction `k` on every tape.
pub open spec fn keeps_up_at(
    slow: Seq<Instruction>,
    fast: Seq<Instruction>,
    at: Seq<int>,
    k: int,
) -> bool {
    forall|m: Machine| #[trigger] keeps_up_on(slow, fast, at, k, m)
}

/// `slow` keeps up with `fast` at every instruction.
pub open spec fn keeps_up(slow: Seq<Instruction>, fast: Seq<Instruction>, at: Seq<int>) -> bool {
    &&& at.len() == fast.len() + 1
    &&& forall|k: int| 0 <= k < fast.len() ==> keeps_up_at(slow, fast, at, k)
}

/// If `slow` keeps up with `fast` and `fast` halts or fails, then `slow`
/// halts on the same tape, which it can only where `fast` halts, or fails.
pub proof fn lemma_leader_ends(
    slow: Seq<Instruction>,
    fast: Seq<Instruction>,
    at: Seq<int>,
    m: Machine,
    fuel: nat,
) -> (budget: nat)
    requires
        keeps_up(slow, fast, at),
        0 <= m.pc < fast.len(),
        run(fast, m, fuel).0 is Halted || run(fast, m, fuel).0 is OutOfBounds,
    ensures
        run(slow, m.goto(at[m.pc]), budget).0 is OutOfBounds || (run(fast, m, fuel).0 is Halted
            && run(slow, m.goto(at[m.pc]), budget).0 is Halted && same_tape(
            run(slow, m.goto(at[m.pc]), budget).1,
            run(fast, m, fuel).1,
        )),
    decreases fuel,
{
    let k = m.pc;
    let start = m.goto(at[k]);
    assert(m.goto(k) == m);
    assert(keeps_up_at(slow, fast, at, k));
    assert(keeps_up_on(slow, fast, at, k, m));
    if fails(slow, start) {
        choose|budget: nat| (#[trigger] run(slow, start, budget)).0 is OutOfBounds
    } else {
        match step_at(fast, m) {
            Step::Next(next) => {
                let n = choose|n: nat|
                    n > 0 && #[trigger] advance(slow, start, n) == Some(next.goto(at[next.pc]));
                let rest = lemma_leader_ends(slow, fast, at, next, (fuel - 1) as nat);
                lemma_run_after(slow, start, n, rest);
                n + rest
            },
            Step::Halted => {
                let n = choose|n: nat|
                    {
                        let end = #[trigger] advance(slow, start, n);
                        end is Some && same_tape(end->0, m) && step_at(slow, end->0) is Halted
                    };
                lemma_run_after(slow, start, n, 1);
                n + 1
            },
            _ => { 0 },
        }
    }
}

/// Code without brackets and without `Halt`.
pub open spec fn straight(code: Seq<Instruction>) -> bool {
    forall|i: int|
        0 <= i < code.len() ==> !(#[trigger] code[i]).is_bracket() && !(code[i].opcode is Halt)
}

/// The effects of straight code, one after the other.
pub open spec fn seq_effect(code: Seq<Instruction>, m: Machine) -> Step
    decreases code.len(),
{
    if code.len() == 0 {
        Step::Next(m)
    } else {
        match code[0].effect(m) {
            Step::Next(next) => seq_effect(code.skip(1), next),
            other => other,
        }
    }
}

/// A loop around the straight code `body`, run for at most `fuel` rounds:
/// the body is repeated as long as the current cell is not 0.
pub open spec fn loop_effect(body: Seq<Instruction>, m: Machine, fuel: nat) -> Step
    decreases fuel,
{
    if !m.addressable(0) {
        Step::OutOfBounds
    } else if m.cell(0) == 0 {
        Step::Next(m)
    } else if fuel == 0 {
        Step::Stuck
    } else {
        match seq_effect(body, m) {
            Step::Next(next) => loop_effect(body, next, (fuel - 1) as nat),
            other => other,
        }
    }
}

/// The program counter has no part in what an instruction other than a
/// bracket does, and such an instruction leaves it alone.
pub proof fn lemma_effect_elsewhere(ins: Instruction, m: Machine, pc: int)
    requires
        !ins.is_bracket(),
    ensures
        match ins.effect(m) {
            Step::Next(next) => ins.effect(m.goto(pc)) == Step::Next(next.goto(pc)) && next.pc
                == m.pc,
            other => ins.effect(m.goto(pc)) == other,
        },
{
}

/// The program counter has no part in what straight code does, and
/// straight code leaves it alone.
pub proof fn lemma_seq_effect_elsewhere(code: Seq<Instruction>, m: Machine, pc: int)
    requires
        straight(code),
    ensures
        match seq_effect(code, m) {
            Step::Next(next) => seq_effect(code, m.goto(pc)) == Step::Next(next.goto(pc))
                && next.pc == m.pc,
            Step::Halted => false,
            other => seq_effect(code, m.goto(pc)) == other,
        },
    decreases code.len(),
{
    if code.len() > 0 {
        lemma_effect_elsewhere(code[0], m, pc);
        match code[0].effect(m) {
            Step::Next(next) => {
                assert(straight(code.skip(1))) by {
                    assert forall|i: int| 0 <= i < code.skip(1).len() implies !(
                    #[trigger] code.skip(1)[i]).is_bracket() && !(code.skip(1)[i].opcode is Halt) by {
                        assert(code.skip(1)[i] == code[i + 1]);
                    }
                }
                lemma_seq_effect_elsewhere(code.skip(1), next, pc);
            },
            _ => {},
        }
    }
}

/// Straight code of one more instruction: the effect of the code before
/// it, then the effect of the last instruction.
pub proof fn lemma_seq_effect_push(code: Seq<Instruction>, last: Instruction, m: Machine)
    ensures
        seq_effect(code.push(last), m) == match seq_effect(code, m) {
            Step::Next(next) => last.effect(next),
            other => other,
        },
    decreases code.len(),
{
    if code.len() == 0 {
        assert(code.push(last).skip(1) =~= Seq::<Instruction>::empty());
        match last.effect(m) {
            Step::Next(next) => {
                assert(seq_effect(code.push(last).skip(1), next) == Step::Next(next));
            },
            _ => {},
        }
    } else {
        assert(code.push(last).skip(1) =~= code.skip(1).push(last));
        assert(code.push(last)[0] == code[0]);
        match code[0].effect(m) {
            Step::Next(next) => {
                lemma_seq_effect_push(code.skip(1), last, next);
            },
            _ => {},
        }
    }
}

/// The machine runs straight code instruction by instruction: where the
/// code's effects compose to a state, the machine reaches that state behind
/// the code; where they do not, the machine never halts.
pub proof fn lemma_straight_run(code: Seq<Instruction>, from: int, to: int, m: Machine)
    requires
        0 <= from <= to <= code.len(),
        straight(code.subrange(from, to)),
        m.pc == from,
    ensures
        match seq_effect(code.subrange(from, to), m) {
            Step::Next(next) => advance(code, m, (to - from) as nat) == Some(next.goto(to)),
            _ => never_halts(code, m),
        },
        seq_effect(code.subrange(from, to), m) is OutOfBounds ==> fails(code, m),
    decreases to - from,
{
    let part = code.subrange(from, to);
    if from < to {
        assert(part[0] == code[from]);
        assert(part.skip(1) =~= code.subrange(from + 1, to));
        assert(straight(part.skip(1))) by {
            assert forall|i: int| 0 <= i < part.skip(1).len() implies !(#[trigger] part.skip(
                1,
            )[i]).is_bracket() && !(part.skip(1)[i].opcode is Halt) by {
                assert(part.skip(1)[i] == part[i + 1]);
            }
        }
        match code[from].effect(m) {
            Step::Next(next) => {
                lemma_effect_elsewhere(code[from], m, from + 1);
                let moved = next.goto(from + 1);
                assert(step_at(code, m) == Step::Next(moved));
                lemma_seq_effect_elsewhere(part.skip(1), next, from + 1);
                lemma_straight_run(code, from + 1, to, moved);
                match seq_effect(part.skip(1), next) {
                    Step::Next(end) => {
                        assert(end.goto(from + 1).goto(to) == end.goto(to));
                    },
                    other => {
                        assert(advance(code, moved, 0) == Some(moved));
                        assert(advance(code, m, 1) == Some(moved));
                        lemma_never_halts_after(code, m, 1);
                        if other is OutOfBounds {
                            lemma_fails_after(code, m, 1);
                        }
                    },
                }
            },
            Step::Halted => {},
            other => {
                lemma_never_halts_now(code, m);
                if other is OutOfBounds {
                    lemma_fails_now(code, m);
                }
            },
        }
    } else {
        assert(m.goto(to) == m);
    }
}

/// The program counter has no part in what a loop around straight code
/// does, and such a loop leaves it alone.
pub proof fn lemma_loop_effect_elsewhere(body: Seq<Instruction>, m: Machine, fuel: nat, pc: int)
    requires
        straight(body),
    ensures
        match loop_effect(body, m, fuel) {
            Step::Next(next) => loop_effect(body, m.goto(pc), fuel) == Step::Next(next.goto(pc))
                && next.pc == m.pc,
            Step::Halted => false,
            other => loop_effect(body, m.goto(pc), fuel) == other,
        },
    decreases fuel,
{
    if m.addressable(0) && m.cell(0) != 0 && fuel > 0 {
        lemma_seq_effect_elsewhere(body, m, pc);
        match seq_effect(body, m) {
            Step::Next(next) => {
                lemma_loop_effect_elsewhere(body, next, (fuel - 1) as nat, pc);
            },
            _ => {},
        }
    }
}

/// A pair of resolved brackets at `open` and `close` with straight code
/// between them.
pub open spec fn loop_at(code: Seq<Instruction>, open: int, close: int) -> bool {
    &&& 0 <= open < close < code.len()
    &&& code[open].opcode is JumpIfZero
    &&& code[open].offset == close
    &&& code[close].opcode is JumpIfNonZero
    &&& code[close].offset == open
    &&& straight(code.subrange(open + 1, close))
}

/// From the start of the body of a loop, on a cell that is not 0: where
/// the loop's rounds come to an end, the machine gets behind the loop in
/// the state they end in.
proof fn lemma_loop_rounds(code: Seq<Instruction>, open: int, close: int, m: Machine, fuel: nat) -> (n:
    nat)
    requires
        loop_at(code, open, close),
        m.pc == open + 1,
        m.addressable(0),
        m.cell(0) != 0,
        loop_effect(code.subrange(open + 1, close), m, fuel) is Next,
    ensures
        advance(code, m, n) == Some(
            loop_effect(code.subrange(open + 1, close), m, fuel)->Next_0.goto(close + 1),
        ),
    decreases fuel,
{
    let body = code.subrange(open + 1, close);
    let through = (close - open - 1) as nat;
    lemma_straight_run(code, open + 1, close, m);
    lemma_seq_effect_elsewhere(body, m, close);
    assert(fuel > 0);
    assert(seq_effect(body, m) is Next);
    let after = seq_effect(body, m)->Next_0;
    let at_close = after.goto(close);
    assert(loop_effect(body, m, fuel) == loop_effect(body, after, (fuel - 1) as nat));
    assert(advance(code, m, through) == Some(at_close));
    assert(after.addressable(0));
    if after.cell(0) == 0 {
        assert(step_at(code, at_close) == Step::Next(after.goto(close + 1)));
        assert(advance(code, after.goto(close + 1), 0) == Some(after.goto(close + 1)));
        assert(advance(code, at_close, 1) == Some(after.goto(close + 1)));
        lemma_advance_more(code, m, through, 1);
        through + 1
    } else {
        assert(after.goto(open + 1) == after);
        assert(step_at(code, at_close) == Step::Next(after));
        assert(advance(code, after, 0) == Some(after));
        assert(advance(code, at_close, 1) == Some(after));
        lemma_advance_more(code, m, through, 1);
        let more = lemma_loop_rounds(code, open, close, after, (fuel - 1) as nat);
        lemma_advance_more(code, m, through + 1, more);
        through + 1 + more
    }
}

/// From the start of the body of a loop, on a cell that is not 0: where
/// the loop's rounds never come to an end, the machine does not halt.
proof fn lemma_loop_endless(code: Seq<Instruction>, open: int, close: int, m: Machine, fuel: nat)
    requires
        loop_at(code, open, close),
        m.pc == open + 1,
        m.addressable(0),
        m.cell(0) != 0,
        forall|rounds: nat| !(#[trigger] loop_effect(
            code.subrange(open + 1, close),
            m,
            rounds,
        ) is Next),
    ensures
        !(run(code, m, fuel).0 is Halted),
    decreases fuel,
{
    let body = code.subrange(open + 1, close);
    let through = (close - open - 1) as nat;
    lemma_straight_run(code, open + 1, close, m);
    lemma_seq_effect_elsewhere(body, m, close);
    match seq_effect(body, m) {
        Step::Next(after) => {
            let at_close = after.goto(close);
            if fuel <= through {
                lemma_run_short(code, m, through, fuel);
            } else {
                lemma_run_after(code, m, through, (fuel - through) as nat);
                assert(through + (fuel - through) as nat == fuel);
                assert(loop_effect(body, m, 1) == loop_effect(body, after, 0));
                if after.addressable(0) {
                    assert(after.cell(0) != 0);
                    assert(after.goto(open + 1) == after);
                    assert(step_at(code, at_close) == Step::Next(after));
                    assert forall|rounds: nat| !(#[trigger] loop_effect(
                        body,
                        after,
                        rounds,
                    ) is Next) by {
                        assert(loop_effect(body, m, rounds + 1) == loop_effect(
                            body,
                            after,
                            rounds,
                        ));
                    }
                    lemma_loop_endless(code, open, close, after, (fuel - through - 1) as nat);
                }
            }
        },
        _ => {},
    }
}

/// The machine at a loop around straight code either never halts, or gets
/// behind the loop in the state in which the loop's rounds end.
pub proof fn lemma_loop_run(code: Seq<Instruction>, open: int, close: int, m: Machine)
    requires
        loop_at(code, open, close),
        m.pc == open,
    ensures
        never_halts(code, m) || exists|rounds: nat, n: nat|
            n > 0 && #[trigger] loop_effect(code.subrange(open + 1, close), m, rounds) is Next
                && #[trigger] advance(code, m, n) == Some(
                loop_effect(code.subrange(open + 1, close), m, rounds)->Next_0.goto(close + 1),
            ),
{
    let body = code.subrange(open + 1, close);
    if !m.addressable(0) {
        lemma_never_halts_now(code, m);
    } else if m.cell(0) == 0 {
        let behind = m.goto(close + 1);
        assert(step_at(code, m) == Step::Next(behind));
        assert(advance(code, behind, 0) == Some(behind));
        assert(advance(code, m, 1) == Some(behind));
        assert(loop_effect(body, m, 0) == Step::Next(m));
    } else {
        let inside = m.goto(open + 1);
        assert(step_at(code, m) == Step::Next(inside));
        assert(advance(code, inside, 0) == Some(inside));
        assert(advance(code, m, 1) == Some(inside));
        if exists|rounds: nat| #[trigger] loop_effect(body, inside, rounds) is Next {
            let rounds = choose|rounds: nat| #[trigger] loop_effect(body, inside, rounds) is Next;
            let n = lemma_loop_rounds(code, open, close, inside, rounds);
            lemma_advance_more(code, m, 1, n);
            lemma_loop_effect_elsewhere(body, m, rounds, open + 1);
            let end = loop_effect(body, m, rounds)->Next_0;
            assert(end.goto(open + 1).goto(close + 1) == end.goto(close + 1));
            assert(advance(code, m, 1 + n) == Some(end.goto(close + 1)));
        } else {
            assert forall|fuel: nat| !((#[trigger] run(code, inside, fuel)).0 is Halted) by {
                lemma_loop_endless(code, open, close, inside, fuel);
            }
            lemma_never_halts_after(code, m, 1);
        }
    }
}

/// From the start of the body of a loop, on a cell that is not 0: where
/// the loop's rounds fail, the machine fails.
proof fn lemma_loop_fails(code: Seq<Instruction>, open: int, close: int, m: Machine, fuel: nat)
    requires
        loop_at(code, open, close),
        m.pc == open + 1,
        m.addressable(0),
        m.cell(0) != 0,
        loop_effect(code.subrange(open + 1, close), m, fuel) is OutOfBounds,
    ensures
        fails(code, m),
    decreases fuel,
{
    let body = code.subrange(open + 1, close);
    let through = (close - open - 1) as nat;
    lemma_straight_run(code, open + 1, close, m);
    lemma_seq_effect_elsewhere(body, m, close);
    assert(fuel > 0);
    match seq_effect(body, m) {
        Step::Next(after) => {
            let at_close = after.goto(close);
            assert(loop_effect(body, m, fuel) == loop_effect(body, after, (fuel - 1) as nat));
            assert(advance(code, m, through) == Some(at_close));
            if !after.addressable(0) {
                lemma_fails_now(code, at_close);
                lemma_fails_after(code, m, through);
            } else {
                assert(after.cell(0) != 0);
                assert(after.goto(open + 1) == after);
                assert(step_at(code, at_close) == Step::Next(after));
                assert(advance(code, after, 0) == Some(after));
                assert(advance(code, at_close, 1) == Some(after));
                lemma_advance_more(code, m, through, 1);
                lemma_loop_fails(code, open, close, after, (fuel - 1) as nat);
                lemma_fails_after(code, m, through + 1);
            }
        },
        _ => {},
    }
}

/// The machine at a loop around straight code whose rounds come to an
/// end within `rounds`: it gets behind the loop in the state in which they
/// end, or fails if they fail.
pub proof fn lemma_loop_ends(
    code: Seq<Instruction>,
    open: int,
    close: int,
    m: Machine,
    rounds: nat,
)
    requires
        loop_at(code, open, close),
        m.pc == open,
        !(loop_effect(code.subrange(open + 1, close), m, rounds) is Stuck),
    ensures
        match loop_effect(code.subrange(open + 1, close), m, rounds) {
            Step::Next(end) => exists|n: nat|
                n > 0 && #[trigger] advance(code, m, n) == Some(end.goto(close + 1)),
            _ => fails(code, m),
        },
{
    let body = code.subrange(open + 1, close);
    lemma_loop_effect_elsewhere(body, m, rounds, open + 1);
    if !m.addressable(0) {
        lemma_fails_now(code, m);
    } else if m.cell(0) == 0 {
        let behind = m.goto(close + 1);
        assert(step_at(code, m) == Step::Next(behind));
        assert(advance(code, behind, 0) == Some(behind));
        assert(advance(code, m, 1) == Some(behind));
    } else {
        let inside = m.goto(open + 1);
        assert(step_at(code, m) == Step::Next(inside));
        assert(advance(code, inside, 0) == Some(inside));
        assert(advance(code, m, 1) == Some(inside));
        match loop_effect(body, m, rounds) {
            Step::Next(end) => {
                let n = lemma_loop_rounds(code, open, close, inside, rounds);
                lemma_advance_more(code, m, 1, n);
                assert(end.goto(open + 1).goto(close + 1) == end.goto(close + 1));
                assert(advance(code, m, 1 + n) == Some(end.goto(close + 1)));
            },
            _ => {
                lemma_loop_fails(code, open, close, inside, rounds);
                lemma_fails_after(code, m, 1);
            },
        }
    }
}

} // verus!

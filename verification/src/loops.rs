//! Loops: the machine leaves a loop only through a test that finds the cell
//! zero. Nothing else ends a program early.

use vstd::prelude::*;
use crate::compiler::{compiles_to, instruction_for, OpCode};
use crate::machine::{halted, lemma_steps_add, step, steps, MachineState};
use crate::nesting::{
    lemma_matching_open_unique,
    lemma_pairs_nest,
    lemma_pairs_nest_backwards,
    matched,
};
use crate::optimizer::{
    condensed_at,
    condenses_to,
    lemma_run_start,
    lemma_runs_before_monotone,
    remapped,
    single,
    singles_of,
    starts_run,
    CondensedOp,
};
use crate::token::Token;

verus! {

/// Whether every instruction after `first`, up to `last`, keeps control between
/// the two: a jump goes to a place between them, and nothing but an
/// unconditional jump stands at `last`.
pub open spec fn enclosed(prog: Seq<CondensedOp>, first: int, last: int) -> bool {
    forall|i: int|
        first < i <= last ==> match #[trigger] prog[i] {
            CondensedOp::JumpIfZero(t) => first <= t <= last && i < last,
            CondensedOp::Jump(t) => first <= t <= last,
            _ => i < last,
        }
}

/// A loop whose tested cell is never zero when it is tested is never left:
/// after any number of steps the machine is still inside the loop, and so has
/// not halted.
pub proof fn lemma_loop_never_ends(
    prog: Seq<CondensedOp>,
    s: MachineState,
    open: int,
    close: int,
    n: nat,
)
    requires
        0 <= open < close < prog.len(),
        prog[open] is JumpIfZero,
        enclosed(prog, open, close),
        open <= s.pc <= close,
        forall|k: nat|
            (#[trigger] steps(prog, s, k)).pc == open ==> steps(prog, s, k).tape.curr != 0,
    ensures
        open <= steps(prog, s, n).pc <= close,
        !halted(prog, steps(prog, s, n)),
    decreases n,
{
    if n > 0 {
        let before = steps(prog, s, (n - 1) as nat);
        lemma_loop_never_ends(prog, s, open, close, (n - 1) as nat);
        lemma_steps_add(prog, s, (n - 1) as nat, 1);
        assert(steps(prog, before, 1) == steps(prog, step(prog, before), 0));
        assert(steps(prog, s, n) == step(prog, before));
        if before.pc > open {
            assert(match prog[before.pc as int] {
                CondensedOp::JumpIfZero(t) => open <= t <= close && before.pc < close,
                CondensedOp::Jump(t) => open <= t <= close,
                _ => before.pc < close,
            });
        }
    }
}

/// A pair of matching brackets compiles to a loop that encloses its body: the
/// instructions between the two jumps keep control between them.
pub proof fn lemma_compiled_loop_is_enclosed(
    toks: Seq<Token>,
    code: Seq<OpCode>,
    open: int,
    close: int,
)
    requires
        compiles_to(toks, code),
        matched(toks, open, close),
    ensures
        singles_of(code)[open] is JumpIfZero,
        enclosed(singles_of(code), open, close),
{
    let prog = singles_of(code);
    assert(instruction_for(toks, open, code[open]));
    assert(instruction_for(toks, close, code[close]));
    assert forall|i: int| open < i <= close implies match #[trigger] prog[i] {
        CondensedOp::JumpIfZero(t) => open <= t <= close && i < close,
        CondensedOp::Jump(t) => open <= t <= close,
        _ => i < close,
    } by {
        assert(prog[i] == single(code[i]));
        assert(instruction_for(toks, i, code[i]));
        match code[i] {
            OpCode::JumpIfZero(t) => {
                lemma_pairs_nest(toks, open, close, i, t - 1);
            },
            OpCode::Jump(t) => {
                if i == close {
                    lemma_matching_open_unique(toks, open, t as int, close);
                } else {
                    lemma_pairs_nest_backwards(toks, open, close, t as int, i);
                }
            },
            _ => {},
        }
    }
}

/// The loop of a pair of matching brackets still encloses its body after
/// condensing.
pub proof fn lemma_condensed_loop_is_enclosed(
    toks: Seq<Token>,
    code: Seq<OpCode>,
    out: Seq<CondensedOp>,
    open: int,
    close: int,
)
    requires
        code.len() <= usize::MAX,
        compiles_to(toks, code),
        condenses_to(code, out),
        matched(toks, open, close),
    ensures
        remapped(code, open) < remapped(code, close) < out.len(),
        out[remapped(code, open) as int] is JumpIfZero,
        enclosed(out, remapped(code, open) as int, remapped(code, close) as int),
{
    let first = remapped(code, open) as int;
    let last = remapped(code, close) as int;
    let len = code.len() as int;
    lemma_compiled_loop_is_enclosed(toks, code, open, close);
    assert(instruction_for(toks, open, code[open]));
    assert(instruction_for(toks, close, code[close]));
    assert(singles_of(code)[open] == single(code[open]));
    assert(starts_run(code, open));
    assert(starts_run(code, close));
    lemma_runs_before_monotone(code, open + 1, close);
    lemma_runs_before_monotone(code, close + 1, len);
    assert(out[first] == condensed_at(code, open));
    assert forall|g: int| first < g <= last implies match #[trigger] out[g] {
        CondensedOp::JumpIfZero(t) => first <= t <= last && g < last,
        CondensedOp::Jump(t) => first <= t <= last,
        _ => g < last,
    } by {
        let i = lemma_run_start(code, g as nat, len);
        if i <= open {
            lemma_runs_before_monotone(code, i, open);
        }
        if i > close {
            lemma_runs_before_monotone(code, close + 1, i);
        }
        assert(open < i <= close);
        assert(out[g] == condensed_at(code, i));
        assert(singles_of(code)[i] == single(code[i]));
        if i < close {
            lemma_runs_before_monotone(code, i + 1, close);
        }
        match code[i] {
            OpCode::JumpIfZero(t) => {
                lemma_runs_before_monotone(code, open + 1, t + 1);
                lemma_runs_before_monotone(code, t + 1, close + 1);
                lemma_runs_before_monotone(code, 0, len);
            },
            OpCode::Jump(t) => {
                lemma_runs_before_monotone(code, open + 1, t + 1);
                lemma_runs_before_monotone(code, t + 1, close + 1);
                lemma_runs_before_monotone(code, 0, len);
            },
            _ => {},
        }
    }
}

} // verus!

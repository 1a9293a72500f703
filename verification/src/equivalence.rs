//! Condensing keeps the meaning of a program: the condensed sequence does in one
//! step what the sequence of single instructions does in one run.

use vstd::prelude::*;
use crate::compiler::{compiles_to, instruction_for, OpCode};
use crate::machine::{
    execute,
    halted,
    lemma_steps_add,
    lemma_stuck_stays,
    status_of,
    step,
    steps,
    MachineState,
};
use crate::optimizer::{
    condensed_at,
    condenses_to,
    lemma_run_shape,
    lemma_runs_before_monotone,
    mergeable,
    on_boundary,
    remapped,
    run_length,
    runs_before,
    single,
    singles_of,
    starts_run,
    CondensedOp,
};
use crate::tape::{
    lemma_arithmetic_adds_up,
    lemma_steps_add_up,
    lowered,
    raised,
    stepped_left_by,
    stepped_right_by,
    Stored,
};
use crate::token::Token;

verus! {

/// Whether every jump of `code` goes to a position between runs, so that no jump
/// lands inside a run that condensing merges.
pub open spec fn jumps_between_runs(code: Seq<OpCode>) -> bool {
    forall|i: int|
        0 <= i < code.len() ==> match #[trigger] code[i] {
            OpCode::JumpIfZero(t) => on_boundary(code, t as int),
            OpCode::Jump(t) => on_boundary(code, t as int),
            _ => true,
        }
}

/// The state of the condensed program that stands for state `s` of the program
/// of single instructions: all is the same but the instruction pointer, which is
/// renumbered.
pub open spec fn condensed_state(code: Seq<OpCode>, s: MachineState) -> MachineState {
    MachineState { pc: remapped(code, s.pc as int), ..s }
}

/// The state after the instruction `op` has been executed `n` times in a row
/// from state `s`, for an instruction that is merged in runs.
pub open spec fn after_run(op: OpCode, s: MachineState, n: nat) -> MachineState {
    match op {
        OpCode::Right => MachineState { pc: s.pc + n, tape: stepped_right_by(s.tape, n), ..s },
        OpCode::Left => MachineState { pc: s.pc + n, tape: stepped_left_by(s.tape, n), ..s },
        OpCode::Inc => MachineState {
            pc: s.pc + n,
            tape: Stored { curr: raised(s.tape.curr, n as int), ..s.tape },
            ..s
        },
        OpCode::Dec => MachineState {
            pc: s.pc + n,
            tape: Stored { curr: lowered(s.tape.curr, n as int), ..s.tape },
            ..s
        },
        _ => s,
    }
}

/// In an instruction sequence that was compiled from tokens, every jump goes to
/// a position between runs.
pub proof fn lemma_compiled_jumps_between_runs(toks: Seq<Token>, code: Seq<OpCode>)
    requires
        compiles_to(toks, code),
    ensures
        jumps_between_runs(code),
{
    assert forall|i: int| 0 <= i < code.len() implies match #[trigger] code[i] {
        OpCode::JumpIfZero(t) => on_boundary(code, t as int),
        OpCode::Jump(t) => on_boundary(code, t as int),
        _ => true,
    } by {
        assert(instruction_for(toks, i, code[i]));
        match code[i] {
            OpCode::JumpIfZero(t) => {
                assert(instruction_for(toks, t - 1, code[t - 1]));
                if t < code.len() {
                    assert(instruction_for(toks, t as int, code[t as int]));
                }
            },
            OpCode::Jump(t) => {
                assert(instruction_for(toks, t as int, code[t as int]));
            },
            _ => {},
        }
    }
}

/// A run of `a` repetitions followed by a run of `b` repetitions of the same
/// instruction is a run of `a + b` repetitions.
pub proof fn lemma_runs_add_up(op: OpCode, s: MachineState, a: nat, b: nat)
    requires
        mergeable(op),
    ensures
        after_run(op, after_run(op, s, a), b) == after_run(op, s, a + b),
{
    lemma_steps_add_up(s.tape, a, b);
    lemma_arithmetic_adds_up(s.tape.curr, a as int, b as int);
}

/// One single move or single arithmetic instruction is a run of one.
pub proof fn lemma_single_is_run_of_one(code: Seq<OpCode>, s: MachineState)
    requires
        s.pc < code.len(),
        mergeable(code[s.pc as int]),
    ensures
        step(singles_of(code), s) == after_run(code[s.pc as int], s, 1),
{
    assert(singles_of(code)[s.pc as int] == single(code[s.pc as int]));
    reveal_with_fuel(stepped_left_by, 2);
    reveal_with_fuel(stepped_right_by, 2);
}

/// Executing `n` equal single moves or single arithmetic instructions in a row
/// does what one instruction with count `n` does, and leaves the pointer behind
/// the last of them.
pub proof fn lemma_singles_run(code: Seq<OpCode>, s: MachineState, n: nat)
    requires
        n > 0,
        s.pc + n <= code.len(),
        mergeable(code[s.pc as int]),
        forall|j: int| s.pc <= j < s.pc + n ==> #[trigger] code[j] == code[s.pc as int],
    ensures
        steps(singles_of(code), s, n) == after_run(code[s.pc as int], s, n),
    decreases n,
{
    let prog = singles_of(code);
    let op = code[s.pc as int];
    let s1 = step(prog, s);
    lemma_single_is_run_of_one(code, s);
    if n > 1 {
        assert(s1.pc == s.pc + 1);
        assert(code[s1.pc as int] == op);
        lemma_singles_run(code, s1, (n - 1) as nat);
        lemma_runs_add_up(op, s, 1, (n - 1) as nat);
    } else {
        assert(steps(prog, s, 1) == steps(prog, s1, 0));
    }
}

/// An instruction that is not merged is a run of its own.
pub proof fn lemma_unmerged_run(code: Seq<OpCode>, i: int)
    requires
        0 <= i < code.len(),
        !mergeable(code[i]),
    ensures
        run_length(code, i) == 1,
{
}

/// The end of the run that begins at `i` is renumbered to the position after
/// the one that `i` is renumbered to.
pub proof fn lemma_run_end_remapped(code: Seq<OpCode>, i: int)
    requires
        starts_run(code, i),
    ensures
        remapped(code, i) < runs_before(code, code.len() as int),
        remapped(code, i + run_length(code, i)) == remapped(code, i) + 1,
{
    lemma_run_shape(code, i);
    lemma_runs_before_monotone(code, i + 1, code.len() as int);
}

/// One step of the condensed program on a counted instruction does what the
/// run that it stands for does.
proof fn lemma_condensed_step_merged(code: Seq<OpCode>, out: Seq<CondensedOp>, s: MachineState)
    requires
        code.len() <= usize::MAX,
        condenses_to(code, out),
        starts_run(code, s.pc as int),
        mergeable(code[s.pc as int]),
    ensures
        step(out, condensed_state(code, s)) == condensed_state(
            code,
            after_run(code[s.pc as int], s, run_length(code, s.pc as int)),
        ),
{
    let i = s.pc as int;
    let cs = condensed_state(code, s);
    lemma_run_shape(code, i);
    lemma_run_end_remapped(code, i);
    assert(out[cs.pc as int] == condensed_at(code, i));
    let n = run_length(code, i);
    assert(n as usize == n);
    let a = execute(condensed_at(code, i), cs);
    let b = condensed_state(code, after_run(code[i], s, n));
    assert(a.pc == b.pc);
    assert(a.tape == b.tape);
    assert(a.input == b.input);
    assert(a.output == b.output);
}

/// One step of the condensed program on an instruction that is not merged does
/// what that instruction does.
proof fn lemma_condensed_step_unmerged(code: Seq<OpCode>, out: Seq<CondensedOp>, s: MachineState)
    requires
        code.len() <= usize::MAX,
        condenses_to(code, out),
        jumps_between_runs(code),
        starts_run(code, s.pc as int),
        !mergeable(code[s.pc as int]),
    ensures
        step(out, condensed_state(code, s)) == condensed_state(code, step(singles_of(code), s)),
        on_boundary(code, step(singles_of(code), s).pc as int),
{
    let i = s.pc as int;
    let cs = condensed_state(code, s);
    let prog = singles_of(code);
    lemma_run_shape(code, i);
    lemma_run_end_remapped(code, i);
    lemma_runs_before_monotone(code, 0, code.len() as int);
    assert(out[cs.pc as int] == condensed_at(code, i));
    assert(prog[i] == single(code[i]));
    assert(remapped(code, i + 1) == cs.pc + 1);
    let a = execute(condensed_at(code, i), cs);
    let r = execute(single(code[i]), s);
    let b = condensed_state(code, r);
    match code[i] {
        OpCode::JumpIfZero(t) => {
            assert(on_boundary(code, t as int));
            if t < code.len() {
                lemma_runs_before_monotone(code, 0, t as int);
            }
            assert(a.pc == b.pc);
        },
        OpCode::Jump(t) => {
            assert(on_boundary(code, t as int));
            if t < code.len() {
                lemma_runs_before_monotone(code, 0, t as int);
            }
            assert(a.pc == b.pc);
        },
        _ => {
            assert(a.pc == b.pc);
        },
    }
    assert(a.tape == b.tape);
    assert(a.input == b.input);
    assert(a.output == b.output);
}

/// One step of the condensed program does what the program of single
/// instructions does in the steps of one run: from a state between runs, both
/// arrive at states that stand for each other, again between runs.
pub proof fn lemma_condensed_step(code: Seq<OpCode>, out: Seq<CondensedOp>, s: MachineState)
    requires
        code.len() <= usize::MAX,
        condenses_to(code, out),
        jumps_between_runs(code),
        on_boundary(code, s.pc as int),
    ensures
        step(out, condensed_state(code, s)) == condensed_state(
            code,
            steps(singles_of(code), s, run_length(code, s.pc as int)),
        ),
        on_boundary(code, steps(singles_of(code), s, run_length(code, s.pc as int)).pc as int),
        status_of(out, condensed_state(code, s)) == status_of(singles_of(code), s),
{
    let prog = singles_of(code);
    let cs = condensed_state(code, s);
    let n = run_length(code, s.pc as int);
    let i = s.pc as int;
    if i < code.len() {
        lemma_run_shape(code, i);
        lemma_run_end_remapped(code, i);
        assert(out[cs.pc as int] == condensed_at(code, i));
        assert(prog[i] == single(code[i]));
        if mergeable(code[i]) {
            lemma_singles_run(code, s, n);
            lemma_condensed_step_merged(code, out, s);
        } else {
            lemma_unmerged_run(code, i);
            assert(steps(prog, s, 1) == steps(prog, step(prog, s), 0));
            lemma_condensed_step_unmerged(code, out, s);
        }
    } else {
        assert(steps(prog, s, 0) == s);
    }
}

/// However many steps the condensed program takes, the program of single
/// instructions arrives, in at least as many steps, at the state that stands for
/// the same: same tape, same pending input, same output, and the instruction
/// pointer at the same place. The number of those steps is returned.
pub proof fn lemma_condensed_run(
    code: Seq<OpCode>,
    out: Seq<CondensedOp>,
    s: MachineState,
    n: nat,
) -> (m: nat)
    requires
        code.len() <= usize::MAX,
        condenses_to(code, out),
        jumps_between_runs(code),
        on_boundary(code, s.pc as int),
    ensures
        m >= n,
        steps(out, condensed_state(code, s), n) == condensed_state(
            code,
            steps(singles_of(code), s, m),
        ),
        on_boundary(code, steps(singles_of(code), s, m).pc as int),
    decreases n,
{
    if n == 0 {
        0
    } else {
        let prog = singles_of(code);
        let k = run_length(code, s.pc as int);
        lemma_condensed_step(code, out, s);
        if k == 0 {
            lemma_stuck_stays(out, condensed_state(code, s), n);
            lemma_stuck_stays(prog, s, n);
            n
        } else {
            let s1 = steps(prog, s, k);
            let m1 = lemma_condensed_run(code, out, s1, (n - 1) as nat);
            lemma_steps_add(prog, s, k, m1);
            k + m1
        }
    }
}

/// Where the program of single instructions halts within `m` steps, the
/// condensed program halts within `m` steps too, with the same tape, the same
/// output and the same input left over.
pub proof fn lemma_condensed_halts_alike(
    code: Seq<OpCode>,
    out: Seq<CondensedOp>,
    s: MachineState,
    m: nat,
)
    requires
        code.len() <= usize::MAX,
        condenses_to(code, out),
        jumps_between_runs(code),
        on_boundary(code, s.pc as int),
        halted(singles_of(code), steps(singles_of(code), s, m)),
    ensures
        halted(out, steps(out, condensed_state(code, s), m)),
        steps(out, condensed_state(code, s), m).tape == steps(singles_of(code), s, m).tape,
        steps(out, condensed_state(code, s), m).output == steps(singles_of(code), s, m).output,
        steps(out, condensed_state(code, s), m).input == steps(singles_of(code), s, m).input,
{
    let prog = singles_of(code);
    let more = lemma_condensed_run(code, out, s, m);
    lemma_steps_add(prog, s, m, (more - m) as nat);
    lemma_stuck_stays(prog, steps(prog, s, m), (more - m) as nat);
}

/// Where the condensed program halts within `n` steps, the program of single
/// instructions halts too, within the number of steps that is returned, with
/// the same tape, the same output and the same input left over.
pub proof fn lemma_single_halts_alike(
    code: Seq<OpCode>,
    out: Seq<CondensedOp>,
    s: MachineState,
    n: nat,
) -> (m: nat)
    requires
        code.len() <= usize::MAX,
        condenses_to(code, out),
        jumps_between_runs(code),
        on_boundary(code, s.pc as int),
        halted(out, steps(out, condensed_state(code, s), n)),
    ensures
        halted(singles_of(code), steps(singles_of(code), s, m)),
        steps(singles_of(code), s, m).tape == steps(out, condensed_state(code, s), n).tape,
        steps(singles_of(code), s, m).output == steps(out, condensed_state(code, s), n).output,
        steps(singles_of(code), s, m).input == steps(out, condensed_state(code, s), n).input,
{
    let m = lemma_condensed_run(code, out, s, n);
    let r = steps(singles_of(code), s, m);
    if r.pc < code.len() {
        lemma_runs_before_monotone(code, r.pc as int + 1, code.len() as int);
    }
    m
}

/// A program compiled from tokens and run from its first instruction comes to
/// the same end condensed or not: where the single instructions halt within
/// `m` steps, so does the condensed program, with the same tape, the same
/// output and the same input left over.
pub proof fn lemma_compiled_halts_alike(
    toks: Seq<Token>,
    code: Seq<OpCode>,
    out: Seq<CondensedOp>,
    s: MachineState,
    m: nat,
)
    requires
        code.len() <= usize::MAX,
        compiles_to(toks, code),
        condenses_to(code, out),
        s.pc == 0,
        halted(singles_of(code), steps(singles_of(code), s, m)),
    ensures
        halted(out, steps(out, s, m)),
        steps(out, s, m).tape == steps(singles_of(code), s, m).tape,
        steps(out, s, m).output == steps(singles_of(code), s, m).output,
        steps(out, s, m).input == steps(singles_of(code), s, m).input,
{
    lemma_compiled_jumps_between_runs(toks, code);
    assert(condensed_state(code, s) == s) by {
        reveal_with_fuel(runs_before, 2);
    }
    lemma_condensed_halts_alike(code, out, s, m);
}

/// The other way round: where the condensed form of a compiled program, run
/// from its first instruction, halts within `n` steps, the single instructions
/// halt too, within the number of steps that is returned, with the same tape,
/// the same output and the same input left over.
pub proof fn lemma_compiled_single_halts_alike(
    toks: Seq<Token>,
    code: Seq<OpCode>,
    out: Seq<CondensedOp>,
    s: MachineState,
    n: nat,
) -> (m: nat)
    requires
        code.len() <= usize::MAX,
        compiles_to(toks, code),
        condenses_to(code, out),
        s.pc == 0,
        halted(out, steps(out, s, n)),
    ensures
        halted(singles_of(code), steps(singles_of(code), s, m)),
        steps(singles_of(code), s, m).tape == steps(out, s, n).tape,
        steps(singles_of(code), s, m).output == steps(out, s, n).output,
        steps(singles_of(code), s, m).input == steps(out, s, n).input,
{
    lemma_compiled_jumps_between_runs(toks, code);
    assert(condensed_state(code, s) == s) by {
        reveal_with_fuel(runs_before, 2);
    }
    lemma_single_halts_alike(code, out, s, n)
}

} // verus!

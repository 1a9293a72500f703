//! The optimizer: run-length encoding of the instruction sequence, with every
//! jump target renumbered to the position its instruction has afterwards.

use vstd::prelude::*;
use crate::compiler::OpCode;

verus! {

/// An instruction of the condensed sequence. Moves and arithmetic carry how many
/// times they apply; a jump carries the index, in the condensed sequence, of the
/// instruction that control continues at.
#[derive(Debug, Clone, Copy, PartialEq, Eq, Structural)]
pub enum CondensedOp {
    Right(usize),
    Left(usize),
    Inc(usize),
    Dec(usize),
    Print,
    Read,
    JumpIfZero(usize),
    Jump(usize),
}

/// Whether repetitions of an instruction are merged into one counted instruction.
pub open spec fn mergeable(op: OpCode) -> bool {
    op is Right || op is Left || op is Inc || op is Dec
}

/// Whether a run begins at `i`: the instruction there is not merged with the one
/// in front of it.
pub open spec fn starts_run(code: Seq<OpCode>, i: int) -> bool {
    0 <= i < code.len() && (i == 0 || !mergeable(code[i]) || code[i - 1] != code[i])
}

/// Whether `i` is a position between runs: the start of a run, or the end of the
/// sequence or beyond.
pub open spec fn on_boundary(code: Seq<OpCode>, i: int) -> bool {
    i >= code.len() || starts_run(code, i)
}

/// How many runs begin in front of `i`.
pub open spec fn runs_before(code: Seq<OpCode>, i: int) -> nat
    decreases i,
{
    if i <= 0 {
        0
    } else {
        runs_before(code, i - 1) + if starts_run(code, i - 1) {
            1nat
        } else {
            0nat
        }
    }
}

/// How many instructions, from `i` on, are merged with the one at `i`, itself
/// included.
pub open spec fn run_length(code: Seq<OpCode>, i: int) -> nat
    decreases code.len() - i,
{
    if 0 <= i < code.len() {
        if i + 1 < code.len() && !starts_run(code, i + 1) {
            1 + run_length(code, i + 1)
        } else {
            1
        }
    } else {
        0
    }
}

/// Where an instruction index goes when the sequence is condensed: to the
/// index of the run that holds the instruction, or to the end where the index
/// is the end or beyond. A jump target is renumbered so.
pub open spec fn remapped(code: Seq<OpCode>, target: int) -> nat {
    if 0 <= target < code.len() {
        (runs_before(code, target + 1) - 1) as nat
    } else {
        runs_before(code, code.len() as int)
    }
}

/// The counted instruction that stands for the run beginning at `i`.
pub open spec fn condensed_at(code: Seq<OpCode>, i: int) -> CondensedOp {
    match code[i] {
        OpCode::Right => CondensedOp::Right(run_length(code, i) as usize),
        OpCode::Left => CondensedOp::Left(run_length(code, i) as usize),
        OpCode::Inc => CondensedOp::Inc(run_length(code, i) as usize),
        OpCode::Dec => CondensedOp::Dec(run_length(code, i) as usize),
        OpCode::Print => CondensedOp::Print,
        OpCode::Read => CondensedOp::Read,
        OpCode::JumpIfZero(t) => CondensedOp::JumpIfZero(remapped(code, t as int) as usize),
        OpCode::Jump(t) => CondensedOp::Jump(remapped(code, t as int) as usize),
    }
}

/// Whether `out` is the condensed form of `code`: one instruction for each run,
/// in order, each the counted instruction of its run.
pub open spec fn condenses_to(code: Seq<OpCode>, out: Seq<CondensedOp>) -> bool {
    &&& out.len() == runs_before(code, code.len() as int)
    &&& forall|i: int|
        starts_run(code, i) ==> out[runs_before(code, i) as int] == #[trigger] condensed_at(
            code,
            i,
        )
}

/// The instruction, with count one, that does what `op` does. Jump targets stay.
pub open spec fn single(op: OpCode) -> CondensedOp {
    match op {
        OpCode::Right => CondensedOp::Right(1),
        OpCode::Left => CondensedOp::Left(1),
        OpCode::Inc => CondensedOp::Inc(1),
        OpCode::Dec => CondensedOp::Dec(1),
        OpCode::Print => CondensedOp::Print,
        OpCode::Read => CondensedOp::Read,
        OpCode::JumpIfZero(t) => CondensedOp::JumpIfZero(t),
        OpCode::Jump(t) => CondensedOp::Jump(t),
    }
}

/// The sequence with every instruction on its own, nothing merged.
pub open spec fn singles_of(code: Seq<OpCode>) -> Seq<CondensedOp> {
    code.map_values(|op: OpCode| single(op))
}

/// The number of runs in front of a position grows with the position and never
/// exceeds it.
pub proof fn lemma_runs_before_monotone(code: Seq<OpCode>, i: int, j: int)
    requires
        0 <= i <= j,
    ensures
        runs_before(code, i) <= runs_before(code, j),
        runs_before(code, j) <= j,
        runs_before(code, j) - runs_before(code, i) <= j - i,
    decreases j,
{
    if j > 0 {
        if i < j {
            lemma_runs_before_monotone(code, i, j - 1);
        } else {
            lemma_runs_before_monotone(code, i - 1, j - 1);
        }
    }
}

/// A run is made of equal instructions, holds no start of another run, ends on a
/// boundary, and counts as one run.
pub proof fn lemma_run_shape(code: Seq<OpCode>, i: int)
    requires
        0 <= i < code.len(),
    ensures
        1 <= run_length(code, i) <= code.len() - i,
        on_boundary(code, i + run_length(code, i)),
        runs_before(code, i + run_length(code, i)) == runs_before(code, i + 1),
        forall|j: int| i < j < i + run_length(code, i) ==> !starts_run(code, j),
        forall|j: int| i <= j < i + run_length(code, i) ==> code[j] == code[i],
        run_length(code, i) > 1 ==> mergeable(code[i]),
    decreases code.len() - i,
{
    if i + 1 < code.len() && !starts_run(code, i + 1) {
        lemma_run_shape(code, i + 1);
    }
}

/// A stretch that holds no start of a run and ends on a boundary is the whole
/// remainder of its run.
pub proof fn lemma_run_length_is(code: Seq<OpCode>, i: int, n: int)
    requires
        0 <= i < code.len(),
        1 <= n,
        forall|j: int| i < j < i + n ==> !starts_run(code, j),
        on_boundary(code, i + n),
        i + n <= code.len(),
    ensures
        run_length(code, i) == n,
    decreases n,
{
    if n > 1 {
        lemma_run_length_is(code, i + 1, n - 1);
    }
}

/// The run with index `g`, among the runs in front of `upto`, begins at the
/// position that is returned.
pub proof fn lemma_run_start(code: Seq<OpCode>, g: nat, upto: int) -> (i: int)
    requires
        0 <= upto <= code.len(),
        g < runs_before(code, upto),
    ensures
        starts_run(code, i),
        runs_before(code, i) == g,
        i < upto,
    decreases upto,
{
    if runs_before(code, upto - 1) > g {
        lemma_run_start(code, g, upto - 1)
    } else {
        upto - 1
    }
}

/// An instruction sequence has at most one condensed form.
pub proof fn lemma_condensation_unique(
    code: Seq<OpCode>,
    a: Seq<CondensedOp>,
    b: Seq<CondensedOp>,
)
    requires
        condenses_to(code, a),
        condenses_to(code, b),
    ensures
        a == b,
{
    assert forall|g: int| 0 <= g < a.len() implies a[g] == b[g] by {
        let i = lemma_run_start(code, g as nat, code.len() as int);
        assert(a[g] == condensed_at(code, i));
    }
    assert(a =~= b);
}

/// The count that a condensed instruction carries, one for an instruction that
/// carries none.
pub open spec fn count_of(op: CondensedOp) -> nat {
    match op {
        CondensedOp::Right(n) => n as nat,
        CondensedOp::Left(n) => n as nat,
        CondensedOp::Inc(n) => n as nat,
        CondensedOp::Dec(n) => n as nat,
        _ => 1,
    }
}

/// Whether two condensed instructions could have been one: both are the same
/// move or the same arithmetic instruction, whatever their counts.
pub open spec fn mergeable_pair(a: CondensedOp, b: CondensedOp) -> bool {
    ||| a is Right && b is Right
    ||| a is Left && b is Left
    ||| a is Inc && b is Inc
    ||| a is Dec && b is Dec
}

/// Every count of a condensed sequence is at least one, and the runs are
/// maximal: no two neighbours of a condensed sequence could have been one.
pub proof fn lemma_condensed_runs_are_maximal(code: Seq<OpCode>, out: Seq<CondensedOp>, g: int)
    requires
        code.len() <= usize::MAX,
        condenses_to(code, out),
        0 <= g < out.len(),
    ensures
        1 <= count_of(out[g]) <= code.len(),
        g + 1 < out.len() ==> !mergeable_pair(out[g], out[g + 1]),
{
    let i = lemma_run_start(code, g as nat, code.len() as int);
    lemma_run_shape(code, i);
    assert(out[g] == condensed_at(code, i));
    if g + 1 < out.len() {
        let next = i + run_length(code, i);
        assert(code[next - 1] == code[i]);
        assert(starts_run(code, next)) by {
            if next >= code.len() {
                lemma_runs_before_monotone(code, next, code.len() as int);
            }
        }
        assert(out[g + 1] == condensed_at(code, next));
    }
}

/// Whether the instruction at `i` begins a run.
fn begins_run(code: &[OpCode], i: usize) -> (b: bool)
    requires
        i < code.len(),
    ensures
        b == starts_run(code@, i as int),
{
    if i == 0 {
        true
    } else {
        match code[i] {
            OpCode::Right => !matches!(code[i - 1], OpCode::Right),
            OpCode::Left => !matches!(code[i - 1], OpCode::Left),
            OpCode::Inc => !matches!(code[i - 1], OpCode::Inc),
            OpCode::Dec => !matches!(code[i - 1], OpCode::Dec),
            _ => true,
        }
    }
}

/// The length of the run that begins at `i`.
fn measure_run(code: &[OpCode], i: usize) -> (n: usize)
    requires
        i < code.len(),
    ensures
        n == run_length(code@, i as int),
        i + n <= code.len(),
{
    let mut n: usize = 1;
    while n < code.len() - i && !begins_run(code, i + n)
        invariant
            i < code.len(),
            1 <= n <= code.len() - i,
            forall|j: int| i < j < i + n ==> !starts_run(code@, j),
        decreases code.len() - n,
    {
        n += 1;
    }
    proof {
        lemma_run_length_is(code@, i as int, n as int);
    }
    n
}

/// The renumbering that condensing applies: for each instruction, the index
/// of its run in the condensed sequence; and the number of runs in all, which
/// is where the end, and any index beyond it, goes.
pub fn run_positions(code: &[OpCode]) -> (result: (Vec<usize>, usize))
    ensures
        result.0.len() == code.len(),
        forall|i: int| 0 <= i < code.len() ==> result.0[i] == remapped(code@, i),
        result.1 == runs_before(code@, code@.len() as int),
{
    let mut positions: Vec<usize> = Vec::new();
    let mut count: usize = 0;
    let mut i: usize = 0;
    while i < code.len()
        invariant
            0 <= i <= code.len(),
            positions.len() == i,
            count == runs_before(code@, i as int),
            count <= i,
            i > 0 ==> count > 0,
            forall|k: int| 0 <= k < i ==> positions[k] == remapped(code@, k),
        decreases code.len() - i,
    {
        if begins_run(code, i) {
            count += 1;
        }
        positions.push(count - 1);
        i += 1;
    }
    (positions, count)
}

/// Where a jump to `target` goes in the condensed sequence.
fn remap(code: &[OpCode], positions: &Vec<usize>, total: usize, target: usize) -> (t: usize)
    requires
        positions.len() == code.len(),
        forall|i: int| 0 <= i < code.len() ==> positions[i] == remapped(code@, i),
        total == runs_before(code@, code@.len() as int),
    ensures
        t == remapped(code@, target as int),
{
    if target < positions.len() {
        positions[target]
    } else {
        total
    }
}

/// Condenses an instruction sequence: every maximal run of one move or one
/// arithmetic instruction becomes a single counted instruction, every other
/// instruction stays on its own, and every jump target is renumbered.
pub fn condense(code: &[OpCode]) -> (out: Vec<CondensedOp>)
    ensures
        condenses_to(code@, out@),
{
    let (positions, total) = run_positions(code);
    let mut out: Vec<CondensedOp> = Vec::new();
    let mut i: usize = 0;
    while i < code.len()
        invariant
            0 <= i <= code.len(),
            on_boundary(code@, i as int),
            positions.len() == code.len(),
            forall|k: int| 0 <= k < code.len() ==> positions[k] == remapped(code@, k),
            total == runs_before(code@, code@.len() as int),
            out.len() == runs_before(code@, i as int),
            forall|k: int|
                starts_run(code@, k) && k < i ==> out[runs_before(code@, k) as int]
                    == #[trigger] condensed_at(code@, k),
        decreases code.len() - i,
    {
        let n = measure_run(code, i);
        let op = match code[i] {
            OpCode::Right => CondensedOp::Right(n),
            OpCode::Left => CondensedOp::Left(n),
            OpCode::Inc => CondensedOp::Inc(n),
            OpCode::Dec => CondensedOp::Dec(n),
            OpCode::Print => CondensedOp::Print,
            OpCode::Read => CondensedOp::Read,
            OpCode::JumpIfZero(t) => CondensedOp::JumpIfZero(remap(code, &positions, total, t)),
            OpCode::Jump(t) => CondensedOp::Jump(remap(code, &positions, total, t)),
        };
        proof {
            lemma_run_shape(code@, i as int);
            assert(op == condensed_at(code@, i as int));
            assert forall|k: int| #[trigger] starts_run(code@, k) && k < i implies runs_before(
                code@,
                k,
            ) < runs_before(code@, i as int) by {
                lemma_runs_before_monotone(code@, k + 1, i as int);
            }
        }
        out.push(op);
        i += n;
    }
    out
}

/// Lifts an instruction sequence as it is: every instruction becomes a counted
/// instruction with count one, and jump targets stay.
pub fn singles(code: &[OpCode]) -> (out: Vec<CondensedOp>)
    ensures
        out@ == singles_of(code@),
{
    let mut out: Vec<CondensedOp> = Vec::new();
    let mut i: usize = 0;
    while i < code.len()
        invariant
            0 <= i <= code.len(),
            out.len() == i,
            forall|k: int| 0 <= k < i ==> out[k] == single(code@[k]),
        decreases code.len() - i,
    {
        let op = match code[i] {
            OpCode::Right => CondensedOp::Right(1),
            OpCode::Left => CondensedOp::Left(1),
            OpCode::Inc => CondensedOp::Inc(1),
            OpCode::Dec => CondensedOp::Dec(1),
            OpCode::Print => CondensedOp::Print,
            OpCode::Read => CondensedOp::Read,
            OpCode::JumpIfZero(t) => CondensedOp::JumpIfZero(t),
            OpCode::Jump(t) => CondensedOp::Jump(t),
        };
        out.push(op);
        i += 1;
    }
    assert(out@ =~= singles_of(code@));
    out
}

} // verus!

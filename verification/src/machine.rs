//! The machine: what one instruction does to the tape, the input and the output,
//! and an interpreter that does it.

use vstd::prelude::*;
use crate::input::InputBuffer;
use crate::optimizer::CondensedOp;
use crate::tape::{
    dec_by,
    fresh,
    inc_by,
    lowered,
    raised,
    stepped_left_by,
    stepped_right_by,
    Stored,
    Tape,
};

verus! {

/// All that an execution depends on and changes.
#[verifier::ext_equal]
pub struct MachineState {
    /// The index of the instruction to execute next.
    pub pc: nat,
    /// The tape, as it is stored.
    pub tape: Stored,
    /// The input bytes that are pending, in the order in which they are consumed.
    pub input: Seq<u8>,
    /// The bytes written and not yet handed over.
    pub output: Seq<u8>,
}

/// The state in which every execution begins: at the first instruction, on a
/// new tape, with no input pending and nothing written.
pub open spec fn initial_state() -> MachineState {
    MachineState { pc: 0, tape: fresh(), input: Seq::empty(), output: Seq::empty() }
}

/// Whether the program has come to its end: the instruction pointer is past the
/// last instruction.
pub open spec fn halted(prog: Seq<CondensedOp>, s: MachineState) -> bool {
    s.pc >= prog.len()
}

/// Whether the program waits for input: it is at an input instruction and no
/// byte is pending.
pub open spec fn blocked(prog: Seq<CondensedOp>, s: MachineState) -> bool {
    s.pc < prog.len() && prog[s.pc as int] is Read && s.input.len() == 0
}

/// The state after the instruction `op` has been executed in state `s`. An
/// input instruction changes nothing while no byte is pending.
pub open spec fn execute(op: CondensedOp, s: MachineState) -> MachineState {
    match op {
        CondensedOp::Right(n) => MachineState {
            pc: s.pc + 1,
            tape: stepped_right_by(s.tape, n as nat),
            ..s
        },
        CondensedOp::Left(n) => MachineState {
            pc: s.pc + 1,
            tape: stepped_left_by(s.tape, n as nat),
            ..s
        },
        CondensedOp::Inc(n) => MachineState {
            pc: s.pc + 1,
            tape: Stored { curr: raised(s.tape.curr, n as int), ..s.tape },
            ..s
        },
        CondensedOp::Dec(n) => MachineState {
            pc: s.pc + 1,
            tape: Stored { curr: lowered(s.tape.curr, n as int), ..s.tape },
            ..s
        },
        CondensedOp::Print => MachineState {
            pc: s.pc + 1,
            output: s.output.push(s.tape.curr),
            ..s
        },
        CondensedOp::Read => if s.input.len() == 0 {
            s
        } else {
            MachineState {
                pc: s.pc + 1,
                tape: Stored { curr: s.input[0], ..s.tape },
                input: s.input.drop_first(),
                ..s
            }
        },
        CondensedOp::JumpIfZero(t) => if s.tape.curr == 0 {
            MachineState { pc: t as nat, ..s }
        } else {
            MachineState { pc: s.pc + 1, ..s }
        },
        CondensedOp::Jump(t) => MachineState { pc: t as nat, ..s },
    }
}

/// The state after the instruction at the pointer has been executed. A halted
/// machine stays as it is.
pub open spec fn step(prog: Seq<CondensedOp>, s: MachineState) -> MachineState {
    if s.pc >= prog.len() {
        s
    } else {
        execute(prog[s.pc as int], s)
    }
}

/// The state after `n` steps.
pub open spec fn steps(prog: Seq<CondensedOp>, s: MachineState, n: nat) -> MachineState
    decreases n,
{
    if n == 0 {
        s
    } else {
        steps(prog, step(prog, s), (n - 1) as nat)
    }
}

/// What an interpreter can do next.
#[derive(Debug, Clone, Copy, PartialEq, Eq, Structural)]
pub enum Status {
    /// The next instruction can be executed.
    Running,
    /// The next instruction reads a byte and none is pending: a line of input
    /// has to be fed first.
    AwaitingInput,
    /// The program has come to its end.
    Halted,
}

/// What a machine in state `s` can do next.
pub open spec fn status_of(prog: Seq<CondensedOp>, s: MachineState) -> Status {
    if halted(prog, s) {
        Status::Halted
    } else if blocked(prog, s) {
        Status::AwaitingInput
    } else {
        Status::Running
    }
}

/// No number of steps moves a machine that has halted or waits for input.
pub proof fn lemma_stuck_stays(prog: Seq<CondensedOp>, s: MachineState, n: nat)
    requires
        halted(prog, s) || blocked(prog, s),
    ensures
        steps(prog, s, n) == s,
    decreases n,
{
    if n > 0 {
        lemma_stuck_stays(prog, s, (n - 1) as nat);
    }
}

/// Running `a` steps and then `b` more is running `a + b` steps.
pub proof fn lemma_steps_add(prog: Seq<CondensedOp>, s: MachineState, a: nat, b: nat)
    ensures
        steps(prog, s, a + b) == steps(prog, steps(prog, s, a), b),
    decreases a,
{
    if a > 0 {
        lemma_steps_add(prog, step(prog, s), (a - 1) as nat, b);
    }
}

/// The character that an output byte is written as: the one whose code is the
/// byte.
pub fn character(byte: u8) -> (c: char)
    ensures
        c as int == byte as int,
{
    byte as char
}

/// An interpreter: a program together with the state of its execution.
pub struct Machine {
    pub program: Vec<CondensedOp>,
    pub pc: usize,
    pub tape: Tape,
    pub input: InputBuffer,
    /// The bytes written since the output was last taken.
    pub output: Vec<u8>,
}

impl View for Machine {
    type V = MachineState;

    /// The state of the execution, without the program.
    open spec fn view(&self) -> MachineState {
        MachineState {
            pc: self.pc as nat,
            tape: self.tape.stored(),
            input: self.input@,
            output: self.output@,
        }
    }
}

impl Machine {
    /// An interpreter that is about to execute the first instruction of
    /// `program` on a blank tape.
    pub fn new(program: Vec<CondensedOp>) -> (machine: Machine)
        ensures
            machine.program == program,
            machine@ == initial_state(),
    {
        Machine {
            program,
            pc: 0,
            tape: Tape::new(),
            input: InputBuffer::new(),
            output: Vec::new(),
        }
    }

    /// What the interpreter can do next.
    pub fn status(&self) -> (status: Status)
        ensures
            status == status_of(self.program@, self@),
    {
        if self.pc >= self.program.len() {
            Status::Halted
        } else {
            match self.program[self.pc] {
                CondensedOp::Read => if self.input.is_empty() {
                    Status::AwaitingInput
                } else {
                    Status::Running
                },
                _ => Status::Running,
            }
        }
    }

    /// Executes the instruction at the pointer. Nothing changes where the
    /// program has halted, or where it waits for input.
    pub fn step(&mut self)
        ensures
            final(self).program == old(self).program,
            final(self)@ == step(old(self).program@, old(self)@),
    {
        if self.pc >= self.program.len() {
            return;
        }
        match self.program[self.pc] {
            CondensedOp::Right(n) => {
                self.tape.move_right_by(n);
                self.pc += 1;
            },
            CondensedOp::Left(n) => {
                self.tape.move_left_by(n);
                self.pc += 1;
            },
            CondensedOp::Inc(n) => {
                inc_by(&mut self.tape.curr, n);
                self.pc += 1;
            },
            CondensedOp::Dec(n) => {
                dec_by(&mut self.tape.curr, n);
                self.pc += 1;
            },
            CondensedOp::Print => {
                self.output.push(self.tape.curr);
                self.pc += 1;
            },
            CondensedOp::Read => {
                match self.input.pop() {
                    Some(b) => {
                        self.tape.curr = b;
                        self.pc += 1;
                    },
                    None => {},
                }
            },
            CondensedOp::JumpIfZero(t) => {
                if self.tape.curr == 0 {
                    self.pc = t;
                } else {
                    self.pc += 1;
                }
            },
            CondensedOp::Jump(t) => {
                self.pc = t;
            },
        }
    }

    /// Executes up to `fuel` instructions, stopping early where the program
    /// halts or waits for input, and says what the interpreter can do next.
    pub fn run(&mut self, fuel: usize) -> (status: Status)
        ensures
            final(self).program == old(self).program,
            final(self)@ == steps(old(self).program@, old(self)@, fuel as nat),
            status == status_of(final(self).program@, final(self)@),
    {
        let mut left: usize = fuel;
        while left > 0
            invariant
                self.program == old(self).program,
                steps(self.program@, self@, left as nat) == steps(
                    old(self).program@,
                    old(self)@,
                    fuel as nat,
                ),
            decreases left,
        {
            match self.status() {
                Status::Running => {},
                stuck => {
                    proof {
                        lemma_stuck_stays(self.program@, self@, left as nat);
                    }
                    return stuck;
                },
            }
            self.step();
            left -= 1;
        }
        self.status()
    }

    /// Feeds one line of input, line terminator included, to the program.
    pub fn feed(&mut self, line: &[u8])
        ensures
            final(self).program == old(self).program,
            final(self)@ == (MachineState { input: old(self)@.input + line@, ..old(self)@ }),
    {
        self.input.refill(line);
    }

    /// Hands over the bytes written since this was last called.
    pub fn take_output(&mut self) -> (bytes: Vec<u8>)
        ensures
            bytes@ == old(self)@.output,
            final(self).program == old(self).program,
            final(self)@ == (MachineState { output: Seq::empty(), ..old(self)@ }),
    {
        let mut bytes: Vec<u8> = Vec::new();
        bytes.append(&mut self.output);
        bytes
    }
}

} // verus!

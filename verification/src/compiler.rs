//! The compiler: one pass over the tokens that turns each bracket into a jump to
//! an absolute instruction index.

use vstd::prelude::*;
use crate::nesting::{
    balanced,
    depth,
    has_unmatched_close,
    has_unmatched_open,
    lemma_matching_close_unique,
    lemma_matching_open_unique,
    lemma_unmatched_close_is_dip,
    lemma_unmatched_open_is_surplus,
    matched,
};
use crate::token::Token;

verus! {

/// An instruction of the flat instruction sequence. A jump carries the index of
/// the instruction that control continues at.
#[derive(Debug, Clone, Copy, PartialEq, Eq, Structural)]
pub enum OpCode {
    Right,
    Left,
    Inc,
    Dec,
    Print,
    Read,
    JumpIfZero(usize),
    Jump(usize),
}

/// Why a token sequence has no instruction sequence.
#[derive(Debug, Clone, Copy, PartialEq, Eq, Structural)]
pub enum CompileError {
    /// Some loop-close has no loop-open before it to match.
    UnmatchedRightBracket,
    /// Some loop-open is never closed.
    UnmatchedLeftBracket,
}

impl CompileError {
    /// The message that a user is shown for this error.
    pub fn message(&self) -> (text: &'static str)
        ensures
            text@ == match *self {
                CompileError::UnmatchedRightBracket => "Unmatched right bracket!"@,
                CompileError::UnmatchedLeftBracket => "Unmatched left bracket!"@,
            },
    {
        match self {
            CompileError::UnmatchedRightBracket => "Unmatched right bracket!",
            CompileError::UnmatchedLeftBracket => "Unmatched left bracket!",
        }
    }
}

/// Whether `op` is the instruction that the token at `i` compiles to: a loop-open
/// jumps, on zero, to the index after its matching loop-close; a loop-close jumps
/// back to its matching loop-open; every other token has its own instruction.
pub open spec fn instruction_for(toks: Seq<Token>, i: int, op: OpCode) -> bool {
    match toks[i] {
        Token::T_GT => op == OpCode::Right,
        Token::T_LT => op == OpCode::Left,
        Token::T_PLUS => op == OpCode::Inc,
        Token::T_MINUS => op == OpCode::Dec,
        Token::T_DOT => op == OpCode::Print,
        Token::T_COMMA => op == OpCode::Read,
        Token::T_LBRACKET => op matches OpCode::JumpIfZero(t) && matched(toks, i, t - 1),
        Token::T_RBRACKET => op matches OpCode::Jump(t) && matched(toks, t as int, i),
    }
}

/// Whether `code` is the instruction sequence of `toks`: one instruction per
/// token, each the one that its token compiles to.
pub open spec fn compiles_to(toks: Seq<Token>, code: Seq<OpCode>) -> bool {
    &&& code.len() == toks.len()
    &&& forall|i: int| 0 <= i < toks.len() ==> instruction_for(toks, i, #[trigger] code[i])
}

/// Whether every jump of `code` is tied to its partner: a conditional jump goes
/// to the index after a later unconditional jump that comes back to it, and an
/// unconditional jump goes back to an earlier conditional jump that goes to the
/// index after it.
pub open spec fn linked(code: Seq<OpCode>) -> bool {
    forall|i: int|
        0 <= i < code.len() ==> match #[trigger] code[i] {
            OpCode::JumpIfZero(t) => i < t - 1 < code.len() && code[t - 1] == OpCode::Jump(
                i as usize,
            ),
            OpCode::Jump(t) => t < i && code[t as int] == OpCode::JumpIfZero((i + 1) as usize),
            _ => true,
        }
}

/// A token sequence has at most one instruction sequence.
pub proof fn lemma_compilation_unique(toks: Seq<Token>, a: Seq<OpCode>, b: Seq<OpCode>)
    requires
        compiles_to(toks, a),
        compiles_to(toks, b),
    ensures
        a == b,
{
    assert forall|i: int| 0 <= i < toks.len() implies a[i] == b[i] by {
        assert(instruction_for(toks, i, a[i]));
        assert(instruction_for(toks, i, b[i]));
        match toks[i] {
            Token::T_LBRACKET => {
                lemma_matching_close_unique(toks, i, a[i]->JumpIfZero_0 - 1, b[i]->JumpIfZero_0 - 1);
            },
            Token::T_RBRACKET => {
                lemma_matching_open_unique(toks, a[i]->Jump_0 as int, b[i]->Jump_0 as int, i);
            },
            _ => {},
        }
    }
    assert(a =~= b);
}

/// In an instruction sequence that was compiled from tokens, every jump is tied
/// to its partner.
pub proof fn lemma_compiled_is_linked(toks: Seq<Token>, code: Seq<OpCode>)
    requires
        compiles_to(toks, code),
    ensures
        linked(code),
{
    assert forall|i: int| 0 <= i < code.len() implies match #[trigger] code[i] {
        OpCode::JumpIfZero(t) => i < t - 1 < code.len() && code[t - 1] == OpCode::Jump(i as usize),
        OpCode::Jump(t) => t < i && code[t as int] == OpCode::JumpIfZero((i + 1) as usize),
        _ => true,
    } by {
        assert(instruction_for(toks, i, code[i]));
        match code[i] {
            OpCode::JumpIfZero(t) => {
                assert(instruction_for(toks, t - 1, code[t - 1]));
                lemma_matching_open_unique(toks, i, code[t - 1]->Jump_0 as int, t - 1);
            },
            OpCode::Jump(t) => {
                assert(instruction_for(toks, t as int, code[t as int]));
                lemma_matching_close_unique(toks, t as int, i, code[t as int]->JumpIfZero_0 - 1);
            },
            _ => {},
        }
    }
}

/// Whether the loop-open at `open` is still waiting for its loop-close after the
/// first `upto` tokens.
spec fn pending(toks: Seq<Token>, open: int, upto: int) -> bool {
    &&& 0 <= open < upto <= toks.len()
    &&& toks[open] == Token::T_LBRACKET
    &&& forall|k: int| open < k <= upto ==> depth(toks, k) > depth(toks, open)
}

/// What the compiler has emitted for the token at `i` once the first `upto`
/// tokens are done: as `instruction_for`, but a loop-open that is still pending
/// holds a placeholder.
spec fn emitted_for(toks: Seq<Token>, upto: int, i: int, op: OpCode) -> bool {
    if toks[i] == Token::T_LBRACKET && pending(toks, i, upto) {
        op is JumpIfZero
    } else {
        instruction_for(toks, i, op)
    }
}

/// Compiles tokens to instructions, resolving every bracket to a jump target.
pub fn compile(toks: &[Token]) -> (result: Result<Vec<OpCode>, CompileError>)
    ensures
        result is Ok <==> balanced(toks@),
        result matches Ok(code) ==> compiles_to(toks@, code@),
        (result matches Err(e) && e == CompileError::UnmatchedRightBracket) <==> has_unmatched_close(
            toks@,
        ),
        (result matches Err(e) && e == CompileError::UnmatchedLeftBracket) <==> !has_unmatched_close(
            toks@,
        ) && has_unmatched_open(toks@),
{
    let mut brackets: Vec<usize> = Vec::new();
    let mut bytecode: Vec<OpCode> = Vec::new();
    let mut idx: usize = 0;
    while idx < toks.len()
        invariant
            0 <= idx <= toks.len(),
            bytecode.len() == idx,
            brackets.len() == depth(toks@, idx as int),
            forall|p: int| 0 <= p <= idx ==> depth(toks@, p) >= 0,
            forall|k: int|
                0 <= k < brackets.len() ==> pending(toks@, (#[trigger] brackets[k]) as int, idx as int)
                    && depth(toks@, brackets[k] as int) == k,
            forall|i: int| 0 <= i < idx ==> emitted_for(toks@, idx as int, i, #[trigger] bytecode[i]),
        decreases toks.len() - idx,
    {
        match toks[idx] {
            Token::T_GT => bytecode.push(OpCode::Right),
            Token::T_LT => bytecode.push(OpCode::Left),
            Token::T_PLUS => bytecode.push(OpCode::Inc),
            Token::T_MINUS => bytecode.push(OpCode::Dec),
            Token::T_DOT => bytecode.push(OpCode::Print),
            Token::T_COMMA => bytecode.push(OpCode::Read),
            Token::T_LBRACKET => {
                brackets.push(idx);
                bytecode.push(OpCode::JumpIfZero(0));
            },
            Token::T_RBRACKET => match brackets.pop() {
                None => {
                    proof {
                        assert(depth(toks@, idx + 1) < 0);
                        lemma_unmatched_close_is_dip(toks@);
                    }
                    return Err(CompileError::UnmatchedRightBracket);
                },
                Some(j) => {
                    bytecode.push(OpCode::Jump(j));
                    bytecode.set(j, OpCode::JumpIfZero(idx + 1));
                    assert(matched(toks@, j as int, idx as int));
                },
            },
        }
        idx += 1;
    }
    proof {
        lemma_unmatched_close_is_dip(toks@);
        lemma_unmatched_open_is_surplus(toks@);
    }
    if brackets.is_empty() {
        Ok(bytecode)
    } else {
        Err(CompileError::UnmatchedLeftBracket)
    }
}

} // verus!

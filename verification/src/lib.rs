//! An interpreter for a tape language of eight command symbols: `>` `<` move
//! the head, `+` `-` change the active cell, `.` `,` write and read a byte, and
//! `[` `]` loop while the active cell is not zero.
//!
//! A program goes through four stages, each a function with a proved contract:
//!
//! 1. [`token::parse`] keeps the command symbols of the source text;
//! 2. [`compiler::compile`] resolves every bracket to a jump, or says which
//!    bracket has no partner;
//! 3. [`optimizer::condense`] merges runs of equal moves and equal arithmetic
//!    into counted instructions and renumbers the jumps
//!    ([`optimizer::singles`] keeps every instruction on its own instead);
//! 4. [`machine::Machine`] executes the result, one instruction at a time or up
//!    to a given number of them, on a [`tape::Tape`] that is unbounded in both
//!    directions. It does no input or output itself: it collects the bytes
//!    that the program writes, and says when it needs a line of input.
//!
//! Besides the contracts, the library proves what holds across stages: that
//! compiled jumps are tied to their partners ([`compiler`]), that condensing
//! keeps the meaning of a program ([`equivalence`]), and that nothing but a
//! test that finds a zero cell ends a loop ([`loops`]).

pub mod compiler;
pub mod equivalence;
pub mod input;
pub mod loops;
pub mod machine;
pub mod nesting;
pub mod optimizer;
pub mod tape;
pub mod token;

use tape_machine::compiler::{compile, OpCode};
use tape_machine::optimizer::{condense, run_positions, singles, CondensedOp};
use tape_machine::token::parse;

fn compiled(source: &str) -> Vec<OpCode> {
    compile(&parse(source)).unwrap()
}

#[test]
fn condense_of_nothing_is_empty() {
    assert_eq!(condense(&[]), vec![]);
}

#[test]
fn condense_merges_a_run_of_moves() {
    assert_eq!(condense(&compiled(">>>>>")), vec![CondensedOp::Right(5)]);
    assert_eq!(condense(&compiled("<<<")), vec![CondensedOp::Left(3)]);
}

#[test]
fn condense_merges_a_run_of_arithmetic() {
    assert_eq!(condense(&compiled("++++")), vec![CondensedOp::Inc(4)]);
    assert_eq!(condense(&compiled("--")), vec![CondensedOp::Dec(2)]);
}

#[test]
fn condense_counts_a_lone_instruction_as_one() {
    assert_eq!(
        condense(&compiled("+>-<")),
        vec![
            CondensedOp::Inc(1),
            CondensedOp::Right(1),
            CondensedOp::Dec(1),
            CondensedOp::Left(1),
        ]
    );
}

#[test]
fn condense_does_not_merge_opposite_moves() {
    assert_eq!(
        condense(&compiled(">><<>")),
        vec![CondensedOp::Right(2), CondensedOp::Left(2), CondensedOp::Right(1)]
    );
}

#[test]
fn condense_repeats_output_and_input() {
    assert_eq!(
        condense(&compiled("..,,,")),
        vec![
            CondensedOp::Print,
            CondensedOp::Print,
            CondensedOp::Read,
            CondensedOp::Read,
            CondensedOp::Read,
        ]
    );
}

#[test]
fn condense_renumbers_jump_targets() {
    assert_eq!(
        condense(&compiled("+++>>[-]<<")),
        vec![
            CondensedOp::Inc(3),
            CondensedOp::Right(2),
            CondensedOp::JumpIfZero(5),
            CondensedOp::Dec(1),
            CondensedOp::Jump(2),
            CondensedOp::Left(2),
        ]
    );
}

#[test]
fn condense_renumbers_jumps_of_nested_loops() {
    assert_eq!(
        condense(&compiled("++[>>[--]<<-]..")),
        vec![
            CondensedOp::Inc(2),
            CondensedOp::JumpIfZero(9),
            CondensedOp::Right(2),
            CondensedOp::JumpIfZero(6),
            CondensedOp::Dec(2),
            CondensedOp::Jump(3),
            CondensedOp::Left(2),
            CondensedOp::Dec(1),
            CondensedOp::Jump(1),
            CondensedOp::Print,
            CondensedOp::Print,
        ]
    );
}

#[test]
fn condense_keeps_a_jump_to_the_end_at_the_end() {
    assert_eq!(
        condense(&compiled("++[--]")),
        vec![
            CondensedOp::Inc(2),
            CondensedOp::JumpIfZero(4),
            CondensedOp::Dec(2),
            CondensedOp::Jump(1),
        ]
    );
}

#[test]
fn condense_sends_a_jump_past_the_end_to_the_end() {
    assert_eq!(
        condense(&[OpCode::Inc, OpCode::Inc, OpCode::Jump(99)]),
        vec![CondensedOp::Inc(2), CondensedOp::Jump(2)]
    );
}

#[test]
fn condense_sends_a_jump_into_a_run_to_that_run() {
    assert_eq!(
        condense(&[OpCode::JumpIfZero(2), OpCode::Inc, OpCode::Inc, OpCode::Print]),
        vec![CondensedOp::JumpIfZero(1), CondensedOp::Inc(2), CondensedOp::Print]
    );
}

#[test]
fn condense_does_not_merge_equal_jumps() {
    assert_eq!(
        condense(&[OpCode::Jump(2), OpCode::Jump(2), OpCode::Inc]),
        vec![CondensedOp::Jump(2), CondensedOp::Jump(2), CondensedOp::Inc(1)]
    );
}

#[test]
fn condense_keeps_the_total_of_the_counts() {
    let code = compiled("+++[>>>>-<<<<--]>>..<<<,");
    let merged: usize = condense(&code)
        .iter()
        .map(|op| match *op {
            CondensedOp::Right(n)
            | CondensedOp::Left(n)
            | CondensedOp::Inc(n)
            | CondensedOp::Dec(n) => n,
            _ => 1,
        })
        .sum();
    assert_eq!(merged, code.len());
}

#[test]
fn condense_merges_a_very_long_run() {
    let code = vec![OpCode::Inc; 1000];
    assert_eq!(condense(&code), vec![CondensedOp::Inc(1000)]);
}

#[test]
fn run_positions_number_the_runs() {
    let (positions, total) = run_positions(&compiled("+++>>[-]<<"));
    assert_eq!(positions, vec![0, 0, 0, 1, 1, 2, 3, 4, 5, 5]);
    assert_eq!(total, 6);
    let (positions, total) = run_positions(&compiled("..>"));
    assert_eq!(positions, vec![0, 1, 2]);
    assert_eq!(total, 3);
}

#[test]
fn run_positions_of_nothing() {
    let (positions, total) = run_positions(&[]);
    assert_eq!(positions, vec![]);
    assert_eq!(total, 0);
}

#[test]
fn singles_keep_every_instruction() {
    assert_eq!(
        singles(&compiled("++>[-].,<")),
        vec![
            CondensedOp::Inc(1),
            CondensedOp::Inc(1),
            CondensedOp::Right(1),
            CondensedOp::JumpIfZero(6),
            CondensedOp::Dec(1),
            CondensedOp::Jump(3),
            CondensedOp::Print,
            CondensedOp::Read,
            CondensedOp::Left(1),
        ]
    );
}

#[test]
fn singles_of_nothing_is_empty() {
    assert_eq!(singles(&[]), vec![]);
}

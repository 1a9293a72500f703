use tape_machine::tape::{dec, dec_by, inc, inc_by, Tape};

fn cell_at(tape: &Tape, offset: i64) -> u8 {
    if offset == 0 {
        tape.curr
    } else if offset < 0 {
        let k = (-offset) as usize;
        if k <= tape.left.len() {
            tape.left[tape.left.len() - k]
        } else {
            0
        }
    } else {
        let k = offset as usize;
        if k <= tape.right.len() {
            tape.right[tape.right.len() - k]
        } else {
            0
        }
    }
}

#[test]
fn inc_wraps_from_255_to_0() {
    let mut x: u8 = 255;
    inc(&mut x);
    assert_eq!(x, 0);
}

#[test]
fn dec_wraps_from_0_to_255() {
    let mut x: u8 = 0;
    dec(&mut x);
    assert_eq!(x, 255);
}

#[test]
fn inc_adds_one_below_255() {
    for v in 0..255u8 {
        let mut x = v;
        inc(&mut x);
        assert_eq!(x, v + 1);
    }
}

#[test]
fn dec_subtracts_one_above_0() {
    for v in 1..=255u8 {
        let mut x = v;
        dec(&mut x);
        assert_eq!(x, v - 1);
    }
}

#[test]
fn inc_then_dec_restores_every_value() {
    for v in 0..=255u8 {
        let mut x = v;
        inc(&mut x);
        dec(&mut x);
        assert_eq!(x, v);
        dec(&mut x);
        inc(&mut x);
        assert_eq!(x, v);
    }
}

#[test]
fn inc_by_adds_modulo_256() {
    let mut x: u8 = 250;
    inc_by(&mut x, 10);
    assert_eq!(x, 4);
    inc_by(&mut x, 0);
    assert_eq!(x, 4);
    inc_by(&mut x, 256);
    assert_eq!(x, 4);
    inc_by(&mut x, 1000);
    assert_eq!(x, 236);
    let mut y: u8 = 1;
    inc_by(&mut y, usize::MAX);
    assert_eq!(y, 0);
}

#[test]
fn dec_by_subtracts_modulo_256() {
    let mut x: u8 = 3;
    dec_by(&mut x, 10);
    assert_eq!(x, 249);
    dec_by(&mut x, 0);
    assert_eq!(x, 249);
    dec_by(&mut x, 512);
    assert_eq!(x, 249);
    dec_by(&mut x, 1000);
    assert_eq!(x, 17);
    let mut y: u8 = 0;
    dec_by(&mut y, usize::MAX);
    assert_eq!(y, 1);
}

#[test]
fn inc_by_agrees_with_repeated_inc() {
    for n in 0..600usize {
        let mut a: u8 = 77;
        let mut b: u8 = 77;
        inc_by(&mut a, n);
        for _ in 0..n {
            inc(&mut b);
        }
        assert_eq!(a, b);
        let mut c: u8 = 77;
        let mut d: u8 = 77;
        dec_by(&mut c, n);
        for _ in 0..n {
            dec(&mut d);
        }
        assert_eq!(c, d);
    }
}

#[test]
fn new_tape_is_blank() {
    let tape = Tape::new();
    for offset in -20..=20 {
        assert_eq!(cell_at(&tape, offset), 0);
    }
}

#[test]
fn move_right_shifts_the_view() {
    let mut tape = Tape::new();
    tape.curr = 5;
    tape.move_right();
    assert_eq!(tape.curr, 0);
    assert_eq!(cell_at(&tape, -1), 5);
    tape.curr = 6;
    tape.move_left();
    assert_eq!(tape.curr, 5);
    assert_eq!(cell_at(&tape, 1), 6);
}

#[test]
fn left_then_right_restores_the_cell() {
    let mut tape = Tape::new();
    tape.curr = 42;
    tape.move_left();
    tape.move_right();
    assert_eq!(tape.curr, 42);
    tape.move_right();
    tape.move_left();
    assert_eq!(tape.curr, 42);
}

#[test]
fn round_trip_restores_every_cell() {
    let mut tape = Tape::new();
    for v in 1..=30u8 {
        tape.curr = v;
        tape.move_right();
    }
    let before: Vec<u8> = (-40..=40).map(|k| cell_at(&tape, k)).collect();
    tape.move_left();
    tape.move_right();
    let after: Vec<u8> = (-40..=40).map(|k| cell_at(&tape, k)).collect();
    assert_eq!(before, after);
    tape.move_right_by(25);
    tape.move_left_by(25);
    let again: Vec<u8> = (-40..=40).map(|k| cell_at(&tape, k)).collect();
    assert_eq!(before, again);
}

#[test]
fn round_trip_past_a_write_keeps_the_cell() {
    let mut tape = Tape::new();
    tape.curr = 9;
    tape.move_left();
    tape.curr = 200;
    tape.move_right();
    assert_eq!(tape.curr, 9);
    assert_eq!(cell_at(&tape, -1), 200);
}

#[test]
fn tape_grows_past_the_cells_in_store() {
    let mut tape = Tape::new();
    tape.curr = 1;
    tape.move_left_by(100);
    assert_eq!(tape.curr, 0);
    tape.curr = 2;
    tape.move_right_by(200);
    assert_eq!(tape.curr, 0);
    tape.curr = 3;
    tape.move_left_by(100);
    assert_eq!(tape.curr, 1);
    assert_eq!(cell_at(&tape, -100), 2);
    assert_eq!(cell_at(&tape, 100), 3);
}

#[test]
fn move_by_agrees_with_repeated_moves() {
    let mut a = Tape::new();
    let mut b = Tape::new();
    a.curr = 7;
    b.curr = 7;
    a.move_right_by(13);
    for _ in 0..13 {
        b.move_right();
    }
    a.curr = 8;
    b.curr = 8;
    a.move_left_by(20);
    for _ in 0..20 {
        b.move_left();
    }
    for offset in -40..=40 {
        assert_eq!(cell_at(&a, offset), cell_at(&b, offset));
    }
    assert_eq!(cell_at(&a, 7), 7);
    assert_eq!(cell_at(&a, 20), 8);
}

#[test]
fn move_by_zero_changes_nothing() {
    let mut tape = Tape::new();
    tape.curr = 11;
    tape.move_left_by(0);
    tape.move_right_by(0);
    assert_eq!(tape.curr, 11);
}

#[test]
fn new_tape_has_eight_cells_in_store_on_either_side() {
    let tape = Tape::new();
    assert_eq!(tape.left, vec![0; 8]);
    assert_eq!(tape.curr, 0);
    assert_eq!(tape.right, vec![0; 8]);
}

#[test]
fn move_left_pushes_right_and_pops_left() {
    let mut tape = Tape { left: vec![1, 2], curr: 3, right: vec![4] };
    tape.move_left();
    assert_eq!(tape.left, vec![1]);
    assert_eq!(tape.curr, 2);
    assert_eq!(tape.right, vec![4, 3]);
}

#[test]
fn move_right_pushes_left_and_pops_right() {
    let mut tape = Tape { left: vec![1, 2], curr: 3, right: vec![5, 4] };
    tape.move_right();
    assert_eq!(tape.left, vec![1, 2, 3]);
    assert_eq!(tape.curr, 4);
    assert_eq!(tape.right, vec![5]);
}

#[test]
fn move_off_an_empty_history_makes_a_zero_cell() {
    let mut tape = Tape { left: vec![], curr: 7, right: vec![] };
    tape.move_left();
    assert_eq!(tape.left, vec![]);
    assert_eq!(tape.curr, 0);
    assert_eq!(tape.right, vec![7]);
    tape.move_right();
    tape.move_right();
    assert_eq!(tape.left, vec![0, 7]);
    assert_eq!(tape.curr, 0);
    assert_eq!(tape.right, vec![]);
}

#[test]
fn move_by_is_stored_as_repeated_moves_are() {
    let mut a = Tape { left: vec![1, 2], curr: 3, right: vec![4] };
    let mut b = Tape { left: vec![1, 2], curr: 3, right: vec![4] };
    a.move_left_by(5);
    for _ in 0..5 {
        b.move_left();
    }
    assert_eq!(a.left, b.left);
    assert_eq!(a.curr, b.curr);
    assert_eq!(a.right, b.right);
    assert_eq!(a.right, vec![4, 3, 2, 1, 0, 0]);
    a.move_right_by(7);
    for _ in 0..7 {
        b.move_right();
    }
    assert_eq!(a.left, b.left);
    assert_eq!(a.curr, b.curr);
    assert_eq!(a.right, b.right);
    assert_eq!(a.left, vec![0, 0, 0, 1, 2, 3, 4]);
    assert_eq!(a.curr, 0);
}

//! The tape: a byte store that is unbounded in both directions, with one active cell.

use vstd::arithmetic::div_mod::{
    lemma_add_mod_noop_right,
    lemma_mod_add_multiples_vanish,
    lemma_mod_bound,
    lemma_small_mod,
    lemma_sub_mod_noop_right,
};
use vstd::prelude::*;

verus! {

/// What the tape holds, as seen from the active cell: the byte at every signed offset.
pub type Cells = spec_fn(int) -> u8;

/// The cells of `t` as seen after the head has moved `n` places to the right.
pub open spec fn shifted(t: Cells, n: int) -> Cells {
    |k: int| t(k + n)
}

/// The cells of `t` with the active cell overwritten by `v`.
pub open spec fn written(t: Cells, v: u8) -> Cells {
    |k: int| if k == 0 { v } else { t(k) }
}

/// The tape on which every cell is zero.
pub open spec fn blank() -> Cells {
    |k: int| 0u8
}

/// The value of a cell that held `v` after `n` is added to it, modulo 256.
pub open spec fn raised(v: u8, n: int) -> u8 {
    ((v + n) % 256) as u8
}

/// The value of a cell that held `v` after `n` is subtracted from it, modulo 256.
pub open spec fn lowered(v: u8, n: int) -> u8 {
    ((v - n) % 256) as u8
}

/// The remainder of a sum is the remainder of what is left when one summand
/// is replaced by its remainder.
proof fn lemma_wrap(x: int, y: int)
    ensures
        0 <= x % 256 < 256,
        ((x % 256) + y) % 256 == (x + y) % 256,
{
    lemma_mod_bound(x, 256);
    lemma_add_mod_noop_right(y, x, 256);
    assert((x % 256) + y == y + (x % 256));
    assert(x + y == y + x);
}

/// Adding to a cell in two goes is adding the sum, and so for subtracting.
pub proof fn lemma_arithmetic_adds_up(v: u8, a: int, b: int)
    ensures
        raised(raised(v, a), b) == raised(v, a + b),
        lowered(lowered(v, a), b) == lowered(v, a + b),
{
    assert(raised(raised(v, a), b) == raised(v, a + b)) by {
        lemma_wrap(v + a, b);
        lemma_mod_bound(v + a + b, 256);
        assert(v + (a + b) == v + a + b);
    }
    assert(lowered(lowered(v, a), b) == lowered(v, a + b)) by {
        lemma_wrap(v - a, -b);
        lemma_mod_bound(v - a - b, 256);
        assert((v - a) % 256 - b == (v - a) % 256 + (-b));
        assert(v - (a + b) == v - a + (-b));
    }
}

/// Only the count modulo 256 matters to a cell, and subtracting is adding what
/// is missing to 256.
pub proof fn lemma_arithmetic_wraps(v: u8, n: int)
    ensures
        raised(v, n % 256) == raised(v, n),
        lowered(v, n % 256) == lowered(v, n),
        lowered(v, n) == raised(v, 256 - n % 256),
{
    assert((v + n % 256) % 256 == (v + n) % 256) by {
        lemma_add_mod_noop_right(v as int, n, 256);
    }
    assert((v - n % 256) % 256 == (v - n) % 256) by {
        lemma_sub_mod_noop_right(v as int, n, 256);
    }
    assert((v + (256 - n % 256)) % 256 == (v - n % 256) % 256) by {
        lemma_mod_add_multiples_vanish(v - n % 256, 256);
        assert(v + (256 - n % 256) == 256 + (v - n % 256));
    }
}

/// Subtracting what was added, or adding what was subtracted, gives the cell
/// its value back.
pub proof fn lemma_arithmetic_undone(v: u8, n: int)
    ensures
        lowered(raised(v, n), n) == v,
        raised(lowered(v, n), n) == v,
{
    lemma_small_mod(v as nat, 256);
    assert(lowered(raised(v, n), n) == v) by {
        lemma_wrap(v + n, -n);
        assert((v + n) % 256 - n == (v + n) % 256 + (-n));
        assert(v + n + (-n) == v);
    }
    assert(raised(lowered(v, n), n) == v) by {
        lemma_wrap(v - n, n);
        assert(v - n + n == v);
    }
}

/// Moving by `a` and then by `b` is moving by `a + b`.
pub proof fn lemma_shifts_add_up(t: Cells, a: int, b: int)
    ensures
        shifted(shifted(t, a), b) == shifted(t, a + b),
{
    assert(shifted(shifted(t, a), b) =~= shifted(t, a + b));
}

/// Moving any distance and then the same distance back restores every cell of
/// the tape, the active one among them.
pub proof fn lemma_round_trip(t: Cells, n: int)
    ensures
        shifted(shifted(t, n), -n) == t,
        shifted(shifted(t, -n), n) == t,
{
    assert(shifted(shifted(t, n), -n) =~= t);
    assert(shifted(shifted(t, -n), n) =~= t);
}

/// A write to another cell in between does not disturb the cell that the head
/// comes back to: after moving by `n`, writing `v` and moving back, the tape
/// differs from what it was in the cell at offset `n` alone.
pub proof fn lemma_round_trip_with_write(t: Cells, n: int, v: u8)
    ensures
        forall|k: int|
            (#[trigger] shifted(written(shifted(t, n), v), -n)(k)) == if k == n {
                v
            } else {
                t(k)
            },
{
}

/// Adds one to a cell, wrapping from 255 to 0.
pub fn inc(x: &mut u8)
    ensures
        *final(x) == raised(*old(x), 1),
        *old(x) == 255 ==> *final(x) == 0,
        *old(x) < 255 ==> *final(x) == *old(x) + 1,
{
    if *x == 255 {
        *x = 0;
    } else {
        *x += 1;
    }
}

/// Subtracts one from a cell, wrapping from 0 to 255.
pub fn dec(x: &mut u8)
    ensures
        *final(x) == lowered(*old(x), 1),
        *old(x) == 0 ==> *final(x) == 255,
        *old(x) > 0 ==> *final(x) == *old(x) - 1,
{
    if *x == 0 {
        *x = 255;
    } else {
        *x -= 1;
    }
}

/// Adds `n` to a cell, modulo 256.
pub fn inc_by(x: &mut u8, n: usize)
    ensures
        *final(x) == raised(*old(x), n as int),
{
    let sum: usize = *x as usize + n % 256;
    proof {
        lemma_arithmetic_wraps(*x, n as int);
        assert(sum % 256 == raised(*x, (n % 256) as int));
    }
    *x = (sum % 256) as u8;
}

/// Subtracts `n` from a cell, modulo 256.
pub fn dec_by(x: &mut u8, n: usize)
    ensures
        *final(x) == lowered(*old(x), n as int),
{
    let sum: usize = *x as usize + (256 - n % 256);
    proof {
        lemma_arithmetic_wraps(*x, n as int);
        assert(sum % 256 == raised(*x, 256 - n % 256));
    }
    *x = (sum % 256) as u8;
}

/// The tape as it is stored: the cells to the left of the head, nearest last;
/// the active cell; the cells to the right of the head, nearest last. Cells
/// that were never visited are not stored and hold zero.
pub struct Tape {
    pub left: Vec<u8>,
    pub curr: u8,
    pub right: Vec<u8>,
}

/// What a tape has in store: its two histories and the active cell.
#[verifier::ext_equal]
pub struct Stored {
    pub left: Seq<u8>,
    pub curr: u8,
    pub right: Seq<u8>,
}

/// The cells that a stored tape stands for: the byte at each offset from the
/// head, negative offsets to the left, positive ones to the right, zero where
/// nothing is stored.
pub open spec fn cells_of(s: Stored) -> Cells {
    |k: int|
        if k == 0 {
            s.curr
        } else if k < 0 {
            if -k <= s.left.len() {
                s.left[s.left.len() + k]
            } else {
                0u8
            }
        } else {
            if k <= s.right.len() {
                s.right[s.right.len() - k]
            } else {
                0u8
            }
        }
}

/// What a new tape has in store: eight zero cells on either side of a zero
/// cell.
pub open spec fn fresh() -> Stored {
    Stored { left: Seq::new(8, |i: int| 0u8), curr: 0, right: Seq::new(8, |i: int| 0u8) }
}

/// A new tape is blank.
pub proof fn lemma_fresh_is_blank()
    ensures
        cells_of(fresh()) == blank(),
{
    assert(cells_of(fresh()) =~= blank());
}

/// The store after one move to the left: the active cell goes onto the right
/// history, and the last cell of the left history, or a fresh zero where that
/// history is empty, becomes active.
pub open spec fn stepped_left(s: Stored) -> Stored {
    Stored {
        left: if s.left.len() > 0 {
            s.left.drop_last()
        } else {
            s.left
        },
        curr: if s.left.len() > 0 {
            s.left.last()
        } else {
            0
        },
        right: s.right.push(s.curr),
    }
}

/// The store after one move to the right: the mirror image of a move to the
/// left.
pub open spec fn stepped_right(s: Stored) -> Stored {
    Stored {
        left: s.left.push(s.curr),
        curr: if s.right.len() > 0 {
            s.right.last()
        } else {
            0
        },
        right: if s.right.len() > 0 {
            s.right.drop_last()
        } else {
            s.right
        },
    }
}

/// The store after `n` moves to the left.
pub open spec fn stepped_left_by(s: Stored, n: nat) -> Stored
    decreases n,
{
    if n == 0 {
        s
    } else {
        stepped_left(stepped_left_by(s, (n - 1) as nat))
    }
}

/// The store after `n` moves to the right.
pub open spec fn stepped_right_by(s: Stored, n: nat) -> Stored
    decreases n,
{
    if n == 0 {
        s
    } else {
        stepped_right(stepped_right_by(s, (n - 1) as nat))
    }
}

/// Moves to one side add up.
pub proof fn lemma_steps_add_up(s: Stored, a: nat, b: nat)
    ensures
        stepped_left_by(stepped_left_by(s, a), b) == stepped_left_by(s, a + b),
        stepped_right_by(stepped_right_by(s, a), b) == stepped_right_by(s, a + b),
    decreases b,
{
    if b > 0 {
        lemma_steps_add_up(s, a, (b - 1) as nat);
    }
}

/// A move of the store moves the cells by one place.
pub proof fn lemma_step_shifts(s: Stored)
    ensures
        cells_of(stepped_left(s)) == shifted(cells_of(s), -1),
        cells_of(stepped_right(s)) == shifted(cells_of(s), 1),
{
    assert(cells_of(stepped_left(s)) =~= shifted(cells_of(s), -1));
    assert(cells_of(stepped_right(s)) =~= shifted(cells_of(s), 1));
}

/// `n` moves of the store move the cells by `n` places.
pub proof fn lemma_steps_shift(s: Stored, n: nat)
    ensures
        cells_of(stepped_left_by(s, n)) == shifted(cells_of(s), -(n as int)),
        cells_of(stepped_right_by(s, n)) == shifted(cells_of(s), n as int),
    decreases n,
{
    if n == 0 {
        assert(cells_of(s) =~= shifted(cells_of(s), 0));
    } else {
        lemma_steps_shift(s, (n - 1) as nat);
        lemma_step_shifts(stepped_left_by(s, (n - 1) as nat));
        lemma_step_shifts(stepped_right_by(s, (n - 1) as nat));
        lemma_shifts_add_up(cells_of(s), -(n - 1), -1);
        lemma_shifts_add_up(cells_of(s), n - 1, 1);
    }
}

/// Moving left and then right, or right and then left, brings the head back to
/// a tape on which every cell holds what it held before, the revisited cell
/// among them. Only what is in store may have grown by a zero cell.
pub proof fn lemma_stored_round_trip(s: Stored)
    ensures
        cells_of(stepped_right(stepped_left(s))) == cells_of(s),
        cells_of(stepped_left(stepped_right(s))) == cells_of(s),
        stepped_right(stepped_left(s)).curr == s.curr,
        stepped_left(stepped_right(s)).curr == s.curr,
{
    lemma_step_shifts(s);
    lemma_step_shifts(stepped_left(s));
    lemma_step_shifts(stepped_right(s));
    lemma_round_trip(cells_of(s), 1);
}

impl View for Tape {
    type V = Cells;

    /// The byte at each offset from the head.
    open spec fn view(&self) -> Cells {
        cells_of(self.stored())
    }
}

impl Tape {
    /// What the tape has in store.
    pub open spec fn stored(&self) -> Stored {
        Stored { left: self.left@, curr: self.curr, right: self.right@ }
    }

    /// A blank tape, with eight cells on either side of the head in store.
    pub fn new() -> (tape: Tape)
        ensures
            tape.stored() == fresh(),
            tape@ == blank(),
    {
        let tape = Tape {
            left: vec![0, 0, 0, 0, 0, 0, 0, 0],
            curr: 0,
            right: vec![0, 0, 0, 0, 0, 0, 0, 0],
        };
        proof {
            assert(tape.stored() =~= fresh());
            lemma_fresh_is_blank();
        }
        tape
    }

    /// Moves the head one cell to the left.
    pub fn move_left(&mut self)
        ensures
            final(self).stored() == stepped_left(old(self).stored()),
            final(self)@ == shifted(old(self)@, -1),
    {
        self.right.push(self.curr);
        match self.left.pop() {
            Some(c) => self.curr = c,
            None => self.curr = 0,
        }
        proof {
            assert(self.stored() =~= stepped_left(old(self).stored()));
            lemma_step_shifts(old(self).stored());
        }
    }

    /// Moves the head one cell to the right.
    pub fn move_right(&mut self)
        ensures
            final(self).stored() == stepped_right(old(self).stored()),
            final(self)@ == shifted(old(self)@, 1),
    {
        self.left.push(self.curr);
        match self.right.pop() {
            Some(c) => self.curr = c,
            None => self.curr = 0,
        }
        proof {
            assert(self.stored() =~= stepped_right(old(self).stored()));
            lemma_step_shifts(old(self).stored());
        }
    }

    /// Moves the head `n` cells to the left, one step at a time.
    pub fn move_left_by(&mut self, n: usize)
        ensures
            final(self).stored() == stepped_left_by(old(self).stored(), n as nat),
            final(self)@ == shifted(old(self)@, -(n as int)),
    {
        let mut done: usize = 0;
        while done < n
            invariant
                0 <= done <= n,
                self.stored() == stepped_left_by(old(self).stored(), done as nat),
            decreases n - done,
        {
            self.move_left();
            done += 1;
        }
        proof {
            lemma_steps_shift(old(self).stored(), n as nat);
        }
    }

    /// Moves the head `n` cells to the right, one step at a time.
    pub fn move_right_by(&mut self, n: usize)
        ensures
            final(self).stored() == stepped_right_by(old(self).stored(), n as nat),
            final(self)@ == shifted(old(self)@, n as int),
    {
        let mut done: usize = 0;
        while done < n
            invariant
                0 <= done <= n,
                self.stored() == stepped_right_by(old(self).stored(), done as nat),
            decreases n - done,
        {
            self.move_right();
            done += 1;
        }
        proof {
            lemma_steps_shift(old(self).stored(), n as nat);
        }
    }
}

} // verus!

//! The geometry of the 8x8 board: coordinates, the eight directions, and
//! straight walks over discs.
//!
//! Square `8 * y + x` lies in column `x` of row `y`. Directions are numbered
//! `0..8`; direction `d` moves by `(dx(d), dy(d))`, and `opposite(d)` moves
//! back.

use crate::bits::{has_bit, lemma_bit_ops};
use vstd::prelude::*;

verus! {

/// Every square but those of the last column.
pub const NOT_LAST_COLUMN: u64 = 0x7f7f_7f7f_7f7f_7f7f;

/// Every square but those of the first column.
pub const NOT_FIRST_COLUMN: u64 = 0xfefe_fefe_fefe_fefe;

/// Whether column `x` and row `y` name a square of the board.
pub open spec fn on_board(x: int, y: int) -> bool {
    0 <= x < 8 && 0 <= y < 8
}

/// The number of the square in column `x` of row `y`.
pub open spec fn square(x: int, y: int) -> int {
    8 * y + x
}

/// The column of square `sq`.
pub open spec fn col(sq: int) -> int {
    sq % 8
}

/// The row of square `sq`.
pub open spec fn row(sq: int) -> int {
    sq / 8
}

/// Whether `(x, y)` is a square of the board that `set` holds.
pub open spec fn disc(set: u64, x: int, y: int) -> bool {
    on_board(x, y) && has_bit(set, square(x, y))
}

/// The column step of direction `d`.
pub open spec fn dx(d: int) -> int {
    if d == 0 || d == 4 || d == 7 {
        1
    } else if d == 1 || d == 5 || d == 6 {
        -1
    } else {
        0
    }
}

/// The row step of direction `d`.
pub open spec fn dy(d: int) -> int {
    if d == 2 || d == 4 || d == 6 {
        1
    } else if d == 3 || d == 5 || d == 7 {
        -1
    } else {
        0
    }
}

/// The direction that undoes `d`.
pub open spec fn opposite(d: int) -> int {
    if d % 2 == 0 {
        d + 1
    } else {
        d - 1
    }
}

/// One of the four lines through a square: along a row neighbouring squares
/// are one bit apart, along a column eight, along a diagonal nine and along
/// an antidiagonal seven.
#[derive(Debug, Clone, Copy, PartialEq, Eq, Structural)]
pub enum Axis {
    Row,
    Column,
    Diagonal,
    AntiDiagonal,
}

impl Axis {
    /// The direction along the axis in which the squares' numbers grow.
    pub open spec fn ahead(self) -> int {
        match self {
            Axis::Row => 0,
            Axis::Column => 2,
            Axis::Diagonal => 4,
            Axis::AntiDiagonal => 6,
        }
    }

    /// The direction along the axis in which the squares' numbers fall.
    pub open spec fn back(self) -> int {
        self.ahead() + 1
    }
}

/// Every member of `set` moved one step in direction `d`; a member whose
/// step would leave the board is dropped.
pub open spec fn shift_dir(set: u64, d: int) -> u64 {
    if d == 0 {
        (set & NOT_LAST_COLUMN) << 1u64
    } else if d == 1 {
        (set & NOT_FIRST_COLUMN) >> 1u64
    } else if d == 2 {
        set << 8u64
    } else if d == 3 {
        set >> 8u64
    } else if d == 4 {
        (set & NOT_LAST_COLUMN) << 9u64
    } else if d == 5 {
        (set & NOT_FIRST_COLUMN) >> 9u64
    } else if d == 6 {
        (set & NOT_FIRST_COLUMN) << 7u64
    } else {
        (set & NOT_LAST_COLUMN) >> 7u64
    }
}

/// The squares whose neighbour in direction `d` is a member of `set`.
pub open spec fn pull(set: u64, d: int) -> u64 {
    shift_dir(set, opposite(d))
}

/// A square is in `shift_dir(set, d)` exactly if the square one step back
/// from it is on the board and in `set`.
pub proof fn lemma_shift_dir(set: u64, d: int, x: int, y: int)
    requires
        0 <= d < 8,
        on_board(x, y),
    ensures
        has_bit(shift_dir(set, d), square(x, y)) == disc(set, x - dx(d), y - dy(d)),
{
    let t = square(x, y) as u64;
    let s = shift_dir(set, d);
    assert(t % 8 == x && t / 8 == y);
    if d == 0 {
        assert(((s >> t) & 1 == 1) == (t % 8 != 0 && (set >> ((t - 1) as u64)) & 1 == 1))
            by (bit_vector)
            requires
                t < 64,
                s == (set & 0x7f7f_7f7f_7f7f_7f7fu64) << 1u64,
        ;
    } else if d == 1 {
        assert(((s >> t) & 1 == 1) == (t % 8 != 7 && (set >> ((t + 1) as u64)) & 1 == 1))
            by (bit_vector)
            requires
                t < 64,
                s == (set & 0xfefe_fefe_fefe_fefeu64) >> 1u64,
        ;
    } else if d == 2 {
        assert(((s >> t) & 1 == 1) == (t >= 8 && (set >> ((t - 8) as u64)) & 1 == 1))
            by (bit_vector)
            requires
                t < 64,
                s == set << 8u64,
        ;
    } else if d == 3 {
        assert(((s >> t) & 1 == 1) == (t < 56 && (set >> ((t + 8) as u64)) & 1 == 1))
            by (bit_vector)
            requires
                t < 64,
                s == set >> 8u64,
        ;
    } else if d == 4 {
        assert(((s >> t) & 1 == 1) == (t >= 8 && t % 8 != 0 && (set >> ((t - 9) as u64)) & 1 == 1))
            by (bit_vector)
            requires
                t < 64,
                s == (set & 0x7f7f_7f7f_7f7f_7f7fu64) << 9u64,
        ;
    } else if d == 5 {
        assert(((s >> t) & 1 == 1) == (t < 56 && t % 8 != 7 && (set >> ((t + 9) as u64)) & 1 == 1))
            by (bit_vector)
            requires
                t < 64,
                s == (set & 0xfefe_fefe_fefe_fefeu64) >> 9u64,
        ;
    } else if d == 6 {
        assert(((s >> t) & 1 == 1) == (t >= 8 && t % 8 != 7 && (set >> ((t - 7) as u64)) & 1 == 1))
            by (bit_vector)
            requires
                t < 64,
                s == (set & 0xfefe_fefe_fefe_fefeu64) << 7u64,
        ;
    } else {
        assert(((s >> t) & 1 == 1) == (t < 56 && t % 8 != 0 && (set >> ((t + 7) as u64)) & 1 == 1))
            by (bit_vector)
            requires
                t < 64,
                s == (set & 0x7f7f_7f7f_7f7f_7f7fu64) >> 7u64,
        ;
    }
}

/// A square is in `pull(set, d)` exactly if its neighbour in direction `d` is
/// on the board and in `set`.
pub proof fn lemma_pull(set: u64, d: int, x: int, y: int)
    requires
        0 <= d < 8,
        on_board(x, y),
    ensures
        has_bit(pull(set, d), square(x, y)) == disc(set, x + dx(d), y + dy(d)),
{
    lemma_shift_dir(set, opposite(d), x, y);
}

/// Whether a walk that starts on `(x, y)` and goes in direction `d` stands on
/// `k` squares of `through` in a row, the first of them `(x, y)` itself, and
/// then on a square of `target`.
pub open spec fn ray(target: u64, through: u64, x: int, y: int, d: int, k: nat) -> bool
    decreases k,
{
    if k == 0 {
        disc(target, x, y)
    } else {
        disc(through, x, y) && ray(target, through, x + dx(d), y + dy(d), d, (k - 1) as nat)
    }
}

/// How many steps in direction `d` a walk from `(x, y)` can take before it
/// leaves the board.
pub open spec fn room(x: int, y: int, d: int) -> int {
    let rx = if dx(d) > 0 {
        7 - x
    } else if dx(d) < 0 {
        x
    } else {
        7
    };
    let ry = if dy(d) > 0 {
        7 - y
    } else if dy(d) < 0 {
        y
    } else {
        7
    };
    if rx < ry {
        rx
    } else {
        ry
    }
}

/// A walk stays on the board: it starts there and is no longer than the room
/// in its direction.
pub proof fn lemma_ray_room(target: u64, through: u64, x: int, y: int, d: int, k: nat)
    requires
        0 <= d < 8,
        ray(target, through, x, y, d, k),
    ensures
        on_board(x, y),
        k <= room(x, y, d),
    decreases k,
{
    if k > 0 {
        lemma_ray_room(target, through, x + dx(d), y + dy(d), d, (k - 1) as nat);
    }
}

/// The squares from which `ray(target, through, .., d, k)` holds, as a word.
pub open spec fn trail(target: u64, through: u64, d: int, k: nat) -> u64
    decreases k,
{
    if k == 0 {
        target
    } else {
        pull(trail(target, through, d, (k - 1) as nat), d) & through
    }
}

/// `trail` holds the squares that `ray` describes.
pub proof fn lemma_trail(target: u64, through: u64, d: int, k: nat, x: int, y: int)
    requires
        0 <= d < 8,
        on_board(x, y),
    ensures
        has_bit(trail(target, through, d, k), square(x, y)) == ray(target, through, x, y, d, k),
    decreases k,
{
    if k > 0 {
        let prev = trail(target, through, d, (k - 1) as nat);
        lemma_bit_ops(pull(prev, d), through, square(x, y));
        lemma_pull(prev, d, x, y);
        if on_board(x + dx(d), y + dy(d)) {
            lemma_trail(target, through, d, (k - 1) as nat, x + dx(d), y + dy(d));
        } else if ray(target, through, x + dx(d), y + dy(d), d, (k - 1) as nat) {
            lemma_ray_room(target, through, x + dx(d), y + dy(d), d, (k - 1) as nat);
        }
    }
}

/// The squares of `through` from which a walk in direction `d` over one to
/// six squares of `through` ends on a square of `target`.
pub open spec fn runs(target: u64, through: u64, d: int) -> u64 {
    let t1 = pull(target, d) & through;
    let t2 = pull(t1, d) & through;
    let t3 = pull(t2, d) & through;
    let t4 = pull(t3, d) & through;
    let t5 = pull(t4, d) & through;
    let t6 = pull(t5, d) & through;
    t1 | t2 | t3 | t4 | t5 | t6
}

/// `runs` holds the squares from which a walk of one to six squares exists.
pub proof fn lemma_runs(target: u64, through: u64, d: int, x: int, y: int)
    requires
        0 <= d < 8,
        on_board(x, y),
    ensures
        has_bit(runs(target, through, d), square(x, y)) == (exists|k: nat|
            1 <= k <= 6 && #[trigger] ray(target, through, x, y, d, k)),
{
    let sq = square(x, y);
    let t1 = trail(target, through, d, 1);
    let t2 = trail(target, through, d, 2);
    let t3 = trail(target, through, d, 3);
    let t4 = trail(target, through, d, 4);
    let t5 = trail(target, through, d, 5);
    let t6 = trail(target, through, d, 6);
    assert(runs(target, through, d) == t1 | t2 | t3 | t4 | t5 | t6) by {
        reveal_with_fuel(trail, 7);
    }
    lemma_trail(target, through, d, 1, x, y);
    lemma_trail(target, through, d, 2, x, y);
    lemma_trail(target, through, d, 3, x, y);
    lemma_trail(target, through, d, 4, x, y);
    lemma_trail(target, through, d, 5, x, y);
    lemma_trail(target, through, d, 6, x, y);
    lemma_bit_ops(t1, t2, sq);
    lemma_bit_ops(t1 | t2, t3, sq);
    lemma_bit_ops(t1 | t2 | t3, t4, sq);
    lemma_bit_ops(t1 | t2 | t3 | t4, t5, sq);
    lemma_bit_ops(t1 | t2 | t3 | t4 | t5, t6, sq);
}

} // verus!

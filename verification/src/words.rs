//! The rules as expressions over whole words: for each direction the set of
//! squares that outflank and the set of discs that are outflanked, built from
//! shifts, and the proofs that these sets hold what the rules say square by
//! square.

use crate::bits::{bit, has_bit, lemma_bit_ops, lemma_mask_of_unique, lemma_union8};
use crate::position::{adjacent, neighbours, Position};
use crate::squares::{
    col, disc, dx, dy, lemma_pull, lemma_ray_room, lemma_runs, on_board, opposite, pull, ray,
    room, row, runs, shift_dir, square, Axis,
};
use vstd::prelude::*;

verus! {

/// The squares that outflank in direction `d`, vacant or not: those whose
/// neighbour in direction `d` starts a run of opponent discs that a disc of
/// the mover ends.
pub open spec fn reach_word(mover: u64, opponent: u64, d: int) -> u64 {
    pull(runs(mover, opponent, d), d)
}

/// The discs outflanked in direction `d` by a disc on the square that
/// `placed` holds: the opponent discs from which a walk in direction `d`
/// reaches a disc of the mover and a walk back reaches that square.
pub open spec fn capture_word(mover: u64, opponent: u64, placed: u64, d: int) -> u64 {
    runs(mover, opponent, d) & runs(placed, opponent, opposite(d))
}

impl Position {
    /// What `reach_word` holds.
    pub proof fn lemma_reach_word(self, sq: int, d: int)
        requires
            0 <= sq < 64,
            0 <= d < 8,
        ensures
            has_bit(reach_word(self.mover, self.opponent, d), sq) == self.outflanks_toward(sq, d),
    {
        let x = col(sq);
        let y = row(sq);
        let nx = x + dx(d);
        let ny = y + dy(d);
        let r = runs(self.mover, self.opponent, d);
        assert(square(x, y) == sq);
        lemma_pull(r, d, x, y);
        if on_board(nx, ny) {
            lemma_runs(self.mover, self.opponent, d, nx, ny);
        }
        if has_bit(reach_word(self.mover, self.opponent, d), sq) {
            let k = choose|k: nat|
                1 <= k <= 6 && #[trigger] ray(self.mover, self.opponent, nx, ny, d, k);
            assert(self.outflanks(sq, d, k));
        }
        if self.outflanks_toward(sq, d) {
            let k = choose|k: nat| #[trigger] self.outflanks(sq, d, k);
            lemma_ray_room(self.mover, self.opponent, nx, ny, d, k);
            assert(room(nx, ny, d) <= 6);
            assert(ray(self.mover, self.opponent, nx, ny, d, k));
        }
    }

    /// What `capture_word` holds.
    pub proof fn lemma_capture_word(self, sq: int, t: int, d: int)
        requires
            0 <= t < 64,
            0 <= d < 8,
        ensures
            has_bit(capture_word(self.mover, self.opponent, bit(sq), d), t)
                == self.captured_toward(sq, t, d),
    {
        let m = self.mover;
        let o = self.opponent;
        let b = bit(sq);
        let e = opposite(d);
        let x = col(t);
        let y = row(t);
        assert(square(x, y) == t);
        lemma_bit_ops(runs(m, o, d), runs(b, o, e), t);
        lemma_runs(m, o, d, x, y);
        lemma_runs(b, o, e, x, y);
        if has_bit(capture_word(m, o, b, d), t) {
            let j = choose|j: nat| 1 <= j <= 6 && #[trigger] ray(m, o, x, y, d, j);
            let i = choose|i: nat| 1 <= i <= 6 && #[trigger] ray(b, o, x, y, e, i);
            assert(self.between(sq, t, d, i, j));
        }
        if self.captured_toward(sq, t, d) {
            let (i, j) = choose|i: nat, j: nat| #[trigger] self.between(sq, t, d, i, j);
            lemma_ray_room(m, o, x, y, d, j);
            lemma_ray_room(b, o, x, y, e, i);
            assert(room(x, y, d) + room(x, y, e) <= 7);
            assert(ray(m, o, x, y, d, j));
            assert(ray(b, o, x, y, e, i));
        }
    }

    /// The legal squares along an axis, as a word.
    pub proof fn lemma_legal_along(self, axis: Axis)
        ensures
            self.legal_along(axis) == (reach_word(self.mover, self.opponent, axis.ahead())
                | reach_word(self.mover, self.opponent, axis.back())) & !self.occupied(),
    {
        let ahead = reach_word(self.mover, self.opponent, axis.ahead());
        let back = reach_word(self.mover, self.opponent, axis.back());
        let word = (ahead | back) & !self.occupied();
        let pred = |sq: int|
            self.vacant(sq) && (self.outflanks_toward(sq, axis.ahead()) || self.outflanks_toward(
                sq,
                axis.back(),
            ));
        assert forall|sq: int| 0 <= sq < 64 implies has_bit(word, sq) == pred(sq) by {
            lemma_bit_ops(ahead | back, !self.occupied(), sq);
            lemma_bit_ops(self.occupied(), 0, sq);
            lemma_bit_ops(ahead, back, sq);
            self.lemma_reach_word(sq, axis.ahead());
            self.lemma_reach_word(sq, axis.back());
        }
        lemma_mask_of_unique(pred, word);
    }

    /// The discs captured along an axis, as a word.
    pub proof fn lemma_captures_along(self, sq: int, axis: Axis)
        ensures
            self.captures_along(sq, axis) == capture_word(
                self.mover,
                self.opponent,
                bit(sq),
                axis.ahead(),
            ) | capture_word(self.mover, self.opponent, bit(sq), axis.back()),
    {
        let ahead = capture_word(self.mover, self.opponent, bit(sq), axis.ahead());
        let back = capture_word(self.mover, self.opponent, bit(sq), axis.back());
        let pred = |t: int|
            self.captured_toward(sq, t, axis.ahead()) || self.captured_toward(sq, t, axis.back());
        assert forall|t: int| 0 <= t < 64 implies has_bit(ahead | back, t) == pred(t) by {
            lemma_bit_ops(ahead, back, t);
            self.lemma_capture_word(sq, t, axis.ahead());
            self.lemma_capture_word(sq, t, axis.back());
        }
        lemma_mask_of_unique(pred, ahead | back);
    }
}

/// `neighbours` as a word expression over the eight directions.
pub open spec fn neighbours_word(side: u64) -> u64 {
    shift_dir(side, 0) | shift_dir(side, 1) | shift_dir(side, 4) | shift_dir(side, 5) | shift_dir(
        side,
        6,
    ) | shift_dir(side, 7) | shift_dir(side, 2) | shift_dir(side, 3)
}

/// `neighbours_word` holds the squares next to a member of `side`.
pub proof fn lemma_neighbours_word(side: u64)
    ensures
        neighbours(side) == neighbours_word(side),
{
    let pred = |sq: int| adjacent(side, sq);
    assert forall|sq: int| 0 <= sq < 64 implies has_bit(neighbours_word(side), sq) == pred(sq) by {
        let x = col(sq);
        let y = row(sq);
        assert(square(x, y) == sq);
        lemma_union8(
            shift_dir(side, 0),
            shift_dir(side, 1),
            shift_dir(side, 4),
            shift_dir(side, 5),
            shift_dir(side, 6),
            shift_dir(side, 7),
            shift_dir(side, 2),
            shift_dir(side, 3),
            sq,
        );
        lemma_pull(side, 0, x, y);
        lemma_pull(side, 1, x, y);
        lemma_pull(side, 2, x, y);
        lemma_pull(side, 3, x, y);
        lemma_pull(side, 4, x, y);
        lemma_pull(side, 5, x, y);
        lemma_pull(side, 6, x, y);
        lemma_pull(side, 7, x, y);
        if adjacent(side, sq) {
            let d = choose|d: int|
                0 <= d < 8 && #[trigger] disc(side, col(sq) + dx(d), row(sq) + dy(d));
            assert(d == 0 || d == 1 || d == 2 || d == 3 || d == 4 || d == 5 || d == 6 || d == 7);
        }
        if has_bit(neighbours_word(side), sq) {
            assert(disc(side, x + dx(0), y + dy(0)) || disc(side, x + dx(1), y + dy(1)) || disc(
                side,
                x + dx(2),
                y + dy(2),
            ) || disc(side, x + dx(3), y + dy(3)) || disc(side, x + dx(4), y + dy(4)) || disc(
                side,
                x + dx(5),
                y + dy(5),
            ) || disc(side, x + dx(6), y + dy(6)) || disc(side, x + dx(7), y + dy(7)));
        }
    }
    lemma_mask_of_unique(pred, neighbours_word(side));
}

} // verus!

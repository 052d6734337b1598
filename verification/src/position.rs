//! The rules of the game, stated over a mathematical position: which squares
//! are legal, which discs a move captures, what position follows, when a game
//! is over, and the static scores.

use crate::bits::{bit, has_bit, mask_of, popcount};
use crate::squares::{col, disc, dx, dy, opposite, ray, row, Axis};
use vstd::prelude::*;

verus! {

/// The four corner squares.
pub const CORNERS: u64 = 0x8100_0000_0000_0081;

/// A position as seen by the player to move: the discs of that player and
/// the discs of the other, each a set of squares.
pub struct Position {
    pub mover: u64,
    pub opponent: u64,
}

impl Position {
    /// No square holds a disc of both players.
    pub open spec fn valid(self) -> bool {
        self.mover & self.opponent == 0
    }

    /// The position every game starts from.
    pub open spec fn initial() -> Position {
        Position { mover: 0x0000_0008_1000_0000, opponent: 0x0000_0010_0800_0000 }
    }

    /// The squares that hold a disc.
    pub open spec fn occupied(self) -> u64 {
        self.mover | self.opponent
    }

    /// Whether `sq` is a square of the board that holds no disc.
    pub open spec fn vacant(self, sq: int) -> bool {
        0 <= sq < 64 && !has_bit(self.occupied(), sq)
    }

    /// Whether, seen from `sq` in direction `d`, exactly `k` opponent discs
    /// follow one another, the first of them next to `sq`, and a disc of the
    /// mover follows the last.
    pub open spec fn outflanks(self, sq: int, d: int, k: nat) -> bool {
        k >= 1 && ray(self.mover, self.opponent, col(sq) + dx(d), row(sq) + dy(d), d, k)
    }

    /// Whether, seen from `sq` in direction `d`, a run of opponent discs
    /// starts next to `sq` and ends before a disc of the mover.
    pub open spec fn outflanks_toward(self, sq: int, d: int) -> bool {
        exists|k: nat| #[trigger] self.outflanks(sq, d, k)
    }

    /// Whether the mover may place a disc on `sq`: the square is vacant and
    /// outflanks opponent discs in at least one direction.
    pub open spec fn legal(self, sq: int) -> bool {
        self.vacant(sq) && exists|d: int| 0 <= d < 8 && #[trigger] self.outflanks_toward(sq, d)
    }

    /// Whether `t` lies on a line of opponent discs that runs in direction
    /// `d` from next to `sq` up to a disc of the mover: `i` opponent discs
    /// lead from `t` back to `sq`, and `j` lead from `t` on to the mover's disc
    /// (`t` is counted in both).
    pub open spec fn between(self, sq: int, t: int, d: int, i: nat, j: nat) -> bool {
        &&& i >= 1
        &&& j >= 1
        &&& ray(bit(sq), self.opponent, col(t), row(t), opposite(d), i)
        &&& ray(self.mover, self.opponent, col(t), row(t), d, j)
    }

    /// Whether `t` holds one of the opponent discs that a disc on `sq`
    /// outflanks in direction `d`.
    pub open spec fn captured_toward(self, sq: int, t: int, d: int) -> bool {
        exists|i: nat, j: nat| #[trigger] self.between(sq, t, d, i, j)
    }

    /// Whether a disc placed on `sq` captures the disc on `t`.
    pub open spec fn captured(self, sq: int, t: int) -> bool {
        &&& self.vacant(sq)
        &&& 0 <= t < 64
        &&& exists|d: int| 0 <= d < 8 && #[trigger] self.captured_toward(sq, t, d)
    }

    /// The legal squares that outflank along `axis`, in either direction.
    pub open spec fn legal_along(self, axis: Axis) -> u64 {
        mask_of(
            |sq: int|
                self.vacant(sq) && (self.outflanks_toward(sq, axis.ahead())
                    || self.outflanks_toward(sq, axis.back())),
        )
    }

    /// The opponent discs that a disc on `sq` outflanks along `axis`, in
    /// either direction, whether `sq` is vacant or not.
    pub open spec fn captures_along(self, sq: int, axis: Axis) -> u64 {
        mask_of(
            |t: int|
                self.captured_toward(sq, t, axis.ahead()) || self.captured_toward(
                    sq,
                    t,
                    axis.back(),
                ),
        )
    }

    /// The set of legal squares.
    pub open spec fn legal_moves(self) -> u64 {
        mask_of(|sq: int| self.legal(sq))
    }

    /// The set of discs that a disc placed on `sq` captures; empty where `sq`
    /// is no legal square.
    pub open spec fn captures(self, sq: int) -> u64 {
        mask_of(|t: int| self.captured(sq, t))
    }

    /// The position after the mover has placed a disc on `sq`, seen by the
    /// player who moves next.
    pub open spec fn apply(self, sq: int) -> Position {
        let flipped = self.captures(sq);
        Position {
            mover: self.opponent ^ flipped,
            opponent: (self.mover ^ flipped) | bit(sq),
        }
    }

    /// The same discs, seen by the other player.
    pub open spec fn pass(self) -> Position {
        Position { mover: self.opponent, opponent: self.mover }
    }

    /// The positions that follow from the legal squares below `n`, in
    /// increasing order of the square.
    pub open spec fn children_below(self, n: nat) -> Seq<Position>
        decreases n,
    {
        if n == 0 {
            Seq::empty()
        } else if self.legal(n - 1) {
            self.children_below((n - 1) as nat).push(self.apply(n - 1))
        } else {
            self.children_below((n - 1) as nat)
        }
    }

    /// The positions that follow from each legal square, in increasing order
    /// of the square.
    pub open spec fn children(self) -> Seq<Position> {
        self.children_below(64)
    }

    /// The number of discs on the board.
    pub open spec fn disc_count(self) -> nat {
        popcount(self.occupied())
    }

    /// The final score as the mover sees it: the leader is credited with the
    /// vacant squares.
    pub open spec fn exact_score(self) -> int {
        let m = popcount(self.mover);
        let o = popcount(self.opponent);
        if m > o {
            64 - 2 * o
        } else if m < o {
            -64 + 2 * m
        } else {
            0
        }
    }

    /// Corners held by the mover less corners held by the opponent.
    pub open spec fn corner_difference(self) -> int {
        popcount(self.mover & CORNERS) - popcount(self.opponent & CORNERS)
    }

    /// Whether `sq` is vacant and next to a disc of `side`, in any of the
    /// eight directions.
    pub open spec fn borders(self, side: u64, sq: int) -> bool {
        self.vacant(sq) && adjacent(side, sq)
    }

    /// The vacant squares next to a disc of `side`.
    pub open spec fn frontier(self, side: u64) -> u64 {
        mask_of(|sq: int| self.borders(side, sq))
    }

    /// The vacant squares next to the mover's own discs, counted, less the
    /// vacant squares next to the opponent's discs, counted.
    pub open spec fn potential_moves_difference(self) -> int {
        popcount(self.frontier(self.mover)) - popcount(self.frontier(self.opponent))
    }

    /// The static evaluation, as the mover sees it.
    pub open spec fn heuristic(self) -> int {
        5 * self.corner_difference() + self.potential_moves_difference()
    }

    /// Whether the mover has a legal square.
    pub open spec fn has_moves(self) -> bool {
        self.legal_moves() != 0
    }

    /// Whether the game is over: neither player has a legal square.
    pub open spec fn is_terminal(self) -> bool {
        !self.has_moves() && !self.pass().has_moves()
    }

    /// Whether `child` follows from this position by one legal move.
    pub open spec fn is_child(self, child: Position) -> bool {
        exists|i: int| 0 <= i < self.children().len() && #[trigger] self.children()[i] == child
    }

    /// Whether `next` follows from this position by one turn: a legal move,
    /// or a pass where there is none.
    pub open spec fn is_followed_by(self, next: Position) -> bool {
        self.is_child(next) || (!self.has_moves() && next == self.pass())
    }

    /// Whether this position comes about after exactly `turns` turns of a
    /// game.
    pub open spec fn reachable_in(self, turns: nat) -> bool
        decreases turns,
    {
        if turns == 0 {
            self == Position::initial()
        } else {
            exists|before: Position| #[trigger]
                before.is_followed_by(self) && before.reachable_in((turns - 1) as nat)
        }
    }

    /// Whether this position comes about in some game.
    pub open spec fn reachable(self) -> bool {
        exists|turns: nat| self.reachable_in(turns)
    }

    /// What the board shows on square `i`, where the player to move plays
    /// white if `white_to_move` holds and black if not.
    pub open spec fn cell(self, i: int, white_to_move: bool) -> Cell {
        let white = if white_to_move {
            self.mover
        } else {
            self.opponent
        };
        let black = if white_to_move {
            self.opponent
        } else {
            self.mover
        };
        if has_bit(black, i) {
            Cell::Black
        } else if has_bit(white, i) {
            Cell::White
        } else if self.legal(i) {
            Cell::Move
        } else {
            Cell::Empty
        }
    }
}

/// Whether `sq` is a square of the board next to a member of `side`, in any
/// of the eight directions.
pub open spec fn adjacent(side: u64, sq: int) -> bool {
    0 <= sq < 64 && exists|d: int|
        0 <= d < 8 && #[trigger] disc(side, col(sq) + dx(d), row(sq) + dy(d))
}

/// The squares next to a member of `side`.
pub open spec fn neighbours(side: u64) -> u64 {
    mask_of(|sq: int| adjacent(side, sq))
}

/// What a square of the board shows.
#[derive(Debug, Clone, Copy, PartialEq, Eq, Structural)]
pub enum Cell {
    /// No disc, and no legal square for the player to move.
    Empty,
    /// No disc, and a legal square for the player to move.
    Move,
    /// A black disc.
    Black,
    /// A white disc.
    White,
}

} // verus!

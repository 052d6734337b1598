//! What holds of every position: the laws that the rules obey.

use crate::bits::{
    bit, has_bit, lemma_bit_ops, lemma_bits_equal, lemma_count_bound, lemma_count_disjoint,
    lemma_count_single, lemma_mask_of, lemma_mask_of_unique, lemma_nonzero_has_bit,
    lemma_single_bit,
};
use crate::position::{adjacent, neighbours, Position, CORNERS};
use crate::squares::{col, dx, dy, lemma_ray_room, opposite, ray, row, square, Axis};
use vstd::prelude::*;

verus! {

impl Position {
    /// A line of opponent discs that leads from `(x, y)` back to `sq` and on to
    /// a disc of the mover outflanks, seen from `sq`.
    pub proof fn lemma_join(self, sq: int, x: int, y: int, d: int, i: nat, j: nat)
        requires
            0 <= sq < 64,
            0 <= d < 8,
            i >= 1,
            ray(bit(sq), self.opponent, x, y, opposite(d), i),
            ray(self.mover, self.opponent, x, y, d, j),
        ensures
            ray(
                self.mover,
                self.opponent,
                col(sq) + dx(d),
                row(sq) + dy(d),
                d,
                (i + j - 1) as nat,
            ),
        decreases i,
    {
        let e = opposite(d);
        let px = x + dx(e);
        let py = y + dy(e);
        assert(px + dx(d) == x && py + dy(d) == y);
        if i == 1 {
            assert(ray(bit(sq), self.opponent, px, py, e, 0));
            lemma_single_bit(sq, square(px, py));
        } else {
            assert(ray(bit(sq), self.opponent, px, py, e, (i - 1) as nat));
            assert(ray(self.mover, self.opponent, px, py, d, j + 1));
            self.lemma_join(sq, px, py, d, (i - 1) as nat, j + 1);
        }
    }

    /// A captured disc is a disc of the opponent.
    pub proof fn lemma_captured_is_opponent(self, sq: int, t: int)
        requires
            self.captured(sq, t),
        ensures
            has_bit(self.opponent, t),
            self.legal(sq),
            t != sq,
    {
        let d = choose|d: int| 0 <= d < 8 && #[trigger] self.captured_toward(sq, t, d);
        let (i, j) = choose|i: nat, j: nat| #[trigger] self.between(sq, t, d, i, j);
        assert(square(col(t), row(t)) == t);
        self.lemma_join(sq, col(t), row(t), d, i, j);
        assert(self.outflanks(sq, d, (i + j - 1) as nat));
        assert(self.outflanks_toward(sq, d));
        lemma_bit_ops(self.mover, self.opponent, t);
    }

    /// A square is legal exactly if a disc placed there captures something.
    pub proof fn lemma_legal_iff_captures(self, sq: int)
        ensures
            has_bit(self.legal_moves(), sq) <==> self.captures(sq) != 0,
            self.legal(sq) <==> self.captures(sq) != 0,
    {
        lemma_mask_of(|s: int| self.legal(s), sq);
        let f = self.captures(sq);
        if f != 0 {
            lemma_nonzero_has_bit(f);
            let t = choose|t: int| has_bit(f, t);
            lemma_mask_of(|t: int| self.captured(sq, t), t);
            self.lemma_captured_is_opponent(sq, t);
        }
        if self.legal(sq) {
            let d = choose|d: int| 0 <= d < 8 && #[trigger] self.outflanks_toward(sq, d);
            let k = choose|k: nat| #[trigger] self.outflanks(sq, d, k);
            let x = col(sq) + dx(d);
            let y = row(sq) + dy(d);
            let e = opposite(d);
            lemma_ray_room(self.mover, self.opponent, x, y, d, k);
            let t = square(x, y);
            assert(col(t) == x && row(t) == y);
            assert(square(x + dx(e), y + dy(e)) == sq);
            lemma_single_bit(sq, sq);
            assert(ray(bit(sq), self.opponent, x + dx(e), y + dy(e), e, 0));
            assert(ray(bit(sq), self.opponent, x, y, e, 1));
            assert(self.between(sq, t, d, 1, k));
            assert(self.captured_toward(sq, t, d));
            assert(self.captured(sq, t));
            lemma_mask_of(|t: int| self.captured(sq, t), t);
            lemma_single_bit(0, t);
        }
    }

    /// The legal squares are those of the four axes together.
    pub proof fn lemma_legal_of_axes(self)
        ensures
            self.legal_moves() == self.legal_along(Axis::Row) | self.legal_along(
                Axis::AntiDiagonal,
            ) | self.legal_along(Axis::Diagonal) | self.legal_along(Axis::Column),
    {
        let row = self.legal_along(Axis::Row);
        let anti = self.legal_along(Axis::AntiDiagonal);
        let diagonal = self.legal_along(Axis::Diagonal);
        let column = self.legal_along(Axis::Column);
        let word = row | anti | diagonal | column;
        let pred = |sq: int| self.legal(sq);
        assert forall|sq: int| 0 <= sq < 64 implies has_bit(word, sq) == pred(sq) by {
            lemma_bit_ops(row, anti, sq);
            lemma_bit_ops(row | anti, diagonal, sq);
            lemma_bit_ops(row | anti | diagonal, column, sq);
            self.lemma_legal_along_member(Axis::Row, sq);
            self.lemma_legal_along_member(Axis::AntiDiagonal, sq);
            self.lemma_legal_along_member(Axis::Diagonal, sq);
            self.lemma_legal_along_member(Axis::Column, sq);
            if self.legal(sq) {
                let d = choose|d: int| 0 <= d < 8 && #[trigger] self.outflanks_toward(sq, d);
                assert(d == 0 || d == 1 || d == 2 || d == 3 || d == 4 || d == 5 || d == 6 || d
                    == 7);
            }
        }
        lemma_mask_of_unique(pred, word);
    }

    /// Membership in `legal_along`.
    pub proof fn lemma_legal_along_member(self, axis: Axis, sq: int)
        ensures
            has_bit(self.legal_along(axis), sq) == (self.vacant(sq) && (self.outflanks_toward(
                sq,
                axis.ahead(),
            ) || self.outflanks_toward(sq, axis.back()))),
    {
        lemma_mask_of(
            |sq: int|
                self.vacant(sq) && (self.outflanks_toward(sq, axis.ahead())
                    || self.outflanks_toward(sq, axis.back())),
            sq,
        );
    }

    /// Membership in `captures_along`.
    pub proof fn lemma_captures_along_member(self, sq: int, axis: Axis, t: int)
        ensures
            has_bit(self.captures_along(sq, axis), t) == (0 <= t < 64 && (self.captured_toward(
                sq,
                t,
                axis.ahead(),
            ) || self.captured_toward(sq, t, axis.back()))),
    {
        lemma_mask_of(
            |t: int|
                self.captured_toward(sq, t, axis.ahead()) || self.captured_toward(
                    sq,
                    t,
                    axis.back(),
                ),
            t,
        );
    }

    /// The discs that a disc on a vacant square captures are those of the
    /// four axes together; a disc on another square captures nothing.
    pub proof fn lemma_captures_of_axes(self, sq: int)
        ensures
            self.captures(sq) == if self.vacant(sq) {
                self.captures_along(sq, Axis::Column) | self.captures_along(sq, Axis::Row)
                    | self.captures_along(sq, Axis::AntiDiagonal) | self.captures_along(
                    sq,
                    Axis::Diagonal,
                )
            } else {
                0
            },
    {
        let column = self.captures_along(sq, Axis::Column);
        let row = self.captures_along(sq, Axis::Row);
        let anti = self.captures_along(sq, Axis::AntiDiagonal);
        let diagonal = self.captures_along(sq, Axis::Diagonal);
        let word = if self.vacant(sq) {
            column | row | anti | diagonal
        } else {
            0
        };
        let pred = |t: int| self.captured(sq, t);
        assert forall|t: int| 0 <= t < 64 implies has_bit(word, t) == pred(t) by {
            if self.vacant(sq) {
                lemma_bit_ops(column, row, t);
                lemma_bit_ops(column | row, anti, t);
                lemma_bit_ops(column | row | anti, diagonal, t);
                self.lemma_captures_along_member(sq, Axis::Column, t);
                self.lemma_captures_along_member(sq, Axis::Row, t);
                self.lemma_captures_along_member(sq, Axis::AntiDiagonal, t);
                self.lemma_captures_along_member(sq, Axis::Diagonal, t);
                if self.captured(sq, t) {
                    let d = choose|d: int| 0 <= d < 8 && #[trigger] self.captured_toward(sq, t, d);
                    assert(d == 0 || d == 1 || d == 2 || d == 3 || d == 4 || d == 5 || d == 6 || d
                        == 7);
                }
            } else {
                lemma_single_bit(0, t);
            }
        }
        lemma_mask_of_unique(pred, word);
    }

    /// Every captured disc is the opponent's, and the square is vacant: the
    /// captures share no member with the mover's discs nor with `bit(sq)`.
    pub proof fn lemma_captures_within_opponent(self, sq: int)
        ensures
            self.captures(sq) & !self.opponent == 0,
            self.vacant(sq) ==> self.occupied() & bit(sq) == 0,
    {
        let f = self.captures(sq);
        let o = self.opponent;
        assert forall|i: int| 0 <= i < 64 implies has_bit(f & !o, i) == has_bit(0, i) by {
            lemma_bit_ops(f, !o, i);
            lemma_bit_ops(o, 0, i);
            lemma_single_bit(0, i);
            if has_bit(f, i) {
                lemma_mask_of(|t: int| self.captured(sq, t), i);
                self.lemma_captured_is_opponent(sq, i);
            }
        }
        lemma_bits_equal(f & !o, 0);
        if self.vacant(sq) {
            assert forall|i: int| 0 <= i < 64 implies has_bit(self.occupied() & bit(sq), i)
                == has_bit(0, i) by {
                lemma_bit_ops(self.occupied(), bit(sq), i);
                lemma_single_bit(sq, i);
            }
            lemma_bits_equal(self.occupied() & bit(sq), 0);
        }
    }

    /// A legal move keeps the two sets apart and adds exactly one disc to the
    /// board: the one placed on `sq`.
    pub proof fn lemma_apply_adds_one_disc(self, sq: int)
        requires
            self.valid(),
            self.legal(sq),
        ensures
            self.apply(sq).valid(),
            self.apply(sq).occupied() == self.occupied() | bit(sq),
            self.apply(sq).disc_count() == self.disc_count() + 1,
    {
        let m = self.mover;
        let o = self.opponent;
        let f = self.captures(sq);
        let b = bit(sq);
        self.lemma_captures_within_opponent(sq);
        assert(((o ^ f) & ((m ^ f) | b)) == 0 && ((o ^ f) | ((m ^ f) | b)) == (m | o) | b)
            by (bit_vector)
            requires
                m & o == 0,
                f & !o == 0,
                (m | o) & b == 0,
        ;
        lemma_count_disjoint(self.occupied(), b, 64);
        lemma_count_single(sq, 64);
    }

    /// Passing keeps the discs where they are.
    pub proof fn lemma_pass_keeps_discs(self)
        ensures
            self.pass().occupied() == self.occupied(),
            self.pass().disc_count() == self.disc_count(),
            self.valid() ==> self.pass().valid(),
            self.pass().pass() == self,
    {
        let m = self.mover;
        let o = self.opponent;
        assert(o | m == m | o && (m & o == 0 ==> o & m == 0)) by (bit_vector);
    }

    /// The exact score is relative to the player who looks at it: after a pass
    /// it changes its sign.
    pub proof fn lemma_exact_score_of_pass(self)
        ensures
            self.pass().exact_score() == -self.exact_score(),
    {
    }

    /// The scores are bounded.
    pub proof fn lemma_score_bounds(self)
        ensures
            -64 <= self.exact_score() <= 64,
            -64 <= self.corner_difference() <= 64,
            -64 <= self.potential_moves_difference() <= 64,
            -384 <= self.heuristic() <= 384,
            self.disc_count() <= 64,
    {
        lemma_count_bound(self.mover, 64);
        lemma_count_bound(self.opponent, 64);
        lemma_count_bound(self.mover & CORNERS, 64);
        lemma_count_bound(self.opponent & CORNERS, 64);
        lemma_count_bound(self.frontier(self.mover), 64);
        lemma_count_bound(self.frontier(self.opponent), 64);
        lemma_count_bound(self.occupied(), 64);
    }

    /// The frontier of `side` is what is vacant among its neighbours.
    pub proof fn lemma_frontier(self, side: u64)
        ensures
            self.frontier(side) == neighbours(side) & !self.occupied(),
    {
        let pred = |sq: int| self.borders(side, sq);
        let word = neighbours(side) & !self.occupied();
        assert forall|sq: int| 0 <= sq < 64 implies has_bit(word, sq) == pred(sq) by {
            lemma_bit_ops(neighbours(side), !self.occupied(), sq);
            lemma_bit_ops(self.occupied(), 0, sq);
            lemma_mask_of(|s: int| adjacent(side, s), sq);
        }
        lemma_mask_of_unique(pred, word);
    }

    /// Squares that are not legal add no child.
    pub proof fn lemma_children_skip(self, a: nat, b: nat)
        requires
            a <= b,
            forall|i: int| a <= i < b ==> !self.legal(i),
        ensures
            self.children_below(b) == self.children_below(a),
        decreases b,
    {
        if a < b {
            self.lemma_children_skip(a, (b - 1) as nat);
        }
    }

    /// Every position among `children_below(n)` follows from a legal square
    /// below `n`.
    pub proof fn lemma_children_are_moves(self, n: nat, i: int)
        requires
            0 <= i < self.children_below(n).len(),
        ensures
            exists|sq: int|
                0 <= sq < n && self.legal(sq) && self.children_below(n)[i] == #[trigger] self.apply(
                    sq,
                ),
        decreases n,
    {
        if n > 0 {
            let rest = self.children_below((n - 1) as nat);
            if i < rest.len() {
                self.lemma_children_are_moves((n - 1) as nat, i);
                let sq = choose|sq: int|
                    0 <= sq < n - 1 && self.legal(sq) && rest[i] == #[trigger] self.apply(sq);
                assert(self.children_below(n)[i] == self.apply(sq));
            } else {
                assert(self.children_below(n)[i] == self.apply(n - 1));
            }
        }
    }

    /// A legal square below `n` puts a position among `children_below(n)`.
    pub proof fn lemma_children_hold_moves(self, n: nat, sq: int)
        requires
            0 <= sq < n,
            self.legal(sq),
        ensures
            self.children_below(n).len() >= 1,
        decreases n,
    {
        if sq < n - 1 {
            self.lemma_children_hold_moves((n - 1) as nat, sq);
        }
    }

    /// There are children exactly where there are legal squares.
    pub proof fn lemma_children_exist(self)
        ensures
            self.children().len() > 0 <==> self.has_moves(),
    {
        if self.has_moves() {
            lemma_nonzero_has_bit(self.legal_moves());
            let sq = choose|sq: int| has_bit(self.legal_moves(), sq);
            lemma_mask_of(|s: int| self.legal(s), sq);
            self.lemma_children_hold_moves(64, sq);
        } else {
            assert forall|i: int| 0 <= i < 64 implies !self.legal(i) by {
                lemma_mask_of(|s: int| self.legal(s), i);
                lemma_single_bit(0, i);
            }
            self.lemma_children_skip(0, 64);
        }
    }

    /// A child of a valid position is valid and holds one disc more.
    pub proof fn lemma_child(self, child: Position)
        requires
            self.valid(),
            self.is_child(child),
        ensures
            child.valid(),
            child.disc_count() == self.disc_count() + 1,
    {
        let i = choose|i: int|
            0 <= i < self.children().len() && #[trigger] self.children()[i] == child;
        self.lemma_children_are_moves(64, i);
        let sq = choose|sq: int|
            0 <= sq < 64 && self.legal(sq) && self.children_below(64)[i] == #[trigger] self.apply(
                sq,
            );
        self.lemma_apply_adds_one_disc(sq);
    }

    /// The initial position is valid and holds four discs.
    pub proof fn lemma_initial()
        ensures
            Position::initial().valid(),
            Position::initial().disc_count() == 4,
    {
        let a = bit(27) | bit(28);
        let b = bit(35) | bit(36);
        assert(Position::initial().occupied() == (bit(27) | bit(28)) | (bit(35) | bit(36)) && bit(
            27,
        ) & bit(28) == 0 && bit(35) & bit(36) == 0 && (bit(27) | bit(28)) & (bit(35) | bit(36)) == 0
            && Position::initial().mover & Position::initial().opponent == 0) by (bit_vector);
        lemma_count_disjoint(bit(27), bit(28), 64);
        lemma_count_disjoint(bit(35), bit(36), 64);
        lemma_count_disjoint(a, b, 64);
        lemma_count_single(27, 64);
        lemma_count_single(28, 64);
        lemma_count_single(35, 64);
        lemma_count_single(36, 64);
    }

    /// The player who begins has a legal square.
    pub proof fn lemma_initial_has_moves()
        ensures
            Position::initial().has_moves(),
    {
        let p = Position::initial();
        assert((0x0000_0010_0800_0000u64 >> 27u64) & 1 == 1 && (0x0000_0008_1000_0000u64 >> 35u64)
            & 1 == 1 && ((0x0000_0008_1000_0000u64 | 0x0000_0010_0800_0000u64) >> 19u64) & 1 == 0)
            by (bit_vector);
        assert(ray(p.mover, p.opponent, 3, 4, 2, 0));
        assert(ray(p.mover, p.opponent, 3, 3, 2, 1));
        assert(p.outflanks(19, 2, 1));
        assert(p.outflanks_toward(19, 2));
        assert(p.legal(19));
        lemma_mask_of(|sq: int| p.legal(sq), 19);
        lemma_single_bit(0, 19);
    }

    /// A turn keeps a position valid; a move adds one disc and a pass none.
    pub proof fn lemma_turn(self, next: Position)
        requires
            self.valid(),
            self.is_followed_by(next),
        ensures
            next.valid(),
            next.disc_count() == self.disc_count() + if self.has_moves() { 1nat } else { 0nat },
    {
        self.lemma_children_exist();
        if self.is_child(next) {
            self.lemma_child(next);
        } else {
            self.lemma_pass_keeps_discs();
        }
    }

    /// Every position of a game is valid and holds between four and 64
    /// discs.
    pub proof fn lemma_reachable(self, turns: nat)
        requires
            self.reachable_in(turns),
        ensures
            self.valid(),
            4 <= self.disc_count() <= 64,
        decreases turns,
    {
        self.lemma_score_bounds();
        if turns == 0 {
            Position::lemma_initial();
        } else {
            let before = choose|before: Position| #[trigger]
                before.is_followed_by(self) && before.reachable_in((turns - 1) as nat);
            before.lemma_reachable((turns - 1) as nat);
            before.lemma_turn(self);
        }
    }
}

} // verus!

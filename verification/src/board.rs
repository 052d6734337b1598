//! The executable board: two disjoint sets of discs, seen by the player to
//! move, with move generation, captures and the static scores.

use crate::bits::{
    bit, has_bit, lemma_bit_ops, lemma_count_bound, lemma_mask_of, lemma_single_bit,
};
use crate::chance::random_below;
use crate::kernels::{flood, line_flips, surroundings};
use crate::position::{Cell, Position, CORNERS};
use crate::squares::Axis;
use vstd::prelude::*;
use vstd::std_specs::bits::axiom_u64_trailing_zeros;

verus! {

/// Why a board could not be made.
#[derive(Debug, Clone, Copy, PartialEq, Eq, Structural)]
pub enum GameError {
    /// A disc placed on the square would capture nothing.
    InvalidMove,
    /// The player to move has no legal square.
    NoLegalMoves,
    /// No position of a game holds that many discs: fewer than four, or more
    /// than 64.
    InvalidDiscCount,
    /// Every game played at random ended before the board held the discs
    /// asked for.
    NoGameFound,
}

impl GameError {
    /// The error in words.
    pub fn message(&self) -> (r: &'static str)
        ensures
            r@ == match self {
                GameError::InvalidMove => "Invalid move"@,
                GameError::NoLegalMoves => "No legal moves"@,
                GameError::InvalidDiscCount => "Invalid amount of discs"@,
                GameError::NoGameFound => "No game found"@,
            },
    {
        match self {
            GameError::InvalidMove => "Invalid move",
            GameError::NoLegalMoves => "No legal moves",
            GameError::InvalidDiscCount => "Invalid amount of discs",
            GameError::NoGameFound => "No game found",
        }
    }
}

/// How many games `Board::new_random` plays before it gives up.
pub const MAX_GAMES: u32 = 100_000;

/// A position, as the player to move sees it.
#[derive(Debug, Clone, Copy, PartialEq, Eq, Hash, Structural)]
pub struct Board {
    me: u64,
    opp: u64,
}

impl View for Board {
    type V = Position;

    closed spec fn view(&self) -> Position {
        Position { mover: self.me, opponent: self.opp }
    }
}

impl Board {
    /// What holds of every board: no square holds a disc of both players.
    #[verifier::type_invariant]
    pub open spec fn well_formed(self) -> bool {
        self@.valid()
    }

    /// The board every game starts from.
    pub fn new() -> (b: Board)
        ensures
            b@ == Position::initial(),
    {
        assert(0x0000_0008_1000_0000u64 & 0x0000_0010_0800_0000u64 == 0) by (bit_vector);
        Board { me: 0x0000_0008_1000_0000, opp: 0x0000_0010_0800_0000 }
    }

    /// The board with the given discs, if no square holds one of each player.
    pub fn with_discs(me: u64, opp: u64) -> (r: Option<Board>)
        ensures
            match r {
                Some(b) => me & opp == 0 && b@ == (Position { mover: me, opponent: opp }),
                None => me & opp != 0,
            },
    {
        if me & opp == 0 {
            Some(Board { me, opp })
        } else {
            None
        }
    }

    /// The discs of the player to move.
    pub fn me(&self) -> (r: u64)
        ensures
            r == self@.mover,
    {
        self.me
    }

    /// The discs of the other player.
    pub fn opp(&self) -> (r: u64)
        ensures
            r == self@.opponent,
    {
        self.opp
    }

    /// The set of legal squares.
    pub fn moves(&self) -> (r: u64)
        ensures
            r == self@.legal_moves(),
    {
        let row = flood(self.me, self.opp, Axis::Row);
        let antidiagonal = flood(self.me, self.opp, Axis::AntiDiagonal);
        let diagonal = flood(self.me, self.opp, Axis::Diagonal);
        let column = flood(self.me, self.opp, Axis::Column);
        proof {
            self@.lemma_legal_of_axes();
        }
        row | antidiagonal | diagonal | column
    }

    /// The discs that a disc placed on square `pos` captures: in each of the
    /// eight directions the run of opponent discs that starts next to `pos`,
    /// if a disc of the mover ends it. Empty where `pos` is occupied or no
    /// square of the board.
    pub fn flip(&self, pos: usize) -> (r: u64)
        ensures
            r == self@.captures(pos as int),
    {
        proof {
            use_type_invariant(self);
            self@.lemma_captures_of_axes(pos as int);
        }
        if pos >= 64 {
            return 0;
        }
        let p = pos as u64;
        if ((self.me | self.opp) >> p) & 1 == 1 {
            return 0;
        }
        let column = line_flips(self.me, self.opp, p, Axis::Column);
        let row = line_flips(self.me, self.opp, p, Axis::Row);
        let antidiagonal = line_flips(self.me, self.opp, p, Axis::AntiDiagonal);
        let diagonal = line_flips(self.me, self.opp, p, Axis::Diagonal);
        column | row | antidiagonal | diagonal
    }

    /// Places a disc of the mover on square `index`, turns the captured discs
    /// over and hands the turn to the other player. Fails where the disc
    /// would capture nothing.
    pub fn do_move(&self, index: usize) -> (r: Result<Board, GameError>)
        ensures
            match r {
                Ok(b) => {
                    &&& self@.legal(index as int)
                    &&& b@ == self@.apply(index as int)
                    &&& b@.disc_count() == self@.disc_count() + 1
                },
                Err(e) => e == GameError::InvalidMove && !self@.legal(index as int),
            },
    {
        let flipped = self.flip(index);
        proof {
            use_type_invariant(self);
            self@.lemma_legal_iff_captures(index as int);
        }
        if flipped == 0 {
            return Err(GameError::InvalidMove);
        }
        proof {
            self@.lemma_apply_adds_one_disc(index as int);
        }
        Ok(Board { me: self.opp ^ flipped, opp: (self.me ^ flipped) | (1u64 << index) })
    }

    /// One turn of a game in which `drawn` decides: the mover places a disc
    /// on the legal square that gives child number `drawn`, and passes where
    /// there is no legal square.
    pub fn random_turn(&self, drawn: usize) -> (next: Board)
        requires
            self@.has_moves() ==> drawn < self@.children().len(),
        ensures
            next@ == (if self@.has_moves() {
                self@.children()[drawn as int]
            } else {
                self@.pass()
            }),
            self@.is_followed_by(next@),
    {
        proof {
            self@.lemma_children_exist();
        }
        let children = self.children();
        if children.len() == 0 {
            let mut passed = self.clone();
            passed.switch_turn();
            passed
        } else {
            proof {
                assert(self@.children()[drawn as int] == children@[drawn as int]@);
            }
            children[drawn]
        }
    }

    /// Places a disc of the mover on a legal square drawn at random, each
    /// legal square being as likely as any other. Fails where there is none.
    pub fn do_random_move(&self) -> (r: Result<Board, GameError>)
        ensures
            match r {
                Ok(b) => {
                    &&& self@.has_moves()
                    &&& self@.is_child(b@)
                    &&& b@.disc_count() == self@.disc_count() + 1
                },
                Err(e) => e == GameError::NoLegalMoves && !self@.has_moves(),
            },
    {
        proof {
            use_type_invariant(self);
            self@.lemma_children_exist();
        }
        let count = self.children().len();
        if count == 0 {
            return Err(GameError::NoLegalMoves);
        }
        let next = self.random_turn(random_below(count));
        proof {
            self@.lemma_child(next@);
        }
        Ok(next)
    }

    /// A position with `discs` discs from a game played at random. Every turn
    /// is a `random_turn` with a number drawn below the number of children;
    /// after two passes in a row the game is over and another is started from
    /// the initial board. Fails with `InvalidDiscCount` exactly where `discs`
    /// is not in `4..=64`, and with `NoGameFound` where `MAX_GAMES` games all
    /// ended too early: only where a game can be over with fewer than `discs`
    /// discs on the board, which none is before the sixth disc.
    pub fn new_random(discs: u32) -> (r: Result<Board, GameError>)
        ensures
            match r {
                Ok(b) => 4 <= discs <= 64 && b@.disc_count() == discs && b@.reachable(),
                Err(e) => if discs < 4 || discs > 64 {
                    e == GameError::InvalidDiscCount
                } else {
                    e == GameError::NoGameFound && discs >= 6
                },
            },
            discs == 4 ==> (r matches Ok(b) && b@ == Position::initial()),
            (r matches Err(e) && e == GameError::NoGameFound) ==> exists|p: Position|
                p.reachable() && p.is_terminal() && #[trigger] p.disc_count() < discs,
    {
        if discs < 4 || discs > 64 {
            return Err(GameError::InvalidDiscCount);
        }
        let mut board = Board::new();
        let mut skips: u32 = 0;
        let mut games_left: u32 = MAX_GAMES;
        let ghost mut turns: nat = 0;
        proof {
            Position::lemma_initial();
        }
        while board.count_discs() != discs
            invariant
                4 <= discs <= 64,
                skips <= 2,
                skips >= 1 ==> !board@.pass().has_moves(),
                skips == 2 ==> board@.is_terminal(),
                board@.disc_count() <= discs,
                board@.reachable_in(turns),
                discs == 4 ==> board@ == Position::initial(),
                discs == 5 ==> (board@ == Position::initial() && skips == 0) || board@.disc_count()
                    == 5,
            decreases games_left, 64 - board@.disc_count(), 2 - skips,
        {
            proof {
                use_type_invariant(&board);
                Position::lemma_initial();
                Position::lemma_initial_has_moves();
                board@.lemma_children_exist();
            }
            if skips == 2 {
                if games_left == 0 {
                    proof {
                        assert(board@.reachable());
                        assert(board@.disc_count() < discs);
                    }
                    return Err(GameError::NoGameFound);
                }
                games_left -= 1;
                board = Board::new();
                skips = 0;
                proof {
                    turns = 0;
                }
            } else {
                let count = board.children().len();
                let drawn = if count > 0 {
                    random_below(count)
                } else {
                    0
                };
                let next = board.random_turn(drawn);
                proof {
                    board@.lemma_turn(next@);
                    board@.lemma_pass_keeps_discs();
                    turns = turns + 1;
                }
                skips = if count > 0 {
                    0
                } else {
                    skips + 1
                };
                board = next;
            }
        }
        Ok(board)
    }

    /// What each of the 64 squares shows, in the order of the squares, where
    /// the player to move plays white if `white_to_move` holds and black if
    /// not.
    pub fn cells(&self, white_to_move: bool) -> (r: Vec<Cell>)
        ensures
            r@.len() == 64,
            forall|i: int| 0 <= i < 64 ==> #[trigger] r@[i] == self@.cell(i, white_to_move),
    {
        let white = if white_to_move {
            self.me
        } else {
            self.opp
        };
        let black = if white_to_move {
            self.opp
        } else {
            self.me
        };
        let moves = self.moves();
        let mut cells: Vec<Cell> = Vec::new();
        let mut i: u64 = 0;
        while i < 64
            invariant
                i <= 64,
                cells@.len() == i,
                moves == self@.legal_moves(),
                white == if white_to_move {
                    self@.mover
                } else {
                    self@.opponent
                },
                black == if white_to_move {
                    self@.opponent
                } else {
                    self@.mover
                },
                forall|k: int| 0 <= k < i ==> #[trigger] cells@[k] == self@.cell(k, white_to_move),
            decreases 64 - i,
        {
            let is_black = ((black >> i) & 1) == 1;
            let is_white = ((white >> i) & 1) == 1;
            let is_move = ((moves >> i) & 1) == 1;
            proof {
                lemma_mask_of(|sq: int| self@.legal(sq), i as int);
            }
            let cell = if is_black {
                Cell::Black
            } else if is_white {
                Cell::White
            } else if is_move {
                Cell::Move
            } else {
                Cell::Empty
            };
            cells.push(cell);
            i += 1;
        }
        cells
    }

    /// Hands the turn to the other player without placing a disc.
    pub fn switch_turn(&mut self)
        ensures
            final(self)@ == old(self)@.pass(),
            final(self)@.disc_count() == old(self)@.disc_count(),
    {
        proof {
            use_type_invariant(&*self);
            self@.lemma_pass_keeps_discs();
        }
        *self = Board { me: self.opp, opp: self.me };
    }

    /// The boards that follow from each legal square, in increasing order of
    /// the square.
    pub fn children(&self) -> (r: Vec<Board>)
        ensures
            r@.len() == self@.children().len(),
            forall|i: int| 0 <= i < r@.len() ==> (#[trigger] r@[i])@ == self@.children()[i],
    {
        let mut moves = self.moves();
        let mut children: Vec<Board> = Vec::new();
        let ghost all = moves;
        let ghost mut lo: nat = 0;
        while moves != 0
            invariant
                lo <= 64,
                all == self@.legal_moves(),
                forall|i: int| has_bit(moves, i) == (lo <= i && has_bit(all, i)),
                children@.len() == self@.children_below(lo).len(),
                forall|i: int|
                    0 <= i < children@.len() ==> (#[trigger] children@[i])@
                        == self@.children_below(lo)[i],
            decreases 64 - lo,
        {
            let zeros = moves.trailing_zeros();
            let index = zeros as usize;
            proof {
                axiom_u64_trailing_zeros(moves);
                assert(has_bit(moves, index as int));
                assert forall|i: int| lo <= i < index implies !self@.legal(i) by {
                    let j = i as u64;
                    assert((moves >> j) & 1u64 == 0u64);
                    assert(!has_bit(moves, i));
                    lemma_mask_of(|sq: int| self@.legal(sq), i);
                }
                self@.lemma_children_skip(lo, index as nat);
                lemma_mask_of(|sq: int| self@.legal(sq), index as int);
            }
            if let Ok(child) = self.do_move(index) {
                children.push(child);
            }
            let ghost before = moves;
            moves &= !(1u64 << index);
            proof {
                assert forall|i: int| has_bit(moves, i) == (index + 1 <= i && has_bit(all, i)) by {
                    lemma_bit_ops(before, !bit(index as int), i);
                    lemma_bit_ops(bit(index as int), 0, i);
                    lemma_single_bit(index as int, i);
                    if i < index && has_bit(before, i) {
                        let j = i as u64;
                        assert((before >> j) & 1u64 == 0u64);
                    }
                }
                lo = (index + 1) as nat;
            }
        }
        proof {
            assert forall|i: int| lo <= i < 64 implies !self@.legal(i) by {
                lemma_single_bit(0, i);
                lemma_mask_of(|sq: int| self@.legal(sq), i);
            }
            self@.lemma_children_skip(lo, 64);
        }
        children
    }

    /// The final score as the mover sees it: the leader is credited with the
    /// vacant squares.
    pub fn exact_score(&self) -> (r: i32)
        ensures
            r == self@.exact_score(),
    {
        proof {
            self@.lemma_score_bounds();
            lemma_count_bound(self.me, 64);
            lemma_count_bound(self.opp, 64);
        }
        let me_count = self.me.count_ones() as i32;
        let opp_count = self.opp.count_ones() as i32;
        if me_count > opp_count {
            return 64 - (2 * opp_count);
        }
        if me_count < opp_count {
            return -64 + (2 * me_count);
        }
        0
    }

    /// Whether the mover has a legal square.
    pub fn has_moves(&self) -> (r: bool)
        ensures
            r == self@.has_moves(),
    {
        self.moves() != 0
    }

    /// The number of discs on the board.
    pub fn count_discs(&self) -> (r: u32)
        ensures
            r == self@.disc_count(),
    {
        (self.me | self.opp).count_ones()
    }

    /// Corners held by the mover less corners held by the opponent.
    pub fn corner_difference(&self) -> (r: i32)
        ensures
            r == self@.corner_difference(),
    {
        proof {
            lemma_count_bound(self.me & CORNERS, 64);
            lemma_count_bound(self.opp & CORNERS, 64);
        }
        let me_corners = (self.me & CORNERS).count_ones() as i32;
        let opp_corners = (self.opp & CORNERS).count_ones() as i32;
        me_corners - opp_corners
    }

    /// The vacant squares next to the mover's own discs, counted, less the
    /// vacant squares next to the opponent's discs, counted.
    pub fn potential_moves_difference(&self) -> (r: i32)
        ensures
            r == self@.potential_moves_difference(),
    {
        let vacant = !(self.me | self.opp);
        let me_potential_moves = surroundings(self.me) & vacant;
        let opp_potential_moves = surroundings(self.opp) & vacant;
        proof {
            self@.lemma_frontier(self.me);
            self@.lemma_frontier(self.opp);
            lemma_count_bound(me_potential_moves, 64);
            lemma_count_bound(opp_potential_moves, 64);
        }
        let me_potential_move_count = me_potential_moves.count_ones() as i32;
        let opp_potential_moves_count = opp_potential_moves.count_ones() as i32;
        me_potential_move_count - opp_potential_moves_count
    }
}

} // verus!

//! The player: it picks a move by a principal-variation search over the
//! positions that follow, to a fixed depth.

use crate::board::{Board, GameError};
use crate::position::Position;
use crate::search::{
    best_reply, is_first_best, is_leaf, lemma_negamax_bound, lemma_negamax_is_best_child,
    lemma_negamax_of_pass, negamax, reply_value, root_value, search_value, window_fits,
    FULL_WINDOW, TERMINAL_SCALE,
};
use vstd::prelude::*;
use vstd::seq_lib::{to_multiset_build, to_multiset_contains, to_multiset_insert, to_multiset_len};

verus! {

/// Whether `boards` holds the children of `p`, each at least once, and
/// nothing else.
pub open spec fn lists_children(boards: Seq<Board>, p: Position) -> bool {
    &&& forall|k: int| 0 <= k < boards.len() ==> p.is_child(#[trigger] boards[k]@)
    &&& forall|c: Position| #[trigger]
        p.is_child(c) ==> exists|k: int| 0 <= k < boards.len() && #[trigger] boards[k]@ == c
}

/// Two sequences with the same members, counted, have the same length, and
/// each member of one is a member of the other.
pub proof fn lemma_same_members(a: Seq<Board>, b: Seq<Board>)
    requires
        a.to_multiset() == b.to_multiset(),
    ensures
        a.len() == b.len(),
        forall|i: int| 0 <= i < a.len() ==> b.contains(#[trigger] a[i]),
        forall|i: int| 0 <= i < b.len() ==> a.contains(#[trigger] b[i]),
{
    to_multiset_len(a);
    to_multiset_len(b);
    assert forall|i: int| 0 <= i < a.len() implies b.contains(#[trigger] a[i]) by {
        assert(a.contains(a[i]));
        to_multiset_contains(a, a[i]);
        to_multiset_contains(b, a[i]);
    }
    assert forall|i: int| 0 <= i < b.len() implies a.contains(#[trigger] b[i]) by {
        assert(b.contains(b[i]));
        to_multiset_contains(a, b[i]);
        to_multiset_contains(b, b[i]);
    }
}

/// The boards that `Board::children` returns list the children, and so does
/// every rearrangement of them.
pub proof fn lemma_lists_children(children: Seq<Board>, sorted: Seq<Board>, p: Position)
    requires
        children.len() == p.children().len(),
        forall|i: int| 0 <= i < children.len() ==> (#[trigger] children[i])@ == p.children()[i],
        sorted.to_multiset() == children.to_multiset(),
    ensures
        lists_children(sorted, p),
        sorted.len() == children.len(),
{
    lemma_same_members(sorted, children);
    assert forall|k: int| 0 <= k < sorted.len() implies p.is_child(#[trigger] sorted[k]@) by {
        assert(children.contains(sorted[k]));
        let j = choose|j: int| 0 <= j < children.len() && children[j] == sorted[k];
        assert(p.children()[j] == sorted[k]@);
    }
    assert forall|c: Position| #[trigger] p.is_child(c) implies exists|k: int|
        0 <= k < sorted.len() && #[trigger] sorted[k]@ == c by {
        let j = choose|j: int| 0 <= j < p.children().len() && #[trigger] p.children()[j] == c;
        assert(sorted.contains(children[j]));
        let k = choose|k: int| 0 <= k < sorted.len() && sorted[k] == children[j];
        assert(sorted[k]@ == c);
    }
}

/// A player that looks a fixed number of plies ahead, with what the children
/// were worth in its last search for a move.
pub struct Bot {
    search_depth: u32,
    values: Vec<i32>,
}

impl Bot {
    /// The number of plies that the player looks ahead.
    pub closed spec fn depth(&self) -> nat {
        self.search_depth as nat
    }

    /// The depth at which the positions after the player's own move are
    /// searched: one ply less than the player's depth, and none where that
    /// depth is zero.
    pub open spec fn reply_depth(&self) -> nat {
        if self.depth() >= 1 {
            (self.depth() - 1) as nat
        } else {
            0
        }
    }

    /// What each child was worth in the last search for a move, in the
    /// order of the children.
    pub closed spec fn values(&self) -> Seq<i32> {
        self.values@
    }

    /// A player that looks `search_depth` plies ahead and has not searched
    /// yet.
    pub fn new(search_depth: u32) -> (bot: Bot)
        ensures
            bot.depth() == search_depth,
            bot.values().len() == 0,
    {
        Bot { search_depth, values: Vec::new() }
    }

    /// What each child was worth in the last search for a move, in the
    /// order of the children.
    pub fn last_values(&self) -> (r: &Vec<i32>)
        ensures
            r@ == self.values(),
    {
        &self.values
    }

    /// The static evaluation of `board`, as its mover sees it: five times the
    /// corner difference plus the difference in potential moves.
    pub fn heuristic(&self, board: &Board) -> (r: i32)
        ensures
            r == board@.heuristic(),
    {
        proof {
            board@.lemma_score_bounds();
        }
        5 * board.corner_difference() + board.potential_moves_difference()
    }

    /// The boards of `children` in the order of rising static evaluation.
    pub fn sorted_by_heuristic(&self, children: &Vec<Board>) -> (sorted: Vec<Board>)
        ensures
            sorted@.to_multiset() == children@.to_multiset(),
            forall|i: int, j: int|
                0 <= i <= j < sorted@.len() ==> (#[trigger] sorted@[i])@.heuristic() <= (
                #[trigger] sorted@[j])@.heuristic(),
    {
        let mut sorted: Vec<Board> = Vec::new();
        let mut taken: usize = 0;
        proof {
            assert(children@.subrange(0, 0) =~= sorted@);
        }
        while taken < children.len()
            invariant
                taken <= children.len(),
                sorted@.to_multiset() == children@.subrange(0, taken as int).to_multiset(),
                forall|i: int, j: int|
                    0 <= i <= j < sorted@.len() ==> (#[trigger] sorted@[i])@.heuristic() <= (
                    #[trigger] sorted@[j])@.heuristic(),
            decreases children.len() - taken,
        {
            let child = children[taken];
            let key = self.heuristic(&child);
            let mut at = sorted.len();
            while at > 0
                invariant
                    at <= sorted.len(),
                    key == child@.heuristic(),
                    forall|j: int|
                        at <= j < sorted@.len() ==> (#[trigger] sorted@[j])@.heuristic() > key,
                ensures
                    at <= sorted.len(),
                    forall|j: int|
                        at <= j < sorted@.len() ==> (#[trigger] sorted@[j])@.heuristic() > key,
                    at == 0 || sorted@[at - 1]@.heuristic() <= key,
                decreases at,
            {
                if self.heuristic(&sorted[at - 1]) <= key {
                    break;
                }
                at -= 1;
            }
            proof {
                let before = children@.subrange(0, taken as int);
                to_multiset_insert(sorted@, at as int, child);
                to_multiset_build(before, child);
                assert(children@.subrange(0, taken + 1) =~= before.push(child));
            }
            sorted.insert(at, child);
            taken += 1;
        }
        proof {
            assert(children@.subrange(0, taken as int) =~= children@);
        }
        sorted
    }

    /// A search inside the window of width one above `alpha`: it tells
    /// whether the value of `board` at `depth` exceeds `alpha`. Returns what
    /// a search between `alpha` and `alpha + 1` returns.
    pub fn null_window(&self, board: &Board, alpha: i32, depth: u32) -> (r: i32)
        requires
            depth >= 1 ==> window_fits(board@, alpha as int, alpha + 1),
        ensures
            r == search_value(board@, alpha as int, alpha + 1, depth as nat),
        decreases depth, (if board@.has_moves() { 0nat } else { 1nat }),
    {
        proof {
            use_type_invariant(board);
            board@.lemma_score_bounds();
            board@.lemma_children_exist();
        }
        if depth == 0 {
            return self.heuristic(board);
        }
        let children = board.children();
        if children.len() == 0 {
            let mut passed = board.clone();
            passed.switch_turn();
            proof {
                board@.lemma_pass_keeps_discs();
                passed@.lemma_children_exist();
            }
            if passed.children().len() == 0 {
                return TERMINAL_SCALE * board.exact_score();
            }
            proof {
                lemma_negamax_of_pass(board@, depth as nat);
                lemma_negamax_bound(passed@, depth as nat);
            }
            return -self.null_window(&passed, -(alpha + 1), depth);
        }
        proof {
            lemma_lists_children(children@, children@, board@);
        }
        let mut i: usize = 0;
        while i < children.len()
            invariant
                i <= children.len(),
                depth >= 1,
                board@.valid(),
                board@.has_moves(),
                lists_children(children@, board@),
                window_fits(board@, alpha as int, alpha + 1),
                forall|k: int|
                    0 <= k < i ==> reply_value((#[trigger] children@[k])@, (depth - 1) as nat)
                        <= alpha,
            decreases children.len() - i,
        {
            let child = &children[i];
            proof {
                board@.lemma_child(child@);
                board@.lemma_score_bounds();
                lemma_negamax_bound(child@, (depth - 1) as nat);
                lemma_negamax_is_best_child(board@, depth as nat);
            }
            let value = -self.null_window(child, -(alpha + 1), depth - 1);
            if value > alpha {
                return alpha + 1;
            }
            i += 1;
        }
        proof {
            lemma_negamax_is_best_child(board@, depth as nat);
        }
        alpha
    }

    /// A search of every child inside the full window that is left. Returns
    /// the value of `board` at `depth` held to the window `alpha ..= beta`, and
    /// the value itself where `board` is a leaf.
    pub fn alpha_beta(&self, board: &Board, alpha: i32, beta: i32, depth: u32) -> (r: i32)
        requires
            depth >= 1 ==> window_fits(board@, alpha as int, beta as int),
        ensures
            r == search_value(board@, alpha as int, beta as int, depth as nat),
        decreases depth, (if board@.has_moves() { 0nat } else { 1nat }),
    {
        proof {
            use_type_invariant(board);
            board@.lemma_score_bounds();
            board@.lemma_children_exist();
        }
        if depth == 0 {
            return self.heuristic(board);
        }
        let children = board.children();
        if children.len() == 0 {
            let mut passed = board.clone();
            passed.switch_turn();
            proof {
                board@.lemma_pass_keeps_discs();
                passed@.lemma_children_exist();
            }
            if passed.children().len() == 0 {
                return TERMINAL_SCALE * board.exact_score();
            }
            proof {
                lemma_negamax_of_pass(board@, depth as nat);
                lemma_negamax_bound(passed@, depth as nat);
            }
            return -self.alpha_beta(&passed, -beta, -alpha, depth);
        }
        proof {
            lemma_lists_children(children@, children@, board@);
        }
        let mut lower = alpha;
        let mut i: usize = 0;
        while i < children.len()
            invariant
                i <= children.len(),
                depth >= 1,
                board@.valid(),
                board@.has_moves(),
                lists_children(children@, board@),
                window_fits(board@, lower as int, beta as int),
                alpha <= lower,
                alpha >= beta ==> lower == alpha,
                alpha < beta ==> lower < beta,
                forall|k: int|
                    alpha > beta && 0 <= k < i ==> is_leaf(
                        (#[trigger] children@[k])@,
                        (depth - 1) as nat,
                    ) && reply_value(children@[k]@, (depth - 1) as nat) < beta,
                forall|k: int|
                    alpha < beta && 0 <= k < i ==> reply_value(
                        (#[trigger] children@[k])@,
                        (depth - 1) as nat,
                    ) <= lower,
                alpha < lower ==> exists|k: int|
                    0 <= k < i && reply_value((#[trigger] children@[k])@, (depth - 1) as nat)
                        == lower,
            decreases children.len() - i,
        {
            let child = &children[i];
            proof {
                board@.lemma_child(child@);
                board@.lemma_score_bounds();
                lemma_negamax_bound(child@, (depth - 1) as nat);
                lemma_negamax_is_best_child(board@, depth as nat);
            }
            let value = -self.alpha_beta(child, -beta, -lower, depth - 1);
            if value >= beta {
                return beta;
            }
            if value > lower {
                lower = value;
            }
            i += 1;
        }
        proof {
            lemma_negamax_is_best_child(board@, depth as nat);
        }
        lower
    }

    /// The principal-variation search: the children are tried in the order
    /// of rising static evaluation, the first inside the full window that is
    /// left, each later one inside a window of width one first and inside the
    /// full window again only if it turned out to be better. Returns what
    /// `alpha_beta` returns: the value of `board` at `depth` held to the window
    /// `alpha ..= beta`, and the value itself where `board` is a leaf.
    pub fn pvs(&self, board: &Board, alpha: i32, beta: i32, depth: u32) -> (r: i32)
        requires
            depth >= 1 ==> window_fits(board@, alpha as int, beta as int),
        ensures
            r == search_value(board@, alpha as int, beta as int, depth as nat),
        decreases depth, (if board@.has_moves() { 0nat } else { 1nat }),
    {
        proof {
            use_type_invariant(board);
            board@.lemma_score_bounds();
            board@.lemma_children_exist();
        }
        if depth == 0 {
            return self.heuristic(board);
        }
        let children = board.children();
        if children.len() == 0 {
            let mut passed = board.clone();
            passed.switch_turn();
            proof {
                board@.lemma_pass_keeps_discs();
                passed@.lemma_children_exist();
            }
            if passed.children().len() == 0 {
                return TERMINAL_SCALE * board.exact_score();
            }
            proof {
                lemma_negamax_of_pass(board@, depth as nat);
                lemma_negamax_bound(passed@, depth as nat);
            }
            return -self.pvs(&passed, -beta, -alpha, depth);
        }
        let sorted = self.sorted_by_heuristic(&children);
        proof {
            lemma_lists_children(children@, sorted@, board@);
        }
        let mut lower = alpha;
        let mut i: usize = 0;
        while i < sorted.len()
            invariant
                i <= sorted.len(),
                depth >= 1,
                board@.valid(),
                board@.has_moves(),
                lists_children(sorted@, board@),
                window_fits(board@, lower as int, beta as int),
                alpha <= lower,
                alpha >= beta ==> lower == alpha,
                alpha < beta ==> lower < beta,
                forall|k: int|
                    alpha > beta && 0 <= k < i ==> is_leaf(
                        (#[trigger] sorted@[k])@,
                        (depth - 1) as nat,
                    ) && reply_value(sorted@[k]@, (depth - 1) as nat) < beta,
                forall|k: int|
                    alpha < beta && 0 <= k < i ==> reply_value(
                        (#[trigger] sorted@[k])@,
                        (depth - 1) as nat,
                    ) <= lower,
                alpha < lower ==> exists|k: int|
                    0 <= k < i && reply_value((#[trigger] sorted@[k])@, (depth - 1) as nat)
                        == lower,
            decreases sorted.len() - i,
        {
            let child = &sorted[i];
            proof {
                board@.lemma_child(child@);
                board@.lemma_score_bounds();
                lemma_negamax_bound(child@, (depth - 1) as nat);
                lemma_negamax_is_best_child(board@, depth as nat);
            }
            let mut value;
            if i == 0 {
                value = -self.pvs(child, -beta, -lower, depth - 1);
            } else {
                value = -self.null_window(child, -(lower + 1), depth - 1);
                if value > lower {
                    value = -self.pvs(child, -beta, -value, depth - 1);
                }
            }
            if value >= beta {
                return beta;
            }
            if value > lower {
                lower = value;
            }
            i += 1;
        }
        proof {
            lemma_negamax_is_best_child(board@, depth as nat);
        }
        lower
    }

    /// The search without a window: every child of every position down to
    /// `depth` is looked at. Returns the value of `board` at `depth` as the
    /// player to move at the root sees it: as the mover of `board` where
    /// `is_max` holds, and as the other player where it does not.
    pub fn minimax(&self, board: &Board, depth: u32, is_max: bool) -> (r: i32)
        ensures
            r == if is_max {
                negamax(board@, depth as nat)
            } else {
                -negamax(board@, depth as nat)
            },
        decreases depth, (if board@.has_moves() { 0nat } else { 1nat }),
    {
        proof {
            use_type_invariant(board);
            board@.lemma_score_bounds();
            board@.lemma_children_exist();
        }
        if depth == 0 {
            let value = self.heuristic(board);
            return if is_max {
                value
            } else {
                -value
            };
        }
        let children = board.children();
        if children.len() == 0 {
            let mut passed = board.clone();
            passed.switch_turn();
            proof {
                board@.lemma_pass_keeps_discs();
                passed@.lemma_children_exist();
            }
            if passed.children().len() == 0 {
                let value = TERMINAL_SCALE * board.exact_score();
                return if is_max {
                    value
                } else {
                    -value
                };
            }
            proof {
                lemma_negamax_of_pass(board@, depth as nat);
            }
            return self.minimax(&passed, depth, !is_max);
        }
        proof {
            lemma_lists_children(children@, children@, board@);
        }
        let mut best = if is_max {
            -FULL_WINDOW
        } else {
            FULL_WINDOW
        };
        let mut i: usize = 0;
        while i < children.len()
            invariant
                i <= children.len(),
                depth >= 1,
                board@.valid(),
                board@.has_moves(),
                lists_children(children@, board@),
                -FULL_WINDOW <= best <= FULL_WINDOW,
                forall|k: int|
                    0 <= k < i ==> reply_value((#[trigger] children@[k])@, (depth - 1) as nat) <= (
                    if is_max {
                        best as int
                    } else {
                        -best
                    }),
                i == 0 ==> best == (if is_max {
                    -FULL_WINDOW
                } else {
                    FULL_WINDOW as int
                }),
                i > 0 ==> exists|k: int|
                    0 <= k < i && reply_value((#[trigger] children@[k])@, (depth - 1) as nat) == (
                    if is_max {
                        best as int
                    } else {
                        -best
                    }),
            decreases children.len() - i,
        {
            let child = &children[i];
            proof {
                lemma_negamax_bound(child@, (depth - 1) as nat);
            }
            let value = self.minimax(child, depth - 1, !is_max);
            if is_max {
                if value > best {
                    best = value;
                }
            } else {
                if value < best {
                    best = value;
                }
            }
            i += 1;
        }
        proof {
            lemma_negamax_is_best_child(board@, depth as nat);
        }
        best
    }

    /// Picks the move for the player to move on `board`: the child that is
    /// worth most to that player when the search goes on from it, one ply
    /// less deep than the player looks ahead, and the first such child where
    /// several are worth as much. What each child turned out to be worth is
    /// kept for `last_values`. Fails where there is no legal square.
    pub fn do_move(&mut self, board: &Board) -> (r: Result<Board, GameError>)
        ensures
            final(self).depth() == old(self).depth(),
            final(self).values().len() == board@.children().len(),
            forall|i: int|
                0 <= i < board@.children().len() ==> (#[trigger] final(self).values()[i])
                    == root_value(board@.children(), old(self).reply_depth(), i),
            match r {
                Ok(b) => board@.has_moves() && exists|k: int|
                    is_first_best(board@.children(), old(self).reply_depth(), k) && b@
                        == board@.children()[k],
                Err(e) => e == GameError::NoLegalMoves && !board@.has_moves(),
            },
    {
        proof {
            use_type_invariant(board);
            board@.lemma_children_exist();
        }
        let children = board.children();
        let mut values: Vec<i32> = Vec::new();
        if children.len() == 0 {
            self.values = values;
            return Err(GameError::NoLegalMoves);
        }
        proof {
            lemma_lists_children(children@, children@, board@);
        }
        let depth = if self.search_depth > 0 {
            self.search_depth - 1
        } else {
            0
        };
        let ghost cs = board@.children();
        let mut best_child = children[0];
        let mut alpha = -FULL_WINDOW;
        let beta = FULL_WINDOW;
        let ghost mut best: int = 0;
        let mut i: usize = 0;
        while i < children.len()
            invariant
                i <= children.len(),
                cs == board@.children(),
                children@.len() == cs.len(),
                forall|k: int| 0 <= k < children@.len() ==> (#[trigger] children@[k])@ == cs[k],
                depth == self.reply_depth(),
                self.depth() == old(self).depth(),
                beta == FULL_WINDOW,
                board@.valid(),
                lists_children(children@, board@),
                -FULL_WINDOW <= alpha <= FULL_WINDOW,
                alpha == best_reply(cs, depth as nat, i as nat),
                values@.len() == i,
                forall|k: int|
                    0 <= k < i ==> (#[trigger] values@[k]) == root_value(cs, depth as nat, k),
                0 <= best < children.len(),
                best_child == children@[best],
                i == 0 ==> best == 0,
                i > 0 ==> best < i && alpha == reply_value(cs[best], depth as nat),
                forall|k: int| 0 <= k < i ==> reply_value(#[trigger] cs[k], depth as nat) <= alpha,
                forall|k: int|
                    0 <= k < best ==> reply_value(#[trigger] cs[k], depth as nat) < alpha,
            decreases children.len() - i,
        {
            let child = &children[i];
            proof {
                assert(child@ == cs[i as int]);
                board@.lemma_child(child@);
                board@.lemma_score_bounds();
                lemma_negamax_bound(child@, depth as nat);
            }
            let value = -self.pvs(child, -beta, -alpha, depth);
            values.push(value);
            if value > alpha {
                alpha = value;
                best_child = children[i];
                proof {
                    best = i as int;
                }
            }
            i += 1;
        }
        proof {
            assert(is_first_best(cs, depth as nat, best));
        }
        self.values = values;
        Ok(best_child)
    }
}

} // verus!

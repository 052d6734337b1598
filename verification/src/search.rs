//! The value that the search looks for: the negamax value of a position at a
//! given depth, and what a search inside a window returns of it.

use crate::position::Position;
use vstd::prelude::*;

verus! {

/// The factor by which a final score outweighs any static evaluation.
pub const TERMINAL_SCALE: i32 = 1000;

/// The bound of the widest window: no value lies outside `-FULL_WINDOW ..=
/// FULL_WINDOW`.
pub const FULL_WINDOW: i32 = 64000;

/// The value of `p` for its mover when both players look `depth` plies ahead:
/// the static evaluation at depth zero, the scaled final score where the game
/// is over, the negated value of the same discs for the other player where
/// the mover has to pass (which costs no depth), and else the best of the
/// negated values of the children, one ply less deep.
pub open spec fn negamax(p: Position, depth: nat) -> int
    decreases depth, (if p.has_moves() { 0nat } else { 1nat }), 0nat,
{
    if depth == 0 {
        p.heuristic()
    } else if !p.has_moves() {
        if !p.pass().has_moves() {
            TERMINAL_SCALE * p.exact_score()
        } else {
            -negamax(p.pass(), depth)
        }
    } else {
        best_reply(p.children(), (depth - 1) as nat, p.children().len())
    }
}

/// What a move to `child` is worth to the player who makes it.
pub open spec fn reply_value(child: Position, depth: nat) -> int {
    -negamax(child, depth)
}

/// The greatest `reply_value` among the first `n` of `replies`.
pub open spec fn best_reply(replies: Seq<Position>, depth: nat, n: nat) -> int
    decreases depth, 2nat, n,
{
    if n == 0 {
        -FULL_WINDOW
    } else if n == 1 {
        -negamax(replies[0], depth)
    } else {
        let last = -negamax(replies[n - 1], depth);
        let rest = best_reply(replies, depth, (n - 1) as nat);
        if last > rest {
            last
        } else {
            rest
        }
    }
}

/// Whether a search of `p` at `depth` looks at no child: the depth is used
/// up, or the game is over.
pub open spec fn is_leaf(p: Position, depth: nat) -> bool {
    depth == 0 || p.is_terminal()
}

/// `v` where it lies inside the window, else the bound that it is beyond.
pub open spec fn clamp(v: int, alpha: int, beta: int) -> int {
    if v <= alpha {
        alpha
    } else if v >= beta {
        beta
    } else {
        v
    }
}

/// Whether a search of `p` with its bound `beta` stops at one of the
/// children, where `alpha > beta`: at a child that is no leaf, whatever it is
/// worth, and at a leaf that is worth `beta` or more.
pub open spec fn cuts_off(p: Position, beta: int, depth: nat) -> bool {
    exists|c: Position| #[trigger]
        p.is_child(c) && (!is_leaf(c, (depth - 1) as nat) || reply_value(c, (depth - 1) as nat)
            >= beta)
}

/// What a search of `p` at `depth` between the bounds `alpha` and `beta`
/// returns. At a leaf it is the value itself. Elsewhere, with `alpha <=
/// beta`, it is the value held to the window. With `alpha > beta` nothing is
/// learnt of the value: where the mover has a legal square, the search
/// returns `beta` if it stops at a child and `alpha` if not, and where the
/// mover has to pass, it returns the negated result of the other player's
/// search between `-beta` and `-alpha`.
pub open spec fn search_value(p: Position, alpha: int, beta: int, depth: nat) -> int {
    if is_leaf(p, depth) {
        negamax(p, depth)
    } else if alpha <= beta {
        clamp(negamax(p, depth), alpha, beta)
    } else if p.has_moves() {
        if cuts_off(p, beta, depth) {
            beta
        } else {
            alpha
        }
    } else {
        if cuts_off(p.pass(), -alpha, depth) {
            alpha
        } else {
            beta
        }
    }
}

/// The largest bound that a window on `p` may have. A search may hand a
/// window down that is wider by one, once for each disc that can still be
/// placed, and the bounds of the widest must still be negated and raised by
/// one within an `i32`.
pub open spec fn window_limit(p: Position) -> int {
    i32::MAX - 65 + p.disc_count()
}

/// Whether both bounds of a window are within `window_limit(p)`.
pub open spec fn window_fits(p: Position, alpha: int, beta: int) -> bool {
    &&& -window_limit(p) <= alpha <= window_limit(p)
    &&& -window_limit(p) <= beta <= window_limit(p)
}

/// Whether `k` is the first of `replies` with the greatest `reply_value`.
pub open spec fn is_first_best(replies: Seq<Position>, depth: nat, k: int) -> bool {
    &&& 0 <= k < replies.len()
    &&& forall|i: int|
        0 <= i < replies.len() ==> reply_value(#[trigger] replies[i], depth) <= reply_value(
            replies[k],
            depth,
        )
    &&& forall|i: int|
        0 <= i < k ==> reply_value(#[trigger] replies[i], depth) < reply_value(replies[k], depth)
}

/// What child number `i` turns out to be worth when the children are
/// searched one after another, each inside the window above the best of those
/// before it: its own value where it is a leaf or worth more than they are,
/// and else the best of theirs.
pub open spec fn root_value(replies: Seq<Position>, depth: nat, i: int) -> int {
    let own = reply_value(replies[i], depth);
    let before = best_reply(replies, depth, i as nat);
    if is_leaf(replies[i], depth) || own > before {
        own
    } else {
        before
    }
}

/// No value lies outside the full window.
pub proof fn lemma_negamax_bound(p: Position, depth: nat)
    ensures
        -FULL_WINDOW <= negamax(p, depth) <= FULL_WINDOW,
    decreases depth, (if p.has_moves() { 0nat } else { 1nat }), 0nat,
{
    p.lemma_score_bounds();
    if depth == 0 {
    } else if !p.has_moves() {
        if p.pass().has_moves() {
            lemma_negamax_bound(p.pass(), depth);
        }
    } else {
        lemma_best_reply_bound(p.children(), (depth - 1) as nat, p.children().len());
    }
}

/// No best reply lies outside the full window.
pub proof fn lemma_best_reply_bound(replies: Seq<Position>, depth: nat, n: nat)
    ensures
        -FULL_WINDOW <= best_reply(replies, depth, n) <= FULL_WINDOW,
    decreases depth, 2nat, n,
{
    if n >= 1 {
        lemma_negamax_bound(replies[n - 1], depth);
        if n > 1 {
            lemma_best_reply_bound(replies, depth, (n - 1) as nat);
        }
    }
}

/// The best reply is the value of one of the replies, and none is worth more.
pub proof fn lemma_best_reply(replies: Seq<Position>, depth: nat, n: nat)
    requires
        1 <= n <= replies.len(),
    ensures
        forall|i: int|
            0 <= i < n ==> reply_value(#[trigger] replies[i], depth) <= best_reply(
                replies,
                depth,
                n,
            ),
        exists|i: int|
            0 <= i < n && reply_value(#[trigger] replies[i], depth) == best_reply(
                replies,
                depth,
                n,
            ),
    decreases n,
{
    if n > 1 {
        lemma_best_reply(replies, depth, (n - 1) as nat);
        let rest = best_reply(replies, depth, (n - 1) as nat);
        let j = choose|i: int| 0 <= i < n - 1 && reply_value(#[trigger] replies[i], depth) == rest;
        if reply_value(replies[n - 1], depth) > rest {
            assert(reply_value(replies[n - 1], depth) == best_reply(replies, depth, n));
        } else {
            assert(reply_value(replies[j], depth) == best_reply(replies, depth, n));
        }
    } else {
        assert(reply_value(replies[0], depth) == best_reply(replies, depth, n));
    }
}

/// Where the mover has a legal square and depth is left, the value is that
/// of the best child: no child is worth more, and one is worth as much.
pub proof fn lemma_negamax_is_best_child(p: Position, depth: nat)
    requires
        depth >= 1,
        p.has_moves(),
    ensures
        forall|c: Position| #[trigger]
            p.is_child(c) ==> reply_value(c, (depth - 1) as nat) <= negamax(p, depth),
        exists|c: Position| #[trigger]
            p.is_child(c) && reply_value(c, (depth - 1) as nat) == negamax(p, depth),
{
    let cs = p.children();
    let d = (depth - 1) as nat;
    p.lemma_children_exist();
    lemma_best_reply(cs, d, cs.len());
    assert forall|c: Position| #[trigger] p.is_child(c) implies reply_value(c, d) <= negamax(
        p,
        depth,
    ) by {
        let i = choose|i: int| 0 <= i < cs.len() && #[trigger] cs[i] == c;
        assert(reply_value(cs[i], d) <= best_reply(cs, d, cs.len()));
    }
    let i = choose|i: int|
        0 <= i < cs.len() && reply_value(#[trigger] cs[i], d) == best_reply(cs, d, cs.len());
    assert(p.is_child(cs[i]));
}

/// The first of the best children is worth what the position is worth: a
/// player who moves there gets the value of the position.
pub proof fn lemma_first_best_is_value(p: Position, depth: nat, k: int)
    requires
        depth >= 1,
        is_first_best(p.children(), (depth - 1) as nat, k),
    ensures
        p.has_moves(),
        reply_value(p.children()[k], (depth - 1) as nat) == negamax(p, depth),
{
    p.lemma_children_exist();
    lemma_negamax_is_best_child(p, depth);
    assert(p.is_child(p.children()[k]));
    let c = choose|c: Position| #[trigger]
        p.is_child(c) && reply_value(c, (depth - 1) as nat) == negamax(p, depth);
    let i = choose|i: int| 0 <= i < p.children().len() && #[trigger] p.children()[i] == c;
    assert(reply_value(p.children()[i], (depth - 1) as nat) <= reply_value(
        p.children()[k],
        (depth - 1) as nat,
    ));
}

/// Where the game is over, a search with depth left returns the scaled final
/// score, whatever the window.
pub proof fn lemma_terminal_value(p: Position, alpha: int, beta: int, depth: nat)
    requires
        depth >= 1,
        p.is_terminal(),
    ensures
        negamax(p, depth) == TERMINAL_SCALE * p.exact_score(),
        search_value(p, alpha, beta, depth) == TERMINAL_SCALE * p.exact_score(),
{
}

/// Inside the full window a search returns the value itself: a search that
/// prunes returns what the search of every position returns.
pub proof fn lemma_full_window(p: Position, depth: nat)
    ensures
        search_value(p, -FULL_WINDOW as int, FULL_WINDOW as int, depth) == negamax(p, depth),
{
    lemma_negamax_bound(p, depth);
}

/// What a search returns is the value itself wherever the value lies
/// strictly inside the window, and else lies on the same side of the window as
/// the value.
pub proof fn lemma_search_value_bounds(p: Position, alpha: int, beta: int, depth: nat)
    requires
        alpha <= beta,
    ensures
        alpha < negamax(p, depth) < beta ==> search_value(p, alpha, beta, depth) == negamax(
            p,
            depth,
        ),
        negamax(p, depth) <= alpha ==> search_value(p, alpha, beta, depth) <= alpha,
        negamax(p, depth) >= beta ==> search_value(p, alpha, beta, depth) >= beta,
{
}

/// After a pass the value changes its sign, where the other player can move.
pub proof fn lemma_negamax_of_pass(p: Position, depth: nat)
    requires
        depth >= 1,
        !p.has_moves(),
        p.pass().has_moves(),
    ensures
        negamax(p, depth) == -negamax(p.pass(), depth),
        !is_leaf(p, depth),
        !is_leaf(p.pass(), depth),
{
}

} // verus!

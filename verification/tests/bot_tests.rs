use othello::board::{Board, GameError};
use othello::bot::Bot;
use othello::position::Cell;

fn board_of(me: u64, opp: u64) -> Board {
    Board::with_discs(me, opp).expect("the two sets share a square")
}

fn generate_test_boards() -> Vec<Board> {
    let mut boards = Vec::new();

    for y in 0..8 {
        for x in 0..8 {
            let me: u64 = 1 << (y * 8 + x);

            // for each direction
            for dy in -1..2 {
                for dx in -1..2 {
                    if (dy == 0) && (dx == 0) {
                        continue;
                    }
                    let mut opp: u64 = 0;

                    // for each distance
                    for d in 1..7 {
                        // check if me can still flip within othello boundaries
                        let py = y + (d + 1) * dy;
                        let px = x + (d + 1) * dx;

                        if (py < 0) || (py > 7) || (px < 0) || (px > 7) {
                            break;
                        }

                        let qy = y + (d * dy);
                        let qx = x + (d * dx);

                        opp |= 1 << (qy * 8 + qx);

                        boards.push(board_of(me, opp));
                    }
                }
            }
        }
    }

    boards.push(Board::new());

    // random reachable boards with 4-64 discs
    for _ in 0..10 {
        for discs in 4..65 {
            boards.push(Board::new_random(discs).expect("no game reached the disc count"));
        }
    }

    boards
}

fn print_board(board: &Board, white_to_move: bool) {
    let cells = board.cells(white_to_move);
    println!("+-----------------+");
    for row in 0..8 {
        let mut line = String::from("| ");
        for column in 0..8 {
            line.push_str(match cells[8 * row + column] {
                Cell::Empty => "  ",
                Cell::Move => "- ",
                Cell::White => "O ",
                Cell::Black => "X ",
            });
        }
        println!("{}|", line);
    }
    println!("+-----------------+");
}

fn heuristic(board: &Board) -> i32 {
    5 * board.corner_difference() + board.potential_moves_difference()
}

/// The value of `board` for its mover, by looking at every position.
fn plain_negamax(board: &Board, depth: u32) -> i32 {
    if depth == 0 {
        return heuristic(board);
    }
    let children = board.children();
    if children.is_empty() {
        let mut passed = board.clone();
        passed.switch_turn();
        if passed.children().is_empty() {
            return 1000 * board.exact_score();
        }
        return -plain_negamax(&passed, depth);
    }
    let mut best = i32::MIN;
    for child in children.iter() {
        best = best.max(-plain_negamax(child, depth - 1));
    }
    best
}

#[test]
fn test_alphabeta() {
    let boards = generate_test_boards();
    let depth = 3;
    let bot = Bot::new(depth);

    for board in boards.iter() {
        let minimax = bot.minimax(board, depth, true);
        let alpha_beta = bot.alpha_beta(board, -64000, 64000, depth);

        if minimax != alpha_beta {
            print_board(board, true);
            println!("minimax: {}", minimax);
            println!("alpha_beta: {}", alpha_beta);
        }
        assert_eq!(minimax, alpha_beta);
    }
}

#[test]
fn test_pvs() {
    let boards = generate_test_boards();
    let depth = 4;
    let bot = Bot::new(depth);

    for board in boards.iter() {
        let alpha_beta = bot.alpha_beta(board, -64000, 64000, depth);
        let pvs = bot.pvs(board, -64000, 64000, depth);

        if alpha_beta != pvs {
            print_board(board, true);
            println!("alpha_beta: {}", alpha_beta);
            println!("pvs: {}", pvs);
        }
        assert_eq!(alpha_beta, pvs);
    }
}

#[test]
fn every_search_finds_the_value_of_the_plain_search() {
    let boards = generate_test_boards();
    let bot = Bot::new(3);
    for depth in 0..4 {
        for board in boards.iter() {
            let value = plain_negamax(board, depth);
            assert_eq!(bot.minimax(board, depth, true), value);
            assert_eq!(bot.minimax(board, depth, false), -value);
            assert_eq!(bot.alpha_beta(board, -64000, 64000, depth), value);
            assert_eq!(bot.pvs(board, -64000, 64000, depth), value);
        }
    }
}

fn is_leaf(board: &Board, depth: u32) -> bool {
    let mut passed = board.clone();
    passed.switch_turn();
    depth == 0 || (!board.has_moves() && !passed.has_moves())
}

fn cuts_off(board: &Board, beta: i32, depth: u32) -> bool {
    board
        .children()
        .iter()
        .any(|child| !is_leaf(child, depth - 1) || -plain_negamax(child, depth - 1) >= beta)
}

/// What a search between two bounds returns, from the value of the plain
/// search.
fn expected_search(board: &Board, alpha: i32, beta: i32, depth: u32) -> i32 {
    let value = plain_negamax(board, depth);
    if is_leaf(board, depth) {
        value
    } else if alpha <= beta {
        if value <= alpha {
            alpha
        } else if value >= beta {
            beta
        } else {
            value
        }
    } else if board.has_moves() {
        if cuts_off(board, beta, depth) {
            beta
        } else {
            alpha
        }
    } else {
        let mut passed = board.clone();
        passed.switch_turn();
        if cuts_off(&passed, -alpha, depth) {
            alpha
        } else {
            beta
        }
    }
}

#[test]
fn a_search_inside_a_window_holds_the_value_to_it() {
    let boards = generate_test_boards();
    let bot = Bot::new(2);
    for board in boards.iter() {
        for depth in 0..3 {
            for (alpha, beta) in [(-5, 5), (0, 1), (-1, 0), (3, 3), (-64000, 0), (0, 64000)] {
                let expected = expected_search(board, alpha, beta, depth);
                assert_eq!(bot.pvs(board, alpha, beta, depth), expected);
                assert_eq!(bot.alpha_beta(board, alpha, beta, depth), expected);
                if beta == alpha + 1 {
                    assert_eq!(bot.null_window(board, alpha, depth), expected);
                }
            }
        }
    }
}

#[test]
fn a_search_between_crossed_bounds_returns_one_of_them() {
    let boards = generate_test_boards();
    let bot = Bot::new(2);
    for board in boards.iter() {
        for depth in 1..4 {
            for (alpha, beta) in [(5, -5), (1, 0), (0, -1), (100, -100), (-3, -4), (64000, -64000)]
            {
                let expected = expected_search(board, alpha, beta, depth);
                assert_eq!(bot.pvs(board, alpha, beta, depth), expected);
                assert_eq!(bot.alpha_beta(board, alpha, beta, depth), expected);
                if !is_leaf(board, depth) {
                    assert!(expected == alpha || expected == beta);
                }
            }
        }
    }
}

#[test]
fn a_finished_game_is_worth_its_score_at_every_depth() {
    // Neither player can move: no disc is next to a disc of the other.
    let board = board_of(0b11, 1 << 63);
    assert!(!board.has_moves());
    let mut passed = board.clone();
    passed.switch_turn();
    assert!(!passed.has_moves());
    assert_eq!(board.exact_score(), 62);

    let bot = Bot::new(5);
    for depth in 1..8 {
        assert_eq!(bot.pvs(&board, -64000, 64000, depth), 62000);
        assert_eq!(bot.pvs(&board, -10, 10, depth), 62000);
        assert_eq!(bot.pvs(&board, 10, -10, depth), 62000);
        assert_eq!(bot.alpha_beta(&board, -64000, 64000, depth), 62000);
        assert_eq!(bot.null_window(&board, 0, depth), 62000);
        assert_eq!(bot.minimax(&board, depth, true), 62000);
        assert_eq!(bot.pvs(&passed, -64000, 64000, depth), -62000);
    }
    // With no depth left the search returns the static evaluation instead.
    assert_eq!(bot.pvs(&board, -64000, 64000, 0), bot.heuristic(&board));
    assert_eq!(bot.heuristic(&board), 5 * (1 - 1) + (4 - 3));
}

#[test]
fn without_depth_the_window_plays_no_part() {
    let boards = generate_test_boards();
    let bot = Bot::new(0);
    for board in boards.iter() {
        let value = bot.heuristic(board);
        assert_eq!(value, heuristic(board));
        for (alpha, beta) in [(i32::MIN, i32::MAX), (i32::MAX, i32::MIN), (0, 0), (-1, 1)] {
            assert_eq!(bot.pvs(board, alpha, beta, 0), value);
            assert_eq!(bot.alpha_beta(board, alpha, beta, 0), value);
        }
        assert_eq!(bot.null_window(board, i32::MAX, 0), value);
        assert_eq!(bot.null_window(board, i32::MIN, 0), value);
    }
}

#[test]
fn a_pass_costs_no_depth() {
    // The mover has no legal square, the other player has one.
    let board = board_of(1 << 1, 1 << 0);
    assert!(!board.has_moves());
    let mut passed = board.clone();
    passed.switch_turn();
    assert!(passed.has_moves());
    let bot = Bot::new(3);
    for depth in 1..5 {
        assert_eq!(
            bot.pvs(&board, -64000, 64000, depth),
            -bot.pvs(&passed, -64000, 64000, depth)
        );
        assert_eq!(bot.pvs(&board, -64000, 64000, depth), plain_negamax(&board, depth));
    }
}

#[test]
fn the_static_evaluation_weighs_corners_five_times() {
    let bot = Bot::new(1);
    // A corner for the mover, a disc of the other player next to it.
    let board = board_of(1, 1 << 9);
    assert_eq!(board.corner_difference(), 1);
    assert_eq!(board.potential_moves_difference(), 2 - 7);
    assert_eq!(bot.heuristic(&board), 0);
    // Two corners for the mover, none for the other player.
    let board = board_of((1 << 0) | (1 << 63), 1 << 27);
    assert_eq!(board.corner_difference(), 2);
    assert_eq!(board.potential_moves_difference(), 6 - 8);
    assert_eq!(bot.heuristic(&board), 8);
    assert_eq!(bot.heuristic(&Board::new()), 0);
}

#[test]
fn the_bot_picks_the_first_of_the_best_children() {
    let boards = generate_test_boards();
    for depth in 0..4 {
        let mut bot = Bot::new(depth);
        assert!(bot.last_values().is_empty());
        let below = if depth > 0 { depth - 1 } else { 0 };
        for board in boards.iter() {
            let children = board.children();
            let picked = bot.do_move(board);
            if children.is_empty() {
                assert_eq!(picked, Err(GameError::NoLegalMoves));
                assert!(bot.last_values().is_empty());
                continue;
            }
            let mut best = 0;
            for (i, child) in children.iter().enumerate() {
                if -plain_negamax(child, below) > -plain_negamax(&children[best], below) {
                    best = i;
                }
            }
            assert_eq!(picked, Ok(children[best]));
        }
    }
}

#[test]
fn the_bot_keeps_what_each_child_was_worth() {
    let boards = generate_test_boards();
    for depth in 0..4 {
        let mut bot = Bot::new(depth);
        let below = if depth > 0 { depth - 1 } else { 0 };
        for board in boards.iter() {
            let children = board.children();
            let _ = bot.do_move(board);
            let mut expected = Vec::new();
            let mut before = -64000;
            for child in children.iter() {
                let own = -plain_negamax(child, below);
                expected.push(if is_leaf(child, below) || own > before { own } else { before });
                before = before.max(own);
            }
            assert_eq!(*bot.last_values(), expected);
        }
    }
    // From the initial board every first move is worth the same at depth
    // one: the player who moved has 13 vacant squares next to its four discs,
    // the other player five next to its one.
    let mut bot = Bot::new(1);
    let picked = bot.do_move(&Board::new()).unwrap();
    assert_eq!(picked, Board::new().children()[0]);
    assert_eq!(*bot.last_values(), vec![13 - 5, 13 - 5, 13 - 5, 13 - 5]);
}

#[test]
fn the_bot_fails_without_a_legal_square() {
    let board = board_of(0b11, 1 << 63);
    let mut bot = Bot::new(4);
    assert_eq!(bot.do_move(&Board::new()).map(|_| ()), Ok(()));
    assert_eq!(bot.last_values().len(), 4);
    assert_eq!(bot.do_move(&board), Err(GameError::NoLegalMoves));
    assert!(bot.last_values().is_empty());
    assert_eq!(board.do_random_move(), Err(GameError::NoLegalMoves));
    assert_eq!(GameError::NoLegalMoves.message(), "No legal moves");
}

#[test]
fn sorting_orders_by_rising_evaluation_and_keeps_every_board() {
    let boards = generate_test_boards();
    let bot = Bot::new(1);
    for board in boards.iter() {
        let children = board.children();
        let sorted = bot.sorted_by_heuristic(&children);
        assert_eq!(sorted.len(), children.len());
        for pair in sorted.windows(2) {
            assert!(bot.heuristic(&pair[0]) <= bot.heuristic(&pair[1]));
        }
        let mut expected = children.clone();
        expected.sort_by_key(|child| bot.heuristic(child));
        assert_eq!(sorted, expected);
    }
}

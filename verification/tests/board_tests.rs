use othello::board::{Board, GameError};
use std::collections::HashSet;
use std::iter::FromIterator;

fn board_of(me: u64, opp: u64) -> Board {
    Board::with_discs(me, opp).expect("the two sets share a square")
}

fn generate_test_boards() -> Vec<Board> {
    let mut boards = Vec::new();

    for y in 0..8 {
        for x in 0..8 {
            let me: u64 = 1 << (y * 8 + x);

            // for each direction
            for dy in -1..2 {
                for dx in -1..2 {
                    if (dy == 0) && (dx == 0) {
                        continue;
                    }
                    let mut opp: u64 = 0;

                    // for each distance
                    for d in 1..7 {
                        // check if me can still flip within othello boundaries
                        let py = y + (d + 1) * dy;
                        let px = x + (d + 1) * dx;

                        if (py < 0) || (py > 7) || (px < 0) || (px > 7) {
                            break;
                        }

                        let qy = y + (d * dy);
                        let qx = x + (d * dx);

                        opp |= 1 << (qy * 8 + qx);

                        boards.push(board_of(me, opp));
                    }
                }
            }
        }
    }

    boards.push(Board::new());

    // random reachable boards with 4-64 discs
    for _ in 0..10 {
        for discs in 4..65 {
            boards.push(Board::new_random(discs).expect("no game reached the disc count"));
        }
    }

    boards
}

fn naive_count_discs(board: &Board) -> u32 {
    let mut count: u32 = 0;
    for i in 0..64 {
        if (board.me() | board.opp()) >> i & 1 == 1 {
            count += 1
        }
    }
    count
}

fn naive_switch_turn(board: &Board) -> Board {
    board_of(board.opp(), board.me())
}

fn naive_flip(board: &Board, index: usize) -> u64 {
    if (board.me() | board.opp()) >> index & 1 == 1 {
        return 0;
    }
    let mut flipped: u64 = 0;
    for dx in -1..2 {
        for dy in -1..2 {
            if dx == 0 && dy == 0 {
                continue;
            }
            let mut s = 1;
            loop {
                let curx = (index % 8) as i32 + (dx * s);
                let cury = (index / 8) as i32 + (dy * s);
                if curx < 0 || curx >= 8 || cury < 0 || cury >= 8 {
                    break;
                }

                let cur = 8 * cury + curx;

                if (board.opp() >> cur) & 1 == 1 {
                    s += 1;
                } else {
                    if ((board.me() >> cur) & 1 == 1) && s >= 2 {
                        for p in 1..s {
                            let f = index as i32 + (p * (8 * dy + dx));
                            flipped |= 1 << f;
                        }
                    }
                    break;
                }
            }
        }
    }
    flipped
}

fn naive_moves(board: &Board) -> u64 {
    let mut moves: u64 = 0;

    for index in 0..64 {
        if naive_flip(board, index) != 0 {
            moves |= 1 << index;
        }
    }
    moves
}

fn naive_do_move(board: &Board, index: usize) -> Board {
    let flipped = naive_flip(board, index);
    board_of(board.opp() ^ flipped, board.me() | flipped | 1 << index)
}

fn naive_children(board: &Board) -> Vec<Board> {
    let mut children = Vec::new();
    let moves = board.moves();
    for index in 0..64 {
        if (moves >> index) & 1 == 1 {
            children.push(board.do_move(index).unwrap());
        }
    }
    children
}

fn naive_exact_score(board: &Board) -> i32 {
    let me_count = board.me().count_ones() as i32;
    let opp_count = board.opp().count_ones() as i32;

    if me_count > opp_count {
        return 64 - 2 * opp_count;
    } else if opp_count > me_count {
        return -64 + 2 * me_count;
    }
    0
}

fn naive_corner_difference(board: &Board) -> i32 {
    let indexes = vec![0, 7, 56, 63];

    let mut diff: i32 = 0;
    for index in indexes.iter() {
        if (board.me() >> index) & 1 == 1 {
            diff += 1;
        }
        if (board.opp() >> index) & 1 == 1 {
            diff -= 1;
        }
    }
    diff
}

/// The vacant squares next to a disc of the player to move.
fn naive_potential_moves(board: &Board) -> u64 {
    let mut surround_me: u64 = 0;

    for index in 0..64 {
        if (board.me() >> index) & 1 == 1 {
            let y = index / 8;
            let x = index % 8;

            if y > 0 {
                if x > 0 {
                    surround_me |= 1 << (index - 9);
                }

                surround_me |= 1 << (index - 8);

                if x < 7 {
                    surround_me |= 1 << (index - 7);
                }
            }

            if x > 0 {
                surround_me |= 1 << (index - 1);
            }

            if x < 7 {
                surround_me |= 1 << (index + 1);
            }

            if y < 7 {
                if x > 0 {
                    surround_me |= 1 << (index + 7);
                }

                surround_me |= 1 << (index + 8);

                if x < 7 {
                    surround_me |= 1 << (index + 9);
                }
            }
        }
    }
    surround_me & !(board.me() | board.opp())
}

fn naive_potential_moves_difference(board: &Board) -> i32 {
    let me_potential_moves_count = naive_potential_moves(board).count_ones() as i32;
    let mut clone = board.clone();
    clone.switch_turn();
    let opp_potential_moves_count = naive_potential_moves(&clone).count_ones() as i32;

    me_potential_moves_count - opp_potential_moves_count
}

#[test]
fn test_board_do_random_move() {
    let boards = generate_test_boards();

    for board in boards.iter() {
        let children = HashSet::<Board>::from_iter(board.children());

        if children.len() == 0 {
            continue;
        }

        for _ in 0..20 {
            let child = board.do_random_move().unwrap();
            assert!(children.contains(&child));
        }
    }
}

#[test]
fn test_board_count_discs() {
    let boards = generate_test_boards();
    for board in boards.iter() {
        assert!(naive_count_discs(board) == board.count_discs());
    }
}

#[test]
fn test_board_switch_turn() {
    let boards = generate_test_boards();
    for board in boards.iter() {
        let mut fast: Board = board.clone();
        fast.switch_turn();

        let naive: Board = naive_switch_turn(board);
        assert_eq!(naive, fast);
    }
}

#[test]
fn test_board_flip() {
    let boards = generate_test_boards();
    for board in boards.iter() {
        let moves = board.moves();

        for index in 0..63 {
            if (moves >> index) & 1 == 1 {
                assert_eq!(naive_flip(board, index), board.flip(index));
            }
        }
    }
}

#[test]
fn test_board_moves() {
    let boards = generate_test_boards();

    for board in boards.iter() {
        assert_eq!(naive_moves(board), board.moves());
    }
}

#[test]
fn test_has_moves() {
    let boards = generate_test_boards();
    for board in boards.iter() {
        let has_moves = board.moves() != 0;
        assert_eq!(has_moves, board.has_moves());
    }
}

#[test]
fn test_board_do_move() {
    let boards = generate_test_boards();
    for board in boards.iter() {
        let moves = naive_moves(board);
        for index in 0..64 {
            if (moves >> index) & 1 == 1 {
                assert_eq!(naive_do_move(board, index), board.do_move(index).unwrap());
            }
        }
    }
}

#[test]
fn test_board_children() {
    let boards = generate_test_boards();
    for board in boards.iter() {
        let children_slow = HashSet::<Board>::from_iter(naive_children(board));
        let children_fast = HashSet::<Board>::from_iter(board.children());
        assert_eq!(children_slow, children_fast);
    }
}

#[test]
fn test_board_exact_score() {
    let boards = generate_test_boards();
    for board in boards.iter() {
        assert_eq!(naive_exact_score(board), board.exact_score());
    }
}

#[test]
fn test_board_corner_difference() {
    let boards = generate_test_boards();
    for board in boards.iter() {
        assert_eq!(naive_corner_difference(board), board.corner_difference());
    }
}

#[test]
fn test_board_potential_moves_difference() {
    let boards = generate_test_boards();
    for board in boards.iter() {
        assert_eq!(
            naive_potential_moves_difference(board),
            board.potential_moves_difference()
        );
    }
}

#[test]
fn every_square_is_legal_exactly_if_it_captures() {
    let boards = generate_test_boards();
    for board in boards.iter() {
        let moves = board.moves();
        for index in 0..64 {
            let legal = (moves >> index) & 1 == 1;
            assert_eq!(legal, board.flip(index) != 0);
            assert_eq!(legal, naive_flip(board, index) != 0);
            assert_eq!(board.flip(index), naive_flip(board, index));
        }
    }
}

#[test]
fn every_move_adds_one_disc_and_keeps_the_sets_apart() {
    let boards = generate_test_boards();
    for board in boards.iter() {
        for child in board.children() {
            assert_eq!(child.count_discs(), board.count_discs() + 1);
            assert_eq!(child.me() & child.opp(), 0);
        }
    }
}

#[test]
fn the_exact_score_changes_sign_with_the_turn() {
    let boards = generate_test_boards();
    for board in boards.iter() {
        let mut passed = board.clone();
        passed.switch_turn();
        assert_eq!(board.exact_score(), -passed.exact_score());
        assert_eq!(passed.count_discs(), board.count_discs());
    }
}

#[test]
fn children_come_in_the_order_of_their_squares() {
    let boards = generate_test_boards();
    for board in boards.iter() {
        assert_eq!(naive_children(board), board.children());
    }
}

#[test]
fn random_boards_hold_the_discs_asked_for() {
    for discs in 4..65 {
        let board = Board::new_random(discs).expect("no game reached the disc count");
        assert_eq!(board.count_discs(), discs);
    }
    assert_eq!(Board::new_random(4), Ok(Board::new()));
    assert_eq!(Board::new_random(3), Err(GameError::InvalidDiscCount));
    assert_eq!(Board::new_random(0), Err(GameError::InvalidDiscCount));
    assert_eq!(Board::new_random(65), Err(GameError::InvalidDiscCount));
    assert_eq!(Board::new_random(u32::MAX), Err(GameError::InvalidDiscCount));
    assert_eq!(GameError::InvalidDiscCount.message(), "Invalid amount of discs");
    assert_eq!(GameError::NoGameFound.message(), "No game found");
}

#[test]
fn five_discs_are_always_reached() {
    let first_moves = HashSet::<Board>::from_iter(Board::new().children());
    for _ in 0..200 {
        let board = Board::new_random(5).unwrap();
        assert!(first_moves.contains(&board));
    }
}

#[test]
fn a_turn_takes_the_child_that_was_drawn_and_passes_without_one() {
    let boards = generate_test_boards();
    for board in boards.iter() {
        let children = board.children();
        if children.is_empty() {
            let mut passed = board.clone();
            passed.switch_turn();
            for drawn in [0, 1, 7, usize::MAX] {
                assert_eq!(board.random_turn(drawn), passed);
            }
        } else {
            for (drawn, child) in children.iter().enumerate() {
                assert_eq!(board.random_turn(drawn), *child);
            }
        }
    }
}

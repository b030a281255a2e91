use hybrid_chess::ai::{
    best_moves, choose_best, choose_minimax, choose_random, minimax, score_board, score_piece,
    SEARCH_DEPTH,
};
use hybrid_chess::board::Board;
use hybrid_chess::loc::Loc;
use hybrid_chess::piece::{
    Piece, BISHOP, BLACK, BLACK_KING, BLACK_PAWN, BLACK_QUEEN, BLACK_ROOK, EMPTY, KING, KNIGHT,
    PAWN, QUEEN, ROOK, WHITE, WHITE_BISHOP, WHITE_KING, WHITE_KNIGHT, WHITE_PAWN, WHITE_QUEEN,
    WHITE_ROOK,
};

fn empty_board() -> Board {
    Board { pieces: [Piece(EMPTY); 64] }
}

fn mate_in_one() -> Board {
    let mut board = empty_board();
    board.pieces[0] = Piece(BLACK_KING);
    board.pieces[57] = Piece(WHITE_ROOK);
    board.pieces[59] = Piece(WHITE_QUEEN);
    board.pieces[62] = Piece(WHITE_KING);
    board
}

#[test]
fn piece_is_worth_the_sum_of_its_kinds() {
    assert_eq!(score_piece(Piece(EMPTY)), 0);
    assert_eq!(score_piece(Piece(WHITE_KING)), 1000);
    assert_eq!(score_piece(Piece(BLACK_QUEEN)), 100);
    assert_eq!(score_piece(Piece(WHITE_ROOK)), 70);
    assert_eq!(score_piece(Piece(WHITE_KNIGHT)), 60);
    assert_eq!(score_piece(Piece(WHITE_BISHOP)), 50);
    assert_eq!(score_piece(Piece(BLACK_PAWN)), 20);
    assert_eq!(score_piece(Piece(WHITE | QUEEN | ROOK)), 170);
    assert_eq!(score_piece(Piece(BLACK | KNIGHT | PAWN)), 80);
    assert_eq!(score_piece(Piece(WHITE | KING | QUEEN | ROOK | BISHOP | KNIGHT | PAWN)), 1300);
    assert_eq!(score_piece(Piece(WHITE)), 0);
}

#[test]
fn board_is_worth_own_material_less_the_other() {
    assert_eq!(score_board(&Board::fresh(), true), 0);
    assert_eq!(score_board(&Board::fresh(), false), 0);
    assert_eq!(score_board(&empty_board(), true), 0);
    let board = mate_in_one();
    assert_eq!(score_board(&board, true), 170);
    assert_eq!(score_board(&board, false), -170);
    let mut full = empty_board();
    for i in 0..64 {
        full.pieces[i] = Piece(WHITE | KING | QUEEN | ROOK | BISHOP | KNIGHT | PAWN);
    }
    assert_eq!(score_board(&full, true), 83200);
    assert_eq!(score_board(&full, false), -83200);
}

#[test]
fn merge_keeps_the_material_and_capture_takes_it() {
    let mut board = mate_in_one();
    board.pieces[58] = Piece(BLACK_ROOK);
    assert_eq!(score_board(&board, true), 100);
    let merged = board.move_(Loc(59), Loc(57));
    assert_eq!(score_board(&merged, true), 100);
    let taken = board.move_(Loc(59), Loc(58));
    assert_eq!(score_board(&taken, true), 170);
}

#[test]
fn minimax_at_depth_zero_is_the_static_score() {
    let boards = [Board::fresh(), mate_in_one(), empty_board()];
    for board in boards.iter() {
        for &white in [true, false].iter() {
            for &maximizing in [true, false].iter() {
                let expected = score_board(board, white);
                assert_eq!(minimax(board, 0, i32::MIN, i32::MAX, maximizing, white), expected);
                assert_eq!(minimax(board, 0, -5, 5, maximizing, white), expected);
                assert_eq!(minimax(board, 0, 7, 7, maximizing, white), expected);
            }
        }
    }
    assert_eq!(minimax(&mate_in_one(), 0, i32::MIN, i32::MAX, false, true), 170);
}

#[test]
fn minimax_gives_a_mated_player_the_worst_value() {
    let mut board = empty_board();
    board.pieces[0] = Piece(BLACK_KING);
    board.pieces[56] = Piece(WHITE_QUEEN);
    board.pieces[57] = Piece(WHITE_ROOK);
    board.pieces[62] = Piece(WHITE_KING);
    assert_eq!(minimax(&board, 1, i32::MIN, i32::MAX, false, true), i32::MAX);
    assert_eq!(minimax(&board, 3, i32::MIN, i32::MAX, false, true), i32::MAX);
    assert_eq!(minimax(&board, 2, i32::MIN, i32::MAX, true, false), i32::MIN);
}

#[test]
fn minimax_values_a_stalemate_at_zero() {
    let mut board = empty_board();
    board.pieces[0] = Piece(BLACK_KING);
    board.pieces[57] = Piece(WHITE_QUEEN);
    board.pieces[15] = Piece(WHITE_ROOK);
    board.pieces[62] = Piece(WHITE_KING);
    assert_eq!(minimax(&board, 1, i32::MIN, i32::MAX, false, true), 0);
    assert_eq!(minimax(&board, 2, i32::MIN, i32::MAX, true, false), 0);
    assert_eq!(minimax(&board, 0, i32::MIN, i32::MAX, false, true), 170);
}

#[test]
fn minimax_takes_the_best_reply_one_ply_ahead() {
    let mut board = empty_board();
    board.pieces[0] = Piece(BLACK_KING);
    board.pieces[9] = Piece(WHITE_ROOK);
    board.pieces[63] = Piece(WHITE_KING);
    board.pieces[55] = Piece(WHITE_PAWN);
    assert_eq!(minimax(&board, 1, i32::MIN, i32::MAX, false, true), 20);
    assert_eq!(minimax(&board, 1, i32::MIN, i32::MAX, true, false), -20);
    assert_eq!(minimax(&board, 1, i32::MIN, i32::MAX, true, true), 90);
}

#[test]
fn narrow_window_bounds_the_value_from_the_right_side() {
    let mut board = empty_board();
    board.pieces[0] = Piece(BLACK_KING);
    board.pieces[9] = Piece(WHITE_ROOK);
    board.pieces[63] = Piece(WHITE_KING);
    board.pieces[55] = Piece(WHITE_PAWN);
    let exact = minimax(&board, 2, i32::MIN, i32::MAX, false, true);
    let inside = minimax(&board, 2, exact - 1, exact + 1, false, true);
    assert_eq!(inside, exact);
    let low = minimax(&board, 2, exact + 10, exact + 20, false, true);
    assert!(low <= exact + 10 && exact <= low);
    let high = minimax(&board, 2, exact - 20, exact - 10, false, true);
    assert!(high >= exact - 10 && exact >= high);
}

#[test]
fn best_moves_one_ply_ahead_are_the_mates() {
    let board = mate_in_one();
    let best = best_moves(&board, true, 1);
    assert!(best.contains(&(Loc(59), Loc(32))));
    for &(from, to) in best.iter() {
        assert!(board.move_(from, to).is_check_mate(false));
    }
    for (from, to) in board.legal_moves(true) {
        if board.move_(from, to).is_check_mate(false) {
            assert!(best.contains(&(from, to)));
        }
    }
}

#[test]
fn best_moves_without_search_take_the_most_material() {
    let mut board = empty_board();
    board.pieces[4] = Piece(BLACK_KING);
    board.pieces[56] = Piece(WHITE_KING);
    board.pieces[35] = Piece(WHITE_KNIGHT);
    board.pieces[18] = Piece(BLACK_QUEEN);
    board.pieces[20] = Piece(BLACK_ROOK);
    board.pieces[25] = Piece(BLACK_PAWN);
    assert_eq!(best_moves(&board, true, 0), vec![(Loc(35), Loc(18))]);
    board.pieces[20] = Piece(BLACK_QUEEN);
    assert_eq!(best_moves(&board, true, 0), vec![(Loc(35), Loc(18)), (Loc(35), Loc(20))]);
    for _ in 0..20 {
        let (from, to) = choose_best(&board, true);
        assert_eq!(from, Loc(35));
        assert!(to == Loc(18) || to == Loc(20));
    }
}

#[test]
fn best_moves_of_a_player_without_moves_are_none() {
    let mut board = empty_board();
    board.pieces[0] = Piece(BLACK_KING);
    board.pieces[57] = Piece(WHITE_QUEEN);
    board.pieces[15] = Piece(WHITE_ROOK);
    board.pieces[62] = Piece(WHITE_KING);
    assert!(best_moves(&board, false, 0).is_empty());
    assert!(best_moves(&board, false, 2).is_empty());
}

#[test]
fn choose_minimax_finds_the_only_way_out_of_check() {
    let mut board = empty_board();
    board.pieces[0] = Piece(BLACK_KING);
    board.pieces[56] = Piece(WHITE_QUEEN);
    board.pieces[49] = Piece(WHITE_ROOK);
    board.pieces[62] = Piece(WHITE_KING);
    board.pieces[15] = Piece(BLACK_ROOK);
    let legal = board.legal_moves(false);
    assert_eq!(legal, vec![(Loc(15), Loc(8))]);
    assert_eq!(SEARCH_DEPTH, 3);
    for _ in 0..5 {
        assert_eq!(choose_minimax(&board, false), (Loc(15), Loc(8)));
        assert_eq!(choose_best(&board, false), (Loc(15), Loc(8)));
        assert_eq!(choose_random(&board, false), (Loc(15), Loc(8)));
    }
}

#[test]
fn choose_minimax_never_leaves_its_king_in_check() {
    let mut board = empty_board();
    board.pieces[4] = Piece(BLACK_KING);
    board.pieces[60] = Piece(WHITE_KING);
    board.pieces[52] = Piece(WHITE_ROOK);
    board.pieces[12] = Piece(BLACK_ROOK);
    board.pieces[35] = Piece(WHITE | KNIGHT | BISHOP);
    for &white in [true, false].iter() {
        for _ in 0..3 {
            let (from, to) = choose_minimax(&board, white);
            assert!(board.legal_moves(white).contains(&(from, to)));
            assert!(!board.move_(from, to).is_check(white));
            assert!(best_moves(&board, white, SEARCH_DEPTH).contains(&(from, to)));
        }
    }
}

#[test]
fn choose_minimax_mates_where_it_can() {
    let board = mate_in_one();
    for _ in 0..3 {
        let (from, to) = choose_minimax(&board, true);
        let after = board.move_(from, to);
        assert!(!after.is_check(true));
        assert_eq!(minimax(&after, SEARCH_DEPTH, i32::MIN, i32::MAX, false, true), i32::MAX);
    }
}

#[test]
fn choose_random_draws_among_the_legal_moves() {
    let board = Board::fresh();
    let legal = board.legal_moves(true);
    let mut seen = Vec::new();
    for _ in 0..200 {
        let chosen = choose_random(&board, true);
        assert!(legal.contains(&chosen));
        assert!(!board.move_(chosen.0, chosen.1).is_check(true));
        if !seen.contains(&chosen) {
            seen.push(chosen);
        }
    }
    assert!(seen.len() > 1);
}

#[test]
fn choose_best_on_the_opening_keeps_the_material() {
    let board = Board::fresh();
    for _ in 0..10 {
        let (from, to) = choose_best(&board, false);
        let after = board.move_(from, to);
        assert_eq!(score_board(&after, false), 0);
        assert!(!after.is_check(false));
    }
}

#[test]
fn hybrid_kinds_are_counted_once_each() {
    let mut board = empty_board();
    board.pieces[10] = Piece(WHITE | ROOK | BISHOP);
    board.pieces[11] = Piece(BLACK | KING | PAWN);
    assert_eq!(score_board(&board, true), 120 - 1020);
    assert_eq!(score_piece(Piece(WHITE | BISHOP | KNIGHT)), 110);
    assert_eq!(score_piece(Piece(BLACK | KING)), 1000);
    assert_eq!(score_piece(Piece(BLACK | PAWN | QUEEN)), 120);
}

#[test]
fn stalemate_is_worth_zero_whatever_the_window() {
    let mut board = empty_board();
    board.pieces[0] = Piece(BLACK_KING);
    board.pieces[57] = Piece(WHITE_QUEEN);
    board.pieces[15] = Piece(WHITE_ROOK);
    assert!(board.is_stale_mate(false));
    let windows = [
        (i32::MIN, i32::MAX),
        (5, 10),
        (-10, -5),
        (0, 1),
        (-1, 0),
        (100, 200),
        (7, 7),
        (10, -10),
        (i32::MAX, i32::MIN),
    ];
    for &(alpha, beta) in windows.iter() {
        for depth in 1..5 {
            assert_eq!(minimax(&board, depth, alpha, beta, false, true), 0);
            assert_eq!(minimax(&board, depth, alpha, beta, true, false), 0);
        }
    }
    board.pieces[47] = Piece(WHITE_ROOK);
    board.pieces[46] = Piece(WHITE_KING);
    assert!(board.is_stale_mate(false));
    assert_eq!(minimax(&board, 2, 50, 60, false, true), 0);
    assert_eq!(minimax(&board, 0, 50, 60, false, true), 240);
}

#[test]
fn mate_is_worth_the_extreme_whatever_the_window() {
    let mut board = empty_board();
    board.pieces[0] = Piece(BLACK_KING);
    board.pieces[56] = Piece(WHITE_QUEEN);
    board.pieces[57] = Piece(WHITE_ROOK);
    assert!(board.is_check_mate(false));
    let windows = [
        (i32::MIN, i32::MAX),
        (5, 10),
        (-10, -5),
        (i32::MIN, 0),
        (0, i32::MAX),
        (7, 7),
        (10, -10),
        (i32::MAX, i32::MIN),
    ];
    for &(alpha, beta) in windows.iter() {
        for depth in 1..5 {
            assert_eq!(minimax(&board, depth, alpha, beta, false, true), i32::MAX);
            assert_eq!(minimax(&board, depth, alpha, beta, true, false), i32::MIN);
        }
    }
    assert!(i32::MIN < score_board(&board, true) && score_board(&board, true) < i32::MAX);
    assert_eq!(score_board(&board, true), 170 - 1000);
}

#[test]
fn one_ply_search_asks_for_the_mover_king_only() {
    let mut board = empty_board();
    board.pieces[63] = Piece(WHITE_KING);
    board.pieces[55] = Piece(WHITE_PAWN);
    assert_eq!(minimax(&board, 1, i32::MIN, i32::MAX, true, true), 1020);
    assert_eq!(minimax(&board, 1, i32::MIN, i32::MAX, false, false), -1020);
    assert_eq!(best_moves(&board, true, 0).len(), board.legal_moves(true).len());
    let mut taking = empty_board();
    taking.pieces[63] = Piece(WHITE_KING);
    taking.pieces[36] = Piece(WHITE_KNIGHT);
    taking.pieces[19] = Piece(BLACK_QUEEN);
    taking.pieces[21] = Piece(BLACK_PAWN);
    assert_eq!(minimax(&taking, 0, i32::MIN, i32::MAX, true, true), 940);
    assert_eq!(minimax(&taking, 1, i32::MIN, i32::MAX, true, true), 1040);
    assert_eq!(best_moves(&taking, true, 0), vec![(Loc(36), Loc(19))]);
}

#[test]
fn one_ply_search_takes_the_best_static_score() {
    let mut board = empty_board();
    board.pieces[0] = Piece(BLACK_KING);
    board.pieces[63] = Piece(WHITE_KING);
    board.pieces[36] = Piece(WHITE_KNIGHT);
    board.pieces[19] = Piece(BLACK_QUEEN);
    board.pieces[21] = Piece(BLACK_ROOK);
    let mut best = i32::MIN;
    let mut least = i32::MAX;
    for (from, to) in board.legal_moves(true) {
        let value = score_board(&board.move_(from, to), true);
        best = best.max(value);
        least = least.min(score_board(&board.move_(from, to), false));
    }
    assert_eq!(best, -10);
    assert_eq!(minimax(&board, 1, i32::MIN, i32::MAX, true, true), best);
    assert_eq!(minimax(&board, 1, i32::MIN, i32::MAX, false, false), least);
    assert_eq!(least, 10);
}

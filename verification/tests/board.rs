use hybrid_chess::board::Board;
use hybrid_chess::loc::{contains, Loc};
use hybrid_chess::piece::{
    Piece, BISHOP, BLACK, BLACK_BISHOP, BLACK_KING, BLACK_KNIGHT, BLACK_PAWN, BLACK_QUEEN,
    BLACK_ROOK, EMPTY, KING, KNIGHT, PAWN, QUEEN, ROOK, WHITE, WHITE_BISHOP, WHITE_KING,
    WHITE_KNIGHT, WHITE_PAWN, WHITE_QUEEN, WHITE_ROOK,
};

fn empty_board() -> Board {
    Board { pieces: [Piece(EMPTY); 64] }
}

fn moves(board: &Board, from: i32) -> Vec<i32> {
    board.moves_from(Loc(from)).unwrap().into_iter().map(|l| l.0).collect()
}

#[test]
fn check() {
    let mut board = empty_board();

    board.pieces[0 + 0 * 8] = Piece(BLACK_KING);
    assert!(!board.is_check(false));

    board.pieces[1 + 0 * 8] = Piece(WHITE_PAWN);
    assert!(!board.is_check(false));

    board.pieces[0 + 7 * 8] = Piece(WHITE_QUEEN);
    assert!(board.is_check(false));
}

#[test]
fn check_mate() {
    let mut board = empty_board();

    board.pieces[0 + 0 * 8] = Piece(BLACK_KING);
    assert!(!board.is_check_mate(false));

    board.pieces[0 + 7 * 8] = Piece(WHITE_QUEEN);
    assert!(!board.is_check_mate(false));

    board.pieces[1 + 7 * 8] = Piece(WHITE_ROOK);
    assert!(board.is_check_mate(false));
}

#[test]
fn stale_mate() {
    let mut board = empty_board();

    board.pieces[0 + 0 * 8] = Piece(BLACK_KING);
    assert!(!board.is_stale_mate(false));

    board.pieces[1 + 7 * 8] = Piece(WHITE_QUEEN);
    assert!(!board.is_stale_mate(false));

    board.pieces[7 + 1 * 8] = Piece(WHITE_ROOK);
    assert!(board.is_stale_mate(false));
}

#[test]
fn queen_on_the_file_checks_and_rook_beside_it_mates() {
    let mut board = empty_board();
    board.pieces[0] = Piece(BLACK_KING);
    board.pieces[56] = Piece(WHITE_QUEEN);
    assert!(board.is_check(false));
    assert!(!board.is_check_mate(false));
    assert!(!board.is_stale_mate(false));
    board.pieces[57] = Piece(WHITE_ROOK);
    assert!(board.is_check(false));
    assert!(board.is_check_mate(false));
    assert!(!board.is_stale_mate(false));
}

#[test]
fn queen_and_rook_that_leave_no_square_stalemate() {
    let mut board = empty_board();
    board.pieces[0] = Piece(BLACK_KING);
    board.pieces[57] = Piece(WHITE_QUEEN);
    board.pieces[15] = Piece(WHITE_ROOK);
    assert!(!board.is_check(false));
    assert!(board.is_stale_mate(false));
    assert!(!board.is_check_mate(false));
}

#[test]
fn mate_implies_check_and_stalemate_excludes_it() {
    let mut boards = Vec::new();
    let mut a = empty_board();
    a.pieces[0] = Piece(BLACK_KING);
    a.pieces[63] = Piece(WHITE_KING);
    boards.push(Board { pieces: a.pieces });
    a.pieces[56] = Piece(WHITE_QUEEN);
    boards.push(Board { pieces: a.pieces });
    a.pieces[57] = Piece(WHITE_ROOK);
    boards.push(Board { pieces: a.pieces });
    let mut b = empty_board();
    b.pieces[0] = Piece(BLACK_KING);
    b.pieces[57] = Piece(WHITE_QUEEN);
    b.pieces[15] = Piece(WHITE_ROOK);
    b.pieces[63] = Piece(WHITE_KING);
    boards.push(b);
    boards.push(Board::fresh());
    for board in boards.iter() {
        for &white in [true, false].iter() {
            if board.is_check_mate(white) {
                assert!(board.is_check(white));
            }
            if board.is_stale_mate(white) {
                assert!(!board.is_check(white));
            }
        }
    }
}

#[test]
fn opening_position_is_laid_out_rank_by_rank() {
    let board = Board::fresh();
    let back = [ROOK, KNIGHT, BISHOP, QUEEN, KING, BISHOP, KNIGHT, ROOK];
    for x in 0..8 {
        assert_eq!(board.piece_at(x), BLACK | back[x as usize]);
        assert_eq!(board.piece_at(8 + x), BLACK_PAWN);
        assert_eq!(board.piece_at(48 + x), WHITE_PAWN);
        assert_eq!(board.piece_at(56 + x), WHITE | back[x as usize]);
    }
    for i in 16..48 {
        assert_eq!(board.piece_at(i), 0);
    }
    assert_eq!(board.piece_at(4), BLACK_KING);
    assert_eq!(board.piece_at(59), WHITE_QUEEN);
}

#[test]
fn empty_board_has_no_piece() {
    let board = Board::empty();
    for i in 0..64 {
        assert_eq!(board.piece_at(i), 0);
        assert!(board.piece(Loc(i)).is_empty());
        assert!(board.moves_from(Loc(i)).is_none());
    }
    assert!(board.pieces(true).is_empty());
    assert!(board.pieces(false).is_empty());
}

#[test]
fn opening_pawns_have_two_moves() {
    let board = Board::fresh();
    for x in 0..8 {
        assert_eq!(board.moves_from(Loc(48 + x)).unwrap().len(), 2);
        assert_eq!(moves(&board, 48 + x), vec![32 + x, 40 + x]);
        assert_eq!(moves(&board, 8 + x), vec![16 + x, 24 + x]);
    }
}

#[test]
fn opening_knights_have_two_free_squares_and_a_pawn_to_merge_with() {
    let board = Board::fresh();
    assert_eq!(moves(&board, 57), vec![40, 42, 51]);
    assert_eq!(moves(&board, 62), vec![45, 47, 52]);
    assert_eq!(moves(&board, 1), vec![11, 16, 18]);
    assert_eq!(moves(&board, 6), vec![12, 21, 23]);
    for &from in [1, 6, 57, 62].iter() {
        let free = moves(&board, from).into_iter().filter(|&t| board.piece_at(t) == 0).count();
        assert_eq!(free, 2);
    }
}

#[test]
fn opening_pieces_behind_the_pawns_reach_their_neighbors_only() {
    let board = Board::fresh();
    assert_eq!(moves(&board, 56), vec![48, 57]);
    assert_eq!(moves(&board, 58), vec![49, 51]);
    assert_eq!(moves(&board, 59), vec![50, 51, 52, 58, 60]);
    assert_eq!(moves(&board, 60), vec![51, 52, 53, 59, 61]);
    assert!(board.moves_from(Loc(30)).is_none());
}

#[test]
fn pawn_steps_forward_only_onto_empty_squares() {
    let mut board = empty_board();
    board.pieces[52] = Piece(WHITE_PAWN);
    assert_eq!(moves(&board, 52), vec![36, 44]);
    board.pieces[36] = Piece(BLACK_PAWN);
    assert_eq!(moves(&board, 52), vec![44]);
    board.pieces[36] = Piece(EMPTY);
    board.pieces[44] = Piece(BLACK_PAWN);
    assert_eq!(moves(&board, 52), Vec::<i32>::new());
    assert_eq!(moves(&board, 44), Vec::<i32>::new());
}

#[test]
fn pawn_takes_two_steps_from_its_home_rank_only() {
    let mut board = empty_board();
    board.pieces[44] = Piece(WHITE_PAWN);
    assert_eq!(moves(&board, 44), vec![36]);
    board.pieces[12] = Piece(BLACK_PAWN);
    assert_eq!(moves(&board, 12), vec![20, 28]);
    board.pieces[20] = Piece(BLACK_PAWN);
    assert_eq!(moves(&board, 20), vec![28]);
    assert_eq!(moves(&board, 12), Vec::<i32>::new());
}

#[test]
fn pawn_steps_diagonally_onto_any_piece() {
    let mut board = empty_board();
    board.pieces[36] = Piece(WHITE_PAWN);
    board.pieces[27] = Piece(BLACK_KNIGHT);
    board.pieces[29] = Piece(WHITE_KNIGHT);
    assert_eq!(moves(&board, 36), vec![27, 28, 29]);
    board.pieces[28] = Piece(BLACK_ROOK);
    assert_eq!(moves(&board, 36), vec![27, 29]);
    let mut edge = empty_board();
    edge.pieces[8] = Piece(BLACK_PAWN);
    edge.pieces[17] = Piece(BLACK_BISHOP);
    assert_eq!(moves(&edge, 8), vec![16, 17, 24]);
    let mut last = empty_board();
    last.pieces[3] = Piece(WHITE_PAWN);
    assert_eq!(moves(&last, 3), Vec::<i32>::new());
}

#[test]
fn rook_slides_up_to_the_first_piece_of_either_color() {
    let mut board = empty_board();
    board.pieces[27] = Piece(WHITE_ROOK);
    assert_eq!(moves(&board, 27), vec![3, 11, 19, 24, 25, 26, 28, 29, 30, 31, 35, 43, 51, 59]);
    board.pieces[29] = Piece(WHITE_PAWN);
    board.pieces[11] = Piece(BLACK_PAWN);
    assert_eq!(moves(&board, 27), vec![11, 19, 24, 25, 26, 28, 29, 35, 43, 51, 59]);
}

#[test]
fn bishop_slides_along_the_diagonals() {
    let mut board = empty_board();
    board.pieces[27] = Piece(BLACK_BISHOP);
    assert_eq!(moves(&board, 27), vec![0, 6, 9, 13, 18, 20, 34, 36, 41, 45, 48, 54, 63]);
    board.pieces[45] = Piece(BLACK_PAWN);
    assert_eq!(moves(&board, 27), vec![0, 6, 9, 13, 18, 20, 34, 36, 41, 45, 48]);
}

#[test]
fn queen_moves_as_rook_and_bishop() {
    let mut board = empty_board();
    board.pieces[27] = Piece(WHITE_QUEEN);
    let mut other = empty_board();
    other.pieces[27] = Piece(WHITE | ROOK | BISHOP);
    let queen = moves(&board, 27);
    assert_eq!(queen.len(), 27);
    assert_eq!(queen, moves(&other, 27));
}

#[test]
fn king_and_knight_reach_their_fixed_offsets() {
    let mut board = empty_board();
    board.pieces[0] = Piece(BLACK_KING);
    board.pieces[63] = Piece(WHITE_KNIGHT);
    board.pieces[27] = Piece(WHITE_KING);
    board.pieces[36] = Piece(BLACK_KNIGHT);
    assert_eq!(moves(&board, 0), vec![1, 8, 9]);
    assert_eq!(moves(&board, 63), vec![46, 53]);
    assert_eq!(moves(&board, 27), vec![18, 19, 20, 26, 28, 34, 35, 36]);
    assert_eq!(moves(&board, 36), vec![19, 21, 26, 30, 42, 46, 51, 53]);
}

#[test]
fn hybrid_moves_as_each_of_its_kinds_and_names_no_square_twice() {
    let mut board = empty_board();
    board.pieces[0] = Piece(WHITE | KING | ROOK);
    assert_eq!(
        moves(&board, 0),
        vec![1, 2, 3, 4, 5, 6, 7, 8, 9, 16, 24, 32, 40, 48, 56]
    );
    let mut both = empty_board();
    both.pieces[35] = Piece(BLACK | KNIGHT | PAWN);
    assert_eq!(moves(&both, 35), vec![18, 20, 25, 29, 41, 43, 45, 50, 52]);
    let mut all = empty_board();
    all.pieces[9] = Piece(WHITE | QUEEN | ROOK | BISHOP | KING);
    let reached = moves(&all, 9);
    assert_eq!(reached.len(), 23);
    for pair in reached.windows(2) {
        assert!(pair[0] < pair[1]);
    }
}

#[test]
fn piece_without_a_kind_has_no_move() {
    let mut board = empty_board();
    board.pieces[20] = Piece(WHITE);
    assert_eq!(moves(&board, 20), Vec::<i32>::new());
}

#[test]
fn move_onto_own_color_merges() {
    let mut board = empty_board();
    board.pieces[10] = Piece(WHITE_ROOK);
    board.pieces[18] = Piece(WHITE_BISHOP);
    let after = board.move_(Loc(10), Loc(18));
    assert_eq!(after.piece_at(18), WHITE_ROOK | WHITE_BISHOP);
    assert_eq!(after.piece_at(18), 0x8c);
    assert!(after.piece(Loc(18)).is_white());
    assert_eq!(after.piece_at(10), 0);
    let mut black = empty_board();
    black.pieces[1] = Piece(BLACK_KNIGHT);
    black.pieces[11] = Piece(BLACK | PAWN | QUEEN);
    let merged = black.move_(Loc(1), Loc(11));
    assert_eq!(merged.piece_at(11), 0x32);
    assert!(!merged.piece(Loc(11)).is_white());
    assert_eq!(merged.piece_at(1), 0);
}

#[test]
fn move_onto_other_color_captures() {
    let mut board = empty_board();
    board.pieces[10] = Piece(WHITE_ROOK);
    board.pieces[18] = Piece(BLACK | QUEEN | KNIGHT);
    let after = board.move_(Loc(10), Loc(18));
    assert_eq!(after.piece_at(18), WHITE_ROOK);
    assert_eq!(after.piece_at(10), 0);
    let back = after.move_(Loc(18), Loc(10));
    assert_eq!(back.piece_at(10), WHITE_ROOK);
    assert_eq!(back.piece_at(18), 0);
    let mut black = empty_board();
    black.pieces[5] = Piece(BLACK_BISHOP);
    black.pieces[12] = Piece(WHITE_PAWN);
    let taken = black.move_(Loc(5), Loc(12));
    assert_eq!(taken.piece_at(12), BLACK_BISHOP);
    let free = black.move_(Loc(5), Loc(14));
    assert_eq!(free.piece_at(14), BLACK_BISHOP);
    assert_eq!(free.piece_at(12), WHITE_PAWN);
}

#[test]
fn move_leaves_its_board_as_it_was() {
    let board = Board::fresh();
    let first = board.move_(Loc(52), Loc(36));
    let second = board.move_(Loc(52), Loc(36));
    assert_eq!(board.piece_at(52), WHITE_PAWN);
    assert_eq!(board.piece_at(36), 0);
    for i in 0..64 {
        assert_eq!(first.piece_at(i), second.piece_at(i));
        if i != 52 && i != 36 {
            assert_eq!(first.piece_at(i), board.piece_at(i));
        }
    }
    assert_eq!(first.piece_at(36), WHITE_PAWN);
    assert_eq!(first.piece_at(52), 0);
}

#[test]
fn move_to_its_own_square_changes_nothing() {
    let board = Board::fresh();
    let after = board.move_(Loc(60), Loc(60));
    for i in 0..64 {
        assert_eq!(after.piece_at(i), board.piece_at(i));
    }
}

#[test]
fn pieces_come_in_ascending_order_of_square() {
    let board = Board::fresh();
    let white = board.pieces(true);
    let black = board.pieces(false);
    assert_eq!(white.len(), 16);
    assert_eq!(black.len(), 16);
    for (n, (loc, piece)) in white.iter().enumerate() {
        assert_eq!(loc.0, 48 + n as i32);
        assert_eq!(piece.0, board.piece_at(loc.0));
    }
    for (n, (loc, piece)) in black.iter().enumerate() {
        assert_eq!(loc.0, n as i32);
        assert!(!piece.is_white());
    }
}

#[test]
fn legal_moves_of_the_opening_count_the_merges() {
    let board = Board::fresh();
    let white = board.legal_moves(true);
    assert_eq!(white.len(), 40);
    assert_eq!(white[0], (Loc(48), Loc(32)));
    assert_eq!(white[1], (Loc(48), Loc(40)));
    assert_eq!(white[39], (Loc(63), Loc(62)));
    assert_eq!(board.legal_moves(false).len(), 40);
    for pair in white.windows(2) {
        assert!(pair[0].0 .0 * 64 + pair[0].1 .0 < pair[1].0 .0 * 64 + pair[1].1 .0);
    }
}

#[test]
fn legal_moves_leave_out_what_exposes_the_king() {
    let mut board = empty_board();
    board.pieces[60] = Piece(WHITE_KING);
    board.pieces[52] = Piece(WHITE_ROOK);
    board.pieces[4] = Piece(BLACK_ROOK);
    board.pieces[0] = Piece(BLACK_KING);
    let legal = board.legal_moves(true);
    let rook: Vec<i32> = legal.iter().filter(|m| m.0 == Loc(52)).map(|m| m.1 .0).collect();
    assert_eq!(rook, vec![4, 12, 20, 28, 36, 44]);
    let king: Vec<i32> = legal.iter().filter(|m| m.0 == Loc(60)).map(|m| m.1 .0).collect();
    assert_eq!(king, vec![51, 53, 59, 61]);
    assert_eq!(legal.len(), 10);
    for (from, to) in legal {
        assert!(!board.move_(from, to).is_check(true));
    }
}

#[test]
fn contains_finds_what_the_list_names() {
    let list = vec![Loc(3), Loc(9), Loc(40)];
    assert!(contains(&list, Loc(9)));
    assert!(!contains(&list, Loc(10)));
    assert!(!contains(&Vec::new(), Loc(0)));
}

#[test]
fn loc_knows_its_file_rank_and_neighbors() {
    assert_eq!(Loc::new(0), Some(Loc(0)));
    assert_eq!(Loc::new(63), Some(Loc(63)));
    assert_eq!(Loc::new(64), None);
    assert_eq!(Loc::new(-1), None);
    let loc = Loc(29);
    assert_eq!(loc.index(), 29);
    assert_eq!(loc.x(), 5);
    assert_eq!(loc.y(), 3);
    assert_eq!(loc.d(1, 2), Some(Loc(46)));
    assert_eq!(loc.d(-5, -3), Some(Loc(0)));
    assert_eq!(loc.d(2, 4), Some(Loc(63)));
    assert_eq!(loc.d(3, 0), None);
    assert_eq!(loc.d(0, 5), None);
    assert_eq!(loc.d(-6, 0), None);
    assert_eq!(loc.d(0, -4), None);
    assert_eq!(loc.d(i32::MAX, i32::MIN), None);
}

#[test]
fn piece_tells_its_kinds_and_color() {
    assert!(Piece::empty().is_empty());
    assert_eq!(Piece::empty(), Piece(0));
    assert!(!Piece::empty().is_white());
    let all = [
        (WHITE_KING, 0x81u8),
        (WHITE_QUEEN, 0x82),
        (WHITE_ROOK, 0x84),
        (WHITE_BISHOP, 0x88),
        (WHITE_KNIGHT, 0x90),
        (WHITE_PAWN, 0xa0),
        (BLACK_KING, 0x01),
        (BLACK_QUEEN, 0x02),
        (BLACK_ROOK, 0x04),
        (BLACK_BISHOP, 0x08),
        (BLACK_KNIGHT, 0x10),
        (BLACK_PAWN, 0x20),
    ];
    for (n, &(bits, expected)) in all.iter().enumerate() {
        assert_eq!(bits, expected);
        let p = Piece(bits);
        assert!(!p.is_empty());
        assert_eq!(p.is_white(), n < 6);
        assert_eq!(p.is_king(), n % 6 == 0);
        assert_eq!(p.is_queen(), n % 6 == 1);
        assert_eq!(p.is_rook(), n % 6 == 2);
        assert_eq!(p.is_bishop(), n % 6 == 3);
        assert_eq!(p.is_knight(), n % 6 == 4);
        assert_eq!(p.is_pawn(), n % 6 == 5);
    }
    let hybrid = Piece(WHITE_ROOK).merge(Piece(WHITE_KNIGHT));
    assert_eq!(hybrid, Piece(0x94));
    assert!(hybrid.is_rook() && hybrid.is_knight() && hybrid.is_white());
    assert!(!hybrid.is_queen());
}

#[test]
fn hybrid_is_a_piece_of_more_than_one_kind() {
    assert!(!Piece(EMPTY).is_hybrid());
    assert!(!Piece(WHITE).is_hybrid());
    for &bits in [KING, QUEEN, ROOK, BISHOP, KNIGHT, PAWN].iter() {
        assert!(!Piece(WHITE | bits).is_hybrid());
        assert!(!Piece(BLACK | bits).is_hybrid());
        for &more in [KING, QUEEN, ROOK, BISHOP, KNIGHT, PAWN].iter() {
            assert_eq!(Piece(WHITE | bits | more).is_hybrid(), bits != more);
            assert_eq!(Piece(BLACK | bits | more).is_hybrid(), bits != more);
        }
    }
    assert!(Piece(WHITE_ROOK).merge(Piece(WHITE_KNIGHT)).is_hybrid());
    assert!(Piece(0x3f).is_hybrid());
    assert!(Piece(0xff).is_hybrid());
    assert!(!Piece(0x40).is_hybrid());
}

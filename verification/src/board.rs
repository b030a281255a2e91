//! The board: 64 squares, move generation, move application, and whether a
//! color is in check, checkmated or stalemated.

use crate::loc::{ascending, contains, file_of, holds, offset, rank_of, Loc};
use crate::piece::{
    is_plain, lemma_plain_pieces, Piece, BISHOP, KING, KNIGHT, PAWN, QUEEN, ROOK, BLACK_BISHOP, BLACK_KING, BLACK_KNIGHT, BLACK_PAWN, BLACK_QUEEN, BLACK_ROOK, EMPTY,
    WHITE_BISHOP, WHITE_KING, WHITE_KNIGHT, WHITE_PAWN, WHITE_QUEEN, WHITE_ROOK,
};
use crate::rules::{
    attacked_by, bishop_reaches, check_mate, has_legal_move, has_one_king, in_check, is_square,
    king_at, king_reaches, knight_reaches, legal, lemma_own_move_keeps_king, moved, owns,
    pawn_reaches, queen_reaches, ray_clear, ray_on_board, ray_square, reaches, rook_reaches,
    slides_to, stale_mate,
};
use vstd::prelude::*;

verus! {

/// The piece on square `i` of the standard opening position.
pub open spec fn opening_piece(i: int) -> Piece {
    let x = file_of(i);
    if rank_of(i) == 0 {
        Piece(
            if x == 0 || x == 7 {
                BLACK_ROOK
            } else if x == 1 || x == 6 {
                BLACK_KNIGHT
            } else if x == 2 || x == 5 {
                BLACK_BISHOP
            } else if x == 3 {
                BLACK_QUEEN
            } else {
                BLACK_KING
            },
        )
    } else if rank_of(i) == 1 {
        Piece(BLACK_PAWN)
    } else if rank_of(i) == 6 {
        Piece(WHITE_PAWN)
    } else if rank_of(i) == 7 {
        Piece(
            if x == 0 || x == 7 {
                WHITE_ROOK
            } else if x == 1 || x == 6 {
                WHITE_KNIGHT
            } else if x == 2 || x == 5 {
                WHITE_BISHOP
            } else if x == 3 {
                WHITE_QUEEN
            } else {
                WHITE_KING
            },
        )
    } else {
        Piece(EMPTY)
    }
}

/// A king reaches exactly the squares one step away in the eight directions.
proof fn lemma_king_offsets(f: int, t: int)
    requires
        is_square(f),
        is_square(t),
    ensures
        king_reaches(f, t) <==> (offset(f, 1, 0) == Some(t) || offset(f, -1, 0) == Some(t)
            || offset(f, 0, 1) == Some(t) || offset(f, 0, -1) == Some(t) || offset(f, 1, 1)
            == Some(t) || offset(f, -1, 1) == Some(t) || offset(f, 1, -1) == Some(t) || offset(
            f,
            -1,
            -1,
        ) == Some(t)),
{
}

/// A knight reaches exactly the squares at its eight jumps.
proof fn lemma_knight_offsets(f: int, t: int)
    requires
        is_square(f),
        is_square(t),
    ensures
        knight_reaches(f, t) <==> (offset(f, 1, 2) == Some(t) || offset(f, 2, 1) == Some(t)
            || offset(f, -1, 2) == Some(t) || offset(f, 2, -1) == Some(t) || offset(f, 1, -2)
            == Some(t) || offset(f, -2, 1) == Some(t) || offset(f, -1, -2) == Some(t) || offset(
            f,
            -2,
            -1,
        ) == Some(t)),
{
}

/// Whether the list names the move from `from` to `to`.
pub open spec fn listed(v: Seq<(Loc, Loc)>, from: int, to: int) -> bool {
    exists|n: int| 0 <= n < v.len() && (#[trigger] v[n]).0@ == from && v[n].1@ == to
}

/// The place of a move in the order of all moves: by the square left, then
/// by the square reached.
pub open spec fn move_rank(m: (Loc, Loc)) -> int {
    m.0@ * 64 + m.1@
}

/// Whether `v` holds, in ascending order and each once, exactly the legal
/// moves of the given color that come before place `bound` in that order.
pub open spec fn lists_legal_moves_below(
    v: Seq<(Loc, Loc)>,
    b: Seq<Piece>,
    white: bool,
    bound: int,
) -> bool {
    &&& forall|n: int|
        0 <= n < v.len() ==> (#[trigger] v[n]).0.wf() && v[n].1.wf() && legal(
            b,
            white,
            v[n].0@,
            v[n].1@,
        ) && move_rank(v[n]) < bound
    &&& forall|n: int, m: int|
        0 <= n < m < v.len() ==> move_rank(#[trigger] v[n]) < move_rank(#[trigger] v[m])
    &&& forall|from: int, to: int|
        legal(b, white, from, to) && from * 64 + to < bound ==> listed(v, from, to)
}

/// Whether `v` holds, in ascending order and each once, exactly the legal
/// moves of the given color.
pub open spec fn lists_legal_moves(v: Seq<(Loc, Loc)>, b: Seq<Piece>, white: bool) -> bool {
    lists_legal_moves_below(v, b, white, 4096)
}

/// In the opening position every piece is plain: Black's stand on ranks 0
/// and 1, White's on ranks 6 and 7.
proof fn lemma_opening_pieces(b: Seq<Piece>)
    requires
        b.len() == 64,
        forall|i: int| 0 <= i < 64 ==> #[trigger] b[i] == opening_piece(i),
    ensures
        forall|i: int| 16 <= i < 48 ==> (#[trigger] b[i]).is_empty(),
        forall|i: int| 8 <= i < 16 ==> is_plain(#[trigger] b[i], PAWN, false),
        forall|i: int| 48 <= i < 56 ==> is_plain(#[trigger] b[i], PAWN, true),
        is_plain(b[0], ROOK, false),
        is_plain(b[1], KNIGHT, false),
        is_plain(b[2], BISHOP, false),
        is_plain(b[3], QUEEN, false),
        is_plain(b[4], KING, false),
        is_plain(b[5], BISHOP, false),
        is_plain(b[6], KNIGHT, false),
        is_plain(b[7], ROOK, false),
        is_plain(b[56], ROOK, true),
        is_plain(b[57], KNIGHT, true),
        is_plain(b[58], BISHOP, true),
        is_plain(b[59], QUEEN, true),
        is_plain(b[60], KING, true),
        is_plain(b[61], BISHOP, true),
        is_plain(b[62], KNIGHT, true),
        is_plain(b[63], ROOK, true),
{
    lemma_plain_pieces();
    assert(b[0] == opening_piece(0));
    assert(b[1] == opening_piece(1));
    assert(b[2] == opening_piece(2));
    assert(b[3] == opening_piece(3));
    assert(b[4] == opening_piece(4));
    assert(b[5] == opening_piece(5));
    assert(b[6] == opening_piece(6));
    assert(b[7] == opening_piece(7));
    assert(b[56] == opening_piece(56));
    assert(b[57] == opening_piece(57));
    assert(b[58] == opening_piece(58));
    assert(b[59] == opening_piece(59));
    assert(b[60] == opening_piece(60));
    assert(b[61] == opening_piece(61));
    assert(b[62] == opening_piece(62));
    assert(b[63] == opening_piece(63));
}

/// In the opening position each color has its king, Black is not in check
/// and White has a legal move.
pub proof fn lemma_opening_is_playable(b: Seq<Piece>)
    requires
        b.len() == 64,
        forall|i: int| 0 <= i < 64 ==> #[trigger] b[i] == opening_piece(i),
    ensures
        has_one_king(b, true),
        has_one_king(b, false),
        !in_check(b, false),
        has_legal_move(b, true),
{
    lemma_opening_pieces(b);
    lemma_plain_pieces();
    assert forall|i: int| 16 <= i < 48 implies #[trigger] b[i] == Piece(EMPTY) by {
        assert(b[i].is_empty());
    }
    assert(king_at(b, true, 60));
    assert(king_at(b, false, 4));
    assert forall|j: int| #[trigger] king_at(b, true, j) implies j == 60 by {
        assert(b[j].is_king());
    }
    assert forall|j: int| #[trigger] king_at(b, false, j) implies j == 4 by {
        assert(b[j].is_king());
    }
    assert forall|a: int| #[trigger] owns(b, true, a) implies !reaches(b, a, 4) by {
        assert(!b[a].is_empty());
        assert(a >= 48);
    }
    let m = moved(b, 48, 40);
    assert(b[48].is_white() != b[40].is_white());
    assert(m[40] == b[48]);
    assert(reaches(b, 48, 40)) by {
        assert(offset(48, 0, -1) == Some(40int));
        assert(pawn_reaches(b, 48, 40));
    }
    assert forall|j: int| #[trigger] king_at(m, true, j) implies j == 60 by {
        assert(m[j].is_king());
        if j != 40 && j != 48 {
            assert(m[j] == b[j]);
        }
    }
    assert forall|a: int| #[trigger] owns(m, false, a) implies !reaches(m, a, 60) by {
        assert(!m[a].is_empty());
        if a != 40 && a != 48 {
            assert(m[a] == b[a]);
        }
        assert(a < 16);
    }
    assert(!in_check(m, true));
    assert(legal(b, true, 48, 40));
}

/// A position: the content of each of the 64 squares, rank by rank. A board
/// is never changed in place; a move gives a new board.
pub struct Board {
    pub pieces: [Piece; 64],
}

impl View for Board {
    type V = Seq<Piece>;

    open spec fn view(&self) -> Seq<Piece> {
        self.pieces@
    }
}

impl Board {
    /// The standard opening position, Black on ranks 0 and 1.
    pub fn fresh() -> (r: Board)
        ensures
            forall|i: int| 0 <= i < 64 ==> #[trigger] r@[i] == opening_piece(i),
    {
        Board {
            pieces: [
                Piece(BLACK_ROOK),
                Piece(BLACK_KNIGHT),
                Piece(BLACK_BISHOP),
                Piece(BLACK_QUEEN),
                Piece(BLACK_KING),
                Piece(BLACK_BISHOP),
                Piece(BLACK_KNIGHT),
                Piece(BLACK_ROOK),
                Piece(BLACK_PAWN),
                Piece(BLACK_PAWN),
                Piece(BLACK_PAWN),
                Piece(BLACK_PAWN),
                Piece(BLACK_PAWN),
                Piece(BLACK_PAWN),
                Piece(BLACK_PAWN),
                Piece(BLACK_PAWN),
                Piece(EMPTY),
                Piece(EMPTY),
                Piece(EMPTY),
                Piece(EMPTY),
                Piece(EMPTY),
                Piece(EMPTY),
                Piece(EMPTY),
                Piece(EMPTY),
                Piece(EMPTY),
                Piece(EMPTY),
                Piece(EMPTY),
                Piece(EMPTY),
                Piece(EMPTY),
                Piece(EMPTY),
                Piece(EMPTY),
                Piece(EMPTY),
                Piece(EMPTY),
                Piece(EMPTY),
                Piece(EMPTY),
                Piece(EMPTY),
                Piece(EMPTY),
                Piece(EMPTY),
                Piece(EMPTY),
                Piece(EMPTY),
                Piece(EMPTY),
                Piece(EMPTY),
                Piece(EMPTY),
                Piece(EMPTY),
                Piece(EMPTY),
                Piece(EMPTY),
                Piece(EMPTY),
                Piece(EMPTY),
                Piece(WHITE_PAWN),
                Piece(WHITE_PAWN),
                Piece(WHITE_PAWN),
                Piece(WHITE_PAWN),
                Piece(WHITE_PAWN),
                Piece(WHITE_PAWN),
                Piece(WHITE_PAWN),
                Piece(WHITE_PAWN),
                Piece(WHITE_ROOK),
                Piece(WHITE_KNIGHT),
                Piece(WHITE_BISHOP),
                Piece(WHITE_QUEEN),
                Piece(WHITE_KING),
                Piece(WHITE_BISHOP),
                Piece(WHITE_KNIGHT),
                Piece(WHITE_ROOK),
            ],
        }
    }

    /// The board without any piece.
    pub fn empty() -> (r: Board)
        ensures
            forall|i: int| 0 <= i < 64 ==> #[trigger] r@[i] == Piece(0),
    {
        Board { pieces: [Piece(EMPTY);64] }
    }

    /// The content of a square.
    pub fn piece(&self, loc: Loc) -> (r: Piece)
        requires
            loc.wf(),
        ensures
            r == self@[loc@],
    {
        self.pieces[loc.index()]
    }

    /// The byte of the piece on the square with index `loc`; 0 for an empty one.
    pub fn piece_at(&self, loc: i32) -> (r: u8)
        requires
            0 <= loc < 64,
        ensures
            r == self@[loc as int].0,
    {
        self.pieces[loc as usize].0
    }

    /// The board after the piece on `from` has moved to `to`. The square
    /// `from` is left empty. On `to` the mover stands alone if the occupant
    /// was of the other color or the square was free, and merged with the
    /// occupant if that was of its own color.
    pub fn move_(&self, from: Loc, to: Loc) -> (r: Board)
        requires
            from.wf(),
            to.wf(),
            !self@[from@].is_empty(),
        ensures
            r@ == moved(self@, from@, to@),
    {
        let mut new_pieces = self.pieces;
        let from_piece = new_pieces[from.index()];
        new_pieces[from.index()] = Piece::empty();
        let to_piece = self.pieces[to.index()];
        let new_piece = if from_piece.is_white() == to_piece.is_white() {
            from_piece.merge(to_piece)
        } else {
            from_piece
        };
        new_pieces[to.index()] = new_piece;
        let r = Board { pieces: new_pieces };
        assert(r@ =~= moved(self@, from@, to@));
        r
    }

    /// Marks the square one step of `(dx, dy)` away, if it is on the board.
    fn hop(from: Loc, dx: i32, dy: i32, seen: &mut [bool; 64])
        requires
            from.wf(),
        ensures
            forall|t: int|
                0 <= t < 64 ==> #[trigger] final(seen)@[t] == (old(seen)@[t] || offset(
                    from@,
                    dx as int,
                    dy as int,
                ) == Some(t)),
    {
        if let Some(next) = from.d(dx, dy) {
            seen[next.index()] = true;
        }
    }

    /// Marks the squares along one ray up to and including the first occupied
    /// one.
    fn slide(&self, from: Loc, dx: i32, dy: i32, seen: &mut [bool; 64])
        requires
            from.wf(),
            -1 <= dx <= 1,
            -1 <= dy <= 1,
            dx != 0 || dy != 0,
        ensures
            forall|t: int|
                0 <= t < 64 ==> #[trigger] final(seen)@[t] == (old(seen)@[t] || slides_to(
                    self@,
                    from@,
                    t,
                    dx as int,
                    dy as int,
                )),
    {
        let mut cur = from;
        let mut blocked = false;
        let ghost mut k: int = 0;
        while !blocked
            invariant
                from.wf(),
                cur.wf(),
                -1 <= dx <= 1,
                -1 <= dy <= 1,
                dx != 0 || dy != 0,
                0 <= k < 8,
                ray_on_board(from@, dx as int, dy as int, k),
                cur@ == ray_square(from@, dx as int, dy as int, k),
                !blocked ==> ray_clear(self@, from@, dx as int, dy as int, k + 1),
                blocked ==> ray_clear(self@, from@, dx as int, dy as int, k),
                blocked ==> !ray_clear(self@, from@, dx as int, dy as int, k + 1)
                    || !ray_on_board(from@, dx as int, dy as int, k + 1),
                forall|t: int|
                    0 <= t < 64 ==> seen@[t] == (old(seen)@[t] || exists|j: int|
                        1 <= j <= k && #[trigger] ray_on_board(from@, dx as int, dy as int, j)
                            && ray_square(from@, dx as int, dy as int, j) == t),
            decreases 8 - k + if blocked { 0int } else { 1int },
        {
            match cur.d(dx, dy) {
                Some(next) => {
                    assert(ray_on_board(from@, dx as int, dy as int, k + 1));
                    assert(next@ == ray_square(from@, dx as int, dy as int, k + 1));
                    seen[next.index()] = true;
                    cur = next;
                    proof {
                        k = k + 1;
                    }
                    if !self.piece(next).is_empty() {
                        blocked = true;
                    }
                },
                None => {
                    assert(!ray_on_board(from@, dx as int, dy as int, k + 1));
                    blocked = true;
                },
            }
        }
        proof {
            let b = self@;
            let f = from@;
            let ddx = dx as int;
            let ddy = dy as int;
            assert forall|t: int| 0 <= t < 64 implies seen@[t] == (old(seen)@[t] || slides_to(
                b,
                f,
                t,
                ddx,
                ddy,
            )) by {
                if slides_to(b, f, t, ddx, ddy) {
                    let j = choose|j: int|
                        1 <= j < 8 && #[trigger] ray_on_board(f, ddx, ddy, j) && ray_square(
                            f,
                            ddx,
                            ddy,
                            j,
                        ) == t && ray_clear(b, f, ddx, ddy, j);
                    if j > k {
                        if !ray_on_board(f, ddx, ddy, k + 1) {
                            assert(!ray_on_board(f, ddx, ddy, j));
                        } else {
                            let i = choose|i: int|
                                1 <= i < k + 1 && !b[#[trigger] ray_square(
                                    f,
                                    ddx,
                                    ddy,
                                    i,
                                )].is_empty();
                            assert(b[ray_square(f, ddx, ddy, i)].is_empty());
                        }
                    }
                }
                if exists|j: int|
                    1 <= j <= k && #[trigger] ray_on_board(f, ddx, ddy, j) && ray_square(
                        f,
                        ddx,
                        ddy,
                        j,
                    ) == t {
                    let j = choose|j: int|
                        1 <= j <= k && #[trigger] ray_on_board(f, ddx, ddy, j) && ray_square(
                            f,
                            ddx,
                            ddy,
                            j,
                        ) == t;
                    assert(ray_clear(b, f, ddx, ddy, j));
                }
            }
        }
    }

    /// Marks the squares that a pawn on `loc` reaches.
    fn pawn_moves(&self, loc: Loc, seen: &mut [bool; 64])
        requires
            loc.wf(),
        ensures
            forall|t: int|
                0 <= t < 64 ==> #[trigger] final(seen)@[t] == (old(seen)@[t] || pawn_reaches(
                    self@,
                    loc@,
                    t,
                )),
    {
        let piece = self.piece(loc);
        let dy: i32 = if piece.is_white() {
            -1
        } else {
            1
        };
        if let Some(new_loc) = loc.d(0, dy) {
            if self.piece(new_loc).is_empty() {
                seen[new_loc.index()] = true;
                let starting_row: usize = if piece.is_white() {
                    6
                } else {
                    1
                };
                if starting_row == loc.y() {
                    if let Some(far) = loc.d(0, dy * 2) {
                        if self.piece(far).is_empty() {
                            seen[far.index()] = true;
                        }
                    }
                }
            }
        }
        if let Some(new_loc) = loc.d(-1, dy) {
            if !self.piece(new_loc).is_empty() {
                seen[new_loc.index()] = true;
            }
        }
        if let Some(new_loc) = loc.d(1, dy) {
            if !self.piece(new_loc).is_empty() {
                seen[new_loc.index()] = true;
            }
        }
    }

    /// Marks the squares that a rook on `loc` reaches.
    fn rook_moves(&self, loc: Loc, seen: &mut [bool; 64])
        requires
            loc.wf(),
        ensures
            forall|t: int|
                0 <= t < 64 ==> #[trigger] final(seen)@[t] == (old(seen)@[t] || rook_reaches(
                    self@,
                    loc@,
                    t,
                )),
    {
        self.slide(loc, 1, 0, seen);
        self.slide(loc, -1, 0, seen);
        self.slide(loc, 0, 1, seen);
        self.slide(loc, 0, -1, seen);
    }

    /// Marks the squares that a bishop on `loc` reaches.
    fn bishop_moves(&self, loc: Loc, seen: &mut [bool; 64])
        requires
            loc.wf(),
        ensures
            forall|t: int|
                0 <= t < 64 ==> #[trigger] final(seen)@[t] == (old(seen)@[t] || bishop_reaches(
                    self@,
                    loc@,
                    t,
                )),
    {
        self.slide(loc, 1, 1, seen);
        self.slide(loc, -1, 1, seen);
        self.slide(loc, 1, -1, seen);
        self.slide(loc, -1, -1, seen);
    }

    /// Marks the squares that a king on `loc` reaches.
    fn king_moves(loc: Loc, seen: &mut [bool; 64])
        requires
            loc.wf(),
        ensures
            forall|t: int|
                0 <= t < 64 ==> #[trigger] final(seen)@[t] == (old(seen)@[t] || king_reaches(loc@, t)),
    {
        Self::hop(loc, 1, 0, seen);
        Self::hop(loc, -1, 0, seen);
        Self::hop(loc, 0, 1, seen);
        Self::hop(loc, 0, -1, seen);
        Self::hop(loc, 1, 1, seen);
        Self::hop(loc, -1, 1, seen);
        Self::hop(loc, 1, -1, seen);
        Self::hop(loc, -1, -1, seen);
        proof {
            assert forall|t: int| 0 <= t < 64 implies #[trigger] seen@[t] == (old(seen)@[t]
                || king_reaches(loc@, t)) by {
                lemma_king_offsets(loc@, t);
            }
        }
    }

    /// Marks the squares that a knight on `loc` reaches.
    fn knight_moves(loc: Loc, seen: &mut [bool; 64])
        requires
            loc.wf(),
        ensures
            forall|t: int|
                0 <= t < 64 ==> #[trigger] final(seen)@[t] == (old(seen)@[t] || knight_reaches(loc@, t)),
    {
        Self::hop(loc, 1, 2, seen);
        Self::hop(loc, 2, 1, seen);
        Self::hop(loc, -1, 2, seen);
        Self::hop(loc, 2, -1, seen);
        Self::hop(loc, 1, -2, seen);
        Self::hop(loc, -2, 1, seen);
        Self::hop(loc, -1, -2, seen);
        Self::hop(loc, -2, -1, seen);
        proof {
            assert forall|t: int| 0 <= t < 64 implies #[trigger] seen@[t] == (old(seen)@[t]
                || knight_reaches(loc@, t)) by {
                lemma_knight_offsets(loc@, t);
            }
        }
    }

    /// The marked squares, in ascending order.
    fn marked(seen: &[bool; 64]) -> (r: Vec<Loc>)
        ensures
            ascending(r@),
            forall|t: int| holds(r@, t) <==> (0 <= t < 64 && seen@[t]),
    {
        let mut out: Vec<Loc> = Vec::new();
        let mut i: usize = 0;
        while i < 64
            invariant
                i <= 64,
                ascending(out@),
                forall|j: int| 0 <= j < out.len() ==> (#[trigger] out@[j])@ < i,
                forall|t: int| holds(out@, t) <==> (0 <= t < i && seen@[t]),
            decreases 64 - i,
        {
            if seen[i] {
                let ghost before = out@;
                out.push(Loc(i as i32));
                proof {
                    assert(out@[before.len() as int]@ == i);
                    assert forall|t: int| holds(out@, t) <==> (0 <= t < i + 1 && seen@[t]) by {
                        if holds(out@, t) {
                            let j = choose|j: int| 0 <= j < out@.len() && (#[trigger] out@[j])@ == t;
                            if j < before.len() {
                                assert(before[j]@ == t);
                                assert(holds(before, t));
                            }
                        }
                        if 0 <= t < i && seen@[t] {
                            assert(holds(before, t));
                            let j = choose|j: int| 0 <= j < before.len() && (#[trigger] before[j])@ == t;
                            assert(out@[j]@ == t);
                        }
                    }
                }
            }
            i += 1;
        }
        out
    }

    /// The squares that the piece on `loc` can move to, in ascending order and
    /// each once; `None` if the square is empty. A piece with several
    /// capabilities reaches what any of them reaches. Whether a move would
    /// leave the mover's own king in check is not asked.
    pub fn moves_from(&self, loc: Loc) -> (r: Option<Vec<Loc>>)
        requires
            loc.wf(),
        ensures
            r is None <==> self@[loc@].is_empty(),
            r is Some ==> ascending(r.unwrap()@),
            r is Some ==> forall|t: int| holds(r.unwrap()@, t) <==> reaches(self@, loc@, t),
    {
        let piece = self.piece(loc);
        if piece.is_empty() {
            return None;
        }
        let mut seen: [bool; 64] = [false;64];
        let ghost b = self@;
        let ghost f = loc@;
        assert(forall|t: int| 0 <= t < 64 ==> !seen@[t]);
        if piece.is_pawn() {
            self.pawn_moves(loc, &mut seen);
        }
        assert(forall|t: int|
            0 <= t < 64 ==> seen@[t] == (piece.is_pawn() && pawn_reaches(b, f, t)));
        let ghost s1 = seen@;
        if piece.is_rook() {
            self.rook_moves(loc, &mut seen);
        }
        assert(forall|t: int|
            0 <= t < 64 ==> seen@[t] == (s1[t] || (piece.is_rook() && rook_reaches(b, f, t))));
        let ghost s2 = seen@;
        if piece.is_bishop() {
            self.bishop_moves(loc, &mut seen);
        }
        assert(forall|t: int|
            0 <= t < 64 ==> seen@[t] == (s2[t] || (piece.is_bishop() && bishop_reaches(b, f, t))));
        let ghost s3 = seen@;
        if piece.is_queen() {
            self.rook_moves(loc, &mut seen);
            self.bishop_moves(loc, &mut seen);
        }
        assert(forall|t: int|
            0 <= t < 64 ==> seen@[t] == (s3[t] || (piece.is_queen() && queen_reaches(b, f, t))));
        let ghost s4 = seen@;
        if piece.is_king() {
            Self::king_moves(loc, &mut seen);
        }
        assert(forall|t: int|
            0 <= t < 64 ==> seen@[t] == (s4[t] || (piece.is_king() && king_reaches(f, t))));
        let ghost s5 = seen@;
        if piece.is_knight() {
            Self::knight_moves(loc, &mut seen);
        }
        assert(forall|t: int|
            0 <= t < 64 ==> seen@[t] == (s5[t] || (piece.is_knight() && knight_reaches(f, t))));
        assert(forall|t: int| 0 <= t < 64 ==> seen@[t] == reaches(b, f, t));
        Some(Self::marked(&seen))
    }

    /// The pieces of one color with their squares, in ascending order of
    /// square.
    pub fn pieces(&self, white: bool) -> (r: Vec<(Loc, Piece)>)
        ensures
            forall|i: int|
                0 <= i < r.len() ==> (#[trigger] r[i]).0.wf() && owns(self@, white, r[i].0@)
                    && r[i].1 == self@[r[i].0@],
            forall|i: int, j: int|
                0 <= i < j < r.len() ==> (#[trigger] r[i]).0@ < (#[trigger] r[j]).0@,
            forall|s: int|
                owns(self@, white, s) ==> exists|i: int|
                    0 <= i < r.len() && (#[trigger] r[i]).0@ == s,
    {
        let mut out: Vec<(Loc, Piece)> = Vec::new();
        let mut i: usize = 0;
        while i < 64
            invariant
                i <= 64,
                forall|n: int|
                    0 <= n < out.len() ==> (#[trigger] out[n]).0.wf() && owns(
                        self@,
                        white,
                        out[n].0@,
                    ) && out[n].1 == self@[out[n].0@] && out[n].0@ < i,
                forall|n: int, m: int|
                    0 <= n < m < out.len() ==> (#[trigger] out[n]).0@ < (#[trigger] out[m]).0@,
                forall|s: int|
                    owns(self@, white, s) && s < i ==> exists|n: int|
                        0 <= n < out.len() && (#[trigger] out[n]).0@ == s,
            decreases 64 - i,
        {
            let p = self.pieces[i];
            if !p.is_empty() && p.is_white() == white {
                let ghost before = out@;
                out.push((Loc(i as i32), p));
                proof {
                    assert(out[before.len() as int].0@ == i);
                    assert forall|s: int| owns(self@, white, s) && s < i + 1 implies exists|
                        n: int,
                    |
                        0 <= n < out.len() && (#[trigger] out[n]).0@ == s by {
                        if s < i {
                            let n = choose|n: int|
                                0 <= n < before.len() && (#[trigger] before[n]).0@ == s;
                            assert(out[n].0@ == s);
                        }
                    }
                }
            }
            i += 1;
        }
        out
    }

    /// The square of the king of the given color.
    fn king_loc(&self, white: bool) -> (r: Loc)
        requires
            has_one_king(self@, white),
        ensures
            r.wf(),
            king_at(self@, white, r@),
    {
        let mut i: usize = 0;
        while i < 63
            invariant
                i <= 63,
                forall|j: int| 0 <= j < i ==> !king_at(self@, white, j),
            decreases 63 - i,
        {
            let p = self.pieces[i];
            if p.is_king() && p.is_white() == white {
                return Loc(i as i32);
            }
            i += 1;
        }
        Loc(63)
    }

    /// Whether some piece of the given color can move to `target`.
    fn attacks(&self, white: bool, target: Loc) -> (r: bool)
        requires
            target.wf(),
        ensures
            r == attacked_by(self@, white, target@),
    {
        let attackers = self.pieces(white);
        let mut i: usize = 0;
        while i < attackers.len()
            invariant
                i <= attackers.len(),
                target.wf(),
                forall|n: int|
                    0 <= n < attackers.len() ==> (#[trigger] attackers[n]).0.wf() && owns(
                        self@,
                        white,
                        attackers[n].0@,
                    ),
                forall|s: int|
                    owns(self@, white, s) ==> exists|n: int|
                        0 <= n < attackers.len() && (#[trigger] attackers[n]).0@ == s,
                forall|n: int|
                    0 <= n < i ==> !reaches(self@, (#[trigger] attackers[n]).0@, target@),
            decreases attackers.len() - i,
        {
            let from = attackers[i].0;
            if let Some(moves) = self.moves_from(from) {
                if contains(&moves, target) {
                    assert(owns(self@, white, from@) && reaches(self@, from@, target@));
                    return true;
                }
            }
            i += 1;
        }
        proof {
            assert forall|a: int| #[trigger] owns(self@, white, a) implies !reaches(
                self@,
                a,
                target@,
            ) by {
                let n = choose|n: int|
                    0 <= n < attackers.len() && (#[trigger] attackers[n]).0@ == a;
                assert(!reaches(self@, attackers[n].0@, target@));
            }
        }
        false
    }

    /// Whether the king of the given color stands on a square that a piece of
    /// the other color can move to.
    pub fn is_check(&self, white: bool) -> (r: bool)
        requires
            has_one_king(self@, white),
        ensures
            r == in_check(self@, white),
    {
        let king = self.king_loc(white);
        let r = self.attacks(!white, king);
        proof {
            if in_check(self@, white) {
                let k = choose|k: int| #[trigger]
                    king_at(self@, white, k) && attacked_by(self@, !white, k);
                assert(k == king@);
            }
        }
        r
    }

    /// Whether the move is one of the given color's own and leaves its king
    /// out of check.
    fn is_legal(&self, white: bool, from: Loc, to: Loc) -> (r: bool)
        requires
            has_one_king(self@, white),
            from.wf(),
            to.wf(),
            owns(self@, white, from@),
            reaches(self@, from@, to@),
        ensures
            r == legal(self@, white, from@, to@),
    {
        proof {
            lemma_own_move_keeps_king(self@, white, from@, to@);
        }
        !self.move_(from, to).is_check(white)
    }

    /// The legal moves of the given color as pairs of squares, ordered by
    /// the square left and then by the square reached: every move of a piece
    /// of that color that does not leave its own king in check.
    pub fn legal_moves(&self, white: bool) -> (r: Vec<(Loc, Loc)>)
        requires
            has_one_king(self@, white),
        ensures
            lists_legal_moves(r@, self@, white),
    {
        let own = self.pieces(white);
        let mut out: Vec<(Loc, Loc)> = Vec::new();
        let mut i: usize = 0;
        while i < own.len()
            invariant
                i <= own.len(),
                has_one_king(self@, white),
                forall|n: int|
                    0 <= n < own.len() ==> (#[trigger] own[n]).0.wf() && owns(
                        self@,
                        white,
                        own[n].0@,
                    ),
                forall|n: int, m: int|
                    0 <= n < m < own.len() ==> (#[trigger] own[n]).0@ < (#[trigger] own[m]).0@,
                forall|s: int|
                    owns(self@, white, s) ==> exists|n: int|
                        0 <= n < own.len() && (#[trigger] own[n]).0@ == s,
                lists_legal_moves_below(
                    out@,
                    self@,
                    white,
                    if i < own.len() {
                        own[i as int].0@ * 64
                    } else {
                        4096
                    },
                ),
            decreases own.len() - i,
        {
            let from = own[i].0;
            let ghost next_bound = if i + 1 < own.len() {
                own[i + 1].0@ * 64
            } else {
                4096
            };
            if let Some(moves) = self.moves_from(from) {
                let mut j: usize = 0;
                proof {
                    let first = if 0 < moves.len() {
                        from@ * 64 + moves[0]@
                    } else {
                        from@ * 64 + 64
                    };
                    assert forall|f: int, t: int|
                        legal(self@, white, f, t) && f * 64 + t < first implies listed(
                        out@,
                        f,
                        t,
                    ) by {
                        if f * 64 + t >= from@ * 64 {
                            assert(f == from@);
                            assert(holds(moves@, t));
                            let n = choose|n: int|
                                0 <= n < moves.len() && (#[trigger] moves@[n])@ == t;
                        }
                    }
                }
                while j < moves.len()
                    invariant
                        j <= moves.len(),
                        i < own.len(),
                        from == own[i as int].0,
                        from.wf(),
                        owns(self@, white, from@),
                        has_one_king(self@, white),
                        ascending(moves@),
                        forall|t: int| holds(moves@, t) <==> reaches(self@, from@, t),
                        lists_legal_moves_below(
                            out@,
                            self@,
                            white,
                            if j < moves.len() {
                                from@ * 64 + moves[j as int]@
                            } else {
                                from@ * 64 + 64
                            },
                        ),
                    decreases moves.len() - j,
                {
                    let to = moves[j];
                    let ghost bound = from@ * 64 + to@;
                    let ghost after = if j + 1 < moves.len() {
                        from@ * 64 + moves[j + 1]@
                    } else {
                        from@ * 64 + 64
                    };
                    assert(holds(moves@, to@));
                    let ghost before = out@;
                    if self.is_legal(white, from, to) {
                        out.push((from, to));
                    }
                    proof {
                        assert forall|f: int, t: int|
                            legal(self@, white, f, t) && f * 64 + t < after implies listed(
                            out@,
                            f,
                            t,
                        ) by {
                            if f * 64 + t < bound {
                                assert(listed(before, f, t));
                                let n = choose|n: int|
                                    0 <= n < before.len() && (#[trigger] before[n]).0@ == f
                                        && before[n].1@ == t;
                                assert(out@[n] == before[n]);
                            } else if f == from@ && t == to@ {
                                assert(out@[before.len() as int] == (from, to));
                            } else {
                                assert(f == from@);
                                assert(holds(moves@, t));
                                let n = choose|n: int|
                                    0 <= n < moves.len() && (#[trigger] moves@[n])@ == t;
                            }
                        }
                    }
                    j += 1;
                }
            }
            proof {
                assert forall|f: int, t: int|
                    legal(self@, white, f, t) && f * 64 + t < next_bound implies listed(
                    out@,
                    f,
                    t,
                ) by {
                    if f * 64 + t >= from@ * 64 + 64 {
                        let n = choose|n: int| 0 <= n < own.len() && (#[trigger] own[n]).0@ == f;
                    }
                }
            }
            i += 1;
        }
        out
    }

    /// Whether the given color has no legal move.
    fn no_escape(&self, white: bool) -> (r: bool)
        requires
            has_one_king(self@, white),
        ensures
            r == !has_legal_move(self@, white),
    {
        let moves = self.legal_moves(white);
        proof {
            if moves.len() > 0 {
                assert(legal(self@, white, moves[0].0@, moves[0].1@));
            }
            if has_legal_move(self@, white) {
                let (f, t) = choose|f: int, t: int| #[trigger] legal(self@, white, f, t);
                assert(listed(moves@, f, t));
            }
        }
        moves.len() == 0
    }

    /// Whether the given color is in check and has no move that ends it.
    pub fn is_check_mate(&self, white: bool) -> (r: bool)
        requires
            has_one_king(self@, white),
        ensures
            r == check_mate(self@, white),
            r ==> in_check(self@, white),
    {
        if !self.is_check(white) {
            return false;
        }
        self.no_escape(white)
    }

    /// Whether the given color is not in check but every move it has would
    /// put it in check.
    pub fn is_stale_mate(&self, white: bool) -> (r: bool)
        requires
            has_one_king(self@, white),
        ensures
            r == stale_mate(self@, white),
            r ==> !in_check(self@, white),
    {
        if self.is_check(white) {
            return false;
        }
        self.no_escape(white)
    }
}

} // verus!

//! The rules of movement and of check, stated over a board's 64 squares.
//!
//! Nothing here is executed: a board is a sequence of 64 pieces and a square
//! is an index into it.

use crate::loc::{file_of, offset, on_board, rank_of, square};
use crate::piece::{lemma_merge_flags, Piece};
use vstd::prelude::*;

verus! {

/// Whether `i` is the index of a square.
pub open spec fn is_square(i: int) -> bool {
    0 <= i < 64
}

/// `k` steps taken in the direction of the sign of `d`.
pub open spec fn along(d: int, k: int) -> int {
    if d > 0 {
        k
    } else if d < 0 {
        -k
    } else {
        0
    }
}

/// Whether the `k`-th step from `from` in direction `(dx, dy)` is on the board.
pub open spec fn ray_on_board(from: int, dx: int, dy: int, k: int) -> bool {
    on_board(file_of(from) + along(dx, k), rank_of(from) + along(dy, k))
}

/// The square reached by `k` steps from `from` in direction `(dx, dy)`.
pub open spec fn ray_square(from: int, dx: int, dy: int, k: int) -> int {
    square(file_of(from) + along(dx, k), rank_of(from) + along(dy, k))
}

/// Whether the first `k - 1` squares of the ray are all empty.
pub open spec fn ray_clear(b: Seq<Piece>, from: int, dx: int, dy: int, k: int) -> bool {
    forall|j: int| 1 <= j < k ==> b[#[trigger] ray_square(from, dx, dy, j)].is_empty()
}

/// A sliding piece on `from` reaches `to` along `(dx, dy)`: `to` lies on that
/// ray and no piece stands between the two. What stands on `to` is not asked.
pub open spec fn slides_to(b: Seq<Piece>, from: int, to: int, dx: int, dy: int) -> bool {
    exists|k: int|
        1 <= k < 8 && #[trigger] ray_on_board(from, dx, dy, k) && ray_square(from, dx, dy, k)
            == to && ray_clear(b, from, dx, dy, k)
}

/// The squares a rook on `from` reaches.
pub open spec fn rook_reaches(b: Seq<Piece>, from: int, to: int) -> bool {
    slides_to(b, from, to, 1, 0) || slides_to(b, from, to, -1, 0) || slides_to(b, from, to, 0, 1)
        || slides_to(b, from, to, 0, -1)
}

/// The squares a bishop on `from` reaches.
pub open spec fn bishop_reaches(b: Seq<Piece>, from: int, to: int) -> bool {
    slides_to(b, from, to, 1, 1) || slides_to(b, from, to, -1, 1) || slides_to(b, from, to, 1, -1)
        || slides_to(b, from, to, -1, -1)
}

/// The squares a queen on `from` reaches.
pub open spec fn queen_reaches(b: Seq<Piece>, from: int, to: int) -> bool {
    rook_reaches(b, from, to) || bishop_reaches(b, from, to)
}

/// The squares a king on `from` reaches: every neighbor on the board.
pub open spec fn king_reaches(from: int, to: int) -> bool {
    let dx = file_of(to) - file_of(from);
    let dy = rank_of(to) - rank_of(from);
    is_square(to) && -1 <= dx <= 1 && -1 <= dy <= 1 && to != from
}

/// The squares a knight on `from` reaches.
pub open spec fn knight_reaches(from: int, to: int) -> bool {
    let dx = file_of(to) - file_of(from);
    let dy = rank_of(to) - rank_of(from);
    is_square(to) && (((dx == 1 || dx == -1) && (dy == 2 || dy == -2)) || ((dx == 2 || dx == -2)
        && (dy == 1 || dy == -1)))
}

/// The direction in which a pawn of this color advances.
pub open spec fn pawn_dir(p: Piece) -> int {
    if p.is_white() {
        -1
    } else {
        1
    }
}

/// The rank on which the pawns of this color start.
pub open spec fn pawn_home(p: Piece) -> int {
    if p.is_white() {
        6
    } else {
        1
    }
}

/// The squares a pawn on `from` reaches. It steps forward onto an empty
/// square, and from its home rank one square further if that one is empty as
/// well. It steps diagonally forward onto any occupied square, whatever the
/// occupant's color.
pub open spec fn pawn_reaches(b: Seq<Piece>, from: int, to: int) -> bool {
    let dy = pawn_dir(b[from]);
    let ahead = offset(from, 0, dy);
    ||| (ahead == Some(to) && b[to].is_empty())
    ||| (ahead is Some && b[ahead.unwrap()].is_empty() && rank_of(from) == pawn_home(b[from])
        && offset(from, 0, 2 * dy) == Some(to) && b[to].is_empty())
    ||| ((offset(from, -1, dy) == Some(to) || offset(from, 1, dy) == Some(to))
        && !b[to].is_empty())
}

/// The piece on `from` can move to `to`, by the pattern of any capability it
/// carries. Whether the move exposes the mover's own king is not asked here.
pub open spec fn reaches(b: Seq<Piece>, from: int, to: int) -> bool {
    let p = b[from];
    &&& is_square(from)
    &&& is_square(to)
    &&& !p.is_empty()
    &&& {
        ||| p.is_pawn() && pawn_reaches(b, from, to)
        ||| p.is_rook() && rook_reaches(b, from, to)
        ||| p.is_bishop() && bishop_reaches(b, from, to)
        ||| p.is_queen() && queen_reaches(b, from, to)
        ||| p.is_king() && king_reaches(from, to)
        ||| p.is_knight() && knight_reaches(from, to)
    }
}

/// The piece that stands on `to` after the piece on `from` has moved there:
/// merged with an occupant of its own color, alone otherwise.
pub open spec fn landing(b: Seq<Piece>, from: int, to: int) -> Piece {
    if b[from].is_white() == b[to].is_white() {
        b[from].merge(b[to])
    } else {
        b[from]
    }
}

/// The board after the piece on `from` has moved to `to`.
pub open spec fn moved(b: Seq<Piece>, from: int, to: int) -> Seq<Piece> {
    b.update(from, Piece(0)).update(to, landing(b, from, to))
}

/// Square `i` holds a piece of the given color.
pub open spec fn owns(b: Seq<Piece>, white: bool, i: int) -> bool {
    is_square(i) && !b[i].is_empty() && b[i].is_white() == white
}

/// Square `i` holds the piece of the given color that carries the king flag.
pub open spec fn king_at(b: Seq<Piece>, white: bool, i: int) -> bool {
    is_square(i) && b[i].is_king() && b[i].is_white() == white
}

/// Exactly one piece of the given color carries the king flag.
pub open spec fn has_one_king(b: Seq<Piece>, white: bool) -> bool {
    exists|k: int| #[trigger]
        king_at(b, white, k) && forall|j: int| #[trigger] king_at(b, white, j) ==> j == k
}

/// Some piece of the given color can move to `target`.
pub open spec fn attacked_by(b: Seq<Piece>, white: bool, target: int) -> bool {
    exists|a: int| #[trigger] owns(b, white, a) && reaches(b, a, target)
}

/// The king of the given color stands on a square that an opposing piece can
/// move to.
pub open spec fn in_check(b: Seq<Piece>, white: bool) -> bool {
    exists|k: int| #[trigger] king_at(b, white, k) && attacked_by(b, !white, k)
}

/// A move of the given color that does not leave its own king in check.
pub open spec fn legal(b: Seq<Piece>, white: bool, from: int, to: int) -> bool {
    owns(b, white, from) && reaches(b, from, to) && !in_check(moved(b, from, to), white)
}

/// The given color has at least one legal move.
pub open spec fn has_legal_move(b: Seq<Piece>, white: bool) -> bool {
    exists|from: int, to: int| #[trigger] legal(b, white, from, to)
}

/// The given color is in check and no move of its own ends the check.
pub open spec fn check_mate(b: Seq<Piece>, white: bool) -> bool {
    in_check(b, white) && !has_legal_move(b, white)
}

/// The given color is not in check, and every move it has would put it there.
pub open spec fn stale_mate(b: Seq<Piece>, white: bool) -> bool {
    !in_check(b, white) && !has_legal_move(b, white)
}

/// A checkmated color is in check; a stalemated color is not.
pub proof fn lemma_mate_and_check(b: Seq<Piece>, white: bool)
    ensures
        check_mate(b, white) ==> in_check(b, white),
        stale_mate(b, white) ==> !in_check(b, white),
{
}

/// What is known of the piece that lands on `to`: it has the mover's color,
/// and carries the king flag exactly when the mover does or an occupant of
/// the mover's color does.
pub proof fn lemma_landing(b: Seq<Piece>, from: int, to: int)
    requires
        b.len() == 64,
        is_square(from),
        is_square(to),
        !b[from].is_empty(),
    ensures
        !landing(b, from, to).is_empty(),
        landing(b, from, to).is_white() == b[from].is_white(),
        landing(b, from, to).is_king() == (b[from].is_king() || (b[to].is_king()
            && b[to].is_white() == b[from].is_white())),
        !Piece(0).is_king(),
        !Piece(0).is_white(),
{
    lemma_merge_flags(b[from], b[to]);
    assert(0u8 & 1 == 0) by (bit_vector);
    assert(0u8 & 0x80 != 0x80) by (bit_vector);
}

/// A move of one's own piece leaves one's own king on the board, and alone.
pub proof fn lemma_own_move_keeps_king(b: Seq<Piece>, white: bool, from: int, to: int)
    requires
        b.len() == 64,
        has_one_king(b, white),
        owns(b, white, from),
        is_square(to),
    ensures
        has_one_king(moved(b, from, to), white),
{
    lemma_landing(b, from, to);
    let k = choose|k: int| #[trigger]
        king_at(b, white, k) && forall|j: int| #[trigger] king_at(b, white, j) ==> j == k;
    let m = moved(b, from, to);
    let nk = if from == k {
        to
    } else {
        k
    };
    assert(king_at(b, white, from) ==> from == k);
    assert(king_at(b, white, to) ==> to == k);
    assert(king_at(m, white, nk));
    assert forall|j: int| #[trigger] king_at(m, white, j) implies j == nk by {
        if j != to && j != from {
            assert(m[j] == b[j]);
            assert(king_at(b, white, j));
        }
    }
}

/// A move that does not land on the other color's king leaves that king on
/// the board, and alone.
pub proof fn lemma_move_keeps_other_king(b: Seq<Piece>, white: bool, from: int, to: int)
    requires
        b.len() == 64,
        has_one_king(b, !white),
        owns(b, white, from),
        is_square(to),
        !king_at(b, !white, to),
    ensures
        has_one_king(moved(b, from, to), !white),
{
    lemma_landing(b, from, to);
    let other = !white;
    let k = choose|k: int| #[trigger]
        king_at(b, other, k) && forall|j: int| #[trigger] king_at(b, other, j) ==> j == k;
    let m = moved(b, from, to);
    assert(m[k] == b[k]);
    assert(king_at(m, other, k));
    assert forall|j: int| #[trigger] king_at(m, other, j) implies j == k by {
        if j != to && j != from {
            assert(m[j] == b[j]);
            assert(king_at(b, other, j));
        }
    }
}

/// Where a color is not in check, no move of the other color lands on its
/// king.
pub proof fn lemma_unchecked_king_is_not_taken(b: Seq<Piece>, white: bool, from: int, to: int)
    requires
        !in_check(b, !white),
        owns(b, white, from),
        reaches(b, from, to),
    ensures
        !king_at(b, !white, to),
{
    let other = !white;
    if king_at(b, other, to) {
        assert(owns(b, !other, from));
        assert(attacked_by(b, !other, to));
        assert(in_check(b, other));
    }
}

/// Moving onto a piece of one's own color merges the two: the piece on `to`
/// then carries the bits of both, and the mover's color.
pub proof fn lemma_merge_on_own_color(b: Seq<Piece>, from: int, to: int)
    requires
        b.len() == 64,
        is_square(from),
        is_square(to),
        b[from].is_white() == b[to].is_white(),
    ensures
        moved(b, from, to)[to].0 == b[from].0 | b[to].0,
        moved(b, from, to)[to].is_white() == b[from].is_white(),
{
    lemma_merge_flags(b[from], b[to]);
}

/// Moving onto a piece of the other color removes it: the piece on `to` is
/// then the mover, unchanged, whatever stood there before.
pub proof fn lemma_capture_on_other_color(b: Seq<Piece>, from: int, to: int)
    requires
        b.len() == 64,
        is_square(from),
        is_square(to),
        b[from].is_white() != b[to].is_white(),
    ensures
        moved(b, from, to)[to] == b[from],
{
}

} // verus!

//! Choosing a move: material evaluation and a minimax search of fixed depth
//! with alpha-beta pruning.

use crate::board::{listed, lists_legal_moves, move_rank, Board};
use crate::loc::Loc;
use crate::piece::Piece;
use crate::rules::{
    check_mate, has_legal_move, has_one_king, in_check, legal, lemma_move_keeps_other_king,
    lemma_own_move_keeps_king, lemma_unchecked_king_is_not_taken, moved, owns, stale_mate,
};
use rand::seq::IteratorRandom;
use vstd::pervasive::unreached;
use vstd::prelude::*;

verus! {

/// The number of plies that `choose_minimax` looks ahead after its own move.
pub const SEARCH_DEPTH: usize = 3;

/// The material value of a piece: the sum of the weights of the capabilities
/// it carries.
pub open spec fn piece_value(p: Piece) -> int {
    (if p.is_king() {
        1000int
    } else {
        0
    }) + (if p.is_queen() {
        100int
    } else {
        0
    }) + (if p.is_rook() {
        70int
    } else {
        0
    }) + (if p.is_knight() {
        60int
    } else {
        0
    }) + (if p.is_bishop() {
        50int
    } else {
        0
    }) + (if p.is_pawn() {
        20int
    } else {
        0
    })
}

/// The material of one color on the first `n` squares.
pub open spec fn material_below(b: Seq<Piece>, white: bool, n: nat) -> int
    decreases n,
{
    if n == 0 {
        0
    } else {
        material_below(b, white, (n - 1) as nat) + if owns(b, white, n - 1) {
            piece_value(b[n - 1])
        } else {
            0
        }
    }
}

/// The material of one color on the whole board.
pub open spec fn material(b: Seq<Piece>, white: bool) -> int {
    material_below(b, white, 64)
}

/// The static evaluation of a position for one color: its own material less
/// the other color's.
pub open spec fn score(b: Seq<Piece>, white: bool) -> int {
    material(b, white) - material(b, !white)
}

/// The material on the first `n` squares is at most 1300 a square.
pub proof fn lemma_material_bounds(b: Seq<Piece>, white: bool, n: nat)
    ensures
        0 <= material_below(b, white, n) <= 1300 * n,
    decreases n,
{
    if n > 0 {
        lemma_material_bounds(b, white, (n - 1) as nat);
    }
}

/// The material value of a piece.
pub fn score_piece(piece: Piece) -> (r: i32)
    ensures
        r == piece_value(piece),
{
    let mut res: i32 = 0;
    if piece.is_king() {
        res += 1000;
    }
    if piece.is_queen() {
        res += 100;
    }
    if piece.is_rook() {
        res += 70;
    }
    if piece.is_knight() {
        res += 60;
    }
    if piece.is_bishop() {
        res += 50;
    }
    if piece.is_pawn() {
        res += 20;
    }
    res
}

/// The material of one color.
fn material_of(board: &Board, white: bool) -> (r: i32)
    ensures
        r == material(board@, white),
        0 <= r <= 83200,
{
    let mut sum: i32 = 0;
    let mut i: usize = 0;
    while i < 64
        invariant
            i <= 64,
            sum == material_below(board@, white, i as nat),
            0 <= sum <= 1300 * i,
        decreases 64 - i,
    {
        let p = board.pieces[i];
        proof {
            lemma_material_bounds(board@, white, (i + 1) as nat);
        }
        if !p.is_empty() && p.is_white() == white {
            sum += score_piece(p);
        }
        i += 1;
    }
    sum
}

/// The static evaluation of a position for one color: its own material less
/// the other color's.
pub fn score_board(board: &Board, white: bool) -> (r: i32)
    ensures
        r == score(board@, white),
{
    material_of(board, white) - material_of(board, !white)
}

/// The color that moves at a node: the searching color where the node
/// maximizes, the other color where it minimizes.
pub open spec fn side_to_move(maximizing: bool, ai_white: bool) -> bool {
    maximizing == ai_white
}

/// The value of a node without a legal move to look at: the worst that the
/// player at the node can get.
pub open spec fn worst(maximizing: bool) -> int {
    if maximizing {
        i32::MIN as int
    } else {
        i32::MAX as int
    }
}

/// The minimax value of a position, seen from the color `ai_white`, when the
/// search looks `depth` plies ahead. At depth 0 it is the static evaluation.
/// A checkmated player gets the worst value there is, whatever the depth, and
/// a stalemate is worth 0. Otherwise the player to move takes the best of
/// the values of its legal moves: the greatest where it maximizes, the least
/// where it minimizes.
#[verifier::opaque]
pub open spec fn minimax_value(b: Seq<Piece>, depth: nat, maximizing: bool, ai_white: bool) -> int
    decreases depth, 4097nat,
{
    let white = side_to_move(maximizing, ai_white);
    if depth == 0 {
        score(b, ai_white)
    } else if check_mate(b, white) {
        worst(maximizing)
    } else if stale_mate(b, white) {
        0
    } else {
        best_below(b, depth, maximizing, ai_white, 4096)
    }
}

/// The best value among the legal moves that come before place `n` in the
/// order of moves (the move from `f` to `t` has place `f * 64 + t`).
#[verifier::opaque]
pub open spec fn best_below(
    b: Seq<Piece>,
    depth: nat,
    maximizing: bool,
    ai_white: bool,
    n: nat,
) -> int
    decreases depth, n,
{
    if n == 0 || depth == 0 {
        worst(maximizing)
    } else {
        let rest = best_below(b, depth, maximizing, ai_white, (n - 1) as nat);
        let from = (n - 1) / 64;
        let to = (n - 1) % 64;
        if legal(b, side_to_move(maximizing, ai_white), from, to) {
            let v = minimax_value(moved(b, from, to), (depth - 1) as nat, !maximizing, ai_white);
            if maximizing {
                if v > rest {
                    v
                } else {
                    rest
                }
            } else {
                if v < rest {
                    v
                } else {
                    rest
                }
            }
        } else {
            rest
        }
    }
}

/// What a search with the window from `alpha` to `beta` says of the exact
/// value: a result inside the window is the exact value, a result at or
/// under `alpha` is at least the exact value, and a result at or over `beta`
/// is at most the exact value.
pub open spec fn agrees(r: int, exact: int, alpha: int, beta: int) -> bool {
    &&& r <= alpha ==> exact <= r
    &&& r >= beta ==> exact >= r
    &&& alpha < r < beta ==> exact == r
}

/// The positions that the search accepts at a node where `white` moves: each
/// color has its king, and the color that has just moved is not in check.
pub open spec fn ready(b: Seq<Piece>, white: bool) -> bool {
    &&& b.len() == 64
    &&& has_one_king(b, true)
    &&& has_one_king(b, false)
    &&& !in_check(b, !white)
}

/// The positions that a search of `depth` plies accepts at a node where
/// `white` moves. A search of at least one ply asks for the mover's king. A
/// search that goes on behind a move of the mover asks for both kings and for
/// the other color to be out of check, so that no position it comes to has
/// lost the king of the color that moves there.
pub open spec fn searchable(b: Seq<Piece>, depth: nat, white: bool) -> bool {
    &&& depth > 0 ==> b.len() == 64 && has_one_king(b, white)
    &&& depth > 1 && has_legal_move(b, white) ==> ready(b, white)
}

/// The position after a legal move is one that a search of one ply less
/// accepts, with the other color to move.
pub proof fn lemma_child_searchable(b: Seq<Piece>, depth: nat, white: bool, from: int, to: int)
    requires
        depth > 0,
        searchable(b, depth, white),
        legal(b, white, from, to),
    ensures
        searchable(moved(b, from, to), (depth - 1) as nat, !white),
{
    if depth > 1 {
        assert(has_legal_move(b, white));
        lemma_child_ready(b, white, from, to);
    }
}

/// At depth 0 the minimax value is the static evaluation, and a player
/// without a legal move gets the worst value when in check and 0 when not.
/// Where there is a legal move, the value is the best over all moves.
pub proof fn lemma_value_cases(b: Seq<Piece>, depth: nat, maximizing: bool, ai_white: bool)
    ensures
        depth == 0 ==> minimax_value(b, depth, maximizing, ai_white) == score(b, ai_white),
        depth > 0 && check_mate(b, side_to_move(maximizing, ai_white)) ==> minimax_value(
            b,
            depth,
            maximizing,
            ai_white,
        ) == worst(maximizing),
        depth > 0 && stale_mate(b, side_to_move(maximizing, ai_white)) ==> minimax_value(
            b,
            depth,
            maximizing,
            ai_white,
        ) == 0,
        depth > 0 && has_legal_move(b, side_to_move(maximizing, ai_white)) ==> minimax_value(
            b,
            depth,
            maximizing,
            ai_white,
        ) == best_below(b, depth, maximizing, ai_white, 4096),
{
    reveal_with_fuel(minimax_value, 2);
    reveal_with_fuel(best_below, 2);
}

/// Every minimax value is a 32-bit number.
pub proof fn lemma_value_range(b: Seq<Piece>, depth: nat, maximizing: bool, ai_white: bool)
    ensures
        i32::MIN <= minimax_value(b, depth, maximizing, ai_white) <= i32::MAX,
    decreases depth, 4097nat,
{
    reveal(minimax_value);
    reveal(best_below);
    if depth == 0 {
        lemma_material_bounds(b, ai_white, 64);
        lemma_material_bounds(b, !ai_white, 64);
    } else {
        lemma_best_range(b, depth, maximizing, ai_white, 4096);
    }
}

/// Every best value of a run of moves is a 32-bit number.
pub proof fn lemma_best_range(
    b: Seq<Piece>,
    depth: nat,
    maximizing: bool,
    ai_white: bool,
    n: nat,
)
    ensures
        i32::MIN <= best_below(b, depth, maximizing, ai_white, n) <= i32::MAX,
    decreases depth, n,
{
    reveal(minimax_value);
    reveal(best_below);
    if n > 0 && depth > 0 {
        lemma_best_range(b, depth, maximizing, ai_white, (n - 1) as nat);
        lemma_value_range(
            moved(b, (n - 1) / 64, (n - 1) % 64),
            (depth - 1) as nat,
            !maximizing,
            ai_white,
        );
    }
}

/// More moves can only improve the best value for the player at the node.
pub proof fn lemma_best_monotone(
    b: Seq<Piece>,
    depth: nat,
    maximizing: bool,
    ai_white: bool,
    lo: nat,
    hi: nat,
)
    requires
        lo <= hi,
    ensures
        maximizing ==> best_below(b, depth, maximizing, ai_white, lo) <= best_below(
            b,
            depth,
            maximizing,
            ai_white,
            hi,
        ),
        !maximizing ==> best_below(b, depth, maximizing, ai_white, lo) >= best_below(
            b,
            depth,
            maximizing,
            ai_white,
            hi,
        ),
    decreases hi,
{
    reveal(minimax_value);
    reveal(best_below);
    if lo < hi {
        lemma_best_monotone(b, depth, maximizing, ai_white, lo, (hi - 1) as nat);
    }
}

/// Places that hold no legal move do not change the best value.
pub proof fn lemma_best_gap(
    b: Seq<Piece>,
    depth: nat,
    maximizing: bool,
    ai_white: bool,
    lo: nat,
    hi: nat,
)
    requires
        lo <= hi,
        forall|n: int|
            lo <= n < hi ==> !#[trigger] legal(b, side_to_move(maximizing, ai_white), n / 64, n % 64),
    ensures
        best_below(b, depth, maximizing, ai_white, lo) == best_below(
            b,
            depth,
            maximizing,
            ai_white,
            hi,
        ),
    decreases hi,
{
    reveal(minimax_value);
    reveal(best_below);
    if lo < hi {
        lemma_best_gap(b, depth, maximizing, ai_white, lo, (hi - 1) as nat);
        assert(!legal(b, side_to_move(maximizing, ai_white), (hi - 1) / 64, (hi - 1) % 64));
    }
}

/// What a move is worth at a node of the search: the minimax value of the
/// position it leads to, one ply less deep, with the other player to move.
pub open spec fn child_value(
    b: Seq<Piece>,
    depth: nat,
    maximizing: bool,
    ai_white: bool,
    from: int,
    to: int,
) -> int {
    minimax_value(moved(b, from, to), (depth - 1) as nat, !maximizing, ai_white)
}

/// Whether `v` is the best of the values of the legal moves that come before
/// place `n`: one of them is worth `v`, and none is worth more to the player
/// at the node.
pub open spec fn is_best_value(
    b: Seq<Piece>,
    depth: nat,
    maximizing: bool,
    ai_white: bool,
    n: int,
    v: int,
) -> bool {
    &&& forall|f: int, t: int| #[trigger]
        legal(b, side_to_move(maximizing, ai_white), f, t) && f * 64 + t < n ==> if maximizing {
            child_value(b, depth, maximizing, ai_white, f, t) <= v
        } else {
            child_value(b, depth, maximizing, ai_white, f, t) >= v
        }
    &&& exists|f: int, t: int| #[trigger]
        legal(b, side_to_move(maximizing, ai_white), f, t) && f * 64 + t < n && child_value(
            b,
            depth,
            maximizing,
            ai_white,
            f,
            t,
        ) == v
}

/// Where a legal move comes before place `n`, the best value below `n` is
/// the greatest of the values of those moves at a maximizing node, and the
/// least at a minimizing node.
pub proof fn lemma_best_is_extreme(
    b: Seq<Piece>,
    depth: nat,
    maximizing: bool,
    ai_white: bool,
    n: nat,
)
    requires
        depth > 0,
        exists|f: int, t: int| #[trigger]
            legal(b, side_to_move(maximizing, ai_white), f, t) && f * 64 + t < n,
    ensures
        is_best_value(
            b,
            depth,
            maximizing,
            ai_white,
            n as int,
            best_below(b, depth, maximizing, ai_white, n),
        ),
    decreases n,
{
    reveal(minimax_value);
    reveal(best_below);
    let white = side_to_move(maximizing, ai_white);
    let (f0, t0) = choose|f: int, t: int| #[trigger] legal(b, white, f, t) && f * 64 + t < n;
    let m = n - 1;
    let rest = best_below(b, depth, maximizing, ai_white, m as nat);
    let now = best_below(b, depth, maximizing, ai_white, n);
    let here = child_value(b, depth, maximizing, ai_white, m / 64, m % 64);
    lemma_best_range(b, depth, maximizing, ai_white, m as nat);
    lemma_value_range(moved(b, m / 64, m % 64), (depth - 1) as nat, !maximizing, ai_white);
    let earlier = exists|f: int, t: int| #[trigger] legal(b, white, f, t) && f * 64 + t < m;
    if earlier {
        lemma_best_is_extreme(b, depth, maximizing, ai_white, m as nat);
        let (f1, t1) = choose|f: int, t: int| #[trigger]
            legal(b, white, f, t) && f * 64 + t < m && child_value(
                b,
                depth,
                maximizing,
                ai_white,
                f,
                t,
            ) == rest;
        if now == rest {
            assert(legal(b, white, f1, t1) && f1 * 64 + t1 < n && child_value(
                b,
                depth,
                maximizing,
                ai_white,
                f1,
                t1,
            ) == now);
        }
    } else {
        assert(f0 * 64 + t0 == m);
        lemma_best_gap(b, depth, maximizing, ai_white, 0, m as nat);
    }
    if legal(b, white, m / 64, m % 64) && now == here {
        assert(legal(b, white, m / 64, m % 64) && (m / 64) * 64 + m % 64 < n && child_value(
            b,
            depth,
            maximizing,
            ai_white,
            m / 64,
            m % 64,
        ) == now);
    }
    assert forall|f: int, t: int| #[trigger] legal(b, white, f, t) && f * 64 + t
        < n implies if maximizing {
        child_value(b, depth, maximizing, ai_white, f, t) <= now
    } else {
        child_value(b, depth, maximizing, ai_white, f, t) >= now
    } by {
        if f * 64 + t == m {
            assert(f == m / 64 && t == m % 64);
        } else {
            assert(legal(b, white, f, t) && f * 64 + t < m);
            assert(earlier);
            assert(is_best_value(b, depth, maximizing, ai_white, m, rest));
        }
    }
}

/// At a node where the player to move has a legal move, the minimax value is
/// the best of the values of the legal moves: the greatest where the player
/// maximizes, the least where it minimizes.
pub proof fn lemma_value_is_best_of_moves(
    b: Seq<Piece>,
    depth: nat,
    maximizing: bool,
    ai_white: bool,
)
    requires
        depth > 0,
        has_legal_move(b, side_to_move(maximizing, ai_white)),
    ensures
        is_best_value(
            b,
            depth,
            maximizing,
            ai_white,
            4096,
            minimax_value(b, depth, maximizing, ai_white),
        ),
{
    let white = side_to_move(maximizing, ai_white);
    let (f, t) = choose|f: int, t: int| #[trigger] legal(b, white, f, t);
    assert(legal(b, white, f, t) && f * 64 + t < 4096);
    lemma_value_cases(b, depth, maximizing, ai_white);
    lemma_best_is_extreme(b, depth, maximizing, ai_white, 4096);
}

/// In a list of the legal moves, no legal move has its place between two
/// neighbors, before the first or after the last.
pub proof fn lemma_between_listed(v: Seq<(Loc, Loc)>, b: Seq<Piece>, white: bool, i: int)
    requires
        lists_legal_moves(v, b, white),
        0 <= i <= v.len(),
    ensures
        forall|n: int|
            (if i == 0 {
                0
            } else {
                move_rank(v[i - 1]) + 1
            }) <= n < (if i < v.len() {
                move_rank(v[i])
            } else {
                4096
            }) ==> !#[trigger] legal(b, white, n / 64, n % 64),
{
    assert forall|n: int|
        (if i == 0 {
            0
        } else {
            move_rank(v[i - 1]) + 1
        }) <= n < (if i < v.len() {
            move_rank(v[i])
        } else {
            4096
        }) implies !#[trigger] legal(b, white, n / 64, n % 64) by {
        if legal(b, white, n / 64, n % 64) {
            assert(listed(v, n / 64, n % 64));
            let k = choose|k: int|
                0 <= k < v.len() && (#[trigger] v[k]).0@ == n / 64 && v[k].1@ == n % 64;
            assert(move_rank(v[k]) == n);
            if k < i {
                if k < i - 1 {
                    assert(move_rank(v[k]) < move_rank(v[i - 1]));
                }
            } else {
                if k > i {
                    assert(move_rank(v[i]) < move_rank(v[k]));
                }
            }
        }
    }
}

/// The position after a legal move is one that the search accepts, with the
/// other color to move.
pub proof fn lemma_child_ready(b: Seq<Piece>, white: bool, from: int, to: int)
    requires
        ready(b, white),
        legal(b, white, from, to),
    ensures
        ready(moved(b, from, to), !white),
{
    lemma_own_move_keeps_king(b, white, from, to);
    lemma_unchecked_king_is_not_taken(b, white, from, to);
    lemma_move_keeps_other_king(b, white, from, to);
}

/// The place in the order of moves up to which a run through the list `v`
/// has come when it stands before entry `i`.
pub open spec fn reached(v: Seq<(Loc, Loc)>, i: int) -> nat {
    if i < v.len() {
        move_rank(v[i]) as nat
    } else {
        4096
    }
}

/// Taking the move at entry `i` of a list of the legal moves into account
/// gives the best value up to the next entry.
proof fn lemma_best_step(
    v: Seq<(Loc, Loc)>,
    b: Seq<Piece>,
    depth: nat,
    maximizing: bool,
    ai_white: bool,
    i: int,
)
    requires
        lists_legal_moves(v, b, side_to_move(maximizing, ai_white)),
        0 <= i < v.len(),
        depth > 0,
    ensures
        ({
            let before = best_below(b, depth, maximizing, ai_white, reached(v, i));
            let after = best_below(b, depth, maximizing, ai_white, reached(v, i + 1));
            let child = minimax_value(
                moved(b, v[i].0@, v[i].1@),
                (depth - 1) as nat,
                !maximizing,
                ai_white,
            );
            &&& maximizing ==> after == if child > before {
                child
            } else {
                before
            }
            &&& !maximizing ==> after == if child < before {
                child
            } else {
                before
            }
        }),
        i == 0 ==> best_below(b, depth, maximizing, ai_white, reached(v, 0)) == worst(maximizing),
{
    reveal(minimax_value);
    reveal(best_below);
    let white = side_to_move(maximizing, ai_white);
    let n = move_rank(v[i]);
    assert(legal(b, white, v[i].0@, v[i].1@));
    assert(n / 64 == v[i].0@ && n % 64 == v[i].1@);
    lemma_between_listed(v, b, white, i + 1);
    lemma_best_gap(b, depth, maximizing, ai_white, (n + 1) as nat, reached(v, i + 1));
    if i == 0 {
        lemma_between_listed(v, b, white, 0);
        lemma_best_gap(b, depth, maximizing, ai_white, 0, reached(v, 0));
    }
}

/// One step of a maximizing node. The node's window is `alpha` to `beta`, the
/// value so far is `value` and stands for `before`, the exact best so far. A
/// child searched with the window now open gave `r` for its exact value
/// `below`. Then the greater of `value` and `r` stands in the same way for
/// `after`, the greater of `before` and `below`.
proof fn lemma_window_up(
    alpha: int,
    beta: int,
    value: int,
    before: int,
    below: int,
    r: int,
    after: int,
)
    requires
        alpha < beta,
        value < beta,
        value <= alpha ==> before <= value,
        value > alpha ==> before == value,
        agrees(
            r,
            below,
            if value > alpha {
                value
            } else {
                alpha
            },
            beta,
        ),
        after == if below > before {
            below
        } else {
            before
        },
    ensures
        agrees(
            if r > value {
                r
            } else {
                value
            },
            after,
            alpha,
            beta,
        ),
{
}

/// One step of a minimizing node, the mirror image of the maximizing step.
proof fn lemma_window_down(
    alpha: int,
    beta: int,
    value: int,
    before: int,
    below: int,
    r: int,
    after: int,
)
    requires
        alpha < beta,
        value > alpha,
        value >= beta ==> before >= value,
        value < beta ==> before == value,
        agrees(
            r,
            below,
            alpha,
            if value < beta {
                value
            } else {
                beta
            },
        ),
        after == if below < before {
            below
        } else {
            before
        },
    ensures
        agrees(
            if r < value {
                r
            } else {
                value
            },
            after,
            alpha,
            beta,
        ),
{
}

/// The value of a position by a search of the given depth, within the window
/// from `alpha` to `beta`. The searching color is `ai_white`; it moves where
/// `maximizing_player` holds, its opponent where not. Siblings are left out
/// as soon as the window has closed. A player to move who is checkmated gets
/// the worst value and a stalemate is worth 0, whatever the window. With the
/// widest window the result is the minimax value itself: where the player
/// has a legal move, the best of the values of its legal moves.
pub fn minimax(
    start: &Board,
    depth: usize,
    alpha: i32,
    beta: i32,
    maximizing_player: bool,
    ai_white: bool,
) -> (r: i32)
    requires
        searchable(start@, depth as nat, side_to_move(maximizing_player, ai_white)),
    ensures
        depth == 0 ==> r == score(start@, ai_white),
        depth > 0 && stale_mate(start@, side_to_move(maximizing_player, ai_white)) ==> r == 0,
        depth > 0 && check_mate(start@, side_to_move(maximizing_player, ai_white)) ==> r
            == worst(maximizing_player),
        alpha < beta ==> agrees(
            r as int,
            minimax_value(start@, depth as nat, maximizing_player, ai_white),
            alpha as int,
            beta as int,
        ),
        alpha == i32::MIN && beta == i32::MAX ==> r == minimax_value(
            start@,
            depth as nat,
            maximizing_player,
            ai_white,
        ),
        alpha == i32::MIN && beta == i32::MAX && depth > 0 && has_legal_move(
            start@,
            side_to_move(maximizing_player, ai_white),
        ) ==> is_best_value(start@, depth as nat, maximizing_player, ai_white, 4096, r as int),
    decreases depth,
{
    proof {
        lemma_value_cases(start@, depth as nat, maximizing_player, ai_white);
        lemma_value_range(start@, depth as nat, maximizing_player, ai_white);
        if depth > 0 && has_legal_move(start@, side_to_move(maximizing_player, ai_white)) {
            lemma_value_is_best_of_moves(start@, depth as nat, maximizing_player, ai_white);
        }
    }
    if depth == 0 {
        return score_board(start, ai_white);
    }
    let white = !ai_white ^ maximizing_player;
    let ghost b = start@;
    let ghost d = depth as nat;
    let moves = start.legal_moves(white);
    proof {
        if moves.len() > 0 {
            assert(legal(b, white, moves[0].0@, moves[0].1@));
        }
        if has_legal_move(b, white) {
            let (f, t) = choose|f: int, t: int| #[trigger] legal(b, white, f, t);
            assert(listed(moves@, f, t));
        }
    }
    if moves.len() == 0 {
        return if start.is_check(white) {
            if maximizing_player {
                i32::MIN
            } else {
                i32::MAX
            }
        } else {
            0
        };
    }
    let mut lo = alpha;
    let mut hi = beta;
    let mut i: usize = 0;
    if maximizing_player {
        let mut value = i32::MIN;
        proof {
            lemma_best_step(moves@, b, d, true, ai_white, 0);
        }
        while i < moves.len()
            invariant
                i <= moves.len(),
                depth > 0,
                d == depth,
                b == start@,
                maximizing_player,
                white == side_to_move(true, ai_white),
                searchable(b, d, white),
                has_legal_move(b, white),
                lists_legal_moves(moves@, b, white),
                minimax_value(b, d, true, ai_white) == best_below(b, d, true, ai_white, 4096),
                is_best_value(b, d, true, ai_white, 4096, minimax_value(b, d, true, ai_white)),
                i32::MIN <= best_below(b, d, true, ai_white, 4096) <= i32::MAX,
                hi == beta,
                alpha < beta ==> lo < beta,
                alpha < beta ==> lo as int == if value > alpha {
                    value as int
                } else {
                    alpha as int
                },
                alpha < beta && value <= alpha ==> best_below(
                    b,
                    d,
                    true,
                    ai_white,
                    reached(moves@, i as int),
                ) <= value,
                alpha < beta && value > alpha ==> best_below(
                    b,
                    d,
                    true,
                    ai_white,
                    reached(moves@, i as int),
                ) == value,
            decreases moves.len() - i,
        {
            let (from, to) = moves[i];
            let ghost before = best_below(b, d, true, ai_white, reached(moves@, i as int));
            let ghost after = best_below(b, d, true, ai_white, reached(moves@, i + 1));
            let ghost below = minimax_value(moved(b, from@, to@), (d - 1) as nat, false, ai_white);
            proof {
                lemma_child_searchable(b, d, white, from@, to@);
                lemma_best_step(moves@, b, d, true, ai_white, i as int);
                lemma_best_monotone(b, d, true, ai_white, reached(moves@, i + 1), 4096);
            }
            let child = start.move_(from, to);
            let r = minimax(&child, depth - 1, lo, hi, false, ai_white);
            proof {
                if alpha < beta {
                    lemma_window_up(
                        alpha as int,
                        beta as int,
                        value as int,
                        before,
                        below,
                        r as int,
                        after,
                    );
                }
            }
            if r > value {
                value = r;
            }
            if value > lo {
                lo = value;
            }
            if lo >= hi {
                return value;
            }
            i += 1;
        }
        value
    } else {
        let mut value = i32::MAX;
        proof {
            lemma_best_step(moves@, b, d, false, ai_white, 0);
        }
        while i < moves.len()
            invariant
                i <= moves.len(),
                depth > 0,
                d == depth,
                b == start@,
                !maximizing_player,
                white == side_to_move(false, ai_white),
                searchable(b, d, white),
                has_legal_move(b, white),
                lists_legal_moves(moves@, b, white),
                minimax_value(b, d, false, ai_white) == best_below(b, d, false, ai_white, 4096),
                is_best_value(b, d, false, ai_white, 4096, minimax_value(b, d, false, ai_white)),
                i32::MIN <= best_below(b, d, false, ai_white, 4096) <= i32::MAX,
                lo == alpha,
                alpha < beta ==> alpha < hi,
                alpha < beta ==> hi as int == if value < beta {
                    value as int
                } else {
                    beta as int
                },
                alpha < beta && value >= beta ==> best_below(
                    b,
                    d,
                    false,
                    ai_white,
                    reached(moves@, i as int),
                ) >= value,
                alpha < beta && value < beta ==> best_below(
                    b,
                    d,
                    false,
                    ai_white,
                    reached(moves@, i as int),
                ) == value,
            decreases moves.len() - i,
        {
            let (from, to) = moves[i];
            let ghost before = best_below(b, d, false, ai_white, reached(moves@, i as int));
            let ghost after = best_below(b, d, false, ai_white, reached(moves@, i + 1));
            let ghost below = minimax_value(moved(b, from@, to@), (d - 1) as nat, true, ai_white);
            proof {
                lemma_child_searchable(b, d, white, from@, to@);
                lemma_best_step(moves@, b, d, false, ai_white, i as int);
                lemma_best_monotone(b, d, false, ai_white, reached(moves@, i + 1), 4096);
            }
            let child = start.move_(from, to);
            let r = minimax(&child, depth - 1, lo, hi, true, ai_white);
            proof {
                if alpha < beta {
                    lemma_window_down(
                        alpha as int,
                        beta as int,
                        value as int,
                        before,
                        below,
                        r as int,
                        after,
                    );
                }
            }
            if r < value {
                value = r;
            }
            if value < hi {
                hi = value;
            }
            if lo >= hi {
                return value;
            }
            i += 1;
        }
        value
    }
}

/// What a move is worth to the color that makes it: the minimax value of the
/// position it leads to, searched `depth` plies further with the opponent to
/// move. At depth 0 this is the static evaluation after the move.
pub open spec fn move_value(b: Seq<Piece>, white: bool, from: int, to: int, depth: nat) -> int {
    minimax_value(moved(b, from, to), depth, false, white)
}

/// The move is legal and no legal move is worth more.
pub open spec fn is_best(b: Seq<Piece>, white: bool, from: int, to: int, depth: nat) -> bool {
    &&& legal(b, white, from, to)
    &&& forall|f: int, t: int| #[trigger]
        legal(b, white, f, t) ==> move_value(b, white, f, t, depth) <= move_value(
            b,
            white,
            from,
            to,
            depth,
        )
}

/// Whether `v` holds, in ascending order and each once, exactly the best
/// moves of the given color.
pub open spec fn lists_best_moves(v: Seq<(Loc, Loc)>, b: Seq<Piece>, white: bool, depth: nat) -> bool {
    &&& forall|n: int|
        0 <= n < v.len() ==> (#[trigger] v[n]).0.wf() && v[n].1.wf() && is_best(
            b,
            white,
            v[n].0@,
            v[n].1@,
            depth,
        )
    &&& forall|n: int, m: int|
        0 <= n < m < v.len() ==> move_rank(#[trigger] v[n]) < move_rank(#[trigger] v[m])
    &&& forall|from: int, to: int| #[trigger]
        is_best(b, white, from, to, depth) ==> listed(v, from, to)
}

/// Whether the list holds the move.
spec fn among(v: Seq<(Loc, Loc)>, m: (Loc, Loc)) -> bool {
    exists|n: int| 0 <= n < v.len() && #[trigger] v[n] == m
}

/// Whether the move is one of the first `j` entries and has the top score.
spec fn scored(moves: Seq<(Loc, Loc)>, scores: Seq<i32>, max: i32, j: int, m: (Loc, Loc)) -> bool {
    exists|k: int| 0 <= k < j && #[trigger] moves[k] == m && scores[k] == max
}

/// The legal moves of the given color that are worth most, when each is
/// valued by a search of `depth` plies from the position it leads to. There
/// is at least one wherever there is a legal move.
pub fn best_moves(start: &Board, white: bool, depth: usize) -> (r: Vec<(Loc, Loc)>)
    requires
        searchable(start@, depth as nat + 1, white),
    ensures
        lists_best_moves(r@, start@, white, depth as nat),
        has_legal_move(start@, white) ==> r.len() > 0,
{
    let ghost b = start@;
    let ghost d = depth as nat;
    let moves = start.legal_moves(white);
    let mut scores: Vec<i32> = Vec::new();
    let mut max = i32::MIN;
    let ghost mut at: int = 0;
    let mut i: usize = 0;
    while i < moves.len()
        invariant
            i <= moves.len(),
            scores.len() == i,
            b == start@,
            d == depth,
            searchable(b, d + 1, white),
            lists_legal_moves(moves@, b, white),
            forall|n: int|
                0 <= n < i ==> #[trigger] scores[n] == move_value(
                    b,
                    white,
                    moves[n].0@,
                    moves[n].1@,
                    d,
                ),
            forall|n: int| 0 <= n < i ==> #[trigger] scores[n] <= max,
            i == 0 ==> max == i32::MIN,
            i > 0 ==> 0 <= at < i && scores[at] == max,
        decreases moves.len() - i,
    {
        let (from, to) = moves[i];
        proof {
            lemma_child_searchable(b, d + 1, white, from@, to@);
            lemma_value_range(moved(b, from@, to@), d, false, white);
        }
        let child = start.move_(from, to);
        let value = minimax(&child, depth, i32::MIN, i32::MAX, false, white);
        scores.push(value);
        proof {
            if value >= max {
                at = i as int;
            }
        }
        if value > max {
            max = value;
        }
        assert(scores[i as int] == value);
        i += 1;
    }
    let mut out: Vec<(Loc, Loc)> = Vec::new();
    let mut j: usize = 0;
    while j < moves.len()
        invariant
            j <= moves.len(),
            scores.len() == moves.len(),
            forall|n: int| 0 <= n < out.len() ==> scored(moves@, scores@, max, j as int, #[trigger] out[n]),
            forall|n: int, m: int|
                0 <= n < m < out.len() ==> move_rank(#[trigger] out[n]) < move_rank(
                    #[trigger] out[m],
                ),
            forall|n: int|
                0 <= n < out.len() && j < moves.len() ==> move_rank(#[trigger] out[n])
                    < move_rank(moves[j as int]),
            forall|k: int|
                0 <= k < j && scores[k] == max ==> among(out@, #[trigger] moves[k]),
            lists_legal_moves(moves@, b, white),
        decreases moves.len() - j,
    {
        let ghost before = out@;
        if scores[j] == max {
            out.push(moves[j]);
            proof {
                assert(out[before.len() as int] == moves[j as int]);
                assert forall|n: int| 0 <= n < out.len() implies scored(
                    moves@,
                    scores@,
                    max,
                    j + 1,
                    #[trigger] out[n],
                ) by {
                    if n < before.len() {
                        assert(scored(moves@, scores@, max, j as int, before[n]));
                        let k = choose|k: int|
                            0 <= k < j && #[trigger] moves[k] == before[n] && scores[k] == max;
                        assert(moves[k] == out[n]);
                    } else {
                        assert(moves[j as int] == out[n]);
                    }
                }
            }
        }
        proof {
            assert forall|k: int| 0 <= k < j + 1 && scores[k] == max implies among(
                out@,
                #[trigger] moves[k],
            ) by {
                if k < j {
                    assert(among(before, moves[k]));
                    let n = choose|n: int| 0 <= n < before.len() && #[trigger] before[n] == moves[k];
                    assert(out[n] == moves[k]);
                } else {
                    assert(out[before.len() as int] == moves[k]);
                }
            }
            if j + 1 < moves.len() {
                assert(move_rank(moves[j as int]) < move_rank(moves[j + 1]));
            }
        }
        j += 1;
    }
    proof {
        assert forall|f: int, t: int| #[trigger] legal(b, white, f, t) implies move_value(
            b,
            white,
            f,
            t,
            d,
        ) <= max by {
            assert(listed(moves@, f, t));
            let k = choose|k: int|
                0 <= k < moves.len() && (#[trigger] moves[k]).0@ == f && moves[k].1@ == t;
            assert(scores[k] <= max);
        }
        assert forall|n: int| 0 <= n < out.len() implies (#[trigger] out[n]).0.wf()
            && out[n].1.wf() && is_best(b, white, out[n].0@, out[n].1@, d) by {
            assert(scored(moves@, scores@, max, moves.len() as int, out[n]));
            let k = choose|k: int|
                0 <= k < moves.len() && #[trigger] moves[k] == out[n] && scores[k] == max;
            assert(legal(b, white, moves[k].0@, moves[k].1@));
        }
        assert forall|f: int, t: int| #[trigger] is_best(b, white, f, t, d) implies listed(
            out@,
            f,
            t,
        ) by {
            assert(listed(moves@, f, t));
            let k = choose|k: int|
                0 <= k < moves.len() && (#[trigger] moves[k]).0@ == f && moves[k].1@ == t;
            let top = choose|n: int| 0 <= n < moves.len() && #[trigger] scores[n] == max;
            assert(legal(b, white, moves[top].0@, moves[top].1@));
            assert(scores[k] == max);
            assert(among(out@, moves[k]));
            let n = choose|n: int| 0 <= n < out.len() && #[trigger] out[n] == moves[k];
            assert(out[n].0@ == f && out[n].1@ == t);
        }
        if has_legal_move(b, white) {
            let (f, t) = choose|f: int, t: int| #[trigger] legal(b, white, f, t);
            assert(listed(moves@, f, t));
            let top = choose|n: int| 0 <= n < moves.len() && #[trigger] scores[n] == max;
            assert(among(out@, moves[top]));
        }
    }
    out
}

/// Draws one of the numbers below `count`, each with the same chance, by
/// `rand::seq::IteratorRandom::choose` on the range from 0 to `count` with
/// the thread's generator. That function gives `None` exactly for an empty
/// range, and otherwise an item of the range; which one is not known.
#[verifier::external_body]
fn choose_index(count: usize) -> (r: Option<usize>)
    ensures
        r is None <==> count == 0,
        r is Some ==> r.unwrap() < count,
{
    (0..count).choose(&mut rand::thread_rng())
}

/// One of the entries of a list that is not empty, drawn at random.
fn choose_from(moves: &Vec<(Loc, Loc)>) -> (r: (Loc, Loc))
    requires
        moves.len() > 0,
    ensures
        exists|n: int| 0 <= n < moves.len() && #[trigger] moves[n] == r,
{
    match choose_index(moves.len()) {
        Some(n) => moves[n],
        None => unreached(),
    }
}

/// A move for the given color, found by a search of `SEARCH_DEPTH` plies
/// behind each of its legal moves: one of the moves that are worth most,
/// drawn at random among them. The move never leaves the mover's own king in
/// check.
pub fn choose_minimax(start: &Board, white: bool) -> (r: (Loc, Loc))
    requires
        ready(start@, white),
        has_legal_move(start@, white),
    ensures
        r.0.wf(),
        r.1.wf(),
        is_best(start@, white, r.0@, r.1@, SEARCH_DEPTH as nat),
        !in_check(moved(start@, r.0@, r.1@), white),
{
    let best = best_moves(start, white, SEARCH_DEPTH);
    choose_from(&best)
}

/// A move for the given color, found without looking ahead: one of the
/// legal moves after which the static evaluation is greatest, drawn at random
/// among them.
pub fn choose_best(start: &Board, white: bool) -> (r: (Loc, Loc))
    requires
        has_one_king(start@, white),
        has_legal_move(start@, white),
    ensures
        r.0.wf(),
        r.1.wf(),
        legal(start@, white, r.0@, r.1@),
        forall|f: int, t: int| #[trigger]
            legal(start@, white, f, t) ==> score(moved(start@, f, t), white) <= score(
                moved(start@, r.0@, r.1@),
                white,
            ),
{
    let best = best_moves(start, white, 0);
    let r = choose_from(&best);
    proof {
        assert(is_best(start@, white, r.0@, r.1@, 0));
        assert forall|f: int, t: int| #[trigger] legal(start@, white, f, t) implies score(
            moved(start@, f, t),
            white,
        ) <= score(moved(start@, r.0@, r.1@), white) by {
            lemma_value_cases(moved(start@, f, t), 0, false, white);
            lemma_value_cases(moved(start@, r.0@, r.1@), 0, false, white);
            assert(move_value(start@, white, f, t, 0) <= move_value(start@, white, r.0@, r.1@, 0));
        }
    }
    r
}

/// A legal move for the given color, drawn at random among all of them.
pub fn choose_random(board: &Board, white: bool) -> (r: (Loc, Loc))
    requires
        has_one_king(board@, white),
        has_legal_move(board@, white),
    ensures
        r.0.wf(),
        r.1.wf(),
        legal(board@, white, r.0@, r.1@),
{
    let moves = board.legal_moves(white);
    proof {
        let (f, t) = choose|f: int, t: int| #[trigger] legal(board@, white, f, t);
        assert(listed(moves@, f, t));
    }
    choose_from(&moves)
}

} // verus!

//! The game session: whose turn it is, what is selected, and how a click or
//! a finished search changes that. The session draws nothing and schedules
//! nothing itself: each command says what its caller has to do next.

use crate::ai::{choose_minimax, is_best, lemma_child_ready, ready, SEARCH_DEPTH};
use crate::board::{lemma_opening_is_playable, opening_piece, Board};
use crate::loc::{ascending, contains, holds, on_board, square, Loc};
use crate::piece::{lemma_plain_pieces, Piece};
use crate::rules::{
    check_mate, has_legal_move, in_check, legal, lemma_own_move_keeps_king, moved, owns, reaches,
    stale_mate,
};
use vstd::prelude::*;

verus! {

/// What the caller of a command has to do once the command has returned.
#[derive(Clone, Copy, PartialEq, Eq, Structural, Debug)]
pub enum Effect {
    /// The session is as it was.
    Nothing,
    /// The session has changed and is to be drawn again.
    Render,
    /// The session is to be drawn again, and `do_ai_move` is to be called
    /// once, later.
    RenderAndSchedule,
}

/// The stage that a session is in.
#[derive(Debug)]
pub enum State {
    /// No game has been started.
    Setup,
    /// A player is to pick a piece.
    Playing,
    /// A player has picked the piece on `selected_loc`. It may move to any
    /// of `available_moves`; the moves to `check_moves` would leave the
    /// player's own king in check and are shown only.
    Selected { selected_loc: Loc, available_moves: Vec<Loc>, check_moves: Vec<Loc> },
    /// The game is over; the color given has won.
    Checkmate(bool),
    /// The game is a draw; the color given made the last move.
    Stalemate(bool),
    /// A search for the next move is awaited.
    AiMove,
}

/// A game between two players, each a person or the search.
pub struct Interface {
    pub state: State,
    pub board: Board,
    pub white_turn: bool,
    pub prev_move: Option<(Loc, Loc)>,
    pub white_ai: bool,
    pub black_ai: bool,
}

/// What is written under the board.
#[derive(Clone, Copy, PartialEq, Eq, Structural, Debug)]
pub enum Message {
    /// Nothing.
    Silent,
    /// A king is in check.
    Check,
    /// The color given has won.
    Checkmate(bool),
    /// The game is a draw.
    Stalemate,
    /// The search is at work.
    Thinking,
}

/// How a selection marks a square.
#[derive(Clone, Copy, PartialEq, Eq, Structural, Debug)]
pub enum Mark {
    /// Not at all.
    Plain,
    /// The square of the selected piece.
    Selected,
    /// A square that the selected piece may move to.
    Available,
    /// A square that the selected piece reaches only by leaving its own king
    /// in check.
    Exposed,
}

/// How one square is to be drawn.
#[derive(Clone, Copy, PartialEq, Eq, Structural, Debug)]
pub struct Cell {
    /// What stands on the square.
    pub piece: Piece,
    /// Whether the last move left or reached the square.
    pub last_move: bool,
    /// What the selection makes of the square.
    pub mark: Mark,
    /// Whether a king in check stands on the square.
    pub check: bool,
}

/// How the selection of a session marks the square `t`: the selected
/// square first, then the legal destinations, then the other destinations.
pub open spec fn mark_of(state: State, t: int) -> Mark {
    match state {
        State::Selected { selected_loc, available_moves, check_moves } => if selected_loc@ == t {
            Mark::Selected
        } else if holds(available_moves@, t) {
            Mark::Available
        } else if holds(check_moves@, t) {
            Mark::Exposed
        } else {
            Mark::Plain
        },
        _ => Mark::Plain,
    }
}

/// What is written under the board of a session: the end of the game, or
/// that the search is at work, or else whether a king is in check.
pub open spec fn message_of(state: State, b: Seq<Piece>) -> Message {
    match state {
        State::Checkmate(winner) => Message::Checkmate(winner),
        State::Stalemate(_) => Message::Stalemate,
        State::AiMove => Message::Thinking,
        State::Setup => Message::Silent,
        _ => if in_check(b, true) || in_check(b, false) {
            Message::Check
        } else {
            Message::Silent
        },
    }
}

/// A position in which the given color can and may move: both kings stand,
/// the other color is not in check, and there is a legal move.
pub open spec fn playable(b: Seq<Piece>, white: bool) -> bool {
    ready(b, white) && has_legal_move(b, white)
}

/// A move of the given color that would leave its own king in check.
pub open spec fn exposes(b: Seq<Piece>, white: bool, from: int, to: int) -> bool {
    owns(b, white, from) && reaches(b, from, to) && in_check(moved(b, from, to), white)
}

/// Whether the two lists are what a selection of the piece on `sel` shows:
/// its legal moves in `safe` and its other moves in `exposed`, each list in
/// ascending order.
pub open spec fn is_selection(
    b: Seq<Piece>,
    white: bool,
    sel: Loc,
    safe: Seq<Loc>,
    exposed: Seq<Loc>,
) -> bool {
    &&& sel.wf()
    &&& owns(b, white, sel@)
    &&& ascending(safe)
    &&& ascending(exposed)
    &&& forall|t: int| holds(safe, t) <==> legal(b, white, sel@, t)
    &&& forall|t: int| holds(exposed, t) <==> exposes(b, white, sel@, t)
}

/// Whether the first `j` entries of the list name the square `t`.
pub open spec fn holds_first(v: Seq<Loc>, j: int, t: int) -> bool {
    exists|n: int| 0 <= n < j && (#[trigger] v[n])@ == t
}

/// Whether the color that is to move is played by the search.
pub open spec fn ai_to_move(white_turn: bool, white_ai: bool, black_ai: bool) -> bool {
    (white_turn && white_ai) || (!white_turn && black_ai)
}

/// How a session stands once the color `mover` has made a move: a mate or
/// a stalemate of the other color ends the game with the turn left where it
/// was; otherwise the turn passes, to the search or to a person.
pub open spec fn settled(post: Interface, mover: bool) -> bool {
    let b = post.board@;
    if check_mate(b, !mover) {
        post.state == State::Checkmate(mover) && post.white_turn == mover
    } else if stale_mate(b, !mover) {
        post.state == State::Stalemate(mover) && post.white_turn == mover
    } else {
        post.white_turn == !mover && post.state == if ai_to_move(
            !mover,
            post.white_ai,
            post.black_ai,
        ) {
            State::AiMove
        } else {
            State::Playing
        }
    }
}

/// Whether `post` is the session `pre` after the move from `from` to `to`.
pub open spec fn follows_move(pre: Interface, post: Interface, from: int, to: int) -> bool {
    &&& post.board@ == moved(pre.board@, from, to)
    &&& post.prev_move == Some((Loc(from as i32), Loc(to as i32)))
    &&& post.white_ai == pre.white_ai
    &&& post.black_ai == pre.black_ai
    &&& settled(post, pre.white_turn)
}

/// Whether the two sessions differ in their stage at most.
pub open spec fn same_position(pre: Interface, post: Interface) -> bool {
    &&& post.board == pre.board
    &&& post.white_turn == pre.white_turn
    &&& post.prev_move == pre.prev_move
    &&& post.white_ai == pre.white_ai
    &&& post.black_ai == pre.black_ai
}

/// What a command that has changed the session asks of its caller.
pub open spec fn effect_of(post: Interface) -> Effect {
    if post.state is AiMove {
        Effect::RenderAndSchedule
    } else {
        Effect::Render
    }
}

/// Whether `post` and `e` are what a click on file `x`, rank `y` makes of
/// the session `pre`. While a piece is to be picked, a click on a piece of
/// the color to move selects it, and any other click is ignored. While a
/// piece is selected, a click on one of its legal destinations makes the
/// move, and any other click takes the selection back. At every other stage
/// a click is ignored.
pub open spec fn after_click(pre: Interface, post: Interface, x: int, y: int, e: Effect) -> bool {
    match pre.state {
        State::Playing => if on_board(x, y) && owns(pre.board@, pre.white_turn, square(x, y)) {
            &&& same_position(pre, post)
            &&& e == Effect::Render
            &&& post.state matches State::Selected { selected_loc, available_moves, check_moves }
            &&& selected_loc@ == square(x, y)
            &&& is_selection(
                pre.board@,
                pre.white_turn,
                selected_loc,
                available_moves@,
                check_moves@,
            )
        } else {
            post == pre && e == Effect::Nothing
        },
        State::Selected { selected_loc, available_moves, check_moves } => if on_board(x, y)
            && holds(available_moves@, square(x, y)) {
            follows_move(pre, post, selected_loc@, square(x, y)) && e == effect_of(post)
        } else {
            same_position(pre, post) && post.state == State::Playing && e == Effect::Render
        },
        _ => post == pre && e == Effect::Nothing,
    }
}

impl Interface {
    /// What every session satisfies: before any game the board is empty;
    /// while a game is on, the color to move can move, and a selection shows
    /// the moves of the selected piece; a game that is over stands at the
    /// mate or the stalemate that ended it.
    pub open spec fn wf(&self) -> bool {
        match self.state {
            State::Setup => forall|i: int| 0 <= i < 64 ==> #[trigger] self.board@[i] == Piece(0),
            State::Checkmate(winner) => ready(self.board@, !winner) && check_mate(
                self.board@,
                !winner,
            ),
            State::Stalemate(mover) => ready(self.board@, !mover) && stale_mate(
                self.board@,
                !mover,
            ),
            State::Playing => playable(self.board@, self.white_turn),
            State::AiMove => playable(self.board@, self.white_turn),
            State::Selected { selected_loc, available_moves, check_moves } => playable(
                self.board@,
                self.white_turn,
            ) && is_selection(
                self.board@,
                self.white_turn,
                selected_loc,
                available_moves@,
                check_moves@,
            ),
        }
    }

    /// The session before any game: an empty board.
    pub fn setup() -> (r: Interface)
        ensures
            r.wf(),
            r.state == State::Setup,
            forall|i: int| 0 <= i < 64 ==> #[trigger] r.board@[i] == Piece(0),
            r.white_turn,
            r.prev_move is None,
            !r.white_ai,
            !r.black_ai,
    {
        Interface {
            state: State::Setup,
            board: Board::empty(),
            white_turn: true,
            prev_move: None,
            white_ai: false,
            black_ai: false,
        }
    }

    /// A new game from the opening position, White to move. Where White is
    /// played by the search, the session awaits its move.
    pub fn new(white_ai: bool, black_ai: bool) -> (r: Interface)
        ensures
            r.wf(),
            r.state == if white_ai {
                State::AiMove
            } else {
                State::Playing
            },
            forall|i: int| 0 <= i < 64 ==> #[trigger] r.board@[i] == opening_piece(i),
            r.white_turn,
            r.prev_move is None,
            r.white_ai == white_ai,
            r.black_ai == black_ai,
    {
        let board = Board::fresh();
        proof {
            lemma_opening_is_playable(board@);
        }
        Interface {
            state: if white_ai {
                State::AiMove
            } else {
                State::Playing
            },
            board,
            white_turn: true,
            prev_move: None,
            white_ai,
            black_ai,
        }
    }

    /// Starts a new game from the opening position, unless a search is
    /// awaited: then the command is ignored, so that no second search is
    /// ever asked for while one is under way.
    pub fn new_game(&mut self, white_ai: bool, black_ai: bool) -> (e: Effect)
        requires
            old(self).wf(),
        ensures
            final(self).wf(),
            old(self).state is AiMove ==> *final(self) == *old(self) && e == Effect::Nothing,
            !(old(self).state is AiMove) ==> {
                &&& final(self).state == if white_ai {
                    State::AiMove
                } else {
                    State::Playing
                }
                &&& forall|i: int|
                    0 <= i < 64 ==> #[trigger] final(self).board@[i] == opening_piece(i)
                &&& final(self).white_turn
                &&& final(self).prev_move is None
                &&& final(self).white_ai == white_ai
                &&& final(self).black_ai == black_ai
                &&& e == effect_of(*final(self))
            },
    {
        if matches!(self.state, State::AiMove) {
            return Effect::Nothing;
        }
        *self = Interface::new(white_ai, black_ai);
        if white_ai {
            Effect::RenderAndSchedule
        } else {
            Effect::Render
        }
    }

    /// The stage that ends the game, if the color that has just moved has
    /// mated or stalemated the other.
    fn mate_state(&self) -> (r: Option<State>)
        requires
            ready(self.board@, !self.white_turn),
        ensures
            r == if check_mate(self.board@, !self.white_turn) {
                Some(State::Checkmate(self.white_turn))
            } else if stale_mate(self.board@, !self.white_turn) {
                Some(State::Stalemate(self.white_turn))
            } else {
                None
            },
    {
        if self.board.is_check_mate(!self.white_turn) {
            Some(State::Checkmate(self.white_turn))
        } else if self.board.is_stale_mate(!self.white_turn) {
            Some(State::Stalemate(self.white_turn))
        } else {
            None
        }
    }

    /// Ends the game or passes the turn, after a move has been made.
    fn post_move(&mut self) -> (e: Effect)
        requires
            ready(old(self).board@, !old(self).white_turn),
        ensures
            final(self).wf(),
            final(self).board == old(self).board,
            final(self).prev_move == old(self).prev_move,
            final(self).white_ai == old(self).white_ai,
            final(self).black_ai == old(self).black_ai,
            settled(*final(self), old(self).white_turn),
            e == effect_of(*final(self)),
    {
        if let Some(mate_state) = self.mate_state() {
            self.state = mate_state;
            Effect::Render
        } else {
            self.white_turn = !self.white_turn;
            if (self.white_turn && self.white_ai) || (!self.white_turn && self.black_ai) {
                self.state = State::AiMove;
                Effect::RenderAndSchedule
            } else {
                self.state = State::Playing;
                Effect::Render
            }
        }
    }

    /// Makes the move that the search chooses for the color to move: one of
    /// its best moves. Then the game ends or the turn passes.
    pub fn do_ai_move(&mut self) -> (e: Effect)
        requires
            old(self).wf(),
            old(self).state is AiMove,
        ensures
            final(self).wf(),
            exists|from: int, to: int|
                is_best(old(self).board@, old(self).white_turn, from, to, SEARCH_DEPTH as nat)
                    && #[trigger] follows_move(*old(self), *final(self), from, to),
            e == effect_of(*final(self)),
    {
        let ai_move = choose_minimax(&self.board, self.white_turn);
        proof {
            lemma_child_ready(self.board@, self.white_turn, ai_move.0@, ai_move.1@);
        }
        self.board = self.board.move_(ai_move.0, ai_move.1);
        self.prev_move = Some(ai_move);
        let e = self.post_move();
        assert(follows_move(*old(self), *self, ai_move.0@, ai_move.1@));
        e
    }

    /// The moves of the piece on `from`, in two lists: first those that
    /// would leave the mover's own king in check, then the legal ones.
    fn split_moves(board: &Board, white: bool, from: Loc, moves: &Vec<Loc>) -> (r: (
        Vec<Loc>,
        Vec<Loc>,
    ))
        requires
            ready(board@, white),
            from.wf(),
            owns(board@, white, from@),
            ascending(moves@),
            forall|t: int| holds(moves@, t) <==> reaches(board@, from@, t),
        ensures
            is_selection(board@, white, from, r.1@, r.0@),
    {
        let ghost b = board@;
        let mut safe: Vec<Loc> = Vec::new();
        let mut exposed: Vec<Loc> = Vec::new();
        let mut j: usize = 0;
        while j < moves.len()
            invariant
                j <= moves.len(),
                b == board@,
                ready(b, white),
                from.wf(),
                owns(b, white, from@),
                ascending(moves@),
                forall|t: int| holds(moves@, t) <==> reaches(b, from@, t),
                ascending(safe@),
                ascending(exposed@),
                forall|n: int| 0 <= n < safe.len() ==> holds_first(moves@, j as int, (#[trigger] safe[n])@),
                forall|n: int|
                    0 <= n < exposed.len() ==> holds_first(moves@, j as int, (#[trigger] exposed[n])@),
                forall|t: int|
                    holds(safe@, t) <==> holds_first(moves@, j as int, t) && !in_check(
                        moved(b, from@, t),
                        white,
                    ),
                forall|t: int|
                    holds(exposed@, t) <==> holds_first(moves@, j as int, t) && in_check(
                        moved(b, from@, t),
                        white,
                    ),
            decreases moves.len() - j,
        {
            let to = moves[j];
            let ghost safe0 = safe@;
            let ghost exposed0 = exposed@;
            proof {
                assert(holds(moves@, to@));
                lemma_own_move_keeps_king(b, white, from@, to@);
                assert forall|n: int| 0 <= n < safe0.len() implies (#[trigger] safe0[n])@
                    < to@ by {
                    let k = choose|k: int| 0 <= k < j && (#[trigger] moves@[k])@ == safe0[n]@;
                }
                assert forall|n: int| 0 <= n < exposed0.len() implies (#[trigger] exposed0[n])@
                    < to@ by {
                    let k = choose|k: int| 0 <= k < j && (#[trigger] moves@[k])@ == exposed0[n]@;
                }
            }
            let checked = board.move_(from, to).is_check(white);
            if checked {
                exposed.push(to);
            } else {
                safe.push(to);
            }
            proof {
                lemma_push_first(moves@, j as int, safe0, safe@, !checked);
                lemma_push_first(moves@, j as int, exposed0, exposed@, checked);
                assert forall|t: int|
                    holds(safe@, t) <==> holds_first(moves@, j + 1, t) && !in_check(
                        moved(b, from@, t),
                        white,
                    ) by {
                    assert(holds_first(moves@, j + 1, t) <==> holds_first(moves@, j as int, t) || t
                        == to@);
                }
                assert forall|t: int|
                    holds(exposed@, t) <==> holds_first(moves@, j + 1, t) && in_check(
                        moved(b, from@, t),
                        white,
                    ) by {
                    assert(holds_first(moves@, j + 1, t) <==> holds_first(moves@, j as int, t) || t
                        == to@);
                }
            }
            j += 1;
        }
        proof {
            assert forall|t: int| holds(safe@, t) <==> legal(b, white, from@, t) by {
                assert(holds_first(moves@, moves.len() as int, t) == holds(moves@, t));
            }
            assert forall|t: int| holds(exposed@, t) <==> exposes(b, white, from@, t) by {
                assert(holds_first(moves@, moves.len() as int, t) == holds(moves@, t));
            }
        }
        (exposed, safe)
    }

    /// A click on the square at file `x` and rank `y`. A click that fits
    /// the stage of the game selects a piece, takes the selection back or
    /// makes a move; every other click is ignored.
    pub fn clicked(&mut self, x: i32, y: i32) -> (e: Effect)
        requires
            old(self).wf(),
        ensures
            final(self).wf(),
            after_click(*old(self), *final(self), x as int, y as int, e),
    {
        let inside = 0 <= x && x < 8 && 0 <= y && y < 8;
        match &self.state {
            State::Playing => {
                if !inside {
                    return Effect::Nothing;
                }
                let loc = Loc(y * 8 + x);
                let piece = self.board.piece(loc);
                if piece.is_white() == self.white_turn {
                    let available_moves = self.board.moves_from(loc);
                    if let Some(available_moves) = available_moves {
                        let (check_moves, available_moves) = Self::split_moves(
                            &self.board,
                            piece.is_white(),
                            loc,
                            &available_moves,
                        );
                        self.state = State::Selected {
                            selected_loc: loc,
                            available_moves,
                            check_moves,
                        };
                        return Effect::Render;
                    }
                }
                Effect::Nothing
            },
            State::Selected { selected_loc, available_moves, check_moves } => {
                let from = *selected_loc;
                if inside && contains(available_moves, Loc(y * 8 + x)) {
                    let loc = Loc(y * 8 + x);
                    proof {
                        lemma_child_ready(self.board@, self.white_turn, from@, loc@);
                    }
                    self.board = self.board.move_(from, loc);
                    self.prev_move = Some((from, loc));
                    self.post_move()
                } else {
                    self.state = State::Playing;
                    Effect::Render
                }
            },
            State::Checkmate(_) => Effect::Nothing,
            State::Stalemate(_) => Effect::Nothing,
            State::AiMove => Effect::Nothing,
            State::Setup => Effect::Nothing,
        }
    }

    /// How the square `loc` is to be drawn.
    pub fn cell(&self, loc: Loc) -> (r: Cell)
        requires
            self.wf(),
            loc.wf(),
        ensures
            r.piece == self.board@[loc@],
            r.last_move == (self.prev_move is Some && (self.prev_move.unwrap().0 == loc
                || self.prev_move.unwrap().1 == loc)),
            r.mark == mark_of(self.state, loc@),
            r.check == (r.piece.is_king() && in_check(self.board@, r.piece.is_white())),
    {
        let piece = self.board.piece(loc);
        let last_move = match self.prev_move {
            Some((from, to)) => from == loc || to == loc,
            None => false,
        };
        let mark = match &self.state {
            State::Selected { selected_loc, available_moves, check_moves } => {
                if *selected_loc == loc {
                    Mark::Selected
                } else if contains(available_moves, loc) {
                    Mark::Available
                } else if contains(check_moves, loc) {
                    Mark::Exposed
                } else {
                    Mark::Plain
                }
            },
            _ => Mark::Plain,
        };
        proof {
            lemma_plain_pieces();
        }
        let check = piece.is_king() && self.board.is_check(piece.is_white());
        Cell { piece, last_move, mark, check }
    }

    /// What is to be written under the board.
    pub fn message(&self) -> (r: Message)
        requires
            self.wf(),
        ensures
            r == message_of(self.state, self.board@),
    {
        match &self.state {
            State::Checkmate(winner) => Message::Checkmate(*winner),
            State::Stalemate(_) => Message::Stalemate,
            State::AiMove => Message::Thinking,
            State::Setup => Message::Silent,
            _ => {
                if self.board.is_check(true) || self.board.is_check(false) {
                    Message::Check
                } else {
                    Message::Silent
                }
            },
        }
    }

    /// A click beside the board: a selection is taken back.
    pub fn clicked_out(&mut self) -> (e: Effect)
        requires
            old(self).wf(),
        ensures
            final(self).wf(),
            same_position(*old(self), *final(self)),
            old(self).state is Selected ==> final(self).state == State::Playing && e
                == Effect::Render,
            !(old(self).state is Selected) ==> *final(self) == *old(self) && e == Effect::Nothing,
    {
        if matches!(self.state, State::Selected { .. }) {
            self.state = State::Playing;
            Effect::Render
        } else {
            Effect::Nothing
        }
    }
}

/// Adding the entry at place `j` of an ascending list to a list of entries
/// from before that place keeps the list ascending and a list of entries
/// from before place `j + 1`.
proof fn lemma_push_first(moves: Seq<Loc>, j: int, before: Seq<Loc>, after: Seq<Loc>, pushed: bool)
    requires
        0 <= j < moves.len(),
        ascending(moves),
        ascending(before),
        forall|n: int| 0 <= n < before.len() ==> holds_first(moves, j, (#[trigger] before[n])@),
        forall|n: int| 0 <= n < before.len() ==> (#[trigger] before[n])@ < moves[j]@,
        pushed ==> after == before.push(moves[j]),
        !pushed ==> after == before,
    ensures
        ascending(after),
        forall|n: int| 0 <= n < after.len() ==> holds_first(moves, j + 1, (#[trigger] after[n])@),
        forall|t: int| holds(after, t) <==> holds(before, t) || (pushed && t == moves[j]@),
{
    assert forall|n: int| 0 <= n < after.len() implies holds_first(
        moves,
        j + 1,
        (#[trigger] after[n])@,
    ) by {
        if n < before.len() {
            assert(holds_first(moves, j, before[n]@));
            let k = choose|k: int| 0 <= k < j && (#[trigger] moves[k])@ == before[n]@;
            assert(moves[k]@ == after[n]@);
        } else {
            assert(moves[j]@ == after[n]@);
        }
    }
    assert forall|t: int| holds(after, t) <==> holds(before, t) || (pushed && t
        == moves[j]@) by {
        if holds(after, t) {
            let n = choose|n: int| 0 <= n < after.len() && (#[trigger] after[n])@ == t;
            if n < before.len() {
                assert(before[n]@ == t);
            }
        }
        if holds(before, t) {
            let n = choose|n: int| 0 <= n < before.len() && (#[trigger] before[n])@ == t;
            assert(after[n]@ == t);
        }
        if pushed && t == moves[j]@ {
            assert(after[before.len() as int]@ == t);
        }
    }
}

} // verus!

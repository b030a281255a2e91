//! Pieces: a set of movement capabilities and a color, packed into one byte.

use vstd::prelude::*;

verus! {

/// Flag of a piece that moves as a king.
pub const KING: u8 = 1;

/// Flag of a piece that moves as a queen.
pub const QUEEN: u8 = 2;

/// Flag of a piece that moves as a rook.
pub const ROOK: u8 = 4;

/// Flag of a piece that moves as a bishop.
pub const BISHOP: u8 = 8;

/// Flag of a piece that moves as a knight.
pub const KNIGHT: u8 = 16;

/// Flag of a piece that moves as a pawn.
pub const PAWN: u8 = 32;

/// Color bit of a white piece.
pub const WHITE: u8 = 0x80;

/// Color bit of a black piece.
pub const BLACK: u8 = 0x00;

/// The bit that holds the color.
pub const COLOR_MASK: u8 = 0x80;

/// The byte of the empty square.
pub const EMPTY: u8 = 0;

/// The byte of a plain white king.
pub const WHITE_KING: u8 = 0x81;

/// The byte of a plain white queen.
pub const WHITE_QUEEN: u8 = 0x82;

/// The byte of a plain white rook.
pub const WHITE_ROOK: u8 = 0x84;

/// The byte of a plain white bishop.
pub const WHITE_BISHOP: u8 = 0x88;

/// The byte of a plain white knight.
pub const WHITE_KNIGHT: u8 = 0x90;

/// The byte of a plain white pawn.
pub const WHITE_PAWN: u8 = 0xa0;

/// The byte of a plain black king.
pub const BLACK_KING: u8 = 0x01;

/// The byte of a plain black queen.
pub const BLACK_QUEEN: u8 = 0x02;

/// The byte of a plain black rook.
pub const BLACK_ROOK: u8 = 0x04;

/// The byte of a plain black bishop.
pub const BLACK_BISHOP: u8 = 0x08;

/// The byte of a plain black knight.
pub const BLACK_KNIGHT: u8 = 0x10;

/// The byte of a plain black pawn.
pub const BLACK_PAWN: u8 = 0x20;

/// The content of a square: any subset of the six capability flags together
/// with a color bit. The value 0 is the empty square.
#[derive(Clone, Copy, PartialEq, Eq, Structural, Debug)]
pub struct Piece(pub u8);

impl Piece {
    /// No bit is set.
    pub open spec fn spec_is_empty(self) -> bool {
        self.0 == 0
    }

    /// The color bit is set.
    pub open spec fn spec_is_white(self) -> bool {
        self.0 & COLOR_MASK == WHITE
    }

    /// The king flag is set.
    pub open spec fn spec_is_king(self) -> bool {
        self.0 & KING != 0
    }

    /// The queen flag is set.
    pub open spec fn spec_is_queen(self) -> bool {
        self.0 & QUEEN != 0
    }

    /// The rook flag is set.
    pub open spec fn spec_is_rook(self) -> bool {
        self.0 & ROOK != 0
    }

    /// The bishop flag is set.
    pub open spec fn spec_is_bishop(self) -> bool {
        self.0 & BISHOP != 0
    }

    /// The knight flag is set.
    pub open spec fn spec_is_knight(self) -> bool {
        self.0 & KNIGHT != 0
    }

    /// The pawn flag is set.
    pub open spec fn spec_is_pawn(self) -> bool {
        self.0 & PAWN != 0
    }

    /// How many of the six capabilities the piece carries.
    pub open spec fn kinds(self) -> int {
        (if self.is_king() {
            1int
        } else {
            0
        }) + (if self.is_queen() {
            1int
        } else {
            0
        }) + (if self.is_rook() {
            1int
        } else {
            0
        }) + (if self.is_bishop() {
            1int
        } else {
            0
        }) + (if self.is_knight() {
            1int
        } else {
            0
        }) + (if self.is_pawn() {
            1int
        } else {
            0
        })
    }

    /// The piece carries more than one capability.
    pub open spec fn spec_is_hybrid(self) -> bool {
        self.kinds() > 1
    }

    /// The piece whose bits are those of either.
    pub open spec fn spec_merge(self, other: Piece) -> Piece {
        Piece(self.0 | other.0)
    }

    /// The empty square.
    pub fn empty() -> (r: Piece)
        ensures
            r == Piece(0),
    {
        Piece(0)
    }

    /// Whether this is the empty square.
    #[verifier::when_used_as_spec(spec_is_empty)]
    pub fn is_empty(self) -> (r: bool)
        ensures
            r == self.spec_is_empty(),
    {
        self.0 == 0
    }

    /// Whether the color bit says White. The empty square counts as Black.
    #[verifier::when_used_as_spec(spec_is_white)]
    pub fn is_white(self) -> (r: bool)
        ensures
            r == self.spec_is_white(),
    {
        (self.0 & COLOR_MASK) == WHITE
    }

    /// Whether the piece moves as a king.
    #[verifier::when_used_as_spec(spec_is_king)]
    pub fn is_king(self) -> (r: bool)
        ensures
            r == self.spec_is_king(),
    {
        (self.0 & KING) != 0
    }

    /// Whether the piece moves as a queen.
    #[verifier::when_used_as_spec(spec_is_queen)]
    pub fn is_queen(self) -> (r: bool)
        ensures
            r == self.spec_is_queen(),
    {
        (self.0 & QUEEN) != 0
    }

    /// Whether the piece moves as a rook.
    #[verifier::when_used_as_spec(spec_is_rook)]
    pub fn is_rook(self) -> (r: bool)
        ensures
            r == self.spec_is_rook(),
    {
        (self.0 & ROOK) != 0
    }

    /// Whether the piece moves as a bishop.
    #[verifier::when_used_as_spec(spec_is_bishop)]
    pub fn is_bishop(self) -> (r: bool)
        ensures
            r == self.spec_is_bishop(),
    {
        (self.0 & BISHOP) != 0
    }

    /// Whether the piece moves as a knight.
    #[verifier::when_used_as_spec(spec_is_knight)]
    pub fn is_knight(self) -> (r: bool)
        ensures
            r == self.spec_is_knight(),
    {
        (self.0 & KNIGHT) != 0
    }

    /// Whether the piece moves as a pawn.
    #[verifier::when_used_as_spec(spec_is_pawn)]
    pub fn is_pawn(self) -> (r: bool)
        ensures
            r == self.spec_is_pawn(),
    {
        (self.0 & PAWN) != 0
    }

    /// Whether the piece moves as more than one kind.
    #[verifier::when_used_as_spec(spec_is_hybrid)]
    pub fn is_hybrid(self) -> (r: bool)
        ensures
            r == self.spec_is_hybrid(),
    {
        let mut count: u8 = 0;
        if self.is_king() {
            count += 1;
        }
        if self.is_queen() {
            count += 1;
        }
        if self.is_rook() {
            count += 1;
        }
        if self.is_bishop() {
            count += 1;
        }
        if self.is_knight() {
            count += 1;
        }
        if self.is_pawn() {
            count += 1;
        }
        count > 1
    }

    /// The piece that carries the flags of both; the color bits are or-ed too.
    #[verifier::when_used_as_spec(spec_merge)]
    pub fn merge(self, other: Piece) -> (r: Piece)
        ensures
            r == self.spec_merge(other),
    {
        Piece(self.0 | other.0)
    }
}

/// A merged piece moves as a given kind exactly when one of the two did, is
/// empty only when both were, and keeps the color that both halves share.
pub proof fn lemma_merge_flags(a: Piece, b: Piece)
    ensures
        a.merge(b).is_king() == (a.is_king() || b.is_king()),
        a.merge(b).is_queen() == (a.is_queen() || b.is_queen()),
        a.merge(b).is_rook() == (a.is_rook() || b.is_rook()),
        a.merge(b).is_bishop() == (a.is_bishop() || b.is_bishop()),
        a.merge(b).is_knight() == (a.is_knight() || b.is_knight()),
        a.merge(b).is_pawn() == (a.is_pawn() || b.is_pawn()),
        a.merge(b).is_empty() == (a.is_empty() && b.is_empty()),
        a.is_white() == b.is_white() ==> a.merge(b).is_white() == a.is_white(),
        a.is_white() ==> !a.is_empty(),
{
    let x = a.0;
    let y = b.0;
    assert((x | y) & 1 != 0 <==> (x & 1 != 0 || y & 1 != 0)) by (bit_vector);
    assert((x | y) & 2 != 0 <==> (x & 2 != 0 || y & 2 != 0)) by (bit_vector);
    assert((x | y) & 4 != 0 <==> (x & 4 != 0 || y & 4 != 0)) by (bit_vector);
    assert((x | y) & 8 != 0 <==> (x & 8 != 0 || y & 8 != 0)) by (bit_vector);
    assert((x | y) & 16 != 0 <==> (x & 16 != 0 || y & 16 != 0)) by (bit_vector);
    assert((x | y) & 32 != 0 <==> (x & 32 != 0 || y & 32 != 0)) by (bit_vector);
    assert((x | y) == 0 <==> (x == 0 && y == 0)) by (bit_vector);
    assert(((x & 0x80 == 0x80) == (y & 0x80 == 0x80)) ==> (((x | y) & 0x80 == 0x80) == (x
        & 0x80 == 0x80))) by (bit_vector);
    assert(x & 0x80 == 0x80 ==> x != 0) by (bit_vector);
}

/// Whether the piece has the given color and exactly the one capability
/// `kind`.
pub open spec fn is_plain(p: Piece, kind: u8, white: bool) -> bool {
    &&& !p.is_empty()
    &&& p.is_white() == white
    &&& p.is_king() == (kind == KING)
    &&& p.is_queen() == (kind == QUEEN)
    &&& p.is_rook() == (kind == ROOK)
    &&& p.is_bishop() == (kind == BISHOP)
    &&& p.is_knight() == (kind == KNIGHT)
    &&& p.is_pawn() == (kind == PAWN)
}

/// Each of the twelve named bytes is a plain piece of its color and kind.
pub proof fn lemma_plain_pieces()
    ensures
        is_plain(Piece(WHITE_KING), KING, true),
        is_plain(Piece(WHITE_QUEEN), QUEEN, true),
        is_plain(Piece(WHITE_ROOK), ROOK, true),
        is_plain(Piece(WHITE_BISHOP), BISHOP, true),
        is_plain(Piece(WHITE_KNIGHT), KNIGHT, true),
        is_plain(Piece(WHITE_PAWN), PAWN, true),
        is_plain(Piece(BLACK_KING), KING, false),
        is_plain(Piece(BLACK_QUEEN), QUEEN, false),
        is_plain(Piece(BLACK_ROOK), ROOK, false),
        is_plain(Piece(BLACK_BISHOP), BISHOP, false),
        is_plain(Piece(BLACK_KNIGHT), KNIGHT, false),
        is_plain(Piece(BLACK_PAWN), PAWN, false),
        Piece(EMPTY).is_empty(),
        !Piece(EMPTY).is_white(),
        !Piece(EMPTY).is_king(),
        !Piece(EMPTY).is_queen(),
        !Piece(EMPTY).is_rook(),
        !Piece(EMPTY).is_bishop(),
        !Piece(EMPTY).is_knight(),
        !Piece(EMPTY).is_pawn(),
{
    assert(0u8 & 1 == 0 && 0u8 & 2 == 0 && 0u8 & 4 == 0 && 0u8 & 8 == 0 && 0u8 & 16 == 0 && 0u8
        & 32 == 0 && 0u8 & 0x80 != 0x80) by (bit_vector);
    assert(0x81u8 & 1 != 0 && 0x81u8 & 2 == 0 && 0x81u8 & 4 == 0 && 0x81u8 & 8 == 0 && 0x81u8 & 16 == 0 && 0x81u8 & 32 == 0 && 0x81u8 & 0x80 == 0x80) by (bit_vector);
    assert(0x82u8 & 1 == 0 && 0x82u8 & 2 != 0 && 0x82u8 & 4 == 0 && 0x82u8 & 8 == 0 && 0x82u8 & 16 == 0 && 0x82u8 & 32 == 0 && 0x82u8 & 0x80 == 0x80) by (bit_vector);
    assert(0x84u8 & 1 == 0 && 0x84u8 & 2 == 0 && 0x84u8 & 4 != 0 && 0x84u8 & 8 == 0 && 0x84u8 & 16 == 0 && 0x84u8 & 32 == 0 && 0x84u8 & 0x80 == 0x80) by (bit_vector);
    assert(0x88u8 & 1 == 0 && 0x88u8 & 2 == 0 && 0x88u8 & 4 == 0 && 0x88u8 & 8 != 0 && 0x88u8 & 16 == 0 && 0x88u8 & 32 == 0 && 0x88u8 & 0x80 == 0x80) by (bit_vector);
    assert(0x90u8 & 1 == 0 && 0x90u8 & 2 == 0 && 0x90u8 & 4 == 0 && 0x90u8 & 8 == 0 && 0x90u8 & 16 != 0 && 0x90u8 & 32 == 0 && 0x90u8 & 0x80 == 0x80) by (bit_vector);
    assert(0xa0u8 & 1 == 0 && 0xa0u8 & 2 == 0 && 0xa0u8 & 4 == 0 && 0xa0u8 & 8 == 0 && 0xa0u8 & 16 == 0 && 0xa0u8 & 32 != 0 && 0xa0u8 & 0x80 == 0x80) by (bit_vector);
    assert(0x01u8 & 1 != 0 && 0x01u8 & 2 == 0 && 0x01u8 & 4 == 0 && 0x01u8 & 8 == 0 && 0x01u8 & 16 == 0 && 0x01u8 & 32 == 0 && 0x01u8 & 0x80 != 0x80) by (bit_vector);
    assert(0x02u8 & 1 == 0 && 0x02u8 & 2 != 0 && 0x02u8 & 4 == 0 && 0x02u8 & 8 == 0 && 0x02u8 & 16 == 0 && 0x02u8 & 32 == 0 && 0x02u8 & 0x80 != 0x80) by (bit_vector);
    assert(0x04u8 & 1 == 0 && 0x04u8 & 2 == 0 && 0x04u8 & 4 != 0 && 0x04u8 & 8 == 0 && 0x04u8 & 16 == 0 && 0x04u8 & 32 == 0 && 0x04u8 & 0x80 != 0x80) by (bit_vector);
    assert(0x08u8 & 1 == 0 && 0x08u8 & 2 == 0 && 0x08u8 & 4 == 0 && 0x08u8 & 8 != 0 && 0x08u8 & 16 == 0 && 0x08u8 & 32 == 0 && 0x08u8 & 0x80 != 0x80) by (bit_vector);
    assert(0x10u8 & 1 == 0 && 0x10u8 & 2 == 0 && 0x10u8 & 4 == 0 && 0x10u8 & 8 == 0 && 0x10u8 & 16 != 0 && 0x10u8 & 32 == 0 && 0x10u8 & 0x80 != 0x80) by (bit_vector);
    assert(0x20u8 & 1 == 0 && 0x20u8 & 2 == 0 && 0x20u8 & 4 == 0 && 0x20u8 & 8 == 0 && 0x20u8 & 16 == 0 && 0x20u8 & 32 != 0 && 0x20u8 & 0x80 != 0x80) by (bit_vector);
}

} // verus!

//! Squares of the board and the geometry of the 8x8 grid.

use vstd::prelude::*;

verus! {

/// The file (column) of the square with index `i`.
pub open spec fn file_of(i: int) -> int {
    i % 8
}

/// The rank (row) of the square with index `i`; rank 0 is Black's back rank.
pub open spec fn rank_of(i: int) -> int {
    i / 8
}

/// Whether file `x` and rank `y` name a square of the board.
pub open spec fn on_board(x: int, y: int) -> bool {
    0 <= x < 8 && 0 <= y < 8
}

/// The index of the square at file `x` and rank `y`.
pub open spec fn square(x: int, y: int) -> int {
    y * 8 + x
}

/// The square `dx` files and `dy` ranks away from square `i`, if there is one.
pub open spec fn offset(i: int, dx: int, dy: int) -> Option<int> {
    if on_board(file_of(i) + dx, rank_of(i) + dy) {
        Some(square(file_of(i) + dx, rank_of(i) + dy))
    } else {
        None
    }
}

/// A square of the board, numbered rank by rank: `index = y * 8 + x`.
#[derive(Clone, Copy, PartialEq, Eq, Structural, Debug)]
pub struct Loc(pub i32);

impl View for Loc {
    type V = int;

    open spec fn view(&self) -> int {
        self.0 as int
    }
}

impl Loc {
    /// A `Loc` is well formed when it names one of the 64 squares.
    pub open spec fn wf(self) -> bool {
        0 <= self.0 < 64
    }

    /// The square with the given index, if the index is on the board.
    pub fn new(index: i32) -> (r: Option<Loc>)
        ensures
            0 <= index < 64 ==> r == Some(Loc(index)),
            !(0 <= index < 64) ==> r is None,
    {
        if 0 <= index && index < 64 {
            Some(Loc(index))
        } else {
            None
        }
    }

    /// The position of this square in a board's sequence of squares.
    pub fn index(self) -> (r: usize)
        requires
            self.wf(),
        ensures
            r == self@,
    {
        self.0 as usize
    }

    /// The file of this square.
    pub fn x(self) -> (r: usize)
        requires
            self.wf(),
        ensures
            r == file_of(self@),
    {
        (self.0 % 8) as usize
    }

    /// The rank of this square.
    pub fn y(self) -> (r: usize)
        requires
            self.wf(),
        ensures
            r == rank_of(self@),
    {
        (self.0 / 8) as usize
    }

    /// The square `dx` files and `dy` ranks away, or `None` off the board.
    pub fn d(self, dx: i32, dy: i32) -> (r: Option<Loc>)
        requires
            self.wf(),
        ensures
            match offset(self@, dx as int, dy as int) {
                Some(t) => r == Some(Loc(t as i32)),
                None => r is None,
            },
            r is Some ==> r.unwrap().wf(),
    {
        let nx: i64 = (self.0 % 8) as i64 + dx as i64;
        let ny: i64 = (self.0 / 8) as i64 + dy as i64;
        if nx < 0 || nx > 7 || ny < 0 || ny > 7 {
            None
        } else {
            Some(Loc((ny * 8 + nx) as i32))
        }
    }
}

/// Whether the list `v` names the square `t`.
pub open spec fn holds(v: Seq<Loc>, t: int) -> bool {
    exists|i: int| 0 <= i < v.len() && (#[trigger] v[i])@ == t
}

/// Whether `v` is a list of squares in strictly ascending order, so that no
/// square is named twice.
pub open spec fn ascending(v: Seq<Loc>) -> bool {
    &&& forall|i: int| 0 <= i < v.len() ==> (#[trigger] v[i]).wf()
    &&& forall|i: int, j: int| 0 <= i < j < v.len() ==> (#[trigger] v[i])@ < (#[trigger] v[j])@
}

/// Whether the list names the square.
pub fn contains(moves: &Vec<Loc>, target: Loc) -> (r: bool)
    ensures
        r == holds(moves@, target@),
{
    let mut i: usize = 0;
    while i < moves.len()
        invariant
            i <= moves.len(),
            forall|j: int| 0 <= j < i ==> (#[trigger] moves@[j])@ != target@,
        decreases moves.len() - i,
    {
        if moves[i].0 == target.0 {
            return true;
        }
        i += 1;
    }
    false
}

} // verus!

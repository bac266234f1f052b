//! The board data model and the placement engine: a fixed `BSIZE` x `BSIZE`
//! occupancy grid with a per-length boat inventory, and the one mutating
//! operation, `add_boat`, which validates bounds, then inventory, then
//! overlap, and applies the placement atomically.

use vstd::prelude::*;
use vstd::slice::slice_to_vec;

verus! {

/// Grid dimension: the board is `BSIZE` x `BSIZE` cells.
pub const BSIZE: usize = 20;

/// A placement request: the boat's length, extending downwards from the
/// anchor when `Vertical` and rightwards when `Horizontal`.
#[derive(Clone, Copy, Debug)]
pub enum Boat {
    Vertical(usize),
    Horizontal(usize),
}

/// Why a placement was rejected.
#[derive(Clone, Copy, Debug, PartialEq, Eq, Structural)]
pub enum Error {
    Overlap,
    OutOfBounds,
    BoatCount,
}

/// A board: remaining boats per length (index `i` counts boats of length
/// `i + 1`) and a row-major occupancy grid (`true` = occupied).
#[derive(Clone)]
pub struct Board {
    pub boats: Vec<u8>,
    pub data: Vec<bool>,
}

/// The requested boat's length, whatever its axis.
pub open spec fn boat_len(boat: Boat) -> int {
    match boat {
        Boat::Vertical(l) => l as int,
        Boat::Horizontal(l) => l as int,
    }
}

/// The whole requested span lies on the grid (a span may touch the far edge).
pub open spec fn in_bounds(boat: Boat, pos: (usize, usize)) -> bool {
    &&& pos.0 < BSIZE
    &&& pos.1 < BSIZE
    &&& match boat {
        Boat::Vertical(l) => pos.0 + l <= BSIZE,
        Boat::Horizontal(l) => pos.1 + l <= BSIZE,
    }
}

/// Whether cell `(row, col)` belongs to the span of `boat` anchored at `pos`.
pub open spec fn in_span(boat: Boat, pos: (usize, usize), row: int, col: int) -> bool {
    match boat {
        Boat::Vertical(l) => col == pos.1 && pos.0 <= row < pos.0 + l,
        Boat::Horizontal(l) => row == pos.0 && pos.1 <= col < pos.1 + l,
    }
}

impl Board {
    /// Structural invariant: four inventory counters and a full grid.
    pub open spec fn wf(self) -> bool {
        &&& self.boats@.len() == 4
        &&& self.data@.len() == (BSIZE * BSIZE) as int
    }

    /// Occupancy of cell `(row, col)` in the row-major grid.
    pub open spec fn occupied(self, row: int, col: int) -> bool {
        self.data@[row * (BSIZE as int) + col]
    }

    /// Some cell of the requested span is already occupied.
    pub open spec fn span_overlaps(self, boat: Boat, pos: (usize, usize)) -> bool {
        exists|r: int, c: int|
            0 <= r < BSIZE && 0 <= c < BSIZE && in_span(boat, pos, r, c) && self.occupied(r, c)
    }

    /// An empty board with the given starting inventory, one counter per
    /// boat length 1..=4.
    pub fn new(boats: &[u8]) -> (r: Board)
        requires
            boats@.len() == 4,
        ensures
            r.wf(),
            r.boats@ == boats@,
            forall|row: int, col: int|
                0 <= row < BSIZE && 0 <= col < BSIZE ==> !r.occupied(row, col),
    {
        let data: Vec<bool> = vec![false; BSIZE * BSIZE];
        Board { boats: slice_to_vec(boats), data }
    }

    /// Reads a single cell; callers must stay on the grid.
    pub fn occupancy(&self, row: usize, col: usize) -> (r: bool)
        requires
            self.wf(),
            row < BSIZE,
            col < BSIZE,
        ensures
            r == self.occupied(row as int, col as int),
    {
        self.data[row * BSIZE + col]
    }

    /// Remaining boats of the given length (1..=4).
    pub fn remaining(&self, length: usize) -> (r: u8)
        requires
            self.wf(),
            1 <= length <= 4,
        ensures
            r == self.boats@[length - 1],
    {
        self.boats[length - 1]
    }

    /// Places one boat. Bounds are checked first, then inventory, then
    /// overlap; on success exactly the span's cells become occupied and the
    /// counter for the boat's length goes down by one, everything else of
    /// the board staying as it was.
    pub fn add_boat(self, boat: Boat, pos: (usize, usize)) -> (res: Result<Board, Error>)
        requires
            self.wf(),
            1 <= boat_len(boat) <= 4,
        ensures
            !in_bounds(boat, pos) ==> res == Err::<Board, Error>(Error::OutOfBounds),
            in_bounds(boat, pos) && self.boats@[boat_len(boat) - 1] == 0 ==> res == Err::<
                Board,
                Error,
            >(Error::BoatCount),
            (in_bounds(boat, pos) && self.boats@[boat_len(boat) - 1] > 0
                && self.span_overlaps(boat, pos)) ==> res == Err::<Board, Error>(Error::Overlap),
            (in_bounds(boat, pos) && self.boats@[boat_len(boat) - 1] > 0 && !self.span_overlaps(
                boat,
                pos,
            )) ==> {
                &&& res is Ok
                &&& res->Ok_0.wf()
                &&& res->Ok_0.boats@[boat_len(boat) - 1] == self.boats@[boat_len(boat) - 1] - 1
                &&& forall|k: int|
                    0 <= k < 4 && k != boat_len(boat) - 1 ==> res->Ok_0.boats@[k]
                        == self.boats@[k]
                &&& forall|r: int, c: int|
                    0 <= r < BSIZE && 0 <= c < BSIZE ==> res->Ok_0.occupied(r, c) == (
                    self.occupied(r, c) || in_span(boat, pos, r, c))
            },
    {
        let ghost orig = self;
        let mut board = self;
        let (len, vertical): (usize, bool) = match boat {
            Boat::Vertical(l) => (l, true),
            Boat::Horizontal(l) => (l, false),
        };
        let within = if vertical {
            pos.0 < BSIZE && pos.1 < BSIZE && len <= BSIZE - pos.0
        } else {
            pos.0 < BSIZE && pos.1 < BSIZE && len <= BSIZE - pos.1
        };
        if !within {
            return Err(Error::OutOfBounds);
        }
        if board.boats[len - 1] == 0 {
            return Err(Error::BoatCount);
        }
        let mut k: usize = 0;
        while k < len
            invariant
                board == orig,
                orig == self,
                orig.wf(),
                orig.boats@[len - 1] > 0,
                in_bounds(boat, pos),
                1 <= len <= 4,
                k <= len,
                boat_len(boat) == len as int,
                vertical <==> boat is Vertical,
                forall|r: int, c: int|
                    0 <= r < BSIZE && 0 <= c < BSIZE && in_span(boat, pos, r, c) && (if vertical {
                        r < pos.0 + k
                    } else {
                        c < pos.1 + k
                    }) ==> !orig.occupied(r, c),
            decreases len - k,
        {
            let (r, c) = if vertical {
                (pos.0 + k, pos.1)
            } else {
                (pos.0, pos.1 + k)
            };
            if board.data[r * BSIZE + c] {
                proof {
                    assert(orig.occupied(r as int, c as int));
                    assert(in_span(boat, pos, r as int, c as int));
                    assert((r as int) < BSIZE && (c as int) < BSIZE && in_span(
                        boat,
                        pos,
                        r as int,
                        c as int,
                    ) && orig.occupied(r as int, c as int));
                    assert(orig.span_overlaps(boat, pos));
                }
                return Err(Error::Overlap);
            }
            k += 1;
        }
        assert(!orig.span_overlaps(boat, pos)) by {
            assert forall|r: int, c: int|
                0 <= r < BSIZE && 0 <= c < BSIZE && in_span(boat, pos, r, c) implies !orig.occupied(
                r,
                c,
            ) by {}
        }
        let stock = board.boats[len - 1];
        board.boats[len - 1] = stock - 1;
        proof {
            assert(board.boats@ =~= orig.boats@.update(len - 1, (stock - 1) as u8));
        }
        let mut k: usize = 0;
        while k < len
            invariant
                orig.wf(),
                board.wf(),
                stock == orig.boats@[len - 1],
                stock > 0,
                board.boats@ == orig.boats@.update(len - 1, (stock - 1) as u8),
                in_bounds(boat, pos),
                1 <= len <= 4,
                k <= len,
                boat_len(boat) == len as int,
                vertical <==> boat is Vertical,
                forall|r: int, c: int|
                    0 <= r < BSIZE && 0 <= c < BSIZE ==> board.occupied(r, c) == (orig.occupied(
                        r,
                        c,
                    ) || (in_span(boat, pos, r, c) && (if vertical {
                        r < pos.0 + k
                    } else {
                        c < pos.1 + k
                    }))),
            decreases len - k,
        {
            let (r, c) = if vertical {
                (pos.0 + k, pos.1)
            } else {
                (pos.0, pos.1 + k)
            };
            let ghost before = board;
            board.data[r * BSIZE + c] = true;
            proof {
                assert forall|r2: int, c2: int|
                    0 <= r2 < BSIZE && 0 <= c2 < BSIZE implies board.occupied(r2, c2) == (
                orig.occupied(r2, c2) || (in_span(boat, pos, r2, c2) && (if vertical {
                    r2 < pos.0 + k + 1
                } else {
                    c2 < pos.1 + k + 1
                }))) by {
                    if r2 == r as int && c2 == c as int {
                        assert(board.occupied(r2, c2));
                    } else {
                        assert(r2 * (BSIZE as int) + c2 != (r as int) * (BSIZE as int) + (
                        c as int)) by (nonlinear_arith)
                            requires
                                0 <= r2 < BSIZE,
                                0 <= c2 < BSIZE,
                                0 <= r < BSIZE,
                                0 <= c < BSIZE,
                                !(r2 == r as int && c2 == c as int),
                        ;
                        assert(board.occupied(r2, c2) == before.occupied(r2, c2));
                    }
                }
            }
            k += 1;
        }
        proof {
            assert forall|r: int, c: int| 0 <= r < BSIZE && 0 <= c < BSIZE implies board.occupied(
                r,
                c,
            ) == (orig.occupied(r, c) || in_span(boat, pos, r, c)) by {}
        }
        Ok(board)
    }
}

impl Error {
    /// The stable message for each rejection reason.
    pub fn to_string(self) -> (r: String)
        ensures
            self is Overlap ==> r@ == "Overlap Error"@,
            self is OutOfBounds ==> r@ == "OutOfBound Error"@,
            self is BoatCount ==> r@ == "BoatCount Error"@,
    {
        match self {
            Error::Overlap => "Overlap Error".to_owned(),
            Error::OutOfBounds => "OutOfBound Error".to_owned(),
            Error::BoatCount => "BoatCount Error".to_owned(),
        }
    }
}

} // verus!


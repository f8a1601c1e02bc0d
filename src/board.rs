//! The board: its dimensions and the sorted positions of its queens.

use vstd::prelude::*;

use crate::position::{
    copy_coords, in_dims, insert_coord, insert_sorted, sort_coords, CoordList,
    PosCoords, PosError,
};
use crate::symmetry::{reflect_all, reflect_placement, valid_placement};
use crate::Square;

verus! {

/// A board of `width` by `height` squares and the queens standing on it.
#[derive(Debug)]
pub struct Board {
    width: u32,
    height: u32,
    queens: CoordList,
}

impl View for Board {
    /// The dimensions `(width, height)` and the sorted positions of the queens.
    type V = (PosCoords, Seq<PosCoords>);

    closed spec fn view(&self) -> (PosCoords, Seq<PosCoords>) {
        ((self.width, self.height), self.queens@)
    }
}

/// Well-formed board contents: both sides at least one square, a valid placement.
pub open spec fn board_ok(v: (PosCoords, Seq<PosCoords>)) -> bool {
    v.0.0 > 0 && v.0.1 > 0 && valid_placement(v.1, v.0)
}

impl Board {
    #[verifier::type_invariant]
    spec fn inv(&self) -> bool {
        board_ok(((self.width, self.height), self.queens@))
    }

    /// An empty 8 by 8 board.
    pub fn new() -> (r: Board)
        ensures
            r@ == ((8u32, 8u32), Seq::<PosCoords>::empty()),
    {
        Board { width: 8, height: 8, queens: Vec::new() }
    }

    /// An empty board of the given `(width, height)`.
    pub fn from_dims(dims: PosCoords) -> (r: Board)
        requires
            dims.0 > 0,
            dims.1 > 0,
        ensures
            r@ == (dims, Seq::<PosCoords>::empty()),
    {
        Board { width: dims.0, height: dims.1, queens: Vec::new() }
    }

    /// An 8 by 8 board with a queen on each of `positions`; an error if one is off the board.
    pub fn from_positions(positions: Vec<PosCoords>) -> (r: Result<Board, PosError>)
        ensures
            match r {
                Ok(b) => (forall|i: int|
                    0 <= i < positions@.len() ==> in_dims(#[trigger] positions@[i], (8u32, 8u32)))
                    && b@ == ((8u32, 8u32), sort_coords(positions@)),
                Err(e) => e == PosError::OutOfBounds && exists|i: int|
                    0 <= i < positions@.len() && !in_dims(#[trigger] positions@[i], (8u32, 8u32)),
            },
    {
        let mut board = Board::new();
        let mut i: usize = 0;
        proof {
            crate::position::lemma_sort_coords_push(Seq::empty(), (0, 0));
            assert(positions@.subrange(0, 0) =~= Seq::<PosCoords>::empty());
        }
        while i < positions.len()
            invariant
                0 <= i <= positions.len(),
                board@ == ((8u32, 8u32), sort_coords(positions@.subrange(0, i as int))),
                forall|k: int| 0 <= k < i ==> in_dims(#[trigger] positions@[k], (8u32, 8u32)),
            decreases positions.len() - i,
        {
            let pos = positions[i];
            if !board.in_bounds(&pos) {
                return Err(PosError::OutOfBounds);
            }
            let _ = board.add_queen(pos);
            proof {
                let pre = positions@.subrange(0, i as int);
                let post = positions@.subrange(0, i + 1);
                assert(post =~= pre.push(pos));
                crate::position::lemma_sort_coords_push(pre, pos);
            }
            i = i + 1;
        }
        proof {
            assert(positions@.subrange(0, positions.len() as int) =~= positions@);
        }
        Ok(board)
    }

    /// The number of columns.
    pub fn width(&self) -> (r: u32)
        ensures
            r == self@.0.0,
            r > 0,
    {
        proof {
            use_type_invariant(self);
        }
        self.width
    }

    /// The number of rows.
    pub fn height(&self) -> (r: u32)
        ensures
            r == self@.0.1,
            r > 0,
    {
        proof {
            use_type_invariant(self);
        }
        self.height
    }

    /// The dimensions `(width, height)`.
    pub fn dims(&self) -> (r: PosCoords)
        ensures
            r == self@.0,
            r.0 > 0 && r.1 > 0,
    {
        proof {
            use_type_invariant(self);
        }
        (self.width, self.height)
    }

    /// Whether `pos` lies on the board.
    pub fn in_bounds(&self, pos: &PosCoords) -> (r: bool)
        ensures
            r == in_dims(*pos, self@.0),
    {
        pos.0 < self.width && pos.1 < self.height
    }

    /// What stands on the square in row `row` and column `col`; an error off the board.
    pub fn get_square(&self, row: u32, col: u32) -> (r: Result<Square, PosError>)
        ensures
            !in_dims((col, row), self@.0) ==> r == Err::<Square, PosError>(PosError::OutOfBounds),
            in_dims((col, row), self@.0) && self@.1.contains((col, row)) ==> r == Ok::<
                Square,
                PosError,
            >(Square::Queen),
            in_dims((col, row), self@.0) && !self@.1.contains((col, row)) ==> r == Ok::<
                Square,
                PosError,
            >(Square::Empty),
    {
        let pos = (col, row);
        if !self.in_bounds(&pos) {
            return Err(PosError::OutOfBounds);
        }
        let mut i: usize = 0;
        while i < self.queens.len()
            invariant
                0 <= i <= self.queens.len(),
                pos == (col, row),
                in_dims(pos, self@.0),
                forall|k: int| 0 <= k < i ==> self.queens@[k] != pos,
            decreases self.queens.len() - i,
        {
            if self.queens[i].0 == col && self.queens[i].1 == row {
                proof {
                    assert(self@.1[i as int] == pos);
                }
                return Ok(Square::Queen);
            }
            i = i + 1;
        }
        Ok(Square::Empty)
    }

    /// Put a queen on `pos`. Off the board this is an error and the board stays as it was.
    pub fn add_queen(&mut self, pos: PosCoords) -> (r: Result<(), PosError>)
        ensures
            final(self)@.0 == old(self)@.0,
            in_dims(pos, old(self)@.0) ==> r == Ok::<(), PosError>(()) && final(self)@.1
                == insert_coord(old(self)@.1, pos),
            !in_dims(pos, old(self)@.0) ==> r == Err::<(), PosError>(PosError::OutOfBounds)
                && final(self)@ == old(self)@,
    {
        proof {
            use_type_invariant(&*self);
        }
        if self.in_bounds(&pos) {
            proof {
                crate::position::lemma_insert_coord(self.queens@, pos);
                let s = insert_coord(self.queens@, pos);
                assert forall|i: int| 0 <= i < s.len() implies in_dims(
                    #[trigger] s[i],
                    (self.width, self.height),
                ) by {
                    assert(s.contains(s[i]));
                    assert(s.to_set().contains(s[i]));
                    if s[i] != pos {
                        assert(self.queens@.to_set().contains(s[i]));
                        let k = choose|k: int| 0 <= k < self.queens@.len() && self.queens@[k] == s[i];
                    }
                }
            }
            let mut queens = copy_coords(&self.queens);
            insert_sorted(&mut queens, pos);
            self.queens = queens;
            Ok(())
        } else {
            Err(PosError::OutOfBounds)
        }
    }

    /// The positions of the queens, sorted.
    pub fn get_queen_positions(&self) -> (r: CoordList)
        ensures
            r@ == self@.1,
            board_ok(self@),
    {
        proof {
            use_type_invariant(self);
        }
        copy_coords(&self.queens)
    }

    /// The board mirrored left to right, mirrored top to bottom, and turned half a circle.
    pub fn get_reflections(&self) -> (r: Vec<Board>)
        ensures
            r@.len() == 3,
            r@[0]@ == (self@.0, reflect_placement(self@.1, self@.0, true, false)),
            r@[1]@ == (self@.0, reflect_placement(self@.1, self@.0, false, true)),
            r@[2]@ == (self@.0, reflect_placement(self@.1, self@.0, true, true)),
    {
        let mut r: Vec<Board> = Vec::new();
        r.push(self.get_horizontal_reflection());
        r.push(self.get_vertical_reflection());
        r.push(self.get_inverse());
        r
    }

    /// The board mirrored left to right.
    pub fn get_horizontal_reflection(&self) -> (r: Board)
        ensures
            r@ == (self@.0, reflect_placement(self@.1, self@.0, true, false)),
    {
        self.reflected(true, false)
    }

    /// The board mirrored top to bottom.
    pub fn get_vertical_reflection(&self) -> (r: Board)
        ensures
            r@ == (self@.0, reflect_placement(self@.1, self@.0, false, true)),
    {
        self.reflected(false, true)
    }

    /// The board turned half a circle.
    pub fn get_inverse(&self) -> (r: Board)
        ensures
            r@ == (self@.0, reflect_placement(self@.1, self@.0, true, true)),
    {
        self.reflected(true, true)
    }

    fn reflected(&self, fx: bool, fy: bool) -> (r: Board)
        ensures
            r@ == (self@.0, reflect_placement(self@.1, self@.0, fx, fy)),
    {
        proof {
            use_type_invariant(self);
        }
        let queens = reflect_all(&self.queens, (self.width, self.height), fx, fy);
        Board { width: self.width, height: self.height, queens }
    }

    /// `pos` mirrored left to right.
    pub fn get_pos_horizontal_reflection(&self, pos: &PosCoords) -> (r: PosCoords)
        requires
            in_dims(*pos, self@.0),
        ensures
            r == ((self@.0.0 - 1 - pos.0) as u32, pos.1),
    {
        let (orig_x, y) = *pos;
        let new_x = self.width - orig_x - 1;
        (new_x, y)
    }

    /// `pos` mirrored top to bottom.
    pub fn get_pos_vertical_reflection(&self, pos: &PosCoords) -> (r: PosCoords)
        requires
            in_dims(*pos, self@.0),
        ensures
            r == (pos.0, (self@.0.1 - 1 - pos.1) as u32),
    {
        let (x, orig_y) = *pos;
        let new_y = self.height - orig_y - 1;
        (x, new_y)
    }

    /// `pos` mirrored both ways.
    pub fn get_pos_inverse(&self, pos: &PosCoords) -> (r: PosCoords)
        requires
            in_dims(*pos, self@.0),
        ensures
            r == ((self@.0.0 - 1 - pos.0) as u32, (self@.0.1 - 1 - pos.1) as u32),
    {
        let (orig_x, orig_y) = *pos;
        let new_y = self.height - orig_y - 1;
        let new_x = self.width - orig_x - 1;
        (new_x, new_y)
    }
}

} // verus!

use vstd::prelude::*;

verus! {

/// A direction in which the free cell can move one step on the grid.
#[derive(Copy, Clone, Debug, PartialEq, Eq, Structural)]
pub enum MoveDirection {
    Left,
    Right,
    Up,
    Down,
}

/// The direction that exactly undoes `d` (Left and Right swap, Up and Down swap).
pub open spec fn opposite(d: MoveDirection) -> MoveDirection {
    match d {
        MoveDirection::Left => MoveDirection::Right,
        MoveDirection::Right => MoveDirection::Left,
        MoveDirection::Up => MoveDirection::Down,
        MoveDirection::Down => MoveDirection::Up,
    }
}

/// Row-major cell index reached by one step from index `i`, or `None` when the
/// step would leave the 4x4 grid (no wraparound).
pub open spec fn nbr_index(i: int, d: MoveDirection) -> Option<int> {
    match d {
        MoveDirection::Left => if i % 4 > 0 { Some(i - 1) } else { None },
        MoveDirection::Right => if i % 4 < 3 { Some(i + 1) } else { None },
        MoveDirection::Up => if i / 4 > 0 { Some(i - 4) } else { None },
        MoveDirection::Down => if i / 4 < 3 { Some(i + 4) } else { None },
    }
}

/// On the 4x4 grid, a row-major index splits uniquely into row and column.
pub(crate) proof fn lemma_index_parts(row: int, col: int)
    by (nonlinear_arith)
    requires
        0 <= row <= 3,
        0 <= col <= 3,
    ensures
        (4 * row + col) % 4 == col,
        (4 * row + col) / 4 == row,
{
}

/// Two directions that lead from one cell to the same neighbor are the same
/// direction.
pub proof fn lemma_nbr_inj(f: int, d1: MoveDirection, d2: MoveDirection)
    requires
        nbr_index(f, d1) is Some,
        nbr_index(f, d1) == nbr_index(f, d2),
    ensures
        d1 == d2,
{
}

/// Two positions with the same row and column are the same position.
pub proof fn lemma_position_ext(a: Position, b: Position)
    requires
        a.row() == b.row(),
        a.col() == b.col(),
    ensures
        a == b,
{
}

/// A step from an on-grid index stays on the grid, lands on a different cell,
/// and is undone exactly by a step in the opposite direction.
pub proof fn lemma_nbr_props(f: int, d: MoveDirection)
    requires
        0 <= f < 16,
    ensures
        nbr_index(f, d) matches Option::Some(n) ==> 0 <= n < 16 && n != f && nbr_index(
            n,
            opposite(d),
        ) == Option::Some(f),
{
    let q = f / 4;
    let r = f % 4;
    assert(f == 4 * q + r && 0 <= r < 4 && 0 <= q < 4) by (nonlinear_arith)
        requires
            0 <= f < 16,
            q == f / 4,
            r == f % 4,
    ;
    match d {
        MoveDirection::Left => {
            if r > 0 {
                assert((f - 1) % 4 == r - 1 && (f - 1) / 4 == q) by (nonlinear_arith)
                    requires
                        f == 4 * q + r && 1 <= r < 4 && 0 <= q,
                ;
            }
        }
        MoveDirection::Right => {
            if r < 3 {
                assert((f + 1) % 4 == r + 1 && (f + 1) / 4 == q) by (nonlinear_arith)
                    requires
                        f == 4 * q + r && 0 <= r < 3 && 0 <= q,
                ;
            }
        }
        MoveDirection::Up => {
            if q > 0 {
                assert((f - 4) % 4 == r && (f - 4) / 4 == q - 1) by (nonlinear_arith)
                    requires
                        f == 4 * q + r && 0 <= r < 4 && 1 <= q,
                ;
            }
        }
        MoveDirection::Down => {
            if q < 3 {
                assert((f + 4) % 4 == r && (f + 4) / 4 == q + 1) by (nonlinear_arith)
                    requires
                        f == 4 * q + r && 0 <= r < 4 && 0 <= q < 3,
                ;
            }
        }
    }
}

/// A validated (row, col) cell address on the fixed 4x4 grid.
#[derive(Copy, Clone, Debug, PartialEq, Eq, Structural)]
pub struct Position {
    row: u8,
    col: u8,
}

impl Position {
    /// The row as a mathematical integer.
    pub closed spec fn row(&self) -> int {
        self.row as int
    }

    /// The column as a mathematical integer.
    pub closed spec fn col(&self) -> int {
        self.col as int
    }

    /// Both components lie on the 4x4 grid.
    pub open spec fn wf(&self) -> bool {
        0 <= self.row() <= 3 && 0 <= self.col() <= 3
    }

    /// Row-major cell index, in [0, 16) for a well-formed position.
    pub open spec fn index(&self) -> int {
        4 * self.row() + self.col()
    }

    pub fn new(row: u8, col: u8) -> (p: Position)
        requires
            row <= 3,
            col <= 3,
        ensures
            p.wf(),
            p.row() == row,
            p.col() == col,
    {
        Position { row: row, col: col }
    }

    /// Bit offset of this cell's slot inside a packed board: slots are laid out
    /// from the most significant nibble (index 0) down to the least (index 15).
    pub fn to_offset(&self) -> (offset: u8)
        requires
            self.wf(),
        ensures
            offset as int == 4 * (15 - self.index()),
    {
        let index = (self.row * 4) + self.col;
        4 * (15 - index)
    }

    /// The neighboring position one step in `move_direction`, or `None` when
    /// that step would leave the grid.
    pub fn get_neighbor(&self, move_direction: MoveDirection) -> (r: Option<Position>)
        requires
            self.wf(),
        ensures
            match r {
                Some(n) => n.wf() && nbr_index(self.index(), move_direction) == Some(n.index()),
                None => nbr_index(self.index(), move_direction) is None,
            },
    {
        proof {
            lemma_index_parts(self.row(), self.col());
        }
        match move_direction {
            MoveDirection::Left => {
                if self.col > 0 {
                    Some(Position { row: self.row, col: self.col - 1 })
                } else {
                    None
                }
            }
            MoveDirection::Right => {
                if self.col < 3 {
                    Some(Position { row: self.row, col: self.col + 1 })
                } else {
                    None
                }
            }
            MoveDirection::Up => {
                if self.row > 0 {
                    Some(Position { row: self.row - 1, col: self.col })
                } else {
                    None
                }
            }
            MoveDirection::Down => {
                if self.row < 3 {
                    Some(Position { row: self.row + 1, col: self.col })
                } else {
                    None
                }
            }
        }
    }
}

} // verus!

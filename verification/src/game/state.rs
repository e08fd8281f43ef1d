use vstd::prelude::*;

use crate::game::bitboard::BitBoard;
use crate::game::bitboard::solved_cells;
use crate::game::position::MoveDirection;
use crate::game::position::Position;
use crate::game::position::lemma_index_parts;
use crate::game::position::nbr_index;
use crate::game::position::opposite;

verus! {

/// The mathematical content of a puzzle state: the sixteen cell labels in
/// row-major order, and the row-major index of the free cell.
#[verifier::ext_equal]
pub struct BoardModel {
    pub cells: Seq<u8>,
    pub free: int,
}

/// A well-formed model: sixteen labels, each in [0, 15] and no two alike, with
/// the free index on the grid and naming the cell that holds label 0.
pub open spec fn board_wf(m: BoardModel) -> bool {
    &&& m.cells.len() == 16
    &&& 0 <= m.free < 16
    &&& m.cells[m.free] == 0
    &&& forall|i: int| 0 <= i < 16 ==> m.cells[i] <= 15
    &&& forall|i: int, j: int|
        0 <= i < 16 && 0 <= j < 16 && i != j ==> m.cells[i] != m.cells[j]
}

/// The model of the canonical solved state.
pub open spec fn solved_board() -> BoardModel {
    BoardModel { cells: solved_cells(), free: 15 }
}

/// One move of the free cell in direction `d`: the free slot and the neighbor
/// slot exchange contents and the free index follows the neighbor; `None` when
/// the neighbor would lie off the grid.
pub open spec fn board_step(m: BoardModel, d: MoveDirection) -> Option<BoardModel> {
    match nbr_index(m.free, d) {
        Option::None => Option::None,
        Option::Some(n) => Option::Some(
            BoardModel {
                cells: m.cells.update(m.free, m.cells[n]).update(n, m.cells[m.free]),
                free: n,
            },
        ),
    }
}

/// The state after a whole move sequence, `None` as soon as one step is
/// illegal; the empty sequence changes nothing.
pub open spec fn board_steps(m: BoardModel, ds: Seq<MoveDirection>) -> Option<BoardModel>
    decreases ds.len(),
{
    if ds.len() == 0 {
        Option::Some(m)
    } else {
        match board_step(m, ds[0]) {
            Option::None => Option::None,
            Option::Some(m2) => board_steps(m2, ds.drop_first()),
        }
    }
}

/// The sequence that retraces `ds` backwards: reversed order, each direction
/// replaced by its opposite.
pub open spec fn undo_path(ds: Seq<MoveDirection>) -> Seq<MoveDirection> {
    Seq::new(ds.len(), |i: int| opposite(ds[ds.len() - 1 - i]))
}

/// The solved model is well formed.
pub proof fn lemma_solved_wf()
    ensures
        board_wf(solved_board()),
{
    assert forall|i: int| 0 <= i < 16 implies solved_cells()[i] == if i == 15 {
        0u8
    } else {
        (i + 1) as u8
    } by {}
    assert(solved_cells()[15] == 0);
}

/// A well-formed state has a well-formed model.
pub proof fn lemma_state_wf(s: GameState)
    requires
        s.wf(),
    ensures
        board_wf(s@),
{
}

/// A legal step keeps the model well formed.
pub proof fn lemma_step_wf(m: BoardModel, d: MoveDirection)
    requires
        board_wf(m),
    ensures
        board_step(m, d) matches Option::Some(m2) ==> board_wf(m2),
{
    if board_step(m, d) is Some {
        crate::game::position::lemma_nbr_props(m.free, d);
        let n = nbr_index(m.free, d)->0;
        let m2 = board_step(m, d)->0;
        assert(m2.cells[n] == m.cells[m.free]);
        assert(m2.cells[m.free] == m.cells[n]);
        assert forall|i: int, j: int|
            0 <= i < 16 && 0 <= j < 16 && i != j implies m2.cells[i] != m2.cells[j] by {
            assert(m2.cells[i] == if i == n {
                m.cells[m.free]
            } else if i == m.free {
                m.cells[n]
            } else {
                m.cells[i]
            });
            assert(m2.cells[j] == if j == n {
                m.cells[m.free]
            } else if j == m.free {
                m.cells[n]
            } else {
                m.cells[j]
            });
        }
    }
}

/// Stepping and then stepping in the opposite direction returns to the
/// original model.
pub proof fn lemma_step_undo(m: BoardModel, d: MoveDirection)
    requires
        m.cells.len() == 16,
        0 <= m.free < 16,
    ensures
        board_step(m, d) matches Option::Some(m2) ==> board_step(m2, opposite(d)) == Option::Some(
            m,
        ),
{
    if board_step(m, d) is Some {
        crate::game::position::lemma_nbr_props(m.free, d);
        let n = nbr_index(m.free, d)->0;
        let m2 = board_step(m, d)->0;
        let m3 = board_step(m2, opposite(d))->0;
        assert(m3.cells =~= m.cells);
        assert(m3 =~= m);
    }
}

/// A move sequence splits: running `a + b` is running `a`, then `b`.
pub proof fn lemma_steps_app(m: BoardModel, a: Seq<MoveDirection>, b: Seq<MoveDirection>)
    ensures
        board_steps(m, a + b) == (match board_steps(m, a) {
            Option::None => Option::<BoardModel>::None,
            Option::Some(mm) => board_steps(mm, b),
        }),
    decreases a.len(),
{
    if a.len() == 0 {
        assert(a + b =~= b);
    } else {
        assert((a + b)[0] == a[0]);
        match board_step(m, a[0]) {
            Option::None => {
                assert(board_steps(m, a + b) is None);
            }
            Option::Some(m2) => {
                assert((a + b).drop_first() =~= a.drop_first() + b);
                lemma_steps_app(m2, a.drop_first(), b);
            }
        }
    }
}

/// Every model reached by legal steps keeps sixteen cells and an on-grid free
/// index.
pub proof fn lemma_steps_dims(m: BoardModel, ds: Seq<MoveDirection>)
    requires
        m.cells.len() == 16,
        0 <= m.free < 16,
    ensures
        board_steps(m, ds) matches Option::Some(t) ==> t.cells.len() == 16 && 0 <= t.free < 16,
    decreases ds.len(),
{
    if ds.len() > 0 && board_step(m, ds[0]) is Some {
        crate::game::position::lemma_nbr_props(m.free, ds[0]);
        lemma_steps_dims(board_step(m, ds[0])->0, ds.drop_first());
    }
}

/// Replaying a legal move sequence and then its exact direction-reversed
/// sequence returns to the original model.
pub proof fn lemma_path_undo(m: BoardModel, ds: Seq<MoveDirection>)
    requires
        m.cells.len() == 16,
        0 <= m.free < 16,
    ensures
        board_steps(m, ds) matches Option::Some(t) ==> board_steps(t, undo_path(ds))
            == Option::Some(m),
    decreases ds.len(),
{
    if board_steps(m, ds) is Some && ds.len() > 0 {
        let t = board_steps(m, ds)->0;
        crate::game::position::lemma_nbr_props(m.free, ds[0]);
        let m2 = board_step(m, ds[0])->0;
        lemma_path_undo(m2, ds.drop_first());
        assert(undo_path(ds) =~= undo_path(ds.drop_first()) + seq![opposite(ds[0])]);
        lemma_steps_app(t, undo_path(ds.drop_first()), seq![opposite(ds[0])]);
        lemma_step_undo(m, ds[0]);
        let s = seq![opposite(ds[0])];
        assert(s.len() == 1 && s[0] == opposite(ds[0]));
        assert(s.drop_first() =~= Seq::<MoveDirection>::empty());
        assert(board_step(m2, opposite(ds[0])) == Option::Some(m));
        assert(board_steps(m, Seq::<MoveDirection>::empty()) == Option::Some(m));
        assert(board_steps(m2, s) == Option::Some(m));
    }
}

/// From the solved model, any single legal move yields a model that is not
/// solved: the slid tile leaves its home cell.
pub proof fn lemma_move_unsolves(d: MoveDirection)
    ensures
        board_step(solved_board(), d) matches Option::Some(m2) ==> m2 != solved_board(),
{
    lemma_solved_wf();
    if board_step(solved_board(), d) is Some {
        crate::game::position::lemma_nbr_props(15, d);
        let n = nbr_index(15, d)->0;
        let m2 = board_step(solved_board(), d)->0;
        assert(m2.cells[15] == solved_cells()[n]);
        assert(solved_cells()[n] == (n + 1) as u8);
        assert(solved_cells()[15] == 0);
    }
}

/// The absolute difference of two integers.
pub open spec fn dist(a: int, b: int) -> int {
    if a >= b {
        a - b
    } else {
        b - a
    }
}

/// Manhattan distance from cell index `i` to the home cell of label `v`: the
/// home of label v is row (v-1)/4, column (v-1)%4. Meaningful for v >= 1.
pub open spec fn tile_manhattan(i: int, v: u8) -> int {
    dist(i / 4, (v - 1) / 4) + dist(i % 4, (v - 1) % 4)
}

/// Summed Manhattan distances of the labels in the first `k` cells, the free
/// cell (label 0) contributing nothing.
pub open spec fn score_upto(cells: Seq<u8>, k: int) -> int
    decreases k,
{
    if k <= 0 {
        0
    } else {
        score_upto(cells, k - 1) + if cells[k - 1] == 0 {
            0
        } else {
            tile_manhattan(k - 1, cells[k - 1])
        }
    }
}

/// The heuristic score of a whole board: the sum, over the fifteen tiles, of
/// each tile's Manhattan distance to its home cell.
pub open spec fn board_score(cells: Seq<u8>) -> int {
    score_upto(cells, 16)
}

/// From a state reached by one legal move away from solved, the one and only
/// single-move solution is the opposite of that move.
pub proof fn lemma_one_move_back(d: MoveDirection)
    ensures
        board_step(solved_board(), d) matches Option::Some(m) ==> {
            &&& m != solved_board()
            &&& board_step(m, opposite(d)) == Option::Some(solved_board())
            &&& forall|q: Seq<MoveDirection>|
                q.len() <= 1 && #[trigger] board_steps(m, q) == Option::Some(solved_board())
                    ==> q == seq![opposite(d)]
        },
{
    lemma_solved_wf();
    if board_step(solved_board(), d) is Some {
        lemma_move_unsolves(d);
        lemma_step_undo(solved_board(), d);
        crate::game::position::lemma_nbr_props(15, d);
        let m = board_step(solved_board(), d)->0;
        let n = nbr_index(15, d)->0;
        assert(m.free == n);
        assert forall|q: Seq<MoveDirection>|
            q.len() <= 1 && #[trigger] board_steps(m, q) == Option::Some(solved_board()) implies q
            == seq![opposite(d)] by {
            if q.len() == 0 {
                assert(board_steps(m, q) == Option::Some(m));
            } else {
                assert(board_step(m, q[0]) is Some);
                let t = board_step(m, q[0])->0;
                assert(q.drop_first() =~= Seq::<MoveDirection>::empty());
                assert(board_steps(t, q.drop_first()) == Option::Some(t));
                assert(t == solved_board());
                crate::game::position::lemma_nbr_props(n, q[0]);
                assert(nbr_index(n, q[0]) == Option::Some(15int));
                crate::game::position::lemma_nbr_inj(n, q[0], opposite(d));
                assert(q =~= seq![opposite(d)]);
            }
        }
    }
}

/// A puzzle state: a packed board together with the coordinate of the free
/// cell. Transformations return new values; nothing is mutated in place.
#[derive(Copy, Clone, PartialEq, Eq, Structural)]
pub struct GameState {
    board: BitBoard,
    free_space: Position,
}

impl View for GameState {
    type V = BoardModel;

    closed spec fn view(&self) -> BoardModel {
        BoardModel { cells: self.board@, free: self.free_space.index() }
    }
}

impl GameState {
    /// The state invariant: a well-formed model whose free coordinate lies on
    /// the grid, so the board slot at the free coordinate always holds 0.
    pub closed spec fn wf(&self) -> bool {
        board_wf(self@) && self.free_space.wf()
    }

    /// The canonical solved state, with the free cell at (3, 3).
    pub fn new() -> (s: GameState)
        ensures
            s.wf(),
            s@ == solved_board(),
    {
        let s = GameState { board: BitBoard::new(), free_space: Position::new(3, 3) };
        proof {
            lemma_solved_wf();
            assert(s@ =~= solved_board());
        }
        s
    }

    /// Whether this state is the canonical solved arrangement.
    pub fn is_solved(&self) -> (r: bool)
        requires
            self.wf(),
        ensures
            r <==> self@ == solved_board(),
    {
        let r = self.board.is_solved();
        proof {
            if r {
                assert(solved_cells()[self@.free] == 0);
                assert(solved_cells()[15] == 0);
                if self@.free != 15 {
                    assert(solved_cells()[self@.free] == (self@.free + 1) as u8);
                }
                assert(self@ =~= solved_board());
            }
        }
        r
    }

    /// The packed board word, used by the guided search as a compact visited
    /// key.
    pub(crate) fn board_key(&self) -> u64 {
        self.board.packed()
    }

    /// The coordinate currently holding the free cell.
    pub fn free_position(&self) -> (p: Position)
        requires
            self.wf(),
        ensures
            p.wf(),
            p.index() == self@.free,
    {
        self.free_space
    }

    /// Slide the tile next to the free cell in `move_direction` into the free
    /// cell: the two slots exchange and the free coordinate follows. Returns
    /// `None` when the free cell has no neighbor in that direction; that is an
    /// ordinary outcome, not an error.
    pub fn move_space(&self, move_direction: MoveDirection) -> (r: Option<GameState>)
        requires
            self.wf(),
        ensures
            match r {
                Option::Some(s) => board_step(self@, move_direction) == Option::Some(s@)
                    && s.wf(),
                Option::None => board_step(self@, move_direction) is None,
            },
    {
        match self.free_space.get_neighbor(move_direction) {
            Option::Some(position) => {
                let s = GameState {
                    board: self.board.swap(self.free_space, position),
                    free_space: position,
                };
                proof {
                    lemma_step_wf(self@, move_direction);
                    assert(board_step(self@, move_direction)->0 =~= s@);
                }
                Option::Some(s)
            }
            Option::None => Option::None,
        }
    }

    /// Apply the moves left-to-right, short-circuiting to `None` as soon as a
    /// step is illegal; the empty sequence is a no-op returning this state.
    pub fn move_spaces(&self, move_directions: Vec<MoveDirection>) -> (r: Option<GameState>)
        requires
            self.wf(),
        ensures
            match r {
                Option::Some(s) => board_steps(self@, move_directions@) == Option::Some(s@)
                    && s.wf(),
                Option::None => board_steps(self@, move_directions@) is None,
            },
    {
        let mut state = *self;
        let mut k: usize = 0;
        while k < move_directions.len()
            invariant
                self.wf(),
                state.wf(),
                k <= move_directions@.len(),
                board_steps(self@, move_directions@.take(k as int)) == Option::Some(state@),
            decreases move_directions@.len() - k,
        {
            let d = move_directions[k];
            match state.move_space(d) {
                Option::Some(s2) => {
                    proof {
                        let pre = move_directions@.take(k as int);
                        assert(move_directions@.take(k as int + 1) =~= pre + seq![d]);
                        lemma_steps_app(self@, pre, seq![d]);
                        assert(seq![d].len() == 1 && seq![d][0] == d);
                        assert(seq![d].drop_first() =~= Seq::<MoveDirection>::empty());
                        assert(board_steps(s2@, Seq::<MoveDirection>::empty()) == Option::Some(
                            s2@,
                        ));
                        assert(board_steps(state@, seq![d]) == Option::Some(s2@));
                    }
                    state = s2;
                }
                Option::None => {
                    proof {
                        let pre = move_directions@.take(k as int);
                        let suf = move_directions@.skip(k as int);
                        assert(move_directions@ =~= pre + suf);
                        lemma_steps_app(self@, pre, suf);
                        assert(suf.len() > 0 && suf[0] == move_directions@[k as int]);
                        assert(board_steps(state@, suf) is None);
                    }
                    return Option::None;
                }
            }
            k += 1;
        }
        proof {
            assert(move_directions@.take(move_directions@.len() as int) =~= move_directions@);
        }
        Option::Some(state)
    }

    /// The heuristic score: the sum over the fifteen tiles of the Manhattan
    /// distance from each tile's cell to the home cell its label names. Zero
    /// exactly on boards whose tiles all sit at home.
    pub fn get_score(&self) -> (score: u32)
        requires
            self.wf(),
        ensures
            score == board_score(self@.cells),
    {
        let mut score: u32 = 0;
        let mut row: u8 = 0;
        while row < 4
            invariant
                self.wf(),
                row <= 4,
                score == score_upto(self@.cells, 4 * row as int),
                score <= 24 * row as int,
            decreases 4 - row,
        {
            let mut col: u8 = 0;
            while col < 4
                invariant
                    self.wf(),
                    row <= 3,
                    col <= 4,
                    score == score_upto(self@.cells, 4 * row as int + col as int),
                    score <= 24 * row as int + 6 * col as int,
                decreases 4 - col,
            {
                let ghost idx = 4 * row as int + col as int;
                let p = Position::new(row, col);
                proof {
                    lemma_index_parts(row as int, col as int);
                }
                if p == self.free_space {
                    proof {
                        assert(self@.cells[idx] == 0);
                    }
                } else {
                    proof {
                        if idx == self@.free {
                            lemma_index_parts(self.free_space.row(), self.free_space.col());
                            assert(p.row() == self.free_space.row());
                            assert(p.col() == self.free_space.col());
                            crate::game::position::lemma_position_ext(p, self.free_space);
                        }
                        assert(self@.cells[idx] != self@.cells[self@.free]);
                    }
                    let val = self.board.get(p) - 1;
                    let target_col = val % 4;
                    let target_row = val / 4;
                    proof {
                        assert(val / 4 <= 3 && val % 4 <= 3) by (nonlinear_arith)
                            requires
                                val <= 14,
                        ;
                    }
                    let r_dist = if row >= target_row {
                        (row - target_row) as u32
                    } else {
                        (target_row - row) as u32
                    };
                    let c_dist = if col >= target_col {
                        (col - target_col) as u32
                    } else {
                        (target_col - col) as u32
                    };
                    score = score + r_dist + c_dist;
                }
                proof {
                    assert(score_upto(self@.cells, idx + 1) == score_upto(self@.cells, idx) + (
                    if self@.cells[idx] == 0 {
                        0int
                    } else {
                        tile_manhattan(idx, self@.cells[idx])
                    }));
                }
                col += 1;
            }
            row += 1;
        }
        score
    }
}

} // verus!

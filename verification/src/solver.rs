use vstd::prelude::*;

use crate::game::position::MoveDirection;
use crate::game::position::opposite;
use crate::game::state::GameState;
use crate::game::state::board_step;
use crate::game::state::board_steps;
use crate::game::state::lemma_state_wf;
use crate::game::state::lemma_step_undo;
use crate::game::state::lemma_steps_app;
use crate::game::state::lemma_steps_dims;
use crate::game::state::solved_board;

verus! {

/// The move at index `k` of `ds` does not undo the move before it.
pub open spec fn reversal_free_at(ds: Seq<MoveDirection>, k: int) -> bool {
    ds[k] != opposite(ds[k - 1])
}

/// A path with no immediate reversals: no move is directly followed by its
/// opposite. Both search strategies prune to such paths.
pub open spec fn no_reversals(ds: Seq<MoveDirection>) -> bool {
    forall|k: int| 1 <= k < ds.len() ==> #[trigger] reversal_free_at(ds, k)
}

/// The last move of a path, if any.
pub open spec fn last_of(ds: Seq<MoveDirection>) -> Option<MoveDirection> {
    if ds.len() == 0 {
        Option::None
    } else {
        Option::Some(ds.last())
    }
}

/// `suf` may continue a path whose last move was `last` without creating an
/// immediate reversal, at the seam or inside `suf` itself.
pub open spec fn extends_ok(last: Option<MoveDirection>, suf: Seq<MoveDirection>) -> bool {
    no_reversals(suf) && (last matches Option::Some(l) ==> (suf.len() > 0 ==> suf[0] != opposite(
        l,
    )))
}

/// Index of a direction in the fixed expansion order Left, Right, Up, Down.
pub open spec fn dir_index(d: MoveDirection) -> int {
    match d {
        MoveDirection::Left => 0,
        MoveDirection::Right => 1,
        MoveDirection::Up => 2,
        MoveDirection::Down => 3,
    }
}

/// The `k`-th direction in the fixed expansion order.
fn nth_direction(k: usize) -> (d: MoveDirection)
    requires
        k < 4,
    ensures
        dir_index(d) == k as int,
{
    if k == 0 {
        MoveDirection::Left
    } else if k == 1 {
        MoveDirection::Right
    } else if k == 2 {
        MoveDirection::Up
    } else {
        MoveDirection::Down
    }
}

/// A search node: a puzzle state paired with the ordered moves that reached it
/// from the initial scramble. Successors are built by copying and extending.
pub struct SolverState {
    game: GameState,
    steps: Vec<MoveDirection>,
}

impl SolverState {
    /// The puzzle state this node holds.
    pub closed spec fn game(&self) -> GameState {
        self.game
    }

    /// The path taken to reach this node.
    pub closed spec fn steps(&self) -> Seq<MoveDirection> {
        self.steps@
    }

    pub fn new(game: GameState, steps: Vec<MoveDirection>) -> (s: SolverState)
        ensures
            s.game() == game,
            s.steps() == steps@,
    {
        SolverState { game: game, steps: steps }
    }

    /// Whether the node's state is the canonical solved arrangement.
    pub fn is_solved(&self) -> (r: bool)
        requires
            self.game().wf(),
        ensures
            r <==> self.game()@ == solved_board(),
    {
        self.game.is_solved()
    }

    /// A copy of the node's path extended by one more direction.
    pub fn steps_with(&self, direction: MoveDirection) -> (v: Vec<MoveDirection>)
        ensures
            v@ == self.steps().push(direction),
    {
        let mut vm: Vec<MoveDirection> = Vec::new();
        let mut i: usize = 0;
        while i < self.steps.len()
            invariant
                i <= self.steps@.len(),
                vm@ == self.steps@.take(i as int),
            decreases self.steps@.len() - i,
        {
            vm.push(self.steps[i]);
            proof {
                assert(vm@ =~= self.steps@.take(i as int + 1));
            }
            i += 1;
        }
        proof {
            assert(self.steps@.take(self.steps@.len() as int) =~= self.steps@);
        }
        vm.push(direction);
        vm
    }

    /// Whether taking `direction` now would exactly undo the node's last move.
    pub fn should_skip(&self, direction: MoveDirection) -> (r: bool)
        ensures
            r <==> (self.steps().len() > 0 && direction == opposite(self.steps().last())),
    {
        if self.steps.len() == 0 {
            false
        } else {
            let last = self.steps[self.steps.len() - 1];
            match (direction, last) {
                (MoveDirection::Left, MoveDirection::Right) => true,
                (MoveDirection::Right, MoveDirection::Left) => true,
                (MoveDirection::Up, MoveDirection::Down) => true,
                (MoveDirection::Down, MoveDirection::Up) => true,
                _ => false,
            }
        }
    }
}

/// Directions with the same expansion index are the same direction.
proof fn lemma_dir_index_inj(a: MoveDirection, b: MoveDirection)
    requires
        dir_index(a) == dir_index(b),
    ensures
        a == b,
{
}

/// A found path of the recursive search, rebased from the child node (path
/// `prefix.push(m)`) to the parent node (path `prefix`): the parent's
/// continuation is one move longer, still reversal-free, and still solving.
proof fn lemma_dfs_found(
    prefix: Seq<MoveDirection>,
    m: MoveDirection,
    p: Seq<MoveDirection>,
    g: crate::game::state::BoardModel,
    gs: crate::game::state::BoardModel,
    depth: int,
)
    requires
        depth >= 1,
        board_step(g, m) == Option::Some(gs),
        prefix.len() > 0 ==> m != opposite(prefix.last()),
        p.len() == prefix.len() + depth,
        p.take(prefix.len() as int + 1) == prefix.push(m),
        extends_ok(last_of(prefix.push(m)), p.skip(prefix.len() as int + 1)),
        board_steps(gs, p.skip(prefix.len() as int + 1)) == Option::Some(solved_board()),
    ensures
        p.take(prefix.len() as int) == prefix,
        extends_ok(last_of(prefix), p.skip(prefix.len() as int)),
        board_steps(g, p.skip(prefix.len() as int)) == Option::Some(solved_board()),
{
    let n = prefix.len() as int;
    let ext = prefix.push(m);
    assert(p.take(n) =~= p.take(n + 1).take(n));
    assert(ext.take(n) =~= prefix);
    let s = p.skip(n);
    let cs = p.skip(n + 1);
    assert(p[n] == ext[n]) by {
        assert(p.take(n + 1)[n] == p[n]);
    }
    assert(s =~= seq![m] + cs);
    lemma_steps_app(g, seq![m], cs);
    assert(seq![m].len() == 1 && seq![m][0] == m);
    assert(seq![m].drop_first() =~= Seq::<MoveDirection>::empty());
    assert(board_steps(gs, Seq::<MoveDirection>::empty()) == Option::Some(gs));
    assert(board_steps(g, seq![m]) == Option::Some(gs));
    assert(board_steps(g, s) == Option::Some(solved_board()));
    assert(ext.last() == m);
    assert forall|t: int| 1 <= t < s.len() implies #[trigger] reversal_free_at(s, t) by {
        if t == 1 {
            assert(s[1] == cs[0]);
            assert(s[0] == m);
        } else {
            assert(reversal_free_at(cs, t - 1));
            assert(s[t] == cs[t - 1]);
            assert(s[t - 1] == cs[t - 2]);
        }
    }
    assert(s[0] == m);
}

/// Completeness transfer for one legal move `m`: if no reversal-free
/// continuation of length `depth - 1` solves the successor, then no
/// continuation of length `depth` that starts with `m` solves the parent.
proof fn lemma_dfs_none_step(
    prefix: Seq<MoveDirection>,
    m: MoveDirection,
    g: crate::game::state::BoardModel,
    gs: crate::game::state::BoardModel,
    depth: int,
)
    requires
        depth >= 1,
        board_step(g, m) == Option::Some(gs),
        forall|suf2: Seq<MoveDirection>|
            suf2.len() == depth - 1 && extends_ok(last_of(prefix.push(m)), suf2)
                ==> #[trigger] board_steps(gs, suf2) != Option::Some(solved_board()),
    ensures
        forall|suf: Seq<MoveDirection>|
            suf.len() == depth && extends_ok(last_of(prefix), suf) && suf[0] == m
                ==> #[trigger] board_steps(g, suf) != Option::Some(solved_board()),
{
    assert(prefix.push(m).last() == m);
    assert forall|suf: Seq<MoveDirection>|
        suf.len() == depth && extends_ok(last_of(prefix), suf) && suf[0] == m implies #[trigger] board_steps(
        g,
        suf,
    ) != Option::Some(solved_board()) by {
        let suf2 = suf.drop_first();
        assert(board_steps(g, suf) == board_steps(gs, suf2));
        assert forall|t: int| 1 <= t < suf2.len() implies #[trigger] reversal_free_at(
            suf2,
            t,
        ) by {
            assert(reversal_free_at(suf, t + 1));
            assert(suf2[t] == suf[t + 1]);
            assert(suf2[t - 1] == suf[t]);
        }
        if suf2.len() > 0 {
            assert(reversal_free_at(suf, 1));
            assert(suf2[0] == suf[1]);
        }
        assert(extends_ok(Option::Some(m), suf2));
        assert(board_steps(gs, suf2) != Option::Some(solved_board()));
    }
}

/// Depth-limited exhaustive search. Succeeds exactly when some continuation of
/// the node's path, exactly `depth` moves long and free of immediate reversals
/// (also at the seam with the node's last move), reaches the solved state; the
/// returned path is the node's path plus such a continuation, the first one in
/// the fixed direction order Left, Right, Up, Down.
#[verifier::rlimit(100)]
pub fn depth_limited_dfs(state: SolverState, depth: u64) -> (r: Option<Vec<MoveDirection>>)
    requires
        state.game().wf(),
    ensures
        (match r {
            Option::Some(p) => {
                &&& p@.len() == state.steps().len() + depth
                &&& p@.take(state.steps().len() as int) == state.steps()
                &&& extends_ok(last_of(state.steps()), p@.skip(state.steps().len() as int))
                &&& board_steps(state.game()@, p@.skip(state.steps().len() as int))
                    == Option::Some(solved_board())
            },
            Option::None => forall|suf: Seq<MoveDirection>|
                suf.len() == depth as int && extends_ok(last_of(state.steps()), suf)
                    ==> #[trigger] board_steps(state.game()@, suf) != Option::Some(solved_board()),
        }),
    decreases depth,
{
    let ghost g = state.game()@;
    let ghost lastm = last_of(state.steps());
    let ghost n = state.steps().len() as int;
    if depth == 0 {
        if state.is_solved() {
            proof {
                assert(state.steps().take(n) =~= state.steps());
                assert(state.steps().skip(n) =~= Seq::<MoveDirection>::empty());
                assert(board_steps(g, state.steps().skip(n)) == Option::Some(g));
            }
            Option::Some(state.steps)
        } else {
            proof {
                assert forall|suf: Seq<MoveDirection>|
                    suf.len() == 0 && extends_ok(lastm, suf) implies #[trigger] board_steps(
                    g,
                    suf,
                ) != Option::Some(solved_board()) by {
                    assert(board_steps(g, suf) == Option::Some(g));
                }
            }
            Option::None
        }
    } else {
        let mut k: usize = 0;
        while k < 4
            invariant
                state.game().wf(),
                k <= 4,
                depth >= 1,
                g == state.game()@,
                lastm == last_of(state.steps()),
                n == state.steps().len() as int,
                forall|suf: Seq<MoveDirection>|
                    suf.len() == depth as int && extends_ok(lastm, suf) && dir_index(suf[0])
                        < k as int ==> #[trigger] board_steps(g, suf) != Option::Some(
                        solved_board(),
                    ),
            decreases 4 - k,
        {
            let m = nth_direction(k);
            if !state.should_skip(m) {
                match state.game.move_space(m) {
                    Option::Some(gs) => {
                        let child = SolverState::new(gs, state.steps_with(m));
                        match depth_limited_dfs(child, depth - 1) {
                            Option::Some(steps) => {
                                proof {
                                    lemma_dfs_found(
                                        state.steps(),
                                        m,
                                        steps@,
                                        g,
                                        gs@,
                                        depth as int,
                                    );
                                }
                                return Option::Some(steps);
                            }
                            Option::None => {
                                proof {
                                    lemma_dfs_none_step(state.steps(), m, g, gs@, depth as int);
                                    assert forall|suf: Seq<MoveDirection>|
                                        suf.len() == depth as int && extends_ok(lastm, suf)
                                            && dir_index(suf[0]) == k as int implies #[trigger] board_steps(
                                        g,
                                        suf,
                                    ) != Option::Some(solved_board()) by {
                                        lemma_dir_index_inj(suf[0], m);
                                    }
                                }
                            }
                        }
                    }
                    Option::None => {
                        proof {
                            assert forall|suf: Seq<MoveDirection>|
                                suf.len() == depth as int && extends_ok(lastm, suf) && dir_index(
                                    suf[0],
                                ) == k as int implies #[trigger] board_steps(g, suf)
                                != Option::Some(solved_board()) by {
                                lemma_dir_index_inj(suf[0], m);
                                assert(board_steps(g, suf) is None);
                            }
                        }
                    }
                }
            } else {
                proof {
                    assert forall|suf: Seq<MoveDirection>|
                        suf.len() == depth as int && extends_ok(lastm, suf) && dir_index(suf[0])
                            == k as int implies #[trigger] board_steps(g, suf) != Option::Some(
                        solved_board(),
                    ) by {
                        lemma_dir_index_inj(suf[0], m);
                        assert(suf[0] == opposite(state.steps().last()));
                        assert(false);
                    }
                }
            }
            k += 1;
        }
        proof {
            assert forall|suf: Seq<MoveDirection>|
                suf.len() == depth as int && extends_ok(lastm, suf) implies #[trigger] board_steps(
                g,
                suf,
            ) != Option::Some(solved_board()) by {
                assert(0 <= dir_index(suf[0]) < 4);
            }
        }
        Option::None
    }
}

/// Any legal path can be shortened to a reversal-free path with the same
/// endpoint: a move followed by its opposite cancels out.
pub proof fn lemma_prune_path(m: crate::game::state::BoardModel, q: Seq<MoveDirection>) -> (q2:
    Seq<MoveDirection>)
    requires
        m.cells.len() == 16,
        0 <= m.free < 16,
        board_steps(m, q) is Some,
    ensures
        q2.len() <= q.len(),
        no_reversals(q2),
        board_steps(m, q2) == board_steps(m, q),
    decreases q.len(),
{
    if no_reversals(q) {
        q
    } else {
        let k = choose|k: int| 1 <= k < q.len() && !reversal_free_at(q, k);
        assert(1 <= k < q.len() && !reversal_free_at(q, k));
        let a = q.take(k - 1);
        let mid = seq![q[k - 1], q[k]];
        let rest = q.skip(k + 1);
        assert(q =~= a + (mid + rest));
        lemma_steps_app(m, a, mid + rest);
        let m1 = board_steps(m, a)->0;
        lemma_steps_dims(m, a);
        lemma_steps_app(m1, mid, rest);
        // two steps through `mid` return to m1
        assert(mid.len() == 2 && mid[0] == q[k - 1] && mid[1] == q[k]);
        assert(mid.drop_first() =~= seq![q[k]]);
        assert(seq![q[k]].drop_first() =~= Seq::<MoveDirection>::empty());
        assert(board_step(m1, q[k - 1]) is Some);
        lemma_step_undo(m1, q[k - 1]);
        let m2 = board_step(m1, q[k - 1])->0;
        assert(q[k] == opposite(q[k - 1]));
        assert(board_step(m2, q[k]) == Option::Some(m1));
        assert(board_steps(m1, Seq::<MoveDirection>::empty()) == Option::Some(m1));
        assert(board_steps(m2, seq![q[k]]) == board_steps(m1, Seq::<MoveDirection>::empty()));
        assert(board_steps(m1, mid) == board_steps(m2, seq![q[k]]));
        assert(board_steps(m1, mid) == Option::Some(m1));
        let q1 = a + rest;
        lemma_steps_app(m, a, rest);
        assert(board_steps(m, q1) == board_steps(m, q));
        assert(q1.len() == q.len() - 2);
        let q2 = lemma_prune_path(m, q1);
        q2
    }
}

/// Iterative-deepening exhaustive search: try depth bounds 0, 1, 2, ... up to
/// `max_depth`. The first path found is a true minimal-length solution; `None`
/// means no move sequence of length at most `max_depth` solves the state.
pub fn solve_idfs(state: GameState, max_depth: u64) -> (r: Option<Vec<MoveDirection>>)
    requires
        state.wf(),
    ensures
        (match r {
            Option::Some(p) => {
                &&& board_steps(state@, p@) == Option::Some(solved_board())
                &&& no_reversals(p@)
                &&& forall|q: Seq<MoveDirection>|
                    q.len() < p@.len() ==> #[trigger] board_steps(state@, q) != Option::Some(
                        solved_board(),
                    )
            },
            Option::None => forall|q: Seq<MoveDirection>|
                q.len() <= max_depth as int ==> #[trigger] board_steps(state@, q)
                    != Option::Some(solved_board()),
        }),
        state@ == solved_board() ==> (r matches Option::Some(p) && p@.len() == 0),
{
    let mut depth: u64 = 0;
    loop
        invariant
            state.wf(),
            depth <= max_depth,
            forall|q: Seq<MoveDirection>|
                q.len() < depth as int && no_reversals(q) ==> #[trigger] board_steps(state@, q)
                    != Option::Some(solved_board()),
            state@ == solved_board() ==> depth == 0,
        decreases max_depth - depth,
    {
        let node = SolverState::new(state, Vec::new());
        match depth_limited_dfs(node, depth) {
            Option::Some(p) => {
                proof {
                    assert(node.steps().len() == 0);
                    assert(p@.skip(0) =~= p@);
                    assert forall|q: Seq<MoveDirection>| q.len() < p@.len() implies #[trigger] board_steps(
                        state@,
                        q,
                    ) != Option::Some(solved_board()) by {
                        if board_steps(state@, q) == Option::Some(solved_board()) {
                            lemma_state_wf(state);
                            let q2 = lemma_prune_path(state@, q);
                            assert(board_steps(state@, q2) != Option::Some(solved_board()));
                        }
                    }
                }
                return Option::Some(p);
            }
            Option::None => {
                proof {
                    assert forall|q: Seq<MoveDirection>|
                        q.len() < depth as int + 1 && no_reversals(q) implies #[trigger] board_steps(
                        state@,
                        q,
                    ) != Option::Some(solved_board()) by {
                        if q.len() == depth as int {
                            assert(extends_ok(last_of(node.steps()), q));
                            assert(board_steps(node.game()@, q) != Option::Some(solved_board()));
                        }
                    }
                    assert(board_steps(state@, Seq::<MoveDirection>::empty()) == Option::Some(
                        state@,
                    ));
                    assert(state@ != solved_board());
                }
                if depth == max_depth {
                    proof {
                        assert forall|q: Seq<MoveDirection>| q.len() <= max_depth as int implies #[trigger] board_steps(
                            state@,
                            q,
                        ) != Option::Some(solved_board()) by {
                            if board_steps(state@, q) == Option::Some(solved_board()) {
                                lemma_state_wf(state);
                                let q2 = lemma_prune_path(state@, q);
                                assert(board_steps(state@, q2) != Option::Some(solved_board()));
                            }
                        }
                    }
                    return Option::None;
                }
                depth = depth + 1;
            }
        }
    }
}

/// Whether `key` already occurs among the visited board keys.
fn contains_key(keys: &Vec<u64>, key: u64) -> (r: bool) {
    let mut i: usize = 0;
    while i < keys.len()
        invariant
            i <= keys@.len(),
        decreases keys@.len() - i,
    {
        if keys[i] == key {
            return true;
        }
        i += 1;
    }
    false
}

/// Heuristic-guided best-first search: repeatedly expand the queued node with
/// the lowest heuristic score, skipping already-expanded boards (deduplication
/// happens at expansion time, when a board enters the visited set). Any path
/// returned solves the state, but it need not be a shortest one; `None` means
/// the queue emptied or the iteration budget ran out first.
pub fn solve_guided(state: GameState, max_iterations: u64) -> (r: Option<Vec<MoveDirection>>)
    requires
        state.wf(),
    ensures
        r matches Option::Some(p) ==> board_steps(state@, p@) == Option::Some(solved_board()),
        state@ == solved_board() ==> (r matches Option::Some(p) && p@.len() == 0),
{
    if state.is_solved() {
        let empty_path: Vec<MoveDirection> = Vec::new();
        proof {
            assert(board_steps(state@, Seq::<MoveDirection>::empty()) == Option::Some(state@));
        }
        return Option::Some(empty_path);
    }
    let mut heap: Vec<SolverState> = Vec::new();
    heap.push(SolverState::new(state, Vec::new()));
    proof {
        assert(board_steps(state@, Seq::<MoveDirection>::empty()) == Option::Some(state@));
    }
    let mut visited: Vec<u64> = Vec::new();
    visited.push(state.board_key());
    let mut iter: u64 = 0;
    while iter < max_iterations
        invariant
            state.wf(),
            state@ != solved_board(),
            forall|i: int|
                0 <= i < heap@.len() ==> ((#[trigger] heap@[i]).game().wf() && board_steps(
                    state@,
                    heap@[i].steps(),
                ) == Option::Some(heap@[i].game()@)),
        decreases max_iterations - iter,
    {
        if heap.len() == 0 {
            return Option::None;
        }
        let mut best: usize = 0;
        let mut j: usize = 1;
        while j < heap.len()
            invariant
                best < heap@.len(),
                j <= heap@.len(),
                heap@.len() > 0,
                forall|i: int| 0 <= i < heap@.len() ==> (#[trigger] heap@[i]).game().wf(),
            decreases heap@.len() - j,
        {
            let challenger = &heap[j];
            let leader = &heap[best];
            if challenger.game.get_score() < leader.game.get_score() {
                best = j;
            }
            j += 1;
        }
        let ghost old_heap = heap@;
        let current = heap.swap_remove(best);
        proof {
            assert forall|i: int|
                0 <= i < heap@.len() implies ((#[trigger] heap@[i]).game().wf() && board_steps(
                state@,
                heap@[i].steps(),
            ) == Option::Some(heap@[i].game()@)) by {
                if i == best as int {
                    assert(heap@[i] == old_heap.last());
                } else {
                    assert(heap@[i] == old_heap[i]);
                }
            }
        }
        if current.game.is_solved() {
            return Option::Some(current.steps);
        }
        let mut k: usize = 0;
        while k < 4
            invariant
                state.wf(),
                current.game().wf(),
                board_steps(state@, current.steps()) == Option::Some(current.game()@),
                forall|i: int|
                    0 <= i < heap@.len() ==> ((#[trigger] heap@[i]).game().wf() && board_steps(
                        state@,
                        heap@[i].steps(),
                    ) == Option::Some(heap@[i].game()@)),
            decreases 4 - k,
        {
            let m = nth_direction(k);
            if !current.should_skip(m) {
                match current.game.move_space(m) {
                    Option::Some(g) => {
                        if !contains_key(&visited, g.board_key()) {
                            let child_steps = current.steps_with(m);
                            proof {
                                lemma_steps_app(state@, current.steps(), seq![m]);
                                assert(current.steps().push(m) =~= current.steps() + seq![m]);
                                assert(seq![m].len() == 1 && seq![m][0] == m);
                                assert(seq![m].drop_first() =~= Seq::<MoveDirection>::empty());
                                assert(board_steps(g@, Seq::<MoveDirection>::empty())
                                    == Option::Some(g@));
                                assert(board_steps(current.game()@, seq![m]) == Option::Some(g@));
                            }
                            heap.push(SolverState::new(g, child_steps));
                        }
                    }
                    Option::None => {
                    }
                }
            }
            k += 1;
        }
        visited.push(current.game.board_key());
        iter += 1;
    }
    Option::None
}

} // verus!

//! The search for a shortest path that collects the stars.

use std::collections::HashMap;
use std::collections::VecDeque;
use vstd::prelude::*;
use vstd::set_lib::{lemma_int_range, lemma_len_subset, set_int_range};
use crate::chess::{
    at, cells_of, is_unsupported, legal, lemma_cells_of, moved, on_board, LiBoard, MovePiece,
    BISHOP_BLACK, BISHOP_WHITE, KNIGHT_BLACK, KNIGHT_WHITE, QUEEN_BLACK, QUEEN_WHITE, ROOK_BLACK,
    ROOK_WHITE, STAR_VALUE,
};
use crate::key::{board_key, key_of, lemma_key_bound, lemma_same_key, KEY_LIMIT};
use crate::path::{path_new, path_push_back, SolutionPath};
use crate::search::{after, captures, lemma_playable_keeps, stands};

verus! {

broadcast use vstd::std_specs::hash::group_hash_axioms;

/// The greatest number of moves that the search follows a path for: one less
/// than the count that stands for "no solution".
pub const DEPTH_LIMIT: i8 = 126;

/// Why a search gave no path.
#[derive(Debug, Clone, Copy)]
pub enum SearchError {
    /// `main_piece` names no square of the board.
    OffBoard,
    /// On the square of the player's piece stands a pawn, a king, a star, or
    /// a number that names nothing.
    UnsupportedPiece,
    /// No path of at most `DEPTH_LIMIT` moves collects the stars.
    NoSolution,
}

/// A position that waits to be looked at: the board, where the piece stands,
/// the path that led here, its length, and the stars it collected.
struct SearchState {
    stars: i8,
    moves: i8,
    board: [[i8; 8]; 8],
    row: usize,
    col: usize,
    path: SolutionPath,
}

/// The move of the piece of `x` to the square with index `d`.
spec fn fan(x: SearchState, d: int) -> MovePiece {
    MovePiece { i: x.row, j: x.col, goal_i: (d / 8) as usize, goal_j: (d % 8) as usize }
}

/// Every entry is at depth `d` or `d + 1`, the shallower ones first.
spec fn levels(queue: Seq<SearchState>, d: int) -> bool {
    &&& forall|j: int| 0 <= j < queue.len() ==> d <= (#[trigger] queue[j]).moves <= d + 1
    &&& forall|i: int, j: int|
        0 <= i <= j < queue.len() ==> (#[trigger] queue[i]).moves <= (#[trigger] queue[j]).moves
}

/// The position with this key was seen.
spec fn knows(seen: Map<u128, i8>, key: int) -> bool {
    0 <= key < KEY_LIMIT && seen.contains_key(key as u128)
}

/// The depth at which the position with this key was first seen.
spec fn label(seen: Map<u128, i8>, key: int) -> int {
    seen[key as u128] as int
}

impl LiBoard {
    /// No solution has fewer than `n` moves.
    pub open spec fn none_shorter(&self, n: int) -> bool {
        forall|p: Seq<MovePiece>| #[trigger] self.solved_by(p) ==> p.len() >= n
    }

    /// The key of the position that `p` leads to.
    spec fn key_after(&self, p: Seq<MovePiece>) -> int {
        key_of(after(self.cells(), p), stands(self.start(), p))
    }

    /// The entry is what its path says.
    spec fn holds(&self, st: SearchState) -> bool {
        let p = st.path@;
        &&& self.follows(p)
        &&& cells_of(st.board) == after(self.cells(), p)
        &&& (st.row as int, st.col as int) == stands(self.start(), p)
        &&& st.moves == p.len()
        &&& st.moves <= DEPTH_LIMIT
        &&& st.stars == captures(self.cells(), p)
    }

    /// Every entry of the queue is what its path says.
    spec fn entries_hold(&self, queue: Seq<SearchState>) -> bool {
        forall|j: int| 0 <= j < queue.len() ==> self.holds(#[trigger] queue[j])
    }

    /// The position with this key waits in the queue, at depth `bound` or
    /// less.
    spec fn queued(&self, queue: Seq<SearchState>, key: int, bound: int) -> bool {
        exists|j: int|
            0 <= j < queue.len() && self.key_after((#[trigger] queue[j]).path@) == key
                && queue[j].moves <= bound
    }

    /// A position that was seen has no shorter path than its label says, and
    /// it is no goal.
    spec fn labels_ok(&self, seen: Map<u128, i8>) -> bool {
        forall|p: Seq<MovePiece>|
            #![trigger self.follows(p)]
            self.follows(p) && knows(seen, self.key_after(p)) ==> {
                &&& label(seen, self.key_after(p)) <= p.len()
                &&& captures(self.cells(), p) != self.num_star_cnt
            }
    }

    /// Whatever can be reached in one move from a position that was seen, but
    /// for the position with the key `skip`, was seen too or waits in the
    /// queue.
    spec fn grown(&self, seen: Map<u128, i8>, queue: Seq<SearchState>, skip: int) -> bool {
        forall|p: Seq<MovePiece>|
            #![trigger self.follows(p)]
            {
                &&& self.follows(p)
                &&& p.len() >= 1
                &&& knows(seen, self.key_after(p.drop_last()))
                &&& self.key_after(p.drop_last()) != skip
                &&& label(seen, self.key_after(p.drop_last())) < DEPTH_LIMIT
            } ==> {
                ||| knows(seen, self.key_after(p))
                ||| self.queued(
                    queue,
                    self.key_after(p),
                    label(seen, self.key_after(p.drop_last())) + 1,
                )
            }
    }

    /// The start was seen, or waits at the front.
    spec fn begun(&self, seen: Map<u128, i8>, queue: Seq<SearchState>) -> bool {
        ||| knows(seen, self.key_after(Seq::empty()))
        ||| (queue.len() > 0 && queue[0].path@.len() == 0)
    }

    /// What holds between two rounds of the search.
    spec fn between(&self, seen: Map<u128, i8>, queue: Seq<SearchState>) -> bool {
        &&& self.searchable()
        &&& self.entries_hold(queue)
        &&& queue.len() > 0 ==> levels(queue, queue[0].moves as int)
        &&& self.labels_ok(seen)
        &&& self.grown(seen, queue, -1)
        &&& self.begun(seen, queue)
    }

    /// The first `done` squares were tried as goals of a move from `x`.
    spec fn fanned(&self, queue: Seq<SearchState>, x: SearchState, done: int) -> bool {
        forall|d: int|
            #![trigger fan(x, d)]
            0 <= d < done && legal(cells_of(x.board), fan(x, d)) ==> self.queued(
                queue,
                key_of(moved(cells_of(x.board), fan(x, d)), (d / 8, d % 8)),
                x.moves + 1,
            )
    }

    /// What holds while the moves from `x` are tried.
    spec fn within(
        &self,
        seen: Map<u128, i8>,
        queue: Seq<SearchState>,
        x: SearchState,
        done: int,
    ) -> bool {
        &&& self.searchable()
        &&& self.holds(x)
        &&& self.entries_hold(queue)
        &&& levels(queue, x.moves as int)
        &&& self.labels_ok(seen)
        &&& self.grown(seen, queue, self.key_after(x.path@))
        &&& knows(seen, self.key_after(Seq::empty()))
        &&& knows(seen, self.key_after(x.path@))
        &&& label(seen, self.key_after(x.path@)) == x.moves
        &&& self.fanned(queue, x, done)
    }

    /// The position that a path leads to has a key below `KEY_LIMIT`.
    proof fn lemma_key_in_range(&self, p: Seq<MovePiece>)
        requires
            self.searchable(),
            self.follows(p),
        ensures
            0 <= self.key_after(p) < KEY_LIMIT,
            after(self.cells(), p).len() == 64,
    {
        lemma_cells_of(self.board, 0, 0);
        lemma_playable_keeps(self.cells(), self.start(), p);
        lemma_key_bound(after(self.cells(), p), stands(self.start(), p));
    }

    /// A position that was not seen yet is no nearer than the front of the
    /// queue.
    proof fn lemma_front_is_nearest(
        &self,
        seen: Map<u128, i8>,
        queue: Seq<SearchState>,
        p: Seq<MovePiece>,
    )
        requires
            self.between(seen, queue),
            queue.len() > 0,
            self.follows(p),
            !knows(seen, self.key_after(p)),
        ensures
            p.len() >= queue[0].moves,
        decreases p.len(),
    {
        if p.len() == 0 {
            assert(p =~= Seq::empty());
            assert(self.holds(queue[0]));
        } else {
            let before = p.drop_last();
            assert(self.follows(before));
            if knows(seen, self.key_after(before)) {
                let l = label(seen, self.key_after(before));
                assert(l <= before.len());
                assert(self.holds(queue[0]));
                if l < DEPTH_LIMIT {
                    assert(self.queued(queue, self.key_after(p), l + 1));
                    let j = choose|j: int|
                        0 <= j < queue.len() && self.key_after((#[trigger] queue[j]).path@)
                            == self.key_after(p) && queue[j].moves <= l + 1;
                    assert(queue[0].moves <= queue[j].moves);
                }
            } else {
                self.lemma_front_is_nearest(seen, queue, before);
            }
        }
    }

    /// The front of the queue was seen before: it is dropped.
    proof fn lemma_skip(&self, seen: Map<u128, i8>, queue: Seq<SearchState>)
        requires
            self.between(seen, queue),
            queue.len() > 0,
            knows(seen, self.key_after(queue[0].path@)),
        ensures
            self.between(seen, queue.subrange(1, queue.len() as int)),
    {
        let rest = queue.subrange(1, queue.len() as int);
        assert forall|j: int| 0 <= j < rest.len() implies self.holds(#[trigger] rest[j]) by {
            assert(rest[j] == queue[j + 1]);
        }
        if rest.len() > 0 {
            assert(rest[0] == queue[1]);
            assert forall|j: int| 0 <= j < rest.len() implies rest[0].moves <= (
            #[trigger] rest[j]).moves <= rest[0].moves + 1 by {
                assert(rest[j] == queue[j + 1]);
            }
            assert forall|i: int, j: int| 0 <= i <= j < rest.len() implies (
            #[trigger] rest[i]).moves <= (#[trigger] rest[j]).moves by {
                assert(rest[i] == queue[i + 1]);
                assert(rest[j] == queue[j + 1]);
            }
        }
        if !knows(seen, self.key_after(Seq::empty())) {
            assert(queue[0].path@ =~= Seq::<MovePiece>::empty());
        }
        self.lemma_grown_rest(seen, seen, queue, -1);
    }

    /// What was owed by the whole queue is owed by the queue without its
    /// front, once the front's position is among those seen.
    proof fn lemma_grown_rest(
        &self,
        seen: Map<u128, i8>,
        wider: Map<u128, i8>,
        queue: Seq<SearchState>,
        skip: int,
    )
        requires
            self.grown(seen, queue, -1),
            queue.len() > 0,
            knows(wider, self.key_after(queue[0].path@)),
            forall|k: int| knows(seen, k) ==> knows(wider, k) && label(wider, k) == label(seen, k),
            forall|k: int| knows(wider, k) && k != skip ==> knows(seen, k),
        ensures
            self.grown(wider, queue.subrange(1, queue.len() as int), skip),
    {
        let rest = queue.subrange(1, queue.len() as int);
        assert forall|p: Seq<MovePiece>|
            #![trigger self.follows(p)]
            {
                &&& self.follows(p)
                &&& p.len() >= 1
                &&& knows(wider, self.key_after(p.drop_last()))
                &&& self.key_after(p.drop_last()) != skip
                &&& label(wider, self.key_after(p.drop_last())) < DEPTH_LIMIT
            } implies {
            ||| knows(wider, self.key_after(p))
            ||| self.queued(
                rest,
                self.key_after(p),
                label(wider, self.key_after(p.drop_last())) + 1,
            )
        } by {
            let parent = self.key_after(p.drop_last());
            assert(knows(seen, parent));
            if !knows(seen, self.key_after(p)) {
                let bound = label(seen, parent) + 1;
                assert(self.queued(queue, self.key_after(p), bound));
                let j = choose|j: int|
                    0 <= j < queue.len() && self.key_after((#[trigger] queue[j]).path@)
                        == self.key_after(p) && queue[j].moves <= bound;
                if j > 0 {
                    assert(rest[j - 1] == queue[j]);
                    assert(self.queued(rest, self.key_after(p), bound));
                }
            }
        }
    }

    /// The front of the queue is a goal that was not seen before: its path
    /// is a solution, and no solution is shorter.
    proof fn lemma_goal(&self, seen: Map<u128, i8>, queue: Seq<SearchState>)
        requires
            self.between(seen, queue),
            queue.len() > 0,
            queue[0].stars == self.num_star_cnt,
        ensures
            self.solved_by(queue[0].path@),
            queue[0].path@.len() == queue[0].moves,
            self.none_shorter(queue[0].moves as int),
    {
        assert(self.holds(queue[0]));
        assert forall|p: Seq<MovePiece>| #[trigger] self.solved_by(p) implies p.len()
            >= queue[0].moves by {
            assert(self.follows(p));
            self.lemma_front_is_nearest(seen, queue, p);
        }
    }

    /// The front of the queue is new and no goal: it joins those seen, and
    /// the moves from it are to be tried.
    proof fn lemma_visit(&self, seen: Map<u128, i8>, queue: Seq<SearchState>)
        requires
            self.between(seen, queue),
            queue.len() > 0,
            !knows(seen, self.key_after(queue[0].path@)),
            queue[0].stars != self.num_star_cnt,
        ensures
            0 <= self.key_after(queue[0].path@) < KEY_LIMIT,
            self.within(
                seen.insert(self.key_after(queue[0].path@) as u128, queue[0].moves),
                queue.subrange(1, queue.len() as int),
                queue[0],
                0,
            ),
    {
        let x = queue[0];
        let key = self.key_after(x.path@);
        let wider = seen.insert(key as u128, x.moves);
        let rest = queue.subrange(1, queue.len() as int);
        assert(self.holds(x));
        self.lemma_key_in_range(x.path@);
        assert forall|j: int| 0 <= j < rest.len() implies self.holds(#[trigger] rest[j]) by {
            assert(rest[j] == queue[j + 1]);
        }
        assert forall|j: int| 0 <= j < rest.len() implies x.moves <= (#[trigger] rest[j]).moves
            <= x.moves + 1 by {
            assert(rest[j] == queue[j + 1]);
        }
        assert forall|i: int, j: int| 0 <= i <= j < rest.len() implies (#[trigger] rest[i]).moves
            <= (#[trigger] rest[j]).moves by {
            assert(rest[i] == queue[i + 1]);
            assert(rest[j] == queue[j + 1]);
        }
        assert forall|p: Seq<MovePiece>|
            #![trigger self.follows(p)]
            self.follows(p) && knows(wider, self.key_after(p)) implies {
            &&& label(wider, self.key_after(p)) <= p.len()
            &&& captures(self.cells(), p) != self.num_star_cnt
        } by {
            if self.key_after(p) == key {
                self.lemma_front_is_nearest(seen, queue, p);
                lemma_cells_of(self.board, 0, 0);
                lemma_same_key(self.cells(), self.start(), p, x.path@);
            } else {
                assert(knows(seen, self.key_after(p)));
            }
        }
        if !knows(seen, self.key_after(Seq::empty())) {
            assert(x.path@ =~= Seq::<MovePiece>::empty());
        }
        assert forall|k: int| knows(seen, k) implies knows(wider, k) && label(wider, k) == label(
            seen,
            k,
        ) by {
            assert(k as u128 != key as u128);
        }
        assert forall|k: int| knows(wider, k) && k != key implies knows(seen, k) by {
            assert(k as u128 != key as u128);
        }
        self.lemma_grown_rest(seen, wider, queue, key);
    }

    /// A move from `x` to the next square is legal, and the position it leads
    /// to joins the queue.
    proof fn lemma_push(
        &self,
        seen: Map<u128, i8>,
        queue: Seq<SearchState>,
        x: SearchState,
        done: int,
        e: SearchState,
    )
        requires
            self.within(seen, queue, x, done),
            0 <= done < 64,
            x.moves < DEPTH_LIMIT,
            legal(cells_of(x.board), fan(x, done)),
            e.path@ == x.path@.push(fan(x, done)),
            cells_of(e.board) == moved(cells_of(x.board), fan(x, done)),
            e.row == done / 8,
            e.col == done % 8,
            e.moves == x.moves + 1,
            e.stars == x.stars + if at(cells_of(x.board), done / 8, done % 8) == STAR_VALUE {
                1int
            } else {
                0int
            },
        ensures
            self.within(seen, queue.push(e), x, done + 1),
    {
        let m = fan(x, done);
        let longer = queue.push(e);
        let p = e.path@;
        assert(p.drop_last() =~= x.path@);
        assert(p.last() == m);
        assert(self.holds(e));
        assert forall|j: int| 0 <= j < longer.len() implies self.holds(#[trigger] longer[j]) by {
            if j < queue.len() {
                assert(longer[j] == queue[j]);
            }
        }
        assert forall|j: int| 0 <= j < longer.len() implies x.moves <= (
        #[trigger] longer[j]).moves <= x.moves + 1 by {
            if j < queue.len() {
                assert(longer[j] == queue[j]);
            }
        }
        assert forall|i: int, j: int| 0 <= i <= j < longer.len() implies (
        #[trigger] longer[i]).moves <= (#[trigger] longer[j]).moves by {
            if j < queue.len() {
                assert(longer[i] == queue[i]);
                assert(longer[j] == queue[j]);
            } else if i < queue.len() {
                assert(longer[i] == queue[i]);
            }
        }
        self.lemma_queued_grows(queue, e);
        assert forall|d: int|
            #![trigger fan(x, d)]
            0 <= d < done + 1 && legal(cells_of(x.board), fan(x, d)) implies self.queued(
            longer,
            key_of(moved(cells_of(x.board), fan(x, d)), (d / 8, d % 8)),
            x.moves + 1,
        ) by {
            if d == done {
                assert(longer[queue.len() as int] == e);
                assert(self.key_after(e.path@) == key_of(
                    moved(cells_of(x.board), fan(x, d)),
                    (d / 8, d % 8),
                ));
            }
        }
        assert(self.grown(seen, longer, self.key_after(x.path@))) by {
            assert forall|p: Seq<MovePiece>|
                #![trigger self.follows(p)]
                {
                    &&& self.follows(p)
                    &&& p.len() >= 1
                    &&& knows(seen, self.key_after(p.drop_last()))
                    &&& self.key_after(p.drop_last()) != self.key_after(x.path@)
                    &&& label(seen, self.key_after(p.drop_last())) < DEPTH_LIMIT
                } implies {
                ||| knows(seen, self.key_after(p))
                ||| self.queued(
                    longer,
                    self.key_after(p),
                    label(seen, self.key_after(p.drop_last())) + 1,
                )
            } by {}
        }
    }

    /// What waits in a queue waits in the longer queue too.
    proof fn lemma_queued_grows(&self, queue: Seq<SearchState>, e: SearchState)
        ensures
            forall|key: int, bound: int| #[trigger]
                self.queued(queue, key, bound) ==> self.queued(queue.push(e), key, bound),
    {
        assert forall|key: int, bound: int| #[trigger]
            self.queued(queue, key, bound) implies self.queued(queue.push(e), key, bound) by {
            let j = choose|j: int|
                0 <= j < queue.len() && self.key_after((#[trigger] queue[j]).path@) == key
                    && queue[j].moves <= bound;
            assert(queue.push(e)[j] == queue[j]);
        }
    }

    /// The move from `x` to the next square is not legal.
    proof fn lemma_pass(
        &self,
        seen: Map<u128, i8>,
        queue: Seq<SearchState>,
        x: SearchState,
        done: int,
    )
        requires
            self.within(seen, queue, x, done),
            !legal(cells_of(x.board), fan(x, done)),
        ensures
            self.within(seen, queue, x, done + 1),
    {
    }

    /// Every move from `x` was tried, or `x` lies as deep as the search goes.
    proof fn lemma_fanned_out(
        &self,
        seen: Map<u128, i8>,
        queue: Seq<SearchState>,
        x: SearchState,
        done: int,
    )
        requires
            self.within(seen, queue, x, done),
            done == 64 || x.moves >= DEPTH_LIMIT,
        ensures
            self.between(seen, queue),
    {
        let xkey = self.key_after(x.path@);
        if queue.len() > 0 {
            assert(x.moves <= queue[0].moves);
            assert forall|j: int| 0 <= j < queue.len() implies queue[0].moves <= (
            #[trigger] queue[j]).moves <= queue[0].moves + 1 by {}
        }
        assert forall|p: Seq<MovePiece>|
            #![trigger self.follows(p)]
            {
                &&& self.follows(p)
                &&& p.len() >= 1
                &&& knows(seen, self.key_after(p.drop_last()))
                &&& self.key_after(p.drop_last()) != -1
                &&& label(seen, self.key_after(p.drop_last())) < DEPTH_LIMIT
            } implies {
            ||| knows(seen, self.key_after(p))
            ||| self.queued(
                queue,
                self.key_after(p),
                label(seen, self.key_after(p.drop_last())) + 1,
            )
        } by {
            let before = p.drop_last();
            let m = p.last();
            if self.key_after(before) == xkey {
                assert(self.follows(before));
                lemma_cells_of(self.board, 0, 0);
                lemma_same_key(self.cells(), self.start(), before, x.path@);
                let d = 8 * m.goal_i + m.goal_j;
                assert(fan(x, d) == m);
                assert(legal(cells_of(x.board), fan(x, d)));
                assert(self.key_after(p) == key_of(
                    moved(cells_of(x.board), fan(x, d)),
                    (d / 8, d % 8),
                ));
            }
        }
    }

    /// Nothing waits any more: no path of at most `DEPTH_LIMIT` moves is a
    /// solution.
    proof fn lemma_exhausted(&self, seen: Map<u128, i8>)
        requires
            self.between(seen, Seq::empty()),
        ensures
            self.none_shorter(DEPTH_LIMIT + 1),
    {
        assert forall|p: Seq<MovePiece>| #[trigger] self.solved_by(p) implies p.len()
            >= DEPTH_LIMIT + 1 by {
            if p.len() <= DEPTH_LIMIT {
                assert(self.follows(p));
                self.lemma_all_seen(seen, p);
            }
        }
    }

    /// With nothing left in the queue, every position within reach was seen.
    proof fn lemma_all_seen(&self, seen: Map<u128, i8>, p: Seq<MovePiece>)
        requires
            self.between(seen, Seq::empty()),
            self.follows(p),
            p.len() <= DEPTH_LIMIT,
        ensures
            knows(seen, self.key_after(p)),
        decreases p.len(),
    {
        if p.len() == 0 {
            assert(p =~= Seq::empty());
        } else {
            let before = p.drop_last();
            assert(self.follows(before));
            self.lemma_all_seen(seen, before);
            assert(label(seen, self.key_after(before)) <= before.len());
        }
    }

    /// Whether the search can run on this board.
    pub fn is_searchable(&self) -> (yes: bool)
        ensures
            yes == self.searchable(),
    {
        let (r, c) = self.main_piece;
        if r < 0 || r >= 8 || c < 0 || c >= 8 {
            return false;
        }
        proof {
            lemma_cells_of(self.board, r as int, c as int);
        }
        let v = self.board[r as usize][c as usize];
        v <= 0 || v == BISHOP_BLACK || v == BISHOP_WHITE || v == KNIGHT_BLACK || v == KNIGHT_WHITE
            || v == ROOK_BLACK || v == ROOK_WHITE || v == QUEEN_BLACK || v == QUEEN_WHITE
    }

    /// The least number of moves in which the player's piece collects
    /// `num_star_cnt` stars, with a path of that length that does so. Where
    /// no path of at most `DEPTH_LIMIT` moves does, the count is `i8::MAX`
    /// and the path is empty.
    pub fn num_optimal_moves_to_star(&self) -> (found: (i8, SolutionPath))
        requires
            self.searchable(),
        ensures
            0 <= found.0,
            self.none_shorter(found.0 as int),
            found.0 < i8::MAX ==> self.solved_by(found.1@) && found.1@.len() == found.0,
            found.0 == i8::MAX ==> found.1@.len() == 0,
            self.num_star_cnt == 0 ==> found.0 == 0 && found.1@.len() == 0,
    {
        let mut seen: HashMap<u128, i8> = HashMap::new();
        let mut queue: VecDeque<SearchState> = VecDeque::new();
        queue.reserve(100_000);
        let first = SearchState {
            stars: 0,
            moves: 0,
            board: self.board,
            row: self.main_piece.0 as usize,
            col: self.main_piece.1 as usize,
            path: path_new(),
        };
        queue.push_back(first);
        let ghost mut keys: Set<int> = Set::empty();
        proof {
            assert(queue@[0] == first);
            assert(first.path@ =~= Seq::<MovePiece>::empty());
            assert(self.holds(first));
            assert(self.between(seen@, queue@));
        }
        while queue.len() > 0
            invariant
                self.between(seen@, queue@),
                keys.finite(),
                keys.subset_of(set_int_range(0, KEY_LIMIT as int)),
                forall|k: int| knows(seen@, k) <==> keys.contains(k),
            decreases KEY_LIMIT - keys.len(), queue@.len(),
        {
            let ghost before = queue@;
            let x = queue.pop_front().unwrap();
            proof {
                assert(self.holds(before[0]));
                lemma_playable_keeps(self.cells(), self.start(), x.path@);
                lemma_cells_of(self.board, 0, 0);
                lemma_int_range(0, KEY_LIMIT as int);
            }
            let key = board_key(&x.board, x.row, x.col);
            if seen.contains_key(&key) {
                proof {
                    self.lemma_skip(seen@, before);
                }
            } else {
                let ghost old_seen = seen@;
                seen.insert(key, x.moves);
                if x.stars == self.num_star_cnt {
                    proof {
                        self.lemma_goal(old_seen, before);
                        if self.num_star_cnt == 0 {
                            assert(self.solved_by(Seq::empty()));
                        }
                    }
                    return (x.moves, x.path);
                }
                proof {
                    self.lemma_visit(old_seen, before);
                    keys = keys.insert(key as int);
                    lemma_len_subset(keys, set_int_range(0, KEY_LIMIT as int));
                    assert forall|k: int| knows(seen@, k) <==> keys.contains(k) by {
                        if k != key {
                            assert(!(0 <= k < KEY_LIMIT) || k as u128 != key);
                        }
                    }
                }
                let ghost mut done: int = 0;
                if x.moves < DEPTH_LIMIT {
                    let cur = LiBoard { board: x.board, main_piece: (0, 0), num_star_cnt: 0 };
                    let v = x.board[x.row][x.col];
                    let mut k: usize = 0;
                    while k < 8
                        invariant
                            0 <= k <= 8,
                            done == 8 * k,
                            self.within(seen@, queue@, x, done),
                            x.moves < DEPTH_LIMIT,
                            cur.board == x.board,
                            v == x.board[x.row as int][x.col as int],
                        decreases 8 - k,
                    {
                        let mut l: usize = 0;
                        while l < 8
                            invariant
                                0 <= k < 8,
                                0 <= l <= 8,
                                done == 8 * k + l,
                                self.within(seen@, queue@, x, done),
                                x.moves < DEPTH_LIMIT,
                                cur.board == x.board,
                                v == x.board[x.row as int][x.col as int],
                            decreases 8 - l,
                        {
                            let m = MovePiece { i: x.row, j: x.col, goal_i: k, goal_j: l };
                            proof {
                                assert(m == fan(x, done));
                                lemma_playable_keeps(self.cells(), self.start(), x.path@);
                                lemma_cells_of(self.board, 0, 0);
                                lemma_cells_of(x.board, x.row as int, x.col as int);
                                lemma_cells_of(x.board, k as int, l as int);
                            }
                            if (m.i != m.goal_i || m.j != m.goal_j) && v != 0 && v != STAR_VALUE
                                && cur.validate_move(&m).is_valid() {
                                let star_flag = x.board[k][l] == STAR_VALUE;
                                let mut next = cur;
                                next.update_board(&m);
                                let ghost longer = x.path@.push(m);
                                proof {
                                    assert(longer.drop_last() =~= x.path@);
                                    assert(self.follows(longer));
                                    lemma_playable_keeps(self.cells(), self.start(), longer);
                                }
                                let e = SearchState {
                                    stars: if star_flag {
                                        x.stars + 1
                                    } else {
                                        x.stars
                                    },
                                    moves: x.moves + 1,
                                    board: next.board,
                                    row: k,
                                    col: l,
                                    path: path_push_back(&x.path, m),
                                };
                                proof {
                                    self.lemma_push(seen@, queue@, x, done, e);
                                }
                                queue.push_back(e);
                            } else {
                                proof {
                                    self.lemma_pass(seen@, queue@, x, done);
                                }
                            }
                            l = l + 1;
                            proof {
                                done = done + 1;
                            }
                        }
                        k = k + 1;
                    }
                }
                proof {
                    self.lemma_fanned_out(seen@, queue@, x, done);
                }
            }
        }
        proof {
            assert(queue@ =~= Seq::<SearchState>::empty());
            self.lemma_exhausted(seen@);
            if self.num_star_cnt == 0 {
                assert(self.solved_by(Seq::empty()));
            }
        }
        (i8::MAX, path_new())
    }

    /// A shortest path by which the player's piece collects `num_star_cnt`
    /// stars, with its length, or the reason why there is none to give.
    pub fn solve(&self) -> (found: Result<(i8, SolutionPath), SearchError>)
        ensures
            match found {
                Ok((count, path)) => {
                    &&& self.searchable()
                    &&& 0 <= count <= DEPTH_LIMIT
                    &&& path@.len() == count
                    &&& self.solved_by(path@)
                    &&& self.none_shorter(count as int)
                },
                Err(SearchError::OffBoard) => !on_board(self.start().0, self.start().1),
                Err(SearchError::UnsupportedPiece) => {
                    &&& on_board(self.start().0, self.start().1)
                    &&& is_unsupported(at(self.cells(), self.start().0, self.start().1))
                },
                Err(SearchError::NoSolution) => {
                    &&& self.searchable()
                    &&& self.none_shorter(DEPTH_LIMIT + 1)
                },
            },
    {
        let (r, c) = self.main_piece;
        if r < 0 || r >= 8 || c < 0 || c >= 8 {
            return Err(SearchError::OffBoard);
        }
        if !self.is_searchable() {
            return Err(SearchError::UnsupportedPiece);
        }
        let (count, path) = self.num_optimal_moves_to_star();
        if count == i8::MAX {
            Err(SearchError::NoSolution)
        } else {
            Ok((count, path))
        }
    }
}

} // verus!

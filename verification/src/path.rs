//! The persistent vector that holds a solution path.

use vstd::prelude::*;
use crate::chess::MovePiece;

verus! {

/// A sequence of moves, kept in an `rpds::Vector` so that the many paths of
/// one search share their common beginnings.
///
/// The verifier does not look inside: what the vector holds is known to it
/// only as `path_moves`, and only through the contracts of the four functions
/// below that call into `rpds`.
#[verifier::external_body]
pub struct SolutionPath {
    moves: rpds::Vector<MovePiece>,
}

/// The moves that a path holds, first move first.
pub uninterp spec fn path_moves(path: SolutionPath) -> Seq<MovePiece>;

impl View for SolutionPath {
    type V = Seq<MovePiece>;

    open spec fn view(&self) -> Seq<MovePiece> {
        path_moves(*self)
    }
}

/// `rpds::Vector::new`: a vector that holds nothing.
#[verifier::external_body]
pub(crate) fn path_new() -> (path: SolutionPath)
    ensures
        path_moves(path) == Seq::<MovePiece>::empty(),
{
    SolutionPath { moves: rpds::Vector::new() }
}

/// `rpds::Vector::push_back`: a new vector with the items of `path` and then
/// `m`; `path` itself is left as it was. The vector is asked to be shorter
/// than 2^30 items, so that neither its length nor the shift by which it
/// computes its capacity can overflow, even where `usize` has 32 bits.
#[verifier::external_body]
pub(crate) fn path_push_back(path: &SolutionPath, m: MovePiece) -> (longer: SolutionPath)
    requires
        path_moves(*path).len() < 0x4000_0000,
    ensures
        path_moves(longer) == path_moves(*path).push(m),
{
    SolutionPath { moves: path.moves.push_back(m) }
}

/// `rpds::Vector::len`: the number of items.
#[verifier::external_body]
fn path_len(path: &SolutionPath) -> (n: usize)
    ensures
        n == path_moves(*path).len(),
{
    path.moves.len()
}

/// `rpds::Vector::get`: a copy of the item at `index`, or nothing where the
/// vector is not that long.
#[verifier::external_body]
fn path_get(path: &SolutionPath, index: usize) -> (m: Option<MovePiece>)
    ensures
        m == if index < path_moves(*path).len() {
            Some(path_moves(*path)[index as int])
        } else {
            None
        },
{
    path.moves.get(index).copied()
}

impl SolutionPath {
    /// The number of moves.
    pub fn len(&self) -> (n: usize)
        ensures
            n == self@.len(),
    {
        path_len(self)
    }

    /// The moves, first move first.
    pub fn to_vec(&self) -> (moves: Vec<MovePiece>)
        ensures
            moves@ == self@,
    {
        let n = path_len(self);
        let mut moves: Vec<MovePiece> = Vec::new();
        let mut k: usize = 0;
        while k < n
            invariant
                n == self@.len(),
                0 <= k <= n,
                moves@ == self@.subrange(0, k as int),
            decreases n - k,
        {
            match path_get(self, k) {
                Some(m) => {
                    moves.push(m);
                    assert(moves@ =~= self@.subrange(0, k + 1));
                },
                None => {},
            }
            k = k + 1;
        }
        assert(self@.subrange(0, n as int) =~= self@);
        moves
    }
}

} // verus!

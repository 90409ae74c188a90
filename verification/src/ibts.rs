//! The board capability interface: what the importance-based traversal
//! strategy needs from a board, stated as traits with contracts so that a
//! consumer can be generic over the storage. The concrete board of this
//! crate, [`GameBoardImpl`], implements both.

use vstd::prelude::*;

use crate::base::CellKind;
use crate::game_board_impl::GameBoardImpl;

verus! {

/// The base capability of a board: cell kinds, owners and adjacency, each
/// query pinned to the implementation's own mathematical view.
pub trait GameBoard: Sized {
    /// Number of cells.
    spec fn spec_len(&self) -> int;

    /// Number of players.
    spec fn spec_players(&self) -> int;

    /// The kind of the cell at `i`.
    spec fn spec_kind(&self, i: int) -> CellKind;

    /// The owner of the cell at `i`.
    spec fn spec_player(&self, i: int) -> int;

    /// The adjacency list of the cell at `i`.
    spec fn spec_adjacent(&self, i: int) -> Seq<usize>;

    /// The well-formedness the implementation maintains.
    spec fn inv(&self) -> bool;

    /// Returns the kind of the cell at `index`.
    fn kind(&self, index: usize) -> (r: CellKind)
        requires
            self.inv(),
            (index as int) < self.spec_len(),
        ensures
            r == self.spec_kind(index as int),
    ;

    /// Returns the owner of the cell at `index`; meaningful only for
    /// crosses and filled cells.
    fn player(&self, index: usize) -> (r: usize)
        requires
            self.inv(),
            (index as int) < self.spec_len(),
        ensures
            r as int == self.spec_player(index as int),
            (r as int) < self.spec_players(),
    ;

    /// Returns the indices adjacent to `index`: always on the board and
    /// never the cell itself.
    fn adjacent(&self, index: usize) -> (r: &Vec<usize>)
        requires
            self.inv(),
            (index as int) < self.spec_len(),
        ensures
            r@ == self.spec_adjacent(index as int),
            forall|k: int|
                0 <= k < r@.len() ==> ((#[trigger] r@[k]) as int) < self.spec_len() && r@[k]
                    != index,
    ;
}

/// The flags the importance-based traversal strategy keeps per cell, on top
/// of the base capability: chain-wide aliveness and the anchor mark.
pub trait IbtsBoard: GameBoard {
    /// Whether the filled cell at `i` is alive.
    spec fn spec_alive(&self, i: int) -> bool;

    /// Whether the cell at `i` is an anchor of its chain.
    spec fn spec_important(&self, i: int) -> bool;

    /// Checks if the cell at the given index is alive.
    fn is_alive(&self, index: usize) -> (r: bool)
        requires
            self.inv(),
            (index as int) < self.spec_len(),
        ensures
            r == self.spec_alive(index as int),
    ;

    /// Checks if the cell at the given index is important.
    fn is_important(&self, index: usize) -> (r: bool)
        requires
            self.inv(),
            (index as int) < self.spec_len(),
        ensures
            r == self.spec_important(index as int),
    ;
}

impl GameBoard for GameBoardImpl {
    open spec fn spec_len(&self) -> int {
        self.n()
    }

    open spec fn spec_players(&self) -> int {
        self.players()
    }

    open spec fn spec_kind(&self, i: int) -> CellKind {
        self.kind_at(i)
    }

    open spec fn spec_player(&self, i: int) -> int {
        self.owner_at(i)
    }

    open spec fn spec_adjacent(&self, i: int) -> Seq<usize> {
        self.adj(i)
    }

    open spec fn inv(&self) -> bool {
        self.wf()
    }

    fn kind(&self, index: usize) -> (r: CellKind) {
        GameBoardImpl::kind(self, index)
    }

    fn player(&self, index: usize) -> (r: usize) {
        GameBoardImpl::player(self, index)
    }

    fn adjacent(&self, index: usize) -> (r: &Vec<usize>) {
        proof {
            self.lemma_wf_facts();
        }
        GameBoardImpl::adjacent(self, index)
    }
}

impl IbtsBoard for GameBoardImpl {
    open spec fn spec_alive(&self, i: int) -> bool {
        self.alive_at(i)
    }

    open spec fn spec_important(&self, i: int) -> bool {
        self.important_at(i)
    }

    fn is_alive(&self, index: usize) -> (r: bool) {
        GameBoardImpl::is_alive(self, index)
    }

    fn is_important(&self, index: usize) -> (r: bool) {
        GameBoardImpl::is_important(self, index)
    }
}

} // verus!

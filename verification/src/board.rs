//! The mathematical board: what a snapshot stands for in contracts.
//!
//! A `Board` holds the owner of every cell, the adjacency lists, the side
//! flags and the coordinates as plain sequences. Connectivity and winning
//! are defined here over walks through cells of one owner.
use crate::coords::{triangle, Coordinates, MAX_BOARD_SIZE};
use crate::scan::positions;
use vstd::prelude::*;

verus! {

/// No cell of the triangular grid has more neighbours than this.
pub const MAX_NEIGHBORS: usize = 6;

/// Side flags of a group that touches all three sides.
pub const ALL_SIDES: u8 = 7;

/// A position on a board, with the graph of the board.
pub struct Board {
    /// Side of the board.
    pub size: u32,
    /// Per cell: 0 for empty, otherwise the identity of the owner.
    pub owner: Seq<u8>,
    /// Per cell: whether a stone may be placed there.
    pub available: Seq<bool>,
    /// Per cell: the numbers of the adjacent cells.
    pub neighbors: Seq<Seq<usize>>,
    /// Per cell: the sides it touches, one bit each.
    pub edges: Seq<u8>,
    /// Per cell: its coordinate triple.
    pub coords: Seq<Coordinates>,
    /// Identity under which the engine's own stones are recorded.
    pub bot_id: u8,
    /// Identity under which the opponent's stones are recorded.
    pub human_id: u8,
}

/// A blocking set that blocks nothing.
pub open spec fn nothing_blocked(cells: int) -> Seq<bool> {
    Seq::new(cells as nat, |c: int| false)
}

impl Board {
    /// Number of cells on the board.
    pub open spec fn cells(self) -> int {
        self.owner.len() as int
    }

    /// `c` is a cell of the board.
    pub open spec fn in_range(self, c: int) -> bool {
        0 <= c < self.cells()
    }

    /// The available cells, lowest first.
    pub open spec fn open_cells(self) -> Seq<usize> {
        positions(self.available, true)
    }

    /// The cells that hold a stone, lowest first.
    pub open spec fn taken_cells(self) -> Seq<usize> {
        positions(self.available, false)
    }

    /// `b` is listed among the neighbours of `a`.
    pub open spec fn adjacent(self, a: int, b: int) -> bool {
        self.in_range(a) && exists|k: int|
            0 <= k < self.neighbors[a].len() && #[trigger] self.neighbors[a][k] == b
    }

    /// A cell is empty exactly when it is available.
    pub open spec fn availability_matches_owner(self) -> bool {
        forall|c: int| 0 <= c < self.cells() ==> #[trigger] self.available[c] == (self.owner[c] == 0)
    }

    /// The adjacency lists describe an undirected graph on the cells.
    pub open spec fn graph_ok(self) -> bool {
        &&& forall|c: int| 0 <= c < self.cells() ==> (#[trigger] self.neighbors[c]).len() <= MAX_NEIGHBORS
        &&& forall|c: int, k: int|
            0 <= c < self.cells() && 0 <= k < self.neighbors[c].len() ==> (#[trigger] self.neighbors[c][k])
                < self.cells()
        &&& forall|a: int, b: int| #[trigger] self.adjacent(a, b) ==> self.adjacent(b, a)
    }

    /// Side flags and neighbours of every cell are those that its
    /// coordinates give on a board of this side.
    #[verifier::opaque]
    pub open spec fn geometry_ok(self) -> bool {
        &&& forall|c: int| 0 <= c < self.cells() ==> #[trigger] self.edges[c] == self.coords[c].spec_side_flags()
        &&& forall|c: int|
            0 <= c < self.cells() ==> #[trigger] self.neighbors[c] == self.coords[c].spec_neighbor_cells(self.size)
    }

    /// The board is the triangular board of its side, with the coordinates,
    /// the side flags and the neighbours of every cell as that board has
    /// them; its graph is undirected, availability goes with ownership, and
    /// the two players are told apart.
    pub open spec fn wf(self) -> bool {
        &&& 1 <= self.size <= MAX_BOARD_SIZE
        &&& self.cells() == triangle(self.size as int)
        &&& self.available.len() == self.cells()
        &&& self.neighbors.len() == self.cells()
        &&& self.edges.len() == self.cells()
        &&& self.coords.len() == self.cells()
        &&& self.availability_matches_owner()
        &&& self.graph_ok()
        &&& forall|c: int| 0 <= c < self.cells() ==> #[trigger] self.edges[c] <= ALL_SIDES
        &&& forall|c: int|
            0 <= c < self.cells() ==> #[trigger] self.coords[c] == Coordinates::spec_from_index(c, self.size)
        &&& self.geometry_ok()
        &&& self.bot_id != 0
        &&& self.human_id != 0
        &&& self.bot_id != self.human_id
    }

    /// The board after `player` has placed a stone on cell `c`.
    pub open spec fn place(self, c: int, player: u8) -> Board {
        Board { owner: self.owner.update(c, player), available: self.available.update(c, false), ..self }
    }

    /// The board after the stone on cell `c` has been taken back.
    pub open spec fn lift(self, c: int) -> Board {
        Board { owner: self.owner.update(c, 0u8), available: self.available.update(c, true), ..self }
    }

    /// One step of a walk: from `a` to a neighbour `b` that `player` owns
    /// and that is not blocked.
    pub open spec fn open_step(self, player: u8, blocked: Seq<bool>, a: int, b: int) -> bool {
        &&& self.adjacent(a, b)
        &&& self.in_range(b)
        &&& self.owner[b] == player
        &&& !blocked[b]
    }

    /// A walk starts anywhere on the board and then only takes open steps.
    pub open spec fn is_walk(self, player: u8, blocked: Seq<bool>, path: Seq<int>) -> bool {
        &&& path.len() > 0
        &&& self.in_range(path[0])
        &&& forall|i: int|
            0 < i < path.len() ==> self.open_step(player, blocked, path[i - 1], #[trigger] path[i])
    }

    /// Some walk leads from `from` to `to`.
    pub open spec fn reaches(self, player: u8, blocked: Seq<bool>, from: int, to: int) -> bool {
        exists|path: Seq<int>|
            #[trigger] self.is_walk(player, blocked, path) && path[0] == from && path.last() == to
    }

    /// Some cell that a walk from `from` reaches touches the side `bit`.
    pub open spec fn group_touches(self, player: u8, blocked: Seq<bool>, from: int, bit: u8) -> bool {
        exists|c: int| #[trigger] self.reaches(player, blocked, from, c) && self.edges[c] & bit != 0
    }

    /// The sides touched by the cells that walks from `from` reach, as
    /// flags.
    pub open spec fn group_edges(self, player: u8, blocked: Seq<bool>, from: int) -> u8 {
        let a: u8 = if self.group_touches(player, blocked, from, 1) { 1 } else { 0 };
        let b: u8 = if self.group_touches(player, blocked, from, 2) { 2 } else { 0 };
        let c: u8 = if self.group_touches(player, blocked, from, 4) { 4 } else { 0 };
        (a + b + c) as u8
    }

    /// `player` has a connected group of stones that touches all three
    /// sides.
    pub open spec fn has_won(self, player: u8) -> bool {
        exists|s: int|
            self.in_range(s) && self.owner[s] == player && #[trigger] self.group_edges(
                player,
                nothing_blocked(self.cells()),
                s,
            ) == ALL_SIDES
    }
}

} // verus!

//! The board snapshot that a search works on: owners, availability mask and
//! the per-cell caches, changed in place by `make_move` and `undo_move`.
use crate::board::{Board, ALL_SIDES};
use crate::coords::{
    lemma_index_round_trip, lemma_neighbors, lemma_triangle_bounded, Coordinates, MAX_BOARD_SIZE, MAX_CELLS,
};
use crate::game::{lists_stones, other_player, stone_cells, GameY, PlayerId};
use crate::mask::{
    lists_positions, mask_bits, mask_contains, mask_insert, mask_ones, mask_set, mask_with_capacity, mask_zeroes,
};
use crate::scan::{
    bound_at, lemma_bounds_ordered, lemma_gap, lemma_positions_listed, lemma_positions_unique, resume_at,
};
use crate::snapshot::{lemma_snapshot_wf, owner_code, snapshot};
use crate::walks::{
    expanded_upto, flags_within, lemma_all_sides, lemma_flags_union, lemma_group_edges_blocking, lemma_no_win,
    lemma_reaches_self, lemma_reaches_step, lemma_search_goes_on, lemma_traversal_result, lemma_visit_one,
    on_stack, searched_without_win, traversal_inv, unvisited,
};
use fixedbitset::FixedBitSet;
use vstd::prelude::*;

verus! {

/// The board of one search: owners and availability of every cell, the
/// geometry cached per cell, and the scratch buffers of the win check.
pub struct MinimaxState {
    pub(crate) board: Vec<u8>,
    pub(crate) size: u32,
    pub(crate) available_mask: FixedBitSet,
    pub(crate) coords_cache: Vec<Coordinates>,
    pub(crate) neighbors_cache: Vec<Vec<usize>>,
    pub(crate) edges_cache: Vec<u8>,
    pub(crate) bot_id: u8,
    pub(crate) human_id: u8,
    pub(crate) visited: Vec<bool>,
    pub(crate) stack: Vec<usize>,
}

impl View for MinimaxState {
    type V = Board;

    closed spec fn view(&self) -> Board {
        Board {
            size: self.size,
            owner: self.board@,
            available: mask_bits(self.available_mask),
            neighbors: Seq::new(self.neighbors_cache@.len(), |c: int| self.neighbors_cache@[c]@),
            edges: self.edges_cache@,
            coords: self.coords_cache@,
            bot_id: self.bot_id,
            human_id: self.human_id,
        }
    }
}

impl MinimaxState {
    /// The visited flags of the traversal scratch buffer, one per cell.
    pub closed spec fn visited_flags(&self) -> Seq<bool> {
        self.visited@
    }

    /// The snapshot stands for a well-formed board and its scratch buffer
    /// has one flag per cell.
    pub open spec fn wf(&self) -> bool {
        &&& self@.wf()
        &&& self.visited_flags().len() == self@.cells()
    }

    /// Builds the snapshot of a game for a search on behalf of
    /// `bot_player`: caches the coordinates, the neighbours and the side
    /// flags of every cell, copies the owners, offset by one so that 0 stands
    /// for an empty cell, and marks the empty cells as available.
    pub fn new(game: &GameY, bot_player: PlayerId) -> (state: MinimaxState)
        requires
            game.wf(),
            bot_player.id <= 1,
        ensures
            state.wf(),
            state@ == snapshot(game@, bot_player),
            forall|c: int| 0 <= c < state@.cells() ==> !(#[trigger] state.visited_flags()[c]),
    {
        let ghost g = game@;
        let ghost target = snapshot(g, bot_player);
        let size = game.board_size();
        let total_cells = game.total_cells() as usize;
        proof {
            lemma_triangle_bounded(size);
            lemma_snapshot_wf(g, bot_player);
        }

        let mut board: Vec<u8> = vec![0; total_cells];
        let mut coords_cache: Vec<Coordinates> = vec![Coordinates::new(0, 0, 0); total_cells];
        let mut available_mask = mask_with_capacity(total_cells);
        let mut neighbors_cache: Vec<Vec<usize>> = vec![Vec::new(); total_cells];
        let mut edges_cache: Vec<u8> = vec![0; total_cells];

        let bot_id = bot_player.id() as u8 + 1;
        let human_id = other_player(bot_player).id() as u8 + 1;

        let visited = vec![false; total_cells];
        let stack = Vec::with_capacity(total_cells / 4);

        let mut idx: usize = 0;
        while idx < total_cells
            invariant
                game@ == g,
                g.wf(),
                size == g.size,
                total_cells == g.cells(),
                total_cells <= MAX_CELLS,
                idx <= total_cells,
                coords_cache@.len() == total_cells,
                neighbors_cache@.len() == total_cells,
                edges_cache@.len() == total_cells,
                forall|c: int|
                    0 <= c < idx ==> #[trigger] coords_cache@[c] == Coordinates::spec_from_index(c, size),
                forall|c: int|
                    0 <= c < idx ==> (#[trigger] neighbors_cache@[c])@ == Coordinates::spec_from_index(
                        c,
                        size,
                    ).spec_neighbor_cells(size),
                forall|c: int|
                    0 <= c < idx ==> #[trigger] edges_cache@[c] == Coordinates::spec_from_index(
                        c,
                        size,
                    ).spec_side_flags(),
                forall|c: int| idx <= c < total_cells ==> (#[trigger] neighbors_cache@[c])@.len() == 0,
                forall|c: int| idx <= c < total_cells ==> #[trigger] edges_cache@[c] == 0,
            decreases total_cells - idx,
        {
            let coords = Coordinates::from_index(idx as u32, size);

            coords_cache[idx] = coords;

            if coords.is_valid(size) {
                let around = game.get_neighbors(&coords);
                proof {
                    lemma_neighbors(coords, size);
                }
                let mut k: usize = 0;
                while k < around.len()
                    invariant
                        1 <= size <= MAX_BOARD_SIZE,
                        idx < total_cells,
                        neighbors_cache@.len() == total_cells,
                        around@ == coords.spec_neighbors(),
                        forall|j: int|
                            0 <= j < around@.len() ==> (#[trigger] coords.spec_neighbors()[j]).spec_is_valid(size),
                        k <= around.len(),
                        neighbors_cache@[idx as int]@.len() == k,
                        forall|j: int|
                            0 <= j < k ==> #[trigger] neighbors_cache@[idx as int]@[j] == around@[j].spec_to_index(
                                size,
                            ) as usize,
                        forall|c: int|
                            0 <= c < idx ==> (#[trigger] neighbors_cache@[c])@ == Coordinates::spec_from_index(
                                c,
                                size,
                            ).spec_neighbor_cells(size),
                        forall|c: int| idx < c < total_cells ==> (#[trigger] neighbors_cache@[c])@.len() == 0,
                    decreases around.len() - k,
                {
                    let n_coords = around[k];
                    proof {
                        assert(coords.spec_neighbors()[k as int].spec_is_valid(size));
                        lemma_index_round_trip(n_coords, size);
                    }
                    if n_coords.is_valid(size) {
                        let n_idx = n_coords.to_index(size) as usize;
                        neighbors_cache[idx].push(n_idx);
                    }
                    k = k + 1;
                }
                assert(neighbors_cache@[idx as int]@ =~= coords.spec_neighbor_cells(size));

                proof {
                    assert(0u8 | 1 == 1 && 0u8 | 2 == 2 && 1u8 | 2 == 3 && 0u8 | 4 == 4 && 1u8 | 4 == 5 && 2u8 | 4
                        == 6 && 3u8 | 4 == 7) by (bit_vector);
                }
                if coords.touches_side_a() {
                    edges_cache[idx] |= 0b001;
                }
                if coords.touches_side_b() {
                    edges_cache[idx] |= 0b010;
                }
                if coords.touches_side_c() {
                    edges_cache[idx] |= 0b100;
                }
            }
            idx = idx + 1;
        }

        let stones = game.board_map();
        let ghost placed = stone_cells(stones@, size);
        proof {
            lemma_bounds_ordered(placed, g.occupied(), true, 0);
            assert forall|c: int| 0 <= c < bound_at(placed, 0, total_cells as int) implies owner_code(
                g.owners[c],
            ) == 0 by {
                lemma_gap(placed, g.occupied(), true, 0, c);
            }
        }
        let mut k: usize = 0;
        while k < stones.len()
            invariant
                game@ == g,
                g.wf(),
                size == g.size,
                total_cells == g.cells(),
                total_cells <= MAX_CELLS,
                lists_stones(stones@, g),
                placed == stone_cells(stones@, size),
                k <= stones.len(),
                board@.len() == total_cells,
                forall|c: int|
                    0 <= c < total_cells ==> #[trigger] board@[c] == if c < bound_at(
                        placed,
                        k as int,
                        total_cells as int,
                    ) {
                        owner_code(g.owners[c])
                    } else {
                        0
                    },
            decreases stones.len() - k,
        {
            let (coords, owner) = stones[k];
            proof {
                assert(stones@[k as int].0.spec_is_valid(size));
                lemma_index_round_trip(coords, size);
                assert(placed[k as int] == coords.spec_to_index(size));
                lemma_bounds_ordered(placed, g.occupied(), true, k as int + 1);
                assert forall|c: int|
                    resume_at(placed, k as int + 1) <= c < bound_at(
                        placed,
                        k as int + 1,
                        total_cells as int,
                    ) implies owner_code(g.owners[c]) == 0 by {
                    lemma_gap(placed, g.occupied(), true, k as int + 1, c);
                }
                assert(g.owners[coords.spec_to_index(size)] == Some(owner));
            }
            let idx = coords.to_index(size) as usize;
            board[idx] = owner.id() as u8 + 1;
            k = k + 1;
        }

        let empties = game.available_cells();
        proof {
            lemma_positions_listed(g.occupied(), false);
            lemma_bounds_ordered(empties@, g.occupied(), false, 0);
            assert forall|c: int| 0 <= c < bound_at(empties@, 0, total_cells as int) implies g.owners[c] is Some by {
                lemma_gap(empties@, g.occupied(), false, 0, c);
            }
        }
        let mut k: usize = 0;
        while k < empties.len()
            invariant
                game@ == g,
                total_cells == g.cells(),
                lists_positions(empties@, g.occupied(), false),
                k <= empties.len(),
                mask_bits(available_mask).len() == total_cells,
                forall|c: int|
                    0 <= c < total_cells ==> #[trigger] mask_bits(available_mask)[c] == (c < bound_at(
                        empties@,
                        k as int,
                        total_cells as int,
                    ) && g.owners[c] is None),
            decreases empties.len() - k,
        {
            let cell_idx = empties[k];
            proof {
                assert(empties@[k as int] < g.occupied().len() && !g.occupied()[empties@[k as int] as int]);
                lemma_bounds_ordered(empties@, g.occupied(), false, k as int + 1);
                assert forall|c: int|
                    resume_at(empties@, k as int + 1) <= c < bound_at(
                        empties@,
                        k as int + 1,
                        total_cells as int,
                    ) implies g.owners[c] is Some by {
                    lemma_gap(empties@, g.occupied(), false, k as int + 1, c);
                }
            }
            mask_insert(&mut available_mask, cell_idx);
            k = k + 1;
        }

        let state = MinimaxState {
            board,
            size,
            available_mask,
            coords_cache,
            neighbors_cache,
            edges_cache,
            bot_id,
            human_id,
            visited,
            stack,
        };
        proof {
            assert(state@.owner =~= target.owner);
            assert(state@.available =~= target.available);
            assert(state@.neighbors =~= target.neighbors);
            assert(state@.edges =~= target.edges);
            assert(state@.coords =~= target.coords);
        }
        state
    }

    /// Places a stone of `player` on an available cell.
    pub fn make_move(&mut self, idx: usize, player: u8)
        requires
            old(self).wf(),
            idx < old(self)@.cells(),
            old(self)@.available[idx as int],
            player != 0,
        ensures
            final(self).wf(),
            final(self)@ == old(self)@.place(idx as int, player),
            final(self).visited_flags() == old(self).visited_flags(),
    {
        self.board[idx] = player;
        mask_set(&mut self.available_mask, idx, false);
        proof {
            assert(self@.neighbors =~= old(self)@.neighbors);
            assert(self@ == old(self)@.place(idx as int, player));
            lemma_place_wf(old(self)@, idx as int, player);
        }
    }

    /// Takes back the stone on an occupied cell.
    pub fn undo_move(&mut self, idx: usize)
        requires
            old(self).wf(),
            idx < old(self)@.cells(),
            old(self)@.owner[idx as int] != 0,
        ensures
            final(self).wf(),
            final(self)@ == old(self)@.lift(idx as int),
            final(self).visited_flags() == old(self).visited_flags(),
    {
        self.board[idx] = 0;
        mask_set(&mut self.available_mask, idx, true);
        proof {
            assert(self@.neighbors =~= old(self)@.neighbors);
            assert(self@ == old(self)@.lift(idx as int));
            lemma_lift_wf(old(self)@, idx as int);
        }
    }

    /// Whether `player` has joined all three sides with one group of
    /// stones.
    pub fn check_win(&mut self, player: u8) -> (won: bool)
        requires
            old(self).wf(),
        ensures
            final(self).wf(),
            final(self)@ == old(self)@,
            won == old(self)@.has_won(player),
    {
        let ghost b = self@;
        let cells = self.visited.len();
        let mut i: usize = 0;
        while i < cells
            invariant
                self@ == b,
                self.wf(),
                cells == b.cells(),
                i <= cells,
                forall|c: int| 0 <= c < i ==> !(#[trigger] self.visited@[c]),
            decreases cells - i,
        {
            self.visited[i] = false;
            i = i + 1;
            proof {
                assert(self@.neighbors =~= b.neighbors);
            }
        }
        let mut idx: usize = 0;
        while idx < cells
            invariant
                self@ == b,
                b == old(self)@,
                self.wf(),
                cells == b.cells(),
                idx <= cells,
                searched_without_win(b, player, self.visited@),
                forall|c: int|
                    0 <= c < idx && b.owner[c] == player && b.edges[c] != 0 ==> #[trigger] self.visited@[c],
            decreases cells - idx,
        {
            if self.board[idx] == player && self.edges_cache[idx] != 0 && !self.visited[idx] {
                let ghost blocked = self.visited@;
                let edges_reached = self.dfs_collect_edges(idx, player);
                proof {
                    lemma_group_edges_blocking(b, player, blocked, idx as int);
                }
                if edges_reached == 0b111 {
                    return true;
                }
                proof {
                    assert forall|c: int| 0 <= c < b.cells() implies #[trigger] self.visited@[c] == (blocked[c]
                        || b.reaches(player, blocked, idx as int, c)) by {
                        if blocked[c] {
                            assert(self.visited@[c]);
                        }
                    }
                    lemma_search_goes_on(b, player, blocked, idx as int, self.visited@);
                }
            }
            idx = idx + 1;
        }
        proof {
            lemma_no_win(b, player, self.visited@);
        }
        false
    }

    /// Collects the side flags of the cells that a traversal from `start`
    /// reaches through stones of `player` not flagged as visited before;
    /// stops as soon as all three sides are in hand.
    pub fn dfs_collect_edges(&mut self, start: usize, player: u8) -> (mask: u8)
        requires
            old(self).wf(),
            start < old(self)@.cells(),
        ensures
            final(self).wf(),
            final(self)@ == old(self)@,
            mask == old(self)@.group_edges(player, old(self).visited_flags(), start as int),
            forall|c: int|
                0 <= c < old(self)@.cells() && #[trigger] final(self).visited_flags()[c] ==> old(
                    self,
                ).visited_flags()[c] || old(self)@.reaches(player, old(self).visited_flags(), start as int, c),
            forall|c: int|
                0 <= c < old(self)@.cells() && #[trigger] old(self).visited_flags()[c]
                    ==> final(self).visited_flags()[c],
            mask != ALL_SIDES ==> forall|c: int|
                0 <= c < old(self)@.cells() && old(self)@.reaches(
                    player,
                    old(self).visited_flags(),
                    start as int,
                    c,
                ) ==> #[trigger] final(self).visited_flags()[c],
    {
        let ghost b = self@;
        let ghost blocked = self.visited@;
        let ghost mut done: Set<int> = Set::empty();
        let mut edges_mask: u8 = 0;

        self.stack.clear();
        self.stack.push(start);
        self.visited[start] = true;
        proof {
            assert(self@.neighbors =~= b.neighbors);
            lemma_reaches_self(b, player, blocked, start as int);
            assert(self.stack@[0] == start);
            assert(on_stack(self.stack@, start as int));
            assert(0u8 & 1 == 0 && 0u8 & 2 == 0 && 0u8 & 4 == 0) by (bit_vector);
        }

        while self.stack.len() > 0
            invariant
                self@ == b,
                b == old(self)@,
                blocked == old(self).visited_flags(),
                b.wf(),
                traversal_inv(b, player, blocked, start as int, self.visited@, self.stack@, done, edges_mask, None),
            decreases 2 * unvisited(self.visited@) + self.stack@.len(),
        {
            let ghost measure = 2 * unvisited(self.visited@) + self.stack@.len();
            let ghost waiting = self.stack@;
            let ghost mask_before = edges_mask;
            let idx = self.stack.pop().unwrap();
            edges_mask = edges_mask | self.edges_cache[idx];
            proof {
                assert(self@.neighbors =~= b.neighbors);
                assert(waiting[waiting.len() - 1] == idx);
                lemma_flags_union(mask_before, b.edges[idx as int]);
                assert forall|c: int|
                    0 <= c < b.cells() && ((#[trigger] self.visited@[c] && !blocked[c]) || c
                        == start) implies done.contains(c) || on_stack(self.stack@, c) || Some(c) == Some(
                    idx as int,
                ) by {
                    if !done.contains(c) && c != idx {
                        let j = choose|j: int| 0 <= j < waiting.len() && #[trigger] waiting[j] == c;
                        assert(self.stack@[j] == c);
                    }
                }
                assert(traversal_inv(
                    b,
                    player,
                    blocked,
                    start as int,
                    self.visited@,
                    self.stack@,
                    done,
                    edges_mask,
                    Some(idx as int),
                ));
            }

            if edges_mask == 0b111 {
                proof {
                    lemma_all_sides(edges_mask);
                }
                return edges_mask;
            }
            let count = self.neighbors_cache[idx].len();
            let mut k: usize = 0;
            while k < count
                invariant
                    self@ == b,
                    b.wf(),
                    b.in_range(idx as int),
                    count == b.neighbors[idx as int].len(),
                    k <= count,
                    b.reaches(player, blocked, start as int, idx as int),
                    flags_within(b.edges[idx as int], edges_mask),
                    traversal_inv(
                        b,
                        player,
                        blocked,
                        start as int,
                        self.visited@,
                        self.stack@,
                        done,
                        edges_mask,
                        Some(idx as int),
                    ),
                    expanded_upto(b, player, blocked, self.visited@, idx as int, k as int),
                    2 * unvisited(self.visited@) + self.stack@.len() < measure,
                decreases count - k,
            {
                let neighbor = self.neighbors_cache[idx][k];
                assert(b.neighbors[idx as int][k as int] == neighbor);
                if self.board[neighbor] == player && !self.visited[neighbor] {
                    let ghost flags = self.visited@;
                    let ghost waiting = self.stack@;
                    self.visited[neighbor] = true;
                    self.stack.push(neighbor);
                    proof {
                        assert(self@.neighbors =~= b.neighbors);
                        lemma_visit_one(flags, neighbor as int);
                        assert(b.open_step(player, blocked, idx as int, neighbor as int));
                        lemma_reaches_step(b, player, blocked, start as int, idx as int, neighbor as int);
                        assert forall|c: int|
                            0 <= c < b.cells() && ((#[trigger] self.visited@[c] && !blocked[c]) || c
                                == start) implies done.contains(c) || on_stack(self.stack@, c) || Some(c)
                            == Some(idx as int) by {
                            if c == neighbor {
                                assert(self.stack@[waiting.len() as int] == c);
                            } else if !done.contains(c) && c != idx {
                                let j = choose|j: int| 0 <= j < waiting.len() && #[trigger] waiting[j] == c;
                                assert(self.stack@[j] == c);
                            }
                        }
                        assert forall|c: int| #[trigger] done.contains(c) implies expanded_upto(
                            b,
                            player,
                            blocked,
                            self.visited@,
                            c,
                            b.neighbors[c].len() as int,
                        ) by {
                            assert(expanded_upto(b, player, blocked, flags, c, b.neighbors[c].len() as int));
                        }
                        assert(expanded_upto(b, player, blocked, flags, idx as int, k as int));
                    }
                }
                k = k + 1;
            }
            proof {
                done = done.insert(idx as int);
                assert forall|c: int|
                    0 <= c < b.cells() && ((#[trigger] self.visited@[c] && !blocked[c]) || c
                        == start) implies done.contains(c) || on_stack(self.stack@, c) by {
                }
            }
        }
        proof {
            assert(self.stack@ =~= Seq::<usize>::empty());
            lemma_traversal_result(b, player, blocked, start as int, self.visited@, done, edges_mask);
        }
        edges_mask
    }

    /// Number of cells on the board.
    pub fn total_cells(&self) -> (cells: usize)
        requires
            self.wf(),
        ensures
            cells == self@.cells(),
    {
        self.board.len()
    }

    /// Side of the board.
    pub fn size(&self) -> (size: u32)
        ensures
            size == self@.size,
    {
        self.size
    }

    /// Identity under which the engine's own stones are recorded.
    pub fn bot_id(&self) -> (id: u8)
        ensures
            id == self@.bot_id,
    {
        self.bot_id
    }

    /// Identity under which the opponent's stones are recorded.
    pub fn human_id(&self) -> (id: u8)
        ensures
            id == self@.human_id,
    {
        self.human_id
    }

    /// Owner of a cell; 0 for an empty one.
    pub fn owner_at(&self, idx: usize) -> (owner: u8)
        requires
            self.wf(),
            idx < self@.cells(),
        ensures
            owner == self@.owner[idx as int],
    {
        self.board[idx]
    }

    /// Whether a stone may be placed on the cell; false past the board.
    pub fn is_available(&self, idx: usize) -> (available: bool)
        requires
            self.wf(),
        ensures
            available == (idx < self@.cells() && self@.available[idx as int]),
    {
        mask_contains(&self.available_mask, idx)
    }

    /// Side flags of a cell.
    pub fn edges_at(&self, idx: usize) -> (flags: u8)
        requires
            self.wf(),
            idx < self@.cells(),
        ensures
            flags == self@.edges[idx as int],
    {
        self.edges_cache[idx]
    }

    /// The cells adjacent to a cell.
    pub fn neighbors_of(&self, idx: usize) -> (cells: &Vec<usize>)
        requires
            self.wf(),
            idx < self@.cells(),
        ensures
            cells@ == self@.neighbors[idx as int],
    {
        &self.neighbors_cache[idx]
    }

    /// Coordinates of a cell, if the board has it.
    pub fn coords_at(&self, idx: usize) -> (coords: Option<Coordinates>)
        requires
            self.wf(),
        ensures
            coords == if idx < self@.cells() {
                Some(self@.coords[idx as int])
            } else {
                None
            },
    {
        if idx < self.coords_cache.len() {
            Some(self.coords_cache[idx])
        } else {
            None
        }
    }

    /// Coordinates of a cell of the board.
    pub(crate) fn coords_of(&self, idx: usize) -> (coords: Coordinates)
        requires
            self.wf(),
            idx < self@.cells(),
        ensures
            coords == self@.coords[idx as int],
    {
        self.coords_cache[idx]
    }

    /// The empty cells, lowest number first.
    pub fn available_cells(&self) -> (cells: Vec<usize>)
        requires
            self.wf(),
        ensures
            cells@ == self@.open_cells(),
    {
        proof {
            lemma_triangle_bounded(self.size);
        }
        let cells = mask_ones(&self.available_mask);
        proof {
            lemma_positions_unique(cells@, self@.available, true);
        }
        cells
    }

    /// The cells that hold a stone, lowest number first.
    pub fn occupied_cells(&self) -> (cells: Vec<usize>)
        requires
            self.wf(),
        ensures
            cells@ == self@.taken_cells(),
    {
        proof {
            lemma_triangle_bounded(self.size);
        }
        let cells = mask_zeroes(&self.available_mask);
        proof {
            lemma_positions_unique(cells@, self@.available, false);
        }
        cells
    }
}

/// Taking back a stone that was placed on an available cell gives the board
/// as it was: owners and availability of every cell are those before the
/// move.
pub proof fn lemma_place_then_lift(b: Board, c: int, player: u8)
    requires
        b.wf(),
        b.in_range(c),
        b.available[c],
    ensures
        b.place(c, player).lift(c) == b,
{
    let back = b.place(c, player).lift(c);
    assert(b.owner[c] == 0);
    assert(back.owner =~= b.owner);
    assert(back.available =~= b.available);
}

/// Adjacency only reads the neighbour lists.
pub proof fn lemma_adjacent_same_graph(a: Board, b: Board, x: int, y: int)
    requires
        a.neighbors == b.neighbors,
        a.cells() == b.cells(),
    ensures
        a.adjacent(x, y) == b.adjacent(x, y),
{
}

/// Placing a stone on an available cell keeps the board well formed.
pub proof fn lemma_place_wf(b: Board, c: int, player: u8)
    requires
        b.wf(),
        b.in_range(c),
        player != 0,
    ensures
        b.place(c, player).wf(),
{
    let after = b.place(c, player);
    assert(after.geometry_ok()) by {
        reveal(Board::geometry_ok);
    }
    assert forall|x: int, y: int| #[trigger] after.adjacent(x, y) implies after.adjacent(y, x) by {
        lemma_adjacent_same_graph(b, after, x, y);
        lemma_adjacent_same_graph(b, after, y, x);
    }
}

/// Taking a stone back keeps the board well formed.
pub proof fn lemma_lift_wf(b: Board, c: int)
    requires
        b.wf(),
        b.in_range(c),
    ensures
        b.lift(c).wf(),
{
    let after = b.lift(c);
    assert(after.geometry_ok()) by {
        reveal(Board::geometry_ok);
    }
    assert forall|x: int, y: int| #[trigger] after.adjacent(x, y) implies after.adjacent(y, x) by {
        lemma_adjacent_same_graph(b, after, x, y);
        lemma_adjacent_same_graph(b, after, y, x);
    }
}

} // verus!

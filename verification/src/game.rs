//! The game as the engine is handed it: the side of the board, who owns
//! which cell, and who moves next. The engine reads it once, when it builds
//! its snapshot; it does not hold the rules of the game.
use crate::coords::{
    lemma_triangle_bounded, lemma_triangle_closed_form, triangle, Coordinates, MAX_BOARD_SIZE, MAX_CELLS,
};
use crate::mask::{listed, lists_positions};
use crate::scan::{lemma_positions_unique, positions};
use vstd::prelude::*;

verus! {

/// One of the two players: 0 or 1.
#[derive(Clone, Copy, Debug, PartialEq, Eq, Structural)]
pub struct PlayerId {
    pub id: u32,
}

impl PlayerId {
    /// The player with the given number.
    pub fn new(id: u32) -> (player: PlayerId)
        ensures
            player.id == id,
    {
        PlayerId { id }
    }

    /// The number of the player.
    pub fn id(&self) -> (id: u32)
        ensures
            id == self.id,
    {
        self.id
    }

    /// The opponent: player 1 for player 0, else player 0.
    pub open spec fn spec_other(self) -> PlayerId {
        if self.id == 0 {
            PlayerId { id: 1 }
        } else {
            PlayerId { id: 0 }
        }
    }
}

/// The opponent of a player.
pub fn other_player(player: PlayerId) -> (other: PlayerId)
    ensures
        other == player.spec_other(),
{
    if player.id == 0 {
        PlayerId { id: 1 }
    } else {
        PlayerId { id: 0 }
    }
}

/// What a game stands for in contracts.
pub struct GameView {
    /// Side of the board.
    pub size: u32,
    /// Per cell: the player whose stone lies there, if any.
    pub owners: Seq<Option<PlayerId>>,
    /// The player to move; nobody once the game is over.
    pub next: Option<PlayerId>,
}

impl GameView {
    /// Number of cells on the board.
    pub open spec fn cells(self) -> int {
        self.owners.len() as int
    }

    /// Per cell: whether a stone lies there.
    pub open spec fn occupied(self) -> Seq<bool> {
        Seq::new(self.owners.len(), |c: int| self.owners[c] is Some)
    }

    /// Some cell holds no stone.
    pub open spec fn has_empty_cell(self) -> bool {
        exists|c: int| 0 <= c < self.cells() && #[trigger] self.owners[c] is None
    }

    /// The board has the cells of its side, every stone belongs to one of
    /// the two players, and whoever is to move has an empty cell to move to.
    pub open spec fn wf(self) -> bool {
        &&& 1 <= self.size <= MAX_BOARD_SIZE
        &&& self.cells() == triangle(self.size as int)
        &&& forall|c: int|
            0 <= c < self.cells() && #[trigger] self.owners[c] is Some ==> self.owners[c].unwrap().id <= 1
        &&& self.next is Some ==> self.next.unwrap().id <= 1 && self.has_empty_cell()
    }
}

/// `stones` lists the stones of a game, lowest cell first, each with its
/// coordinates and its owner.
pub open spec fn lists_stones(stones: Seq<(Coordinates, PlayerId)>, game: GameView) -> bool {
    &&& lists_positions(stone_cells(stones, game.size), game.occupied(), true)
    &&& forall|k: int|
        0 <= k < stones.len() ==> stone_placed(#[trigger] stones[k], game)
}

/// The stone lies on a cell of the board of the game, which records its
/// owner.
pub open spec fn stone_placed(stone: (Coordinates, PlayerId), game: GameView) -> bool {
    stone.0.spec_is_valid(game.size) && game.owners[stone.0.spec_to_index(game.size)] == Some(stone.1)
}

/// A game of Y: a triangular board with the stones on it and the player
/// to move.
pub struct GameY {
    size: u32,
    cells: Vec<Option<PlayerId>>,
    next: Option<PlayerId>,
}

impl View for GameY {
    type V = GameView;

    closed spec fn view(&self) -> GameView {
        GameView { size: self.size, owners: self.cells@, next: self.next }
    }
}

impl GameY {
    /// The game stands for a well-formed `GameView`.
    pub open spec fn wf(&self) -> bool {
        self@.wf()
    }

    /// An empty board of side `size`, with player 0 to move.
    pub fn new(size: u32) -> (game: GameY)
        requires
            1 <= size <= MAX_BOARD_SIZE,
        ensures
            game.wf(),
            game@.size == size,
            game@.next == Some(PlayerId { id: 0 }),
            forall|c: int| 0 <= c < game@.cells() ==> #[trigger] game@.owners[c] is None,
    {
        proof {
            lemma_triangle_closed_form(size as int);
            lemma_triangle_bounded(size);
        }
        let total: u32 = size * (size + 1) / 2;
        let mut cells: Vec<Option<PlayerId>> = Vec::new();
        let mut i: u32 = 0;
        while i < total
            invariant
                i <= total,
                cells@.len() == i,
                forall|c: int| 0 <= c < i ==> #[trigger] cells@[c] is None,
            decreases total - i,
        {
            cells.push(None);
            i = i + 1;
        }
        let game = GameY { size, cells, next: Some(PlayerId { id: 0 }) };
        assert(game@.owners[0] is None);
        game
    }

    /// Side of the board.
    pub fn board_size(&self) -> (size: u32)
        ensures
            size == self@.size,
    {
        self.size
    }

    /// Number of cells on the board.
    pub fn total_cells(&self) -> (total: u32)
        requires
            self.wf(),
        ensures
            total == self@.cells(),
    {
        proof {
            lemma_triangle_closed_form(self.size as int);
            lemma_triangle_bounded(self.size);
        }
        self.size * (self.size + 1) / 2
    }

    /// The player to move; nobody once the game is over.
    pub fn next_player(&self) -> (next: Option<PlayerId>)
        ensures
            next == self@.next,
    {
        self.next
    }

    /// The cells next to a cell of the board.
    pub fn get_neighbors(&self, coords: &Coordinates) -> (cells: Vec<Coordinates>)
        requires
            self.wf(),
            coords.spec_is_valid(self@.size),
        ensures
            cells@ == coords.spec_neighbors(),
    {
        coords.neighbors(self.size)
    }

    /// The stones on the board, lowest cell first.
    pub fn board_map(&self) -> (stones: Vec<(Coordinates, PlayerId)>)
        requires
            self.wf(),
        ensures
            lists_stones(stones@, self@),
    {
        let ghost game = self@;
        let mut stones: Vec<(Coordinates, PlayerId)> = Vec::new();
        let total = self.cells.len();
        proof {
            lemma_triangle_closed_form(self.size as int);
            lemma_triangle_bounded(self.size);
        }
        let mut idx: usize = 0;
        while idx < total
            invariant
                self@ == game,
                game.wf(),
                total == game.cells(),
                total <= MAX_CELLS,
                idx <= total,
                lists_stones_upto(stones@, game, idx as int),
            decreases total - idx,
        {
            if let Some(owner) = self.cells[idx] {
                let coords = Coordinates::from_index(idx as u32, self.size);
                let ghost before = stones@;
                stones.push((coords, owner));
                proof {
                    let cells_before = stone_cells(before, game.size);
                    let cells_after = stone_cells(stones@, game.size);
                    assert(cells_after =~= cells_before.push(idx));
                    assert forall|c: int| 0 <= c < idx + 1 && #[trigger] game.occupied()[c] implies listed(
                        cells_after,
                        c,
                    ) by {
                        if c < idx {
                            assert(listed(cells_before, c));
                            let k = choose|k: int| 0 <= k < cells_before.len() && #[trigger] cells_before[k] == c;
                            assert(cells_after[k] == c);
                        } else {
                            assert(cells_after[before.len() as int] == c);
                        }
                    }
                }
            }
            idx = idx + 1;
        }
        proof {
            let cells = stone_cells(stones@, game.size);
            assert forall|k: int| 0 <= k < cells.len() implies (#[trigger] cells[k]) < game.occupied().len()
                && game.occupied()[cells[k] as int] == true by {}
        }
        stones
    }

    /// The empty cells, lowest first.
    pub fn available_cells(&self) -> (cells: Vec<usize>)
        requires
            self.wf(),
        ensures
            cells@ == positions(self@.occupied(), false),
    {
        let ghost game = self@;
        let mut cells: Vec<usize> = Vec::new();
        let total = self.cells.len();
        let mut idx: usize = 0;
        while idx < total
            invariant
                self@ == game,
                total == game.cells(),
                idx <= total,
                forall|k: int|
                    0 <= k < cells@.len() ==> (#[trigger] cells@[k]) < idx && !game.occupied()[cells@[k] as int],
                forall|j: int, k: int| 0 <= j < k < cells@.len() ==> cells@[j] < cells@[k],
                forall|c: int| 0 <= c < idx && !(#[trigger] game.occupied()[c]) ==> listed(cells@, c),
            decreases total - idx,
        {
            if self.cells[idx].is_none() {
                let ghost before = cells@;
                cells.push(idx);
                proof {
                    assert forall|c: int| 0 <= c < idx + 1 && !(#[trigger] game.occupied()[c]) implies listed(
                        cells@,
                        c,
                    ) by {
                        if c < idx {
                            assert(listed(before, c));
                            let k = choose|k: int| 0 <= k < before.len() && #[trigger] before[k] == c;
                            assert(cells@[k] == c);
                        } else {
                            assert(cells@[before.len() as int] == c);
                        }
                    }
                }
            }
            idx = idx + 1;
        }
        proof {
            lemma_positions_unique(cells@, game.occupied(), false);
        }
        cells
    }

    /// Puts a stone of `player` on the cell `coords` and hands the move to
    /// the other player, or to nobody if the board is full. Refuses, and
    /// changes nothing, if the game is over, `player` is neither 0 nor 1,
    /// `coords` is not on the board, or the cell is taken.
    pub fn add_move(&mut self, coords: Coordinates, player: PlayerId) -> (placed: bool)
        requires
            old(self).wf(),
        ensures
            final(self).wf(),
            placed == (old(self)@.next is Some && player.id <= 1 && coords.spec_is_valid(old(self)@.size)
                && old(self)@.owners[coords.spec_to_index(old(self)@.size)] is None),
            !placed ==> final(self)@ == old(self)@,
            placed ==> final(self)@.size == old(self)@.size && final(self)@.owners == old(self)@.owners.update(
                coords.spec_to_index(old(self)@.size),
                Some(player),
            ) && final(self)@.next == if final(self)@.has_empty_cell() {
                Some(player.spec_other())
            } else {
                None
            },
    {
        if self.next.is_none() || player.id > 1 || !coords.is_valid(self.size) {
            return false;
        }
        let idx = coords.to_index(self.size) as usize;
        if self.cells[idx].is_some() {
            return false;
        }
        self.cells[idx] = Some(player);
        let total = self.cells.len();
        let mut probe: usize = 0;
        while probe < total && self.cells[probe].is_some()
            invariant
                total == self.cells@.len(),
                probe <= total,
                forall|c: int| 0 <= c < probe ==> #[trigger] self.cells@[c] is Some,
            decreases total - probe,
        {
            probe = probe + 1;
        }
        if probe < total {
            assert(self@.owners[probe as int] is None);
            self.next = Some(other_player(player));
            assert(self@.owners[probe as int] is None);
        } else {
            self.next = None;
        }
        true
    }

    /// Ends the game: nobody is to move.
    pub fn finish(&mut self)
        requires
            old(self).wf(),
        ensures
            final(self).wf(),
            final(self)@ == (GameView { next: None, ..old(self)@ }),
    {
        self.next = None;
    }
}

/// The cell numbers of a list of stones.
pub open spec fn stone_cells(stones: Seq<(Coordinates, PlayerId)>, size: u32) -> Seq<usize> {
    Seq::new(stones.len(), |k: int| stones[k].0.spec_to_index(size) as usize)
}

/// `stones` lists the stones below cell `upto`.
pub open spec fn lists_stones_upto(stones: Seq<(Coordinates, PlayerId)>, game: GameView, upto: int) -> bool {
    let cells = stone_cells(stones, game.size);
    &&& forall|k: int| 0 <= k < cells.len() ==> (#[trigger] cells[k]) < upto && game.occupied()[cells[k] as int]
    &&& forall|j: int, k: int| 0 <= j < k < cells.len() ==> cells[j] < cells[k]
    &&& forall|c: int| 0 <= c < upto && #[trigger] game.occupied()[c] ==> listed(cells, c)
    &&& forall|k: int| 0 <= k < stones.len() ==> stone_placed(#[trigger] stones[k], game)
}

} // verus!

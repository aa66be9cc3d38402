//! The board that a game stands for when the engine plays one of its
//! sides, and why that board is well formed.
use crate::board::Board;
use crate::coords::{
    lemma_adjacent_symmetric, lemma_cell_round_trip, lemma_index_round_trip, lemma_neighbors,
    lemma_triangle_bounded, Coordinates,
};
use crate::game::{GameView, PlayerId};
use vstd::prelude::*;

verus! {

/// How the owner of a cell is recorded: 0 for nobody, else the player's
/// number plus one.
pub open spec fn owner_code(owner: Option<PlayerId>) -> u8 {
    match owner {
        Some(player) => (player.id + 1) as u8,
        None => 0,
    }
}

/// The board of a game, seen by the engine playing as `bot`.
pub open spec fn snapshot(game: GameView, bot: PlayerId) -> Board {
    let cells = game.owners.len();
    Board {
        size: game.size,
        owner: Seq::new(cells, |c: int| owner_code(game.owners[c])),
        available: Seq::new(cells, |c: int| game.owners[c] is None),
        neighbors: Seq::new(cells, |c: int| Coordinates::spec_from_index(c, game.size).spec_neighbor_cells(game.size)),
        edges: Seq::new(cells, |c: int| Coordinates::spec_from_index(c, game.size).spec_side_flags()),
        coords: Seq::new(cells, |c: int| Coordinates::spec_from_index(c, game.size)),
        bot_id: (bot.id + 1) as u8,
        human_id: (bot.spec_other().id + 1) as u8,
    }
}

/// On the board of a game, two cells are adjacent exactly when their
/// coordinates are.
pub proof fn lemma_snapshot_adjacent(game: GameView, bot: PlayerId, a: int, b: int)
    requires
        game.wf(),
        0 <= a < game.cells(),
        0 <= b < game.cells(),
    ensures
        snapshot(game, bot).adjacent(a, b) == Coordinates::spec_from_index(a, game.size).spec_adjacent(
            Coordinates::spec_from_index(b, game.size),
        ),
{
    let board = snapshot(game, bot);
    let pa = Coordinates::spec_from_index(a, game.size);
    let pb = Coordinates::spec_from_index(b, game.size);
    lemma_cell_round_trip(a, game.size);
    lemma_cell_round_trip(b, game.size);
    lemma_neighbors(pa, game.size);
    lemma_triangle_bounded(game.size);
    assert(board.neighbors[a] == pa.spec_neighbor_cells(game.size));
    if board.adjacent(a, b) {
        let k = choose|k: int| 0 <= k < board.neighbors[a].len() && #[trigger] board.neighbors[a][k] == b;
        let q = pa.spec_neighbors()[k];
        assert(q.spec_is_valid(game.size));
        lemma_index_round_trip(q, game.size);
        assert(board.neighbors[a][k] == q.spec_to_index(game.size) as usize);
        assert(q == pb);
    }
    if pa.spec_adjacent(pb) {
        let k = choose|k: int| 0 <= k < pa.spec_neighbors().len() && #[trigger] pa.spec_neighbors()[k] == pb;
        assert(board.neighbors[a][k] == pb.spec_to_index(game.size) as usize);
        assert(board.neighbors[a][k] == b);
    }
}

/// The neighbours listed for a cell of the board of a game are cells of
/// that board.
pub proof fn lemma_snapshot_neighbors(game: GameView, bot: PlayerId, c: int)
    requires
        game.wf(),
        0 <= c < game.cells(),
    ensures
        snapshot(game, bot).neighbors[c].len() <= 6,
        forall|k: int|
            0 <= k < snapshot(game, bot).neighbors[c].len() ==> (#[trigger] snapshot(game, bot).neighbors[c][k])
                < game.cells(),
{
    let board = snapshot(game, bot);
    let p = Coordinates::spec_from_index(c, game.size);
    lemma_cell_round_trip(c, game.size);
    lemma_neighbors(p, game.size);
    lemma_triangle_bounded(game.size);
    assert(board.neighbors[c] == p.spec_neighbor_cells(game.size));
    assert forall|k: int| 0 <= k < board.neighbors[c].len() implies (#[trigger] board.neighbors[c][k])
        < game.cells() by {
        lemma_index_round_trip(p.spec_neighbors()[k], game.size);
    }
}

/// The board of a well-formed game is well formed, whichever of the two
/// players the engine plays.
pub proof fn lemma_snapshot_wf(game: GameView, bot: PlayerId)
    requires
        game.wf(),
        bot.id <= 1,
    ensures
        snapshot(game, bot).wf(),
{
    let board = snapshot(game, bot);
    assert forall|c: int| 0 <= c < board.cells() implies (#[trigger] board.neighbors[c]).len() <= 6 by {
        lemma_snapshot_neighbors(game, bot, c);
    }
    assert forall|c: int, k: int| 0 <= c < board.cells() && 0 <= k < board.neighbors[c].len() implies (
    #[trigger] board.neighbors[c][k]) < board.cells() by {
        lemma_snapshot_neighbors(game, bot, c);
    }
    assert forall|a: int, b: int| #[trigger] board.adjacent(a, b) implies board.adjacent(b, a) by {
        let k = choose|k: int| 0 <= k < board.neighbors[a].len() && #[trigger] board.neighbors[a][k] == b;
        lemma_snapshot_neighbors(game, bot, a);
        lemma_snapshot_adjacent(game, bot, a, b);
        lemma_snapshot_adjacent(game, bot, b, a);
        lemma_adjacent_symmetric(
            Coordinates::spec_from_index(a, game.size),
            Coordinates::spec_from_index(b, game.size),
        );
    }
    assert(board.graph_ok());
    assert(board.availability_matches_owner());
    assert(board.geometry_ok()) by {
        reveal(Board::geometry_ok);
    }
}

} // verus!

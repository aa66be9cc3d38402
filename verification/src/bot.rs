//! The engine as a player: given a game, it answers with a cell.
use crate::board::Board;
use crate::coords::{lemma_cell_round_trip, lemma_triangle_bounded, Coordinates};
use crate::game::GameY;
use crate::search::{deepening_choice, first_available, greedy_search, iterative_deepening_search, tactical_choice};
use crate::snapshot::{lemma_snapshot_wf, snapshot};
use crate::state::MinimaxState;
use vstd::prelude::*;

verus! {

/// `chosen` is the answer of the engine on board `b`: the tactical move if
/// there is one; else the move of some run of iterative deepening, which is
/// the lowest available cell when there is no time at all.
pub open spec fn engine_choice(b: Board, max_time_ms: u64, chosen: Coordinates) -> bool {
    if exists|c: int| b.tactical_at(c) {
        tactical_choice(b, Some(chosen))
    } else {
        exists|m: usize| #[trigger]
            deepening_choice(b, m) && m < b.cells() && b.available[m as int] && chosen == b.coords[m as int] && (
            max_time_ms == 0 ==> first_available(b, m as int))
    }
}

/// The engine with its time budget.
pub struct MinimaxBot {
    max_time_ms: u64,
}

impl MinimaxBot {
    /// The time budget of one move, in milliseconds.
    pub closed spec fn budget(&self) -> u64 {
        self.max_time_ms
    }

    /// An engine that may spend `max_time_ms` milliseconds on a move.
    pub fn new(max_time_ms: u64) -> (bot: MinimaxBot)
        ensures
            bot.budget() == max_time_ms,
    {
        MinimaxBot { max_time_ms }
    }

    /// The name under which the engine is known.
    pub fn name(&self) -> (name: &'static str)
        ensures
            name@ == "minimax_bot"@,
    {
        "minimax_bot"
    }

    /// The move of the engine for the player whose turn it is; nothing if
    /// the game is over. A cell that wins at once, or that the opponent
    /// needs to win at once, is played without further search.
    pub fn choose_move(&self, game: &GameY) -> (chosen: Option<Coordinates>)
        requires
            game.wf(),
        ensures
            game@.next is None ==> chosen is None,
            game@.next is Some ==> chosen is Some && engine_choice(
                snapshot(game@, game@.next.unwrap()),
                self.budget(),
                chosen.unwrap(),
            ),
            chosen is Some ==> chosen.unwrap().spec_is_valid(game@.size) && game@.owners[chosen.unwrap().spec_to_index(
                game@.size,
            )] is None,
    {
        let bot_player = match game.next_player() {
            Some(player) => player,
            None => {
                return None;
            },
        };
        let ghost b = snapshot(game@, bot_player);
        proof {
            lemma_snapshot_wf(game@, bot_player);
            lemma_triangle_bounded(game@.size);
            let c = choose|c: int| 0 <= c < game@.cells() && #[trigger] game@.owners[c] is None;
            assert(b.available[c]);
        }

        let mut state = MinimaxState::new(game, bot_player);

        if let Some(coordinates) = greedy_search(&mut state) {
            proof {
                let c = choose|c: int| #[trigger]
                    b.tactical_at(c) && coordinates == b.coords[c] && forall|w: int|
                        0 <= w < c ==> !b.tactical_at(w);
                lemma_cell_round_trip(c, game@.size);
            }
            return Some(coordinates);
        }
        let best_move = iterative_deepening_search(&mut state, self.max_time_ms);
        proof {
            lemma_cell_round_trip(best_move as int, game@.size);
        }

        let coordinates = Coordinates::from_index(best_move as u32, game.board_size());
        Some(coordinates)
    }
}

} // verus!

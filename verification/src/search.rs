//! Minimax with alpha-beta pruning over a board snapshot, the choice of the
//! best move at one depth, and what the two have to do with an exhaustive
//! search.
use crate::board::Board;
use crate::clock::{clock_start, elapsed_millis};
use crate::coords::{lemma_triangle_bounded, Coordinates, MAX_CELLS};
use crate::eval::{evaluate_state, INFINITY, WIN_SCORE};
use crate::mask::{listed, lists_positions};
use crate::moves::{move_items, moves_at, moves_from_vec, moves_len};
use crate::pruning::{
    lemma_alpha_beta_equivalence, lemma_exhaustive_bounded, lemma_exhaustive_is_best, lemma_pruned_resume,
    lemma_reply_wf,
};
use crate::scan::{bound_at, lemma_bounds_ordered, lemma_gap, lemma_positions_listed};
use crate::state::{lemma_place_then_lift, MinimaxState};
use vstd::prelude::*;

verus! {

/// The larger of two scores.
pub open spec fn spec_larger(a: int, b: int) -> int {
    if a >= b {
        a
    } else {
        b
    }
}

/// The smaller of two scores.
pub open spec fn spec_smaller(a: int, b: int) -> int {
    if a <= b {
        a
    } else {
        b
    }
}

impl Board {
    /// The identity of the player to move at a ply.
    pub open spec fn mover(self, maximizing: bool) -> u8 {
        if maximizing {
            self.bot_id
        } else {
            self.human_id
        }
    }

    /// The score with which a ply starts, before any move has been tried.
    pub open spec fn worst_for(maximizing: bool) -> int {
        if maximizing {
            -INFINITY
        } else {
            INFINITY as int
        }
    }

    /// Value of the position after the mover has played on `c`, searched to
    /// the end of the remaining depth. It is asked for at depth 1 and more;
    /// at depth 0 no move is made, and it is 0.
    pub open spec fn reply_value(self, depth: nat, maximizing: bool, c: int) -> int
        decreases depth, 0int, 0int,
    {
        if depth == 0 {
            0
        } else {
            self.place(c, self.mover(maximizing)).exhaustive_upto((depth - 1) as nat, !maximizing, self.cells())
        }
    }

    /// Value of a search without pruning that tries only the available cells
    /// below `upto`: at depth 0 the evaluation, else the best reply value
    /// for the mover.
    pub open spec fn exhaustive_upto(self, depth: nat, maximizing: bool, upto: int) -> int
        decreases depth, 1int, upto,
    {
        if depth == 0 {
            self.evaluation()
        } else if upto <= 0 {
            Self::worst_for(maximizing)
        } else {
            let rest = self.exhaustive_upto(depth, maximizing, upto - 1);
            let c = upto - 1;
            if self.available[c] {
                let reply = self.reply_value(depth, maximizing, c);
                if maximizing {
                    spec_larger(rest, reply)
                } else {
                    spec_smaller(rest, reply)
                }
            } else {
                rest
            }
        }
    }

    /// Value of the position for the engine under an exhaustive search of
    /// `depth` plies.
    pub open spec fn minimax_value(self, depth: nat, maximizing: bool) -> int {
        self.exhaustive_upto(depth, maximizing, self.cells())
    }

    /// The score that the pruning search returns for a window
    /// `(alpha, beta)`.
    pub open spec fn alphabeta(self, depth: nat, alpha: int, beta: int, maximizing: bool) -> int
        decreases depth, 2int, 0int,
    {
        if depth == 0 {
            self.evaluation()
        } else {
            self.pruned_from(depth, alpha, beta, maximizing, 0, Self::worst_for(maximizing))
        }
    }

    /// The pruning search of one ply, taken up at cell `from` with the
    /// window and the best score that the cells before it have left.
    pub open spec fn pruned_from(
        self,
        depth: nat,
        alpha: int,
        beta: int,
        maximizing: bool,
        from: int,
        best: int,
    ) -> int
        decreases depth, 1int, self.cells() - from,
    {
        if depth == 0 || from < 0 || from >= self.cells() {
            best
        } else if !self.available[from] {
            self.pruned_from(depth, alpha, beta, maximizing, from + 1, best)
        } else {
            let score = self.place(from, self.mover(maximizing)).alphabeta(
                (depth - 1) as nat,
                alpha,
                beta,
                !maximizing,
            );
            if maximizing {
                let raised = spec_larger(alpha, score);
                if beta <= raised {
                    spec_larger(best, score)
                } else {
                    self.pruned_from(depth, raised, beta, maximizing, from + 1, spec_larger(best, score))
                }
            } else {
                let lowered = spec_smaller(beta, score);
                if lowered <= alpha {
                    spec_smaller(best, score)
                } else {
                    self.pruned_from(depth, alpha, lowered, maximizing, from + 1, spec_smaller(best, score))
                }
            }
        }
    }
}

/// How a score `r` that a search with window `(alpha, beta)` returned
/// stands to the value `v` of an exhaustive search: inside the window it is
/// the value; at or below `alpha` it is an upper bound of it; at or above
/// `beta` a lower bound.
pub open spec fn bounds_value(alpha: int, beta: int, r: int, v: int) -> bool {
    &&& r <= alpha ==> v <= r
    &&& r >= beta ==> v >= r
    &&& alpha < r < beta ==> v == r
}

fn larger(a: i32, b: i32) -> (m: i32)
    ensures
        m == spec_larger(a as int, b as int),
{
    if a >= b {
        a
    } else {
        b
    }
}

fn smaller(a: i32, b: i32) -> (m: i32)
    ensures
        m == spec_smaller(a as int, b as int),
{
    if a <= b {
        a
    } else {
        b
    }
}

/// Alpha-beta search of `depth` plies. At depth 0 the evaluation; else
/// every available cell is tried in turn for the player to move, the best
/// score is kept and the window narrowed, and the scan stops once the window
/// is closed.
pub fn minimax(state: &mut MinimaxState, depth: u8, alpha: i32, beta: i32, maximizing_player: bool) -> (score: i32)
    requires
        old(state).wf(),
    ensures
        final(state).wf(),
        final(state)@ == old(state)@,
        score == old(state)@.alphabeta(depth as nat, alpha as int, beta as int, maximizing_player),
        depth == 0 ==> score == old(state)@.evaluation(),
    decreases depth,
{
    if depth == 0 {
        return evaluate_state(state);
    }
    let ghost b = state@;
    let moves = moves_from_vec(state.available_cells());
    let count = moves_len(&moves);
    let ghost cells = move_items(moves);
    proof {
        lemma_triangle_bounded(b.size);
        lemma_positions_listed(b.available, true);
        lemma_pruned_resume(
            b,
            depth as nat,
            alpha as int,
            beta as int,
            maximizing_player,
            cells,
            0,
            Board::worst_for(maximizing_player),
        );
    }

    if maximizing_player {
        let bot_id = state.bot_id();
        let mut best_score = -INFINITY;
        let mut alpha = alpha;
        let ghost window = alpha;
        let mut i: usize = 0;
        while i < count
            invariant_except_break
                b.pruned_from(
                    depth as nat,
                    alpha as int,
                    beta as int,
                    true,
                    bound_at(cells, i as int, b.cells()),
                    best_score as int,
                ) == b.alphabeta(depth as nat, window as int, beta as int, true),
            invariant
                state.wf(),
                state@ == b,
                b == old(state)@,
                depth > 0,
                bot_id == b.bot_id,
                cells == move_items(moves),
                count == cells.len(),
                lists_positions(cells, b.available, true),
                i <= count,
            ensures
                best_score == b.alphabeta(depth as nat, window as int, beta as int, true),
            decreases count - i,
        {
            let move_idx = moves_at(&moves, i);
            proof {
                assert(cells[i as int] < b.available.len() && b.available[cells[i as int] as int]);
                lemma_place_then_lift(b, move_idx as int, bot_id);
                lemma_pruned_resume(
                    b,
                    depth as nat,
                    spec_larger(alpha as int, b.place(move_idx as int, bot_id).alphabeta(
                        (depth - 1) as nat,
                        alpha as int,
                        beta as int,
                        false,
                    )),
                    beta as int,
                    true,
                    cells,
                    i as int + 1,
                    spec_larger(best_score as int, b.place(move_idx as int, bot_id).alphabeta(
                        (depth - 1) as nat,
                        alpha as int,
                        beta as int,
                        false,
                    )),
                );
            }
            state.make_move(move_idx, bot_id);

            let score = minimax(state, depth - 1, alpha, beta, false);

            state.undo_move(move_idx);

            best_score = larger(best_score, score);

            alpha = larger(alpha, score);
            if beta <= alpha {
                break;
            }
            i = i + 1;
        }
        best_score
    } else {
        let human_id = state.human_id();
        let mut worst_score = INFINITY;
        let mut beta = beta;
        let ghost window = beta;
        let mut i: usize = 0;
        while i < count
            invariant_except_break
                b.pruned_from(
                    depth as nat,
                    alpha as int,
                    beta as int,
                    false,
                    bound_at(cells, i as int, b.cells()),
                    worst_score as int,
                ) == b.alphabeta(depth as nat, alpha as int, window as int, false),
            invariant
                state.wf(),
                state@ == b,
                b == old(state)@,
                depth > 0,
                human_id == b.human_id,
                cells == move_items(moves),
                count == cells.len(),
                lists_positions(cells, b.available, true),
                i <= count,
            ensures
                worst_score == b.alphabeta(depth as nat, alpha as int, window as int, false),
            decreases count - i,
        {
            let move_idx = moves_at(&moves, i);
            proof {
                assert(cells[i as int] < b.available.len() && b.available[cells[i as int] as int]);
                lemma_place_then_lift(b, move_idx as int, human_id);
                lemma_pruned_resume(
                    b,
                    depth as nat,
                    alpha as int,
                    spec_smaller(beta as int, b.place(move_idx as int, human_id).alphabeta(
                        (depth - 1) as nat,
                        alpha as int,
                        beta as int,
                        true,
                    )),
                    false,
                    cells,
                    i as int + 1,
                    spec_smaller(worst_score as int, b.place(move_idx as int, human_id).alphabeta(
                        (depth - 1) as nat,
                        alpha as int,
                        beta as int,
                        true,
                    )),
                );
            }
            state.make_move(move_idx, human_id);

            let score = minimax(state, depth - 1, alpha, beta, true);

            state.undo_move(move_idx);

            worst_score = smaller(worst_score, score);

            beta = smaller(beta, score);
            if beta <= alpha {
                break;
            }
            i = i + 1;
        }
        worst_score
    }
}

/// The order in which one depth tries the cells: lowest first, but for
/// the hinted cell, which changes places with the lowest if it is among
/// them.
pub open spec fn scan_order(cells: Seq<usize>, hint: Option<usize>) -> Seq<usize> {
    if hint is Some && listed(cells, hint.unwrap() as int) {
        let pos = choose|pos: int| 0 <= pos < cells.len() && #[trigger] cells[pos] == hint.unwrap();
        cells.update(0, cells[pos]).update(pos, cells[0])
    } else {
        cells
    }
}

/// Entry `at` of `order` has the reply value `score`, and no entry before
/// it comes up to that.
pub open spec fn first_best(b: Board, depth: nat, order: Seq<usize>, at: int, score: int) -> bool {
    &&& 0 <= at < order.len()
    &&& b.reply_value(depth, true, order[at] as int) == score
    &&& forall|j: int| 0 <= j < at ==> b.reply_value(depth, true, #[trigger] order[j] as int) < score
}

/// `found` is what the search of one depth chooses: the score is the value
/// of an exhaustive search of that depth, and the move is the first in scan
/// order to reach it.
pub open spec fn best_move_is(b: Board, depth: nat, hint: Option<usize>, found: (usize, int)) -> bool {
    &&& found.1 == b.minimax_value(depth, true)
    &&& exists|at: int| #[trigger]
        first_best(b, depth, scan_order(b.open_cells(), hint), at, found.1) && scan_order(
            b.open_cells(),
            hint,
        )[at] == found.0
}

/// Some cell is available.
pub open spec fn has_move(b: Board) -> bool {
    exists|c: int| 0 <= c < b.cells() && #[trigger] b.available[c]
}

/// Best move and its score at one depth. Every available cell is tried,
/// the hinted one first; each is valued by a search of `depth - 1` plies from
/// the opponent's side, and the first cell with the strictly greatest value
/// is kept.
pub fn search_best_move(state: &mut MinimaxState, depth: u8, pv_move: Option<usize>) -> (found: (usize, i32))
    requires
        old(state).wf(),
        depth >= 1,
        has_move(old(state)@),
    ensures
        final(state).wf(),
        final(state)@ == old(state)@,
        found.0 < old(state)@.cells(),
        old(state)@.available[found.0 as int],
        best_move_is(old(state)@, depth as nat, pv_move, (found.0, found.1 as int)),
{
    let ghost b = state@;
    let mut moves: Vec<usize> = state.available_cells();
    let ghost cells = moves@;
    proof {
        lemma_triangle_bounded(b.size);
        lemma_positions_listed(b.available, true);
        let c = choose|c: int| 0 <= c < b.cells() && #[trigger] b.available[c];
        assert(listed(cells, c));
    }

    if let Some(pv) = pv_move {
        let mut pos: usize = 0;
        while pos < moves.len() && moves[pos] != pv
            invariant
                moves@ == cells,
                pos <= moves.len(),
                forall|j: int| 0 <= j < pos ==> cells[j] != pv,
            decreases moves.len() - pos,
        {
            pos = pos + 1;
        }
        if pos < moves.len() {
            let first = moves[0];
            moves[0] = moves[pos];
            moves[pos] = first;
            proof {
                let chosen = choose|chosen: int| 0 <= chosen < cells.len() && #[trigger] cells[chosen] == pv;
                if chosen < pos {
                    assert(cells[chosen] < cells[pos as int]);
                } else if pos < chosen {
                    assert(cells[pos as int] < cells[chosen]);
                }
            }
        }
    }
    let ghost order = moves@;
    assert(order == scan_order(cells, pv_move));
    assert(order.len() == cells.len());
    assert forall|j: int| 0 <= j < order.len() implies listed(cells, #[trigger] order[j] as int) by {
        if order[j] == cells[j] {
        } else if order[j] == cells[0] {
        } else {
            let pos = choose|pos: int| 0 <= pos < cells.len() && #[trigger] cells[pos] == pv_move.unwrap();
            assert(order[j] == cells[pos]);
        }
    }
    assert forall|k: int| 0 <= k < cells.len() implies listed(order, #[trigger] cells[k] as int) by {
        if order[k] == cells[k] {
        } else {
            let pos = choose|pos: int| 0 <= pos < cells.len() && #[trigger] cells[pos] == pv_move.unwrap();
            if k == 0 {
                assert(order[pos] == cells[0]);
            } else {
                assert(k == pos);
                assert(order[0] == cells[k]);
            }
        }
    }

    let bot_id = state.bot_id();
    let mut best_score = -INFINITY;
    let mut best_move = moves[0];
    let ghost mut at: int = 0;

    let mut i: usize = 0;
    while i < moves.len()
        invariant
            state.wf(),
            state@ == b,
            b == old(state)@,
            depth >= 1,
            bot_id == b.bot_id,
            moves@ == order,
            order.len() > 0,
            forall|j: int| 0 <= j < order.len() ==> listed(cells, #[trigger] order[j] as int),
            lists_positions(cells, b.available, true),
            i <= order.len(),
            0 <= at < order.len(),
            order[at] == best_move,
            -INFINITY <= best_score,
            i == 0 ==> at == 0 && best_score == -INFINITY,
            i > 0 ==> at < i && first_best(b, depth as nat, order, at, best_score as int),
            forall|j: int| 0 <= j < i ==> b.reply_value(depth as nat, true, #[trigger] order[j] as int) <= best_score,
        decreases order.len() - i,
    {
        let move_idx = moves[i];
        proof {
            assert(listed(cells, order[i as int] as int));
            let k = choose|k: int| 0 <= k < cells.len() && #[trigger] cells[k] == move_idx as int;
            assert(cells[k] < b.available.len() && b.available[cells[k] as int]);
            lemma_place_then_lift(b, move_idx as int, bot_id);
            lemma_reply_wf(b, true, move_idx as int);
            let child = b.place(move_idx as int, bot_id);
            lemma_alpha_beta_equivalence(child, (depth - 1) as nat, false);
            lemma_exhaustive_bounded(child, (depth - 1) as nat, false, b.cells());
            assert(b.reply_value(depth as nat, true, move_idx as int) == child.minimax_value(
                (depth - 1) as nat,
                false,
            ));
        }
        state.make_move(move_idx, bot_id);

        let score = minimax(state, depth - 1, -INFINITY, INFINITY, false);

        state.undo_move(move_idx);

        if score > best_score {
            best_score = score;
            best_move = move_idx;
            proof {
                at = i as int;
            }
        }
        i = i + 1;
    }
    proof {
        let k = choose|k: int| 0 <= k < cells.len() && #[trigger] cells[k] == best_move as int;
        assert(cells[k] < b.available.len() && b.available[cells[k] as int]);
        lemma_exhaustive_is_best(b, depth as nat, b.cells());
        lemma_exhaustive_bounded(b, depth as nat, true, b.cells());
        let value = b.minimax_value(depth as nat, true);
        assert(best_score <= value);
        if value != -INFINITY {
            let c = choose|c: int|
                0 <= c < b.cells() && b.available[c] && #[trigger] b.reply_value(depth as nat, true, c) == value;
            assert(listed(cells, c));
            let k = choose|k: int| 0 <= k < cells.len() && #[trigger] cells[k] == c;
            assert(listed(order, cells[k] as int));
            let j = choose|j: int| 0 <= j < order.len() && #[trigger] order[j] == c;
            assert(b.reply_value(depth as nat, true, order[j] as int) <= best_score);
        }
        assert(first_best(b, depth as nat, order, at, best_score as int));
    }

    (best_move, best_score)
}

/// The deepest search that iterative deepening starts.
pub const MAX_DEPTH: u8 = 100;

/// A score this close to `WIN_SCORE` confirms a forced win.
pub const WIN_MARGIN: i32 = 100;

/// Cell `c` is the lowest available cell.
pub open spec fn first_available(b: Board, c: int) -> bool {
    &&& b.in_range(c)
    &&& b.available[c]
    &&& forall|w: int| 0 <= w < c ==> !(#[trigger] b.available[w])
}

/// The score confirms a forced win, so that deepening may stop.
pub open spec fn spec_win_confirmed(score: int) -> bool {
    score >= WIN_SCORE - WIN_MARGIN
}

/// The ordering hint of round `j`: the move that the round before chose.
pub open spec fn hint_for(rounds: Seq<(usize, int)>, j: int) -> Option<usize> {
    if j <= 0 {
        None
    } else {
        Some(rounds[j - 1].0)
    }
}

/// `rounds` are the results of the searches of depth 1, 2, ... that
/// iterative deepening ran: each is the best move of its depth with the
/// result before it as hint, and none but the last confirms a win.
pub open spec fn deepening_trace(b: Board, rounds: Seq<(usize, int)>) -> bool {
    &&& rounds.len() <= MAX_DEPTH
    &&& forall|j: int|
        0 <= j < rounds.len() ==> best_move_is(b, (j + 1) as nat, hint_for(rounds, j), #[trigger] rounds[j])
    &&& forall|j: int| 0 <= j < rounds.len() - 1 ==> !spec_win_confirmed((#[trigger] rounds[j]).1)
}

/// `best` is the move of the last round of some run of iterative
/// deepening, or the lowest available cell if no round was run.
pub open spec fn deepening_choice(b: Board, best: usize) -> bool {
    exists|rounds: Seq<(usize, int)>| #[trigger]
        deepening_trace(b, rounds) && if rounds.len() == 0 {
            first_available(b, best as int)
        } else {
            rounds.last().0 == best
        }
}

/// Whether the time spent has reached the budget.
pub fn time_is_up(elapsed_ms: u128, max_time_ms: u64) -> (up: bool)
    ensures
        up == (elapsed_ms >= max_time_ms),
{
    elapsed_ms >= max_time_ms as u128
}

/// Whether a score confirms a forced win.
pub fn win_confirmed(score: i32) -> (confirmed: bool)
    ensures
        confirmed == spec_win_confirmed(score as int),
{
    score >= WIN_SCORE - WIN_MARGIN
}

/// Iterative deepening under a time budget in milliseconds. Searches depth
/// 1, 2, ... up to `MAX_DEPTH`, each with the move of the depth before as
/// hint. The clock is read before a depth starts and after it ends, never
/// within; deepening stops when the budget is spent or a score confirms a
/// win. Returns the move of the last depth searched, or the lowest available
/// cell if the budget was spent before the first.
pub fn iterative_deepening_search(state: &mut MinimaxState, max_time_ms: u64) -> (best_move: usize)
    requires
        old(state).wf(),
        has_move(old(state)@),
    ensures
        final(state).wf(),
        final(state)@ == old(state)@,
        best_move < old(state)@.cells(),
        old(state)@.available[best_move as int],
        deepening_choice(old(state)@, best_move),
        max_time_ms == 0 ==> first_available(old(state)@, best_move as int),
{
    let ghost b = state@;
    let start_time = clock_start();

    let cells = state.available_cells();
    proof {
        lemma_triangle_bounded(b.size);
        lemma_positions_listed(b.available, true);
        let c = choose|c: int| 0 <= c < b.cells() && #[trigger] b.available[c];
        assert(listed(cells@, c));
        assert(cells@[0] < b.available.len() && b.available[cells@[0] as int]);
        assert forall|w: int| 0 <= w < cells@[0] implies !(#[trigger] b.available[w]) by {
            lemma_gap(cells@, b.available, true, 0, w);
        }
    }
    let mut best_move = cells[0];
    let mut pv_move: Option<usize> = None;
    let ghost mut rounds: Seq<(usize, int)> = Seq::empty();

    let mut depth: u8 = 1;
    while depth <= MAX_DEPTH
        invariant_except_break
            rounds.len() == depth - 1,
            forall|j: int| 0 <= j < rounds.len() ==> !spec_win_confirmed((#[trigger] rounds[j]).1),
        invariant
            state.wf(),
            state@ == b,
            b == old(state)@,
            has_move(b),
            1 <= depth <= MAX_DEPTH + 1,
            best_move < b.cells(),
            b.available[best_move as int],
            deepening_trace(b, rounds),
            pv_move == hint_for(rounds, rounds.len() as int),
            rounds.len() == 0 ==> first_available(b, best_move as int),
            rounds.len() > 0 ==> rounds.last().0 == best_move && max_time_ms > 0,
        ensures
            deepening_trace(b, rounds),
            rounds.len() == 0 ==> first_available(b, best_move as int),
            rounds.len() > 0 ==> rounds.last().0 == best_move && max_time_ms > 0,
        decreases MAX_DEPTH + 1 - depth,
    {
        if time_is_up(elapsed_millis(&start_time), max_time_ms) {
            break;
        }
        let (move_found, score) = search_best_move(state, depth, pv_move);

        best_move = move_found;
        pv_move = Some(move_found);
        proof {
            let before = rounds;
            rounds = rounds.push((move_found, score as int));
            assert forall|j: int| 0 <= j < rounds.len() implies best_move_is(
                b,
                (j + 1) as nat,
                hint_for(rounds, j),
                #[trigger] rounds[j],
            ) by {
                if j < before.len() {
                    assert(rounds[j] == before[j]);
                    assert(hint_for(rounds, j) == hint_for(before, j));
                }
            }
            assert forall|j: int| 0 <= j < rounds.len() - 1 implies !spec_win_confirmed((#[trigger] rounds[j]).1) by {
                assert(rounds[j] == before[j]);
            }
        }

        if win_confirmed(score) {
            break;
        }
        if time_is_up(elapsed_millis(&start_time), max_time_ms) {
            break;
        }
        depth = depth + 1;
    }

    best_move
}

impl Board {
    /// A stone of `player` on the available cell `c` wins the game for
    /// that player.
    pub open spec fn wins_at(self, player: u8, c: int) -> bool {
        self.in_range(c) && self.available[c] && self.place(c, player).has_won(player)
    }

    /// Cell `c` wins at once for the engine, or would for the opponent.
    pub open spec fn tactical_at(self, c: int) -> bool {
        self.wins_at(self.bot_id, c) || self.wins_at(self.human_id, c)
    }
}

/// `found` is what the tactical scan reports: the coordinates of the
/// lowest cell on which either player would win at once, or nothing if
/// there is no such cell.
pub open spec fn tactical_choice(b: Board, found: Option<Coordinates>) -> bool {
    match found {
        Some(coords) => exists|c: int| #[trigger]
            b.tactical_at(c) && coords == b.coords[c] && forall|w: int| 0 <= w < c ==> !b.tactical_at(w),
        None => forall|c: int| !b.tactical_at(c),
    }
}

/// One-ply tactical scan. Tries the available cells lowest first: a cell
/// on which the engine wins at once is returned, and so is a cell on which
/// the opponent would. Every trial is taken back before the next and before
/// returning.
pub fn greedy_search(state: &mut MinimaxState) -> (found: Option<Coordinates>)
    requires
        old(state).wf(),
    ensures
        final(state).wf(),
        final(state)@ == old(state)@,
        tactical_choice(old(state)@, found),
{
    let ghost b = state@;
    let moves = moves_from_vec(state.available_cells());
    let count = moves_len(&moves);
    let ghost cells = move_items(moves);
    let bot_id = state.bot_id();
    let human_id = state.human_id();
    let size = state.size();
    proof {
        lemma_triangle_bounded(b.size);
        lemma_positions_listed(b.available, true);
        lemma_bounds_ordered(cells, b.available, true, 0);
        assert forall|c: int| 0 <= c < bound_at(cells, 0, b.cells()) implies !b.tactical_at(c) by {
            lemma_gap(cells, b.available, true, 0, c);
        }
    }

    let mut i: usize = 0;
    while i < count
        invariant
            state.wf(),
            state@ == b,
            b == old(state)@,
            b.cells() <= MAX_CELLS,
            bot_id == b.bot_id,
            human_id == b.human_id,
            size == b.size,
            cells == move_items(moves),
            count == cells.len(),
            lists_positions(cells, b.available, true),
            i <= count,
            forall|c: int| 0 <= c < bound_at(cells, i as int, b.cells()) ==> !b.tactical_at(c),
        decreases count - i,
    {
        let move_idx = moves_at(&moves, i);
        proof {
            assert(cells[i as int] < b.available.len() && b.available[cells[i as int] as int]);
            lemma_place_then_lift(b, move_idx as int, bot_id);
            lemma_place_then_lift(b, move_idx as int, human_id);
            assert(b.coords[move_idx as int] == Coordinates::spec_from_index(move_idx as int, size));
            lemma_bounds_ordered(cells, b.available, true, i as int + 1);
            assert forall|c: int| move_idx < c < bound_at(cells, i as int + 1, b.cells()) implies !b.tactical_at(
                c,
            ) by {
                lemma_gap(cells, b.available, true, i as int + 1, c);
            }
        }
        state.make_move(move_idx, bot_id);
        let bot_wins = state.check_win(bot_id);
        state.undo_move(move_idx);
        if bot_wins {
            assert(b.tactical_at(move_idx as int));
            return Some(Coordinates::from_index(move_idx as u32, size));
        }
        state.make_move(move_idx, human_id);
        let human_wins = state.check_win(human_id);
        state.undo_move(move_idx);
        if human_wins {
            assert(b.tactical_at(move_idx as int));
            return Some(Coordinates::from_index(move_idx as u32, size));
        }
        i = i + 1;
    }
    proof {
        assert forall|c: int| !b.tactical_at(c) by {
            if b.in_range(c) {
                assert(bound_at(cells, count as int, b.cells()) == b.cells());
            }
        }
    }
    None
}

} // verus!

use gamey::bot::MinimaxBot;
use gamey::coords::Coordinates;
use gamey::eval::{evaluate_state, INFINITY, LOSE_SCORE, WIN_SCORE};
use gamey::game::{GameY, PlayerId};
use gamey::search::{
    greedy_search, iterative_deepening_search, minimax, search_best_move, time_is_up, win_confirmed, MAX_DEPTH,
};
use gamey::state::MinimaxState;

fn empty_state(size: u32) -> MinimaxState {
    MinimaxState::new(&GameY::new(size), PlayerId::new(0))
}

fn owners(state: &MinimaxState) -> Vec<u8> {
    (0..state.total_cells()).map(|idx| state.owner_at(idx)).collect()
}

/// Minimax without pruning, written out plainly.
fn exhaustive(state: &mut MinimaxState, depth: u8, maximizing: bool) -> i32 {
    if depth == 0 {
        return evaluate_state(state);
    }
    let player = if maximizing { state.bot_id() } else { state.human_id() };
    let mut best = if maximizing { -INFINITY } else { INFINITY };
    for cell in state.available_cells() {
        state.make_move(cell, player);
        let score = exhaustive(state, depth - 1, !maximizing);
        state.undo_move(cell);
        best = if maximizing { best.max(score) } else { best.min(score) };
    }
    best
}

#[test]
fn pruning_returns_the_exhaustive_score() {
    let mut state = empty_state(3);
    state.make_move(1, 1);
    state.make_move(5, 2);
    for depth in 0..=4u8 {
        for maximizing in [true, false] {
            let pruned = minimax(&mut state, depth, -INFINITY, INFINITY, maximizing);
            assert_eq!(pruned, exhaustive(&mut state, depth, maximizing), "depth {}", depth);
        }
    }
}

#[test]
fn pruning_returns_the_exhaustive_score_on_a_side_four_board() {
    let mut state = empty_state(4);
    for &(cell, player) in &[(4usize, 1u8), (5, 2), (7, 1), (2, 2)] {
        state.make_move(cell, player);
    }
    for depth in 1..=3u8 {
        let pruned = minimax(&mut state, depth, -INFINITY, INFINITY, true);
        assert_eq!(pruned, exhaustive(&mut state, depth, true), "depth {}", depth);
    }
}

#[test]
fn a_narrow_window_bounds_the_exhaustive_score() {
    let mut state = empty_state(3);
    state.make_move(0, 1);
    let value = exhaustive(&mut state, 2, false);
    for &(alpha, beta) in &[(0, 100), (-50, 0), (150, 400), (-INFINITY, 0), (0, INFINITY)] {
        let score = minimax(&mut state, 2, alpha, beta, false);
        if score <= alpha {
            assert!(value <= score);
        } else if score >= beta {
            assert!(value >= score);
        } else {
            assert_eq!(value, score);
        }
    }
}

#[test]
fn depth_zero_is_the_evaluation_whatever_the_window() {
    let mut state = empty_state(3);
    state.make_move(2, 1);
    state.make_move(4, 2);
    let expected = evaluate_state(&mut state);
    for maximizing in [true, false] {
        assert_eq!(minimax(&mut state, 0, -INFINITY, INFINITY, maximizing), expected);
        assert_eq!(minimax(&mut state, 0, 500, 400, maximizing), expected);
        assert_eq!(minimax(&mut state, 0, 0, 0, maximizing), expected);
    }
}

#[test]
fn a_ply_without_moves_returns_its_starting_score() {
    let mut state = empty_state(1);
    state.make_move(0, 2);
    assert_eq!(minimax(&mut state, 1, -INFINITY, INFINITY, true), -INFINITY);
    assert_eq!(minimax(&mut state, 1, -INFINITY, INFINITY, false), INFINITY);
    assert_eq!(minimax(&mut state, 0, -INFINITY, INFINITY, true), LOSE_SCORE);
}

#[test]
fn minimax_leaves_the_board_alone() {
    let mut state = empty_state(3);
    state.make_move(1, 1);
    let before = owners(&state);
    minimax(&mut state, 3, -INFINITY, INFINITY, false);
    minimax(&mut state, 2, 10, 20, true);
    assert_eq!(owners(&state), before);
    assert_eq!(state.available_cells(), vec![0, 2, 3, 4, 5]);
}

#[test]
fn best_move_is_the_first_with_the_greatest_reply_value() {
    let mut state = empty_state(3);
    state.make_move(1, 2);
    for depth in 1..=3u8 {
        let mut expected: Option<(usize, i32)> = None;
        for cell in state.available_cells() {
            state.make_move(cell, 1);
            let value = exhaustive(&mut state, depth - 1, false);
            state.undo_move(cell);
            if expected.map_or(true, |(_, best)| value > best) {
                expected = Some((cell, value));
            }
        }
        assert_eq!(search_best_move(&mut state, depth, None), expected.unwrap());
        assert_eq!(expected.unwrap().1, exhaustive(&mut state, depth, true));
    }
}

#[test]
fn the_hint_is_tried_first_and_wins_ties() {
    // a full row of the opponent: every reply is lost, so all moves tie
    let mut state = empty_state(3);
    for cell in [3usize, 4, 5] {
        state.make_move(cell, 2);
    }
    assert_eq!(search_best_move(&mut state, 1, None), (0, LOSE_SCORE));
    assert_eq!(search_best_move(&mut state, 1, Some(2)), (2, LOSE_SCORE));
    assert_eq!(search_best_move(&mut state, 1, Some(1)), (1, LOSE_SCORE));
    // a hint that is not available changes nothing
    assert_eq!(search_best_move(&mut state, 1, Some(4)), (0, LOSE_SCORE));
    assert_eq!(search_best_move(&mut state, 1, Some(99)), (0, LOSE_SCORE));
}

#[test]
fn the_hint_changes_places_with_the_lowest_cell() {
    // scan order with hint 2 is 2, 1, 0: among the ties of 1 and 0, 1 comes first
    let mut state = empty_state(3);
    for cell in [3usize, 4, 5] {
        state.make_move(cell, 2);
    }
    state.undo_move(5);
    state.make_move(5, 1);
    // cell 2 now joins 5; compare every reply at depth 1
    let mut values = Vec::new();
    for cell in state.available_cells() {
        state.make_move(cell, 1);
        values.push((cell, evaluate_state(&mut state)));
        state.undo_move(cell);
    }
    let best = values.iter().map(|&(_, v)| v).max().unwrap();
    let first_best = values.iter().find(|&&(_, v)| v == best).unwrap().0;
    assert_eq!(search_best_move(&mut state, 1, None), (first_best, best));
    assert_eq!(search_best_move(&mut state, 1, Some(first_best)), (first_best, best));
}

#[test]
fn search_finds_the_winning_move() {
    let mut state = empty_state(3);
    state.make_move(3, 1);
    state.make_move(4, 1);
    state.make_move(2, 2);
    let (cell, score) = search_best_move(&mut state, 1, None);
    assert_eq!((cell, score), (5, WIN_SCORE));
}

#[test]
fn no_budget_returns_the_lowest_available_cell() {
    let mut state = empty_state(3);
    assert_eq!(iterative_deepening_search(&mut state, 0), 0);
    state.make_move(0, 1);
    state.make_move(1, 2);
    assert_eq!(iterative_deepening_search(&mut state, 0), 2);
    assert_eq!(owners(&state), vec![1, 2, 0, 0, 0, 0]);
}

#[test]
fn deepening_stops_on_a_confirmed_win() {
    let mut state = empty_state(3);
    state.make_move(3, 1);
    state.make_move(4, 1);
    state.make_move(2, 2);
    // the first depth already finds the win; the budget is never used up
    assert_eq!(iterative_deepening_search(&mut state, 3_600_000), 5);
}

#[test]
fn deepening_returns_an_available_cell_and_restores_the_board() {
    let mut state = empty_state(3);
    state.make_move(4, 2);
    let before = owners(&state);
    let best = iterative_deepening_search(&mut state, 20);
    assert!(state.is_available(best));
    assert_eq!(owners(&state), before);
}

#[test]
fn the_budget_is_spent_when_the_time_reaches_it() {
    assert!(time_is_up(0, 0));
    assert!(time_is_up(50, 50));
    assert!(time_is_up(51, 50));
    assert!(!time_is_up(49, 50));
    assert!(time_is_up(u128::MAX, u64::MAX));
    assert!(!time_is_up(u64::MAX as u128 - 1, u64::MAX));
}

#[test]
fn a_score_within_the_margin_confirms_a_win() {
    assert!(win_confirmed(WIN_SCORE));
    assert!(win_confirmed(WIN_SCORE - 100));
    assert!(!win_confirmed(WIN_SCORE - 101));
    assert!(!win_confirmed(LOSE_SCORE));
    assert!(win_confirmed(INFINITY));
    assert_eq!(MAX_DEPTH, 100);
}

#[test]
fn the_scan_takes_the_cell_that_completes_the_third_side() {
    // the engine holds 3 and 4, joining sides A and B; 5 is on side C next to 4
    let mut state = empty_state(3);
    state.make_move(3, 1);
    state.make_move(4, 1);
    state.make_move(2, 2);
    assert_eq!(greedy_search(&mut state), Some(Coordinates::new(0, 2, 0)));
}

#[test]
fn the_scan_blocks_an_immediate_threat() {
    let mut state = empty_state(3);
    state.make_move(3, 2);
    state.make_move(4, 2);
    state.make_move(0, 1);
    // the opponent would win on 2 and on 5; 2 is the lower
    assert_eq!(greedy_search(&mut state), Some(Coordinates::new(1, 1, 0)));
}

#[test]
fn the_scan_reports_the_lowest_cell_that_decides_the_game() {
    // side 4: both sides are one stone short, and try out as the scan does
    let mut state = empty_state(4);
    for cell in [6usize, 7, 8] {
        state.make_move(cell, 2);
    }
    for cell in [0usize, 2, 5] {
        state.make_move(cell, 1);
    }
    let found = greedy_search(&mut state).unwrap();
    let cell = found.to_index(4) as usize;
    let mut expected = None;
    for idx in state.available_cells() {
        state.make_move(idx, 1);
        let engine_wins = state.check_win(1);
        state.undo_move(idx);
        state.make_move(idx, 2);
        let opponent_wins = state.check_win(2);
        state.undo_move(idx);
        if engine_wins || opponent_wins {
            expected = Some(idx);
            break;
        }
    }
    assert_eq!(Some(cell), expected);
    assert_eq!(cell, 9);
}

#[test]
fn the_scan_leaves_the_board_alone() {
    let mut state = empty_state(3);
    state.make_move(3, 1);
    state.make_move(4, 1);
    state.make_move(2, 2);
    let before = owners(&state);
    assert!(greedy_search(&mut state).is_some());
    assert_eq!(owners(&state), before);
    assert_eq!(state.available_cells(), vec![0, 1, 5]);

    let mut quiet = empty_state(4);
    quiet.make_move(4, 1);
    assert_eq!(greedy_search(&mut quiet), None);
    assert_eq!(quiet.occupied_cells(), vec![4]);
}

#[test]
fn the_bot_plays_the_winning_cell_at_once() {
    let mut game = GameY::new(3);
    assert!(game.add_move(Coordinates::new(0, 0, 2), PlayerId::new(0)));
    assert!(game.add_move(Coordinates::new(1, 1, 0), PlayerId::new(1)));
    assert!(game.add_move(Coordinates::new(0, 1, 1), PlayerId::new(0)));
    assert!(game.add_move(Coordinates::new(2, 0, 0), PlayerId::new(1)));
    assert_eq!(game.next_player(), Some(PlayerId::new(0)));

    let bot = MinimaxBot::new(0);
    assert_eq!(bot.choose_move(&game), Some(Coordinates::new(0, 2, 0)));
}

#[test]
fn the_bot_blocks_as_the_second_player() {
    let mut game = GameY::new(3);
    assert!(game.add_move(Coordinates::new(0, 0, 2), PlayerId::new(0)));
    assert!(game.add_move(Coordinates::new(2, 0, 0), PlayerId::new(1)));
    assert!(game.add_move(Coordinates::new(0, 1, 1), PlayerId::new(0)));
    assert_eq!(game.next_player(), Some(PlayerId::new(1)));

    let bot = MinimaxBot::new(10);
    assert_eq!(bot.choose_move(&game), Some(Coordinates::new(1, 1, 0)));
}

#[test]
fn the_bot_answers_without_any_budget() {
    let game = GameY::new(3);
    let bot = MinimaxBot::new(0);
    assert_eq!(bot.choose_move(&game), Some(Coordinates::new(2, 0, 0)));
}

#[test]
fn the_bot_has_no_move_once_the_game_is_over() {
    let mut game = GameY::new(3);
    assert!(game.add_move(Coordinates::new(1, 0, 1), PlayerId::new(0)));
    game.finish();
    let bot = MinimaxBot::new(50);
    assert_eq!(bot.choose_move(&game), None);
}

#[test]
fn the_bot_plays_an_empty_cell_of_the_game() {
    let mut game = GameY::new(4);
    assert!(game.add_move(Coordinates::new(1, 1, 1), PlayerId::new(0)));
    let bot = MinimaxBot::new(5);
    let chosen = bot.choose_move(&game).unwrap();
    assert!(chosen.is_valid(4));
    assert!(game.available_cells().contains(&(chosen.to_index(4) as usize)));
}

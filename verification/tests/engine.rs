use gamey::bot::MinimaxBot;
use gamey::eval::{evaluate_position_strength, evaluate_state, INFINITY, LOSE_SCORE, WIN_SCORE};
use gamey::game::{GameY, PlayerId};
use gamey::search::{greedy_search, iterative_deepening_search, minimax, search_best_move};
use gamey::state::MinimaxState;

/// Creates a minimax state with an empty board of given size
fn create_empty_state(size: u32) -> MinimaxState {
    let game = GameY::new(size);
    MinimaxState::new(&game, PlayerId::new(0))
}

/// Gets the first N valid available cells
fn get_valid_cells(state: &MinimaxState, count: usize) -> Vec<usize> {
    state.available_cells().into_iter().take(count).collect()
}

fn first_available(state: &MinimaxState) -> usize {
    state.available_cells().into_iter().next().unwrap()
}

#[test]
fn test_minimax_state_new_initializes_correctly() {
    let game = GameY::new(3);
    let state = MinimaxState::new(&game, PlayerId::new(0));

    assert_eq!(state.size(), 3);
    assert_eq!(state.bot_id(), 1); // PlayerId(0) + 1
    assert_eq!(state.human_id(), 2); // PlayerId(1) + 1

    // Verify that valid cells are empty
    for idx in state.available_cells() {
        assert_eq!(state.owner_at(idx), 0, "Valid cells must be empty");
    }

    assert!(state.available_cells().len() > 0, "Must have available cells");
}

#[test]
fn test_make_move_places_piece_correctly() {
    let mut state = create_empty_state(3);
    let idx = first_available(&state);

    state.make_move(idx, state.bot_id());

    assert_eq!(state.owner_at(idx), state.bot_id(), "Cell must have the bot's ID");
    assert!(!state.is_available(idx), "Cell must not be available");
}

#[test]
fn test_undo_move_restores_previous_state() {
    let mut state = create_empty_state(3);
    let idx = first_available(&state);

    state.make_move(idx, state.bot_id());
    state.undo_move(idx);

    assert_eq!(state.owner_at(idx), 0, "Cell must be empty");
    assert!(state.is_available(idx), "Cell must be available");
}

#[test]
fn test_available_cells_returns_empty_cells() {
    let mut state = create_empty_state(3);
    let initial_count = state.available_cells().len();
    let first_cell = first_available(&state);

    state.make_move(first_cell, state.bot_id());
    let after_move_count = state.available_cells().len();

    assert_eq!(after_move_count, initial_count - 1, "Must have one less available cell");
}

#[test]
fn test_occupied_cells_returns_occupied_cells() {
    let mut state = create_empty_state(3);

    assert_eq!(state.occupied_cells().len(), 0, "Must have no occupied cells");

    let cells = get_valid_cells(&state, 2);
    state.make_move(cells[0], state.bot_id());
    state.make_move(cells[1], state.human_id());

    assert_eq!(state.occupied_cells().len(), 2, "Must have 2 occupied cells");
}

#[test]
fn test_check_win_does_not_detect_win_on_empty_board() {
    let mut state = create_empty_state(3);

    assert!(!state.check_win(state.bot_id()), "Must not detect win on empty board");
    assert!(!state.check_win(state.human_id()), "Must not detect win on empty board");
}

#[test]
fn test_check_win_does_not_detect_win_with_isolated_pieces() {
    let mut state = create_empty_state(4); // Larger board

    // Place unconnected pieces
    let cells = get_valid_cells(&state, 3);
    for &cell in &cells {
        state.make_move(cell, state.bot_id());
    }

    // With only 3 isolated pieces, a win is unlikely
    let has_win = state.check_win(state.bot_id());

    // Only verify that check doesn't cause panic
    assert!(has_win || !has_win, "check_win must execute without errors");
}

#[test]
fn test_dfs_collect_edges_finds_edges_on_edge_cell() {
    let mut state = create_empty_state(3);

    // Find a cell that touches an edge
    let edge_idx = (0..state.total_cells())
        .find(|&idx| state.edges_at(idx) != 0 && state.is_available(idx))
        .expect("Must have at least one available edge cell");

    state.make_move(edge_idx, state.bot_id());

    let edges_found = state.dfs_collect_edges(edge_idx, state.bot_id());

    assert!(edges_found != 0, "Must find at least one edge");
    assert_eq!(edges_found, state.edges_at(edge_idx), "Must match the cell's edges");
}

#[test]
fn test_dfs_collect_edges_accumulates_edges_from_connected_pieces() {
    let mut state = create_empty_state(4); // Larger board for more options

    // Find two edge cells that are neighbors
    let edge_cells: Vec<usize> = (0..state.total_cells())
        .filter(|&idx| state.edges_at(idx) != 0 && state.is_available(idx))
        .take(5)
        .collect();

    if edge_cells.len() >= 2 {
        let first = edge_cells[0];
        state.make_move(first, state.bot_id());

        // Find a neighbor that is also an edge
        let around = state.neighbors_of(first).clone();
        for &neighbor in &around {
            if state.is_available(neighbor) && state.edges_at(neighbor) != 0 {
                state.make_move(neighbor, state.bot_id());

                let edges_found = state.dfs_collect_edges(first, state.bot_id());

                // Must accumulate edges from both cells
                let expected = state.edges_at(first) | state.edges_at(neighbor);
                assert_eq!(edges_found, expected, "Must accumulate edges from connected cells");
                return;
            }
        }
    }
}

#[test]
fn test_evaluate_state_returns_value_for_empty_board() {
    let mut state = create_empty_state(3);

    let score = evaluate_state(&mut state);

    // On empty board, score must be 0 or close
    assert_eq!(score, 0, "Empty board must have score 0");
}

#[test]
fn test_evaluate_state_changes_with_moves() {
    let mut state = create_empty_state(3);

    let score_empty = evaluate_state(&mut state);

    let cell = first_available(&state);
    state.make_move(cell, state.bot_id());

    let score_with_move = evaluate_state(&mut state);

    assert_ne!(score_empty, score_with_move, "Score must change after a move");
}

#[test]
fn test_evaluate_position_strength_zero_without_pieces() {
    let state = create_empty_state(3);

    let score = evaluate_position_strength(&state, state.bot_id());

    assert_eq!(score, 0, "Without player pieces, score must be 0");
}

#[test]
fn test_evaluate_position_strength_increases_with_pieces() {
    let mut state = create_empty_state(3);

    let score_empty = evaluate_position_strength(&state, state.bot_id());

    let cell = first_available(&state);
    state.make_move(cell, state.bot_id());
    let score_one_piece = evaluate_position_strength(&state, state.bot_id());

    assert!(score_one_piece > score_empty, "More pieces must give higher score");
}

#[test]
fn test_evaluate_position_strength_values_connectivity() {
    let mut state = create_empty_state(4);

    // Place two connected pieces
    let cells = get_valid_cells(&state, 2);
    let idx1 = cells[0];
    state.make_move(idx1, state.bot_id());

    // Find an available neighbor
    let neighbor = state.neighbors_of(idx1).iter().find(|&&n| state.is_available(n)).copied();

    if let Some(idx2) = neighbor {
        state.make_move(idx2, state.bot_id());
        let score_connected = evaluate_position_strength(&state, state.bot_id());

        state.undo_move(idx2);

        // Place piece in different position (not necessarily isolated)
        let other = cells[1];
        if other != idx2 {
            state.make_move(other, state.bot_id());
            let score_other = evaluate_position_strength(&state, state.bot_id());

            // Only verify that it executes without errors
            assert!(score_connected > 0 && score_other > 0, "Both scores must be positive");
        }
    }
}

#[test]
fn test_minimax_returns_score_in_valid_range() {
    let mut state = create_empty_state(3);

    // Make a move to have non-empty state
    let cell = first_available(&state);
    state.make_move(cell, state.bot_id());

    let score = minimax(&mut state, 1, -INFINITY, INFINITY, false);

    assert!(
        score >= LOSE_SCORE && score <= WIN_SCORE,
        "Score must be in valid range [{}, {}]",
        LOSE_SCORE,
        WIN_SCORE
    );
}

#[test]
fn test_minimax_with_zero_depth_evaluates_state() {
    let mut state = create_empty_state(3);

    let cell = first_available(&state);
    state.make_move(cell, state.bot_id());

    let score = minimax(&mut state, 0, -INFINITY, INFINITY, true);
    let eval_score = evaluate_state(&mut state);

    assert_eq!(score, eval_score, "With depth 0 must evaluate directly");
}

#[test]
fn test_greedy_search_does_not_find_win_on_empty_board() {
    let mut state = create_empty_state(3);

    let result = greedy_search(&mut state);

    // On empty board there should be no immediate win
    assert!(result.is_none(), "Must not have immediate winning move on empty board");
}

#[test]
fn test_greedy_search_executes_without_errors() {
    let mut state = create_empty_state(4);

    // Make some random moves
    let cells = get_valid_cells(&state, 4);
    state.make_move(cells[0], state.bot_id());
    state.make_move(cells[1], state.human_id());
    state.make_move(cells[2], state.bot_id());

    let result = greedy_search(&mut state);

    // Verify it doesn't produce errors
    assert!(result.is_some() || result.is_none());
}

#[test]
fn test_minimax_with_alpha_beta_prunes_correctly() {
    let mut state = create_empty_state(3);

    // Make some moves
    let cells = get_valid_cells(&state, 2);
    state.make_move(cells[0], state.bot_id());
    state.make_move(cells[1], state.human_id());

    let score_with_pruning = minimax(&mut state, 2, -INFINITY, INFINITY, true);

    // Score must be within reasonable ranges
    assert!(
        score_with_pruning > LOSE_SCORE && score_with_pruning < WIN_SCORE,
        "Score must be in valid range"
    );
}

#[test]
fn test_search_best_move_finds_valid_move() {
    let mut state = create_empty_state(3);

    let (best_move, score) = search_best_move(&mut state, 2, None);

    assert!(best_move < state.total_cells(), "Must return valid index");
    assert!(state.is_available(best_move), "Move must be available");
    assert!(score > LOSE_SCORE, "Score must not be automatic defeat on empty board");
}

#[test]
fn test_search_best_move_uses_pv_move_when_valid() {
    let mut state = create_empty_state(3);

    let pv_move = state.available_cells().into_iter().nth(1).unwrap();
    let (best_move, _) = search_best_move(&mut state, 1, Some(pv_move));

    // Returned move must be valid
    assert!(best_move < state.total_cells(), "Must return valid move");
    assert!(state.coords_at(best_move).is_some(), "Index must be in cache");
}

#[test]
fn test_iterative_deepening_finds_valid_move() {
    let mut state = create_empty_state(3);

    // With very limited time, must iterate at least once
    let best_move = iterative_deepening_search(&mut state, 50); // 50ms

    assert!(best_move < state.total_cells(), "Must find valid move");
    assert!(state.coords_at(best_move).is_some(), "Move must have coordinates");
}

#[test]
fn test_minimax_bot_choose_move_returns_valid_coordinates() {
    let game = GameY::new(3);
    let bot = MinimaxBot::new(50);

    let move_coords = bot.choose_move(&game);

    assert!(move_coords.is_some(), "Must return a move");
    if let Some(coords) = move_coords {
        assert!(coords.is_valid(3), "Coordinates must be valid");
    }
}

#[test]
fn test_minimax_bot_returns_none_when_game_ends() {
    let game = GameY::new(3);
    let bot = MinimaxBot::new(50);

    // Simulating that the game has ended would require modifying game state
    // For now we only verify that the bot handles a new game correctly
    let result = bot.choose_move(&game);
    assert!(result.is_some(), "Must return move in active game");
}

#[test]
fn test_complete_flow_make_move_evaluate_undo() {
    let mut state = create_empty_state(3);
    let initial_available = state.available_cells().len();

    // 1. Make move
    let move_idx = first_available(&state);
    state.make_move(move_idx, state.bot_id());

    // 2. Evaluate state
    let score = evaluate_state(&mut state);
    assert!(score != 0, "Non-empty state must have score");

    // 3. Undo move
    state.undo_move(move_idx);

    // 4. Verify complete restoration
    assert_eq!(
        state.available_cells().len(),
        initial_available,
        "Must restore the number of available cells"
    );
    assert_eq!(state.owner_at(move_idx), 0, "Cell must be empty");
}

#[test]
fn test_multiple_moves_and_consistent_evaluation() {
    let mut state = create_empty_state(4); // Larger board

    let moves = get_valid_cells(&state, 4);

    // Make alternating moves
    state.make_move(moves[0], state.bot_id());
    state.make_move(moves[1], state.human_id());
    state.make_move(moves[2], state.bot_id());
    state.make_move(moves[3], state.human_id());

    let score = evaluate_state(&mut state);

    // Score must reflect positions of both players
    assert!(score.abs() < WIN_SCORE, "Must not have win in first 4 moves");

    // Undo all
    for &move_idx in moves.iter().rev() {
        state.undo_move(move_idx);
    }

    assert_eq!(state.occupied_cells().len(), 0, "Board must be empty");
}

#[test]
fn test_check_win_with_many_pieces_does_not_panic() {
    let mut state = create_empty_state(4);

    // Place several pieces
    let cells = get_valid_cells(&state, 10);
    for (i, &cell) in cells.iter().enumerate() {
        let player = if i % 2 == 0 { state.bot_id() } else { state.human_id() };
        state.make_move(cell, player);
    }

    // Verify that check_win doesn't cause panic
    let bot_wins = state.check_win(state.bot_id());
    let human_wins = state.check_win(state.human_id());

    assert!(bot_wins || !bot_wins, "Bot check_win must execute");
    assert!(human_wins || !human_wins, "Human check_win must execute");
}

#[test]
fn test_minimax_bot_name() {
    let bot = MinimaxBot::new(1000);
    assert_eq!(bot.name(), "minimax_bot");
}

#[test]
fn test_constants_have_correct_values() {
    assert_eq!(WIN_SCORE, 100_000);
    assert_eq!(LOSE_SCORE, -100_000);
    assert!(INFINITY > WIN_SCORE, "INFINITY must be greater than WIN_SCORE");
    assert!(INFINITY > 0, "INFINITY must be positive");
}

#[test]
fn test_minimax_respects_alpha_beta_limits() {
    let mut state = create_empty_state(3);

    let cell = first_available(&state);
    state.make_move(cell, state.bot_id());

    // With very narrow window, should prune
    let score = minimax(&mut state, 2, 0, 100, false);

    assert!(score >= LOSE_SCORE && score <= WIN_SCORE, "Score must be in valid range");
}

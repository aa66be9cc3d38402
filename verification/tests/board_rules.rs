use gamey::game::{GameY, PlayerId};
use gamey::state::MinimaxState;

fn empty_state(size: u32) -> MinimaxState {
    MinimaxState::new(&GameY::new(size), PlayerId::new(0))
}

fn owners(state: &MinimaxState) -> Vec<u8> {
    (0..state.total_cells()).map(|idx| state.owner_at(idx)).collect()
}

fn availability(state: &MinimaxState) -> Vec<bool> {
    (0..state.total_cells()).map(|idx| state.is_available(idx)).collect()
}

#[test]
fn undo_after_make_restores_every_cell() {
    let mut state = empty_state(4);
    state.make_move(3, 1);
    state.make_move(7, 2);
    let owners_before = owners(&state);
    let available_before = availability(&state);

    for cell in state.available_cells() {
        for player in [1u8, 2u8] {
            state.make_move(cell, player);
            assert_eq!(state.owner_at(cell), player);
            state.undo_move(cell);
            assert_eq!(owners(&state), owners_before);
            assert_eq!(availability(&state), available_before);
        }
    }
}

#[test]
fn make_move_touches_one_cell_only() {
    let mut state = empty_state(3);
    state.make_move(4, 2);
    assert_eq!(owners(&state), vec![0, 0, 0, 0, 2, 0]);
    assert_eq!(availability(&state), vec![true, true, true, true, false, true]);
}

#[test]
fn a_cell_is_available_exactly_when_it_is_empty() {
    let mut state = empty_state(5);
    let moves = [(0usize, 1u8), (14, 2), (7, 1), (3, 2)];
    for &(cell, player) in &moves {
        state.make_move(cell, player);
        for idx in 0..state.total_cells() {
            assert_eq!(state.is_available(idx), state.owner_at(idx) == 0);
        }
    }
    state.undo_move(7);
    for idx in 0..state.total_cells() {
        assert_eq!(state.is_available(idx), state.owner_at(idx) == 0);
    }
    assert!(!state.is_available(state.total_cells()));
}

#[test]
fn available_and_occupied_cells_split_the_board_in_order() {
    let mut state = empty_state(3);
    state.make_move(4, 1);
    state.make_move(1, 2);
    assert_eq!(state.available_cells(), vec![0, 2, 3, 5]);
    assert_eq!(state.occupied_cells(), vec![1, 4]);
}

#[test]
fn a_single_cell_board_is_won_by_its_first_stone() {
    let mut state = empty_state(1);
    assert_eq!(state.edges_at(0), 7);
    assert!(!state.check_win(1));
    state.make_move(0, 1);
    assert!(state.check_win(1));
    assert!(!state.check_win(2));
}

#[test]
fn an_isolated_stone_on_one_side_does_not_win() {
    let mut state = empty_state(3);
    state.make_move(4, 1);
    assert_eq!(state.edges_at(4), 1);
    assert!(!state.check_win(1));
}

#[test]
fn a_corner_stone_touching_two_sides_does_not_win() {
    let mut state = empty_state(3);
    state.make_move(0, 1);
    assert_eq!(state.edges_at(0), 6);
    assert!(!state.check_win(1));
}

#[test]
fn three_stones_on_three_sides_without_a_link_do_not_win() {
    // side 5: cell 3 = (2, 0, 2) on side B, cell 5 = (2, 2, 0) on side C,
    // cell 12 = (0, 2, 2) on side A; no two of them are adjacent.
    let mut state = empty_state(5);
    for cell in [3usize, 5, 12] {
        state.make_move(cell, 1);
    }
    assert_eq!(state.edges_at(3), 2);
    assert_eq!(state.edges_at(5), 4);
    assert_eq!(state.edges_at(12), 1);
    assert!(!state.check_win(1));
}

#[test]
fn a_connected_group_on_all_three_sides_wins() {
    let mut state = empty_state(3);
    for cell in [3usize, 4, 5] {
        state.make_move(cell, 1);
    }
    assert!(state.check_win(1));
    assert!(!state.check_win(2));
}

#[test]
fn a_group_broken_by_the_other_player_does_not_win() {
    let mut state = empty_state(3);
    state.make_move(3, 1);
    state.make_move(4, 2);
    state.make_move(5, 1);
    assert!(!state.check_win(1));
    assert!(!state.check_win(2));

    // joined through the row above instead
    state.make_move(1, 1);
    assert!(!state.check_win(1));
    state.make_move(2, 1);
    assert!(state.check_win(1));
}

#[test]
fn a_win_may_start_from_a_later_group() {
    // side 4: an early group on one side only, then a winning chain.
    let mut state = empty_state(4);
    state.make_move(1, 2);
    for cell in [6usize, 7, 8, 9] {
        state.make_move(cell, 2);
    }
    assert!(state.check_win(2));
    assert!(!state.check_win(1));
}

#[test]
fn check_win_can_be_repeated_and_leaves_the_board_alone() {
    let mut state = empty_state(3);
    for cell in [0usize, 1, 3] {
        state.make_move(cell, 2);
    }
    let before = owners(&state);
    assert!(state.check_win(2));
    assert!(state.check_win(2));
    assert!(!state.check_win(1));
    assert_eq!(owners(&state), before);
    assert_eq!(state.available_cells(), vec![2, 4, 5]);
}

#[test]
fn traversal_collects_the_sides_of_the_whole_group() {
    let mut state = empty_state(4);
    // cell 3 = (1, 0, 2) on side B, cell 4 = (1, 1, 1) inside, cell 8 = (0, 2, 1) on side A
    for cell in [3usize, 4, 8] {
        state.make_move(cell, 1);
    }
    assert_eq!(state.dfs_collect_edges(4, 1), 3);
}

#[test]
fn traversal_stops_at_stones_of_the_other_player() {
    let mut state = empty_state(3);
    state.make_move(3, 1);
    state.make_move(4, 2);
    state.make_move(5, 1);
    assert_eq!(state.dfs_collect_edges(3, 1), 3);
}

#[test]
fn traversal_reports_all_sides_as_soon_as_they_are_reached() {
    let mut state = empty_state(3);
    for cell in 0..6usize {
        state.make_move(cell, 1);
    }
    assert_eq!(state.dfs_collect_edges(2, 1), 7);
}

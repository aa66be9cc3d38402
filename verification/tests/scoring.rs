use gamey::eval::{evaluate_position_strength, evaluate_state, LOSE_SCORE, WIN_SCORE};
use gamey::game::{GameY, PlayerId};
use gamey::state::MinimaxState;

fn empty_state(size: u32) -> MinimaxState {
    MinimaxState::new(&GameY::new(size), PlayerId::new(0))
}

#[test]
fn an_empty_board_scores_zero_on_every_size() {
    for size in [1u32, 2, 3, 8, 30] {
        let mut state = empty_state(size);
        assert_eq!(evaluate_position_strength(&state, 1), 0);
        assert_eq!(evaluate_position_strength(&state, 2), 0);
        assert_eq!(evaluate_state(&mut state), 0);
    }
}

#[test]
fn one_corner_stone_scores_its_sides_and_its_centre_share() {
    let mut state = empty_state(3);
    state.make_move(0, 1);
    // two sides: 10; centre: (50 - 4) * 5 * 5 / 6 = 191
    assert_eq!(evaluate_position_strength(&state, 1), 201);
    assert_eq!(evaluate_position_strength(&state, 2), 0);
    assert_eq!(evaluate_state(&mut state), 201);
}

#[test]
fn two_linked_stones_score_their_links() {
    let mut state = empty_state(3);
    state.make_move(0, 1);
    state.make_move(1, 1);
    // links: 2 * 25; sides: 2 * 5; centre: (46 + 48) * 5 * 4 / 6 = 313
    assert_eq!(evaluate_position_strength(&state, 1), 373);
}

#[test]
fn stones_with_two_friends_earn_the_bonus() {
    let mut state = empty_state(3);
    for cell in [1usize, 3, 4] {
        state.make_move(cell, 1);
    }
    // bonus: 3 * 40; links: 6 * 25; sides: 2 * 5; centre: (48 + 46 + 48) * 5 * 3 / 6 = 355
    assert_eq!(evaluate_position_strength(&state, 1), 635);
}

#[test]
fn the_evaluation_is_the_difference_of_the_two_strengths() {
    let mut state = empty_state(3);
    state.make_move(4, 1);
    state.make_move(0, 2);
    // engine: 5 + 48 * 5 * 4 / 6 = 165; opponent: 10 + 46 * 5 * 4 / 6 = 163
    assert_eq!(evaluate_position_strength(&state, 1), 165);
    assert_eq!(evaluate_position_strength(&state, 2), 163);
    assert_eq!(evaluate_state(&mut state), 2);
}

#[test]
fn swapping_the_stones_negates_the_evaluation() {
    let mut state = empty_state(4);
    state.make_move(2, 1);
    state.make_move(5, 1);
    state.make_move(7, 2);
    let score = evaluate_state(&mut state);

    let mut mirrored = empty_state(4);
    mirrored.make_move(2, 2);
    mirrored.make_move(5, 2);
    mirrored.make_move(7, 1);
    assert_eq!(evaluate_state(&mut mirrored), -score);
}

#[test]
fn a_negative_centre_share_rounds_toward_zero() {
    let mut state = empty_state(30);
    state.make_move(0, 1);
    // sides: 10; centre: (50 - 58) * 5 * 464 / 465 = -39.9..., which is -39
    assert_eq!(evaluate_position_strength(&state, 1), -29);
}

#[test]
fn the_centre_share_is_gone_on_a_full_board() {
    let mut state = empty_state(2);
    state.make_move(0, 1);
    state.make_move(1, 2);
    state.make_move(2, 2);
    // engine: two sides; opponent: three sides and two links
    assert_eq!(evaluate_position_strength(&state, 1), 10);
    assert_eq!(evaluate_position_strength(&state, 2), 65);
}

#[test]
fn a_won_position_scores_the_win() {
    let mut state = empty_state(3);
    for cell in [3usize, 4, 5] {
        state.make_move(cell, 1);
    }
    assert_eq!(evaluate_state(&mut state), WIN_SCORE);
}

#[test]
fn a_lost_position_scores_the_loss() {
    let mut state = empty_state(3);
    for cell in [3usize, 4, 5] {
        state.make_move(cell, 2);
    }
    state.make_move(0, 1);
    assert_eq!(evaluate_state(&mut state), LOSE_SCORE);
}

#[test]
fn one_more_stone_does_not_lower_edges_and_links() {
    // with the centre share taken out, strength never falls when a stone is added
    let mut state = empty_state(3);
    let mut last = 0;
    for cell in [4usize, 1, 3, 0] {
        state.make_move(cell, 1);
        let stones = state.occupied_cells().len() as i32;
        let centre: i32 = state
            .occupied_cells()
            .iter()
            .map(|&c| {
                let p = state.coords_at(c).unwrap();
                let (x, y, z) = (p.x() as i32, p.y() as i32, p.z() as i32);
                50 - ((x - y).abs() + (y - z).abs() + (z - x).abs())
            })
            .sum();
        let structure = evaluate_position_strength(&state, 1) - centre * 5 * (6 - stones) / 6;
        assert!(structure >= last, "{} after {}", structure, last);
        last = structure;
    }
    assert_eq!(last, 3 * 40 + 3 * 5 + 8 * 25);
}

#[test]
fn evaluation_leaves_the_board_alone() {
    let mut state = empty_state(3);
    state.make_move(2, 1);
    state.make_move(3, 2);
    let first = evaluate_state(&mut state);
    assert_eq!(evaluate_state(&mut state), first);
    assert_eq!(state.available_cells(), vec![0, 1, 4, 5]);
    assert_eq!(state.owner_at(2), 1);
    assert_eq!(state.owner_at(3), 2);
}

#[test]
fn the_centre_share_can_fall_as_the_board_fills() {
    let mut state = empty_state(4);
    for cell in [4usize, 7, 8] {
        state.make_move(cell, 1);
    }
    for cell in [1usize, 2, 3, 5, 6] {
        state.make_move(cell, 2);
    }
    // bonus 120, links 150, one side 5, centre 142 * 5 * 2 / 10 = 142
    assert_eq!(evaluate_position_strength(&state, 1), 417);
    state.make_move(0, 1);
    // two more sides, no link; centre 186 * 5 * 1 / 10 = 93
    assert_eq!(evaluate_position_strength(&state, 1), 378);
}

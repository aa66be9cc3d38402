use gamey::coords::Coordinates;
use gamey::game::{other_player, GameY, PlayerId};
use gamey::state::MinimaxState;

#[test]
fn cells_are_numbered_row_by_row_from_the_apex() {
    let expected = [(2, 0, 0), (1, 0, 1), (1, 1, 0), (0, 0, 2), (0, 1, 1), (0, 2, 0)];
    for (idx, &(x, y, z)) in expected.iter().enumerate() {
        let coords = Coordinates::from_index(idx as u32, 3);
        assert_eq!(coords, Coordinates::new(x, y, z));
        assert_eq!((coords.x(), coords.y(), coords.z()), (x, y, z));
        assert_eq!(coords.to_index(3), idx as u32);
    }
}

#[test]
fn numbering_round_trips_on_a_larger_board() {
    let size = 17;
    let total = size * (size + 1) / 2;
    for idx in 0..total {
        let coords = Coordinates::from_index(idx, size);
        assert!(coords.is_valid(size));
        assert_eq!(coords.to_index(size), idx);
    }
    assert_eq!(Coordinates::from_index(total - 1, size), Coordinates::new(0, size - 1, 0));
}

#[test]
fn validity_is_the_sum_of_the_triple() {
    assert!(Coordinates::new(2, 0, 0).is_valid(3));
    assert!(Coordinates::new(0, 1, 1).is_valid(3));
    assert!(!Coordinates::new(1, 1, 1).is_valid(3));
    assert!(!Coordinates::new(0, 0, 0).is_valid(3));
    assert!(Coordinates::new(0, 0, 0).is_valid(1));
    assert!(!Coordinates::new(u32::MAX, u32::MAX, 2).is_valid(1));
}

#[test]
fn sides_are_where_a_coordinate_is_zero() {
    let corner = Coordinates::new(2, 0, 0);
    assert!(!corner.touches_side_a());
    assert!(corner.touches_side_b());
    assert!(corner.touches_side_c());
    let middle = Coordinates::new(1, 1, 1);
    assert!(!middle.touches_side_a() && !middle.touches_side_b() && !middle.touches_side_c());
    assert!(Coordinates::new(0, 3, 4).touches_side_a());
}

#[test]
fn neighbors_come_in_a_fixed_order() {
    let corner = Coordinates::new(2, 0, 0).neighbors(3);
    assert_eq!(corner, vec![Coordinates::new(1, 1, 0), Coordinates::new(1, 0, 1)]);

    let inner = Coordinates::new(1, 1, 1).neighbors(4);
    assert_eq!(
        inner,
        vec![
            Coordinates::new(0, 2, 1),
            Coordinates::new(0, 1, 2),
            Coordinates::new(2, 0, 1),
            Coordinates::new(1, 0, 2),
            Coordinates::new(2, 1, 0),
            Coordinates::new(1, 2, 0),
        ]
    );
    assert!(Coordinates::new(0, 0, 0).neighbors(1).is_empty());
}

#[test]
fn game_neighbors_are_those_of_the_coordinates() {
    let game = GameY::new(3);
    let coords = Coordinates::new(0, 1, 1);
    assert_eq!(game.get_neighbors(&coords), coords.neighbors(3));
}

#[test]
fn snapshot_caches_the_geometry_of_a_side_three_board() {
    let game = GameY::new(3);
    let state = MinimaxState::new(&game, PlayerId::new(0));

    assert_eq!(state.total_cells(), 6);
    let flags: Vec<u8> = (0..6).map(|idx| state.edges_at(idx)).collect();
    assert_eq!(flags, vec![6, 2, 4, 3, 1, 5]);

    assert_eq!(state.neighbors_of(0), &vec![2, 1]);
    assert_eq!(state.neighbors_of(1), &vec![4, 3, 0, 2]);
    assert_eq!(state.neighbors_of(2), &vec![5, 4, 0, 1]);
    assert_eq!(state.neighbors_of(3), &vec![1, 4]);
    assert_eq!(state.neighbors_of(4), &vec![1, 3, 2, 5]);
    assert_eq!(state.neighbors_of(5), &vec![2, 4]);

    for idx in 0..6 {
        assert_eq!(state.coords_at(idx), Some(Coordinates::from_index(idx as u32, 3)));
    }
    assert_eq!(state.coords_at(6), None);
}

#[test]
fn adjacency_is_symmetric_on_every_cell() {
    let game = GameY::new(9);
    let state = MinimaxState::new(&game, PlayerId::new(0));
    for a in 0..state.total_cells() {
        assert!(state.neighbors_of(a).len() <= 6);
        for &b in state.neighbors_of(a) {
            assert!(b < state.total_cells());
            assert!(state.neighbors_of(b).contains(&a), "{} lists {} but not the reverse", a, b);
        }
    }
}

#[test]
fn a_new_game_is_empty_with_player_zero_to_move() {
    let game = GameY::new(4);
    assert_eq!(game.board_size(), 4);
    assert_eq!(game.total_cells(), 10);
    assert_eq!(game.next_player(), Some(PlayerId::new(0)));
    assert!(game.board_map().is_empty());
    assert_eq!(game.available_cells(), (0..10).collect::<Vec<usize>>());
}

#[test]
fn add_move_places_a_stone_and_passes_the_turn() {
    let mut game = GameY::new(3);
    assert!(game.add_move(Coordinates::new(1, 1, 0), PlayerId::new(0)));
    assert_eq!(game.next_player(), Some(PlayerId::new(1)));
    assert!(game.add_move(Coordinates::new(2, 0, 0), PlayerId::new(1)));
    assert_eq!(game.next_player(), Some(PlayerId::new(0)));

    assert_eq!(
        game.board_map(),
        vec![(Coordinates::new(2, 0, 0), PlayerId::new(1)), (Coordinates::new(1, 1, 0), PlayerId::new(0))]
    );
    assert_eq!(game.available_cells(), vec![1, 3, 4, 5]);
}

#[test]
fn add_move_refuses_what_is_not_a_legal_placement() {
    let mut game = GameY::new(3);
    assert!(game.add_move(Coordinates::new(1, 1, 0), PlayerId::new(0)));

    // taken
    assert!(!game.add_move(Coordinates::new(1, 1, 0), PlayerId::new(1)));
    // not on the board
    assert!(!game.add_move(Coordinates::new(1, 1, 1), PlayerId::new(1)));
    // not a player
    assert!(!game.add_move(Coordinates::new(2, 0, 0), PlayerId::new(2)));

    assert_eq!(game.next_player(), Some(PlayerId::new(1)));
    assert_eq!(game.board_map().len(), 1);

    game.finish();
    assert!(!game.add_move(Coordinates::new(2, 0, 0), PlayerId::new(1)));
    assert_eq!(game.board_map().len(), 1);
}

#[test]
fn a_full_board_has_nobody_to_move() {
    let mut game = GameY::new(2);
    assert!(game.add_move(Coordinates::new(1, 0, 0), PlayerId::new(0)));
    assert!(game.add_move(Coordinates::new(0, 0, 1), PlayerId::new(1)));
    assert_eq!(game.next_player(), Some(PlayerId::new(0)));
    assert!(game.add_move(Coordinates::new(0, 1, 0), PlayerId::new(0)));
    assert_eq!(game.next_player(), None);
    assert!(game.available_cells().is_empty());
}

#[test]
fn the_other_player_of_zero_is_one_and_back() {
    assert_eq!(other_player(PlayerId::new(0)), PlayerId::new(1));
    assert_eq!(other_player(PlayerId::new(1)), PlayerId::new(0));
    assert_eq!(PlayerId::new(1).id(), 1);
}

#[test]
fn snapshot_copies_owners_offset_by_one() {
    let mut game = GameY::new(3);
    assert!(game.add_move(Coordinates::new(1, 1, 0), PlayerId::new(0)));
    assert!(game.add_move(Coordinates::new(0, 0, 2), PlayerId::new(1)));

    let as_first = MinimaxState::new(&game, PlayerId::new(0));
    assert_eq!((as_first.bot_id(), as_first.human_id()), (1, 2));
    let owners: Vec<u8> = (0..6).map(|idx| as_first.owner_at(idx)).collect();
    assert_eq!(owners, vec![0, 0, 1, 2, 0, 0]);
    assert_eq!(as_first.available_cells(), vec![0, 1, 4, 5]);
    assert_eq!(as_first.occupied_cells(), vec![2, 3]);

    let as_second = MinimaxState::new(&game, PlayerId::new(1));
    assert_eq!((as_second.bot_id(), as_second.human_id()), (2, 1));
    let owners: Vec<u8> = (0..6).map(|idx| as_second.owner_at(idx)).collect();
    assert_eq!(owners, vec![0, 0, 1, 2, 0, 0]);
}

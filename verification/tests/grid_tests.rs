use binairo::Binairo;

#[test]
fn new_grid_starts_unset() {
    let game = Binairo::new(4);
    for r in 0..4 {
        for c in 0..4 {
            assert_eq!(game.get(r, c), -1);
        }
    }
}

#[test]
fn set_then_get_roundtrip() {
    let mut game = Binairo::new(4);
    game.set(1, 2, 1);
    game.set(3, 0, 0);
    assert_eq!(game.get(1, 2), 1);
    assert_eq!(game.get(3, 0), 0);
    assert_eq!(game.get(0, 0), -1);
    game.set(1, 2, -1);
    assert_eq!(game.get(1, 2), -1);
}

#[test]
fn row_and_col_projections() {
    let mut game = Binairo::new(4);
    game.set_initial_values(&[(2, 0, 0), (2, 1, 1), (2, 3, 1), (0, 2, 1), (3, 2, 0)]);
    assert_eq!(game.row(2), vec![0, 1, -1, 1]);
    assert_eq!(game.col(2), vec![1, -1, -1, 0]);
}

#[test]
fn out_of_range_clues_are_ignored() {
    let mut game = Binairo::new(4);
    game.set_initial_values(&[(7, 0, 1), (0, 9, 0), (1, 1, 1)]);
    for r in 0..4 {
        for c in 0..4 {
            if r == 1 && c == 1 {
                assert_eq!(game.get(r, c), 1);
            } else {
                assert_eq!(game.get(r, c), -1);
            }
        }
    }
}

#[test]
fn later_clues_overwrite_earlier_ones() {
    let mut game = Binairo::new(4);
    game.set_initial_values(&[(0, 0, 1), (0, 0, 0)]);
    assert_eq!(game.get(0, 0), 0);
}

#[test]
fn is_complete_tracks_every_cell() {
    let mut game = Binairo::new(2);
    assert!(!game.is_complete());
    game.set(0, 0, 0);
    game.set(0, 1, 1);
    game.set(1, 0, 1);
    assert!(!game.is_complete());
    game.set(1, 1, 0);
    assert!(game.is_complete());
}

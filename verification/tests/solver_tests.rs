use binairo::Binairo;

/// The completed 4x4 grid used by the original tests: every rule holds.
fn full_valid_grid() -> Binairo {
    let mut game = Binairo::new(4);
    game.set_initial_values(&[
        (0, 0, 0),
        (0, 1, 1),
        (0, 2, 0),
        (0, 3, 1),
        (1, 0, 0),
        (1, 1, 1),
        (1, 2, 1),
        (1, 3, 0),
        (2, 0, 1),
        (2, 1, 0),
        (2, 2, 1),
        (2, 3, 0),
        (3, 0, 1),
        (3, 1, 0),
        (3, 2, 0),
        (3, 3, 1),
    ]);
    game
}

#[test]
fn binario_test_valid_grid() {
    let game = Binairo::new(4);

    assert_eq!(game.size(), 4);
    assert_eq!(game.row(0).len(), 4);
}

#[test]
fn main_test_valid_grid() {
    let game = Binairo::new(4);

    assert_eq!(game.size(), 4);
    assert_eq!(game.row(0).len(), 4);
}

#[test]
fn test_validity() {
    let mut game = Binairo::new(4);
    game.set_initial_values(&[
        (0, 0, 0),
        (0, 1, 1),
        (0, 2, 0),
        (0, 3, 1),
        (1, 0, 0),
        (1, 1, 1),
        (1, 2, 1),
        (1, 3, 0),
        (2, 0, 1),
        (2, 1, 0),
        (2, 2, 1),
        (2, 3, 0),
        (3, 0, 1),
        (3, 1, 0),
        (3, 2, 0),
        (3, 3, 1),
    ]);

    assert!(game.is_valid());
}

#[test]
fn test_is_solved() {
    let mut game = Binairo::new(4);
    game.set_initial_values(&[
        (0, 0, 0),
        (0, 1, 1),
        (0, 2, 0),
        (0, 3, 1),
        (1, 0, 0),
        (1, 1, 1),
        (1, 2, 1),
        (1, 3, 0),
        (2, 0, 1),
        (2, 1, 0),
        (2, 2, 1),
        (2, 3, 0),
        (3, 0, 1),
        (3, 1, 0),
        (3, 2, 0),
        (3, 3, 1),
    ]);

    assert!(game.is_solved());
}

#[test]
fn solved_grid_is_valid_and_complete() {
    let game = full_valid_grid();
    assert!(game.is_solved());
    assert!(game.is_valid());
    assert!(game.is_complete());
}

#[test]
fn is_valid_is_stable_across_calls() {
    let mut game = Binairo::new(4);
    game.set_initial_values(&[(0, 0, 0), (1, 0, 0), (1, 3, 0), (2, 2, 1)]);
    let first = game.is_valid();
    let second = game.is_valid();
    let third = game.is_valid();
    assert_eq!(first, second);
    assert_eq!(second, third);

    let mut bad = Binairo::new(4);
    bad.set_initial_values(&[(0, 0, 0), (0, 1, 0), (0, 2, 0)]);
    assert_eq!(bad.is_valid(), bad.is_valid());
    assert!(!bad.is_valid());
}

#[test]
fn triple_row_rejected() {
    let mut game = Binairo::new(4);
    game.set_initial_values(&[(0, 0, 0), (0, 1, 0), (0, 2, 0), (0, 3, 1)]);
    assert!(!game.is_valid());
}

#[test]
fn no_triple_row_accepted() {
    let mut game = Binairo::new(4);
    game.set_initial_values(&[(0, 0, 0), (0, 1, 0), (0, 2, 1), (0, 3, 1)]);
    assert!(game.is_valid());
}

#[test]
fn triple_column_rejected() {
    let mut game = Binairo::new(4);
    game.set_initial_values(&[(0, 0, 1), (1, 0, 1), (2, 0, 1)]);
    assert!(!game.is_valid());
}

#[test]
fn unbalanced_complete_row_rejected() {
    let mut game = Binairo::new(4);
    game.set_initial_values(&[(0, 0, 0), (0, 1, 1), (0, 2, 0), (0, 3, 0)]);
    assert!(!game.is_valid());
}

#[test]
fn balanced_complete_row_accepted() {
    let mut game = Binairo::new(4);
    game.set_initial_values(&[(0, 0, 0), (0, 1, 1), (0, 2, 1), (0, 3, 0)]);
    assert!(game.is_valid());
}

#[test]
fn too_many_of_one_value_in_partial_row_rejected() {
    let mut game = Binairo::new(4);
    game.set_initial_values(&[(0, 0, 1), (0, 1, 1), (0, 3, 1)]);
    assert!(!game.is_valid());
}

#[test]
fn duplicate_rows_rejected() {
    let mut game = Binairo::new(4);
    game.set_initial_values(&[
        (0, 0, 0),
        (0, 1, 1),
        (0, 2, 0),
        (0, 3, 1),
        (1, 0, 0),
        (1, 1, 1),
        (1, 2, 0),
        (1, 3, 1),
    ]);
    assert!(!game.is_valid());
}

#[test]
fn distinct_rows_accepted() {
    let mut game = Binairo::new(4);
    game.set_initial_values(&[
        (0, 0, 0),
        (0, 1, 1),
        (0, 2, 0),
        (0, 3, 1),
        (1, 0, 1),
        (1, 1, 0),
        (1, 2, 1),
        (1, 3, 0),
    ]);
    assert!(game.is_valid());
}

#[test]
fn duplicate_columns_rejected() {
    let mut game = Binairo::new(4);
    game.set_initial_values(&[
        (0, 0, 0),
        (1, 0, 1),
        (2, 0, 0),
        (3, 0, 1),
        (0, 1, 0),
        (1, 1, 1),
        (2, 1, 0),
        (3, 1, 1),
    ]);
    assert!(!game.is_valid());
}

#[test]
fn empty_grid_is_valid_but_not_solved() {
    let game = Binairo::new(4);
    assert!(game.is_valid());
    assert!(!game.is_complete());
    assert!(!game.is_solved());
}

#[test]
fn clued_grid_solved_and_obeys_all_rules() {
    let mut game = Binairo::new(4);
    game.set_initial_values(&[(0, 0, 0), (1, 0, 0), (1, 3, 0), (2, 2, 1)]);
    assert!(game.solve());
    assert!(game.is_solved());

    // The clues are kept.
    assert_eq!(game.get(0, 0), 0);
    assert_eq!(game.get(1, 0), 0);
    assert_eq!(game.get(1, 3), 0);
    assert_eq!(game.get(2, 2), 1);

    // Every row and column holds two 0s and two 1s.
    for i in 0..4 {
        let row = game.row(i);
        let col = game.col(i);
        assert_eq!(row.iter().filter(|&&v| v == 0).count(), 2);
        assert_eq!(row.iter().filter(|&&v| v == 1).count(), 2);
        assert_eq!(col.iter().filter(|&&v| v == 0).count(), 2);
        assert_eq!(col.iter().filter(|&&v| v == 1).count(), 2);
    }

    // No three equal values stand next to each other.
    for a in 0..4 {
        for b in 0..2 {
            assert!(!(game.get(a, b) == game.get(a, b + 1) && game.get(a, b) == game.get(a, b + 2)));
            assert!(!(game.get(b, a) == game.get(b + 1, a) && game.get(b, a) == game.get(b + 2, a)));
        }
    }

    // All rows are mutually distinct, and all columns too.
    for i in 0..4 {
        for j in 0..i {
            assert_ne!(game.row(i), game.row(j));
            assert_ne!(game.col(i), game.col(j));
        }
    }
}

#[test]
fn prefilled_zero_row_unsolvable_and_untouched() {
    let mut game = Binairo::new(4);
    game.set_initial_values(&[(0, 0, 0), (0, 1, 0), (0, 2, 0), (0, 3, 0)]);
    assert!(!game.solve());

    // Every cell equals its pre-call value.
    for c in 0..4 {
        assert_eq!(game.get(0, c), 0);
    }
    for r in 1..4 {
        for c in 0..4 {
            assert_eq!(game.get(r, c), -1);
        }
    }
}

#[test]
fn solve_is_deterministic() {
    let mut first = Binairo::new(4);
    first.set_initial_values(&[(0, 0, 0), (1, 0, 0), (1, 3, 0), (2, 2, 1)]);
    let mut second = Binairo::new(4);
    second.set_initial_values(&[(0, 0, 0), (1, 0, 0), (1, 3, 0), (2, 2, 1)]);

    let a = first.solve();
    let b = second.solve();
    assert_eq!(a, b);
    assert!(a);
    for r in 0..4 {
        for c in 0..4 {
            assert_eq!(first.get(r, c), second.get(r, c));
        }
    }
}

#[test]
fn empty_two_by_two_solvable() {
    let mut game = Binairo::new(2);
    assert!(game.solve());
    assert!(game.is_solved());
}

#[test]
fn six_by_six_with_clues_solvable() {
    let mut game = Binairo::new(6);
    game.set_initial_values(&[(0, 0, 1), (0, 5, 0), (2, 2, 1), (3, 3, 0), (5, 1, 1)]);
    assert!(game.solve());
    assert!(game.is_solved());
    assert_eq!(game.get(0, 0), 1);
    assert_eq!(game.get(0, 5), 0);
    assert_eq!(game.get(2, 2), 1);
    assert_eq!(game.get(3, 3), 0);
    assert_eq!(game.get(5, 1), 1);
}

#[test]
fn solving_twice_keeps_the_solution() {
    let mut game = Binairo::new(4);
    game.set_initial_values(&[(0, 0, 0), (1, 0, 0), (1, 3, 0), (2, 2, 1)]);
    assert!(game.solve());
    let snapshot: Vec<i32> = (0..4).flat_map(|r| game.row(r)).collect();
    assert!(game.solve());
    let again: Vec<i32> = (0..4).flat_map(|r| game.row(r)).collect();
    assert_eq!(snapshot, again);
}

#[test]
fn complete_but_invalid_grid_is_not_solved() {
    let mut game = Binairo::new(4);
    // Fully assigned, but the first two rows are identical.
    game.set_initial_values(&[
        (0, 0, 0),
        (0, 1, 1),
        (0, 2, 0),
        (0, 3, 1),
        (1, 0, 0),
        (1, 1, 1),
        (1, 2, 0),
        (1, 3, 1),
        (2, 0, 1),
        (2, 1, 0),
        (2, 2, 1),
        (2, 3, 0),
        (3, 0, 1),
        (3, 1, 0),
        (3, 2, 0),
        (3, 3, 1),
    ]);
    assert!(game.is_complete());
    assert!(!game.is_valid());
    assert!(!game.is_solved());
}

#[test]
fn complete_invalid_grid_unsolvable_and_untouched() {
    let mut game = Binairo::new(4);
    game.set_initial_values(&[
        (0, 0, 1),
        (0, 1, 1),
        (0, 2, 0),
        (0, 3, 0),
        (1, 0, 1),
        (1, 1, 1),
        (1, 2, 0),
        (1, 3, 0),
    ]);
    assert!(!game.solve());
    // Rows 0 and 1 keep their clues, the rest stays unset.
    for c in 0..4 {
        assert_eq!(game.get(0, c), if c < 2 { 1 } else { 0 });
        assert_eq!(game.get(1, c), if c < 2 { 1 } else { 0 });
        assert_eq!(game.get(2, c), -1);
        assert_eq!(game.get(3, c), -1);
    }
}

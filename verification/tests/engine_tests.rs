use go_engine::{GameState, Stone};

fn board_counts(g: &GameState) -> (usize, usize, usize) {
    let b = g.get_board();
    assert_eq!(b.len(), 361);
    let mut empty = 0;
    let mut black = 0;
    let mut white = 0;
    for v in b {
        match v {
            0 => empty += 1,
            1 => black += 1,
            2 => white += 1,
            _ => panic!("unexpected cell code"),
        }
    }
    (empty, black, white)
}

#[test]
fn scenario_a_first_move() {
    let mut g = GameState::new();
    assert_eq!(g.current_player(), Stone::Black);
    assert!(g.place_stone(3, 3));
    assert_eq!(g.get_stone(3, 3), Stone::Black);
    assert_eq!(g.current_player(), Stone::White);
    assert!(g.is_star_point(3, 3));
    assert_eq!(g.get_last_move(), Some((3, 3)));
    let b = g.get_board();
    assert_eq!(b[3 * 19 + 3], 1);
    assert_eq!(board_counts(&g), (360, 1, 0));
}

#[test]
fn out_of_bounds_rejected() {
    let mut g = GameState::new();
    assert!(!g.place_stone(19, 0));
    assert!(!g.place_stone(0, 19));
    assert!(!g.place_stone(19, 19));
    assert!(!g.place_stone(100, 7));
    assert_eq!(board_counts(&g), (361, 0, 0));
    assert_eq!(g.current_player(), Stone::Black);
    assert_eq!(g.black_captured(), 0);
    assert_eq!(g.white_captured(), 0);
    assert!(!g.is_valid_move(19, 0));
}

#[test]
fn occupied_cell_rejected() {
    let mut g = GameState::new();
    assert!(g.place_stone(3, 3));
    let before = g.get_board();
    assert!(!g.place_stone(3, 3));
    assert_eq!(g.get_board(), before);
    assert_eq!(g.current_player(), Stone::White);
    assert_eq!(g.black_captured(), 0);
    assert_eq!(g.white_captured(), 0);
    assert!(!g.is_valid_move(3, 3));
}

#[test]
fn suicide_rejected() {
    let mut g = GameState::new();
    assert!(g.place_stone(0, 1)); // Black
    assert!(g.place_stone(10, 10)); // White elsewhere
    assert!(g.place_stone(1, 0)); // Black
    // White to move; (0,0) is surrounded by Black and captures nothing.
    assert!(!g.is_valid_move(0, 0));
    let before = g.get_board();
    assert!(!g.place_stone(0, 0));
    assert_eq!(g.get_board(), before);
    assert_eq!(g.current_player(), Stone::White);
    assert_eq!(g.get_stone(0, 0), Stone::Empty);
    assert_eq!(g.black_captured(), 0);
    assert_eq!(g.white_captured(), 0);
}

#[test]
fn scenario_b_corner_capture() {
    let mut g = GameState::new();
    assert!(g.place_stone(5, 5)); // Black tenuki
    assert!(g.place_stone(0, 0)); // White corner stone
    assert!(g.place_stone(0, 1)); // Black takes one liberty
    assert!(g.place_stone(10, 10)); // White elsewhere
    assert_eq!(g.get_stone(0, 0), Stone::White);
    assert_eq!(g.black_captured(), 0);
    assert!(g.place_stone(1, 0)); // Black fills the last liberty
    assert_eq!(g.black_captured(), 1);
    assert_eq!(g.get_stone(0, 0), Stone::Empty);
    assert_eq!(g.current_player(), Stone::White);
}

#[test]
fn scenario_c_two_passes_scores() {
    let mut g = GameState::new();
    g.pass();
    assert!(!g.game_over());
    assert_eq!(g.current_player(), Stone::White);
    g.pass();
    assert!(g.game_over());
    // Scores come in half points: an empty finished board is 0 vs the komi.
    let (black2, white2) = g.calculate_scores();
    assert_eq!(black2, 0);
    assert_eq!(white2, 13);
    assert_eq!(white2 as f64 / 2.0 - black2 as f64 / 2.0, 6.5);
}

#[test]
fn scores_zero_before_game_over() {
    let mut g = GameState::new();
    assert!(g.place_stone(3, 3));
    assert_eq!(g.calculate_scores(), (0, 0));
}

#[test]
fn lone_stone_owns_all_territory() {
    let mut g = GameState::new();
    assert!(g.place_stone(3, 3)); // Black
    g.pass(); // White
    g.pass(); // Black; two consecutive passes end the game
    assert!(g.game_over());
    let (black2, white2) = g.calculate_scores();
    // All 360 empty cells form one region bordered only by Black.
    assert_eq!(black2, 720);
    assert_eq!(white2, 13);
}

#[test]
fn turn_alternation() {
    let mut g = GameState::new();
    assert_eq!(g.current_player(), Stone::Black);
    assert!(g.place_stone(0, 0));
    assert_eq!(g.current_player(), Stone::White);
    assert!(g.place_stone(5, 5));
    assert_eq!(g.current_player(), Stone::Black);
    g.pass();
    assert_eq!(g.current_player(), Stone::White);
    assert!(g.place_stone(7, 7));
    assert_eq!(g.current_player(), Stone::Black);
    g.pass();
    g.pass();
    assert!(g.game_over());
    // After the game ends the player no longer alternates.
    let p = g.current_player();
    g.pass();
    assert_eq!(g.current_player(), p);
    assert!(!g.place_stone(9, 9));
    assert_eq!(g.current_player(), p);
}

#[test]
fn rejected_pass_after_game_over_changes_nothing() {
    let mut g = GameState::new();
    assert!(g.place_stone(2, 2));
    g.pass();
    g.pass();
    assert!(g.game_over());
    let before = g.get_board();
    g.pass();
    assert!(g.game_over());
    assert_eq!(g.get_board(), before);
}

#[test]
fn capture_enables_suicide() {
    let mut g = GameState::new();
    // Black wall west of the ko point, White wall east of it.
    assert!(g.place_stone(0, 1)); // B
    assert!(g.place_stone(0, 2)); // W
    assert!(g.place_stone(1, 0)); // B
    assert!(g.place_stone(1, 3)); // W
    assert!(g.place_stone(2, 1)); // B
    assert!(g.place_stone(2, 2)); // W
    assert!(g.place_stone(5, 5)); // B tenuki
    assert!(g.place_stone(1, 1)); // W stone in the ko; its liberty is (1,2)
    // Black at (1,2) has no liberty of its own but captures (1,1).
    assert!(g.is_valid_move(1, 2));
    assert!(g.place_stone(1, 2));
    assert_eq!(g.black_captured(), 1);
    assert_eq!(g.get_stone(1, 1), Stone::Empty);
    assert_eq!(g.get_stone(1, 2), Stone::Black);
    assert_eq!(g.current_player(), Stone::White);
}

#[test]
fn ko_rule_enforced() {
    let mut g = GameState::new();
    assert!(g.place_stone(0, 1)); // B
    assert!(g.place_stone(0, 2)); // W
    assert!(g.place_stone(1, 0)); // B
    assert!(g.place_stone(1, 3)); // W
    assert!(g.place_stone(2, 1)); // B
    assert!(g.place_stone(2, 2)); // W
    assert!(g.place_stone(5, 5)); // B tenuki
    assert!(g.place_stone(1, 1)); // W plays the ko stone
    assert!(g.place_stone(1, 2)); // B captures it
    assert_eq!(g.black_captured(), 1);
    // The immediate recapture would recreate the previous board: ko.
    // The local legality query deliberately ignores ko.
    assert!(g.is_valid_move(1, 1));
    let before = g.get_board();
    assert!(!g.place_stone(1, 1));
    assert_eq!(g.get_board(), before);
    assert_eq!(g.current_player(), Stone::White);
    assert_eq!(g.white_captured(), 0);
    // After an exchange elsewhere the same point is legal again.
    assert!(g.place_stone(10, 10)); // W
    assert!(g.place_stone(10, 12)); // B
    assert!(g.place_stone(1, 1)); // W retakes the ko
    assert_eq!(g.white_captured(), 1);
    assert_eq!(g.get_stone(1, 2), Stone::Empty);
    assert_eq!(g.get_stone(1, 1), Stone::White);
}

#[test]
fn reset_restores_initial_state() {
    let mut g = GameState::new();
    assert!(g.place_stone(3, 3));
    assert!(g.place_stone(4, 4));
    g.pass();
    g.pass();
    assert!(g.game_over());
    g.reset();
    assert!(!g.game_over());
    assert_eq!(g.current_player(), Stone::Black);
    assert_eq!(g.black_captured(), 0);
    assert_eq!(g.white_captured(), 0);
    assert_eq!(g.get_last_move(), None);
    assert_eq!(board_counts(&g), (361, 0, 0));
    assert!(g.place_stone(3, 3));
}

#[test]
fn pass_clears_last_move() {
    let mut g = GameState::new();
    assert!(g.place_stone(6, 6));
    assert_eq!(g.get_last_move(), Some((6, 6)));
    g.pass();
    assert_eq!(g.get_last_move(), None);
}

#[test]
fn get_stone_out_of_bounds_is_empty() {
    let g = GameState::new();
    assert_eq!(g.get_stone(19, 0), Stone::Empty);
    assert_eq!(g.get_stone(0, 19), Stone::Empty);
    assert_eq!(g.get_stone(1000, 1000), Stone::Empty);
}

#[test]
fn star_points() {
    let g = GameState::new();
    for &r in &[3usize, 9, 15] {
        for &c in &[3usize, 9, 15] {
            assert!(g.is_star_point(r, c));
        }
    }
    assert!(!g.is_star_point(0, 0));
    assert!(!g.is_star_point(3, 4));
    assert!(!g.is_star_point(9, 10));
}

#[test]
fn column_labels() {
    let g = GameState::new();
    assert_eq!(g.get_column_label(0), "A");
    assert_eq!(g.get_column_label(1), "B");
    assert_eq!(g.get_column_label(18), "S");
    assert_eq!(g.get_column_label(19), "");
    assert_eq!(g.get_column_label(100), "");
}

#[test]
fn row_labels() {
    let g = GameState::new();
    assert_eq!(g.get_row_label(0), "19");
    assert_eq!(g.get_row_label(9), "10");
    assert_eq!(g.get_row_label(10), "9");
    assert_eq!(g.get_row_label(18), "1");
}

#[test]
fn valid_moves_enumeration() {
    let mut g = GameState::new();
    let all = g.get_valid_moves();
    assert_eq!(all.len(), 361);
    assert_eq!(all[0], (0, 0));
    assert_eq!(all[360], (18, 18));
    assert!(g.place_stone(3, 3));
    let rest = g.get_valid_moves();
    assert_eq!(rest.len(), 360);
    assert!(!rest.contains(&(3, 3)));
    g.pass();
    g.pass();
    assert!(g.game_over());
    assert_eq!(g.get_valid_moves().len(), 0);
}

#[test]
fn board_data_view() {
    let mut g = GameState::new();
    assert!(g.place_stone(3, 3));
    let data = g.get_board_data();
    assert_eq!(data.len(), 361);
    let e = &data[3 * 19 + 3];
    assert_eq!(e.row, 3);
    assert_eq!(e.col, 3);
    assert_eq!(e.stone, 1);
    assert!(e.is_star_point);
    assert!(e.is_last_move);
    assert!(!e.is_valid_move);
    let z = &data[0];
    assert_eq!(z.row, 0);
    assert_eq!(z.col, 0);
    assert_eq!(z.stone, 0);
    assert!(!z.is_star_point);
    assert!(!z.is_last_move);
    assert!(z.is_valid_move);
}

#[test]
fn multi_stone_group_capture() {
    let mut g = GameState::new();
    // A two-stone White group on the edge: (0,4) and (0,5).
    assert!(g.place_stone(1, 4)); // B
    assert!(g.place_stone(0, 4)); // W
    assert!(g.place_stone(1, 5)); // B
    assert!(g.place_stone(0, 5)); // W
    assert!(g.place_stone(0, 3)); // B takes one outside liberty
    assert!(g.place_stone(10, 10)); // W elsewhere
    assert_eq!(g.black_captured(), 0);
    assert!(g.place_stone(0, 6)); // B fills the last liberty: both fall
    assert_eq!(g.black_captured(), 2);
    assert_eq!(g.get_stone(0, 4), Stone::Empty);
    assert_eq!(g.get_stone(0, 5), Stone::Empty);
}

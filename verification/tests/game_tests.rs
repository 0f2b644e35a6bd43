use game_2048::game_2048_matrix::{Game2048Matrix, GameAction, MoveOrientation};
use game_2048::game_data::{GameActionReporter, GameData};

fn grid_from_rows(rows: &[&[u32]]) -> Game2048Matrix {
    let n = rows.len();
    let mut m = Game2048Matrix::new(n);
    for (r, row) in rows.iter().enumerate() {
        assert_eq!(row.len(), n);
        for (c, &v) in row.iter().enumerate() {
            m.write(r, c, v);
        }
    }
    m
}

fn rows_of(m: &Game2048Matrix) -> Vec<Vec<u32>> {
    let n = m.get_matrix_order();
    (0..n).map(|r| (0..n).map(|c| m.read(r, c)).collect()).collect()
}

fn sum_of(m: &Game2048Matrix) -> u64 {
    let n = m.get_matrix_order();
    let mut s: u64 = 0;
    for r in 0..n {
        for c in 0..n {
            s += m.read(r, c) as u64;
        }
    }
    s
}

fn tiles_of(m: &Game2048Matrix) -> usize {
    let n = m.get_matrix_order();
    let mut t = 0;
    for r in 0..n {
        for c in 0..n {
            if m.read(r, c) != 0 {
                t += 1;
            }
        }
    }
    t
}

#[test]
fn new_grid_is_zero() {
    let m = Game2048Matrix::new(4);
    assert_eq!(m.get_matrix_order(), 4);
    for r in 0..4 {
        for c in 0..4 {
            assert_eq!(m.read(r, c), 0);
        }
    }
}

#[test]
fn write_then_read() {
    let mut m = Game2048Matrix::new(3);
    m.write(1, 2, 8);
    m.write(0, 0, 2);
    assert_eq!(m.read(1, 2), 8);
    assert_eq!(m.read(0, 0), 2);
    assert_eq!(m.read(2, 2), 0);
}

#[test]
fn clone_is_deep_and_eq_compares_cells() {
    let mut m = grid_from_rows(&[&[2, 0], &[0, 4]]);
    let backup = m.clone();
    assert!(m == backup);
    m.write(0, 1, 2);
    assert!(m != backup);
    assert_eq!(backup.read(0, 1), 0);
}

#[test]
fn four_twos_merge_into_two_fours() {
    // Line [2,2,2,2] toward the line start: two merges, nothing left single.
    let mut m = grid_from_rows(&[
        &[2, 2, 2, 2],
        &[0, 0, 0, 0],
        &[0, 0, 0, 0],
        &[0, 0, 0, 0],
    ]);
    let actions = m.move_to(MoveOrientation::Left);
    assert_eq!(rows_of(&m)[0], vec![4, 4, 0, 0]);
    let merges: Vec<&GameAction> = actions
        .iter()
        .filter(|a| matches!(a, GameAction::Merge { .. }))
        .collect();
    assert_eq!(merges.len(), 2);
    assert_eq!(
        actions,
        vec![
            GameAction::Merge { from: 1, to: 0, merge_result: 4 },
            GameAction::Move { from: 2, to: 1 },
            GameAction::Merge { from: 3, to: 1, merge_result: 4 },
        ]
    );
}

#[test]
fn merge_across_gap_then_trailing_tile_follows() {
    // Line [2,0,2,4]: the two 2's merge across the gap, the 4 moves in behind.
    let mut m = grid_from_rows(&[
        &[2, 0, 2, 4],
        &[0, 0, 0, 0],
        &[0, 0, 0, 0],
        &[0, 0, 0, 0],
    ]);
    let actions = m.move_to(MoveOrientation::Left);
    assert_eq!(rows_of(&m)[0], vec![4, 4, 0, 0]);
    assert_eq!(
        actions,
        vec![
            GameAction::Merge { from: 2, to: 0, merge_result: 4 },
            GameAction::Move { from: 3, to: 1 },
        ]
    );
}

#[test]
fn only_middle_pair_merges() {
    // Line [4,2,2,4]: only the middle pair merges; the end 4's stay apart.
    let mut m = grid_from_rows(&[
        &[4, 2, 2, 4],
        &[0, 0, 0, 0],
        &[0, 0, 0, 0],
        &[0, 0, 0, 0],
    ]);
    let actions = m.move_to(MoveOrientation::Left);
    assert_eq!(rows_of(&m)[0], vec![4, 4, 4, 0]);
    assert_eq!(
        actions,
        vec![
            GameAction::Merge { from: 2, to: 1, merge_result: 4 },
            GameAction::Move { from: 3, to: 2 },
        ]
    );
}

#[test]
fn zero_grid_emits_nothing() {
    for o in [
        MoveOrientation::Left,
        MoveOrientation::Up,
        MoveOrientation::Right,
        MoveOrientation::Down,
    ] {
        let mut m = Game2048Matrix::new(4);
        let actions = m.move_to(o);
        assert!(actions.is_empty());
        for r in 0..4 {
            for c in 0..4 {
                assert_eq!(m.read(r, c), 0);
            }
        }
    }
}

#[test]
fn move_right_uses_line_local_positions() {
    // Row [2,2,0,0] slid right: position 0 of the line is the rightmost
    // cell, so the merged tile lands at line-local position 0 (column 3).
    let mut m = grid_from_rows(&[
        &[2, 2, 0, 0],
        &[0, 0, 0, 0],
        &[0, 0, 0, 0],
        &[0, 0, 0, 0],
    ]);
    let actions = m.move_to(MoveOrientation::Right);
    assert_eq!(rows_of(&m)[0], vec![0, 0, 0, 4]);
    let merges: Vec<&GameAction> = actions
        .iter()
        .filter(|a| matches!(a, GameAction::Merge { .. }))
        .collect();
    assert_eq!(merges.len(), 1);
    assert_eq!(*merges[0], GameAction::Merge { from: 3, to: 0, merge_result: 4 });
    assert_eq!(
        actions,
        vec![
            GameAction::Move { from: 2, to: 0 },
            GameAction::Merge { from: 3, to: 0, merge_result: 4 },
        ]
    );
}

#[test]
fn move_up_and_down_work_on_columns() {
    let mut m = grid_from_rows(&[
        &[2, 0, 0, 0],
        &[2, 0, 0, 0],
        &[0, 0, 0, 0],
        &[0, 0, 0, 0],
    ]);
    let actions = m.move_to(MoveOrientation::Up);
    assert_eq!(rows_of(&m), vec![
        vec![4, 0, 0, 0],
        vec![0, 0, 0, 0],
        vec![0, 0, 0, 0],
        vec![0, 0, 0, 0],
    ]);
    assert_eq!(actions, vec![GameAction::Merge { from: 1, to: 0, merge_result: 4 }]);

    let mut m = grid_from_rows(&[
        &[2, 0, 0, 0],
        &[0, 0, 0, 0],
        &[2, 0, 0, 0],
        &[0, 0, 0, 0],
    ]);
    m.move_to(MoveOrientation::Down);
    assert_eq!(rows_of(&m), vec![
        vec![0, 0, 0, 0],
        vec![0, 0, 0, 0],
        vec![0, 0, 0, 0],
        vec![4, 0, 0, 0],
    ]);
}

#[test]
fn second_move_changes_nothing_without_fresh_equal_neighbours() {
    let mut m = grid_from_rows(&[
        &[2, 2, 8, 0],
        &[0, 8, 0, 2],
        &[16, 0, 0, 16],
        &[0, 0, 2, 4],
    ]);
    m.move_to(MoveOrientation::Left);
    let after_first = m.clone();
    let actions = m.move_to(MoveOrientation::Left);
    assert!(actions.is_empty());
    assert!(m == after_first);
}

#[test]
fn sum_is_conserved_and_tiles_drop_by_merges() {
    let mut m = grid_from_rows(&[
        &[2, 2, 4, 4],
        &[8, 0, 8, 2],
        &[0, 2, 0, 2],
        &[32, 32, 32, 32],
    ]);
    let sum_before = sum_of(&m);
    let tiles_before = tiles_of(&m);
    let actions = m.move_to(MoveOrientation::Left);
    let merges = actions
        .iter()
        .filter(|a| matches!(a, GameAction::Merge { .. }))
        .count();
    assert_eq!(sum_of(&m), sum_before);
    assert_eq!(tiles_of(&m), tiles_before - merges);
    assert!(tiles_of(&m) <= tiles_before);
}

#[test]
fn sliding_again_can_merge_fresh_equal_neighbours() {
    // 4,2,2,4 slides to 4,4,4,0: the first pass leaves equal neighbours,
    // and a second pass merges the first pair of them.
    let mut m = grid_from_rows(&[
        &[4, 2, 2, 4],
        &[0, 0, 0, 0],
        &[0, 0, 0, 0],
        &[0, 0, 0, 0],
    ]);
    m.move_to(MoveOrientation::Left);
    assert_eq!(rows_of(&m)[0], vec![4, 4, 4, 0]);
    let actions = m.move_to(MoveOrientation::Left);
    assert_eq!(rows_of(&m)[0], vec![8, 4, 0, 0]);
    assert!(!actions.is_empty());
}

#[test]
fn game_data_accumulates_score_and_max() {
    let mut d = GameData::new();
    assert_eq!(d.score, 0);
    assert_eq!(d.max_number, 0);
    d.report(GameAction::Merge { from: 1, to: 0, merge_result: 4 });
    assert_eq!(d.score, 4);
    assert_eq!(d.max_number, 4);
    d.report(GameAction::Move { from: 3, to: 1 });
    assert_eq!(d.score, 4);
    assert_eq!(d.max_number, 4);
    d.report(GameAction::Merge { from: 2, to: 1, merge_result: 8 });
    assert_eq!(d.score, 12);
    assert_eq!(d.max_number, 8);
    d.report(GameAction::Merge { from: 3, to: 2, merge_result: 4 });
    assert_eq!(d.score, 16);
    assert_eq!(d.max_number, 8);
}

#[test]
fn one_by_one_grid_never_moves() {
    let mut m = Game2048Matrix::new(1);
    m.write(0, 0, 2);
    let actions = m.move_to(MoveOrientation::Left);
    assert!(actions.is_empty());
    assert_eq!(m.read(0, 0), 2);
}

#[test]
fn degenerate_empty_grid() {
    let mut m = Game2048Matrix::new(0);
    assert_eq!(m.get_matrix_order(), 0);
    let actions = m.move_to(MoveOrientation::Up);
    assert!(actions.is_empty());
}

#[test]
fn effects_come_line_by_line_in_order() {
    // Lines are processed in increasing index order, so the effect stream
    // is deterministic: row 0's move precedes row 2's.
    let mut m = grid_from_rows(&[
        &[0, 2, 0, 0],
        &[0, 0, 0, 0],
        &[0, 0, 4, 0],
        &[0, 0, 0, 0],
    ]);
    let actions = m.move_to(MoveOrientation::Left);
    assert_eq!(
        actions,
        vec![
            GameAction::Move { from: 1, to: 0 },
            GameAction::Move { from: 2, to: 0 },
        ]
    );
}

#[test]
fn order_five_grid_slides_each_row() {
    let mut m = grid_from_rows(&[
        &[2, 2, 2, 2, 2],
        &[0, 4, 0, 4, 8],
        &[0, 0, 0, 0, 2],
        &[16, 16, 8, 8, 4],
        &[0, 0, 0, 0, 0],
    ]);
    let sum_before = sum_of(&m);
    m.move_to(MoveOrientation::Left);
    assert_eq!(rows_of(&m), vec![
        vec![4, 4, 2, 0, 0],
        vec![8, 8, 0, 0, 0],
        vec![2, 0, 0, 0, 0],
        vec![32, 16, 4, 0, 0],
        vec![0, 0, 0, 0, 0],
    ]);
    assert_eq!(sum_of(&m), sum_before);
}

#[test]
fn conservation_holds_in_every_direction() {
    for o in [
        MoveOrientation::Left,
        MoveOrientation::Up,
        MoveOrientation::Right,
        MoveOrientation::Down,
    ] {
        let mut m = grid_from_rows(&[
            &[2, 0, 2, 4],
            &[4, 4, 0, 2],
            &[0, 8, 8, 0],
            &[2, 0, 0, 2],
        ]);
        let sum_before = sum_of(&m);
        let tiles_before = tiles_of(&m);
        let actions = m.move_to(o);
        let merges = actions
            .iter()
            .filter(|a| matches!(a, GameAction::Merge { .. }))
            .count();
        assert_eq!(sum_of(&m), sum_before);
        assert_eq!(tiles_of(&m), tiles_before - merges);
    }
}

#[test]
fn tile_already_in_place_emits_nothing() {
    let mut m = grid_from_rows(&[
        &[2, 4, 0, 0],
        &[0, 0, 0, 0],
        &[0, 0, 0, 0],
        &[0, 0, 0, 0],
    ]);
    let actions = m.move_to(MoveOrientation::Left);
    assert!(actions.is_empty());
    assert_eq!(rows_of(&m)[0], vec![2, 4, 0, 0]);
}

use sudoku_solver::digits::{mask_contains, mask_count, mask_first, mask_insert, DIGITSET};
use sudoku_solver::sudoku::{Fill, PValue, Sudoku, SudokuError, Value, View};

fn sample_grid() -> Sudoku {
    let text = "\
1 2 3 4 5 6 7 8 9
4 5 6 7 8 9 1 2 3
7 8 9 1 2 3 4 5 6
2 3 4 5 6 7 8 9 1
5 6 7 8 9 1 2 3 4
8 9 1 2 3 4 5 6 7
3 4 5 6 7 8 9 1 2
6 7 8 9 1 2 3 4 5
9 1 2 3 4 5 6 7 8
";
    Sudoku::new(text).unwrap()
}

#[test]
fn fill_function() {
    let mut set: u16 = 0;
    set = mask_insert(set, 4);
    set = mask_insert(set, 6);
    let pv7 = PValue { pos: 7, value: Value::Unknown(set) };
    let view: View = View(vec![
        PValue { pos: 0, value: Value::Just(5) },
        PValue { pos: 1, value: Value::Just(2) },
        PValue { pos: 2, value: Value::Just(3) },
        PValue { pos: 3, value: Value::Just(8) },
        PValue { pos: 4, value: Value::Just(1) },
        PValue { pos: 5, value: Value::Just(7) },
        PValue { pos: 6, value: Value::Just(9) },
        pv7,
        PValue { pos: 8, value: Value::Just(6) },
    ]);

    let set = mask_insert(0, 4);
    assert_eq!(view.fill(), vec![Fill(7, Value::Unknown(set))]);
}

#[test]
fn digit_masks() {
    assert_eq!(DIGITSET, 0x1ff);
    let mut m: u16 = 0;
    assert_eq!(mask_count(m), 0);
    m = mask_insert(m, 3);
    m = mask_insert(m, 7);
    assert!(mask_contains(m, 3));
    assert!(mask_contains(m, 7));
    assert!(!mask_contains(m, 1));
    assert_eq!(mask_count(m), 2);
    assert_eq!(mask_first(m), 3);
    assert_eq!(mask_count(DIGITSET), 9);
    assert_eq!(mask_first(DIGITSET), 1);
}

#[test]
fn view_set_collects_fixed_digits() {
    let grid = sample_grid();
    let row = grid.get_row(0).unwrap();
    let m = row.set();
    for d in 1..=9u8 {
        assert!(mask_contains(m, d));
    }
    assert_eq!(m, DIGITSET);
}

#[test]
fn views_select_the_right_cells() {
    let grid = sample_grid();
    let row = grid.get_row(1).unwrap();
    assert_eq!(row.len(), 9);
    assert_eq!(row.0[0].value, Value::Just(4));
    assert_eq!(row.0[8].value, Value::Just(3));
    assert_eq!(row.0[0].pos, 9);

    let column = grid.get_column(2).unwrap();
    assert_eq!(column.len(), 9);
    assert_eq!(column.0[0].value, Value::Just(3));
    assert_eq!(column.0[1].value, Value::Just(6));
    assert_eq!(column.0[0].pos, 2);
    assert_eq!(column.0[8].pos, 74);

    let area = grid.get_area(4).unwrap();
    assert_eq!(area.len(), 9);
    assert_eq!(area.0[0].pos, 30);
    assert_eq!(area.0[0].value, Value::Just(5));
    assert_eq!(area.0[8].pos, 50);
    assert_eq!(area.0[8].value, Value::Just(4));
}

#[test]
fn view_index_out_of_range() {
    let grid = sample_grid();
    assert_eq!(grid.get_row(9).err(), Some(SudokuError::InvalidIndex));
    assert_eq!(grid.get_column(10).err(), Some(SudokuError::InvalidIndex));
    assert_eq!(grid.get_area(9).err(), Some(SudokuError::InvalidIndex));
    assert!(grid.get_row(8).is_ok());
}

#[test]
fn fill_commits_updates() {
    let mut grid = sample_grid();
    let r = grid.fill(vec![Fill(0, Value::Blank), Fill(80, Value::Just(5))]);
    assert_eq!(r, Ok(()));
    assert_eq!(grid.vec[0].value, Value::Blank);
    assert_eq!(grid.vec[80].value, Value::Just(5));
}

#[test]
fn fill_last_write_wins() {
    let mut grid = sample_grid();
    let r = grid.fill(vec![Fill(0, Value::Just(4)), Fill(0, Value::Just(7))]);
    assert_eq!(r, Ok(()));
    assert_eq!(grid.vec[0].value, Value::Just(7));
}

#[test]
fn fill_rejects_out_of_range_position_atomically() {
    let mut grid = sample_grid();
    let before = grid.clone();
    let r = grid.fill(vec![Fill(0, Value::Blank), Fill(81, Value::Just(1))]);
    assert_eq!(r, Err(SudokuError::InvalidIndex));
    assert_eq!(true, grid == before);
}

#[test]
fn unknown_to_just_demotes_single_candidates() {
    let mut grid = sample_grid();
    let single = mask_insert(0, 5);
    let pair = mask_insert(mask_insert(0, 2), 8);
    grid.fill(vec![Fill(3, Value::Unknown(single)), Fill(4, Value::Unknown(pair))]).unwrap();
    grid.unknown_to_just();
    assert_eq!(grid.vec[3].value, Value::Just(5));
    assert_eq!(grid.vec[4].value, Value::Unknown(pair));
}

#[test]
fn is_solved_spots_undetermined_cells() {
    let mut grid = sample_grid();
    assert!(grid.is_solved());
    grid.fill(vec![Fill(40, Value::Blank)]).unwrap();
    assert!(!grid.is_solved());
}

#[test]
fn find_unique_proposes_hidden_singles() {
    let m12 = mask_insert(mask_insert(0, 1), 2);
    let m23 = mask_insert(mask_insert(0, 2), 3);
    let view = View(vec![
        PValue { pos: 0, value: Value::Unknown(m12) },
        PValue { pos: 1, value: Value::Unknown(m23) },
        PValue { pos: 2, value: Value::Just(4) },
    ]);
    let fills = view.find_unique();
    assert_eq!(fills, vec![Fill(0, Value::Just(1)), Fill(1, Value::Just(3))]);
}

#[test]
fn find_unique_ignores_shared_candidates() {
    let m = mask_insert(mask_insert(0, 5), 6);
    let view = View(vec![
        PValue { pos: 0, value: Value::Unknown(m) },
        PValue { pos: 1, value: Value::Unknown(m) },
    ]);
    assert_eq!(view.find_unique(), vec![]);
}

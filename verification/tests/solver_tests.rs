use sudoku_solver::digits::DIGITSET;
use sudoku_solver::solver::Solver;
use sudoku_solver::sudoku::{Sudoku, Value};

fn latin_square() -> &'static str {
    r#"
            1 2 3 4 5 6 7 8 9
            4 5 6 7 8 9 1 2 3
            7 8 9 1 2 3 4 5 6
            2 3 4 5 6 7 8 9 1
            5 6 7 8 9 1 2 3 4
            8 9 1 2 3 4 5 6 7
            3 4 5 6 7 8 9 1 2
            6 7 8 9 1 2 3 4 5
            9 1 2 3 4 5 6 7 8
        "#
}

#[test]
fn no_unknown_is_finished() {
    let s_str = r#"
            1 2 3 4 5 6 7 8 9
            4 5 6 7 8 9 1 2 3
            7 8 9 1 2 3 4 5 6
            2 3 4 5 6 7 8 9 1
            5 6 7 8 9 1 2 3 4
            8 9 1 2 3 4 5 6 7
            3 4 5 6 7 8 9 1 2
            6 7 8 9 1 2 3 4 5
            9 1 2 3 4 5 6 7 8
        "#;

    let sdk = Sudoku::new(&s_str).unwrap();
    assert_eq!(true, Solver::new(sdk).is_finished())
}

#[test]
fn same_sudoku() {
    let s_str = r#"
            1 2 3 4 5 6 7 8 9
            4 5 6 7 8 9 1 2 3
            7 8 9 1 2 3 4 5 6
            2 3 4 5 6 7 8 9 1
            5 6 7 8 9 1 2 3 4
            8 9 1 2 3 4 5 6 7
            3 4 5 6 7 8 9 1 2
            6 7 8 9 1 2 3 4 5
            9 1 2 3 4 5 6 7 8
        "#;

    let sdk = Sudoku::new(&s_str).unwrap();
    let sdk2 = Sudoku::new(&s_str).unwrap();
    assert_eq!(true, sdk == sdk2);
}

#[test]
fn solved_grid_stays_untouched() {
    let sdk = Sudoku::new(latin_square()).unwrap();
    let before = sdk.clone();
    assert!(sdk.is_solved());
    let mut solver = Solver::new(sdk);
    solver.solve();
    assert!(solver.sudoku.is_solved());
    assert_eq!(true, solver.sudoku == before);
}

#[test]
fn single_blank_cell_is_resolved() {
    let text = latin_square().replacen('1', "_", 1);
    let sdk = Sudoku::new(&text).unwrap();
    assert_eq!(sdk.vec[0].value, Value::Blank);
    assert!(!sdk.is_solved());
    let mut solver = Solver::new(sdk);
    solver.solve();
    assert!(solver.sudoku.is_solved());
    assert_eq!(solver.sudoku.vec[0].value, Value::Just(1));
    let reference = Sudoku::new(latin_square()).unwrap();
    assert_eq!(true, solver.sudoku == reference);
}

#[test]
fn empty_grid_stays_unsolved() {
    let mut text = String::new();
    for _ in 0..9 {
        text.push_str("_ _ _ _ _ _ _ _ _\n");
    }
    let sdk = Sudoku::new(&text).unwrap();
    let mut solver = Solver::new(sdk);
    solver.solve();
    assert!(!solver.sudoku.is_solved());
    assert!(!solver.is_finished());
    for cell in solver.sudoku.vec.iter() {
        assert_eq!(cell.value, Value::Unknown(DIGITSET));
    }
}

#[test]
fn blanked_row_is_resolved() {
    let text = latin_square().replace("5 6 7 8 9 1 2 3 4", "_ _ _ _ _ _ _ _ _");
    let sdk = Sudoku::new(&text).unwrap();
    assert!(!sdk.is_solved());
    let mut solver = Solver::new(sdk);
    solver.solve();
    assert!(solver.sudoku.is_solved());
    let reference = Sudoku::new(latin_square()).unwrap();
    assert_eq!(true, solver.sudoku == reference);
}

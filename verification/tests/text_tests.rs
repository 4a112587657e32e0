use sudoku_solver::sudoku::{Fill, Sudoku, SudokuError, Value};
use sudoku_solver::text::make_line;

fn solved_text() -> String {
    let rows: [[u8; 9]; 9] = [
        [1, 2, 3, 4, 5, 6, 7, 8, 9],
        [4, 5, 6, 7, 8, 9, 1, 2, 3],
        [7, 8, 9, 1, 2, 3, 4, 5, 6],
        [2, 3, 4, 5, 6, 7, 8, 9, 1],
        [5, 6, 7, 8, 9, 1, 2, 3, 4],
        [8, 9, 1, 2, 3, 4, 5, 6, 7],
        [3, 4, 5, 6, 7, 8, 9, 1, 2],
        [6, 7, 8, 9, 1, 2, 3, 4, 5],
        [9, 1, 2, 3, 4, 5, 6, 7, 8],
    ];
    let mut text = String::new();
    for row in rows.iter() {
        for d in row.iter() {
            text.push_str(&d.to_string());
            text.push(' ');
        }
        text.push('\n');
    }
    text
}

#[test]
fn make_line_reads_nine_tokens() {
    let cells = make_line("1 2 _ 4 x 6 7 8 9", 18).unwrap();
    assert_eq!(cells.len(), 9);
    assert_eq!(cells[0].pos, 18);
    assert_eq!(cells[0].value, Value::Just(1));
    assert_eq!(cells[2].value, Value::Blank);
    assert_eq!(cells[4].value, Value::Blank);
    assert_eq!(cells[8].pos, 26);
    assert_eq!(cells[8].value, Value::Just(9));
}

#[test]
fn make_line_rejects_zero() {
    assert_eq!(make_line("0 2 3 4 5 6 7 8 9", 0).err(), Some(SudokuError::DigitOutOfRange));
}

#[test]
fn make_line_rejects_wrong_token_count() {
    assert_eq!(make_line("1 2 3 4 5 6 7 8", 0).err(), Some(SudokuError::WrongTokenCount));
    assert_eq!(make_line("1 2 3 4 5 6 7 8 9 1", 0).err(), Some(SudokuError::WrongTokenCount));
}

#[test]
fn new_rejects_wrong_line_count() {
    let mut eight = String::new();
    for _ in 0..8 {
        eight.push_str("1 2 3 4 5 6 7 8 9\n");
    }
    assert_eq!(Sudoku::new(&eight).err(), Some(SudokuError::WrongLineCount));

    let mut ten = String::new();
    for _ in 0..10 {
        ten.push_str("1 2 3 4 5 6 7 8 9\n");
    }
    assert_eq!(Sudoku::new(&ten).err(), Some(SudokuError::WrongLineCount));
}

#[test]
fn new_propagates_line_errors() {
    let mut text = String::from("1 2 3 4 5 6 7 8 9\n");
    text.push_str("4 5 6 7 8 0 1 2 3\n");
    for _ in 0..7 {
        text.push_str("1 2 3 4 5 6 7 8 9\n");
    }
    assert_eq!(Sudoku::new(&text).err(), Some(SudokuError::DigitOutOfRange));
}

#[test]
fn new_skips_blank_lines_and_carriage_returns() {
    let mut text = String::from("\n   \n");
    for _ in 0..9 {
        text.push_str("1 2 3 4 5 6 7 8 9\r\n");
    }
    text.push_str("  \n");
    let sdk = Sudoku::new(&text).unwrap();
    assert_eq!(sdk.vec.len(), 81);
    assert_eq!(sdk.vec[80].value, Value::Just(9));
    assert_eq!(sdk.vec[80].pos, 80);
}

#[test]
fn stray_carriage_return_reads_as_blank() {
    let cells = make_line("1 2 3 4 \r 6 7 8 9", 0).unwrap();
    assert_eq!(cells[4].value, Value::Blank);
    let cells = make_line("1 2 3 4 5 6 7 8\r", 0).unwrap();
    assert_eq!(cells[8].value, Value::Blank);
}

#[test]
fn line_terminator_strips_one_carriage_return() {
    let mut text = String::from("1 2 3 4 5 6 7 8\r\n");
    for _ in 0..8 {
        text.push_str("1 2 3 4 5 6 7 8 9\r\n");
    }
    assert_eq!(Sudoku::new(&text).err(), Some(SudokuError::WrongTokenCount));
}

#[test]
fn render_writes_nine_lines_of_tokens() {
    let sdk = Sudoku::new(&solved_text()).unwrap();
    let out = sdk.render();
    let mut expected = String::new();
    for line in solved_text().lines() {
        expected.push_str(line);
        expected.push('\n');
    }
    assert_eq!(out, expected);
}

#[test]
fn render_marks_blank_and_candidate_cells() {
    let mut sdk = Sudoku::new(&solved_text()).unwrap();
    let mask: u16 = (1 << 1) | (1 << 4);
    sdk.fill(vec![Fill(0, Value::Unknown(mask)), Fill(1, Value::Blank)]).unwrap();
    let out = sdk.render();
    let first = out.lines().next().unwrap();
    assert_eq!(first, "*25 _ 3 4 5 6 7 8 9 ");
}

#[test]
fn render_then_parse_restores_the_grid() {
    let text = solved_text().replace('3', "_");
    let sdk = Sudoku::new(&text).unwrap();
    let reparsed = Sudoku::new(&sdk.render()).unwrap();
    assert_eq!(true, sdk == reparsed);
}

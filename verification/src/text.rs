//! Loading a grid from line-oriented text, and rendering a grid back.
//!
//! Puzzle text holds exactly 9 non-blank lines; each line, after discarding
//! spaces, must yield exactly 9 tokens. A token is a digit `1`..`9` (a fixed
//! cell) or any other non-space character (a blank cell).

use vstd::prelude::*;

verus! {

use vstd::view::View as _;
use vstd::string::*;

use crate::digits::{mask_has, mask_contains};
use crate::sudoku::{PValue, Sudoku, SudokuError, Value, grid_wf, value_wf};

/// The digit a character stands for, if it is one of `'0'..='9'`.
pub open spec fn char_digit(c: char) -> Option<u8> {
    if c == '0' {
        Some(0)
    } else if c == '1' {
        Some(1)
    } else if c == '2' {
        Some(2)
    } else if c == '3' {
        Some(3)
    } else if c == '4' {
        Some(4)
    } else if c == '5' {
        Some(5)
    } else if c == '6' {
        Some(6)
    } else if c == '7' {
        Some(7)
    } else if c == '8' {
        Some(8)
    } else if c == '9' {
        Some(9)
    } else {
        None
    }
}

/// The character a digit renders as.
pub open spec fn digit_char(d: u8) -> char {
    if d == 1 {
        '1'
    } else if d == 2 {
        '2'
    } else if d == 3 {
        '3'
    } else if d == 4 {
        '4'
    } else if d == 5 {
        '5'
    } else if d == 6 {
        '6'
    } else if d == 7 {
        '7'
    } else if d == 8 {
        '8'
    } else {
        '9'
    }
}

/// Characters discarded inside a line: only spaces. Any other non-digit
/// character, a stray carriage return included, is read as a blank cell.
pub open spec fn is_skip_char(c: char) -> bool {
    c == ' '
}

/// Characters a blank line may hold.
pub open spec fn is_blank_char(c: char) -> bool {
    c == ' ' || c == '\r'
}

/// A line that holds no cell token at all, and is skipped.
pub open spec fn blank_line(s: Seq<char>) -> bool {
    forall|i: int| 0 <= i < s.len() ==> is_blank_char(#[trigger] s[i])
}

/// A line terminator may be `\n` or `\r\n`: one carriage return just
/// before a newline belongs to the terminator, not to the line.
pub open spec fn strip_cr(s: Seq<char>) -> Seq<char> {
    if s.len() > 0 && s.last() == '\r' {
        s.drop_last()
    } else {
        s
    }
}

/// One line of puzzle text turned into cells, token by token. `pos` is the
/// grid position of the next token; `acc` the cells read so far.
pub open spec fn make_line_rec(s: Seq<char>, pos: nat, acc: Seq<PValue>) -> Result<
    Seq<PValue>,
    SudokuError,
>
    decreases s.len(),
{
    if s.len() == 0 {
        if acc.len() == 9 {
            Ok(acc)
        } else {
            Err(SudokuError::WrongTokenCount)
        }
    } else {
        let c = s[0];
        if is_skip_char(c) {
            make_line_rec(s.drop_first(), pos, acc)
        } else if acc.len() >= 9 {
            Err(SudokuError::WrongTokenCount)
        } else {
            match char_digit(c) {
                Some(d) => if 1 <= d <= 9 {
                    make_line_rec(s.drop_first(), pos + 1, acc.push(PValue {
                        pos: pos as usize,
                        value: Value::Just(d),
                    }))
                } else {
                    Err(SudokuError::DigitOutOfRange)
                },
                None => make_line_rec(s.drop_first(), pos + 1, acc.push(PValue {
                    pos: pos as usize,
                    value: Value::Blank,
                })),
            }
        }
    }
}

/// One line of puzzle text turned into 9 cells starting at grid position
/// `pos`, or the parse failure for that line.
pub open spec fn make_line_spec(s: Seq<char>, pos: nat) -> Result<Seq<PValue>, SudokuError> {
    make_line_rec(s, pos, Seq::empty())
}

/// The text split at every newline; `cur` is the line under construction.
pub open spec fn split_lines_rec(s: Seq<char>, cur: Seq<char>) -> Seq<Seq<char>>
    decreases s.len(),
{
    if s.len() == 0 {
        seq![cur]
    } else if s[0] == '\n' {
        seq![strip_cr(cur)] + split_lines_rec(s.drop_first(), Seq::empty())
    } else {
        split_lines_rec(s.drop_first(), cur.push(s[0]))
    }
}

/// The lines parsed in order: blank lines are skipped, each non-blank line
/// must yield 9 cells, and exactly 9 non-blank lines are accepted.
pub open spec fn parse_lines_rec(lines: Seq<Seq<char>>, done: nat, acc: Seq<PValue>) -> Result<
    Seq<PValue>,
    SudokuError,
>
    decreases lines.len(),
{
    if lines.len() == 0 {
        if done == 9 {
            Ok(acc)
        } else {
            Err(SudokuError::WrongLineCount)
        }
    } else if blank_line(lines[0]) {
        parse_lines_rec(lines.drop_first(), done, acc)
    } else if done >= 9 {
        Err(SudokuError::WrongLineCount)
    } else {
        match make_line_spec(lines[0], 9 * done) {
            Ok(cells) => parse_lines_rec(lines.drop_first(), done + 1, acc + cells),
            Err(e) => Err(e),
        }
    }
}

/// What parsing a whole puzzle text yields: the 81 cells, or the failure.
pub open spec fn parse_spec(s: Seq<char>) -> Result<Seq<PValue>, SudokuError> {
    parse_lines_rec(split_lines_rec(s, Seq::empty()), 0, Seq::empty())
}

fn char_to_digit(c: char) -> (r: Option<u8>)
    ensures
        r == char_digit(c),
{
    if c == '0' {
        Some(0)
    } else if c == '1' {
        Some(1)
    } else if c == '2' {
        Some(2)
    } else if c == '3' {
        Some(3)
    } else if c == '4' {
        Some(4)
    } else if c == '5' {
        Some(5)
    } else if c == '6' {
        Some(6)
    } else if c == '7' {
        Some(7)
    } else if c == '8' {
        Some(8)
    } else if c == '9' {
        Some(9)
    } else {
        None
    }
}

fn is_blank_line(line: &str) -> (b: bool)
    ensures
        b == blank_line(line@),
{
    let n = line.unicode_len();
    for i in 0..n
        invariant
            n == line@.len(),
            forall|j: int| 0 <= j < i ==> is_blank_char(#[trigger] line@[j]),
    {
        let c = line.get_char(i);
        if !(c == ' ' || c == '\r') {
            return false;
        }
    }
    true
}

/// Reads one line of puzzle text into 9 cells, numbered from `pos`.
pub fn make_line(line: &str, pos: usize) -> (r: Result<Vec<PValue>, SudokuError>)
    requires
        pos <= 72,
    ensures
        match r {
            Ok(v) => make_line_spec(line@, pos as nat) == Ok::<Seq<PValue>, SudokuError>(v@),
            Err(e) => make_line_spec(line@, pos as nat) == Err::<Seq<PValue>, SudokuError>(e),
        },
{
    let n = line.unicode_len();
    let mut vec: Vec<PValue> = Vec::new();
    let mut i: usize = 0;
    proof {
        assert(line@.skip(0) =~= line@);
    }
    while i < n
        invariant
            i <= n,
            n == line@.len(),
            pos <= 72,
            vec@.len() <= 9,
            make_line_spec(line@, pos as nat) == make_line_rec(line@.skip(i as int), (pos
                + vec@.len()) as nat, vec@),
        decreases n - i,
    {
        let c = line.get_char(i);
        proof {
            assert(line@.skip(i as int)[0] == line@[i as int]);
            assert(line@.skip(i as int).drop_first() =~= line@.skip(i as int + 1));
        }
        if c == ' ' {
        } else if vec.len() >= 9 {
            return Err(SudokuError::WrongTokenCount);
        } else {
            match char_to_digit(c) {
                Some(d) => {
                    if d >= 1 {
                        let p = pos + vec.len();
                        vec.push(PValue { pos: p, value: Value::Just(d) });
                    } else {
                        return Err(SudokuError::DigitOutOfRange);
                    }
                },
                None => {
                    let p = pos + vec.len();
                    vec.push(PValue { pos: p, value: Value::Blank });
                },
            }
        }
        i += 1;
    }
    proof {
        assert(line@.skip(n as int) =~= Seq::<char>::empty());
    }
    if vec.len() == 9 {
        Ok(vec)
    } else {
        Err(SudokuError::WrongTokenCount)
    }
}

proof fn lemma_make_line_wf(s: Seq<char>, pos: nat, acc: Seq<PValue>)
    requires
        acc.len() <= 9,
        pos <= 72 + acc.len(),
    ensures
        match make_line_rec(s, pos, acc) {
            Ok(v) => v.len() == 9 && v.take(acc.len() as int) == acc && (forall|j: int|
                acc.len() <= j < 9 ==> (#[trigger] v[j]).pos == pos + j - acc.len() && value_wf(
                    v[j].value) && !(v[j].value matches Value::Unknown(_))),
            Err(_) => true,
        },
    decreases s.len(),
{
    if s.len() == 0 {
        if acc.len() == 9 {
            assert(acc.take(acc.len() as int) =~= acc);
        }
    } else {
        let c = s[0];
        if is_skip_char(c) {
            lemma_make_line_wf(s.drop_first(), pos, acc);
        } else if acc.len() >= 9 {
        } else {
            let cell = match char_digit(c) {
                Some(d) => PValue { pos: pos as usize, value: Value::Just(d) },
                None => PValue { pos: pos as usize, value: Value::Blank },
            };
            match char_digit(c) {
                Some(d) => {
                    if 1 <= d <= 9 {
                        lemma_make_line_wf(s.drop_first(), pos + 1, acc.push(cell));
                        if let Ok(v) = make_line_rec(s, pos, acc) {
                            assert(v.take(acc.len() as int + 1) == acc.push(cell));
                            assert(v.take(acc.len() as int) =~= v.take(acc.len() as int
                                + 1).take(acc.len() as int));
                            assert(acc.push(cell).take(acc.len() as int) =~= acc);
                            assert(v[acc.len() as int] == v.take(acc.len() as int + 1)[acc.len() as int]);
                        }
                    }
                },
                None => {
                    lemma_make_line_wf(s.drop_first(), pos + 1, acc.push(cell));
                    if let Ok(v) = make_line_rec(s, pos, acc) {
                        assert(v.take(acc.len() as int + 1) == acc.push(cell));
                        assert(v.take(acc.len() as int) =~= v.take(acc.len() as int + 1).take(
                            acc.len() as int));
                        assert(acc.push(cell).take(acc.len() as int) =~= acc);
                        assert(v[acc.len() as int] == v.take(acc.len() as int + 1)[acc.len() as int]);
                    }
                },
            }
        }
    }
}

fn split_lines<'a>(text: &'a str) -> (r: Vec<&'a str>)
    ensures
        r@.len() == split_lines_rec(text@, Seq::empty()).len(),
        forall|i: int|
            0 <= i < r@.len() ==> (#[trigger] r@[i])@ == split_lines_rec(text@, Seq::empty())[i],
{
    let ghost all = split_lines_rec(text@, Seq::empty());
    let n = text.unicode_len();
    let mut lines: Vec<&'a str> = Vec::new();
    let mut start: usize = 0;
    let mut j: usize = 0;
    proof {
        assert(text@.skip(0) =~= text@);
        assert(text@.subrange(0, 0) =~= Seq::<char>::empty());
        assert(Seq::new(0, |i: int| lines@[i]@) =~= Seq::<Seq<char>>::empty());
        assert((Seq::<Seq<char>>::empty() + split_lines_rec(text@, Seq::empty()))
            =~= split_lines_rec(text@, Seq::empty()));
    }
    while j < n
        invariant
            start <= j <= n,
            n == text@.len(),
            all == split_lines_rec(text@, Seq::empty()),
            all =~= Seq::new(lines@.len(), |i: int| lines@[i]@) + split_lines_rec(text@.skip(
                j as int), text@.subrange(start as int, j as int)),
            forall|i: int| 0 <= i < lines@.len() ==> (#[trigger] lines@[i])@ == all[i],
        decreases n - j,
    {
        let c = text.get_char(j);
        proof {
            assert(text@.skip(j as int)[0] == text@[j as int]);
            assert(text@.skip(j as int).drop_first() =~= text@.skip(j as int + 1));
        }
        if c == '\n' {
            let crlf = j > start && text.get_char(j - 1) == '\r';
            let line = if crlf {
                text.substring_char(start, j - 1)
            } else {
                text.substring_char(start, j)
            };
            proof {
                let raw = text@.subrange(start as int, j as int);
                if crlf {
                    assert(raw.last() == text@[j as int - 1]);
                    assert(raw.drop_last() =~= text@.subrange(start as int, j as int - 1));
                } else if raw.len() > 0 {
                    assert(raw.last() == text@[j as int - 1]);
                }
                assert(line@ == strip_cr(raw));
            }
            let ghost pre = Seq::new(lines@.len(), |i: int| lines@[i]@);
            lines.push(line);
            start = j + 1;
            proof {
                assert(text@.subrange(start as int, start as int) =~= Seq::<char>::empty());
                assert(Seq::new(lines@.len(), |i: int| lines@[i]@) =~= pre.push(line@));
            }
        } else {
            proof {
                assert(text@.subrange(start as int, j as int + 1) =~= text@.subrange(
                    start as int, j as int).push(text@[j as int]));
            }
        }
        j += 1;
    }
    let line = text.substring_char(start, n);
    let ghost pre = Seq::new(lines@.len(), |i: int| lines@[i]@);
    lines.push(line);
    proof {
        assert(text@.skip(n as int) =~= Seq::<char>::empty());
        assert(Seq::new(lines@.len(), |i: int| lines@[i]@) =~= pre.push(line@));
        assert(all =~= Seq::new(lines@.len(), |i: int| lines@[i]@));
    }
    lines
}

impl Sudoku {
    /// Loads a grid from puzzle text: 9 non-blank lines of 9 tokens each.
    /// On any failure no grid is built and the cause is reported.
    pub fn new(text: &str) -> (r: Result<Sudoku, SudokuError>)
        ensures
            match r {
                Ok(s) => parse_spec(text@) == Ok::<Seq<PValue>, SudokuError>(s.vec@) && s.wf(),
                Err(e) => parse_spec(text@) == Err::<Seq<PValue>, SudokuError>(e),
            },
    {
        let lines = split_lines(text);
        let ghost lviews = split_lines_rec(text@, Seq::empty());
        let mut vec: Vec<PValue> = Vec::new();
        let mut done: usize = 0;
        let n = lines.len();
        proof {
            assert(lviews.skip(0) =~= lviews);
        }
        for li in 0..n
            invariant
                n == lines@.len(),
                n == lviews.len(),
                forall|i: int| 0 <= i < n ==> (#[trigger] lines@[i])@ == lviews[i],
                lviews == split_lines_rec(text@, Seq::empty()),
                done <= 9,
                vec@.len() == 9 * done,
                forall|q: int|
                    0 <= q < vec@.len() ==> (#[trigger] vec@[q]).pos == q && value_wf(vec@[q].value)
                        && !(vec@[q].value matches Value::Unknown(_)),
                parse_spec(text@) == parse_lines_rec(lviews.skip(li as int), done as nat, vec@),
        {
            let line = lines[li];
            proof {
                assert(lviews.skip(li as int)[0] == lviews[li as int]);
                assert(lviews.skip(li as int).drop_first() =~= lviews.skip(li as int + 1));
            }
            if is_blank_line(line) {
            } else if done == 9 {
                return Err(SudokuError::WrongLineCount);
            } else {
                match make_line(line, 9 * done) {
                    Ok(mut cells) => {
                        proof {
                            lemma_make_line_wf(line@, (9 * done) as nat, Seq::empty());
                        }
                        let ghost oldvec = vec@;
                        let ghost cseq = cells@;
                        vec.append(&mut cells);
                        done += 1;
                        proof {
                            assert forall|q: int|
                                0 <= q < vec@.len() implies (#[trigger] vec@[q]).pos == q
                                && value_wf(vec@[q].value) && !(vec@[q].value matches
                            Value::Unknown(_)) by {
                                if q >= oldvec.len() {
                                    assert(vec@[q] == cseq[q - oldvec.len()]);
                                } else {
                                    assert(vec@[q] == oldvec[q]);
                                }
                            }
                        }
                    },
                    Err(e) => {
                        return Err(e);
                    },
                }
            }
        }
        proof {
            assert(lviews.skip(n as int) =~= Seq::<Seq<char>>::empty());
        }
        if done == 9 {
            Ok(Sudoku { vec })
        } else {
            Err(SudokuError::WrongLineCount)
        }
    }
}

/// The characters one cell value renders as: its digit for a fixed cell, a
/// placeholder for a blank one, a marker and the sorted candidate digits for
/// an undetermined one.
pub open spec fn render_value_chars(v: Value) -> Seq<char> {
    match v {
        Value::Just(d) => seq![digit_char(d)],
        Value::Blank => seq!['_'],
        Value::Unknown(m) => seq!['*'] + mask_chars_from(m, 1),
    }
}

/// The digits of `d..=9` held by the mask, in ascending order.
pub open spec fn mask_chars_from(m: u16, d: int) -> Seq<char>
    decreases 10 - d,
{
    if d < 1 || d > 9 {
        Seq::empty()
    } else {
        (if mask_has(m, d as u8) {
            seq![digit_char(d as u8)]
        } else {
            Seq::empty()
        }) + mask_chars_from(m, d + 1)
    }
}

/// The characters of one rendered line, from the `k`-th cell on: each cell's
/// characters followed by one space.
pub open spec fn render_cells_from(vs: Seq<Value>, k: int) -> Seq<char>
    decreases vs.len() - k,
{
    if k < 0 || k >= vs.len() {
        Seq::empty()
    } else {
        render_value_chars(vs[k]) + seq![' '] + render_cells_from(vs, k + 1)
    }
}

/// The 9 values of row `r` of a grid.
pub open spec fn row_values(g: Seq<PValue>, r: int) -> Seq<Value> {
    Seq::new(9, |k: int| g[r * 9 + k].value)
}

/// The rendered text from row `r` on: one line per row, each ending in a
/// newline.
pub open spec fn render_rows_from(g: Seq<PValue>, r: int) -> Seq<char>
    decreases 9 - r,
{
    if r < 0 || r >= 9 {
        Seq::empty()
    } else {
        render_cells_from(row_values(g, r), 0) + seq!['\n'] + render_rows_from(g, r + 1)
    }
}

/// The whole rendered text of a grid.
pub open spec fn render_spec(g: Seq<PValue>) -> Seq<char> {
    render_rows_from(g, 0)
}

fn digit_str(d: u8) -> (r: &'static str)
    requires
        1 <= d <= 9,
    ensures
        r@ == seq![digit_char(d)],
{
    proof {
        reveal_strlit("1");
        reveal_strlit("2");
        reveal_strlit("3");
        reveal_strlit("4");
        reveal_strlit("5");
        reveal_strlit("6");
        reveal_strlit("7");
        reveal_strlit("8");
        reveal_strlit("9");
        assert("1"@ =~= seq!['1']);
        assert("2"@ =~= seq!['2']);
        assert("3"@ =~= seq!['3']);
        assert("4"@ =~= seq!['4']);
        assert("5"@ =~= seq!['5']);
        assert("6"@ =~= seq!['6']);
        assert("7"@ =~= seq!['7']);
        assert("8"@ =~= seq!['8']);
        assert("9"@ =~= seq!['9']);
    }
    match d {
        1 => "1",
        2 => "2",
        3 => "3",
        4 => "4",
        5 => "5",
        6 => "6",
        7 => "7",
        8 => "8",
        _ => "9",
    }
}

impl Sudoku {
    /// Renders the grid as 9 lines of 9 space-separated tokens: the digit of
    /// a fixed cell, `_` for a blank cell, and `*` followed by the candidate
    /// digits for an undetermined cell.
    pub fn render(&self) -> (out: String)
        requires
            self.wf(),
        ensures
            out@ == render_spec(self.vec@),
    {
        let ghost g = self.vec@;
        let mut out = String::new();
        proof {
            reveal_strlit("_");
            reveal_strlit("*");
            reveal_strlit(" ");
            reveal_strlit("\n");
            assert("_"@ =~= seq!['_']);
            assert("*"@ =~= seq!['*']);
            assert(" "@ =~= seq![' ']);
            assert("\n"@ =~= seq!['\n']);
        }
        for r in 0..9usize
            invariant
                self.wf(),
                g == self.vec@,
                render_spec(g) =~= out@ + render_rows_from(g, r as int),
        {
            proof {
                assert(render_rows_from(g, r as int) =~= render_cells_from(row_values(g, r as int),
                    0) + seq!['\n'] + render_rows_from(g, r as int + 1));
            }
            for c in 0..9usize
                invariant
                    self.wf(),
                    g == self.vec@,
                    r <= 8,
                    render_spec(g) =~= out@ + render_cells_from(row_values(g, r as int), c as int)
                        + seq!['\n'] + render_rows_from(g, r as int + 1),
            {
                proof {
                    reveal_strlit("_");
                    reveal_strlit("*");
                    reveal_strlit(" ");
                    assert("_"@ =~= seq!['_']);
                    assert("*"@ =~= seq!['*']);
                    assert(" "@ =~= seq![' ']);
                }
                let pv = self.vec[r * 9 + c];
                proof {
                    assert(row_values(g, r as int)[c as int] == pv.value);
                    assert(render_cells_from(row_values(g, r as int), c as int)
                        =~= render_value_chars(pv.value) + seq![' '] + render_cells_from(
                        row_values(g, r as int), c as int + 1));
                }
                match pv.value {
                    Value::Just(d) => {
                        out.append(digit_str(d));
                    },
                    Value::Blank => {
                        out.append("_");
                    },
                    Value::Unknown(m) => {
                        out.append("*");
                        let mut d: u8 = 1;
                        while d <= 9
                            invariant
                                1 <= d <= 10,
                                self.wf(),
                                g == self.vec@,
                                r <= 8,
                                c <= 8,
                                render_spec(g) =~= out@ + mask_chars_from(m, d as int)
                                    + seq![' '] + render_cells_from(row_values(g, r as int),
                                c as int + 1) + seq!['\n'] + render_rows_from(g, r as int + 1),
                            decreases 10 - d,
                        {
                            if mask_contains(m, d) {
                                out.append(digit_str(d));
                            }
                            d += 1;
                        }
                    },
                }
                out.append(" ");
            }
            proof {
                assert(render_cells_from(row_values(g, r as int), 9) =~= Seq::<char>::empty());
                reveal_strlit("\n");
                assert("\n"@ =~= seq!['\n']);
            }
            out.append("\n");
        }
        out
    }
}

proof fn lemma_render_cells_chars(vs: Seq<Value>, k: int)
    requires
        0 <= k <= vs.len(),
        forall|j: int|
            0 <= j < vs.len() ==> value_wf(#[trigger] vs[j]) && !(vs[j] matches Value::Unknown(_)),
    ensures
        forall|i: int|
            0 <= i < render_cells_from(vs, k).len() ==> #[trigger] render_cells_from(vs, k)[i]
                != '\n' && render_cells_from(vs, k)[i] != '\r',
        k < vs.len() ==> render_cells_from(vs, k).len() > 0 && !is_blank_char(render_cells_from(
            vs, k)[0]) && render_cells_from(vs, k)[0] != '\n',
    decreases vs.len() - k,
{
    if k < vs.len() {
        lemma_render_cells_chars(vs, k + 1);
        let tok = render_value_chars(vs[k]);
        let rest = render_cells_from(vs, k + 1);
        assert(tok.len() == 1);
        assert(render_cells_from(vs, k) =~= tok + seq![' '] + rest);
        assert forall|i: int| 0 <= i < render_cells_from(vs, k).len() implies #[trigger]
            render_cells_from(vs, k)[i] != '\n' && render_cells_from(vs, k)[i] != '\r' by {
            if i >= 2 {
                assert(render_cells_from(vs, k)[i] == rest[i - 2]);
            }
        }
    }
}

proof fn lemma_split_line(line: Seq<char>, rest: Seq<char>, cur: Seq<char>)
    requires
        forall|i: int| 0 <= i < line.len() ==> #[trigger] line[i] != '\n',
    ensures
        split_lines_rec(line + seq!['\n'] + rest, cur) == seq![strip_cr(cur + line)]
            + split_lines_rec(rest, Seq::empty()),
    decreases line.len(),
{
    let s = line + seq!['\n'] + rest;
    if line.len() == 0 {
        assert(s[0] == '\n');
        assert(s.drop_first() =~= rest);
        assert(cur + line =~= cur);
    } else {
        assert(s[0] == line[0]);
        assert(s.drop_first() =~= line.drop_first() + seq!['\n'] + rest);
        assert forall|i: int| 0 <= i < line.drop_first().len() implies #[trigger]
            line.drop_first()[i] != '\n' by {
            assert(line.drop_first()[i] == line[i + 1]);
        }
        lemma_split_line(line.drop_first(), rest, cur.push(line[0]));
        assert(cur.push(line[0]) + line.drop_first() =~= cur + line);
    }
}

proof fn lemma_parse_render_cells(vs: Seq<Value>, k: int, pos: nat, acc: Seq<PValue>, rest: Seq<
    char>)
    requires
        0 <= k <= 9,
        vs.len() == 9,
        acc.len() == k,
        pos <= 72 + k,
        forall|j: int|
            0 <= j < 9 ==> value_wf(#[trigger] vs[j]) && !(vs[j] matches Value::Unknown(_)),
    ensures
        make_line_rec(render_cells_from(vs, k) + rest, pos, acc) == make_line_rec(rest, (pos + (9
            - k)) as nat, acc + Seq::new((9 - k) as nat, |j: int| PValue {
            pos: (pos + j) as usize,
            value: vs[k + j],
        })),
    decreases 9 - k,
{
    if k == 9 {
        assert(render_cells_from(vs, 9) =~= Seq::<char>::empty());
        assert(render_cells_from(vs, 9) + rest =~= rest);
        assert(acc + Seq::new(0, |j: int| PValue {
            pos: (pos + j) as usize,
            value: vs[k + j],
        }) =~= acc);
    } else {
        let tok = render_value_chars(vs[k]);
        let tail = render_cells_from(vs, k + 1);
        let s = render_cells_from(vs, k) + rest;
        assert(s =~= tok + seq![' '] + tail + rest);
        assert(tok.len() == 1);
        assert(s[0] == tok[0]);
        let cell = match vs[k] {
            Value::Just(d) => PValue { pos: pos as usize, value: Value::Just(d) },
            _ => PValue { pos: pos as usize, value: Value::Blank },
        };
        match vs[k] {
            Value::Just(d) => {
                assert(s[0] == digit_char(d));
                assert(char_digit(digit_char(d)) == Some(d));
                assert(!is_skip_char(s[0]));
            },
            _ => {
                assert(s[0] == '_');
                assert(char_digit('_') is None);
                assert(!is_skip_char(s[0]));
            },
        }
        let acc1 = acc.push(cell);
        assert(make_line_rec(s, pos, acc) == make_line_rec(s.drop_first(), pos + 1, acc1));
        assert(s.drop_first() =~= seq![' '] + tail + rest);
        assert(s.drop_first()[0] == ' ');
        assert(make_line_rec(s.drop_first(), pos + 1, acc1) == make_line_rec(
            s.drop_first().drop_first(), pos + 1, acc1));
        assert(s.drop_first().drop_first() =~= tail + rest);
        lemma_parse_render_cells(vs, k + 1, pos + 1, acc1, rest);
        assert(acc1 + Seq::new((9 - (k + 1)) as nat, |j: int| PValue {
            pos: (pos + 1 + j) as usize,
            value: vs[k + 1 + j],
        }) =~= acc + Seq::new((9 - k) as nat, |j: int| PValue {
            pos: (pos + j) as usize,
            value: vs[k + j],
        }));
    }
}

proof fn lemma_round_trip_rows(g: Seq<PValue>, r: int, acc: Seq<PValue>)
    requires
        grid_wf(g),
        forall|i: int| 0 <= i < 81 ==> !((#[trigger] g[i].value) matches Value::Unknown(_)),
        0 <= r <= 9,
    ensures
        parse_lines_rec(split_lines_rec(render_rows_from(g, r), Seq::empty()), r as nat, acc)
            == Ok::<Seq<PValue>, SudokuError>(acc + Seq::new(((9 - r) * 9) as nat, |j: int| g[9 * r + j])),
    decreases 9 - r,
{
    if r == 9 {
        assert(render_rows_from(g, 9) =~= Seq::<char>::empty());
        let lines = split_lines_rec(Seq::<char>::empty(), Seq::empty());
        assert(lines =~= seq![Seq::<char>::empty()]);
        assert(blank_line(lines[0]));
        assert(lines.drop_first() =~= Seq::<Seq<char>>::empty());
        assert(acc + Seq::new(0, |j: int| g[9 * r + j]) =~= acc);
        assert(acc + Seq::new(((9 - r) * 9) as nat, |j: int| g[9 * r + j]) =~= acc);
        assert(parse_lines_rec(lines, r as nat, acc) == parse_lines_rec(lines.drop_first(),
            r as nat, acc));
        assert(parse_lines_rec(Seq::<Seq<char>>::empty(), r as nat, acc)
            == Ok::<Seq<PValue>, SudokuError>(acc));
        assert(parse_lines_rec(lines, r as nat, acc) == Ok::<Seq<PValue>, SudokuError>(acc
            + Seq::new(((9 - r) * 9) as nat, |j: int| g[9 * r + j])));
    } else {
        let rv = row_values(g, r);
        let line = render_cells_from(rv, 0);
        let rest = render_rows_from(g, r + 1);
        assert forall|j: int|
            0 <= j < rv.len() implies value_wf(#[trigger] rv[j]) && !(rv[j] matches Value::Unknown(
            _)) by {
            assert(rv[j] == g[r * 9 + j].value);
        }
        lemma_render_cells_chars(rv, 0);
        assert(render_rows_from(g, r) =~= line + seq!['\n'] + rest);
        lemma_split_line(line, rest, Seq::empty());
        assert(Seq::<char>::empty() + line =~= line);
        assert(line[line.len() - 1] != '\r');
        assert(strip_cr(line) == line);
        let lines = split_lines_rec(render_rows_from(g, r), Seq::empty());
        assert(lines == seq![line] + split_lines_rec(rest, Seq::empty()));
        assert(lines[0] == line);
        assert(!is_blank_char(line[0]));
        assert(!blank_line(lines[0]));
        assert(lines.drop_first() =~= split_lines_rec(rest, Seq::empty()));
        lemma_parse_render_cells(rv, 0, (9 * r) as nat, Seq::empty(), Seq::empty());
        assert(line + Seq::<char>::empty() =~= line);
        let added = Seq::new((9 - 0) as nat, |j: int| PValue {
            pos: (((9 * r) as nat) + j) as usize,
            value: rv[0 + j],
        });
        let cells9 = Seq::<PValue>::empty() + added;
        assert(make_line_rec(render_cells_from(rv, 0) + Seq::<char>::empty(), (9 * r) as nat,
            Seq::empty()) == make_line_rec(Seq::<char>::empty(), ((9 * r) as nat + (9 - 0)) as nat,
            cells9));
        assert(make_line_rec(Seq::<char>::empty(), ((9 * r) as nat + (9 - 0)) as nat, cells9)
            == Ok::<Seq<PValue>, SudokuError>(cells9)) by {
            assert(cells9.len() == 9);
        }
        assert(make_line_spec(line, (9 * r) as nat) == Ok::<Seq<PValue>, SudokuError>(cells9));
        assert forall|j: int| 0 <= j < 9 implies cells9[j] == g[9 * r + j] by {
            assert(rv[j] == g[r * 9 + j].value);
            assert(g[9 * r + j].pos == 9 * r + j);
        }
        assert(cells9 =~= Seq::new(9, |j: int| g[9 * r + j]));
        lemma_round_trip_rows(g, r + 1, acc + cells9);
        assert((acc + cells9) + Seq::new(((9 - (r + 1)) * 9) as nat, |j: int| g[9 * (r + 1) + j]) =~= acc
            + Seq::new(((9 - r) * 9) as nat, |j: int| g[9 * r + j]));
        assert(parse_lines_rec(lines, r as nat, acc) == parse_lines_rec(lines.drop_first(), (
        r as nat) + 1, acc + cells9));
        assert(parse_lines_rec(lines.drop_first(), (r as nat) + 1, acc + cells9)
            == parse_lines_rec(split_lines_rec(render_rows_from(g, r + 1), Seq::empty()), (r
            + 1) as nat, acc + cells9));
        assert(parse_lines_rec(lines, r as nat, acc) == Ok::<Seq<PValue>, SudokuError>(acc
            + Seq::new(((9 - r) * 9) as nat, |j: int| g[9 * r + j])));
    }
}

/// Loader round trip: a grid holding only fixed and blank cells, rendered to
/// text and parsed back, yields exactly the same grid.
pub proof fn lemma_render_parse_round_trip(g: Seq<PValue>)
    requires
        grid_wf(g),
        forall|i: int| 0 <= i < 81 ==> !((#[trigger] g[i].value) matches Value::Unknown(_)),
    ensures
        parse_spec(render_spec(g)) == Ok::<Seq<PValue>, SudokuError>(g),
{
    lemma_round_trip_rows(g, 0, Seq::empty());
    assert(Seq::<PValue>::empty() + Seq::new(((9 - 0) * 9) as nat, |j: int| g[9 * 0 + j]) =~= g);
}

} // verus!

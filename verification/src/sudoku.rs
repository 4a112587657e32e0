//! The grid, its cells, and the constraint-group views.
//!
//! A grid owns 81 cells in row-major order. A view is an ordered snapshot of
//! the 9 cells of one row, one column, or one 3x3 box; it computes proposed
//! updates ([`Fill`]) from a read-only snapshot, and the grid commits a whole
//! batch of proposals at once.

use vstd::prelude::*;

verus! {

// This crate's own `View` struct shadows the name of vstd's view trait; the
// anonymous import keeps that trait's methods (`@`) usable here.
use vstd::view::View as _;

use crate::digits::{
    DIGITSET, mask_card, mask_contains, mask_count, mask_first, mask_first_spec, mask_has,
    mask_insert, mask_insert_spec, mask_wf, lemma_insert_has, lemma_diff_has, lemma_empty_has,
    lemma_and_le, lemma_card_bound, lemma_card_le, lemma_card_lt, lemma_mask_ext,
    lemma_first_range,
};

/// The value of one cell: a final digit, nothing known, or a candidate set.
#[derive(Clone, Copy, Debug, PartialEq, Eq, Structural)]
pub enum Value {
    /// The cell's final digit, in `1..=9`.
    Just(u8),
    /// Unsolved, with no candidate information computed yet.
    Blank,
    /// Unsolved, with the candidate digits still possible for the cell.
    Unknown(u16),
}

/// A cell: its position in the grid (`row * 9 + column`) and its value.
#[derive(Clone, Copy, Debug, PartialEq, Eq, Structural)]
pub struct PValue {
    pub pos: usize,
    pub value: Value,
}

/// A proposed update: replace the value of the cell at a position.
#[derive(Clone, Copy, Debug, PartialEq, Eq, Structural)]
pub struct Fill(pub usize, pub Value);

/// An ordered snapshot of the 9 cells of one constraint group.
#[derive(Debug)]
pub struct View(pub Vec<PValue>);

/// The grid: 81 cells in row-major order.
#[derive(Debug)]
pub struct Sudoku {
    pub vec: Vec<PValue>,
}

/// Everything that can go wrong in this crate.
#[derive(Clone, Copy, Debug, PartialEq, Eq, Structural)]
pub enum SudokuError {
    /// A view or update position outside its range.
    InvalidIndex,
    /// A digit other than `1..=9` in puzzle text.
    DigitOutOfRange,
    /// A puzzle line that does not hold exactly 9 cells.
    WrongTokenCount,
    /// Puzzle text that does not hold exactly 9 non-blank lines.
    WrongLineCount,
}

/// A well-formed cell value: digits in `1..=9`, candidate masks well formed.
/// A candidate mask is allowed to be empty: on a contradictory puzzle an
/// elimination pass can strip a cell of its last candidate, and the engine
/// then simply carries the empty set rather than detecting the conflict —
/// conflict detection is outside its responsibility.
pub open spec fn value_wf(v: Value) -> bool {
    match v {
        Value::Just(d) => 1 <= d <= 9,
        Value::Blank => true,
        Value::Unknown(m) => mask_wf(m),
    }
}

/// Cells fit for a view: well-formed values at grid positions.
pub open spec fn cells_wf(cells: Seq<PValue>) -> bool {
    forall|i: int|
        0 <= i < cells.len() ==> value_wf(#[trigger] cells[i].value) && cells[i].pos < 81
}

/// The grid invariant: 81 cells, each knowing its index, all well formed.
pub open spec fn grid_wf(s: Seq<PValue>) -> bool {
    s.len() == 81 && forall|i: int|
        0 <= i < 81 ==> (#[trigger] s[i]).pos == i && value_wf(s[i].value)
}

/// No two cells share a position.
pub open spec fn positions_distinct(cells: Seq<PValue>) -> bool {
    forall|i: int, j: int|
        0 <= i < cells.len() && 0 <= j < cells.len() && i != j ==> #[trigger] cells[i].pos
            != #[trigger] cells[j].pos
}

/// The cells are a faithful snapshot of the grid `g` at their positions.
pub open spec fn view_of_grid(cells: Seq<PValue>, g: Seq<PValue>) -> bool {
    forall|i: int|
        0 <= i < cells.len() ==> (#[trigger] cells[i]).pos < g.len() && g[cells[i].pos as int]
            == cells[i]
}

/// Every cell holds a final digit.
pub open spec fn solved_spec(s: Seq<PValue>) -> bool {
    forall|i: int| 0 <= i < s.len() ==> (#[trigger] s[i].value) matches Value::Just(_)
}

/// The digits fixed among the first `k` cells, as a mask.
pub open spec fn view_set_mask_upto(cells: Seq<PValue>, k: int) -> u16
    decreases k,
{
    if k <= 0 {
        0u16
    } else {
        match cells[k - 1].value {
            Value::Just(d) => mask_insert_spec(view_set_mask_upto(cells, k - 1), d),
            _ => view_set_mask_upto(cells, k - 1),
        }
    }
}

/// The digits already fixed in a view, as a mask.
pub open spec fn view_set_mask(cells: Seq<PValue>) -> u16 {
    view_set_mask_upto(cells, cells.len() as int)
}

/// What elimination proposes for one undetermined cell value.
pub open spec fn eliminate_value(v: Value, f: u16) -> Value {
    match v {
        Value::Unknown(m) => Value::Unknown(m & !f),
        _ => Value::Unknown(DIGITSET & !f),
    }
}

/// The elimination proposals for the first `k` cells, given the fixed mask `f`.
pub open spec fn eliminate_upto(cells: Seq<PValue>, f: u16, k: int) -> Seq<Fill>
    decreases k,
{
    if k <= 0 {
        Seq::empty()
    } else {
        let pre = eliminate_upto(cells, f, k - 1);
        match cells[k - 1].value {
            Value::Just(_) => pre,
            _ => pre.push(Fill(cells[k - 1].pos, eliminate_value(cells[k - 1].value, f))),
        }
    }
}

/// The elimination proposals of a view.
pub open spec fn eliminate_spec(cells: Seq<PValue>, f: u16) -> Seq<Fill> {
    eliminate_upto(cells, f, cells.len() as int)
}

/// How many of the first `k` cells list `d` among their candidates.
pub open spec fn digit_count_upto(cells: Seq<PValue>, d: u8, k: int) -> nat
    decreases k,
{
    if k <= 0 {
        0
    } else {
        digit_count_upto(cells, d, k - 1) + match cells[k - 1].value {
            Value::Unknown(m) => if mask_has(m, d) {
                1nat
            } else {
                0nat
            },
            _ => 0nat,
        }
    }
}

/// How many cells of the view list `d` among their candidates.
pub open spec fn digit_count(cells: Seq<PValue>, d: u8) -> nat {
    digit_count_upto(cells, d, cells.len() as int)
}

/// The least digit of `d..=9` in `m` that is a candidate of exactly one cell.
pub open spec fn first_unique_from(cells: Seq<PValue>, m: u16, d: int) -> Option<u8>
    decreases 10 - d,
{
    if d < 1 || d > 9 {
        None
    } else if mask_has(m, d as u8) && digit_count(cells, d as u8) == 1 {
        Some(d as u8)
    } else {
        first_unique_from(cells, m, d + 1)
    }
}

/// The hidden-single proposals among the first `k` cells.
pub open spec fn unique_upto(cells: Seq<PValue>, k: int) -> Seq<Fill>
    decreases k,
{
    if k <= 0 {
        Seq::empty()
    } else {
        let pre = unique_upto(cells, k - 1);
        match cells[k - 1].value {
            Value::Unknown(m) => match first_unique_from(cells, m, 1) {
                Some(d) => pre.push(Fill(cells[k - 1].pos, Value::Just(d))),
                None => pre,
            },
            _ => pre,
        }
    }
}

/// The hidden-single proposals of a view.
pub open spec fn unique_spec(cells: Seq<PValue>) -> Seq<Fill> {
    unique_upto(cells, cells.len() as int)
}

/// One proposal applied to a cell sequence; out-of-range positions do nothing.
pub open spec fn apply_one(s: Seq<PValue>, f: Fill) -> Seq<PValue> {
    if f.0 < s.len() {
        s.update(f.0 as int, PValue { pos: s[f.0 as int].pos, value: f.1 })
    } else {
        s
    }
}

/// A batch of proposals applied in order; a later one for the same position wins.
pub open spec fn apply_fills(s: Seq<PValue>, fs: Seq<Fill>) -> Seq<PValue>
    decreases fs.len(),
{
    if fs.len() == 0 {
        s
    } else {
        apply_fills(apply_one(s, fs[0]), fs.drop_first())
    }
}

/// What demotion makes of one cell value: a single candidate becomes fixed.
pub open spec fn demote_value(v: Value) -> Value {
    match v {
        Value::Unknown(m) => if mask_card(m) == 1 {
            Value::Just(mask_first_spec(m))
        } else {
            v
        },
        _ => v,
    }
}

/// The whole grid after demoting every single-candidate cell.
pub open spec fn demote_spec(s: Seq<PValue>) -> Seq<PValue> {
    Seq::new(s.len(), |i: int| PValue { pos: s[i].pos, value: demote_value(s[i].value) })
}

/// How far a cell value still is from a fixed digit: the termination measure
/// counts 0 for a fixed cell, the candidate count for an undetermined one, and
/// 10 for a blank cell (one more than any candidate set can hold).
pub open spec fn value_weight(v: Value) -> nat {
    match v {
        Value::Just(_) => 0,
        Value::Blank => 10,
        Value::Unknown(m) => mask_card(m),
    }
}

/// The weight of the first `k` cells.
pub open spec fn grid_measure_upto(s: Seq<PValue>, k: int) -> nat
    decreases k,
{
    if k <= 0 {
        0
    } else {
        grid_measure_upto(s, k - 1) + value_weight(s[k - 1].value)
    }
}

/// The total weight of a grid: propagation never raises it, and every change
/// strictly lowers it.
pub open spec fn grid_measure(s: Seq<PValue>) -> nat {
    grid_measure_upto(s, s.len() as int)
}

impl View {
    /// The snapshot holds well-formed cells.
    pub open spec fn wf(&self) -> bool {
        cells_wf(self.0@)
    }

    /// The number of cells in the view.
    pub fn len(&self) -> (n: usize)
        ensures
            n == self.0@.len(),
    {
        self.0.len()
    }

    /// The set of digits already fixed in the view, as a candidate mask.
    pub fn set(&self) -> (m: u16)
        requires
            self.wf(),
        ensures
            m == view_set_mask(self.0@),
    {
        let mut m: u16 = 0;
        let n = self.0.len();
        for i in 0..n
            invariant
                n == self.0@.len(),
                cells_wf(self.0@),
                m == view_set_mask_upto(self.0@, i as int),
        {
            match self.0[i].value {
                Value::Just(d) => {
                    m = mask_insert(m, d);
                },
                _ => {},
            }
        }
        m
    }

    /// The elimination proposals: each undetermined cell of the view keeps
    /// only the candidates not fixed elsewhere in the view; each blank cell
    /// receives the full digit set minus the fixed ones.
    pub fn fill(&self) -> (r: Vec<Fill>)
        requires
            self.wf(),
        ensures
            r@ == eliminate_spec(self.0@, view_set_mask(self.0@)),
    {
        let my_set = self.set();
        let mut r: Vec<Fill> = Vec::new();
        let n = self.0.len();
        for i in 0..n
            invariant
                n == self.0@.len(),
                cells_wf(self.0@),
                my_set == view_set_mask(self.0@),
                r@ == eliminate_upto(self.0@, my_set, i as int),
        {
            let pv = self.0[i];
            match pv.value {
                Value::Unknown(m) => {
                    r.push(Fill(pv.pos, Value::Unknown(m & !my_set)));
                },
                Value::Blank => {
                    r.push(Fill(pv.pos, Value::Unknown(DIGITSET & !my_set)));
                },
                Value::Just(_) => {},
            }
        }
        r
    }

    fn first_unique(&self, counts: &Vec<usize>, m: u16) -> (r: Option<u8>)
        requires
            counts@.len() == 9,
            forall|e: u8| 1 <= e <= 9 ==> counts@[e - 1] == digit_count(self.0@, e),
        ensures
            r == first_unique_from(self.0@, m, 1),
    {
        let mut d: u8 = 1;
        while d <= 9
            invariant
                1 <= d <= 10,
                counts@.len() == 9,
                forall|e: u8| 1 <= e <= 9 ==> counts@[e - 1] == digit_count(self.0@, e),
                first_unique_from(self.0@, m, 1) == first_unique_from(self.0@, m, d as int),
            decreases 10 - d,
        {
            if mask_contains(m, d) && counts[(d - 1) as usize] == 1 {
                return Some(d);
            }
            d += 1;
        }
        None
    }

    /// The hidden-single proposals: a cell is fixed to the least of its
    /// candidate digits that no other cell of the view lists as a candidate.
    pub fn find_unique(&self) -> (r: Vec<Fill>)
        requires
            self.wf(),
        ensures
            r@ == unique_spec(self.0@),
    {
        let n = self.0.len();
        let mut counts: Vec<usize> = Vec::new();
        let mut d: u8 = 1;
        while d <= 9
            invariant
                1 <= d <= 10,
                n == self.0@.len(),
                cells_wf(self.0@),
                counts@.len() == d - 1,
                forall|e: u8| 1 <= e < d ==> counts@[e - 1] == digit_count(self.0@, e),
            decreases 10 - d,
        {
            let mut cnt: usize = 0;
            for i in 0..n
                invariant
                    n == self.0@.len(),
                    cnt <= i,
                    cnt == digit_count_upto(self.0@, d, i as int),
            {
                match self.0[i].value {
                    Value::Unknown(m) => {
                        if mask_contains(m, d) {
                            cnt += 1;
                        }
                    },
                    _ => {},
                }
            }
            counts.push(cnt);
            d += 1;
        }
        let mut r: Vec<Fill> = Vec::new();
        for k in 0..n
            invariant
                n == self.0@.len(),
                cells_wf(self.0@),
                counts@.len() == 9,
                forall|e: u8| 1 <= e <= 9 ==> counts@[e - 1] == digit_count(self.0@, e),
                r@ == unique_upto(self.0@, k as int),
        {
            let pv = self.0[k];
            match pv.value {
                Value::Unknown(m) => {
                    match self.first_unique(&counts, m) {
                        Some(d) => {
                            r.push(Fill(pv.pos, Value::Just(d)));
                        },
                        None => {},
                    }
                },
                _ => {},
            }
        }
        r
    }
}

/// Position of the `k`-th cell of row `idx`.
pub open spec fn row_pos(idx: int, k: int) -> int {
    idx * 9 + k
}

/// Position of the `k`-th cell of column `idx`.
pub open spec fn col_pos(idx: int, k: int) -> int {
    idx + 9 * k
}

/// Position of the `k`-th cell of the 3x3 box `idx` (boxes in row-major
/// order, cells of a box in row-major order).
pub open spec fn area_pos(idx: int, k: int) -> int {
    (idx / 3 * 3 + k / 3) * 9 + (idx % 3) * 3 + k % 3
}

impl Sudoku {
    /// The grid invariant.
    pub open spec fn wf(&self) -> bool {
        grid_wf(self.vec@)
    }

    /// The view over row `idx`, or `InvalidIndex` when `idx > 8`.
    pub fn get_row(&self, idx: usize) -> (r: Result<View, SudokuError>)
        requires
            self.wf(),
        ensures
            match r {
                Ok(v) => idx <= 8 && v.0@.len() == 9 && (forall|k: int|
                    0 <= k < 9 ==> #[trigger] v.0@[k] == self.vec@[row_pos(idx as int, k)])
                    && v.wf() && positions_distinct(v.0@) && view_of_grid(v.0@, self.vec@),
                Err(e) => idx > 8 && e == SudokuError::InvalidIndex,
            },
    {
        if idx > 8 {
            Err(SudokuError::InvalidIndex)
        } else {
            let mut cells: Vec<PValue> = Vec::new();
            for k in 0..9usize
                invariant
                    idx <= 8,
                    self.wf(),
                    cells@.len() == k,
                    forall|j: int| 0 <= j < k ==> #[trigger] cells@[j] == self.vec@[row_pos(
                        idx as int, j)],
            {
                cells.push(self.vec[idx * 9 + k]);
            }
            Ok(View(cells))
        }
    }

    /// The view over column `idx`, or `InvalidIndex` when `idx > 8`.
    pub fn get_column(&self, idx: usize) -> (r: Result<View, SudokuError>)
        requires
            self.wf(),
        ensures
            match r {
                Ok(v) => idx <= 8 && v.0@.len() == 9 && (forall|k: int|
                    0 <= k < 9 ==> #[trigger] v.0@[k] == self.vec@[col_pos(idx as int, k)])
                    && v.wf() && positions_distinct(v.0@) && view_of_grid(v.0@, self.vec@),
                Err(e) => idx > 8 && e == SudokuError::InvalidIndex,
            },
    {
        if idx > 8 {
            Err(SudokuError::InvalidIndex)
        } else {
            let mut cells: Vec<PValue> = Vec::new();
            for k in 0..9usize
                invariant
                    idx <= 8,
                    self.wf(),
                    cells@.len() == k,
                    forall|j: int| 0 <= j < k ==> #[trigger] cells@[j] == self.vec@[col_pos(
                        idx as int, j)],
            {
                cells.push(self.vec[idx + 9 * k]);
            }
            Ok(View(cells))
        }
    }

    /// The view over 3x3 box `idx`, or `InvalidIndex` when `idx > 8`.
    pub fn get_area(&self, idx: usize) -> (r: Result<View, SudokuError>)
        requires
            self.wf(),
        ensures
            match r {
                Ok(v) => idx <= 8 && v.0@.len() == 9 && (forall|k: int|
                    0 <= k < 9 ==> #[trigger] v.0@[k] == self.vec@[area_pos(idx as int, k)])
                    && v.wf() && positions_distinct(v.0@) && view_of_grid(v.0@, self.vec@),
                Err(e) => idx > 8 && e == SudokuError::InvalidIndex,
            },
    {
        if idx > 8 {
            Err(SudokuError::InvalidIndex)
        } else {
            let mut cells: Vec<PValue> = Vec::new();
            for k in 0..9usize
                invariant
                    idx <= 8,
                    self.wf(),
                    cells@.len() == k,
                    forall|j: int| 0 <= j < k ==> #[trigger] cells@[j] == self.vec@[area_pos(
                        idx as int, j)],
            {
                let p = (idx / 3 * 3 + k / 3) * 9 + (idx % 3) * 3 + k % 3;
                cells.push(self.vec[p]);
            }
            proof {
                assert forall|i: int, j: int|
                    0 <= i < 9 && 0 <= j < 9 && i != j implies area_pos(idx as int, i) != area_pos(
                    idx as int, j) by {
                    assert(i == 3 * (i / 3) + i % 3);
                    assert(j == 3 * (j / 3) + j % 3);
                }
            }
            Ok(View(cells))
        }
    }

    /// Commits a batch of proposals: every position is checked first, and on
    /// any out-of-range position nothing at all is written.
    pub fn fill(&mut self, fills: Vec<Fill>) -> (r: Result<(), SudokuError>)
        requires
            old(self).wf(),
            forall|i: int| 0 <= i < fills@.len() ==> value_wf((#[trigger] fills@[i]).1),
        ensures
            match r {
                Ok(()) => (forall|i: int| 0 <= i < fills@.len() ==> (#[trigger] fills@[i]).0 < 81)
                    && final(self).vec@ == apply_fills(old(self).vec@, fills@) && final(self).wf(),
                Err(e) => e == SudokuError::InvalidIndex && (exists|i: int|
                    0 <= i < fills@.len() && (#[trigger] fills@[i]).0 >= 81) && final(self).vec@
                    == old(self).vec@,
            },
    {
        let n = fills.len();
        for i in 0..n
            invariant
                n == fills@.len(),
                forall|j: int| 0 <= j < i ==> (#[trigger] fills@[j]).0 < 81,
        {
            if fills[i].0 > 80 {
                return Err(SudokuError::InvalidIndex);
            }
        }
        proof {
            assert(fills@.skip(0) =~= fills@);
        }
        for i in 0..n
            invariant
                n == fills@.len(),
                forall|j: int| 0 <= j < n ==> (#[trigger] fills@[j]).0 < 81,
                forall|j: int| 0 <= j < fills@.len() ==> value_wf((#[trigger] fills@[j]).1),
                self.wf(),
                apply_fills(old(self).vec@, fills@) == apply_fills(self.vec@, fills@.skip(i as int)),
        {
            let f = fills[i];
            let p = f.0;
            let ghost prev = self.vec@;
            let keep_pos = self.vec[p].pos;
            self.vec[p] = PValue { pos: keep_pos, value: f.1 };
            proof {
                assert(fills@.skip(i as int).len() > 0);
                assert(fills@.skip(i as int)[0] == fills@[i as int]);
                assert(fills@.skip(i as int).drop_first() =~= fills@.skip(i as int + 1));
                assert(self.vec@ == apply_one(prev, fills@[i as int]));
            }
        }
        proof {
            assert(fills@.skip(n as int) =~= Seq::<Fill>::empty());
        }
        Ok(())
    }

    /// Converts every cell with a single candidate into a fixed digit.
    pub fn unknown_to_just(&mut self)
        requires
            old(self).wf(),
        ensures
            final(self).wf(),
            final(self).vec@ == demote_spec(old(self).vec@),
    {
        let n = self.vec.len();
        for i in 0..n
            invariant
                n == 81,
                self.vec@.len() == 81,
                grid_wf(old(self).vec@),
                forall|q: int| 0 <= q < i ==> #[trigger] self.vec@[q] == demote_spec(
                    old(self).vec@)[q],
                forall|q: int| i <= q < 81 ==> #[trigger] self.vec@[q] == old(self).vec@[q],
        {
            let pv = self.vec[i];
            match pv.value {
                Value::Unknown(m) => {
                    if mask_count(m) == 1 {
                        let d = mask_first(m);
                        self.vec[i] = PValue { pos: pv.pos, value: Value::Just(d) };
                    }
                },
                _ => {},
            }
        }
        proof {
            assert(self.vec@ =~= demote_spec(old(self).vec@));
            assert forall|q: int| 0 <= q < 81 implies (#[trigger] self.vec@[q]).pos == q
                && value_wf(self.vec@[q].value) by {
                if let Value::Unknown(m) = old(self).vec@[q].value {
                    lemma_first_range(m);
                }
            }
        }
    }

    /// True exactly when every cell holds a fixed digit.
    pub fn is_solved(&self) -> (b: bool)
        ensures
            b == solved_spec(self.vec@),
    {
        let n = self.vec.len();
        for i in 0..n
            invariant
                n == self.vec@.len(),
                forall|q: int| 0 <= q < i ==> (#[trigger] self.vec@[q].value) matches Value::Just(
                    _),
        {
            match self.vec[i].value {
                Value::Just(_) => {},
                _ => {
                    return false;
                },
            }
        }
        true
    }
}

/// What a whole elimination pass makes of one cell value.
pub open spec fn propagate_value(v: Value, f: u16) -> Value {
    match v {
        Value::Just(_) => v,
        _ => eliminate_value(v, f),
    }
}

/// What a whole hidden-single pass makes of one cell value.
pub open spec fn promote_value(cells: Seq<PValue>, v: Value) -> Value {
    match v {
        Value::Unknown(m) => match first_unique_from(cells, m, 1) {
            Some(d) => Value::Just(d),
            None => v,
        },
        _ => v,
    }
}

/// Some cell among the first `k` sits at position `q`.
pub open spec fn covered(cells: Seq<PValue>, k: int, q: int) -> bool {
    exists|c: int| 0 <= c < k && (#[trigger] cells[c]).pos == q
}

proof fn lemma_set_mask_upto_has(cells: Seq<PValue>, k: int, d: u8)
    requires
        cells_wf(cells),
        0 <= k <= cells.len(),
    ensures
        mask_has(view_set_mask_upto(cells, k), d) == exists|i: int|
            0 <= i < k && (#[trigger] cells[i]).value == Value::Just(d),
    decreases k,
{
    if k > 0 {
        lemma_set_mask_upto_has(cells, k - 1, d);
        match cells[k - 1].value {
            Value::Just(e) => {
                lemma_insert_has(view_set_mask_upto(cells, k - 1), e, d);
            },
            _ => {},
        }
        if mask_has(view_set_mask_upto(cells, k), d) {
            if exists|i: int| 0 <= i < k - 1 && (#[trigger] cells[i]).value == Value::Just(d) {
                let i = choose|i: int|
                    0 <= i < k - 1 && (#[trigger] cells[i]).value == Value::Just(d);
                assert(0 <= i < k && cells[i].value == Value::Just(d));
            } else {
                assert(cells[k - 1].value == Value::Just(d));
            }
        }
    } else {
        lemma_empty_has(d);
    }
}

/// The meaning of the fixed-set mask: it holds a digit exactly when some cell
/// of the view has it as its fixed value.
pub proof fn lemma_set_mask_has(cells: Seq<PValue>, d: u8)
    requires
        cells_wf(cells),
    ensures
        mask_has(view_set_mask(cells), d) == exists|i: int|
            0 <= i < cells.len() && (#[trigger] cells[i]).value == Value::Just(d),
{
    lemma_set_mask_upto_has(cells, cells.len() as int, d);
}

proof fn lemma_apply_fills_push(s: Seq<PValue>, fs: Seq<Fill>, x: Fill)
    ensures
        apply_fills(s, fs.push(x)) == apply_one(apply_fills(s, fs), x),
    decreases fs.len(),
{
    assert(fs.push(x).len() == fs.len() + 1);
    assert(apply_fills(s, fs.push(x)) == apply_fills(apply_one(s, fs.push(x)[0]),
        fs.push(x).drop_first()));
    if fs.len() == 0 {
        assert(fs.push(x)[0] == x);
        assert(fs.push(x).drop_first() =~= Seq::<Fill>::empty());
        assert(apply_fills(apply_one(s, x), Seq::<Fill>::empty()) == apply_one(s, x));
        assert(apply_fills(s, fs) == s);
    } else {
        assert(fs.push(x)[0] == fs[0]);
        assert(fs.push(x).drop_first() =~= fs.drop_first().push(x));
        lemma_apply_fills_push(apply_one(s, fs[0]), fs.drop_first(), x);
        assert(apply_fills(s, fs) == apply_fills(apply_one(s, fs[0]), fs.drop_first()));
    }
}

proof fn lemma_measure_upto_le(s1: Seq<PValue>, s2: Seq<PValue>, k: int)
    requires
        s1.len() == s2.len(),
        forall|q: int|
            0 <= q < s1.len() ==> value_weight(#[trigger] s1[q].value) <= value_weight(
                s2[q].value),
        k <= s1.len(),
    ensures
        grid_measure_upto(s1, k) <= grid_measure_upto(s2, k),
    decreases k,
{
    if k > 0 {
        lemma_measure_upto_le(s1, s2, k - 1);
    }
}

proof fn lemma_measure_upto_lt(s1: Seq<PValue>, s2: Seq<PValue>, k: int, q0: int)
    requires
        s1.len() == s2.len(),
        forall|q: int|
            0 <= q < s1.len() ==> value_weight(#[trigger] s1[q].value) <= value_weight(
                s2[q].value),
        0 <= q0 < k <= s1.len(),
        value_weight(s1[q0].value) < value_weight(s2[q0].value),
    ensures
        grid_measure_upto(s1, k) < grid_measure_upto(s2, k),
    decreases k,
{
    if k - 1 == q0 {
        lemma_measure_upto_le(s1, s2, k - 1);
    } else {
        lemma_measure_upto_lt(s1, s2, k - 1, q0);
    }
}

proof fn lemma_eliminate_apply_upto(g: Seq<PValue>, cells: Seq<PValue>, k: int)
    requires
        grid_wf(g),
        positions_distinct(cells),
        view_of_grid(cells, g),
        0 <= k <= cells.len(),
    ensures
        apply_fills(g, eliminate_upto(cells, view_set_mask(cells), k)).len() == g.len(),
        forall|q: int|
            0 <= q < g.len() ==> (#[trigger] apply_fills(g, eliminate_upto(cells, view_set_mask(
                cells), k))[q]).pos == g[q].pos,
        forall|q: int|
            0 <= q < g.len() && !covered(cells, k, q) ==> #[trigger] apply_fills(g, eliminate_upto(
                cells, view_set_mask(cells), k))[q] == g[q],
        forall|c: int|
            0 <= c < k ==> apply_fills(g, eliminate_upto(cells, view_set_mask(cells), k))[(
            #[trigger] cells[c]).pos as int] == (PValue {
                pos: cells[c].pos,
                value: propagate_value(cells[c].value, view_set_mask(cells)),
            }),
    decreases k,
{
    let f = view_set_mask(cells);
    if k > 0 {
        lemma_eliminate_apply_upto(g, cells, k - 1);
        let pre = eliminate_upto(cells, f, k - 1);
        let g1 = apply_fills(g, pre);
        let ck = cells[k - 1];
        assert(!covered(cells, k - 1, ck.pos as int));
        assert(g1[ck.pos as int] == g[ck.pos as int]);
        assert(g[ck.pos as int] == ck);
        match ck.value {
            Value::Just(_) => {
                assert(eliminate_upto(cells, f, k) == pre);
                assert forall|q: int| 0 <= q < g.len() && !covered(cells, k, q) implies #[trigger]
                    apply_fills(g, eliminate_upto(cells, f, k))[q] == g[q] by {
                    assert(!covered(cells, k - 1, q));
                }
            },
            _ => {
                let x = Fill(ck.pos, eliminate_value(ck.value, f));
                assert(eliminate_upto(cells, f, k) == pre.push(x));
                lemma_apply_fills_push(g, pre, x);
                let g2 = apply_fills(g, eliminate_upto(cells, f, k));
                assert(g2 == apply_one(g1, x));
                assert forall|q: int| 0 <= q < g.len() && !covered(cells, k, q) implies #[trigger]
                    g2[q] == g[q] by {
                    assert(!covered(cells, k - 1, q));
                    assert(cells[k - 1].pos != q);
                }
                assert forall|c: int| 0 <= c < k implies g2[(#[trigger] cells[c]).pos as int]
                    == PValue {
                    pos: cells[c].pos,
                    value: propagate_value(cells[c].value, f),
                } by {
                    if c < k - 1 {
                        assert(cells[c].pos != ck.pos);
                    }
                }
            },
        }
    }
}

proof fn lemma_unique_apply_upto(g: Seq<PValue>, cells: Seq<PValue>, k: int)
    requires
        grid_wf(g),
        positions_distinct(cells),
        view_of_grid(cells, g),
        0 <= k <= cells.len(),
    ensures
        apply_fills(g, unique_upto(cells, k)).len() == g.len(),
        forall|q: int|
            0 <= q < g.len() ==> (#[trigger] apply_fills(g, unique_upto(cells, k))[q]).pos
                == g[q].pos,
        forall|q: int|
            0 <= q < g.len() && !covered(cells, k, q) ==> #[trigger] apply_fills(g, unique_upto(
                cells, k))[q] == g[q],
        forall|c: int|
            0 <= c < k ==> apply_fills(g, unique_upto(cells, k))[(#[trigger] cells[c]).pos as int]
                == (PValue {
                pos: cells[c].pos,
                value: promote_value(cells, cells[c].value),
            }),
    decreases k,
{
    if k > 0 {
        lemma_unique_apply_upto(g, cells, k - 1);
        let pre = unique_upto(cells, k - 1);
        let g1 = apply_fills(g, pre);
        let ck = cells[k - 1];
        assert(!covered(cells, k - 1, ck.pos as int));
        assert(g1[ck.pos as int] == g[ck.pos as int]);
        assert(g[ck.pos as int] == ck);
        let prom = promote_value(cells, ck.value);
        if prom == ck.value {
            assert(unique_upto(cells, k) == pre);
            assert forall|q: int| 0 <= q < g.len() && !covered(cells, k, q) implies #[trigger]
                apply_fills(g, unique_upto(cells, k))[q] == g[q] by {
                assert(!covered(cells, k - 1, q));
            }
        } else {
            let m = ck.value->Unknown_0;
            let d = first_unique_from(cells, m, 1)->Some_0;
            let x = Fill(ck.pos, Value::Just(d));
            assert(unique_upto(cells, k) == pre.push(x));
            lemma_apply_fills_push(g, pre, x);
            let g2 = apply_fills(g, unique_upto(cells, k));
            assert(g2 == apply_one(g1, x));
            assert forall|q: int| 0 <= q < g.len() && !covered(cells, k, q) implies #[trigger]
                g2[q] == g[q] by {
                assert(!covered(cells, k - 1, q));
                assert(cells[k - 1].pos != q);
            }
            assert forall|c: int| 0 <= c < k implies g2[(#[trigger] cells[c]).pos as int]
                == PValue { pos: cells[c].pos, value: promote_value(cells, cells[c].value) } by {
                if c < k - 1 {
                    assert(cells[c].pos != ck.pos);
                }
            }
        }
    }
}

proof fn lemma_first_unique_props(cells: Seq<PValue>, m: u16, d: int)
    ensures
        forall|e: u8|
            first_unique_from(cells, m, d) == Some(e) ==> 1 <= e <= 9 && mask_has(m, e)
                && digit_count(cells, e) == 1,
    decreases 10 - d,
{
    if 1 <= d <= 9 {
        lemma_first_unique_props(cells, m, d + 1);
    }
}

/// Elimination soundness: after the elimination proposals of a view are
/// applied to the grid, no cell of that view keeps as a candidate a digit
/// that is fixed somewhere in the view.
pub proof fn lemma_elimination_sound(g: Seq<PValue>, cells: Seq<PValue>, c: int, d: u8)
    requires
        grid_wf(g),
        positions_distinct(cells),
        view_of_grid(cells, g),
        0 <= c < cells.len(),
        exists|j: int| 0 <= j < cells.len() && (#[trigger] cells[j]).value == Value::Just(d),
    ensures
        match apply_fills(g, eliminate_spec(cells, view_set_mask(cells)))[cells[c].pos as int]
            .value {
            Value::Unknown(m) => !mask_has(m, d),
            _ => true,
        },
{
    let f = view_set_mask(cells);
    assert(cells_wf(cells));
    lemma_set_mask_has(cells, d);
    lemma_eliminate_apply_upto(g, cells, cells.len() as int);
    match cells[c].value {
        Value::Just(_) => {},
        Value::Blank => {
            lemma_diff_has(DIGITSET, f, d);
        },
        Value::Unknown(m) => {
            lemma_diff_has(m, f, d);
        },
    }
}

proof fn lemma_unique_upto_char(cells: Seq<PValue>, k: int) -> (w: Seq<int>)
    requires
        0 <= k <= cells.len(),
    ensures
        w.len() == unique_upto(cells, k).len(),
        forall|i: int|
            0 <= i < w.len() ==> 0 <= #[trigger] w[i] < k && (cells[w[i]].value matches
                Value::Unknown(m) && first_unique_from(cells, m, 1) matches Some(d) && unique_upto(
                cells, k)[i] == Fill(cells[w[i]].pos, Value::Just(d))),
    decreases k,
{
    if k <= 0 {
        Seq::empty()
    } else {
        let pre_w = lemma_unique_upto_char(cells, k - 1);
        let pre = unique_upto(cells, k - 1);
        match cells[k - 1].value {
            Value::Unknown(m) => match first_unique_from(cells, m, 1) {
                Some(d) => {
                    let w = pre_w.push(k - 1);
                    assert forall|i: int| 0 <= i < w.len() implies 0 <= #[trigger] w[i] < k && (
                    cells[w[i]].value matches Value::Unknown(m2) && first_unique_from(cells, m2, 1)
                        matches Some(d2) && unique_upto(cells, k)[i] == Fill(cells[w[i]].pos,
                    Value::Just(d2))) by {
                        if i < pre_w.len() {
                            assert(w[i] == pre_w[i]);
                            assert(unique_upto(cells, k)[i] == pre[i]);
                        }
                    }
                    w
                },
                None => pre_w,
            },
            _ => pre_w,
        }
    }
}

/// Uniqueness soundness: every hidden-single proposal fixes a digit `d` for a
/// cell that lists `d` as a candidate, and `d` is a candidate of exactly one
/// cell of the view. The returned pair gives the cell index and the digit.
pub proof fn lemma_unique_sound(cells: Seq<PValue>, i: int) -> (r: (int, u8))
    requires
        0 <= i < unique_spec(cells).len(),
    ensures
        0 <= r.0 < cells.len(),
        unique_spec(cells)[i] == Fill(cells[r.0].pos, Value::Just(r.1)),
        digit_count(cells, r.1) == 1,
        cells[r.0].value matches Value::Unknown(m) && mask_has(m, r.1),
{
    let w = lemma_unique_upto_char(cells, cells.len() as int);
    let c = w[i];
    let m = cells[c].value->Unknown_0;
    let d = first_unique_from(cells, m, 1)->Some_0;
    lemma_first_unique_props(cells, m, 1);
    (c, d)
}

/// Idempotence on solved input: a view whose cells are all fixed yields no
/// elimination proposals and no hidden-single proposals.
pub proof fn lemma_solved_proposes_nothing(cells: Seq<PValue>, f: u16)
    requires
        forall|c: int| 0 <= c < cells.len() ==> (#[trigger] cells[c].value) matches Value::Just(_),
    ensures
        eliminate_spec(cells, f) == Seq::<Fill>::empty(),
        unique_spec(cells) == Seq::<Fill>::empty(),
{
    lemma_solved_eliminate_upto(cells, f, cells.len() as int);
    lemma_solved_unique_upto(cells, cells.len() as int);
}

proof fn lemma_solved_eliminate_upto(cells: Seq<PValue>, f: u16, k: int)
    requires
        k <= cells.len(),
        forall|c: int| 0 <= c < cells.len() ==> (#[trigger] cells[c].value) matches Value::Just(_),
    ensures
        eliminate_upto(cells, f, k) == Seq::<Fill>::empty(),
    decreases k,
{
    if k > 0 {
        lemma_solved_eliminate_upto(cells, f, k - 1);
    }
}

proof fn lemma_solved_unique_upto(cells: Seq<PValue>, k: int)
    requires
        k <= cells.len(),
        forall|c: int| 0 <= c < cells.len() ==> (#[trigger] cells[c].value) matches Value::Just(_),
    ensures
        unique_upto(cells, k) == Seq::<Fill>::empty(),
    decreases k,
{
    if k > 0 {
        lemma_solved_unique_upto(cells, k - 1);
    }
}

proof fn lemma_eliminate_fills_wf(cells: Seq<PValue>, f: u16, k: int)
    requires
        cells_wf(cells),
        0 <= k <= cells.len(),
    ensures
        forall|i: int|
            0 <= i < eliminate_upto(cells, f, k).len() ==> value_wf(
                (#[trigger] eliminate_upto(cells, f, k)[i]).1) && eliminate_upto(cells, f, k)[i].0
                < 81,
    decreases k,
{
    if k > 0 {
        lemma_eliminate_fills_wf(cells, f, k - 1);
        let pre = eliminate_upto(cells, f, k - 1);
        match cells[k - 1].value {
            Value::Just(_) => {},
            Value::Blank => {
                lemma_and_le(DIGITSET, !f);
                assert forall|i: int| 0 <= i < eliminate_upto(cells, f, k).len() implies value_wf(
                    (#[trigger] eliminate_upto(cells, f, k)[i]).1) && eliminate_upto(cells, f,
                k)[i].0 < 81 by {
                    if i < pre.len() {
                        assert(eliminate_upto(cells, f, k)[i] == pre[i]);
                    }
                }
            },
            Value::Unknown(m) => {
                lemma_and_le(m, !f);
                assert forall|i: int| 0 <= i < eliminate_upto(cells, f, k).len() implies value_wf(
                    (#[trigger] eliminate_upto(cells, f, k)[i]).1) && eliminate_upto(cells, f,
                k)[i].0 < 81 by {
                    if i < pre.len() {
                        assert(eliminate_upto(cells, f, k)[i] == pre[i]);
                    }
                }
            },
        }
    }
}

/// The elimination proposals of a well-formed view carry well-formed values
/// at grid positions.
pub proof fn lemma_eliminate_wf(cells: Seq<PValue>, f: u16)
    requires
        cells_wf(cells),
    ensures
        forall|i: int|
            0 <= i < eliminate_spec(cells, f).len() ==> value_wf(
                (#[trigger] eliminate_spec(cells, f)[i]).1) && eliminate_spec(cells, f)[i].0 < 81,
{
    lemma_eliminate_fills_wf(cells, f, cells.len() as int);
}

/// The hidden-single proposals of a well-formed view carry well-formed
/// values at grid positions.
pub proof fn lemma_unique_wf(cells: Seq<PValue>)
    requires
        cells_wf(cells),
    ensures
        forall|i: int|
            0 <= i < unique_spec(cells).len() ==> value_wf((#[trigger] unique_spec(cells)[i]).1)
                && unique_spec(cells)[i].0 < 81,
{
    assert forall|i: int| 0 <= i < unique_spec(cells).len() implies value_wf(
        (#[trigger] unique_spec(cells)[i]).1) && unique_spec(cells)[i].0 < 81 by {
        let w = lemma_unique_upto_char(cells, cells.len() as int);
        let m = cells[w[i]].value->Unknown_0;
        lemma_first_unique_props(cells, m, 1);
    }
}

proof fn lemma_cells_wf_of_grid(g: Seq<PValue>, cells: Seq<PValue>)
    requires
        grid_wf(g),
        view_of_grid(cells, g),
    ensures
        cells_wf(cells),
{
    assert forall|i: int|
        0 <= i < cells.len() implies value_wf(#[trigger] cells[i].value) && cells[i].pos < 81 by {
        assert(g[cells[i].pos as int] == cells[i]);
    }
}

/// One elimination sweep step: applying a view's elimination proposals keeps
/// the grid well formed, never raises the measure, strictly lowers it on any
/// change, and changes nothing on a solved grid.
pub proof fn lemma_eliminate_step(g: Seq<PValue>, cells: Seq<PValue>)
    requires
        grid_wf(g),
        positions_distinct(cells),
        view_of_grid(cells, g),
    ensures
        grid_wf(apply_fills(g, eliminate_spec(cells, view_set_mask(cells)))),
        grid_measure(apply_fills(g, eliminate_spec(cells, view_set_mask(cells))))
            <= grid_measure(g),
        apply_fills(g, eliminate_spec(cells, view_set_mask(cells))) == g || grid_measure(
            apply_fills(g, eliminate_spec(cells, view_set_mask(cells)))) < grid_measure(g),
        solved_spec(g) ==> apply_fills(g, eliminate_spec(cells, view_set_mask(cells))) == g,
{
    let f = view_set_mask(cells);
    let n = cells.len() as int;
    let g2 = apply_fills(g, eliminate_spec(cells, f));
    lemma_cells_wf_of_grid(g, cells);
    lemma_eliminate_apply_upto(g, cells, n);
    assert forall|q: int|
        0 <= q < 81 implies (#[trigger] g2[q]).pos == q && value_wf(g2[q].value) && value_weight(
        g2[q].value) <= value_weight(g[q].value) by {
        if covered(cells, n, q) {
            let c = choose|c: int| 0 <= c < n && (#[trigger] cells[c]).pos == q;
            assert(g2[q] == (PValue { pos: cells[c].pos, value: propagate_value(cells[c].value,
                f) }));
            assert(g[q] == cells[c]);
            match cells[c].value {
                Value::Just(_) => {},
                Value::Blank => {
                    lemma_and_le(DIGITSET, !f);
                    lemma_card_bound(DIGITSET & !f);
                },
                Value::Unknown(m) => {
                    lemma_and_le(m, !f);
                    assert forall|d: u8| mask_has(m & !f, d) implies mask_has(m, d) by {
                        lemma_diff_has(m, f, d);
                    }
                    lemma_card_le(m & !f, m);
                },
            }
        }
    }
    lemma_measure_upto_le(g2, g, 81);
    if g2 != g {
        assert(exists|q: int| 0 <= q < 81 && g2[q] != g[q]) by {
            if forall|q: int| 0 <= q < 81 ==> #[trigger] g2[q] == g[q] {
                assert(g2 =~= g);
            }
        }
        let q0 = choose|q: int| 0 <= q < 81 && g2[q] != g[q];
        assert(covered(cells, n, q0));
        let c = choose|c: int| 0 <= c < n && (#[trigger] cells[c]).pos == q0;
        assert(g[q0] == cells[c]);
        assert(g2[q0] == (PValue { pos: cells[c].pos, value: propagate_value(cells[c].value,
            f) }));
        match cells[c].value {
            Value::Just(_) => {
                assert(false);
            },
            Value::Blank => {
                lemma_card_bound(DIGITSET & !f);
            },
            Value::Unknown(m) => {
                assert(m & !f != m);
                lemma_and_le(m, !f);
                assert(exists|d: u8| mask_has(m, d) && !mask_has(m & !f, d)) by {
                    if forall|d: u8| mask_has(m, d) ==> #[trigger] mask_has(m & !f, d) {
                        assert forall|d: u8| mask_has(m & !f, d) == mask_has(m, d) by {
                            lemma_diff_has(m, f, d);
                        }
                        lemma_mask_ext(m & !f, m);
                    }
                }
                let d0 = choose|d: u8| mask_has(m, d) && !mask_has(m & !f, d);
                assert forall|d: u8| mask_has(m & !f, d) implies mask_has(m, d) by {
                    lemma_diff_has(m, f, d);
                }
                lemma_card_lt(m & !f, m, d0);
            },
        }
        lemma_measure_upto_lt(g2, g, 81, q0);
    }
    if solved_spec(g) {
        assert forall|q: int| 0 <= q < 81 implies #[trigger] g2[q] == g[q] by {
            if covered(cells, n, q) {
                let c = choose|c: int| 0 <= c < n && (#[trigger] cells[c]).pos == q;
                assert(g[q] == cells[c]);
            }
        }
        assert(g2 =~= g);
    }
}

/// One hidden-single sweep step: applying a view's promotion proposals keeps
/// the grid well formed, never raises the measure, strictly lowers it on any
/// change, and changes nothing on a solved grid.
pub proof fn lemma_unique_step(g: Seq<PValue>, cells: Seq<PValue>)
    requires
        grid_wf(g),
        positions_distinct(cells),
        view_of_grid(cells, g),
    ensures
        grid_wf(apply_fills(g, unique_spec(cells))),
        grid_measure(apply_fills(g, unique_spec(cells))) <= grid_measure(g),
        apply_fills(g, unique_spec(cells)) == g || grid_measure(apply_fills(g, unique_spec(cells)))
            < grid_measure(g),
        solved_spec(g) ==> apply_fills(g, unique_spec(cells)) == g,
{
    let n = cells.len() as int;
    let g2 = apply_fills(g, unique_spec(cells));
    lemma_cells_wf_of_grid(g, cells);
    lemma_unique_apply_upto(g, cells, n);
    assert forall|q: int|
        0 <= q < 81 implies (#[trigger] g2[q]).pos == q && value_wf(g2[q].value) && value_weight(
        g2[q].value) <= value_weight(g[q].value) by {
        if covered(cells, n, q) {
            let c = choose|c: int| 0 <= c < n && (#[trigger] cells[c]).pos == q;
            assert(g2[q] == (PValue { pos: cells[c].pos, value: promote_value(cells,
                cells[c].value) }));
            assert(g[q] == cells[c]);
            if let Value::Unknown(m) = cells[c].value {
                lemma_first_unique_props(cells, m, 1);
            }
        }
    }
    lemma_measure_upto_le(g2, g, 81);
    if g2 != g {
        assert(exists|q: int| 0 <= q < 81 && g2[q] != g[q]) by {
            if forall|q: int| 0 <= q < 81 ==> #[trigger] g2[q] == g[q] {
                assert(g2 =~= g);
            }
        }
        let q0 = choose|q: int| 0 <= q < 81 && g2[q] != g[q];
        assert(covered(cells, n, q0));
        let c = choose|c: int| 0 <= c < n && (#[trigger] cells[c]).pos == q0;
        assert(g[q0] == cells[c]);
        assert(g2[q0] == (PValue { pos: cells[c].pos, value: promote_value(cells,
            cells[c].value) }));
        let m = cells[c].value->Unknown_0;
        let d = first_unique_from(cells, m, 1)->Some_0;
        lemma_first_unique_props(cells, m, 1);
        assert forall|e: u8| mask_has(0u16, e) implies mask_has(m, e) by {
            lemma_empty_has(e);
        }
        lemma_empty_has(d);
        lemma_card_lt(0u16, m, d);
        lemma_measure_upto_lt(g2, g, 81, q0);
    }
    if solved_spec(g) {
        assert forall|q: int| 0 <= q < 81 implies #[trigger] g2[q] == g[q] by {
            if covered(cells, n, q) {
                let c = choose|c: int| 0 <= c < n && (#[trigger] cells[c]).pos == q;
                assert(g[q] == cells[c]);
            }
        }
        assert(g2 =~= g);
    }
}

/// One demotion step: turning single-candidate cells into fixed digits keeps
/// the grid well formed, never raises the measure, strictly lowers it on any
/// change, and changes nothing on a solved grid.
pub proof fn lemma_demote_step(s: Seq<PValue>)
    requires
        grid_wf(s),
    ensures
        grid_wf(demote_spec(s)),
        grid_measure(demote_spec(s)) <= grid_measure(s),
        demote_spec(s) == s || grid_measure(demote_spec(s)) < grid_measure(s),
        solved_spec(s) ==> demote_spec(s) == s,
{
    let s2 = demote_spec(s);
    assert forall|q: int|
        0 <= q < 81 implies (#[trigger] s2[q]).pos == q && value_wf(s2[q].value) && value_weight(
        s2[q].value) <= value_weight(s[q].value) by {
        if let Value::Unknown(m) = s[q].value {
            lemma_first_range(m);
        }
    }
    lemma_measure_upto_le(s2, s, 81);
    if s2 != s {
        assert(exists|q: int| 0 <= q < 81 && s2[q] != s[q]) by {
            if forall|q: int| 0 <= q < 81 ==> #[trigger] s2[q] == s[q] {
                assert(s2 =~= s);
            }
        }
        let q0 = choose|q: int| 0 <= q < 81 && s2[q] != s[q];
        lemma_measure_upto_lt(s2, s, 81, q0);
    }
    if solved_spec(s) {
        assert forall|q: int| 0 <= q < 81 implies #[trigger] s2[q] == s[q] by {}
        assert(s2 =~= s);
    }
}

impl PartialEq for Sudoku {
    /// Two grids are equal when their cells are equal, position by position.
    fn eq(&self, other: &Sudoku) -> (r: bool) {
        if self.vec.len() != other.vec.len() {
            return false;
        }
        let n = self.vec.len();
        for i in 0..n
            invariant
                n == self.vec@.len(),
                n == other.vec@.len(),
                forall|q: int| 0 <= q < i ==> #[trigger] self.vec@[q] == other.vec@[q],
        {
            let a = self.vec[i];
            let b = other.vec[i];
            if a != b {
                return false;
            }
        }
        proof {
            assert(self.vec@ =~= other.vec@);
        }
        true
    }
}

impl vstd::std_specs::cmp::PartialEqSpecImpl for Sudoku {
    open spec fn obeys_eq_spec() -> bool {
        true
    }

    open spec fn eq_spec(&self, other: &Sudoku) -> bool {
        self.vec@ == other.vec@
    }
}

impl Clone for Sudoku {
    /// A deep copy of the grid.
    fn clone(&self) -> (r: Sudoku)
        ensures
            r.vec@ == self.vec@,
    {
        let mut v: Vec<PValue> = Vec::new();
        let n = self.vec.len();
        for i in 0..n
            invariant
                n == self.vec@.len(),
                v@.len() == i,
                forall|q: int| 0 <= q < i ==> #[trigger] v@[q] == self.vec@[q],
        {
            v.push(self.vec[i]);
        }
        proof {
            assert(v@ =~= self.vec@);
        }
        Sudoku { vec: v }
    }
}

} // verus!

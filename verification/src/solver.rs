//! The solving loop: repeated elimination sweeps to a fixpoint, then
//! hidden-single promotion, under a fixed round budget.

use vstd::prelude::*;

verus! {

use vstd::view::View as _;

use crate::digits::{mask_card, mask_count};
use crate::sudoku::{
    Sudoku, Value, PValue, demote_spec, grid_measure, grid_wf, lemma_demote_step,
    lemma_eliminate_step, lemma_eliminate_wf, lemma_unique_step, lemma_unique_wf, solved_spec,
    unique_spec, eliminate_spec, view_set_mask, apply_fills, area_pos, row_pos, col_pos,
    positions_distinct, view_of_grid,
};

/// Every cell is fixed or is down to exactly one candidate.
pub open spec fn finished_spec(s: Seq<PValue>) -> bool {
    forall|i: int|
        0 <= i < s.len() ==> match #[trigger] s[i].value {
            Value::Just(_) => true,
            Value::Blank => false,
            Value::Unknown(m) => mask_card(m) == 1,
        }
}

/// The position of the `k`-th cell of view `idx` of one kind: `0` for the
/// 3x3 boxes, `1` for the rows, `2` for the columns.
pub open spec fn kind_pos(kind: int, idx: int, k: int) -> int {
    if kind == 0 {
        area_pos(idx, k)
    } else if kind == 1 {
        row_pos(idx, k)
    } else {
        col_pos(idx, k)
    }
}

/// The 9 cells of view `idx` of one kind, read from the grid.
pub open spec fn kind_cells(g: Seq<PValue>, kind: int, idx: int) -> Seq<PValue> {
    Seq::new(9, |k: int| g[kind_pos(kind, idx, k)])
}

/// One view's elimination proposals applied to the grid.
pub open spec fn elim_view(g: Seq<PValue>, cells: Seq<PValue>) -> Seq<PValue> {
    apply_fills(g, eliminate_spec(cells, view_set_mask(cells)))
}

/// The first `i` views of one kind swept with elimination, in order; each
/// view is read from the grid as the sweep has left it so far.
pub open spec fn sweep_elim(g: Seq<PValue>, kind: int, i: int) -> Seq<PValue>
    decreases i,
{
    if i <= 0 {
        g
    } else {
        let pre = sweep_elim(g, kind, i - 1);
        elim_view(pre, kind_cells(pre, kind, i - 1))
    }
}

/// The first `i` views of one kind swept with hidden-single promotion.
pub open spec fn sweep_unique(g: Seq<PValue>, kind: int, i: int) -> Seq<PValue>
    decreases i,
{
    if i <= 0 {
        g
    } else {
        let pre = sweep_unique(g, kind, i - 1);
        apply_fills(pre, unique_spec(kind_cells(pre, kind, i - 1)))
    }
}

/// One propagation round: an elimination sweep over the boxes, the rows, and
/// the columns, each followed by a demotion pass.
pub open spec fn round_spec(g: Seq<PValue>) -> Seq<PValue> {
    let g1 = demote_spec(sweep_elim(g, 0, 9));
    let g2 = demote_spec(sweep_elim(g1, 1, 9));
    demote_spec(sweep_elim(g2, 2, 9))
}

/// Propagation rounds repeated until one changes nothing, with explicit
/// fuel; any fuel of at least `grid_measure(g) + 1` reaches the fixpoint.
pub open spec fn rounds_fuel(g: Seq<PValue>, fuel: nat) -> Seq<PValue>
    decreases fuel,
{
    if fuel == 0 {
        g
    } else if round_spec(g) == g {
        g
    } else {
        rounds_fuel(round_spec(g), (fuel - 1) as nat)
    }
}

/// The elimination fixpoint of a grid: propagation rounds repeated until the
/// grid stops changing. Every changing round strictly lowers the measure, so
/// `grid_measure(g) + 1` rounds always suffice.
pub open spec fn fixpoint_spec(g: Seq<PValue>) -> Seq<PValue> {
    rounds_fuel(g, grid_measure(g) + 1)
}

/// One whole solving cycle: for each view kind in turn — boxes, rows,
/// columns — propagation to the fixpoint, then that kind's hidden-single
/// sweep. The fixpoint between sweeps clears the candidates a fresh
/// promotion has made stale, so no later sweep promotes from them.
pub open spec fn cycle_spec(g: Seq<PValue>) -> Seq<PValue> {
    let g1 = sweep_unique(fixpoint_spec(g), 0, 9);
    let g2 = sweep_unique(fixpoint_spec(g1), 1, 9);
    sweep_unique(fixpoint_spec(g2), 2, 9)
}

/// Solving cycles repeated up to `iters` times, stopping as soon as a cycle
/// leaves every cell determined.
pub open spec fn solve_from(g: Seq<PValue>, iters: nat) -> Seq<PValue>
    decreases iters,
{
    if iters == 0 {
        g
    } else {
        let g2 = cycle_spec(g);
        if finished_spec(g2) {
            g2
        } else {
            solve_from(g2, (iters - 1) as nat)
        }
    }
}

/// What `solve` makes of a well-formed grid.
pub open spec fn solve_spec(g: Seq<PValue>) -> Seq<PValue> {
    solve_from(g, 9)
}

proof fn lemma_kind_cells(g: Seq<PValue>, kind: int, idx: int)
    requires
        grid_wf(g),
        0 <= kind <= 2,
        0 <= idx < 9,
    ensures
        kind_cells(g, kind, idx).len() == 9,
        positions_distinct(kind_cells(g, kind, idx)),
        view_of_grid(kind_cells(g, kind, idx), g),
{
    let cells = kind_cells(g, kind, idx);
    assert forall|k: int| 0 <= k < 9 implies 0 <= #[trigger] kind_pos(kind, idx, k) < 81 by {}
    assert forall|i: int, j: int|
        0 <= i < 9 && 0 <= j < 9 && i != j implies kind_pos(kind, idx, i) != kind_pos(kind, idx,
        j) by {
        if kind == 0 {
            assert(i == 3 * (i / 3) + i % 3);
            assert(j == 3 * (j / 3) + j % 3);
        }
    }
    assert forall|i: int|
        0 <= i < cells.len() implies (#[trigger] cells[i]).pos < g.len() && g[cells[i].pos as int]
            == cells[i] by {
        assert(cells[i] == g[kind_pos(kind, idx, i)]);
        assert(cells[i].pos == kind_pos(kind, idx, i));
    }
    assert forall|i: int, j: int|
        0 <= i < cells.len() && 0 <= j < cells.len() && i != j implies #[trigger] cells[i].pos
            != #[trigger] cells[j].pos by {
        assert(cells[i].pos == kind_pos(kind, idx, i));
        assert(cells[j].pos == kind_pos(kind, idx, j));
    }
}

proof fn lemma_sweep_elim(g: Seq<PValue>, kind: int, i: int)
    requires
        grid_wf(g),
        0 <= kind <= 2,
        0 <= i <= 9,
    ensures
        grid_wf(sweep_elim(g, kind, i)),
        grid_measure(sweep_elim(g, kind, i)) <= grid_measure(g),
        sweep_elim(g, kind, i) == g || grid_measure(sweep_elim(g, kind, i)) < grid_measure(g),
        solved_spec(g) ==> sweep_elim(g, kind, i) == g,
    decreases i,
{
    if i > 0 {
        lemma_sweep_elim(g, kind, i - 1);
        let pre = sweep_elim(g, kind, i - 1);
        lemma_kind_cells(pre, kind, i - 1);
        lemma_eliminate_step(pre, kind_cells(pre, kind, i - 1));
    }
}

proof fn lemma_sweep_unique(g: Seq<PValue>, kind: int, i: int)
    requires
        grid_wf(g),
        0 <= kind <= 2,
        0 <= i <= 9,
    ensures
        grid_wf(sweep_unique(g, kind, i)),
        grid_measure(sweep_unique(g, kind, i)) <= grid_measure(g),
        solved_spec(g) ==> sweep_unique(g, kind, i) == g,
    decreases i,
{
    if i > 0 {
        lemma_sweep_unique(g, kind, i - 1);
        let pre = sweep_unique(g, kind, i - 1);
        lemma_kind_cells(pre, kind, i - 1);
        lemma_unique_step(pre, kind_cells(pre, kind, i - 1));
    }
}

proof fn lemma_round(g: Seq<PValue>)
    requires
        grid_wf(g),
    ensures
        grid_wf(round_spec(g)),
        grid_measure(round_spec(g)) <= grid_measure(g),
        round_spec(g) == g || grid_measure(round_spec(g)) < grid_measure(g),
        solved_spec(g) ==> round_spec(g) == g,
{
    lemma_sweep_elim(g, 0, 9);
    let a = sweep_elim(g, 0, 9);
    lemma_demote_step(a);
    let g1 = demote_spec(a);
    lemma_sweep_elim(g1, 1, 9);
    let b = sweep_elim(g1, 1, 9);
    lemma_demote_step(b);
    let g2 = demote_spec(b);
    lemma_sweep_elim(g2, 2, 9);
    let c = sweep_elim(g2, 2, 9);
    lemma_demote_step(c);
}

proof fn lemma_rounds_fuel_props(g: Seq<PValue>, fuel: nat)
    requires
        grid_wf(g),
    ensures
        grid_wf(rounds_fuel(g, fuel)),
        grid_measure(rounds_fuel(g, fuel)) <= grid_measure(g),
        solved_spec(g) ==> rounds_fuel(g, fuel) == g,
    decreases fuel,
{
    lemma_round(g);
    if fuel > 0 && round_spec(g) != g {
        lemma_rounds_fuel_props(round_spec(g), (fuel - 1) as nat);
    }
}

proof fn lemma_rounds_fuel_irrel(g: Seq<PValue>, f1: nat, f2: nat)
    requires
        grid_wf(g),
        f1 >= grid_measure(g) + 1,
        f2 >= grid_measure(g) + 1,
    ensures
        rounds_fuel(g, f1) == rounds_fuel(g, f2),
    decreases f1,
{
    lemma_round(g);
    if round_spec(g) != g {
        lemma_rounds_fuel_irrel(round_spec(g), (f1 - 1) as nat, (f2 - 1) as nat);
    }
}

proof fn lemma_fixpoint_props(g: Seq<PValue>)
    requires
        grid_wf(g),
    ensures
        grid_wf(fixpoint_spec(g)),
        grid_measure(fixpoint_spec(g)) <= grid_measure(g),
        solved_spec(g) ==> fixpoint_spec(g) == g,
        round_spec(g) == g ==> fixpoint_spec(g) == g,
        round_spec(g) != g ==> fixpoint_spec(g) == fixpoint_spec(round_spec(g)),
{
    lemma_rounds_fuel_props(g, grid_measure(g) + 1);
    lemma_round(g);
    if round_spec(g) != g {
        let r = round_spec(g);
        lemma_rounds_fuel_irrel(r, grid_measure(g) as nat, grid_measure(r) + 1);
    }
}

proof fn lemma_cycle(g: Seq<PValue>)
    requires
        grid_wf(g),
    ensures
        grid_wf(cycle_spec(g)),
        grid_measure(cycle_spec(g)) <= grid_measure(g),
        solved_spec(g) ==> cycle_spec(g) == g,
{
    lemma_fixpoint_props(g);
    let g1 = sweep_unique(fixpoint_spec(g), 0, 9);
    lemma_sweep_unique(fixpoint_spec(g), 0, 9);
    lemma_fixpoint_props(g1);
    let g2 = sweep_unique(fixpoint_spec(g1), 1, 9);
    lemma_sweep_unique(fixpoint_spec(g1), 1, 9);
    lemma_fixpoint_props(g2);
    lemma_sweep_unique(fixpoint_spec(g2), 2, 9);
}

proof fn lemma_solve_from(g: Seq<PValue>, iters: nat)
    requires
        grid_wf(g),
    ensures
        grid_wf(solve_from(g, iters)),
        grid_measure(solve_from(g, iters)) <= grid_measure(g),
        solved_spec(g) ==> solve_from(g, iters) == g,
    decreases iters,
{
    lemma_cycle(g);
    if iters > 0 && !finished_spec(cycle_spec(g)) {
        lemma_solve_from(cycle_spec(g), (iters - 1) as nat);
    }
}

/// Drives a grid towards a solution: elimination sweeps over all 27 views
/// until the grid stops changing, then hidden-single promotion, repeated up
/// to a fixed round budget or until the grid is fully determined.
pub struct Solver {
    /// The grid being solved.
    pub sudoku: Sudoku,
    /// Snapshot taken before a scan, for the fixpoint test.
    pub sudoku_last: Option<Sudoku>,
}

impl Solver {
    /// The grid under the solver is well formed.
    pub open spec fn wf(&self) -> bool {
        self.sudoku.wf()
    }

    /// Takes over a grid to solve.
    pub fn new(sudoku: Sudoku) -> (r: Solver)
        ensures
            r.sudoku.vec@ == sudoku.vec@,
            r.sudoku_last is None,
    {
        Solver { sudoku, sudoku_last: None }
    }

    /// True when every cell is fixed or has a single candidate left.
    pub fn is_finished(&self) -> (b: bool)
        ensures
            b == finished_spec(self.sudoku.vec@),
    {
        let n = self.sudoku.vec.len();
        for i in 0..n
            invariant
                n == self.sudoku.vec@.len(),
                forall|q: int|
                    0 <= q < i ==> match #[trigger] self.sudoku.vec@[q].value {
                        Value::Just(_) => true,
                        Value::Blank => false,
                        Value::Unknown(m) => mask_card(m) == 1,
                    },
        {
            match self.sudoku.vec[i].value {
                Value::Just(_) => {},
                Value::Blank => {
                    return false;
                },
                Value::Unknown(m) => {
                    if mask_count(m) != 1 {
                        return false;
                    }
                },
            }
        }
        true
    }

    fn update_last(&mut self)
        ensures
            final(self).sudoku.vec@ == old(self).sudoku.vec@,
            final(self).sudoku_last matches Some(l) && l.vec@ == old(self).sudoku.vec@,
    {
        self.sudoku_last = Some(self.sudoku.clone());
    }

    fn is_same_to_last(&self) -> (b: bool)
        ensures
            b == match self.sudoku_last {
                None => false,
                Some(l) => self.sudoku.vec@ == l.vec@,
            },
    {
        match &self.sudoku_last {
            None => false,
            Some(l) => self.sudoku == *l,
        }
    }

    fn unknown_to_just(&mut self)
        requires
            old(self).wf(),
        ensures
            final(self).wf(),
            final(self).sudoku_last == old(self).sudoku_last,
            final(self).sudoku.vec@ == demote_spec(old(self).sudoku.vec@),
            grid_measure(final(self).sudoku.vec@) <= grid_measure(old(self).sudoku.vec@),
            final(self).sudoku.vec@ == old(self).sudoku.vec@ || grid_measure(
                final(self).sudoku.vec@) < grid_measure(old(self).sudoku.vec@),
            solved_spec(old(self).sudoku.vec@) ==> final(self).sudoku.vec@
                == old(self).sudoku.vec@,
    {
        proof {
            lemma_demote_step(self.sudoku.vec@);
        }
        self.sudoku.unknown_to_just();
    }

    /// One propagation round: an elimination sweep over the 9 boxes, the 9
    /// rows, and the 9 columns, demoting single candidates after each sweep.
    fn scan_views(&mut self)
        requires
            old(self).wf(),
        ensures
            final(self).wf(),
            final(self).sudoku_last == old(self).sudoku_last,
            final(self).sudoku.vec@ == round_spec(old(self).sudoku.vec@),
            grid_measure(final(self).sudoku.vec@) <= grid_measure(old(self).sudoku.vec@),
            final(self).sudoku.vec@ == old(self).sudoku.vec@ || grid_measure(
                final(self).sudoku.vec@) < grid_measure(old(self).sudoku.vec@),
            solved_spec(old(self).sudoku.vec@) ==> final(self).sudoku.vec@
                == old(self).sudoku.vec@,
    {
        let ghost gs0 = self.sudoku.vec@;
        for i in 0..9usize
            invariant
                self.wf(),
                self.sudoku_last == old(self).sudoku_last,
                gs0 == old(self).sudoku.vec@,
                self.sudoku.vec@ == sweep_elim(gs0, 0, i as int),
                grid_measure(self.sudoku.vec@) <= grid_measure(old(self).sudoku.vec@),
                self.sudoku.vec@ == old(self).sudoku.vec@ || grid_measure(self.sudoku.vec@)
                    < grid_measure(old(self).sudoku.vec@),
                solved_spec(old(self).sudoku.vec@) ==> self.sudoku.vec@ == old(self).sudoku.vec@,
        {
            let ghost gpre = self.sudoku.vec@;
            let view = match self.sudoku.get_area(i) {
                Ok(v) => v,
                Err(_) => {
                    proof {
                        assert(false);
                    }
                    return ;
                },
            };
            proof {
                assert(view.0@ =~= kind_cells(gpre, 0, i as int));
            }
            let fills = view.fill();
            proof {
                lemma_eliminate_wf(view.0@, view_set_mask(view.0@));
            }
            let r = self.sudoku.fill(fills);
            proof {
                match r {
                    Ok(()) => {
                        lemma_eliminate_step(gpre, view.0@);
                        assert(self.sudoku.vec@ == sweep_elim(gs0, 0, i as int + 1));
                    },
                    Err(_) => {
                        assert(false);
                    },
                }
            }
        }
        self.unknown_to_just();
        let ghost gs1 = self.sudoku.vec@;
        for i in 0..9usize
            invariant
                self.wf(),
                self.sudoku_last == old(self).sudoku_last,
                gs1 == demote_spec(sweep_elim(old(self).sudoku.vec@, 0, 9)),
                grid_wf(gs1),
                self.sudoku.vec@ == sweep_elim(gs1, 1, i as int),
                grid_measure(self.sudoku.vec@) <= grid_measure(old(self).sudoku.vec@),
                self.sudoku.vec@ == old(self).sudoku.vec@ || grid_measure(self.sudoku.vec@)
                    < grid_measure(old(self).sudoku.vec@),
                solved_spec(old(self).sudoku.vec@) ==> self.sudoku.vec@ == old(self).sudoku.vec@,
        {
            let ghost gpre = self.sudoku.vec@;
            let view = match self.sudoku.get_row(i) {
                Ok(v) => v,
                Err(_) => {
                    proof {
                        assert(false);
                    }
                    return ;
                },
            };
            proof {
                assert(view.0@ =~= kind_cells(gpre, 1, i as int));
            }
            let fills = view.fill();
            proof {
                lemma_eliminate_wf(view.0@, view_set_mask(view.0@));
            }
            let r = self.sudoku.fill(fills);
            proof {
                match r {
                    Ok(()) => {
                        lemma_eliminate_step(gpre, view.0@);
                        assert(self.sudoku.vec@ == sweep_elim(gs1, 1, i as int + 1));
                    },
                    Err(_) => {
                        assert(false);
                    },
                }
            }
        }
        self.unknown_to_just();
        let ghost gs2 = self.sudoku.vec@;
        for i in 0..9usize
            invariant
                self.wf(),
                self.sudoku_last == old(self).sudoku_last,
                gs2 == demote_spec(sweep_elim(demote_spec(sweep_elim(old(self).sudoku.vec@, 0,
                9)), 1, 9)),
                grid_wf(gs2),
                self.sudoku.vec@ == sweep_elim(gs2, 2, i as int),
                grid_measure(self.sudoku.vec@) <= grid_measure(old(self).sudoku.vec@),
                self.sudoku.vec@ == old(self).sudoku.vec@ || grid_measure(self.sudoku.vec@)
                    < grid_measure(old(self).sudoku.vec@),
                solved_spec(old(self).sudoku.vec@) ==> self.sudoku.vec@ == old(self).sudoku.vec@,
        {
            let ghost gpre = self.sudoku.vec@;
            let view = match self.sudoku.get_column(i) {
                Ok(v) => v,
                Err(_) => {
                    proof {
                        assert(false);
                    }
                    return ;
                },
            };
            proof {
                assert(view.0@ =~= kind_cells(gpre, 2, i as int));
            }
            let fills = view.fill();
            proof {
                lemma_eliminate_wf(view.0@, view_set_mask(view.0@));
            }
            let r = self.sudoku.fill(fills);
            proof {
                match r {
                    Ok(()) => {
                        lemma_eliminate_step(gpre, view.0@);
                        assert(self.sudoku.vec@ == sweep_elim(gs2, 2, i as int + 1));
                    },
                    Err(_) => {
                        assert(false);
                    },
                }
            }
        }
        self.unknown_to_just();
        proof {
            assert(self.sudoku.vec@ == round_spec(old(self).sudoku.vec@));
        }
    }

    fn scan_views_unique_area(&mut self)
        requires
            old(self).wf(),
        ensures
            final(self).wf(),
            final(self).sudoku.vec@ == sweep_unique(old(self).sudoku.vec@, 0, 9),
            grid_measure(final(self).sudoku.vec@) <= grid_measure(old(self).sudoku.vec@),
            solved_spec(old(self).sudoku.vec@) ==> final(self).sudoku.vec@
                == old(self).sudoku.vec@,
    {
        self.update_last();
        for i in 0..9usize
            invariant
                self.wf(),
                self.sudoku.vec@ == sweep_unique(old(self).sudoku.vec@, 0, i as int),
                grid_measure(self.sudoku.vec@) <= grid_measure(old(self).sudoku.vec@),
                solved_spec(old(self).sudoku.vec@) ==> self.sudoku.vec@ == old(self).sudoku.vec@,
        {
            let ghost gpre = self.sudoku.vec@;
            let view = match self.sudoku.get_area(i) {
                Ok(v) => v,
                Err(_) => {
                    proof {
                        assert(false);
                    }
                    return ;
                },
            };
            proof {
                assert(view.0@ =~= kind_cells(gpre, 0, i as int));
            }
            let fills = view.find_unique();
            proof {
                lemma_unique_wf(view.0@);
            }
            let r = self.sudoku.fill(fills);
            proof {
                match r {
                    Ok(()) => {
                        lemma_unique_step(gpre, view.0@);
                        assert(self.sudoku.vec@ == sweep_unique(old(self).sudoku.vec@, 0,
                        i as int + 1));
                    },
                    Err(_) => {
                        assert(false);
                    },
                }
            }
        }
    }

    fn scan_views_unique_row(&mut self)
        requires
            old(self).wf(),
        ensures
            final(self).wf(),
            final(self).sudoku.vec@ == sweep_unique(old(self).sudoku.vec@, 1, 9),
            grid_measure(final(self).sudoku.vec@) <= grid_measure(old(self).sudoku.vec@),
            solved_spec(old(self).sudoku.vec@) ==> final(self).sudoku.vec@
                == old(self).sudoku.vec@,
    {
        self.update_last();
        for i in 0..9usize
            invariant
                self.wf(),
                self.sudoku.vec@ == sweep_unique(old(self).sudoku.vec@, 1, i as int),
                grid_measure(self.sudoku.vec@) <= grid_measure(old(self).sudoku.vec@),
                solved_spec(old(self).sudoku.vec@) ==> self.sudoku.vec@ == old(self).sudoku.vec@,
        {
            let ghost gpre = self.sudoku.vec@;
            let view = match self.sudoku.get_row(i) {
                Ok(v) => v,
                Err(_) => {
                    proof {
                        assert(false);
                    }
                    return ;
                },
            };
            proof {
                assert(view.0@ =~= kind_cells(gpre, 1, i as int));
            }
            let fills = view.find_unique();
            proof {
                lemma_unique_wf(view.0@);
            }
            let r = self.sudoku.fill(fills);
            proof {
                match r {
                    Ok(()) => {
                        lemma_unique_step(gpre, view.0@);
                        assert(self.sudoku.vec@ == sweep_unique(old(self).sudoku.vec@, 1,
                        i as int + 1));
                    },
                    Err(_) => {
                        assert(false);
                    },
                }
            }
        }
    }

    fn scan_views_unique_column(&mut self)
        requires
            old(self).wf(),
        ensures
            final(self).wf(),
            final(self).sudoku.vec@ == sweep_unique(old(self).sudoku.vec@, 2, 9),
            grid_measure(final(self).sudoku.vec@) <= grid_measure(old(self).sudoku.vec@),
            solved_spec(old(self).sudoku.vec@) ==> final(self).sudoku.vec@
                == old(self).sudoku.vec@,
    {
        self.update_last();
        for i in 0..9usize
            invariant
                self.wf(),
                self.sudoku.vec@ == sweep_unique(old(self).sudoku.vec@, 2, i as int),
                grid_measure(self.sudoku.vec@) <= grid_measure(old(self).sudoku.vec@),
                solved_spec(old(self).sudoku.vec@) ==> self.sudoku.vec@ == old(self).sudoku.vec@,
        {
            let ghost gpre = self.sudoku.vec@;
            let view = match self.sudoku.get_column(i) {
                Ok(v) => v,
                Err(_) => {
                    proof {
                        assert(false);
                    }
                    return ;
                },
            };
            proof {
                assert(view.0@ =~= kind_cells(gpre, 2, i as int));
            }
            let fills = view.find_unique();
            proof {
                lemma_unique_wf(view.0@);
            }
            let r = self.sudoku.fill(fills);
            proof {
                match r {
                    Ok(()) => {
                        lemma_unique_step(gpre, view.0@);
                        assert(self.sudoku.vec@ == sweep_unique(old(self).sudoku.vec@, 2,
                        i as int + 1));
                    },
                    Err(_) => {
                        assert(false);
                    },
                }
            }
        }
    }

    /// Repeats propagation rounds until one of them leaves the grid exactly
    /// as it found it. Terminates because any round that changes the grid
    /// strictly lowers its measure.
    fn scan_views_until_same(&mut self)
        requires
            old(self).wf(),
        ensures
            final(self).wf(),
            final(self).sudoku.vec@ == fixpoint_spec(old(self).sudoku.vec@),
            grid_measure(final(self).sudoku.vec@) <= grid_measure(old(self).sudoku.vec@),
            solved_spec(old(self).sudoku.vec@) ==> final(self).sudoku.vec@
                == old(self).sudoku.vec@,
    {
        loop
            invariant
                self.wf(),
                fixpoint_spec(old(self).sudoku.vec@) == fixpoint_spec(self.sudoku.vec@),
                grid_measure(self.sudoku.vec@) <= grid_measure(old(self).sudoku.vec@),
                solved_spec(old(self).sudoku.vec@) ==> self.sudoku.vec@ == old(self).sudoku.vec@,
            decreases grid_measure(self.sudoku.vec@),
        {
            self.update_last();
            let ghost gpre = self.sudoku.vec@;
            self.scan_views();
            proof {
                lemma_fixpoint_props(gpre);
            }
            if self.is_same_to_last() {
                return ;
            }
        }
    }

    /// Runs the whole solving cycle: propagation to a fixpoint, hidden-single
    /// promotion per view kind, for at most nine outer rounds or until every
    /// cell is determined. A grid that is already solved is left untouched.
    pub fn solve(&mut self)
        requires
            old(self).wf(),
        ensures
            final(self).wf(),
            final(self).sudoku.vec@ == solve_spec(old(self).sudoku.vec@),
            grid_measure(final(self).sudoku.vec@) <= grid_measure(old(self).sudoku.vec@),
            solved_spec(old(self).sudoku.vec@) ==> final(self).sudoku.vec@
                == old(self).sudoku.vec@,
    {
        let ghost g0 = self.sudoku.vec@;
        let mut round_no: usize = 0;
        while round_no < 9
            invariant_except_break
                round_no <= 9,
                self.wf(),
                g0 == old(self).sudoku.vec@,
                grid_wf(g0),
                solve_spec(g0) == solve_from(self.sudoku.vec@, (9 - round_no) as nat),
            ensures
                self.wf(),
                self.sudoku.vec@ == solve_spec(g0),
            decreases 9 - round_no,
        {
            let ghost gh = self.sudoku.vec@;
            self.scan_views_until_same();
            self.scan_views_unique_area();
            self.scan_views_until_same();
            self.scan_views_unique_row();
            self.scan_views_until_same();
            self.scan_views_unique_column();
            proof {
                assert(self.sudoku.vec@ == cycle_spec(gh));
            }
            if self.is_finished() {
                proof {
                    assert(solve_from(gh, (9 - round_no) as nat) == self.sudoku.vec@);
                }
                break ;
            }
            round_no += 1;
        }
        proof {
            lemma_solve_from(old(self).sudoku.vec@, 9);
        }
    }
}

} // verus!

//! Why one more cut, of a cell that the fire would take anyway, never costs
//! points: the board with the cut stays, cell by cell, no further burnt than
//! the board without it.

use vstd::prelude::*;
use crate::cell::{Cell, Rules};
use crate::dynamics::{lemma_step_fuel, lemma_step_wf};
use crate::model::{BoardView, GRID_CELLS, STRIDE, on_grid, same_frame};
use crate::reach::{lemma_after_add, lemma_after_wf, lemma_burnt_out_stays};
use crate::replay::lemma_turn;
use crate::sums::{lemma_sum_pointwise_le, lemma_sum_update};

verus! {

impl Cell {
    /// Whether the cell is in one of the states that the fire moves a cell
    /// through: intact, burning, burnt.
    pub open spec fn is_fire_prone(self) -> bool {
        self.is_intact() || self.is_burning() || self.is_burnt()
    }
}

impl Rules {
    /// How far the fire has got with the cell: zero for an intact cell, the
    /// number of the turn of its burning for a burning cell, one more than
    /// its burning time for a burnt cell.
    pub open spec fn burn_progress(self, cell: Cell) -> int {
        if cell.is_burning() {
            self.fire_duration(cell) - cell.timer() + 1
        } else if cell.is_burnt() {
            self.fire_duration(cell) + 1
        } else {
            0
        }
    }

    /// Whether the cell `safe` is no further burnt than the cell `base`: both
    /// are in a state that the fire moves a cell through, and the fire has
    /// got no further with `safe`; or both are the same cleared or empty
    /// cell.
    pub open spec fn no_worse(self, safe: Cell, base: Cell) -> bool {
        if base.is_fire_prone() {
            safe.is_fire_prone() && self.burn_progress(safe) <= self.burn_progress(base)
        } else {
            safe == base && !base.is_cutting()
        }
    }
}

impl BoardView {
    /// Whether the cell at `i` of this board is no further burnt than the
    /// cell at `i` of `base`.
    pub open spec fn no_worse_at(self, base: BoardView, i: int) -> bool {
        self.rules.no_worse(self.cells[i], base.cells[i])
    }

    /// Whether this board is the board `base` with one more cut, that of the
    /// cell at `c`, some turns later: no cut is under way on `base`, the cell
    /// at `c` is being cut or cleared here, and every other cell is no
    /// further burnt here than on `base`.
    pub open spec fn shelters(self, base: BoardView, c: int) -> bool {
        &&& self.wf()
        &&& base.wf()
        &&& same_frame(base, self)
        &&& on_grid(c)
        &&& self.cells[c].is_cutting() || self.cells[c].is_cut()
        &&& base.cutting is None
        &&& forall|i: int| 0 <= i < GRID_CELLS && i != c ==> #[trigger] self.no_worse_at(base, i)
    }

    /// Number of steps until the fire has burnt out, at least one.
    pub open spec fn turns_left(self) -> nat
        decreases self.fuel(),
        when self.wf()
    {
        if self.step().burnt_out() {
            1
        } else {
            proof {
                lemma_step_fuel(self);
            }
            1 + self.step().turns_left()
        }
    }
}

/// A step keeps a sheltering board sheltering.
pub proof fn lemma_step_shelters(safe: BoardView, base: BoardView, c: int)
    requires
        safe.shelters(base, c),
    ensures
        safe.step().shelters(base.step(), c),
{
    let safe2 = safe.step();
    let base2 = base.step();
    lemma_step_wf(safe);
    lemma_step_wf(base);
    assert forall|i: int| 0 <= i < GRID_CELLS && i != c implies #[trigger] safe2.no_worse_at(
        base2,
        i,
    ) by {
        let x = safe.cells[i];
        let y = base.cells[i];
        assert(safe.no_worse_at(base, i));
        assert(safe.timer_in_range(i));
        assert(base.timer_in_range(i));
        if x.is_intact() && safe.fire_arrives(i) {
            let n = if safe.collapsing(i - STRIDE) {
                i - STRIDE
            } else if safe.collapsing(i + STRIDE) {
                i + STRIDE
            } else if safe.collapsing(i - 1) {
                i - 1
            } else {
                i + 1
            };
            assert(safe.no_worse_at(base, n));
            assert(base.timer_in_range(n));
            if y.is_intact() {
                assert(base.burnt_through(n));
            }
        }
    }
}

/// Steps keep a sheltering board sheltering.
pub proof fn lemma_after_shelters(safe: BoardView, base: BoardView, c: int, n: nat)
    requires
        safe.shelters(base, c),
    ensures
        safe.after(n).shelters(base.after(n), c),
    decreases n,
{
    if n > 0 {
        lemma_after_shelters(safe, base, c, (n - 1) as nat);
        lemma_step_shelters(safe.after((n - 1) as nat), base.after((n - 1) as nat), c);
    }
}

/// A sheltering board scores at least what the board that it shelters scores
/// without the cell that was cut.
pub proof fn lemma_shelter_score(safe: BoardView, base: BoardView, c: int)
    requires
        safe.shelters(base, c),
    ensures
        safe.score() >= base.score() - base.rules.value(base.cells[c]),
{
    let without = base.values().update(c, 0);
    lemma_sum_update(base.values(), c, 0);
    assert forall|i: int| 0 <= i < without.len() implies without[i] <= safe.values()[i] by {
        if i != c {
            assert(safe.no_worse_at(base, i));
            assert(safe.timer_in_range(i));
        }
    }
    lemma_sum_pointwise_le(without, safe.values());
}

/// A cell that is not intact does not get intact again.
pub proof fn lemma_lost_stays_lost(v: BoardView, i: int, n: nat)
    requires
        v.wf(),
        on_grid(i),
        !v.cells[i].is_intact(),
    ensures
        !v.after(n).cells[i].is_intact(),
    decreases n,
{
    if n > 0 {
        lemma_lost_stays_lost(v, i, (n - 1) as nat);
        lemma_after_wf(v, (n - 1) as nat);
    }
}

/// Once the fire has burnt out on both, a sheltering board scores at least
/// what the board that it shelters scores, if that board has lost the cell
/// that was cut.
pub proof fn lemma_shelter_final(safe: BoardView, base: BoardView, c: int, m: nat, n: nat)
    requires
        safe.shelters(base, c),
        safe.after(m).burnt_out(),
        base.after(n).burnt_out(),
        !base.after(n).cells[c].is_intact(),
    ensures
        safe.after(m).score() >= base.after(n).score(),
{
    let last: nat = if m >= n {
        m
    } else {
        n
    };
    lemma_after_wf(safe, m);
    lemma_after_wf(base, n);
    lemma_burnt_out_stays(safe.after(m), (last - m) as nat);
    lemma_burnt_out_stays(base.after(n), (last - n) as nat);
    lemma_after_add(safe, m, (last - m) as nat);
    lemma_after_add(base, n, (last - n) as nat);
    lemma_lost_stays_lost(base.after(n), c, (last - n) as nat);
    lemma_after_shelters(safe, base, c, last);
    lemma_shelter_score(safe.after(last), base.after(last), c);
}

/// With no action left to issue, a replay is a number of steps.
pub proof fn lemma_run_out(v: BoardView, actions: Seq<usize>, next: int)
    requires
        v.wf(),
        next >= actions.len(),
    ensures
        v.run(actions, next) == v.after(v.turns_left()),
        v.after(v.turns_left()).burnt_out(),
    decreases v.fuel(),
{
    let after = v.step();
    lemma_step_wf(v);
    lemma_step_fuel(v);
    assert(v.after(1) == v.after(0).step());
    if !after.burnt_out() {
        lemma_run_out(after, actions, next);
        lemma_after_add(v, 1, after.turns_left());
    }
}

/// From any turn of a replay on, the plan with one more cut at its end, that
/// of a cell that the plan loses, ends with at least the score of the plan.
pub proof fn lemma_extra_cut(u: BoardView, plan: Seq<usize>, c: usize, next: int)
    requires
        u.wf(),
        0 <= next <= plan.len(),
        on_grid(c as int),
        !u.run(plan, next).cells[c as int].is_intact(),
    ensures
        u.run(plan.push(c), next).score() >= u.run(plan, next).score(),
    decreases u.fuel(),
{
    let longer = plan.push(c);
    lemma_turn(u, plan, next);
    lemma_turn(u, longer, next);
    let base = u.turn(plan, next);
    let safe = u.turn(longer, next);
    if next < plan.len() {
        if !base.burnt_out() {
            lemma_extra_cut(base, plan, c, u.next_action(plan, next));
        }
    } else if !u.can_act() {
        if !base.burnt_out() {
            lemma_extra_cut(base, plan, c, next);
        }
    } else {
        if !u.cells[c as int].is_intact() {
            if !base.burnt_out() {
                lemma_run_out(base, plan, next);
                lemma_run_out(base, longer, next + 1);
            }
        } else {
            // after this turn the two boards differ in the cell at `c` alone
            assert(safe.shelters(base, c as int));
            let m: nat = if safe.burnt_out() {
                0
            } else {
                safe.turns_left()
            };
            let n: nat = if base.burnt_out() {
                0
            } else {
                base.turns_left()
            };
            if !safe.burnt_out() {
                lemma_run_out(safe, longer, next + 1);
            }
            if !base.burnt_out() {
                lemma_run_out(base, plan, next);
            }
            lemma_shelter_final(safe, base, c as int, m, n);
        }
    }
}

} // verus!

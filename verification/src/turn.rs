//! The fire's part of a turn taken fire by fire, as the engine handles it, and
//! the proof that this makes of each cell what `BoardView::next_cell` says.

use vstd::prelude::*;
use crate::cell::Cell;
use crate::dynamics::{lemma_next_fires, lemma_step_covers};
use crate::lists::lemma_push_contains;
use crate::model::{BoardView, GRID_CELLS, STRIDE, ignite, on_grid};

verus! {

impl BoardView {
    /// The grid and the next list of fires after the first `k` fires of this
    /// turn have been handled: a fire in its last turn collapses and sets its
    /// four neighbours alight, every other fire burns down by one turn and is
    /// listed again.
    pub open spec fn burn(self, k: int) -> (Seq<Cell>, Seq<usize>)
        decreases k,
    {
        if k <= 0 {
            (self.cells, Seq::empty())
        } else {
            let before = self.burn(k - 1);
            let f = self.fires[k - 1] as int;
            let cell = before.0[f];
            if cell.is_collapsing() {
                let up = ignite(self.rules, before.0.update(f, cell.aged()), before.1, f - STRIDE);
                let down = ignite(self.rules, up.0, up.1, f + STRIDE);
                let left = ignite(self.rules, down.0, down.1, f - 1);
                ignite(self.rules, left.0, left.1, f + 1)
            } else if cell.is_burning() {
                (before.0.update(f, cell.aged()), before.1.push(f as usize))
            } else {
                before
            }
        }
    }

    /// The cell at `i` once the first `k` fires of this turn have been handled
    /// and `fires` is the next list so far: an intact cell burns if it is
    /// listed, a burning cell has aged if it was handled, and every other cell
    /// is as it was.
    pub open spec fn mid_cell(self, fires: Seq<usize>, k: int, i: int) -> Cell {
        let cell = self.cells[i];
        if cell.is_intact() {
            if fires.contains(i as usize) {
                cell.lit(self.rules)
            } else {
                cell
            }
        } else if cell.is_burning() && self.handled(i as usize, k) {
            cell.aged()
        } else {
            cell
        }
    }

    /// Whether `cells` is the grid that goes with the next list `fires` once
    /// the first `k` fires of this turn have been handled.
    pub open spec fn mid_state(self, cells: Seq<Cell>, fires: Seq<usize>, k: int) -> bool {
        &&& cells.len() == GRID_CELLS
        &&& forall|i: int| 0 <= i < GRID_CELLS ==> #[trigger] cells[i] == self.mid_cell(fires, k, i)
    }

    /// The cell at `i` after the fire's part of a turn: as after the whole
    /// turn, but that a cell being cut has not aged yet.
    pub open spec fn fire_phase_cell(self, i: int) -> Cell {
        if self.cells[i].is_cutting() {
            self.cells[i]
        } else {
            self.next_cell(i)
        }
    }
}

/// Setting a neighbour alight in the middle of a turn adds to the next list
/// what `spread_to` adds.
proof fn lemma_ignite_mid(v: BoardView, cells: Seq<Cell>, fires: Seq<usize>, k: int, m: int)
    requires
        v.wf(),
        v.mid_state(cells, fires, k),
    ensures
        ignite(v.rules, cells, fires, m).1 == v.spread_to(fires, m),
        v.mid_state(ignite(v.rules, cells, fires, m).0, ignite(v.rules, cells, fires, m).1, k),
{
    let r = ignite(v.rules, cells, fires, m);
    if on_grid(m) {
        if cells[m].is_intact() {
            assert forall|i: int| 0 <= i < GRID_CELLS implies #[trigger] r.0[i] == v.mid_cell(
                r.1,
                k,
                i,
            ) by {
                lemma_push_contains(fires, m as usize, i as usize);
            }
        }
    }
}

/// A fire that is not among the first `k` is not handled after `k` fires.
pub proof fn lemma_not_handled(v: BoardView, k: int, j: int)
    requires
        v.wf(),
        0 <= k <= j < v.fires.len(),
    ensures
        !v.handled(v.fires[j], k),
{
    if v.handled(v.fires[j], k) {
        let h = choose|h: int| 0 <= h < k && h < v.fires.len()
            && #[trigger] v.fires[h] == v.fires[j];
        assert(v.fires[h] == v.fires[j]);
        assert(false);
    }
}

/// Handling the `k`-th fire adds exactly that fire to the handled ones.
pub proof fn lemma_handled_step(v: BoardView, k: int, x: usize)
    requires
        v.wf(),
        0 <= k < v.fires.len(),
    ensures
        v.handled(x, k + 1) <==> (v.handled(x, k) || x == v.fires[k]),
{
    if v.handled(x, k) {
        let h = choose|h: int| 0 <= h < k && h < v.fires.len() && #[trigger] v.fires[h] == x;
        assert(v.fires[h] == x);
    }
    if x == v.fires[k] {
        assert(v.fires[k] == x);
    }
    if v.handled(x, k + 1) {
        let h = choose|h: int| 0 <= h < k + 1 && h < v.fires.len() && #[trigger] v.fires[h] == x;
        if h < k {
            assert(v.fires[h] == x);
        }
    }
}

/// Handled fire by fire, the turn lists the next fires as `next_fires` says
/// and leaves each cell as `mid_cell` says.
pub proof fn lemma_burn(v: BoardView, k: int)
    requires
        v.wf(),
        0 <= k <= v.fires.len(),
    ensures
        v.burn(k).1 == v.next_fires(k),
        v.mid_state(v.burn(k).0, v.burn(k).1, k),
    decreases k,
{
    if k <= 0 {
        assert forall|i: int| 0 <= i < GRID_CELLS implies #[trigger] v.burn(k).0[i] == v.mid_cell(
            v.burn(k).1,
            k,
            i,
        ) by {
            assert(!v.burn(k).1.contains(i as usize));
            assert(!v.handled(i as usize, k));
        }
    } else {
        lemma_burn(v, k - 1);
        let before = v.burn(k - 1);
        let f = v.fires[k - 1] as int;
        let cell = before.0[f];
        lemma_not_handled(v, k - 1, k - 1);
        assert(on_grid(f) && v.cells[f].is_burning());
        assert(cell == v.mid_cell(before.1, k - 1, f));
        assert(cell == v.cells[f]);
        let aged = before.0.update(f, cell.aged());
        assert forall|i: int| 0 <= i < GRID_CELLS implies #[trigger] aged[i] == v.mid_cell(
            before.1,
            k,
            i,
        ) by {
            assert(before.0[i] == v.mid_cell(before.1, k - 1, i));
            lemma_handled_step(v, k - 1, i as usize);
        }
        assert(v.mid_state(aged, before.1, k));
        if cell.is_collapsing() {
            lemma_ignite_mid(v, aged, before.1, k, f - STRIDE);
            let up = ignite(v.rules, aged, before.1, f - STRIDE);
            lemma_ignite_mid(v, up.0, up.1, k, f + STRIDE);
            let down = ignite(v.rules, up.0, up.1, f + STRIDE);
            lemma_ignite_mid(v, down.0, down.1, k, f - 1);
            let left = ignite(v.rules, down.0, down.1, f - 1);
            lemma_ignite_mid(v, left.0, left.1, k, f + 1);
        } else {
            let fires = before.1.push(f as usize);
            assert forall|i: int| 0 <= i < GRID_CELLS implies #[trigger] aged[i] == v.mid_cell(
                fires,
                k,
                i,
            ) by {
                assert(aged[i] == v.mid_cell(before.1, k, i));
                lemma_push_contains(before.1, f as usize, i as usize);
            }
        }
    }
}

/// The fire that is handled next is still as the turn found it: on the grid,
/// inside the border, burning, with its timer in range.
pub proof fn lemma_burn_pending(v: BoardView, k: int)
    requires
        v.wf(),
        0 <= k < v.fires.len(),
    ensures
        v.burn(k).0.len() == GRID_CELLS,
        STRIDE + 1 <= v.fires[k] <= GRID_CELLS - STRIDE - 2,
        v.burn(k).0[v.fires[k] as int] == v.cells[v.fires[k] as int],
        v.cells[v.fires[k] as int].is_burning(),
        1 <= v.cells[v.fires[k] as int].timer(),
{
    lemma_burn(v, k);
    let f = v.fires[k] as int;
    assert(v.timer_in_range(f));
}

/// Once all fires of the turn are handled, the next list of fires is that of
/// the turn and each cell is what the fire's part of the turn makes of it.
pub proof fn lemma_burn_done(v: BoardView)
    requires
        v.wf(),
    ensures
        v.burn(v.fires.len() as int).1 == v.step().fires,
        v.burn(v.fires.len() as int).0.len() == GRID_CELLS,
        forall|i: int|
            0 <= i < GRID_CELLS ==> #[trigger] v.burn(v.fires.len() as int).0[i]
                == v.fire_phase_cell(i),
{
    let n = v.fires.len() as int;
    let cells = v.burn(n).0;
    let fires = v.burn(n).1;
    lemma_burn(v, n);
    lemma_next_fires(v, n);
    assert forall|i: int| 0 <= i < GRID_CELLS implies #[trigger] cells[i] == v.fire_phase_cell(
        i,
    ) by {
        assert(cells[i] == v.mid_cell(fires, n, i));
        let cell = v.cells[i];
        if cell.is_intact() {
            if fires.contains(i as usize) {
                assert(v.claims(i as usize, n));
            }
            if v.fire_arrives(i) {
                lemma_step_covers(v, i);
            }
        } else if cell.is_burning() {
            assert(v.fires.contains(i as usize));
            let j = choose|j: int| 0 <= j < v.fires.len() && v.fires[j] == i as usize;
            assert(v.fires[j] == i as usize);
            assert(v.handled(i as usize, n));
        }
    }
}

} // verus!

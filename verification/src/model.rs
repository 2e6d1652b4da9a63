//! The simulation as mathematics: what a board is, and what one turn, a cut
//! and a reset make of it.

use vstd::prelude::*;
use crate::cell::{Cell, Rules};
use crate::sums::sum;

verus! {

/// Cells per stored row: position `(row, column)` is stored at index
/// `row * STRIDE + column`.
pub const STRIDE: usize = 50;

/// Number of stored cells.
pub const GRID_CELLS: usize = 2500;

/// A board as a mathematical value.
pub struct BoardView {
    /// Number of columns in use, the border columns included.
    pub width: int,
    /// Number of rows in use, the border rows included.
    pub height: int,
    pub rules: Rules,
    /// Index of the cell where the fire starts.
    pub fire_start: int,
    /// All stored cells, by index.
    pub cells: Seq<Cell>,
    /// Indices of the burning cells, in the order in which the next turn
    /// handles them.
    pub fires: Seq<usize>,
    /// Index of the cell that is being cut, if any.
    pub cutting: Option<usize>,
}

/// Whether `i` is the index of a stored cell.
pub open spec fn on_grid(i: int) -> bool {
    0 <= i < GRID_CELLS
}

/// Whether the cell at `i` lies inside the border of a grid of `width`
/// columns and `height` rows.
pub open spec fn is_interior(width: int, height: int, i: int) -> bool {
    &&& on_grid(i)
    &&& 1 <= i / (STRIDE as int) < height - 1
    &&& 1 <= i % (STRIDE as int) < width - 1
}

/// `cells` with the cell at `i` set on fire if it is on the grid and intact,
/// and `fires` with `i` added at its end in that case.
pub open spec fn ignite(rules: Rules, cells: Seq<Cell>, fires: Seq<usize>, i: int) -> (
    Seq<Cell>,
    Seq<usize>,
) {
    if on_grid(i) && cells[i].is_intact() {
        (cells.update(i, cells[i].lit(rules)), fires.push(i as usize))
    } else {
        (cells, fires)
    }
}

/// What a grid may be at the start: every cell a tree, a house or empty, and
/// every cell that is not inside the border empty.
pub open spec fn is_start_grid(width: int, height: int, cells: Seq<Cell>) -> bool {
    &&& cells.len() == GRID_CELLS
    &&& forall|i: int| 0 <= i < GRID_CELLS ==> cells[i] == (#[trigger] cells[i]).pristine()
    &&& forall|i: int|
        0 <= i < GRID_CELLS && !is_interior(width, height, i) ==> #[trigger] cells[i]
            == Cell::Empty
}

/// What a new board may be made of: a grid as `is_start_grid` describes it,
/// with a size, constants and totals as `BoardView::frame_wf` describes them.
pub open spec fn valid_start(
    width: int,
    height: int,
    rules: Rules,
    fire_start: int,
    cells: Seq<Cell>,
) -> bool {
    &&& is_start_grid(width, height, cells)
    &&& BoardView::blank(width, height, rules, fire_start, cells).frame_wf()
}

/// Whether two boards have the same size and constants and, cell by cell, the
/// same kind of cell: they are states of one and the same simulation.
pub open spec fn same_frame(a: BoardView, b: BoardView) -> bool {
    &&& a.width == b.width
    &&& a.height == b.height
    &&& a.rules == b.rules
    &&& a.fire_start == b.fire_start
    &&& a.cells.len() == b.cells.len()
    &&& forall|i: int|
        #![trigger a.cells[i]]
        #![trigger b.cells[i]]
        0 <= i < a.cells.len() ==> a.cells[i].pristine() == b.cells[i].pristine()
}

impl BoardView {
    /// Points of each cell as it stands.
    pub open spec fn values(self) -> Seq<int> {
        Seq::new(self.cells.len(), |i: int| self.rules.value(self.cells[i]))
    }

    /// Points of each cell as it was before any fire or cut.
    pub open spec fn initial_values(self) -> Seq<int> {
        Seq::new(self.cells.len(), |i: int| self.rules.value(self.cells[i].pristine()))
    }

    /// Turns of fire that each cell can still feed.
    pub open spec fn fuels(self) -> Seq<int> {
        Seq::new(self.cells.len(), |i: int| self.rules.fuel(self.cells[i]))
    }

    /// Turns of fire that each cell could feed before any fire or cut.
    pub open spec fn initial_fuels(self) -> Seq<int> {
        Seq::new(self.cells.len(), |i: int| self.rules.fuel(self.cells[i].pristine()))
    }

    /// Turns that cutting each cell would take before any fire or cut.
    pub open spec fn initial_cut_durations(self) -> Seq<int> {
        Seq::new(self.cells.len(), |i: int| self.rules.cut_duration(self.cells[i].pristine()))
    }

    /// The score: the sum of the points of all cells as they stand.
    pub open spec fn score(self) -> int {
        sum(self.values())
    }

    /// The sum of the points of all cells as they were before any fire or cut.
    pub open spec fn initial_value(self) -> int {
        sum(self.initial_values())
    }

    /// An upper bound on the number of turns that the fire can still last.
    pub open spec fn fuel(self) -> int {
        sum(self.fuels())
    }

    /// The fuel of the board before any fire or cut.
    pub open spec fn initial_fuel(self) -> int {
        sum(self.initial_fuels())
    }

    /// Turns that it would take to cut every cell of the board, one after the
    /// other, counted before any fire or cut.
    pub open spec fn initial_cut_time(self) -> int {
        sum(self.initial_cut_durations())
    }

    /// Whether the cell at `i` lies inside the border.
    pub open spec fn interior(self, i: int) -> bool {
        is_interior(self.width, self.height, i)
    }

    /// Whether the cell at `i` is in its last turn of burning.
    pub open spec fn collapsing(self, i: int) -> bool {
        on_grid(i) && self.cells[i].is_collapsing()
    }

    /// Whether the fire reaches the cell at `i` in the coming turn: one of its
    /// four orthogonal neighbours collapses.
    pub open spec fn fire_arrives(self, i: int) -> bool {
        ||| self.collapsing(i - STRIDE)
        ||| self.collapsing(i + STRIDE)
        ||| self.collapsing(i - 1)
        ||| self.collapsing(i + 1)
    }

    /// Whether none of the four orthogonal neighbours of the cell at `i` is
    /// intact.
    pub open spec fn no_intact_neighbour(self, i: int) -> bool {
        &&& on_grid(i - STRIDE) ==> !self.cells[i - STRIDE].is_intact()
        &&& on_grid(i + STRIDE) ==> !self.cells[i + STRIDE].is_intact()
        &&& on_grid(i - 1) ==> !self.cells[i - 1].is_intact()
        &&& on_grid(i + 1) ==> !self.cells[i + 1].is_intact()
    }

    /// Whether the timer of the cell at `i` is in the range of its state: from
    /// one turn to the full duration of its kind.
    pub open spec fn timer_in_range(self, i: int) -> bool {
        let cell = self.cells[i];
        &&& cell.is_burning() ==> 1 <= cell.timer() <= self.rules.fire_duration(cell)
        &&& cell.is_cutting() ==> 1 <= cell.timer() <= self.rules.cut_duration(cell.pristine())
    }

    /// Whether a burnt cell at `i` has left no intact neighbour behind.
    pub open spec fn burnt_through(self, i: int) -> bool {
        self.cells[i].is_burnt() ==> self.no_intact_neighbour(i)
    }

    /// The size, the constants and the limits that make a board usable:
    /// a grid with a border on each side, durations of at least one turn,
    /// values that are not negative, and totals that fit the machine's
    /// 32-bit integers.
    pub open spec fn frame_wf(self) -> bool {
        &&& 2 <= self.width <= STRIDE
        &&& 2 <= self.height <= STRIDE
        &&& on_grid(self.fire_start)
        &&& self.rules.wf()
        &&& self.cells.len() == GRID_CELLS
        &&& forall|i: int|
            0 <= i < GRID_CELLS && !self.interior(i) ==> #[trigger] self.cells[i] == Cell::Empty
        &&& self.initial_value() <= i32::MAX
        &&& self.initial_fuel() <= i32::MAX
        &&& self.initial_cut_time() <= i32::MAX
    }

    /// Validity of a board. Beyond `frame_wf`: timers are in range; the list of
    /// fires holds exactly the burning cells, each once; the cell being cut is
    /// the only one in that state; and no burnt cell has an intact neighbour.
    pub open spec fn wf(self) -> bool {
        &&& self.frame_wf()
        &&& forall|i: int| 0 <= i < GRID_CELLS ==> #[trigger] self.timer_in_range(i)
        &&& self.fires.no_duplicates()
        &&& forall|k: int|
            0 <= k < self.fires.len() ==> on_grid(#[trigger] self.fires[k] as int)
                && self.cells[self.fires[k] as int].is_burning()
        &&& forall|i: int|
            0 <= i < GRID_CELLS && (#[trigger] self.cells[i]).is_burning()
                ==> self.fires.contains(i as usize)
        &&& self.cutting matches Some(c) ==> on_grid(c as int) && self.cells[c as int].is_cutting()
        &&& forall|i: int|
            0 <= i < GRID_CELLS && (#[trigger] self.cells[i]).is_cutting() ==> self.cutting
                == Some(i as usize)
        &&& forall|i: int| 0 <= i < GRID_CELLS ==> #[trigger] self.burnt_through(i)
    }

    /// Whether a new cut may start: none is under way.
    pub open spec fn can_act(self) -> bool {
        self.cutting is None
    }

    /// The board after a request to cut the cell at `i`. The cut starts if the
    /// cell is on the grid and intact and no other cut is under way; any other
    /// request leaves the board as it is.
    pub open spec fn cut(self, i: int) -> BoardView {
        if self.can_act() && on_grid(i) && self.cells[i].is_intact() {
            BoardView {
                cells: self.cells.update(i, self.cells[i].felled(self.rules)),
                cutting: Some(i as usize),
                ..self
            }
        } else {
            self
        }
    }

    /// The board with the given grid and neither a fire nor a cut.
    pub open spec fn blank(
        width: int,
        height: int,
        rules: Rules,
        fire_start: int,
        cells: Seq<Cell>,
    ) -> BoardView {
        BoardView { width, height, rules, fire_start, cells, fires: Seq::empty(), cutting: None }
    }

    /// The board with the given grid before any turn: no cut under way, and
    /// the cell at `fire_start` on fire if it is flammable.
    pub open spec fn start(
        width: int,
        height: int,
        rules: Rules,
        fire_start: int,
        cells: Seq<Cell>,
    ) -> BoardView {
        let lit = ignite(rules, cells, Seq::<usize>::empty(), fire_start);
        BoardView { width, height, rules, fire_start, cells: lit.0, fires: lit.1, cutting: None }
    }

    /// The grid with every cell as it was before any fire or cut.
    pub open spec fn pristine_cells(self) -> Seq<Cell> {
        Seq::new(self.cells.len(), |i: int| self.cells[i].pristine())
    }

    /// The board taken back to turn zero.
    pub open spec fn reset(self) -> BoardView {
        BoardView::start(
            self.width,
            self.height,
            self.rules,
            self.fire_start,
            self.pristine_cells(),
        )
    }

    /// The cell at `i` after one turn: a burning cell and a cell being cut
    /// age by one turn, an intact cell catches fire if the fire arrives, and
    /// every other cell stays as it is.
    pub open spec fn next_cell(self, i: int) -> Cell {
        let cell = self.cells[i];
        if cell.is_intact() {
            if self.fire_arrives(i) {
                cell.lit(self.rules)
            } else {
                cell
            }
        } else {
            cell.aged()
        }
    }

    /// `fires` with `i` added at its end if the cell at `i` is intact and not
    /// yet listed.
    pub open spec fn spread_to(self, fires: Seq<usize>, i: int) -> Seq<usize> {
        if on_grid(i) && self.cells[i].is_intact() && !fires.contains(i as usize) {
            fires.push(i as usize)
        } else {
            fires
        }
    }

    /// The list of fires of the next turn after the first `k` fires of this
    /// turn have been handled, in order: a cell that keeps burning is listed
    /// again; one that collapses lists instead its intact neighbours above,
    /// below, to the left and to the right, in that order, as far as they are
    /// not yet listed.
    pub open spec fn next_fires(self, k: int) -> Seq<usize>
        decreases k,
    {
        if k <= 0 {
            Seq::empty()
        } else {
            let before = self.next_fires(k - 1);
            let f = self.fires[k - 1];
            if self.cells[f as int].is_collapsing() {
                self.spread_to(
                    self.spread_to(
                        self.spread_to(self.spread_to(before, f - STRIDE), f + STRIDE),
                        f - 1,
                    ),
                    f + 1,
                )
            } else {
                before.push(f)
            }
        }
    }

    /// The cut that is under way after one turn: none if it completes in this
    /// turn or none was under way.
    pub open spec fn next_cutting(self) -> Option<usize> {
        match self.cutting {
            Some(c) => if self.cells[c as int].is_cutting() && self.cells[c as int].timer() != 1 {
                Some(c)
            } else {
                None
            },
            None => None,
        }
    }

    /// The board after one turn.
    pub open spec fn step(self) -> BoardView {
        BoardView {
            cells: Seq::new(self.cells.len(), |i: int| self.next_cell(i)),
            fires: self.next_fires(self.fires.len() as int),
            cutting: self.next_cutting(),
            ..self
        }
    }

    /// Whether the fire has burnt out.
    pub open spec fn burnt_out(self) -> bool {
        self.fires.len() == 0
    }
}

} // verus!

//! The simulation engine: a grid of cells with the fire that spreads over it
//! and the cuts that are made in it, advanced one turn at a time.

use vstd::prelude::*;
use crate::dynamics::{lemma_cut_wf, lemma_reset_wf, lemma_same_frame, lemma_score_bounds,
    lemma_start_wf, lemma_step_fuel, lemma_step_wf};
use crate::turn::{lemma_burn_done, lemma_burn_pending};
use crate::model::{BoardView, GRID_CELLS, STRIDE, ignite, is_interior, same_frame, valid_start};
use crate::sums::{prefix_sum, lemma_prefix_sum_step, lemma_prefix_sum_full,
    lemma_prefix_sum_monotonic, lemma_prefix_sum_skip_zeros};

pub use crate::cell::{Cell, Rules};

verus! {

/// A grid of cells, stored row by row with `STRIDE` cells to the row, with
/// the constants of the simulation, the place where the fire starts, the list
/// of the cells that burn and the cut that is under way.
pub struct Board {
    width: usize,
    height: usize,
    rules: Rules,
    fire_start: usize,
    cells: [Cell; 2500],
    fires: Vec<usize>,
    cutting: Option<usize>,
}

impl View for Board {
    type V = BoardView;

    closed spec fn view(&self) -> BoardView {
        BoardView {
            width: self.width as int,
            height: self.height as int,
            rules: self.rules,
            fire_start: self.fire_start as int,
            cells: self.cells@,
            fires: self.fires@,
            cutting: self.cutting,
        }
    }
}

/// The constants of a simulation, from the six numbers that make them up.
pub open spec fn rules_of(
    tree_cut_duration: i32,
    tree_fire_duration: i32,
    tree_value: i32,
    house_cut_duration: i32,
    house_fire_duration: i32,
    house_value: i32,
) -> Rules {
    Rules {
        tree_cut_duration,
        tree_fire_duration,
        tree_value,
        house_cut_duration,
        house_fire_duration,
        house_value,
    }
}
impl Board {
    /// Validity of the board: that of its view.
    pub open spec fn wf(&self) -> bool {
        self@.wf()
    }

    /// A board at turn zero. The cell at `fire_start` burns if it is
    /// flammable.
    ///
    /// The grid has `height` rows of `width` cells; the cell of row `r` and
    /// column `c` is `cells[r * STRIDE + c]`. The first and last row and
    /// column are the border and hold empty cells, as does every stored cell
    /// beyond them. `Board::accepts` tests what is required here.
    pub fn new(
        width: usize,
        height: usize,
        tree_cut_duration: i32,
        tree_fire_duration: i32,
        tree_value: i32,
        house_cut_duration: i32,
        house_fire_duration: i32,
        house_value: i32,
        fire_start: usize,
        cells: [Cell; 2500],
    ) -> (board: Board)
        requires
            valid_start(
                width as int,
                height as int,
                rules_of(
                    tree_cut_duration,
                    tree_fire_duration,
                    tree_value,
                    house_cut_duration,
                    house_fire_duration,
                    house_value,
                ),
                fire_start as int,
                cells@,
            ),
        ensures
            board.wf(),
            board@ == BoardView::start(
                width as int,
                height as int,
                rules_of(
                    tree_cut_duration,
                    tree_fire_duration,
                    tree_value,
                    house_cut_duration,
                    house_fire_duration,
                    house_value,
                ),
                fire_start as int,
                cells@,
            ),
    {
        let rules = Rules {
            tree_cut_duration,
            tree_fire_duration,
            tree_value,
            house_cut_duration,
            house_fire_duration,
            house_value,
        };
        let mut board = Board {
            width,
            height,
            rules,
            fire_start,
            cells,
            fires: Vec::new(),
            cutting: None,
        };
        board.set_fire(fire_start);
        proof {
            lemma_start_wf(width as int, height as int, rules, fire_start as int, cells@);
        }
        board
    }

    /// Whether a board can be made of these values: whether they are what
    /// `Board::new` requires.
    ///
    /// That is: a width and a height from 2 to `STRIDE`; a start of the fire on
    /// the grid; durations of at least one turn and values that are not
    /// negative; every cell a tree, a house or empty, and empty unless it lies
    /// inside the border; and a total value, a total burning time and a total
    /// cutting time that fit a 32-bit integer.
    pub fn accepts(
        width: usize,
        height: usize,
        tree_cut_duration: i32,
        tree_fire_duration: i32,
        tree_value: i32,
        house_cut_duration: i32,
        house_fire_duration: i32,
        house_value: i32,
        fire_start: usize,
        cells: &[Cell; 2500],
    ) -> (ok: bool)
        ensures
            ok == valid_start(
                width as int,
                height as int,
                rules_of(
                    tree_cut_duration,
                    tree_fire_duration,
                    tree_value,
                    house_cut_duration,
                    house_fire_duration,
                    house_value,
                ),
                fire_start as int,
                cells@,
            ),
    {
        let ghost rules = rules_of(
            tree_cut_duration,
            tree_fire_duration,
            tree_value,
            house_cut_duration,
            house_fire_duration,
            house_value,
        );
        let ghost blank = BoardView::blank(
            width as int,
            height as int,
            rules,
            fire_start as int,
            cells@,
        );
        if width < 2 || width > 50 || height < 2 || height > 50 || fire_start >= 2500 {
            return false;
        }
        if tree_cut_duration < 1 || tree_fire_duration < 1 || tree_value < 0
            || house_cut_duration < 1 || house_fire_duration < 1 || house_value < 0 {
            return false;
        }
        let mut value: i64 = 0;
        let mut fuel: i64 = 0;
        let mut cut_time: i64 = 0;
        let mut i: usize = 0;
        proof {
            lemma_prefix_sum_full(blank.initial_values());
            lemma_prefix_sum_full(blank.initial_fuels());
            lemma_prefix_sum_full(blank.initial_cut_durations());
        }
        while i < 2500
            invariant
                i <= GRID_CELLS,
                2 <= width <= STRIDE,
                2 <= height <= STRIDE,
                rules.wf(),
                rules == rules_of(
                    tree_cut_duration,
                    tree_fire_duration,
                    tree_value,
                    house_cut_duration,
                    house_fire_duration,
                    house_value,
                ),
                blank == BoardView::blank(
                    width as int,
                    height as int,
                    rules,
                    fire_start as int,
                    cells@,
                ),
                forall|j: int| 0 <= j < i ==> cells@[j] == (#[trigger] cells@[j]).pristine(),
                forall|j: int|
                    0 <= j < i && !is_interior(width as int, height as int, j) ==>
                        #[trigger] cells@[j]
                        == Cell::Empty,
                value == prefix_sum(blank.initial_values(), i as int),
                fuel == prefix_sum(blank.initial_fuels(), i as int),
                cut_time == prefix_sum(blank.initial_cut_durations(), i as int),
                0 <= value <= i * 0x8000_0000,
                0 <= fuel <= i * 0x8000_0000,
                0 <= cut_time <= i * 0x8000_0000,
            decreases GRID_CELLS - i,
        {
            let row = i / 50;
            let col = i % 50;
            let inside = 1 <= row && row + 1 < height && 1 <= col && col + 1 < width;
            proof {
                lemma_prefix_sum_step(blank.initial_values(), i as int);
                lemma_prefix_sum_step(blank.initial_fuels(), i as int);
                lemma_prefix_sum_step(blank.initial_cut_durations(), i as int);
            }
            match cells[i] {
                Cell::Tree => {
                    if !inside {
                        return false;
                    }
                    value += tree_value as i64;
                    fuel += tree_fire_duration as i64 + 1;
                    cut_time += tree_cut_duration as i64;
                },
                Cell::House => {
                    if !inside {
                        return false;
                    }
                    value += house_value as i64;
                    fuel += house_fire_duration as i64 + 1;
                    cut_time += house_cut_duration as i64;
                },
                Cell::Empty => {},
                _ => {
                    return false;
                },
            }
            i += 1;
        }
        value <= i32::MAX as i64 && fuel <= i32::MAX as i64 && cut_time <= i32::MAX as i64
    }

    /// Number of rows in use, the border rows included.
    pub fn get_height(&self) -> (height: usize)
        ensures
            height == self@.height,
    {
        self.height
    }

    /// Number of columns in use, the border columns included.
    pub fn get_width(&self) -> (width: usize)
        ensures
            width == self@.width,
    {
        self.width
    }

    /// The cell stored at `idx`.
    pub fn get_cell(&self, idx: usize) -> (cell: &Cell)
        requires
            idx < GRID_CELLS,
        ensures
            *cell == self@.cells[idx as int],
    {
        &self.cells[idx]
    }

    /// Takes the board back to turn zero: every cell as it was before any
    /// fire or cut, no cut under way, and the cell where the fire starts on
    /// fire again.
    pub fn reset(&mut self)
        requires
            old(self).wf(),
        ensures
            final(self).wf(),
            final(self)@ == old(self)@.reset(),
            final(self)@.reset() == final(self)@,
            same_frame(old(self)@, final(self)@),
    {
        let ghost v = self@;
        proof {
            lemma_reset_wf(v);
            lemma_same_frame(v, v.reset());
        }
        let mut row: usize = 1;
        while row < self.height - 1
            invariant
                v.wf(),
                1 <= row <= self.height - 1,
                self@.width == v.width,
                self@.height == v.height,
                self@.rules == v.rules,
                self@.fire_start == v.fire_start,
                self@.cells.len() == GRID_CELLS,
                forall|i: int|
                    0 <= i < GRID_CELLS ==> #[trigger] self@.cells[i] == (if i < row * STRIDE {
                        v.cells[i].pristine()
                    } else {
                        v.cells[i]
                    }),
            decreases self.height - row,
        {
            let mut col: usize = 1;
            while col < self.width - 1
                invariant
                    v.wf(),
                    1 <= row < self.height - 1,
                    1 <= col <= self.width - 1,
                    self@.width == v.width,
                    self@.height == v.height,
                    self@.rules == v.rules,
                    self@.fire_start == v.fire_start,
                    self@.cells.len() == GRID_CELLS,
                    forall|i: int|
                        0 <= i < GRID_CELLS ==> #[trigger] self@.cells[i] == (if i < row * STRIDE
                            + col {
                            v.cells[i].pristine()
                        } else {
                            v.cells[i]
                        }),
                decreases self.width - col,
            {
                let idx = row * 50 + col;
                match self.cells[idx] {
                    Cell::TreeBurning(_) => self.cells[idx] = Cell::Tree,
                    Cell::HouseBurning(_) => self.cells[idx] = Cell::House,
                    Cell::HouseBurnt => self.cells[idx] = Cell::House,
                    Cell::TreeBurnt => self.cells[idx] = Cell::Tree,
                    Cell::TreeCutting(_) => self.cells[idx] = Cell::Tree,
                    Cell::HouseCutting(_) => self.cells[idx] = Cell::House,
                    Cell::HouseCut => self.cells[idx] = Cell::House,
                    Cell::TreeCut => self.cells[idx] = Cell::Tree,
                    _ => {},
                }
                col += 1;
            }
            row += 1;
        }
        proof {
            assert(self@.cells =~= v.pristine_cells());
        }
        self.fires.clear();
        self.cutting = None;
        self.set_fire(self.fire_start);
    }

    /// Advances the simulation by one turn and says whether the fire has
    /// burnt out.
    ///
    /// Every burning cell burns down by one turn; one that was in its last
    /// turn collapses and sets its intact orthogonal neighbours on fire. The
    /// cell that is being cut gets one turn nearer to cleared. A turn with a
    /// fire uses up fuel, so the fire burns out after at most
    /// `old(self)@.fuel()` turns.
    pub fn step(&mut self) -> (ended: bool)
        requires
            old(self).wf(),
        ensures
            final(self).wf(),
            final(self)@ == old(self)@.step(),
            same_frame(old(self)@, final(self)@),
            ended == final(self)@.burnt_out(),
            0 <= final(self)@.fuel() <= old(self)@.fuel(),
            !old(self)@.burnt_out() ==> final(self)@.fuel() < old(self)@.fuel(),
            old(self)@.burnt_out() ==> ended,
    {
        let ghost v = self@;
        proof {
            lemma_step_wf(v);
            lemma_step_fuel(v);
        }
        let curr_fires = self.fires.clone();
        self.fires.clear();
        let mut k: usize = 0;
        while k < curr_fires.len()
            invariant
                v.wf(),
                curr_fires@ == v.fires,
                k <= curr_fires.len(),
                self@.width == v.width,
                self@.height == v.height,
                self@.rules == v.rules,
                self@.fire_start == v.fire_start,
                self@.cutting == v.cutting,
                (self@.cells, self@.fires) == v.burn(k as int),
            decreases curr_fires.len() - k,
        {
            let idx = curr_fires[k];
            proof {
                lemma_burn_pending(v, k as int);
            }
            match self.cells[idx] {
                Cell::TreeBurning(1) => {
                    self.cells[idx] = Cell::TreeBurnt;
                    self.propagate_fire(idx);
                },
                Cell::HouseBurning(1) => {
                    self.cells[idx] = Cell::HouseBurnt;
                    self.propagate_fire(idx);
                },
                Cell::TreeBurning(turns) => {
                    self.cells[idx] = Cell::TreeBurning(turns - 1);
                    self.fires.push(idx);
                },
                Cell::HouseBurning(turns) => {
                    self.cells[idx] = Cell::HouseBurning(turns - 1);
                    self.fires.push(idx);
                },
                _ => {},
            }
            k += 1;
        }
        proof {
            lemma_burn_done(v);
        }
        match self.cutting {
            Some(c) => {
                assert(v.timer_in_range(c as int));
                match self.cells[c] {
                    Cell::TreeCutting(1) => {
                        self.cells[c] = Cell::TreeCut;
                        self.cutting = None;
                    },
                    Cell::HouseCutting(1) => {
                        self.cells[c] = Cell::HouseCut;
                        self.cutting = None;
                    },
                    Cell::TreeCutting(turns) => {
                        self.cells[c] = Cell::TreeCutting(turns - 1);
                    },
                    Cell::HouseCutting(turns) => {
                        self.cells[c] = Cell::HouseCutting(turns - 1);
                    },
                    _ => {},
                }
            },
            None => {},
        }
        proof {
            assert(self@.cells =~= v.step().cells);
        }
        self.fires.is_empty()
    }

    /// Whether a new cut may start: none is under way.
    pub fn can_act(&self) -> (ready: bool)
        requires
            self.wf(),
        ensures
            ready == self@.can_act(),
    {
        match self.cutting {
            None => true,
            Some(c) => {
                assert(self@.timer_in_range(c as int));
                match self.cells[c] {
                    Cell::TreeCutting(turns) => turns == 0,
                    Cell::HouseCutting(turns) => turns == 0,
                    _ => true,
                }
            },
        }
    }

    /// Starts to cut the cell at `idx` if it is on the grid and intact and no
    /// other cut is under way. Any other request is ignored.
    pub fn cut(&mut self, idx: usize)
        requires
            old(self).wf(),
        ensures
            final(self).wf(),
            final(self)@ == old(self)@.cut(idx as int),
            same_frame(old(self)@, final(self)@),
    {
        proof {
            lemma_cut_wf(self@, idx as int);
        }
        if idx >= GRID_CELLS || !self.can_act() {
            return ;
        }
        match self.cells[idx] {
            Cell::Tree => {
                self.cells[idx] = Cell::TreeCutting(self.rules.tree_cut_duration);
                self.cutting = Some(idx);
            },
            Cell::House => {
                self.cells[idx] = Cell::HouseCutting(self.rules.house_cut_duration);
                self.cutting = Some(idx);
            },
            _ => {},
        }
    }

    /// Points that the cell at `idx` is worth as it stands.
    pub fn get_value(&self, idx: usize) -> (value: i32)
        requires
            idx < GRID_CELLS,
        ensures
            value == self@.rules.value(self@.cells[idx as int]),
    {
        match self.cells[idx] {
            Cell::Tree => self.rules.tree_value,
            Cell::House => self.rules.house_value,
            _ => 0,
        }
    }

    /// Indices of the burning cells, in the order in which the next turn
    /// handles them.
    pub fn get_fire(&self) -> (fires: &Vec<usize>)
        ensures
            fires@ == self@.fires,
    {
        &self.fires
    }

    /// Turns that cutting the cell at `idx` would take.
    pub fn get_cut_duration(&self, idx: usize) -> (duration: i32)
        requires
            idx < GRID_CELLS,
        ensures
            duration == self@.rules.cut_duration(self@.cells[idx as int]),
    {
        match self.cells[idx] {
            Cell::Tree => self.rules.tree_cut_duration,
            Cell::House => self.rules.house_cut_duration,
            Cell::HouseBurning(_) => self.rules.house_cut_duration,
            Cell::TreeBurning(_) => self.rules.tree_cut_duration,
            _ => 0,
        }
    }

    /// Sets the four orthogonal neighbours of the cell at `idx` on fire, as
    /// far as they are intact: above, below, left, right.
    fn propagate_fire(&mut self, idx: usize)
        requires
            STRIDE <= idx < GRID_CELLS - STRIDE,
        ensures
            (final(self)@.cells, final(self)@.fires) == ({
                let v = old(self)@;
                let up = ignite(v.rules, v.cells, v.fires, idx - STRIDE);
                let down = ignite(v.rules, up.0, up.1, idx + STRIDE);
                let left = ignite(v.rules, down.0, down.1, idx - 1);
                ignite(v.rules, left.0, left.1, idx + 1)
            }),
            final(self)@.width == old(self)@.width,
            final(self)@.height == old(self)@.height,
            final(self)@.rules == old(self)@.rules,
            final(self)@.fire_start == old(self)@.fire_start,
            final(self)@.cutting == old(self)@.cutting,
    {
        self.set_fire(idx - 50);
        self.set_fire(idx + 50);
        self.set_fire(idx - 1);
        self.set_fire(idx + 1);
    }

    /// Sets the cell at `idx` on fire if it is intact.
    fn set_fire(&mut self, idx: usize)
        requires
            idx < GRID_CELLS,
        ensures
            (final(self)@.cells, final(self)@.fires) == ignite(
                old(self)@.rules,
                old(self)@.cells,
                old(self)@.fires,
                idx as int,
            ),
            final(self)@.width == old(self)@.width,
            final(self)@.height == old(self)@.height,
            final(self)@.rules == old(self)@.rules,
            final(self)@.fire_start == old(self)@.fire_start,
            final(self)@.cutting == old(self)@.cutting,
    {
        match self.cells[idx] {
            Cell::Tree => {
                self.cells[idx] = Cell::TreeBurning(self.rules.tree_fire_duration);
                self.fires.push(idx);
            },
            Cell::House => {
                self.cells[idx] = Cell::HouseBurning(self.rules.house_fire_duration);
                self.fires.push(idx);
            },
            _ => {},
        }
    }

    /// The score: the sum of the points of all cells as they stand. It lies
    /// between zero and the sum of the initial values of all cells.
    pub fn score(&self) -> (score: i32)
        requires
            self.wf(),
        ensures
            score == self@.score(),
            0 <= score <= self@.initial_value(),
    {
        let ghost values = self@.values();
        proof {
            lemma_score_bounds(self@);
            lemma_prefix_sum_full(values);
            self.lemma_border_worthless(0, STRIDE as int);
        }
        let mut score: i32 = 0;
        let mut row: usize = 1;
        while row < self.height - 1
            invariant
                self.wf(),
                values == self@.values(),
                1 <= row <= self.height - 1,
                prefix_sum(values, GRID_CELLS as int) == self@.score() <= i32::MAX,
                score == prefix_sum(values, row * STRIDE as int),
            decreases self.height - row,
        {
            let mut col: usize = 1;
            proof {
                self.lemma_border_worthless(row * STRIDE as int, row * STRIDE + 1);
            }
            while col < self.width - 1
                invariant
                    self.wf(),
                    values == self@.values(),
                    1 <= row < self.height - 1,
                    1 <= col <= self.width - 1,
                    prefix_sum(values, GRID_CELLS as int) == self@.score() <= i32::MAX,
                    score == prefix_sum(values, row * STRIDE + col),
                decreases self.width - col,
            {
                let idx = row * 50 + col;
                proof {
                    lemma_prefix_sum_step(values, idx as int);
                    lemma_prefix_sum_monotonic(values, idx + 1, GRID_CELLS as int);
                }
                score += self.get_value(idx);
                col += 1;
            }
            proof {
                self.lemma_border_worthless(row * STRIDE + col, (row + 1) * STRIDE as int);
            }
            row += 1;
        }
        proof {
            self.lemma_border_worthless(row * STRIDE as int, GRID_CELLS as int);
        }
        score
    }

    /// The cells from `from` up to `to` add nothing to the score if none of
    /// them lies inside the border.
    proof fn lemma_border_worthless(&self, from: int, to: int)
        requires
            self.wf(),
            0 <= from <= to <= GRID_CELLS,
            forall|i: int| from <= i < to ==> !self@.interior(i),
        ensures
            prefix_sum(self@.values(), from) == prefix_sum(self@.values(), to),
    {
        let values = self@.values();
        lemma_prefix_sum_skip_zeros(values, from, to);
    }
}

} // verus!

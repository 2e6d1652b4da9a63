//! What every turn, cut and reset keeps true of a board: its validity, the
//! bounds of its score, and the fuel that each turn of fire uses up.

use vstd::prelude::*;
use crate::cell::{Cell, Rules};
use crate::lists::{lemma_push_contains, lemma_push_no_duplicates, lemma_empty_contains};
use crate::model::{BoardView, GRID_CELLS, STRIDE, on_grid, valid_start, same_frame};
use crate::sums::{sum, lemma_sum_nonnegative, lemma_sum_pointwise_le, lemma_sum_pointwise_lt};

verus! {

impl BoardView {
    /// Whether `x` is among the first `k` fires of this turn.
    pub open spec fn handled(self, x: usize, k: int) -> bool {
        exists|j: int| 0 <= j < k && j < self.fires.len() && #[trigger] self.fires[j] == x
    }

    /// Whether the cell at `x` burns after this turn: it burns now and does
    /// not collapse, or it is intact and the fire arrives.
    pub open spec fn burns_next(self, x: int) -> bool {
        &&& on_grid(x)
        &&& (self.cells[x].is_burning() && !self.cells[x].is_collapsing()) || (
        self.cells[x].is_intact() && self.fire_arrives(x))
    }

    /// Whether `x` has its place in the next list of fires once the first `k`
    /// fires of this turn are handled.
    pub open spec fn claims(self, x: usize, k: int) -> bool {
        &&& self.burns_next(x as int)
        &&& self.cells[x as int].is_burning() ==> self.handled(x, k)
    }

    /// Whether `fires` lists the cell at `m` in case it is an intact cell of
    /// the grid.
    pub open spec fn covers(self, fires: Seq<usize>, m: int) -> bool {
        on_grid(m) && self.cells[m].is_intact() ==> fires.contains(m as usize)
    }

    /// Whether `fires` holds all that the `j`-th fire of this turn leaves
    /// behind: itself if it keeps burning, else its intact neighbours.
    pub open spec fn settled(self, fires: Seq<usize>, j: int) -> bool {
        let f = self.fires[j];
        if self.cells[f as int].is_collapsing() {
            &&& self.covers(fires, f - STRIDE)
            &&& self.covers(fires, f + STRIDE)
            &&& self.covers(fires, f - 1)
            &&& self.covers(fires, f + 1)
        } else {
            fires.contains(f)
        }
    }

    /// What holds of the next list of fires once the first `k` fires of this
    /// turn are handled.
    pub open spec fn fires_progress(self, fires: Seq<usize>, k: int) -> bool {
        &&& fires.no_duplicates()
        &&& forall|x: usize| #[trigger] fires.contains(x) ==> self.claims(x, k)
        &&& forall|j: int| 0 <= j < k ==> #[trigger] self.settled(fires, j)
    }
}

/// Boards of the same frame are valid in their frame together.
pub proof fn lemma_same_frame(a: BoardView, b: BoardView)
    requires
        a.frame_wf(),
        same_frame(a, b),
    ensures
        b.frame_wf(),
        b.initial_value() == a.initial_value(),
        b.initial_fuel() == a.initial_fuel(),
        b.initial_cut_time() == a.initial_cut_time(),
        b.pristine_cells() == a.pristine_cells(),
        b.reset() == a.reset(),
{
    assert(b.initial_values() =~= a.initial_values());
    assert(b.initial_fuels() =~= a.initial_fuels());
    assert(b.initial_cut_durations() =~= a.initial_cut_durations());
}

/// The score of a board lies between zero and the sum of the initial values
/// of its cells, which fits a 32-bit integer.
pub proof fn lemma_score_bounds(v: BoardView)
    requires
        v.frame_wf(),
    ensures
        0 <= v.score() <= v.initial_value() <= i32::MAX,
{
    lemma_sum_nonnegative(v.values());
    lemma_sum_pointwise_le(v.values(), v.initial_values());
}

/// What one call of `spread_to` does to a list of fires.
pub proof fn lemma_spread_to(v: BoardView, fires: Seq<usize>, m: int)
    requires
        fires.no_duplicates(),
    ensures
        v.spread_to(fires, m).no_duplicates(),
        forall|x: usize|
            #[trigger] v.spread_to(fires, m).contains(x) <==> (fires.contains(x) || (x == m
                && on_grid(m) && v.cells[m].is_intact())),
{
    let r = v.spread_to(fires, m);
    if on_grid(m) && v.cells[m].is_intact() && !fires.contains(m as usize) {
        assert forall|x: usize| #[trigger] r.contains(x) <==> (fires.contains(x) || (x == m
            && on_grid(m) && v.cells[m].is_intact())) by {
            lemma_push_contains(fires, m as usize, x);
        }
    }
}

/// The next list of fires holds, each once, the cells that burn after the
/// turn, as far as the fires handled so far decide.
pub proof fn lemma_next_fires(v: BoardView, k: int)
    requires
        v.wf(),
        0 <= k <= v.fires.len(),
    ensures
        v.fires_progress(v.next_fires(k), k),
    decreases k,
{
    if k <= 0 {
        lemma_empty_contains::<usize>(0);
        assert forall|x: usize| #[trigger] v.next_fires(k).contains(x) implies v.claims(x, k) by {
            lemma_empty_contains::<usize>(x);
        }
    } else {
        lemma_next_fires(v, k - 1);
        let before = v.next_fires(k - 1);
        let after = v.next_fires(k);
        let f = v.fires[k - 1];
        assert(on_grid(f as int) && v.cells[f as int].is_burning());
        assert(v.handled(f, k));
        if v.cells[f as int].is_collapsing() {
            let s1 = v.spread_to(before, f - STRIDE);
            let s2 = v.spread_to(s1, f + STRIDE);
            let s3 = v.spread_to(s2, f - 1);
            let s4 = v.spread_to(s3, f + 1);
            lemma_spread_to(v, before, f - STRIDE);
            lemma_spread_to(v, s1, f + STRIDE);
            lemma_spread_to(v, s2, f - 1);
            lemma_spread_to(v, s3, f + 1);
            assert(after == s4);
            assert(v.collapsing(f as int));
            assert forall|x: usize| #[trigger] after.contains(x) implies v.claims(x, k) by {
                if before.contains(x) {
                    assert(v.claims(x, k - 1));
                    if v.cells[x as int].is_burning() {
                        let j = choose|j: int|
                            0 <= j < k - 1 && j < v.fires.len() && #[trigger] v.fires[j] == x;
                        assert(v.fires[j] == x);
                    }
                } else {
                    assert(s1.contains(x) || s2.contains(x) || s3.contains(x) || s4.contains(x));
                    assert(x == f - STRIDE || x == f + STRIDE || x == f - 1 || x == f + 1);
                    assert(v.cells[x as int].is_intact());
                    assert(v.fire_arrives(x as int));
                }
            }
            assert forall|j: int| 0 <= j < k implies #[trigger] v.settled(after, j) by {
                if j < k - 1 {
                    assert(v.settled(before, j));
                    let g = v.fires[j];
                    if v.cells[g as int].is_collapsing() {
                        assert(v.covers(before, g - STRIDE));
                        assert(v.covers(before, g + STRIDE));
                        assert(v.covers(before, g - 1));
                        assert(v.covers(before, g + 1));
                    } else {
                        assert(before.contains(g));
                    }
                } else {
                    assert(v.covers(after, f - STRIDE));
                    assert(v.covers(after, f + STRIDE));
                    assert(v.covers(after, f - 1));
                    assert(v.covers(after, f + 1));
                }
            }
        } else {
            assert(after == before.push(f));
            if before.contains(f) {
                assert(v.claims(f, k - 1));
                let j = choose|j: int|
                    0 <= j < k - 1 && j < v.fires.len() && #[trigger] v.fires[j] == f;
                assert(v.fires[j] == v.fires[k - 1]);
                assert(false);
            }
            lemma_push_no_duplicates(before, f);
            assert forall|x: usize| #[trigger] after.contains(x) implies v.claims(x, k) by {
                lemma_push_contains(before, f, x);
                if before.contains(x) {
                    assert(v.claims(x, k - 1));
                    if v.cells[x as int].is_burning() {
                        let j = choose|j: int|
                            0 <= j < k - 1 && j < v.fires.len() && #[trigger] v.fires[j] == x;
                        assert(v.fires[j] == x);
                    }
                } else {
                    assert(x == f);
                    assert(v.timer_in_range(f as int));
                }
            }
            assert forall|j: int| 0 <= j < k implies #[trigger] v.settled(after, j) by {
                if j < k - 1 {
                    assert(v.settled(before, j));
                    let g = v.fires[j];
                    lemma_push_contains(before, f, g);
                    lemma_push_contains(before, f, (g - STRIDE) as usize);
                    lemma_push_contains(before, f, (g + STRIDE) as usize);
                    lemma_push_contains(before, f, (g - 1) as usize);
                    lemma_push_contains(before, f, (g + 1) as usize);
                } else {
                    lemma_push_contains(before, f, f);
                }
            }
        }
    }
}

/// One turn keeps a valid board valid and in its frame.
pub proof fn lemma_step_wf(v: BoardView)
    requires
        v.wf(),
    ensures
        v.step().wf(),
        same_frame(v, v.step()),
{
    let s = v.step();
    let n = v.fires.len() as int;
    lemma_next_fires(v, n);
    lemma_same_frame(v, s);
    assert forall|i: int| 0 <= i < GRID_CELLS implies #[trigger] s.timer_in_range(i) by {
        assert(v.timer_in_range(i));
    }
    assert forall|k: int| 0 <= k < s.fires.len() implies on_grid(#[trigger] s.fires[k] as int)
        && s.cells[s.fires[k] as int].is_burning() by {
        let x = s.fires[k];
        assert(s.fires.contains(x));
    }
    assert forall|i: int|
        0 <= i < GRID_CELLS && (#[trigger] s.cells[i]).is_burning() implies s.fires.contains(
        i as usize,
    ) by {
        if v.cells[i].is_burning() {
            let j = choose|j: int| 0 <= j < v.fires.len() && v.fires[j] == i as usize;
            assert(v.settled(s.fires, j));
        } else {
            lemma_step_covers(v, i);
        }
    }
    assert forall|i: int| 0 <= i < GRID_CELLS implies #[trigger] s.burnt_through(i) by {
        if s.cells[i].is_burnt() {
            assert(v.burnt_through(i));
        }
    }
}

/// After the whole turn, the next list of fires holds every intact cell that
/// the fire reaches.
pub proof fn lemma_step_covers(v: BoardView, i: int)
    requires
        v.wf(),
        on_grid(i),
        v.cells[i].is_intact(),
        v.fire_arrives(i),
        v.fires_progress(v.next_fires(v.fires.len() as int), v.fires.len() as int),
    ensures
        v.next_fires(v.fires.len() as int).contains(i as usize),
{
    let nf = v.next_fires(v.fires.len() as int);
    let m = if v.collapsing(i - STRIDE) {
        i - STRIDE
    } else if v.collapsing(i + STRIDE) {
        i + STRIDE
    } else if v.collapsing(i - 1) {
        i - 1
    } else {
        i + 1
    };
    let j = choose|j: int| 0 <= j < v.fires.len() && v.fires[j] == m as usize;
    assert(v.settled(nf, j));
}

/// The fuel of a valid board is not negative, no turn adds to it, and a turn
/// with a fire uses some of it up. A turn without a fire leaves the board
/// without a fire and its score as it is.
pub proof fn lemma_step_fuel(v: BoardView)
    requires
        v.wf(),
    ensures
        0 <= v.step().fuel() <= v.fuel() <= v.initial_fuel(),
        !v.burnt_out() ==> v.step().fuel() < v.fuel(),
        v.burnt_out() ==> v.step().burnt_out() && v.step().score() == v.score(),
        v.step().score() <= v.score(),
{
    let s = v.step();
    lemma_step_wf(v);
    assert forall|i: int| 0 <= i < s.fuels().len() implies s.fuels()[i] >= 0 by {
        assert(s.timer_in_range(i));
    }
    lemma_sum_nonnegative(s.fuels());
    assert forall|i: int| 0 <= i < s.fuels().len() implies s.fuels()[i] <= v.fuels()[i] by {
        assert(v.timer_in_range(i));
    }
    lemma_sum_pointwise_le(s.fuels(), v.fuels());
    assert forall|i: int| 0 <= i < v.fuels().len() implies v.fuels()[i] <= v.initial_fuels()[i] by {
        assert(v.timer_in_range(i));
    }
    lemma_sum_pointwise_le(v.fuels(), v.initial_fuels());
    lemma_sum_pointwise_le(s.values(), v.values());
    if !v.burnt_out() {
        let f = v.fires[0] as int;
        lemma_sum_pointwise_lt(s.fuels(), v.fuels(), f);
    } else {
        assert(s.values() =~= v.values());
    }
}

/// A request to cut keeps a valid board valid and in its frame, and adds
/// neither to its fuel nor to its score.
pub proof fn lemma_cut_wf(v: BoardView, i: int)
    requires
        v.wf(),
    ensures
        v.cut(i).wf(),
        same_frame(v, v.cut(i)),
        v.cut(i).fires == v.fires,
        0 <= v.cut(i).fuel() <= v.fuel(),
        v.cut(i).score() <= v.score(),
{
    let c = v.cut(i);
    assert forall|j: int| 0 <= j < v.fuels().len() implies v.fuels()[j] >= 0 by {
        assert(v.timer_in_range(j));
    }
    if v.can_act() && on_grid(i) && v.cells[i].is_intact() {
        lemma_same_frame(v, c);
        assert forall|j: int| 0 <= j < GRID_CELLS implies #[trigger] c.timer_in_range(j) by {
            assert(v.timer_in_range(j));
        }
        assert forall|j: int| 0 <= j < GRID_CELLS implies #[trigger] c.burnt_through(j) by {
            assert(v.burnt_through(j));
        }
        assert forall|j: int| 0 <= j < c.fuels().len() implies c.fuels()[j] >= 0 by {
            assert(c.timer_in_range(j));
        }
        lemma_sum_pointwise_le(c.fuels(), v.fuels());
        lemma_sum_pointwise_le(c.values(), v.values());
        lemma_sum_nonnegative(c.fuels());
    } else {
        lemma_sum_nonnegative(v.fuels());
    }
}

/// A board at its start is valid.
pub proof fn lemma_start_wf(
    width: int,
    height: int,
    rules: Rules,
    fire_start: int,
    cells: Seq<Cell>,
)
    requires
        valid_start(width, height, rules, fire_start, cells),
    ensures
        BoardView::start(width, height, rules, fire_start, cells).wf(),
{
    let blank = BoardView::blank(width, height, rules, fire_start, cells);
    let b = BoardView::start(width, height, rules, fire_start, cells);
    lemma_same_frame(blank, b);
    assert forall|i: int|
        0 <= i < GRID_CELLS && (#[trigger] b.cells[i]).is_burning() implies b.fires.contains(
        i as usize,
    ) by {
        assert(b.fires[0] == i as usize);
    }
}

/// A reset makes a valid board of every board with a valid frame, and keeps
/// the frame.
pub proof fn lemma_reset_wf(v: BoardView)
    requires
        v.frame_wf(),
    ensures
        v.reset().wf(),
        same_frame(v, v.reset()),
        valid_start(v.width, v.height, v.rules, v.fire_start, v.pristine_cells()),
{
    let p = v.pristine_cells();
    let blank = BoardView::blank(v.width, v.height, v.rules, v.fire_start, p);
    lemma_same_frame(v, blank);
    lemma_start_wf(v.width, v.height, v.rules, v.fire_start, p);
}

} // verus!

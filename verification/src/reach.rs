//! When the fire reaches each cell if nobody interferes: the reach turns of
//! a board, counted from the board as it stands. The planner takes them of the
//! board at turn zero.

use vstd::prelude::*;
use crate::dynamics::{lemma_step_fuel, lemma_step_wf};
use crate::model::{BoardView, GRID_CELLS, same_frame};

verus! {

/// The reach turn of a cell that the fire never reaches.
pub const NEVER: i32 = 0x7fff_ffff;

impl BoardView {
    /// Whether the cell at `i` burns after `t` steps from this board on.
    pub open spec fn burns_at(self, i: int, t: int) -> bool {
        0 <= t && self.after(t as nat).cells[i].is_burning()
    }

    /// Whether the cell at `i` burns at no turn before `turn`.
    pub open spec fn unreached_before(self, i: int, turn: int) -> bool {
        forall|t: int| 0 <= t < turn ==> !#[trigger] self.burns_at(i, t)
    }

    /// Whether the cell at `i` burns at no turn at all.
    pub open spec fn is_unreached(self, i: int) -> bool {
        forall|t: int| !#[trigger] self.burns_at(i, t)
    }

    /// Whether `r` is the reach turn of the cell at `i`: the first turn at
    /// which the cell burns, or `NEVER` if it burns at no turn.
    pub open spec fn is_reach_turn(self, i: int, r: int) -> bool {
        if r == NEVER {
            self.is_unreached(i)
        } else {
            self.burns_at(i, r) && self.unreached_before(i, r)
        }
    }

    /// The reach turn of the cell at `i`.
    pub open spec fn reach_turn(self, i: int) -> int {
        choose|r: int| self.is_reach_turn(i, r)
    }

    /// The reach turns of all cells, by index.
    pub open spec fn reach_turns(self) -> Seq<int> {
        Seq::new(GRID_CELLS as nat, |i: int| self.reach_turn(i))
    }

    /// Whether `r` is what is known of the reach turn of the cell at `i` when
    /// the turns before `turn` have been watched: the first turn at which the
    /// cell burnt, or `NEVER` if it has not burnt so far.
    pub open spec fn is_reach_so_far(self, i: int, r: int, turn: int) -> bool {
        if r == NEVER {
            self.unreached_before(i, turn)
        } else {
            0 <= r < turn && self.burns_at(i, r) && self.unreached_before(i, r)
        }
    }
}

/// A cell has one reach turn only.
pub proof fn lemma_reach_turn_unique(v: BoardView, i: int, r: int)
    requires
        v.is_reach_turn(i, r),
    ensures
        v.reach_turn(i) == r,
{
    let c = v.reach_turn(i);
    assert(v.is_reach_turn(i, c));
    if c != r {
        if r == NEVER {
            assert(v.burns_at(i, c));
        } else if c == NEVER {
            assert(v.burns_at(i, r));
        } else if c < r {
            assert(v.burns_at(i, c));
        } else {
            assert(v.burns_at(i, r));
        }
    }
}

/// Steps keep a valid board valid and in its frame.
pub proof fn lemma_after_wf(v: BoardView, n: nat)
    requires
        v.wf(),
    ensures
        v.after(n).wf(),
        same_frame(v, v.after(n)),
        0 <= v.after(n).fuel() <= v.fuel(),
    decreases n,
{
    if n > 0 {
        lemma_after_wf(v, (n - 1) as nat);
        lemma_step_wf(v.after((n - 1) as nat));
        lemma_step_fuel(v.after((n - 1) as nat));
    } else {
        lemma_step_fuel(v);
    }
}

/// Once the fire has burnt out, no step brings it back.
pub proof fn lemma_burnt_out_stays(v: BoardView, n: nat)
    requires
        v.wf(),
        v.burnt_out(),
    ensures
        v.after(n).burnt_out(),
        v.after(n).score() == v.score(),
    decreases n,
{
    if n > 0 {
        lemma_burnt_out_stays(v, (n - 1) as nat);
        lemma_after_wf(v, (n - 1) as nat);
        lemma_step_fuel(v.after((n - 1) as nat));
    }
}

/// Steps after steps are steps.
pub proof fn lemma_after_add(v: BoardView, a: nat, b: nat)
    ensures
        v.after(a).after(b) == v.after(a + b),
    decreases b,
{
    if b > 0 {
        lemma_after_add(v, a, (b - 1) as nat);
    }
}

/// Each turn with a fire uses up fuel, so the fire has burnt out after as
/// many steps as the board has fuel, and after any greater number of steps.
pub proof fn lemma_burns_out_within(v: BoardView, n: nat)
    requires
        v.wf(),
        n >= v.fuel(),
    ensures
        v.after(n).burnt_out(),
    decreases n,
{
    lemma_step_fuel(v);
    if v.burnt_out() {
        lemma_burnt_out_stays(v, n);
    } else {
        let before = v.after((n - 1) as nat);
        lemma_after_wf(v, (n - 1) as nat);
        lemma_step_fuel(before);
        if !before.burnt_out() {
            lemma_fuel_used(v, (n - 1) as nat);
            lemma_after_wf(v, n);
            lemma_step_fuel(v.after(n));
        }
    }
}

/// While the fire lasts, each step uses up at least one unit of fuel.
pub proof fn lemma_fuel_used(v: BoardView, n: nat)
    requires
        v.wf(),
        !v.after(n).burnt_out(),
    ensures
        v.after(n).fuel() + n <= v.fuel(),
    decreases n,
{
    if n > 0 {
        let before = v.after((n - 1) as nat);
        lemma_after_wf(v, (n - 1) as nat);
        lemma_step_fuel(before);
        lemma_fuel_used(v, (n - 1) as nat);
    }
}

/// What is known of a reach turn once the fire has burnt out is the reach
/// turn.
pub proof fn lemma_reach_settled(v: BoardView, i: int, r: int, turn: int)
    requires
        v.wf(),
        0 <= i < GRID_CELLS,
        0 <= turn,
        v.after(turn as nat).burnt_out(),
        v.is_reach_so_far(i, r, turn),
    ensures
        v.is_reach_turn(i, r),
        v.reach_turn(i) == r,
{
    if r == NEVER {
        assert forall|t: int| !#[trigger] v.burns_at(i, t) by {
            if t >= turn {
                lemma_after_add(v, turn as nat, (t - turn) as nat);
                lemma_after_wf(v, turn as nat);
                lemma_burnt_out_stays(v.after(turn as nat), (t - turn) as nat);
                lemma_after_wf(v, t as nat);
            }
        }
    }
}

/// A cell that burns at a turn has a first turn at which it burns.
pub proof fn lemma_first_burning(v: BoardView, i: int, t: int) -> (r: int)
    requires
        v.burns_at(i, t),
    ensures
        0 <= r <= t,
        v.burns_at(i, r),
        v.unreached_before(i, r),
    decreases t,
{
    if v.unreached_before(i, t) {
        t
    } else {
        let earlier = choose|e: int| 0 <= e < t && #[trigger] v.burns_at(i, e);
        lemma_first_burning(v, i, earlier)
    }
}

/// A cell burns only while the board has fuel: at a turn before the count of
/// its initial fuel, which fits a 32-bit integer.
pub proof fn lemma_burns_early(v: BoardView, i: int, t: int)
    requires
        v.wf(),
        0 <= i < GRID_CELLS,
        v.burns_at(i, t),
    ensures
        0 <= t < v.fuel() <= i32::MAX,
{
    let then = v.after(t as nat);
    lemma_after_wf(v, t as nat);
    lemma_fuel_used(v, t as nat);
    lemma_step_fuel(then);
    lemma_step_fuel(v);
}

/// Every cell has its reach turn.
pub proof fn lemma_reach_turn_exists(v: BoardView, i: int)
    requires
        v.wf(),
        0 <= i < GRID_CELLS,
    ensures
        v.is_reach_turn(i, v.reach_turn(i)),
        0 <= v.reach_turn(i) <= NEVER,
{
    if v.is_unreached(i) {
        assert(v.is_reach_turn(i, NEVER as int));
    } else {
        let t = choose|t: int| #[trigger] v.burns_at(i, t);
        let r = lemma_first_burning(v, i, t);
        lemma_burns_early(v, i, r);
        assert(v.is_reach_turn(i, r));
    }
    let c = v.reach_turn(i);
    if c != NEVER {
        lemma_burns_early(v, i, c);
    }
}

/// A cell whose first turn of burning is `turn` has the reach turn `turn`.
pub proof fn lemma_reached_now(v: BoardView, i: int, turn: int)
    requires
        v.wf(),
        0 <= i < GRID_CELLS,
        v.burns_at(i, turn),
        v.unreached_before(i, turn),
    ensures
        v.reach_turn(i) == turn,
{
    lemma_burns_early(v, i, turn);
    lemma_reach_turn_unique(v, i, turn);
}

/// A cell is unreached before the turn after `turn` if it is unreached before
/// `turn` and does not burn at `turn`.
pub proof fn lemma_unreached_step(v: BoardView, i: int, turn: int)
    requires
        0 <= turn,
    ensures
        v.unreached_before(i, turn + 1) <==> (v.unreached_before(i, turn) && !v.burns_at(
            i,
            turn,
        )),
{
}

/// A cell burns only at turns before the fire has burnt out.
pub proof fn lemma_burns_before_end(v: BoardView, i: int, t: int, end: int)
    requires
        v.wf(),
        0 <= i < GRID_CELLS,
        v.burns_at(i, t),
        0 <= end,
        v.after(end as nat).burnt_out(),
    ensures
        t < end,
{
    if t >= end {
        lemma_after_add(v, end as nat, (t - end) as nat);
        lemma_after_wf(v, end as nat);
        lemma_burnt_out_stays(v.after(end as nat), (t - end) as nat);
        lemma_after_wf(v, t as nat);
        assert(v.after(t as nat).fires.contains(i as usize));
    }
}

} // verus!

//! What holds of the simulation whatever the grid and the plan.

use vstd::prelude::*;
use crate::dynamics::{lemma_reset_wf, lemma_same_frame, lemma_score_bounds, lemma_step_fuel,
    lemma_step_wf};
use crate::model::{BoardView, on_grid, same_frame};
use crate::reach::lemma_burns_out_within;
use crate::replay::{lemma_evaluate_bounds, lemma_run};
use crate::shelter::lemma_extra_cut;

verus! {

/// A second reset changes nothing: the board after two resets is the board
/// after one.
pub proof fn lemma_reset_idempotent(v: BoardView)
    requires
        v.frame_wf(),
    ensures
        v.reset().reset() == v.reset(),
        v.reset().wf(),
{
    lemma_reset_wf(v);
    lemma_same_frame(v, v.reset());
}

/// The replay of a plan gives the same score on every board of the same
/// simulation, whatever state the board is in: on the board as it was handed
/// in and on the board that an earlier replay left behind.
pub proof fn lemma_replay_repeats(a: BoardView, b: BoardView, actions: Seq<usize>)
    requires
        a.frame_wf(),
        same_frame(a, b),
    ensures
        a.evaluate(actions) == b.evaluate(actions),
        a.reset().evaluate(actions) == a.evaluate(actions),
{
    lemma_same_frame(a, b);
    lemma_reset_idempotent(a);
}

/// The score of a board lies between zero and the sum of the initial values
/// of its cells, and so does the score that any plan replays to.
pub proof fn lemma_scores_bounded(v: BoardView, actions: Seq<usize>)
    requires
        v.frame_wf(),
    ensures
        0 <= v.score() <= v.initial_value(),
        0 <= v.evaluate(actions) <= v.initial_value(),
{
    lemma_score_bounds(v);
    lemma_evaluate_bounds(v, actions);
}

/// A replay without a plan is the fire left to burn out untouched.
pub proof fn lemma_run_without_plan(v: BoardView, next: int)
    requires
        v.wf(),
    ensures
        v.run(Seq::empty(), next) == v.burn_out(),
    decreases v.fuel(),
{
    let plan = Seq::<usize>::empty();
    let after = v.step();
    lemma_step_wf(v);
    lemma_step_fuel(v);
    if !after.burnt_out() {
        lemma_run_without_plan(after, v.next_action(plan, next));
    }
}

/// The empty plan replays to the score of the board on which the fire was
/// left to burn out untouched from turn zero.
pub proof fn lemma_empty_plan_lets_it_burn(v: BoardView)
    requires
        v.frame_wf(),
    ensures
        v.evaluate(Seq::empty()) == v.reset().burn_out().score(),
{
    lemma_reset_wf(v);
    lemma_run_without_plan(v.reset(), 0);
}

/// The fire burns out: after as many steps as the board has fuel, nothing
/// burns any more, whatever the grid and the durations.
pub proof fn lemma_fire_burns_out(v: BoardView)
    requires
        v.wf(),
    ensures
        v.fuel() >= 0,
        v.after(v.fuel() as nat).burnt_out(),
        v.fuel() <= v.initial_fuel() <= i32::MAX,
{
    lemma_step_fuel(v);
    lemma_burns_out_within(v, v.fuel() as nat);
}

/// Every replay comes to an end, and it ends with a valid board of the same
/// simulation on which nothing burns.
pub proof fn lemma_replay_ends(v: BoardView, actions: Seq<usize>)
    requires
        v.frame_wf(),
    ensures
        v.reset().run(actions, 0).burnt_out(),
        v.reset().run(actions, 0).wf(),
        same_frame(v, v.reset().run(actions, 0)),
{
    lemma_reset_wf(v);
    lemma_run(v.reset(), actions, 0);
}

/// One more cut never costs points if it comes at the end of the plan and
/// its cell is one that the plan loses: a cell of the grid that does not
/// stand intact when the replay of the plan ends. The plan with that cut
/// replays to at least the score of the plan without it.
pub proof fn lemma_cut_of_lost_cell_never_hurts(v: BoardView, plan: Seq<usize>, c: usize)
    requires
        v.frame_wf(),
        on_grid(c as int),
        !v.reset().run(plan, 0).cells[c as int].is_intact(),
    ensures
        v.evaluate(plan.push(c)) >= v.evaluate(plan),
{
    lemma_reset_wf(v);
    lemma_extra_cut(v.reset(), plan, c, 0);
}

} // verus!

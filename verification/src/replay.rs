//! A whole simulation as mathematics: the replay of a plan of cuts from turn
//! zero until the fire has burnt out, and the score that it ends with.

use vstd::prelude::*;
use crate::dynamics::{lemma_cut_wf, lemma_reset_wf, lemma_same_frame, lemma_score_bounds,
    lemma_step_fuel, lemma_step_wf};
use crate::model::{BoardView, same_frame};

verus! {

impl BoardView {
    /// Whether the planner gets to issue the action at place `next` of
    /// `actions` before this turn: a new cut may start, and the plan is not
    /// used up.
    pub open spec fn acts(self, actions: Seq<usize>, next: int) -> bool {
        self.can_act() && 0 <= next < actions.len()
    }

    /// The board once the planner had its say before a turn.
    pub open spec fn act(self, actions: Seq<usize>, next: int) -> BoardView {
        if self.acts(actions, next) {
            self.cut(actions[next] as int)
        } else {
            self
        }
    }

    /// The place in `actions` of the action that comes next after this turn.
    pub open spec fn next_action(self, actions: Seq<usize>, next: int) -> int {
        if self.acts(actions, next) {
            next + 1
        } else {
            next
        }
    }

    /// The board after one turn of a replay: the planner's say, then one step.
    pub open spec fn turn(self, actions: Seq<usize>, next: int) -> BoardView {
        self.act(actions, next).step()
    }

    /// The board at the end of a replay of `actions` from place `next` on: turn
    /// follows turn, at least one, until the fire has burnt out.
    pub open spec fn run(self, actions: Seq<usize>, next: int) -> BoardView
        decreases self.fuel(),
        when self.wf()
    {
        let after = self.turn(actions, next);
        if after.burnt_out() {
            after
        } else {
            proof {
                lemma_turn(self, actions, next);
            }
            after.run(actions, self.next_action(actions, next))
        }
    }

    /// The score that the plan `actions` ends with when it is replayed from
    /// turn zero.
    pub open spec fn evaluate(self, actions: Seq<usize>) -> int {
        self.reset().run(actions, 0).score()
    }

    /// The board after the fire was left to burn out untouched: step follows
    /// step, at least one, until there is no fire.
    pub open spec fn burn_out(self) -> BoardView
        decreases self.fuel(),
        when self.wf()
    {
        let after = self.step();
        if after.burnt_out() {
            after
        } else {
            proof {
                lemma_step_fuel(self);
            }
            after.burn_out()
        }
    }

    /// The board after `n` steps.
    pub open spec fn after(self, n: nat) -> BoardView
        decreases n,
    {
        if n == 0 {
            self
        } else {
            self.after((n - 1) as nat).step()
        }
    }
}

/// A turn of a replay keeps a valid board valid and in its frame, and uses
/// up fuel unless it leaves the board without a fire.
pub proof fn lemma_turn(v: BoardView, actions: Seq<usize>, next: int)
    requires
        v.wf(),
    ensures
        v.turn(actions, next).wf(),
        same_frame(v, v.turn(actions, next)),
        0 <= v.turn(actions, next).fuel() <= v.fuel(),
        !v.turn(actions, next).burnt_out() ==> v.turn(actions, next).fuel() < v.fuel(),
        v.turn(actions, next).score() <= v.score(),
{
    let acted = v.act(actions, next);
    if v.acts(actions, next) {
        lemma_cut_wf(v, actions[next] as int);
    }
    lemma_step_wf(acted);
    lemma_step_fuel(acted);
}

/// A replay ends with a valid board of the same frame on which nothing
/// burns, and with a score that the score at its start bounds.
pub proof fn lemma_run(v: BoardView, actions: Seq<usize>, next: int)
    requires
        v.wf(),
    ensures
        v.run(actions, next).wf(),
        v.run(actions, next).burnt_out(),
        same_frame(v, v.run(actions, next)),
        0 <= v.run(actions, next).score() <= v.score(),
    decreases v.fuel(),
{
    lemma_turn(v, actions, next);
    let after = v.turn(actions, next);
    lemma_score_bounds(after);
    if !after.burnt_out() {
        lemma_run(after, actions, v.next_action(actions, next));
    }
}

/// The score of a replay lies between zero and the sum of the initial values
/// of all cells.
pub proof fn lemma_evaluate_bounds(v: BoardView, actions: Seq<usize>)
    requires
        v.frame_wf(),
    ensures
        0 <= v.evaluate(actions) <= v.initial_value() <= i32::MAX,
{
    lemma_reset_wf(v);
    lemma_same_frame(v, v.reset());
    lemma_run(v.reset(), actions, 0);
    lemma_score_bounds(v.reset());
}

} // verus!

//! The planner's choice as mathematics: all sections in their order, the
//! plans made of up to two of them, and the plan that replays best.

use vstd::prelude::*;
use vstd::seq_lib::lemma_no_dup_in_concat;
use crate::model::BoardView;
use crate::order::{arranged, stable_order};
use crate::sections::{SectionView, are_apart};

verus! {

/// The ranks of the sections of a list.
pub open spec fn ranks(sections: Seq<SectionView>) -> Seq<int> {
    Seq::new(sections.len(), |j: int| sections[j].rank())
}

impl SectionView {
    /// Whether this section may stand before `other` in the order of all
    /// sections: the fire reaches it earlier, or at the same turn and it
    /// takes no longer to save.
    pub open spec fn not_after(self, other: SectionView) -> bool {
        self.time_to_reach < other.time_to_reach || (self.time_to_reach == other.time_to_reach
            && self.time_to_save <= other.time_to_save)
    }

    /// Whether a plan can start with this section: cutting it takes fewer
    /// turns than the fire takes to reach it.
    pub open spec fn fits_alone(self) -> bool {
        self.time_to_cut < self.time_to_reach
    }

    /// Whether a plan can go on with `next` after this section: cutting both
    /// takes fewer turns than the fire takes to reach `next`.
    pub open spec fn fits_before(self, next: SectionView) -> bool {
        self.time_to_cut + next.time_to_cut < next.time_to_reach
    }
}

/// The plans of two sections that start with the section at `i` and go on
/// with a section behind it and before `j`, in the order of the second
/// section. The second section fits after the first and has no cell in
/// common with it.
pub open spec fn pair_plans(options: Seq<SectionView>, i: int, j: int) -> Seq<Seq<usize>>
    decreases j - i,
{
    if j <= i + 1 {
        Seq::empty()
    } else {
        let before = pair_plans(options, i, j - 1);
        if options[i].fits_before(options[j - 1]) && are_apart(options[i], options[j - 1]) {
            before.push(options[i].cells + options[j - 1].cells)
        } else {
            before
        }
    }
}

/// The plans that start with a section before `i`, behind the empty plan:
/// for each section that fits alone, in order, the plan of that section
/// alone, then the plans of two sections that start with it.
pub open spec fn plans(options: Seq<SectionView>, i: int) -> Seq<Seq<usize>>
    decreases i,
{
    if i <= 0 {
        seq![Seq::empty()]
    } else {
        let before = plans(options, i - 1);
        if options[i - 1].fits_alone() {
            before.push(options[i - 1].cells) + pair_plans(
                options,
                i - 1,
                options.len() as int,
            )
        } else {
            before
        }
    }
}

/// All plans that the planner tries: the empty plan, and every plan of one
/// section or of two sections in their order that have no cell in common,
/// whose cutting time stays under the reach time of each.
pub open spec fn candidates(options: Seq<SectionView>) -> Seq<Seq<usize>> {
    plans(options, options.len() as int)
}

impl BoardView {
    /// All sections, those of the fire fronts before those that shield
    /// houses, put in the order of their ranks. Sections of the same rank
    /// keep their order.
    pub open spec fn sections(self) -> Seq<SectionView> {
        let all = self.front_sections() + self.city_sections();
        arranged(all, stable_order(ranks(all), all.len() as int))
    }

    /// Whether the plan at place `b` of `plans` is the best: none replays to
    /// a higher score, and every plan before it replays to a lower one.
    pub open spec fn is_best(self, plans: Seq<Seq<usize>>, b: int) -> bool {
        &&& 0 <= b < plans.len()
        &&& forall|m: int|
            0 <= m < plans.len() ==> self.evaluate(#[trigger] plans[m]) <= self.evaluate(plans[b])
        &&& forall|m: int| 0 <= m < b ==> self.evaluate(#[trigger] plans[m]) < self.evaluate(
            plans[b],
        )
    }

    /// The first of the plans that replay to the highest score.
    pub open spec fn best_plan(self, plans: Seq<Seq<usize>>) -> Seq<usize> {
        plans[choose|b: int| self.is_best(plans, b)]
    }

    /// The plan that the planner makes for this board.
    pub open spec fn plan(self) -> Seq<usize> {
        self.best_plan(candidates(self.sections()))
    }
}

/// Whether `x` is a cell of one of the sections `options`.
pub open spec fn is_cell_of(options: Seq<SectionView>, x: usize) -> bool {
    exists|i: int, j: int|
        0 <= i < options.len() && 0 <= j < options[i].cells.len() && #[trigger] options[i].cells[j]
            == x
}

/// Whether every action of every plan in `plans` is a cell of one of the
/// sections `options`.
pub open spec fn plans_of_sections(options: Seq<SectionView>, plans: Seq<Seq<usize>>) -> bool {
    forall|m: int, k: int|
        0 <= m < plans.len() && 0 <= k < plans[m].len() ==> is_cell_of(
            options,
            #[trigger] plans[m][k],
        )
}

/// Whether no section of `options` holds a cell twice.
pub open spec fn sections_without_repeats(options: Seq<SectionView>) -> bool {
    forall|i: int| 0 <= i < options.len() ==> (#[trigger] options[i]).cells.no_duplicates()
}

/// Whether no plan of `plans` holds a cell twice.
pub open spec fn plans_without_repeats(plans: Seq<Seq<usize>>) -> bool {
    forall|m: int| 0 <= m < plans.len() ==> (#[trigger] plans[m]).no_duplicates()
}

/// Plans of two sections are made of cells of the sections, and hold no
/// cell twice if no section does.
pub proof fn lemma_pair_plans_sound(options: Seq<SectionView>, i: int, j: int)
    requires
        0 <= i < options.len(),
        j <= options.len(),
    ensures
        plans_of_sections(options, pair_plans(options, i, j)),
        sections_without_repeats(options) ==> plans_without_repeats(pair_plans(options, i, j)),
    decreases j - i,
{
    if j > i + 1 {
        lemma_pair_plans_sound(options, i, j - 1);
        let before = pair_plans(options, i, j - 1);
        let both = options[i].cells + options[j - 1].cells;
        let after = pair_plans(options, i, j);
        assert forall|k: int| 0 <= k < both.len() implies is_cell_of(
            options,
            #[trigger] both[k],
        ) by {
            if k < options[i].cells.len() {
                assert(options[i].cells[k] == both[k]);
            } else {
                assert(options[j - 1].cells[k - options[i].cells.len()] == both[k]);
            }
        }
        assert forall|m: int, k: int|
            0 <= m < after.len() && 0 <= k < after[m].len() implies is_cell_of(
            options,
            #[trigger] after[m][k],
        ) by {
            if m < before.len() {
                assert(after[m] == before[m]);
                assert(is_cell_of(options, before[m][k]));
            } else {
                assert(after[m] == both);
            }
        }
        if sections_without_repeats(options) {
            assert(options[i].cells.no_duplicates());
            assert(options[j - 1].cells.no_duplicates());
            if are_apart(options[i], options[j - 1]) {
                lemma_no_dup_in_concat(options[i].cells, options[j - 1].cells);
            }
            assert forall|m: int| 0 <= m < after.len() implies (
            #[trigger] after[m]).no_duplicates() by {
                if m < before.len() {
                    assert(after[m] == before[m]);
                } else {
                    assert(after[m] == both);
                }
            }
        }
    }
}

/// Plans are made of cells of the sections, and hold no cell twice if no
/// section does.
pub proof fn lemma_plans_sound(options: Seq<SectionView>, i: int)
    requires
        i <= options.len(),
    ensures
        plans_of_sections(options, plans(options, i)),
        sections_without_repeats(options) ==> plans_without_repeats(plans(options, i)),
    decreases i,
{
    if i > 0 {
        lemma_plans_sound(options, i - 1);
        lemma_pair_plans_sound(options, i - 1, options.len() as int);
        let before = plans(options, i - 1);
        let pairs = pair_plans(options, i - 1, options.len() as int);
        let after = plans(options, i);
        assert forall|m: int, k: int|
            0 <= m < after.len() && 0 <= k < after[m].len() implies is_cell_of(
            options,
            #[trigger] after[m][k],
        ) by {
            if options[i - 1].fits_alone() {
                if m < before.len() {
                    assert(after[m] == before[m]);
                    assert(is_cell_of(options, before[m][k]));
                } else if m == before.len() {
                    assert(after[m] == options[i - 1].cells);
                    assert(options[i - 1].cells[k] == after[m][k]);
                } else {
                    assert(after[m] == pairs[m - before.len() - 1]);
                    assert(is_cell_of(options, pairs[m - before.len() - 1][k]));
                }
            } else {
                assert(is_cell_of(options, before[m][k]));
            }
        }
        if sections_without_repeats(options) {
            assert forall|m: int| 0 <= m < after.len() implies (
            #[trigger] after[m]).no_duplicates() by {
                if options[i - 1].fits_alone() {
                    if m < before.len() {
                        assert(after[m] == before[m]);
                    } else if m == before.len() {
                        assert(after[m] == options[i - 1].cells);
                    } else {
                        assert(after[m] == pairs[m - before.len() - 1]);
                    }
                }
            }
        }
    } else {
        let only = plans(options, i);
        assert(only[0].len() == 0);
    }
}

} // verus!

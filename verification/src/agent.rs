//! The planner: it splits the grid into sections that a plan can cut, makes
//! plans of up to two sections, replays each on the board and keeps the best.

use std::collections::VecDeque;
use vstd::prelude::*;
use crate::board::{Board, Cell};
use crate::dynamics::{lemma_same_frame, lemma_step_fuel};
use crate::lists::lemma_push_contains;
use crate::model::{BoardView, GRID_CELLS, STRIDE, on_grid, same_frame};
use crate::order::{arranged, as_ints, sort_order};
use crate::plans::{candidates, is_cell_of, lemma_plans_sound, pair_plans, plans, ranks,
    sections_without_repeats};
use crate::reach::{NEVER, lemma_burns_before_end, lemma_reach_settled, lemma_reach_turn_exists,
    lemma_unreached_step};
use crate::replay::lemma_turn;
use crate::sections::{SectionView, all_pending, are_apart, enqueue_front, flood_front, is_chained,
    is_chained4, is_closed, is_neighbour4, is_neighbour8, lemma_cities_skip, lemma_front_is_section,
    lemma_mark, lemma_neighbour4_back, lemma_neighbour_back, neighbours4, neighbours8, takes_in,
    takes_neighbours, touches_earlier, touches_earlier4, touches_one4, unmarked};
use crate::sums::{lemma_prefix_sum_full, lemma_prefix_sum_monotonic, lemma_prefix_sum_step,
    lemma_sum_bounds_entry, lemma_sum_picked_bounded, lemma_sum_pointwise_le, picked, prefix_sum,
    sum};

verus! {

/// A group of cells that a plan cuts as one.
#[derive(Debug, Clone)]
pub struct Section {
    /// Indices of the section's cells, in the order in which a plan cuts them.
    pub sections: Vec<usize>,
    /// Turns that cutting all cells of the section takes.
    pub time_to_cut: i32,
    /// Turn at which the fire reaches the section if nobody interferes.
    pub time_to_reach: i32,
    /// Turns of cutting that must lie before the fire's arrival.
    pub time_to_save: i32,
}

impl View for Section {
    type V = SectionView;

    open spec fn view(&self) -> SectionView {
        SectionView {
            cells: self.sections@,
            time_to_cut: self.time_to_cut as int,
            time_to_reach: self.time_to_reach as int,
            time_to_save: self.time_to_save as int,
        }
    }
}

/// The sections of a list as mathematical values.
pub open spec fn section_views(sections: Seq<Section>) -> Seq<SectionView> {
    Seq::new(sections.len(), |i: int| sections[i]@)
}

/// Whether the cell at `i` has all its eight neighbours on the grid.
pub open spec fn is_inner(i: int) -> bool {
    STRIDE + 1 <= i <= GRID_CELLS - STRIDE - 2
}

/// Whether `x` is in `list`.
fn is_listed(list: &Vec<usize>, x: usize) -> (found: bool)
    ensures
        found == list@.contains(x),
{
    let mut k: usize = 0;
    while k < list.len()
        invariant
            k <= list.len(),
            forall|j: int| 0 <= j < k ==> list@[j] != x,
        decreases list.len() - k,
    {
        if list[k] == x {
            return true;
        }
        k += 1;
    }
    false
}

/// A vector of `GRID_CELLS` marks, none of them set.
fn no_marks() -> (marks: Vec<bool>)
    ensures
        marks@ == Seq::new(GRID_CELLS as nat, |i: int| false),
{
    let mut marks: Vec<bool> = Vec::new();
    let mut i: usize = 0;
    while i < 2500
        invariant
            i <= GRID_CELLS,
            marks@.len() == i,
            forall|j: int| 0 <= j < i ==> !marks@[j],
        decreases GRID_CELLS - i,
    {
        marks.push(false);
        i += 1;
    }
    marks
}

/// The `k`-th of the eight neighbours of the cell at `idx`.
fn neighbour8(idx: usize, k: usize) -> (n: usize)
    requires
        is_inner(idx as int),
        k < 8,
    ensures
        n == neighbours8(idx as int)[k as int],
        n < GRID_CELLS,
{
    if k == 0 {
        idx - 1
    } else if k == 1 {
        idx - 50
    } else if k == 2 {
        idx + 1
    } else if k == 3 {
        idx + 50
    } else if k == 4 {
        idx - 51
    } else if k == 5 {
        idx - 49
    } else if k == 6 {
        idx + 49
    } else {
        idx + 51
    }
}

/// Whether the cell at `y` is a neighbour, diagonals included, of one of
/// `cells`.
pub open spec fn touches_one(cells: Seq<usize>, y: usize) -> bool {
    exists|i: int| 0 <= i < cells.len() && is_neighbour8(#[trigger] cells[i] as int, y as int)
}

/// Searches the fire front that the cell at `seed` belongs to: the burning
/// cells not marked yet that are linked to it by a chain of neighbouring
/// such cells, diagonals included. Marks them and returns them in the order
/// in which the search found them, `seed` first.
fn search_front(fires: &Vec<usize>, visited: &mut Vec<bool>, seed: usize) -> (section: Vec<usize>)
    requires
        old(visited)@.len() == GRID_CELLS,
        forall|j: int| 0 <= j < fires@.len() ==> is_inner(#[trigger] fires@[j] as int),
        fires@.contains(seed),
        !old(visited)@[seed as int],
    ensures
        (final(visited)@, section@) == flood_front(
            fires@,
            old(visited)@,
            seq![seed],
            Seq::empty(),
        ),
        final(visited)@.len() == GRID_CELLS,
        section@.len() > 0,
        section@[0] == seed,
        section@.no_duplicates(),
        forall|j: int|
            0 <= j < section@.len() ==> fires@.contains(#[trigger] section@[j]) && !old(
                visited,
            )@[section@[j] as int],
        forall|i: int|
            0 <= i < GRID_CELLS ==> (#[trigger] final(visited)@[i] <==> (old(visited)@[i]
                || section@.contains(i as usize))),
        forall|j: int|
            0 <= j < section@.len() ==> is_closed(
                fires@,
                final(visited)@,
                #[trigger] section@[j] as int,
            ),
        is_chained(section@),
{
    let ghost marks = visited@;
    let mut section: Vec<usize> = Vec::new();
    let mut queue: VecDeque<usize> = VecDeque::new();
    queue.push_back(seed);
    while queue.len() > 0
        invariant
            marks.len() == GRID_CELLS,
            visited@.len() == GRID_CELLS,
            forall|j: int| 0 <= j < fires@.len() ==> is_inner(#[trigger] fires@[j] as int),
            forall|j: int|
                0 <= j < queue@.len() ==> is_inner(#[trigger] queue@[j] as int) && fires@.contains(
                    queue@[j],
                ),
            flood_front(fires@, visited@, queue@, section@) == flood_front(
                fires@,
                marks,
                seq![seed],
                Seq::empty(),
            ),
            section@.no_duplicates(),
            section@.len() > 0 ==> section@[0] == seed,
            section@.len() == 0 ==> queue@ == seq![seed] && !visited@[seed as int],
            forall|j: int|
                0 <= j < section@.len() ==> fires@.contains(#[trigger] section@[j])
                    && !marks[section@[j] as int],
            forall|i: int|
                0 <= i < GRID_CELLS ==> (#[trigger] visited@[i] <==> (marks[i]
                    || section@.contains(i as usize))),
            forall|j: int|
                0 <= j < section@.len() ==> all_pending(
                    fires@,
                    visited@,
                    queue@,
                    #[trigger] section@[j] as int,
                    8,
                ),
            is_chained(section@),
            section@.len() > 0 ==> forall|j: int|
                0 <= j < queue@.len() ==> touches_one(section@, #[trigger] queue@[j]),
        decreases unmarked(visited@), queue@.len(),
    {
        let ghost waiting = queue@;
        let ghost before = visited@;
        let ghost found = section@;
        let idx = queue.pop_front().unwrap();
        let ghost rest = queue@;
        assert forall|y: usize| waiting.contains(y) implies y == idx || rest.contains(y) by {
            let j = choose|j: int| 0 <= j < waiting.len() && waiting[j] == y;
            if j > 0 {
                assert(rest[j - 1] == y);
            }
        }
        if !visited[idx] {
            visited.set(idx, true);
            proof {
                assert(is_chained(found.push(idx))) by {
                    let longer = found.push(idx);
                    assert forall|j: int| 0 < j < longer.len() implies #[trigger] touches_earlier(
                        longer,
                        j,
                    ) by {
                        if j < found.len() {
                            assert(touches_earlier(found, j));
                            let i = choose|i: int|
                                0 <= i < j && is_neighbour8(
                                    #[trigger] found[i] as int,
                                    found[j] as int,
                                );
                            assert(is_neighbour8(longer[i] as int, longer[j] as int));
                        } else {
                            let i = choose|i: int|
                                0 <= i < found.len() && is_neighbour8(
                                    #[trigger] found[i] as int,
                                    idx as int,
                                );
                            assert(is_neighbour8(longer[i] as int, longer[j] as int));
                        }
                    }
                }
                assert forall|j: int| 0 <= j < rest.len() implies touches_one(
                    found.push(idx),
                    #[trigger] rest[j],
                ) by {
                    let i = choose|i: int|
                        0 <= i < found.len() && is_neighbour8(
                            #[trigger] found[i] as int,
                            rest[j] as int,
                        );
                    assert(found.push(idx)[i] == found[i]);
                }
                lemma_mark(before, idx as int);
                assert forall|i: int| 0 <= i < GRID_CELLS implies (#[trigger] visited@[i] <==> (
                marks[i] || found.push(idx).contains(i as usize))) by {
                    lemma_push_contains(found, idx, i as usize);
                }
            }
            section.push(idx);
            let mut k: usize = 0;
            while k < 8
                invariant
                    k <= 8,
                    is_inner(idx as int),
                    visited@.len() == GRID_CELLS,
                    forall|j: int|
                        0 <= j < queue@.len() ==> is_inner(#[trigger] queue@[j] as int)
                            && fires@.contains(queue@[j]),
                    forall|j: int| 0 <= j < fires@.len() ==> is_inner(#[trigger] fires@[j] as int),
                    queue@ == enqueue_front(fires@, visited@, rest, idx as int, k as int),
                    forall|y: usize| rest.contains(y) ==> queue@.contains(y),
                    all_pending(fires@, visited@, queue@, idx as int, k as int),
                    section@.len() > 0,
                    section@.last() == idx,
                    forall|j: int|
                        0 <= j < queue@.len() ==> touches_one(section@, #[trigger] queue@[j]),
                decreases 8 - k,
            {
                let ghost queued = queue@;
                let new_idx = neighbour8(idx, k);
                let burning = is_listed(fires, new_idx);
                if burning && !visited[new_idx] {
                    queue.push_back(new_idx);
                }
                proof {
                    assert forall|y: usize| queued.contains(y) implies queue@.contains(y) by {
                        lemma_push_contains(queued, new_idx, y);
                    }
                    lemma_push_contains(queued, new_idx, new_idx);
                }
                k += 1;
            }
        }
    }
    section
}

/// Makes a section of `cells`, in that order, that the fire reaches at turn
/// `reach`: sums up the cutting times of its cells as the board stands, and
/// takes the first cell's cutting time, less one turn, off the time that has
/// to lie before the fire's arrival.
fn make_section(board: &Board, cells: Vec<usize>, reach: i32) -> (section: Section)
    requires
        board.wf(),
        cells@.len() > 0,
        cells@.no_duplicates(),
        forall|j: int| 0 <= j < cells@.len() ==> cells@[j] < GRID_CELLS,
        board@.rules.cut_duration(board@.cells[cells@[0] as int]) >= 1,
    ensures
        section@ == board@.section(cells@, reach as int),
        section.sections@ == cells@,
        1 <= section.time_to_save <= section.time_to_cut <= board@.initial_cut_time(),
{
    let ghost times = picked(board@.cut_durations(), cells@);
    proof {
        lemma_sum_picked_bounded(board@.cut_durations(), cells@);
        lemma_sum_pointwise_le(board@.cut_durations(), board@.initial_cut_durations());
        lemma_prefix_sum_full(times);
        lemma_sum_bounds_entry(times, 0);
    }
    let first = board.get_cut_duration(cells[0]);
    let mut time_to_cut: i32 = 0;
    let mut j: usize = 0;
    while j < cells.len()
        invariant
            board.wf(),
            j <= cells@.len(),
            times == picked(board@.cut_durations(), cells@),
            forall|j: int| 0 <= j < cells@.len() ==> cells@[j] < GRID_CELLS,
            prefix_sum(times, cells@.len() as int) == sum(times) <= i32::MAX,
            time_to_cut == prefix_sum(times, j as int),
        decreases cells@.len() - j,
    {
        proof {
            lemma_prefix_sum_step(times, j as int);
            lemma_prefix_sum_monotonic(times, j + 1, cells@.len() as int);
        }
        time_to_cut += board.get_cut_duration(cells[j]);
        j += 1;
    }
    let time_to_save = time_to_cut - first + 1;
    Section { sections: cells, time_to_cut, time_to_reach: reach, time_to_save }
}

/// Adds to `sections` the sections of the fire fronts of the board as it
/// stands, which is at turn `turn`, and marks their cells. `visited` marks
/// the cells that burnt at a turn before.
///
/// Each burning cell that is not marked yet starts the search of its front.
/// The front becomes a section if it is feasible.
fn fronts_of_turn(
    board: &Board,
    visited: &mut Vec<bool>,
    sections: &mut Vec<Section>,
    turn: i32,
)
    requires
        board.wf(),
        old(visited)@.len() == GRID_CELLS,
        0 <= turn,
    ensures
        final(visited)@.len() == GRID_CELLS,
        (final(visited)@, section_views(final(sections)@)) == board@.front_turn(
            turn as int,
            old(visited)@,
            section_views(old(sections)@),
            0,
        ),
        final(sections)@.len() >= old(sections)@.len(),
        forall|j: int|
            0 <= j < old(sections)@.len() ==> #[trigger] final(sections)@[j] == old(sections)@[j],
        forall|i: int| 0 <= i < GRID_CELLS && old(visited)@[i] ==> #[trigger] final(visited)@[i],
        forall|i: int|
            0 <= i < GRID_CELLS && #[trigger] final(visited)@[i] && !old(visited)@[i]
                ==> board@.fires.contains(i as usize),
        forall|j: int|
            0 <= j < board@.fires.len() ==> final(visited)@[#[trigger] board@.fires[j] as int],
        forall|j: int|
            old(sections)@.len() <= j < final(sections)@.len() ==>
                (#[trigger] final(sections)@[j])@.is_feasible() && board@.is_sound_section(
                final(sections)@[j]@,
            ) && board@.is_front(old(visited)@, final(sections)@[j]@, turn as int),
        forall|a: int, b: int|
            old(sections)@.len() <= a < b < final(sections)@.len() ==> are_apart(
                (#[trigger] final(sections)@[a])@,
                (#[trigger] final(sections)@[b])@,
            ),
        forall|y: int|
            0 <= y < GRID_CELLS && #[trigger] final(visited)@[y] && !old(visited)@[y]
                ==> board@.is_fire_served(
                old(visited)@,
                section_views(final(sections)@),
                y,
                turn as int,
            ),
{
    let ghost now = board@;
    let ghost marks = visited@;
    let ghost known = sections@;
    let count = board.get_fire().len();
    let mut k: usize = 0;
    while k < count
        invariant
            board.wf(),
            board@ == now,
            count == now.fires.len(),
            k <= count,
            0 <= turn,
            marks.len() == GRID_CELLS,
            visited@.len() == GRID_CELLS,
            forall|j: int| 0 <= j < now.fires.len() ==> is_inner(#[trigger] now.fires[j] as int),
            now.front_turn(turn as int, visited@, section_views(sections@), k as int)
                == now.front_turn(turn as int, marks, section_views(known), 0),
            sections@.len() >= known.len(),
            forall|j: int| 0 <= j < known.len() ==> #[trigger] sections@[j] == known[j],
            forall|i: int| 0 <= i < GRID_CELLS && marks[i] ==> #[trigger] visited@[i],
            forall|i: int|
                0 <= i < GRID_CELLS && #[trigger] visited@[i] && !marks[i] ==> now.fires.contains(
                    i as usize,
                ),
            forall|j: int| 0 <= j < k ==> visited@[#[trigger] now.fires[j] as int],
            forall|y: int|
                0 <= y < GRID_CELLS && #[trigger] visited@[y] && !marks[y] ==> is_closed(
                    now.fires,
                    visited@,
                    y,
                ),
            forall|j: int|
                known.len() <= j < sections@.len() ==> (#[trigger] sections@[j])@.is_feasible()
                    && now.is_sound_section(sections@[j]@) && now.is_front(
                    marks,
                    sections@[j]@,
                    turn as int,
                ),
            forall|j: int, p: int|
                known.len() <= j < sections@.len() && 0 <= p < sections@[j]@.cells.len()
                    ==> visited@[#[trigger] sections@[j]@.cells[p] as int],
            forall|a: int, b: int|
                known.len() <= a < b < sections@.len() ==> are_apart(
                    (#[trigger] sections@[a])@,
                    (#[trigger] sections@[b])@,
                ),
            forall|y: int|
                0 <= y < GRID_CELLS && #[trigger] visited@[y] && !marks[y] ==> now.is_fire_served(
                    marks,
                    section_views(sections@),
                    y,
                    turn as int,
                ),
        decreases count - k,
    {
        let seed = board.get_fire()[k];
        if !visited[seed] {
            let ghost before = visited@;
            let cells = search_front(board.get_fire(), visited, seed);
            let ghost found = cells@;
            let ghost views = section_views(sections@);
            let section = make_section(board, cells, turn);
            proof {
                assert(now.is_front(marks, section@, turn as int)) by {
                    assert forall|j: int| 0 <= j < found.len() implies takes_neighbours(
                        now.fires,
                        marks,
                        found,
                        #[trigger] found[j] as int,
                    ) by {
                        let x = found[j] as int;
                        assert forall|m: int| 0 <= m < 8 implies takes_in(
                            now.fires,
                            marks,
                            found,
                            #[trigger] neighbours8(x)[m],
                        ) by {
                            let y = neighbours8(x)[m];
                            if 0 <= y < GRID_CELLS && now.fires.contains(y as usize) && !marks[y]
                                && !found.contains(y as usize) {
                                lemma_neighbour_back(x, m);
                            }
                        }
                    }
                }
            }
            let ghost made = section@;
            if section.time_to_save <= section.time_to_reach {
                sections.push(section);
                proof {
                    assert(section_views(sections@) =~= views.push(made));
                    assert(section_views(sections@)[views.len() as int] == made);
                }
            }
            proof {
                let served = section_views(sections@);
                assert(now.section(found, turn as int) == made);
                assert forall|y: int|
                    0 <= y < GRID_CELLS && #[trigger] visited@[y]
                        && !marks[y] implies now.is_fire_served(marks, served, y, turn as int) by {
                    if found.contains(y as usize) {
                        assert(now.is_front(marks, now.section(found, turn as int), turn as int));
                    } else {
                        assert(before[y]);
                        assert(now.is_fire_served(marks, views, y, turn as int));
                        let cs = choose|cs: Seq<usize>| #[trigger]
                            now.is_front(marks, now.section(cs, turn as int), turn as int)
                                && cs.contains(y as usize) && (now.section(
                                cs,
                                turn as int,
                            ).is_feasible() ==> views.contains(now.section(cs, turn as int)));
                        if views.contains(now.section(cs, turn as int)) {
                            let at = choose|at: int|
                                0 <= at < views.len() && views[at] == now.section(cs, turn as int);
                            assert(served[at] == now.section(cs, turn as int));
                        }
                        assert(now.is_front(marks, now.section(cs, turn as int), turn as int));
                    }
                }
            }
        }
        k += 1;
    }
}

/// Once the fronts of a turn are found, every cell that has burnt so far
/// belongs to a front that has its section among the sections in case the
/// section is feasible.
proof fn lemma_fronts_served(
    origin: BoardView,
    marks: Seq<bool>,
    visited: Seq<bool>,
    views: Seq<SectionView>,
    served: Seq<SectionView>,
    turn: int,
)
    requires
        origin.frame_wf(),
        origin.reset().wf(),
        0 <= turn,
        origin.reset().after(turn as nat).wf(),
        marks.len() == GRID_CELLS,
        visited.len() == GRID_CELLS,
        forall|i: int|
            0 <= i < GRID_CELLS ==> (#[trigger] marks[i] <==> !origin.reset().unreached_before(
                i,
                turn,
            )),
        views.len() <= served.len(),
        forall|j: int| 0 <= j < views.len() ==> served[j] == #[trigger] views[j],
        forall|x: int|
            0 <= x < GRID_CELLS && #[trigger] marks[x] ==> origin.is_cell_served(views, x),
        forall|y: int|
            0 <= y < GRID_CELLS && #[trigger] visited[y] && !marks[y] ==> origin.reset().after(
                turn as nat,
            ).is_fire_served(marks, served, y, turn),
    ensures
        forall|x: int|
            0 <= x < GRID_CELLS && #[trigger] visited[x] ==> origin.is_cell_served(served, x),
{
    let now = origin.reset().after(turn as nat);
    assert forall|x: int| 0 <= x < GRID_CELLS && #[trigger] visited[x] implies origin.is_cell_served(
        served,
        x,
    ) by {
        if marks[x] {
            let (cs, t) = choose|cs: Seq<usize>, t: int| #[trigger]
                origin.is_front_served(views, cs, t) && cs.contains(x as usize);
            if views.contains(origin.front_of(cs, t)) {
                let at = choose|at: int|
                    0 <= at < views.len() && views[at] == origin.front_of(cs, t);
                assert(served[at] == origin.front_of(cs, t));
            }
            assert(origin.is_front_served(served, cs, t));
        } else {
            let cs = choose|cs: Seq<usize>| #[trigger]
                now.is_front(marks, now.section(cs, turn), turn) && cs.contains(x as usize) && (
                now.section(cs, turn).is_feasible() ==> served.contains(now.section(cs, turn)));
            lemma_front_is_section(origin, marks, now.section(cs, turn), turn);
            assert(origin.front_of(cs, turn) == now.section(cs, turn));
            assert(origin.is_front_served(served, cs, turn));
        }
    }
}

/// The sections of the fire fronts, found on a run of the fire that nobody
/// interferes with. The board is left at turn zero.
///
/// At each turn of that run the cells that catch fire at that turn are
/// grouped: cells that touch, diagonals included, form one front. A front
/// becomes a section if it is feasible: its `time_to_save` is at most the
/// turn of its ignition, which is its `time_to_reach`. The sections come in
/// the order of their turns, and no cell is in two of them. Every cell that
/// the fire reaches belongs to a front, and every feasible front has its
/// section in the result.
pub fn compute_front_sections(board: &mut Board) -> (sections: Vec<Section>)
    requires
        old(board).wf(),
    ensures
        final(board).wf(),
        final(board)@ == old(board)@.reset(),
        final(board)@.reset() == final(board)@,
        section_views(sections@) == old(board)@.front_sections(),
        forall|j: int| 0 <= j < sections@.len() ==> (#[trigger] sections@[j])@.is_feasible(),
        forall|j: int|
            0 <= j < sections@.len() ==> old(board)@.is_sound_section((#[trigger] sections@[j])@),
        forall|j: int|
            0 <= j < sections@.len() ==> old(board)@.is_front_section((#[trigger] sections@[j])@),
        forall|a: int, b: int|
            0 <= a < b < sections@.len() ==> are_apart(
                (#[trigger] sections@[a])@,
                (#[trigger] sections@[b])@,
            ),
        forall|a: int, b: int|
            0 <= a <= b < sections@.len() ==> (#[trigger] sections@[a])@.time_to_reach
                <= (#[trigger] sections@[b])@.time_to_reach,
        forall|x: int|
            0 <= x < GRID_CELLS && #[trigger] old(board)@.reset().reach_turn(x) != NEVER
                ==> old(board)@.is_cell_served(section_views(sections@), x),
{
    let ghost origin = board@;
    board.reset();
    let ghost start = board@;
    let mut sections: Vec<Section> = Vec::new();
    let mut visited = no_marks();
    let mut end = false;
    let mut turn: i32 = 0;
    proof {
        lemma_step_fuel(start);
        lemma_same_frame(origin, start);
        assert(section_views(sections@) =~= Seq::empty());
    }
    while !end
        invariant
            board.wf(),
            origin.frame_wf(),
            same_frame(origin, board@),
            start == origin.reset(),
            start.wf(),
            visited@.len() == GRID_CELLS,
            0 <= turn,
            origin.initial_fuel() <= i32::MAX,
            origin.initial_cut_time() == start.initial_cut_time(),
            board@ == start.after(turn as nat),
            !end ==> turn + board@.fuel() <= origin.initial_fuel(),
            !end ==> turn == 0 || !board@.burnt_out(),
            !end ==> board@.fronts_from(turn as int, visited@, section_views(sections@))
                == origin.front_sections(),
            end ==> section_views(sections@) == origin.front_sections(),
            end ==> board@.burnt_out(),
            forall|i: int|
                0 <= i < GRID_CELLS ==> (#[trigger] visited@[i] <==> !start.unreached_before(
                    i,
                    turn as int,
                )),
            forall|x: int|
                0 <= x < GRID_CELLS && #[trigger] visited@[x] ==> origin.is_cell_served(
                    section_views(sections@),
                    x,
                ),
            forall|j: int| 0 <= j < sections@.len() ==> (#[trigger] sections@[j])@.is_feasible(),
            forall|j: int|
                0 <= j < sections@.len() ==> origin.is_sound_section((#[trigger] sections@[j])@),
            forall|j: int|
                0 <= j < sections@.len() ==> origin.is_front_section((#[trigger] sections@[j])@),
            forall|j: int|
                0 <= j < sections@.len() ==> (#[trigger] sections@[j])@.time_to_reach < turn,
            forall|a: int, b: int|
                0 <= a < b < sections@.len() ==> are_apart(
                    (#[trigger] sections@[a])@,
                    (#[trigger] sections@[b])@,
                ),
            forall|a: int, b: int|
                0 <= a <= b < sections@.len() ==> (#[trigger] sections@[a])@.time_to_reach
                    <= (#[trigger] sections@[b])@.time_to_reach,
        decreases board@.fuel() + (if end { 0int } else { 1int }),
    {
        let ghost now = board@;
        let ghost marks = visited@;
        let ghost known = sections@;
        let ghost views = section_views(sections@);
        proof {
            lemma_step_fuel(now);
            lemma_same_frame(origin, now);
        }
        fronts_of_turn(board, &mut visited, &mut sections, turn);
        proof {
            let served = section_views(sections@);
            assert forall|i: int| 0 <= i < GRID_CELLS implies (#[trigger] visited@[i]
                <==> !start.unreached_before(i, turn + 1)) by {
                lemma_unreached_step(start, i, turn as int);
            }
            assert forall|j: int| known.len() <= j < sections@.len() implies
                (#[trigger] sections@[j])@.is_feasible() && origin.is_sound_section(sections@[j]@)
                && origin.is_front_section(sections@[j]@) && sections@[j]@.time_to_reach
                == turn by {
                lemma_front_is_section(origin, marks, sections@[j]@, turn as int);
            }
            assert forall|j: int| 0 <= j < views.len() implies served[j] == #[trigger] views[j] by {
                assert(sections@[j] == known[j]);
            }
            lemma_fronts_served(origin, marks, visited@, views, served, turn as int);
        }
        end = board.step();
        turn += 1;
    }
    proof {
        lemma_same_frame(origin, board@);
        assert forall|x: int|
            0 <= x < GRID_CELLS && #[trigger] start.reach_turn(x)
                != NEVER implies origin.is_cell_served(section_views(sections@), x) by {
            lemma_reach_turn_exists(start, x);
            lemma_burns_before_end(start, x, start.reach_turn(x), turn as int);
            assert(!start.unreached_before(x, turn as int));
            assert(visited@[x]);
        }
    }
    board.reset();
    sections
}

/// A vector of `GRID_CELLS` reach turns, all of them `NEVER`.
fn no_reach_turns() -> (turns: Vec<i32>)
    ensures
        turns@.len() == GRID_CELLS,
        forall|i: int| 0 <= i < GRID_CELLS ==> turns@[i] == NEVER,
{
    let mut turns: Vec<i32> = Vec::new();
    let mut i: usize = 0;
    while i < 2500
        invariant
            i <= GRID_CELLS,
            turns@.len() == i,
            forall|j: int| 0 <= j < i ==> turns@[j] == NEVER,
        decreases GRID_CELLS - i,
    {
        turns.push(NEVER);
        i += 1;
    }
    turns
}

/// The reach turn of each cell, by index: the first turn at which the cell
/// burns on a run of the fire that nobody interferes with, and `NEVER` for a
/// cell that the fire does not reach. The board is left at turn zero.
pub fn compute_reach_turns(board: &mut Board) -> (turns: Vec<i32>)
    requires
        old(board).wf(),
    ensures
        final(board).wf(),
        final(board)@ == old(board)@.reset(),
        final(board)@.reset() == final(board)@,
        turns@.len() == GRID_CELLS,
        forall|i: int|
            0 <= i < GRID_CELLS ==> #[trigger] turns@[i] == old(board)@.reset().reach_turn(i)
                && 0 <= turns@[i],
        forall|i: int|
            0 <= i < GRID_CELLS ==> old(board)@.reset().is_reach_turn(
                i,
                #[trigger] turns@[i] as int,
            ),
{
    let ghost origin = board@;
    board.reset();
    let ghost start = board@;
    let mut reached = no_reach_turns();
    let mut end = false;
    let mut turn: i32 = 0;
    proof {
        lemma_step_fuel(start);
        lemma_same_frame(origin, start);
    }
    while !end
        invariant
            board.wf(),
            origin.frame_wf(),
            same_frame(origin, board@),
            start == origin.reset(),
            start.wf(),
            reached@.len() == GRID_CELLS,
            0 <= turn,
            origin.initial_fuel() <= i32::MAX,
            board@ == start.after(turn as nat),
            !end ==> turn + board@.fuel() <= origin.initial_fuel(),
            !end ==> turn == 0 || !board@.burnt_out(),
            end ==> board@.burnt_out(),
            forall|i: int|
                0 <= i < GRID_CELLS ==> start.is_reach_so_far(
                    i,
                    #[trigger] reached@[i] as int,
                    turn as int,
                ),
        decreases board@.fuel() + (if end { 0int } else { 1int }),
    {
        let ghost known = reached@;
        let ghost now = board@;
        let count = board.get_fire().len();
        proof {
            lemma_step_fuel(now);
        }
        let mut k: usize = 0;
        while k < count
            invariant
                board.wf(),
                board@ == now,
                count == now.fires.len(),
                k <= count,
                0 <= turn,
                count > 0 ==> turn < NEVER,
                reached@.len() == GRID_CELLS,
                known.len() == GRID_CELLS,
                forall|i: int|
                    0 <= i < GRID_CELLS ==> #[trigger] reached@[i] == (if known[i] == NEVER
                        && now.handled(i as usize, k as int) {
                        turn
                    } else {
                        known[i]
                    }),
            decreases count - k,
        {
            let f = board.get_fire()[k];
            if reached[f] == NEVER {
                reached.set(f, turn);
            }
            k += 1;
        }
        end = board.step();
        turn += 1;
    }
    proof {
        assert forall|i: int| 0 <= i < GRID_CELLS implies #[trigger] reached@[i]
            == start.reach_turn(i) && 0 <= reached@[i] && start.is_reach_turn(
            i,
            reached@[i] as int,
        ) by {
            lemma_reach_settled(start, i, reached@[i] as int, turn as int);
        }
        lemma_same_frame(origin, board@);
    }
    board.reset();
    reached
}

/// The `k`-th of the four orthogonal neighbours of the cell at `idx`.
fn neighbour4(idx: usize, k: usize) -> (n: usize)
    requires
        is_inner(idx as int),
        k < 4,
    ensures
        n == neighbours4(idx as int)[k as int],
        n < GRID_CELLS,
{
    if k == 0 {
        idx - 1
    } else if k == 1 {
        idx - 50
    } else if k == 2 {
        idx + 1
    } else {
        idx + 50
    }
}

/// Searches the cluster of intact houses that the house at `seed` belongs to,
/// marks its houses and returns its perimeter: the intact trees that touch a
/// house of the cluster orthogonally, in the order in which the search found
/// them. With the perimeter come the houses of the cluster, for the proof.
fn search_city(board: &Board, visited: &mut Vec<bool>, seed: usize) -> (found: (
    Vec<usize>,
    Ghost<Seq<usize>>,
))
    requires
        board.wf(),
        old(visited)@.len() == GRID_CELLS,
        seed < GRID_CELLS,
        board@.cells[seed as int] == Cell::House,
        !old(visited)@[seed as int],
        board@.marks_clusters(old(visited)@),
    ensures
        (final(visited)@, found.0@) == board@.flood_city(
            old(visited)@,
            seq![seed],
            Seq::empty(),
        ),
        final(visited)@.len() == GRID_CELLS,
        board@.marks_clusters(final(visited)@),
        forall|i: int|
            0 <= i < GRID_CELLS ==> (#[trigger] final(visited)@[i] <==> (old(visited)@[i]
                || found.1@.contains(i as usize))),
        final(visited)@[seed as int],
        found.0@.no_duplicates(),
        forall|j: int| 0 <= j < found.0@.len() ==> (#[trigger] found.0@[j]) < GRID_CELLS,
        board@.is_cluster(found.1@, found.0@),
{
    let ghost now = board@;
    let ghost marks = visited@;
    let ghost mut houses: Seq<usize> = Seq::empty();
    let mut perimeter: Vec<usize> = Vec::new();
    let mut queue: VecDeque<usize> = VecDeque::new();
    queue.push_back(seed);
    while queue.len() > 0
        invariant
            board.wf(),
            board@ == now,
            marks.len() == GRID_CELLS,
            visited@.len() == GRID_CELLS,
            now.marks_clusters(marks),
            forall|j: int|
                0 <= j < queue@.len() ==> (#[trigger] queue@[j]) < GRID_CELLS
                    && now.cells[queue@[j] as int] == Cell::House,
            now.flood_city(visited@, queue@, perimeter@) == now.flood_city(
                marks,
                seq![seed],
                Seq::empty(),
            ),
            perimeter@.no_duplicates(),
            forall|j: int| 0 <= j < perimeter@.len() ==> (#[trigger] perimeter@[j]) < GRID_CELLS,
            houses.no_duplicates(),
            houses.len() == 0 ==> queue@ == seq![seed] && !visited@[seed as int]
                && perimeter@.len() == 0,
            houses.len() > 0 ==> houses[0] == seed,
            forall|j: int|
                0 <= j < houses.len() ==> (#[trigger] houses[j]) < GRID_CELLS
                    && now.cells[houses[j] as int] == Cell::House && !marks[houses[j] as int],
            forall|i: int|
                0 <= i < GRID_CELLS ==> (#[trigger] visited@[i] <==> (marks[i] || houses.contains(
                    i as usize,
                ))),
            is_chained4(houses),
            houses.len() > 0 ==> forall|j: int|
                0 <= j < queue@.len() ==> touches_one4(houses, #[trigger] queue@[j]),
            forall|j: int|
                0 <= j < houses.len() ==> now.houses_pending(
                    visited@,
                    queue@,
                    #[trigger] houses[j] as int,
                    4,
                ),
            forall|j: int|
                0 <= j < houses.len() ==> now.trees_listed(
                    perimeter@,
                    #[trigger] houses[j] as int,
                    4,
                ),
            forall|j: int|
                0 <= j < perimeter@.len() ==> now.cells[#[trigger] perimeter@[j] as int]
                    == Cell::Tree && touches_one4(houses, perimeter@[j]),
        decreases unmarked(visited@), queue@.len(),
    {
        let ghost waiting = queue@;
        let ghost before = visited@;
        let ghost known = houses;
        let ghost found = perimeter@;
        let idx = queue.pop_front().unwrap();
        let ghost rest = queue@;
        proof {
            assert forall|y: usize| waiting.contains(y) implies y == idx || rest.contains(y) by {
                let j = choose|j: int| 0 <= j < waiting.len() && waiting[j] == y;
                if j > 0 {
                    assert(rest[j - 1] == y);
                }
            }
        }
        if !visited[idx] {
            proof {
                lemma_mark(visited@, idx as int);
                houses = known.push(idx);
                assert forall|i: int| 0 <= i < GRID_CELLS implies ((before.update(
                    idx as int,
                    true,
                ))[i] <==> (marks[i] || #[trigger] houses.contains(i as usize))) by {
                    lemma_push_contains(known, idx, i as usize);
                }
                assert(is_chained4(houses)) by {
                    assert forall|j: int| 0 < j < houses.len() implies #[trigger] touches_earlier4(
                        houses,
                        j,
                    ) by {
                        if j < known.len() {
                            assert(touches_earlier4(known, j));
                            let i = choose|i: int|
                                0 <= i < j && is_neighbour4(
                                    #[trigger] known[i] as int,
                                    known[j] as int,
                                );
                            assert(is_neighbour4(houses[i] as int, houses[j] as int));
                        } else {
                            let i = choose|i: int|
                                0 <= i < known.len() && is_neighbour4(
                                    #[trigger] known[i] as int,
                                    idx as int,
                                );
                            assert(is_neighbour4(houses[i] as int, houses[j] as int));
                        }
                    }
                }
                assert forall|y: usize| touches_one4(known, y) implies touches_one4(houses, y) by {
                    let i = choose|i: int|
                        0 <= i < known.len() && is_neighbour4(#[trigger] known[i] as int, y as int);
                    assert(houses[i] == known[i]);
                }
            }
            visited.set(idx, true);
            let mut k: usize = 0;
            while k < 4
                invariant
                    board.wf(),
                    board@ == now,
                    k <= 4,
                    is_inner(idx as int),
                    idx < GRID_CELLS,
                    now.cells[idx as int] == Cell::House,
                    houses.len() > 0,
                    houses.last() == idx,
                    visited@.len() == GRID_CELLS,
                    forall|j: int|
                        0 <= j < queue@.len() ==> (#[trigger] queue@[j]) < GRID_CELLS
                            && now.cells[queue@[j] as int] == Cell::House,
                    perimeter@.no_duplicates(),
                    forall|j: int|
                        0 <= j < perimeter@.len() ==> (#[trigger] perimeter@[j]) < GRID_CELLS,
                    (queue@, perimeter@) == now.visit_city(rest, found, idx as int, k as int),
                    forall|y: usize| rest.contains(y) ==> queue@.contains(y),
                    forall|y: usize| found.contains(y) ==> perimeter@.contains(y),
                    forall|j: int|
                        0 <= j < queue@.len() ==> touches_one4(houses, #[trigger] queue@[j]),
                    forall|j: int|
                        0 <= j < perimeter@.len() ==> now.cells[#[trigger] perimeter@[j] as int]
                            == Cell::Tree && touches_one4(houses, perimeter@[j]),
                    now.houses_pending(visited@, queue@, idx as int, k as int),
                    now.trees_listed(perimeter@, idx as int, k as int),
                decreases 4 - k,
            {
                let ghost queued = queue@;
                let ghost listed = perimeter@;
                let new_idx = neighbour4(idx, k);
                match board.get_cell(new_idx) {
                    Cell::House => {
                        queue.push_back(new_idx);
                    },
                    Cell::Tree => {
                        if !is_listed(&perimeter, new_idx) {
                            perimeter.push(new_idx);
                        }
                    },
                    _ => {},
                }
                proof {
                    assert forall|y: usize| queued.contains(y) implies queue@.contains(y) by {
                        lemma_push_contains(queued, new_idx, y);
                    }
                    assert forall|y: usize| listed.contains(y) implies perimeter@.contains(y) by {
                        lemma_push_contains(listed, new_idx, y);
                    }
                    lemma_push_contains(queued, new_idx, new_idx);
                    lemma_push_contains(listed, new_idx, new_idx);
                }
                k += 1;
            }
        }
    }
    proof {
        assert forall|j: int| 0 <= j < houses.len() implies now.houses_listed(
            houses,
            #[trigger] houses[j] as int,
        ) by {
            let x = houses[j] as int;
            assert forall|m: int| 0 <= m < 4 implies now.house_in(
                houses,
                #[trigger] neighbours4(x)[m],
            ) by {
                let y = neighbours4(x)[m];
                if on_grid(y) && now.cells[y] == Cell::House && marks[y] {
                    lemma_neighbour4_back(x, m);
                }
            }
        }
    }
    assert(houses.contains(houses[0]));
    (perimeter, Ghost(houses))
}

/// The items of `items` in the order that `order` gives.
fn arrange(items: &Vec<usize>, order: &Vec<usize>) -> (result: Vec<usize>)
    requires
        forall|j: int| 0 <= j < order@.len() ==> (#[trigger] order@[j]) < items@.len(),
    ensures
        result@ == arranged(items@, order@),
{
    let mut result: Vec<usize> = Vec::new();
    let mut j: usize = 0;
    while j < order.len()
        invariant
            j <= order@.len(),
            forall|j: int| 0 <= j < order@.len() ==> (#[trigger] order@[j]) < items@.len(),
            result@.len() == j,
            forall|p: int| 0 <= p < j ==> result@[p] == items@[order@[p] as int],
        decreases order@.len() - j,
    {
        result.push(items[order[j]]);
        j += 1;
    }
    result
}

/// The section that shields the cluster of houses with the perimeter
/// `perimeter`: its trees in the order of their reach turns.
fn make_city_section(
    board: &Board,
    reach: &Vec<i32>,
    perimeter: Vec<usize>,
    Ghost(houses): Ghost<Seq<usize>>,
) -> (section: Section)
    requires
        board.wf(),
        board@ == board@.reset(),
        reach@.len() == GRID_CELLS,
        forall|i: int| 0 <= i < GRID_CELLS ==> #[trigger] reach@[i] == board@.reach_turn(i) && 0
            <= reach@[i],
        perimeter@.len() > 0,
        perimeter@.no_duplicates(),
        forall|j: int| 0 <= j < perimeter@.len() ==> (#[trigger] perimeter@[j]) < GRID_CELLS,
        board@.is_cluster(houses, perimeter@),
    ensures
        section@ == board@.city_section(board@.reach_turns(), perimeter@),
        board@.is_sound_section(section@),
        board@.is_shield_section(section@),
        board@.is_cluster(houses, section@.cells),
{
    let ghost turns = board@.reach_turns();
    let mut keys: Vec<i64> = Vec::new();
    let mut j: usize = 0;
    while j < perimeter.len()
        invariant
            j <= perimeter@.len(),
            reach@.len() == GRID_CELLS,
            forall|j: int| 0 <= j < perimeter@.len() ==> (#[trigger] perimeter@[j]) < GRID_CELLS,
            keys@.len() == j,
            forall|p: int| 0 <= p < j ==> keys@[p] == reach@[perimeter@[p] as int],
        decreases perimeter@.len() - j,
    {
        keys.push(reach[perimeter[j]] as i64);
        j += 1;
    }
    assert(as_ints(keys@) =~= picked(turns, perimeter@));
    let order = sort_order(&keys);
    let cells = arrange(&perimeter, &order);
    proof {
        assert forall|j: int| 0 <= j < houses.len() implies board@.trees_listed(
            cells@,
            #[trigger] houses[j] as int,
            4,
        ) by {
            let x = houses[j] as int;
            assert forall|m: int| 0 <= m < 4 implies board@.tree_in(
                cells@,
                #[trigger] neighbours4(x)[m],
            ) by {
                let y = neighbours4(x)[m];
                if on_grid(y) && board@.cells[y] == Cell::Tree {
                    let q = choose|q: int| 0 <= q < perimeter@.len() && perimeter@[q] == y as usize;
                    assert(order@.contains(q as usize));
                    let a = choose|a: int| 0 <= a < order@.len() && order@[a] == q as usize;
                    assert(cells@[a] == y as usize);
                }
            }
        }
        assert(board@.is_cluster(houses, cells@));
    }
    let first = cells[0];
    make_section(board, cells, reach[first])
}

/// Once a cluster is found, every house that is marked belongs to a cluster
/// that has its section among the sections in case it has a perimeter and
/// the section is feasible.
proof fn lemma_houses_served(
    start: BoardView,
    before: Seq<bool>,
    visited: Seq<bool>,
    views: Seq<SectionView>,
    served: Seq<SectionView>,
    houses: Seq<usize>,
    shield: Seq<usize>,
)
    requires
        before.len() == GRID_CELLS,
        visited.len() == GRID_CELLS,
        views.len() <= served.len(),
        forall|j: int| 0 <= j < views.len() ==> served[j] == #[trigger] views[j],
        forall|h: int|
            0 <= h < GRID_CELLS && #[trigger] before[h] ==> start.is_house_served(views, h),
        forall|i: int|
            0 <= i < GRID_CELLS ==> (#[trigger] visited[i] <==> (before[i] || houses.contains(
                i as usize,
            ))),
        start.is_cluster_served(served, houses, shield),
    ensures
        forall|h: int|
            0 <= h < GRID_CELLS && #[trigger] visited[h] ==> start.is_house_served(served, h),
{
    assert forall|h: int| 0 <= h < GRID_CELLS && #[trigger] visited[h] implies start.is_house_served(
        served,
        h,
    ) by {
        if before[h] {
            let (hs, cs) = choose|hs: Seq<usize>, cs: Seq<usize>| #[trigger]
                start.is_cluster_served(views, hs, cs) && hs.contains(h as usize);
            if views.contains(start.shield_of(cs)) {
                let at = choose|at: int| 0 <= at < views.len() && views[at] == start.shield_of(cs);
                assert(served[at] == start.shield_of(cs));
            }
            assert(start.is_cluster_served(served, hs, cs));
        }
    }
}

/// Searches the cluster of the intact house at `idx`, which is not marked
/// yet, marks its houses, and adds the section that shields it to `sections`
/// if the cluster has a perimeter and the section is feasible.
fn city_of_house(
    board: &Board,
    reach: &Vec<i32>,
    visited: &mut Vec<bool>,
    sections: &mut Vec<Section>,
    idx: usize,
)
    requires
        board.wf(),
        board@ == board@.reset(),
        reach@.len() == GRID_CELLS,
        forall|i: int| 0 <= i < GRID_CELLS ==> #[trigger] reach@[i] == board@.reach_turn(i) && 0
            <= reach@[i],
        old(visited)@.len() == GRID_CELLS,
        idx < GRID_CELLS,
        board@.cells[idx as int] == Cell::House,
        !old(visited)@[idx as int],
        board@.marks_clusters(old(visited)@),
        forall|h: int|
            0 <= h < GRID_CELLS && #[trigger] old(visited)@[h] ==> board@.is_house_served(
                section_views(old(sections)@),
                h,
            ),
    ensures
        final(visited)@.len() == GRID_CELLS,
        board@.marks_clusters(final(visited)@),
        final(visited)@[idx as int],
        forall|i: int| 0 <= i < GRID_CELLS && old(visited)@[i] ==> #[trigger] final(visited)@[i],
        forall|h: int|
            0 <= h < GRID_CELLS && #[trigger] final(visited)@[h] ==> board@.is_house_served(
                section_views(final(sections)@),
                h,
            ),
        final(visited)@ == board@.flood_city(old(visited)@, seq![idx], Seq::empty()).0,
        section_views(final(sections)@) == ({
            let perimeter = board@.flood_city(old(visited)@, seq![idx], Seq::empty()).1;
            let section = board@.city_section(board@.reach_turns(), perimeter);
            if perimeter.len() > 0 && section.is_feasible() {
                section_views(old(sections)@).push(section)
            } else {
                section_views(old(sections)@)
            }
        }),
        final(sections)@.len() >= old(sections)@.len(),
        forall|j: int|
            0 <= j < old(sections)@.len() ==> #[trigger] final(sections)@[j] == old(sections)@[j],
        forall|j: int|
            old(sections)@.len() <= j < final(sections)@.len() ==>
                (#[trigger] final(sections)@[j])@.is_feasible() && board@.is_sound_section(
                final(sections)@[j]@,
            ) && board@.is_shield_section(final(sections)@[j]@),
{
    let ghost now = board@;
    let ghost before = visited@;
    let ghost views = section_views(sections@);
    let (perimeter, houses) = search_city(board, visited, idx);
    let ghost mut shield = perimeter@;
    if perimeter.len() > 0 {
        let section = make_city_section(board, reach, perimeter, houses);
        proof {
            shield = section@.cells;
        }
        if section.time_to_save <= section.time_to_reach {
            let ghost made = section@;
            sections.push(section);
            proof {
                assert(section_views(sections@) =~= views.push(made));
                assert(section_views(sections@)[views.len() as int] == made);
            }
        }
    }
    proof {
        let served = section_views(sections@);
        assert(now.is_cluster_served(served, houses@, shield));
        lemma_houses_served(now, before, visited@, views, served, houses@, shield);
    }
}

/// The sections that shield the houses, found on the board at turn zero with
/// the reach turns of a run of the fire that nobody interferes with. The
/// board is left at turn zero.
///
/// For each cluster of intact houses that touch each other orthogonally, the
/// intact trees next to the cluster, all of them, are put in the order of
/// their reach turns. They become a section if there are any and the section
/// is feasible: its `time_to_save` is at most its `time_to_reach`, the
/// earliest reach turn among them. Every intact house belongs to a cluster,
/// and every cluster with a feasible section has it in the result.
pub fn compute_city_sections(board: &mut Board) -> (sections: Vec<Section>)
    requires
        old(board).wf(),
    ensures
        final(board).wf(),
        final(board)@ == old(board)@.reset(),
        final(board)@.reset() == final(board)@,
        section_views(sections@) == old(board)@.city_sections(),
        forall|j: int| 0 <= j < sections@.len() ==> (#[trigger] sections@[j])@.is_feasible(),
        forall|j: int|
            0 <= j < sections@.len() ==> old(board)@.is_sound_section((#[trigger] sections@[j])@),
        forall|j: int|
            0 <= j < sections@.len() ==> old(board)@.is_shield_section((#[trigger] sections@[j])@),
        forall|h: int|
            0 <= h < GRID_CELLS && #[trigger] old(board)@.reset().cells[h] == Cell::House
                ==> old(board)@.reset().is_house_served(section_views(sections@), h),
{
    let ghost origin = board@;
    let reach = compute_reach_turns(board);
    let ghost start = board@;
    let ghost turns = start.reach_turns();
    let mut visited = no_marks();
    let ghost marks = visited@;
    let mut sections: Vec<Section> = Vec::new();
    proof {
        lemma_same_frame(origin, start);
        assert(section_views(sections@) =~= Seq::empty());
        lemma_cities_skip(start, turns, marks, Seq::empty(), 0, STRIDE + 1);
    }
    let height = board.get_height();
    let width = board.get_width();
    let mut row: usize = 1;
    while row < height - 1
        invariant
            board.wf(),
            board@ == start,
            start.reset() == start,
            start.reach_turns() == turns,
            height == start.height,
            width == start.width,
            1 <= row <= height - 1,
            reach@.len() == GRID_CELLS,
            forall|i: int|
                0 <= i < GRID_CELLS ==> #[trigger] reach@[i] == start.reach_turn(i) && 0
                    <= reach@[i],
            visited@.len() == GRID_CELLS,
            start.marks_clusters(visited@),
            forall|h: int|
                0 <= h < GRID_CELLS && #[trigger] visited@[h] ==> start.is_house_served(
                    section_views(sections@),
                    h,
                ),
            forall|i: int|
                0 <= i < row * STRIDE + 1 && #[trigger] start.cells[i] == Cell::House
                    ==> visited@[i],
            start.cities_from(turns, visited@, section_views(sections@), row * STRIDE + 1)
                == start.cities_from(turns, marks, Seq::empty(), 0),
            forall|j: int|
                0 <= j < sections@.len() ==> (#[trigger] sections@[j])@.is_feasible()
                    && start.is_sound_section(sections@[j]@) && start.is_shield_section(
                    sections@[j]@,
                ),
        decreases height - row,
    {
        let mut col: usize = 1;
        while col < width - 1
            invariant
                board.wf(),
                board@ == start,
                start.reset() == start,
                start.reach_turns() == turns,
                height == start.height,
                width == start.width,
                1 <= row < height - 1,
                1 <= col <= width - 1,
                reach@.len() == GRID_CELLS,
                forall|i: int|
                    0 <= i < GRID_CELLS ==> #[trigger] reach@[i] == start.reach_turn(i) && 0
                        <= reach@[i],
                visited@.len() == GRID_CELLS,
                start.marks_clusters(visited@),
                forall|h: int|
                    0 <= h < GRID_CELLS && #[trigger] visited@[h] ==> start.is_house_served(
                        section_views(sections@),
                        h,
                    ),
                forall|i: int|
                    0 <= i < row * STRIDE + col && #[trigger] start.cells[i] == Cell::House
                        ==> visited@[i],
                start.cities_from(turns, visited@, section_views(sections@), row * STRIDE + col)
                    == start.cities_from(turns, marks, Seq::empty(), 0),
                forall|j: int|
                    0 <= j < sections@.len() ==> (#[trigger] sections@[j])@.is_feasible()
                        && start.is_sound_section(sections@[j]@) && start.is_shield_section(
                        sections@[j]@,
                    ),
            decreases width - col,
        {
            let idx = row * 50 + col;
            if !visited[idx] {
                if let Cell::House = board.get_cell(idx) {
                    let ghost known = sections@;
                    city_of_house(board, &reach, &mut visited, &mut sections, idx);
                    proof {
                        assert forall|j: int| 0 <= j < sections@.len() implies (
                        #[trigger] sections@[j])@.is_feasible() && start.is_sound_section(
                            sections@[j]@,
                        ) && start.is_shield_section(sections@[j]@) by {
                            if j < known.len() {
                                assert(sections@[j] == known[j]);
                            }
                        }
                    }
                }
            }
            col += 1;
        }
        proof {
            lemma_cities_skip(
                start,
                turns,
                visited@,
                section_views(sections@),
                row * STRIDE + col,
                (row + 1) * STRIDE + 1,
            );
        }
        row += 1;
    }
    proof {
        lemma_cities_skip(
            start,
            turns,
            visited@,
            section_views(sections@),
            row * STRIDE + 1,
            GRID_CELLS as int,
        );
        assert forall|j: int| 0 <= j < sections@.len() implies origin.is_sound_section(
            (#[trigger] sections@[j])@,
        ) && origin.is_shield_section(sections@[j]@) by {
            let section = sections@[j]@;
            assert(start.is_sound_section(section));
            assert(start.is_shield_section(section));
            assert forall|p: int| 0 <= p < section.cells.len() implies origin.is_flammable(
                #[trigger] section.cells[p] as int,
            ) by {
                assert(start.is_flammable(section.cells[p] as int));
            }
        }
    }
    sections
}

/// A copy of a section.
fn copy_section(section: &Section) -> (copy: Section)
    ensures
        copy@ == section@,
{
    let cells = section.sections.clone();
    Section {
        sections: cells,
        time_to_cut: section.time_to_cut,
        time_to_reach: section.time_to_reach,
        time_to_save: section.time_to_save,
    }
}

/// All sections in their order. The board is left at turn zero.
///
/// The sections of the fire fronts and those that shield houses are put
/// together and ordered by `time_to_reach`, sections that the fire reaches at
/// the same turn by `time_to_save`. Sections that are equal in both keep
/// their order, fire fronts first. Each section is feasible.
pub fn compute_sections(board: &mut Board) -> (sections: Vec<Section>)
    requires
        old(board).wf(),
    ensures
        final(board).wf(),
        final(board)@ == old(board)@.reset(),
        final(board)@.reset() == final(board)@,
        section_views(sections@) == old(board)@.sections(),
        forall|j: int| 0 <= j < sections@.len() ==> (#[trigger] sections@[j])@.is_feasible(),
        forall|j: int|
            0 <= j < sections@.len() ==> old(board)@.is_sound_section((#[trigger] sections@[j])@),
        forall|j: int|
            0 <= j < sections@.len() ==> old(board)@.is_front_section((#[trigger] sections@[j])@)
                || old(board)@.is_shield_section(sections@[j]@),
        forall|a: int, b: int|
            0 <= a <= b < sections@.len() ==> (#[trigger] sections@[a])@.not_after(
                (#[trigger] sections@[b])@,
            ),
        forall|x: int|
            0 <= x < GRID_CELLS && #[trigger] old(board)@.reset().reach_turn(x) != NEVER
                ==> old(board)@.is_cell_served(section_views(sections@), x),
        forall|h: int|
            0 <= h < GRID_CELLS && #[trigger] old(board)@.reset().cells[h] == Cell::House
                ==> old(board)@.reset().is_house_served(section_views(sections@), h),
{
    let ghost origin = board@;
    let mut all = compute_front_sections(board);
    let ghost fronts = section_views(all@);
    proof {
        lemma_same_frame(origin, board@);
    }
    let mut city_sections = compute_city_sections(board);
    let ghost cities = section_views(city_sections@);
    all.append(&mut city_sections);
    let ghost views = section_views(all@);
    proof {
        assert(views =~= fronts + cities);
        assert(views =~= origin.front_sections() + origin.city_sections());
    }
    let mut keys: Vec<i64> = Vec::new();
    let mut j: usize = 0;
    while j < all.len()
        invariant
            j <= all@.len(),
            keys@.len() == j,
            forall|p: int| 0 <= p < j ==> keys@[p] == (#[trigger] all@[p])@.rank(),
            forall|p: int| 0 <= p < all@.len() ==> origin.is_sound_section((#[trigger] all@[p])@),
        decreases all@.len() - j,
    {
        let section = &all[j];
        keys.push(section.time_to_reach as i64 * 0x1_0000_0000 + section.time_to_save as i64);
        j += 1;
    }
    assert(as_ints(keys@) =~= ranks(views));
    let order = sort_order(&keys);
    let mut sections: Vec<Section> = Vec::new();
    let mut j: usize = 0;
    while j < order.len()
        invariant
            j <= order@.len(),
            order@.len() == all@.len(),
            forall|p: int| 0 <= p < order@.len() ==> (#[trigger] order@[p]) < all@.len(),
            sections@.len() == j,
            forall|p: int| 0 <= p < j ==> (#[trigger] sections@[p])@ == all@[order@[p] as int]@,
        decreases order@.len() - j,
    {
        sections.push(copy_section(&all[order[j]]));
        j += 1;
    }
    proof {
        let start = origin.reset();
        let result = section_views(sections@);
        assert forall|s: SectionView| views.contains(s) implies result.contains(s) by {
            let p = choose|p: int| 0 <= p < views.len() && views[p] == s;
            assert(order@.contains(p as usize));
            let a = choose|a: int| 0 <= a < order@.len() && order@[a] == p as usize;
            assert(result[a] == s);
        }
        assert forall|s: SectionView| fronts.contains(s) implies views.contains(s) by {
            let p = choose|p: int| 0 <= p < fronts.len() && fronts[p] == s;
            assert(views[p] == s);
        }
        assert forall|s: SectionView| cities.contains(s) implies views.contains(s) by {
            let p = choose|p: int| 0 <= p < cities.len() && cities[p] == s;
            assert(views[fronts.len() + p] == s);
        }
        assert forall|x: int|
            0 <= x < GRID_CELLS && #[trigger] start.reach_turn(x)
                != NEVER implies origin.is_cell_served(result, x) by {
            assert(origin.is_cell_served(fronts, x));
            let (cs, t) = choose|cs: Seq<usize>, t: int| #[trigger]
                origin.is_front_served(fronts, cs, t) && cs.contains(x as usize);
            assert(origin.is_front_served(result, cs, t));
        }
        assert forall|h: int|
            0 <= h < GRID_CELLS && #[trigger] start.cells[h]
                == Cell::House implies start.is_house_served(result, h) by {
            assert(start.is_house_served(cities, h));
            let (hs, cs) = choose|hs: Seq<usize>, cs: Seq<usize>| #[trigger]
                start.is_cluster_served(cities, hs, cs) && hs.contains(h as usize);
            assert(start.is_cluster_served(result, hs, cs));
        }
    }
    sections
}

/// Replays the plan `actions` on the board from turn zero and returns the
/// score that it ends with. The board is left at turn zero.
///
/// Before each turn the next action of the plan is issued if a new cut may
/// start; then the board takes one step. The replay ends when the fire has
/// burnt out. The result depends on the plan and on the board's frame alone,
/// not on the state in which the board was handed in.
pub fn evaluate_option(actions: &[usize], board: &mut Board) -> (score: i32)
    requires
        old(board).wf(),
    ensures
        final(board).wf(),
        final(board)@ == old(board)@.reset(),
        final(board)@.reset() == final(board)@,
        same_frame(old(board)@, final(board)@),
        score == old(board)@.evaluate(actions@),
        score == final(board)@.evaluate(actions@),
        0 <= score <= old(board)@.initial_value(),
{
    let ghost origin = board@;
    board.reset();
    let ghost start = board@;
    let mut idx_action: usize = 0;
    let mut end = false;
    while !end
        invariant
            board.wf(),
            origin.frame_wf(),
            same_frame(origin, board@),
            idx_action <= actions.len(),
            start == origin.reset(),
            start.wf(),
            end ==> board@ == start.run(actions@, 0),
            !end ==> board@.run(actions@, idx_action as int) == start.run(actions@, 0),
        decreases board@.fuel() + (if end { 0int } else { 1int }),
    {
        proof {
            lemma_turn(board@, actions@, idx_action as int);
        }
        if board.can_act() && idx_action < actions.len() {
            board.cut(actions[idx_action]);
            idx_action += 1;
        }
        end = board.step();
    }
    let score = board.score();
    proof {
        lemma_same_frame(origin, board@);
    }
    board.reset();
    score
}

/// The cells of `first` followed by those of `second`.
fn join(first: &Vec<usize>, second: &Vec<usize>) -> (both: Vec<usize>)
    ensures
        both@ == first@ + second@,
{
    let mut both: Vec<usize> = Vec::new();
    let mut j: usize = 0;
    while j < first.len()
        invariant
            j <= first@.len(),
            both@ == first@.take(j as int),
        decreases first@.len() - j,
    {
        both.push(first[j]);
        j += 1;
    }
    let mut k: usize = 0;
    while k < second.len()
        invariant
            k <= second@.len(),
            both@ == first@ + second@.take(k as int),
        decreases second@.len() - k,
    {
        both.push(second[k]);
        k += 1;
    }
    both
}

/// Whether the two sections have no cell in common.
fn sections_apart(first: &Section, second: &Section) -> (apart: bool)
    ensures
        apart == are_apart(first@, second@),
{
    let mut p: usize = 0;
    while p < first.sections.len()
        invariant
            p <= first@.cells.len(),
            forall|a: int, q: int|
                0 <= a < p && 0 <= q < second@.cells.len() ==> #[trigger] first@.cells[a]
                    != #[trigger] second@.cells[q],
        decreases first@.cells.len() - p,
    {
        if is_listed(&second.sections, first.sections[p]) {
            proof {
                let q = choose|q: int|
                    0 <= q < second@.cells.len() && second@.cells[q] == first@.cells[p as int];
                assert(first@.cells[p as int] == second@.cells[q]);
            }
            return false;
        }
        p += 1;
    }
    true
}

/// The best of the plans that can be made of up to two of the sections
/// `options`, taken in their order. The board is left at turn zero.
///
/// The plans are tried in this order: the empty plan; then for each section
/// that fits alone, the plan of that section and the plans of that section
/// and one behind it that fits after it and has no cell in common with it.
/// Each plan is replayed on the board
/// from turn zero. The result is the first plan that no other plan beats: no
/// plan replays to a higher score, and every plan tried before it replays to
/// a lower one. In particular it replays at least as well as the empty plan.
pub fn find_combinations(options: &[Section], board: &mut Board) -> (plan: Vec<usize>)
    requires
        old(board).wf(),
    ensures
        final(board).wf(),
        final(board)@ == old(board)@.reset(),
        final(board)@.reset() == final(board)@,
        plan@ == old(board)@.best_plan(candidates(section_views(options@))),
        exists|b: int|
            old(board)@.is_best(candidates(section_views(options@)), b) && plan@
                == #[trigger] candidates(section_views(options@))[b],
        old(board)@.evaluate(plan@) >= old(board)@.evaluate(Seq::empty()),
        forall|k: int|
            0 <= k < plan@.len() ==> is_cell_of(section_views(options@), #[trigger] plan@[k]),
        sections_without_repeats(section_views(options@)) ==> plan@.no_duplicates(),
{
    let ghost origin = board@;
    let ghost views = section_views(options@);
    proof {
        lemma_plans_sound(views, views.len() as int);
    }
    let count = options.len();
    let nothing: Vec<usize> = Vec::new();
    let mut best_score = evaluate_option(nothing.as_slice(), board);
    let mut best_option: Vec<usize> = Vec::new();
    let ghost mut seen: Seq<Seq<usize>> = seq![Seq::empty()];
    let ghost mut best: int = 0;
    let mut i: usize = 0;
    while i < count
        invariant
            board.wf(),
            origin.frame_wf(),
            board@ == origin.reset(),
            origin.reset().reset() == origin.reset(),
            views == section_views(options@),
            count == options@.len(),
            i <= count,
            seen == plans(views, i as int),
            origin.is_best(seen, best),
            seen[0] == Seq::<usize>::empty(),
            best_option@ == seen[best],
            best_score == origin.evaluate(seen[best]),
        decreases count - i,
    {
        let first = &options[i];
        if first.time_to_cut < first.time_to_reach {
            let actions = first.sections.clone();
            let score = evaluate_option(actions.as_slice(), board);
            proof {
                let ghost tried = seen.push(actions@);
                if score > best_score {
                    best = seen.len() as int;
                }
                seen = tried;
            }
            if score > best_score {
                best_score = score;
                best_option = actions;
            }
            let ghost base = seen;
            let mut j: usize = i + 1;
            while j < count
                invariant
                    board.wf(),
                    origin.frame_wf(),
                    board@ == origin.reset(),
                    origin.reset().reset() == origin.reset(),
                    views == section_views(options@),
                    count == options@.len(),
                    i < j <= count,
                    first == options@[i as int],
                    views[i as int] == first@,
                    seen == base + pair_plans(views, i as int, j as int),
                    base.len() > 0,
                    origin.is_best(seen, best),
                    seen[0] == Seq::<usize>::empty(),
                    best_option@ == seen[best],
                    best_score == origin.evaluate(seen[best]),
                decreases count - j,
            {
                let second = &options[j];
                if (first.time_to_cut as i64) + (second.time_to_cut as i64) < (
                second.time_to_reach as i64) && sections_apart(first, second) {
                    let actions = join(&first.sections, &second.sections);
                    let score = evaluate_option(actions.as_slice(), board);
                    proof {
                        let ghost tried = seen.push(actions@);
                        if score > best_score {
                            best = seen.len() as int;
                        }
                        seen = tried;
                    }
                    if score > best_score {
                        best_score = score;
                        best_option = actions;
                    }
                }
                j += 1;
            }
        }
        i += 1;
    }
    best_option
}

/// Plans the cuts for the board: the ordered list of the cells to cut. The
/// board is left at turn zero.
///
/// The plan is the best of the plans that can be made of up to two of the
/// board's sections that have no cell in common. It is empty if no section
/// fits, and it never replays to a lower score than the empty plan. It holds
/// no cell twice, and each of its cells is a tree or a house inside the
/// border. The strategy is exhaustive: every such plan is tried, so two
/// calls on the same board give the same plan.
pub fn solve(board: &mut Board) -> (plan: Vec<usize>)
    requires
        old(board).wf(),
    ensures
        final(board).wf(),
        final(board)@ == old(board)@.reset(),
        final(board)@.reset() == final(board)@,
        plan@ == old(board)@.plan(),
        old(board)@.evaluate(plan@) >= old(board)@.evaluate(Seq::empty()),
        plan@.no_duplicates(),
        forall|k: int|
            0 <= k < plan@.len() ==> old(board)@.is_flammable(#[trigger] plan@[k] as int),
{
    let ghost origin = board@;
    let sections = compute_sections(board);
    let ghost start = board@;
    let ghost views = section_views(sections@);
    let ghost tried = candidates(views);
    let plan = find_combinations(sections.as_slice(), board);
    proof {
        let b = choose|b: int| start.is_best(tried, b) && plan@ == #[trigger] tried[b];
        assert(origin.is_best(tried, b));
        assert forall|i: int| 0 <= i < views.len() implies (
        #[trigger] views[i]).cells.no_duplicates() by {
            assert(origin.is_sound_section(sections@[i]@));
        }
        assert forall|k: int| 0 <= k < plan@.len() implies origin.is_flammable(
            #[trigger] plan@[k] as int,
        ) by {
            assert(is_cell_of(views, plan@[k]));
            let (i, j) = choose|i: int, j: int|
                0 <= i < views.len() && 0 <= j < views[i].cells.len()
                    && #[trigger] views[i].cells[j] == plan@[k];
            assert(origin.is_sound_section(sections@[i]@));
            assert(origin.is_flammable(views[i].cells[j] as int));
        }
    }
    plan
}

} // verus!

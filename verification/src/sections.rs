//! The sections of a grid as mathematics: the groups of cells that a plan
//! cuts as one, found on a run of the fire that nobody interferes with.

use vstd::prelude::*;
use crate::cell::Cell;
use crate::dynamics::lemma_step_fuel;
use crate::model::{BoardView, GRID_CELLS, STRIDE, on_grid};
use crate::reach::{NEVER, lemma_burns_early, lemma_reach_turn_exists, lemma_reached_now};
use crate::order::{arranged, stable_order};
use crate::sums::{picked, sum};

verus! {

/// A section as a mathematical value.
pub struct SectionView {
    /// Indices of the section's cells, in the order in which a plan cuts them.
    pub cells: Seq<usize>,
    /// Turns that cutting all cells of the section takes.
    pub time_to_cut: int,
    /// Turn at which the fire reaches the section if nobody interferes.
    pub time_to_reach: int,
    /// Turns of cutting that must lie before the fire's arrival: the time to
    /// cut the section, less the cutting time of the first cell, plus one.
    pub time_to_save: int,
}

impl SectionView {
    /// Whether there is a chance to cut the section before the fire reaches
    /// it.
    pub open spec fn is_feasible(self) -> bool {
        self.time_to_save <= self.time_to_reach
    }

    /// The place of the section in the order of all sections: by
    /// `time_to_reach` first, by `time_to_save` among sections that the fire
    /// reaches at the same turn.
    pub open spec fn rank(self) -> int {
        self.time_to_reach * 0x1_0000_0000 + self.time_to_save
    }
}

/// Number of entries of `marks` that are not set.
pub open spec fn unmarked(marks: Seq<bool>) -> nat
    decreases marks.len(),
{
    if marks.len() == 0 {
        0
    } else {
        unmarked(marks.drop_last()) + if marks.last() {
            0nat
        } else {
            1nat
        }
    }
}

/// Setting an entry that was not set leaves one fewer unset.
pub proof fn lemma_mark(marks: Seq<bool>, i: int)
    requires
        0 <= i < marks.len(),
        !marks[i],
    ensures
        unmarked(marks.update(i, true)) + 1 == unmarked(marks),
    decreases marks.len(),
{
    let set = marks.update(i, true);
    if i == marks.len() - 1 {
        assert(set.drop_last() =~= marks.drop_last());
    } else {
        assert(set.drop_last() =~= marks.drop_last().update(i, true));
        lemma_mark(marks.drop_last(), i);
    }
}

/// The eight neighbours of the cell at `i`, in the order in which a fire
/// front is searched: left, above, right, below, then the four diagonals.
pub open spec fn neighbours8(i: int) -> Seq<int> {
    seq![
        i - 1,
        i - STRIDE,
        i + 1,
        i + STRIDE,
        i - STRIDE - 1,
        i - STRIDE + 1,
        i + STRIDE - 1,
        i + STRIDE + 1,
    ]
}

/// The four orthogonal neighbours of the cell at `i`, in the order in which
/// a cluster of houses is searched: left, above, right, below.
pub open spec fn neighbours4(i: int) -> Seq<int> {
    seq![i - 1, i - STRIDE, i + 1, i + STRIDE]
}

/// Whether the cell at `y` is taken care of in the search of a front, in case
/// it burns: it is marked already, or it waits in the queue.
pub open spec fn is_pending(
    fires: Seq<usize>,
    marks: Seq<bool>,
    queue: Seq<usize>,
    y: int,
) -> bool {
    0 <= y < marks.len() && fires.contains(y as usize) ==> marks[y] || queue.contains(y as usize)
}

/// Whether the first `k` neighbours of the cell at `x` are taken care of.
pub open spec fn all_pending(
    fires: Seq<usize>,
    marks: Seq<bool>,
    queue: Seq<usize>,
    x: int,
    k: int,
) -> bool {
    forall|m: int| 0 <= m < k ==> is_pending(fires, marks, queue, #[trigger] neighbours8(x)[m])
}

/// Whether every burning neighbour of the cell at `x`, diagonals included, is
/// marked.
pub open spec fn is_closed(fires: Seq<usize>, marks: Seq<bool>, x: int) -> bool {
    all_pending(fires, marks, Seq::empty(), x, 8)
}

/// `queue` with those of the first `k` neighbours of the cell at `i` added
/// that burn and are not marked.
pub open spec fn enqueue_front(
    fires: Seq<usize>,
    marks: Seq<bool>,
    queue: Seq<usize>,
    i: int,
    k: int,
) -> Seq<usize>
    decreases k,
{
    if k <= 0 {
        queue
    } else {
        let before = enqueue_front(fires, marks, queue, i, k - 1);
        let n = neighbours8(i)[k - 1];
        if 0 <= n < marks.len() && fires.contains(n as usize) && !marks[n] {
            before.push(n as usize)
        } else {
            before
        }
    }
}

/// The search of one fire front. Cells wait in `queue`; the first that is not
/// marked yet is marked, joins `found`, and has its burning, unmarked
/// neighbours wait behind the others. The result is the marks and the cells
/// found when nothing waits any more.
pub open spec fn flood_front(
    fires: Seq<usize>,
    marks: Seq<bool>,
    queue: Seq<usize>,
    found: Seq<usize>,
) -> (Seq<bool>, Seq<usize>)
    decreases unmarked(marks), queue.len(),
{
    if queue.len() == 0 {
        (marks, found)
    } else {
        let i = queue[0] as int;
        let rest = queue.subrange(1, queue.len() as int);
        if i >= marks.len() || marks[i] {
            flood_front(fires, marks, rest, found)
        } else {
            let marked = marks.update(i, true);
            proof {
                lemma_mark(marks, i);
            }
            flood_front(
                fires,
                marked,
                enqueue_front(fires, marked, rest, i, 8),
                found.push(i as usize),
            )
        }
    }
}

impl BoardView {
    /// Turns that cutting each cell would take as the board stands.
    pub open spec fn cut_durations(self) -> Seq<int> {
        Seq::new(self.cells.len(), |i: int| self.rules.cut_duration(self.cells[i]))
    }

    /// The section made of `cells`, in that order, that the fire reaches at
    /// turn `reach`.
    pub open spec fn section(self, cells: Seq<usize>, reach: int) -> SectionView {
        let times = picked(self.cut_durations(), cells);
        SectionView {
            cells,
            time_to_cut: sum(times),
            time_to_reach: reach,
            time_to_save: sum(times) - times[0] + 1,
        }
    }

    /// The marks and the sections after the fires of this turn have been
    /// looked at from the `k`-th on: each fire that is not marked yet starts
    /// the search of its front, and the front becomes a section if it is
    /// feasible.
    pub open spec fn front_turn(
        self,
        turn: int,
        marks: Seq<bool>,
        sections: Seq<SectionView>,
        k: int,
    ) -> (Seq<bool>, Seq<SectionView>)
        decreases self.fires.len() - k,
    {
        if k < 0 || k >= self.fires.len() {
            (marks, sections)
        } else {
            let seed = self.fires[k];
            if seed >= marks.len() || marks[seed as int] {
                self.front_turn(turn, marks, sections, k + 1)
            } else {
                let front = flood_front(self.fires, marks, seq![seed], Seq::empty());
                let section = self.section(front.1, turn);
                self.front_turn(
                    turn,
                    front.0,
                    if section.is_feasible() {
                        sections.push(section)
                    } else {
                        sections
                    },
                    k + 1,
                )
            }
        }
    }

    /// The sections of the fire fronts from this turn on, the board being at
    /// turn `turn` of a run that nobody interferes with.
    pub open spec fn fronts_from(
        self,
        turn: int,
        marks: Seq<bool>,
        sections: Seq<SectionView>,
    ) -> Seq<SectionView>
        decreases self.fuel(),
        when self.wf()
    {
        let found = self.front_turn(turn, marks, sections, 0);
        let after = self.step();
        if after.burnt_out() {
            found.1
        } else {
            proof {
                lemma_step_fuel(self);
            }
            after.fronts_from(turn + 1, found.0, found.1)
        }
    }

    /// The sections of the fire fronts: for each turn of a run that nobody
    /// interferes with, in order, the groups of cells that catch fire at that
    /// turn and touch each other, diagonals included, as far as they are
    /// feasible.
    pub open spec fn front_sections(self) -> Seq<SectionView> {
        self.reset().fronts_from(0, Seq::new(GRID_CELLS as nat, |i: int| false), Seq::empty())
    }
}

impl BoardView {
    /// The queue of houses and the perimeter once the first `k` neighbours of
    /// the house at `i` have been looked at: a neighbour that is a house
    /// waits in the queue, one that is a tree joins the perimeter unless it is
    /// there already.
    pub open spec fn visit_city(
        self,
        queue: Seq<usize>,
        perimeter: Seq<usize>,
        i: int,
        k: int,
    ) -> (Seq<usize>, Seq<usize>)
        decreases k,
    {
        if k <= 0 {
            (queue, perimeter)
        } else {
            let before = self.visit_city(queue, perimeter, i, k - 1);
            let n = neighbours4(i)[k - 1];
            if !on_grid(n) {
                before
            } else if self.cells[n] == Cell::House {
                (before.0.push(n as usize), before.1)
            } else if self.cells[n] == Cell::Tree && !before.1.contains(n as usize) {
                (before.0, before.1.push(n as usize))
            } else {
                before
            }
        }
    }

    /// The search of one cluster of houses. Houses wait in `queue`; the first
    /// that is not marked yet is marked and has its four neighbours looked at.
    /// The result is the marks and the perimeter when nothing waits any more.
    pub open spec fn flood_city(
        self,
        marks: Seq<bool>,
        queue: Seq<usize>,
        perimeter: Seq<usize>,
    ) -> (Seq<bool>, Seq<usize>)
        decreases unmarked(marks), queue.len(),
    {
        if queue.len() == 0 {
            (marks, perimeter)
        } else {
            let i = queue[0] as int;
            let rest = queue.subrange(1, queue.len() as int);
            if i >= marks.len() || marks[i] {
                self.flood_city(marks, rest, perimeter)
            } else {
                let marked = marks.update(i, true);
                proof {
                    lemma_mark(marks, i);
                }
                let seen = self.visit_city(rest, perimeter, i, 4);
                self.flood_city(marked, seen.0, seen.1)
            }
        }
    }

    /// Whether the cell at `y` is taken care of in the search of a cluster,
    /// in case it is an intact house: it is marked already, or it waits in
    /// the queue.
    pub open spec fn house_pending(self, marks: Seq<bool>, queue: Seq<usize>, y: int) -> bool {
        on_grid(y) && self.cells[y] == Cell::House ==> marks[y] || queue.contains(y as usize)
    }

    /// Whether the intact houses among the first `k` orthogonal neighbours of
    /// the cell at `x` are taken care of.
    pub open spec fn houses_pending(
        self,
        marks: Seq<bool>,
        queue: Seq<usize>,
        x: int,
        k: int,
    ) -> bool {
        forall|m: int| 0 <= m < k ==> self.house_pending(marks, queue, #[trigger] neighbours4(x)[m])
    }

    /// Whether the marks mark whole clusters: every marked cell is an intact
    /// house, and every intact house next to it is marked too.
    pub open spec fn marks_clusters(self, marks: Seq<bool>) -> bool {
        forall|h: int|
            0 <= h < GRID_CELLS && #[trigger] marks[h] ==> self.cells[h] == Cell::House
                && self.houses_pending(marks, Seq::empty(), h, 4)
    }

    /// The section that shields a cluster of houses with the perimeter
    /// `perimeter`, `reach` being the reach turns of all cells: the trees of
    /// the perimeter in the order of their reach turns, trees with equal reach
    /// turns in the order in which the search found them. The fire reaches
    /// the section when it reaches the first of them.
    pub open spec fn city_section(self, reach: Seq<int>, perimeter: Seq<usize>) -> SectionView {
        let keys = picked(reach, perimeter);
        let cells = arranged(perimeter, stable_order(keys, perimeter.len() as int));
        self.section(cells, reach[cells[0] as int])
    }

    /// The sections that shield the clusters of houses whose first house, in
    /// the order of the indices, is at `i` or behind.
    pub open spec fn cities_from(
        self,
        reach: Seq<int>,
        marks: Seq<bool>,
        sections: Seq<SectionView>,
        i: int,
    ) -> Seq<SectionView>
        decreases GRID_CELLS - i,
    {
        if i < 0 || i >= GRID_CELLS {
            sections
        } else if i >= marks.len() || marks[i] || self.cells[i] != Cell::House {
            self.cities_from(reach, marks, sections, i + 1)
        } else {
            let cluster = self.flood_city(marks, seq![i as usize], Seq::empty());
            let section = self.city_section(reach, cluster.1);
            self.cities_from(
                reach,
                cluster.0,
                if cluster.1.len() > 0 && section.is_feasible() {
                    sections.push(section)
                } else {
                    sections
                },
                i + 1,
            )
        }
    }

    /// The sections that shield the houses: for each cluster of intact houses
    /// that touch each other orthogonally, in the order of their first houses,
    /// the intact trees next to the cluster, as far as the cluster has any and
    /// the section is feasible.
    pub open spec fn city_sections(self) -> Seq<SectionView> {
        self.reset().cities_from(
            self.reset().reach_turns(),
            Seq::new(GRID_CELLS as nat, |i: int| false),
            Seq::empty(),
            0,
        )
    }
}

/// Cells that are no intact houses start no cluster.
pub proof fn lemma_cities_skip(
    v: BoardView,
    reach: Seq<int>,
    marks: Seq<bool>,
    sections: Seq<SectionView>,
    from: int,
    to: int,
)
    requires
        0 <= from <= to <= GRID_CELLS,
        forall|i: int| from <= i < to ==> v.cells[i] != Cell::House,
    ensures
        v.cities_from(reach, marks, sections, from) == v.cities_from(reach, marks, sections, to),
    decreases to - from,
{
    if from < to {
        lemma_cities_skip(v, reach, marks, sections, from + 1, to);
    }
}

/// The place of the cell at `x` among the neighbours of its `m`-th
/// neighbour.
pub open spec fn mirror(m: int) -> int {
    if m == 0 {
        2
    } else if m == 1 {
        3
    } else if m == 2 {
        0
    } else if m == 3 {
        1
    } else if m == 4 {
        7
    } else if m == 5 {
        6
    } else if m == 6 {
        5
    } else {
        4
    }
}

/// A cell is a neighbour of each of its neighbours.
pub proof fn lemma_neighbour_back(x: int, m: int)
    requires
        0 <= m < 8,
    ensures
        0 <= mirror(m) < 8,
        neighbours8(neighbours8(x)[m])[mirror(m)] == x,
{
}

/// Whether the cell at `y` is one of the eight neighbours of the cell at `x`.
pub open spec fn is_neighbour8(x: int, y: int) -> bool {
    exists|m: int| 0 <= m < 8 && #[trigger] neighbours8(x)[m] == y
}

/// Whether the cell at place `j` of `cells` is a neighbour, diagonals
/// included, of a cell at a place before it.
pub open spec fn touches_earlier(cells: Seq<usize>, j: int) -> bool {
    exists|i: int| 0 <= i < j && is_neighbour8(#[trigger] cells[i] as int, cells[j] as int)
}

/// Whether the cells hang together: each cell but the first is a neighbour,
/// diagonals included, of a cell before it, and so is linked to the first by
/// a chain of neighbouring cells of the list.
pub open spec fn is_chained(cells: Seq<usize>) -> bool {
    forall|j: int| 0 < j < cells.len() ==> #[trigger] touches_earlier(cells, j)
}

/// Whether the cell at `y` is one of the four orthogonal neighbours of the
/// cell at `x`.
pub open spec fn is_neighbour4(x: int, y: int) -> bool {
    exists|m: int| 0 <= m < 4 && #[trigger] neighbours4(x)[m] == y
}

/// Whether the cell at place `j` of `cells` is an orthogonal neighbour of a
/// cell at a place before it.
pub open spec fn touches_earlier4(cells: Seq<usize>, j: int) -> bool {
    exists|i: int| 0 <= i < j && is_neighbour4(#[trigger] cells[i] as int, cells[j] as int)
}

/// Whether the cells hang together orthogonally: each cell but the first is
/// an orthogonal neighbour of a cell before it.
pub open spec fn is_chained4(cells: Seq<usize>) -> bool {
    forall|j: int| 0 < j < cells.len() ==> #[trigger] touches_earlier4(cells, j)
}

/// Whether the cell at `y` is an orthogonal neighbour of one of `cells`.
pub open spec fn touches_one4(cells: Seq<usize>, y: usize) -> bool {
    exists|i: int| 0 <= i < cells.len() && is_neighbour4(#[trigger] cells[i] as int, y as int)
}

/// The place of the cell at `x` among the orthogonal neighbours of its
/// `m`-th orthogonal neighbour.
pub open spec fn mirror4(m: int) -> int {
    if m == 0 {
        2
    } else if m == 1 {
        3
    } else if m == 2 {
        0
    } else {
        1
    }
}

/// A cell is an orthogonal neighbour of each of its orthogonal neighbours.
pub proof fn lemma_neighbour4_back(x: int, m: int)
    requires
        0 <= m < 4,
    ensures
        0 <= mirror4(m) < 4,
        neighbours4(neighbours4(x)[m])[mirror4(m)] == x,
{
}

/// Whether the cell at `y` is in `cells` in case it burns and is not marked.
pub open spec fn takes_in(fires: Seq<usize>, marks: Seq<bool>, cells: Seq<usize>, y: int) -> bool {
    0 <= y < marks.len() && fires.contains(y as usize) && !marks[y] ==> cells.contains(y as usize)
}

/// Whether `cells` holds every neighbour of the cell at `x`, diagonals
/// included, that burns and is not marked.
pub open spec fn takes_neighbours(
    fires: Seq<usize>,
    marks: Seq<bool>,
    cells: Seq<usize>,
    x: int,
) -> bool {
    forall|m: int| 0 <= m < 8 ==> takes_in(fires, marks, cells, #[trigger] neighbours8(x)[m])
}

/// Whether the first of `cells` stands before all other cells of `cells` in
/// the list `fires`.
pub open spec fn leads(fires: Seq<usize>, cells: Seq<usize>) -> bool {
    forall|a: int, b: int|
        0 <= a < fires.len() && 0 <= b < fires.len() && #[trigger] fires[b] == cells[0]
            && cells.contains(#[trigger] fires[a]) ==> b <= a
}

/// Whether two sections have no cell in common.
pub open spec fn are_apart(a: SectionView, b: SectionView) -> bool {
    forall|p: int, q: int|
        0 <= p < a.cells.len() && 0 <= q < b.cells.len() ==> #[trigger] a.cells[p]
            != #[trigger] b.cells[q]
}

impl BoardView {
    /// Whether `section` is a fire front of this board at turn `turn`, `marks`
    /// marking the cells that burnt before: it is the section made of its
    /// cells, which start with the first of them in the list of fires; its
    /// cells hang together, they burn and are not marked, and with each cell
    /// it holds the neighbours of the cell that burn and are not marked.
    pub open spec fn is_front(self, marks: Seq<bool>, section: SectionView, turn: int) -> bool {
        &&& section == self.section(section.cells, turn)
        &&& section.cells.len() > 0
        &&& leads(self.fires, section.cells)
        &&& is_chained(section.cells)
        &&& forall|j: int|
            0 <= j < section.cells.len() ==> self.fires.contains(#[trigger] section.cells[j])
                && !marks[section.cells[j] as int]
        &&& forall|j: int|
            0 <= j < section.cells.len() ==> takes_neighbours(
                self.fires,
                marks,
                section.cells,
                #[trigger] section.cells[j] as int,
            )
    }

    /// Whether the cell at `y` is in `section` in case the fire reaches it
    /// at the turn at which it reaches the section.
    pub open spec fn joins(self, section: SectionView, y: int) -> bool {
        on_grid(y) && self.reset().reach_turn(y) == section.time_to_reach
            ==> section.cells.contains(y as usize)
    }

    /// Whether `section` holds every neighbour of the cell at `x`, diagonals
    /// included, that the fire reaches at the turn at which it reaches the
    /// section.
    pub open spec fn joins_neighbours(self, section: SectionView, x: int) -> bool {
        forall|m: int| 0 <= m < 8 ==> self.joins(section, #[trigger] neighbours8(x)[m])
    }

    /// The section made of the cells `cells` of a fire front of turn `turn`
    /// of the run that starts at turn zero and that nobody interferes with.
    pub open spec fn front_of(self, cells: Seq<usize>, turn: int) -> SectionView {
        self.reset().after(turn as nat).section(cells, turn)
    }

    /// Whether the front `cells` of turn `turn` has its section among
    /// `sections` in case the section is feasible.
    pub open spec fn is_front_served(
        self,
        sections: Seq<SectionView>,
        cells: Seq<usize>,
        turn: int,
    ) -> bool {
        &&& self.is_front_section(self.front_of(cells, turn))
        &&& self.front_of(cells, turn).is_feasible() ==> sections.contains(
            self.front_of(cells, turn),
        )
    }

    /// Whether the cell at `x` belongs to a fire front that has its section
    /// among `sections` in case the section is feasible.
    pub open spec fn is_cell_served(self, sections: Seq<SectionView>, x: int) -> bool {
        exists|cells: Seq<usize>, turn: int| #[trigger]
            self.is_front_served(sections, cells, turn) && cells.contains(x as usize)
    }

    /// Whether the cell at `x`, which burns on this board, belongs to a fire
    /// front of this board at turn `turn` that has its section among
    /// `sections` in case the section is feasible. `marks` marks the cells
    /// that burnt before.
    pub open spec fn is_fire_served(
        self,
        marks: Seq<bool>,
        sections: Seq<SectionView>,
        x: int,
        turn: int,
    ) -> bool {
        exists|cells: Seq<usize>| #[trigger]
            self.is_front(marks, self.section(cells, turn), turn) && cells.contains(x as usize)
                && (self.section(cells, turn).is_feasible() ==> sections.contains(
                self.section(cells, turn),
            ))
    }

    /// What holds of every section of a fire front on this board: it is the
    /// section made of its cells at the turn of its `time_to_reach`, which
    /// is a turn of the run; the fire reaches each of its cells at that turn;
    /// its first cell is the first of them in the list of fires of that
    /// turn; its cells hang together; and with each cell the section holds
    /// the neighbours of the cell, diagonals included, that the fire reaches
    /// at the same turn. So the section is one whole group of touching cells
    /// among those that catch fire at that turn.
    pub open spec fn is_front_section(self, section: SectionView) -> bool {
        &&& 0 <= section.time_to_reach
        &&& section.time_to_reach != NEVER
        &&& section == self.front_of(section.cells, section.time_to_reach)
        &&& section.cells.len() > 0
        &&& leads(self.reset().after(section.time_to_reach as nat).fires, section.cells)
        &&& is_chained(section.cells)
        &&& forall|j: int|
            0 <= j < section.cells.len() ==> self.reset().reach_turn(
                #[trigger] section.cells[j] as int,
            ) == section.time_to_reach
        &&& forall|j: int|
            0 <= j < section.cells.len() ==> self.joins_neighbours(
                section,
                #[trigger] section.cells[j] as int,
            )
    }

    /// Whether the cell at `i` lies inside the border and is a tree or a
    /// house, whatever has become of it since turn zero.
    pub open spec fn is_flammable(self, i: int) -> bool {
        self.interior(i) && self.cells[i].pristine().is_intact()
    }

    /// What holds of every section that the planner makes for this board: it
    /// has at least one cell, none twice, each of them a tree or a house
    /// inside the border; its times are at least zero; and the time to cut it
    /// lies between the time to save it and the time that cutting the whole
    /// grid would take.
    pub open spec fn is_sound_section(self, section: SectionView) -> bool {
        &&& section.cells.len() > 0
        &&& section.cells.no_duplicates()
        &&& forall|j: int|
            0 <= j < section.cells.len() ==> self.is_flammable(#[trigger] section.cells[j] as int)
        &&& 0 <= section.time_to_reach
        &&& 1 <= section.time_to_save <= section.time_to_cut <= self.initial_cut_time()
    }

    /// Whether `houses` lists the cell at `y` in case it is an intact house.
    pub open spec fn house_in(self, houses: Seq<usize>, y: int) -> bool {
        on_grid(y) && self.cells[y] == Cell::House ==> houses.contains(y as usize)
    }

    /// Whether `cells` lists the cell at `y` in case it is an intact tree.
    pub open spec fn tree_in(self, cells: Seq<usize>, y: int) -> bool {
        on_grid(y) && self.cells[y] == Cell::Tree ==> cells.contains(y as usize)
    }

    /// Whether `houses` lists every intact house among the four orthogonal
    /// neighbours of the cell at `x`.
    pub open spec fn houses_listed(self, houses: Seq<usize>, x: int) -> bool {
        forall|m: int| 0 <= m < 4 ==> self.house_in(houses, #[trigger] neighbours4(x)[m])
    }

    /// Whether `cells` lists every intact tree among the first `k` of the four
    /// orthogonal neighbours of the cell at `x`.
    pub open spec fn trees_listed(self, cells: Seq<usize>, x: int, k: int) -> bool {
        forall|m: int| 0 <= m < k ==> self.tree_in(cells, #[trigger] neighbours4(x)[m])
    }

    /// Whether `houses` is a cluster of houses and `cells` its perimeter:
    /// the houses are intact, hang together orthogonally, and have no intact
    /// house next to them that is not one of them; the cells are the intact
    /// trees next to them.
    pub open spec fn is_cluster(self, houses: Seq<usize>, cells: Seq<usize>) -> bool {
        &&& houses.len() > 0
        &&& houses.no_duplicates()
        &&& is_chained4(houses)
        &&& forall|j: int|
            0 <= j < houses.len() ==> on_grid(#[trigger] houses[j] as int)
                && self.cells[houses[j] as int] == Cell::House
        &&& forall|j: int|
            0 <= j < houses.len() ==> self.houses_listed(houses, #[trigger] houses[j] as int)
        &&& forall|j: int|
            0 <= j < houses.len() ==> self.trees_listed(cells, #[trigger] houses[j] as int, 4)
        &&& forall|j: int|
            0 <= j < cells.len() ==> self.cells[#[trigger] cells[j] as int] == Cell::Tree
                && touches_one4(houses, cells[j])
    }

    /// What holds of every section that shields houses on this board: its
    /// cells are the perimeter of a cluster of houses of the board at turn
    /// zero; they stand in the order of their reach turns; and the section
    /// is the one made of them, with the reach turn of the first, the
    /// earliest of them all, as its `time_to_reach`.
    pub open spec fn is_shield_section(self, section: SectionView) -> bool {
        &&& exists|houses: Seq<usize>| #[trigger] self.reset().is_cluster(houses, section.cells)
        &&& self.reset().is_ordered_by_reach(section.cells)
        &&& section == self.reset().shield_of(section.cells)
    }

    /// Whether the cells stand in the order of their reach turns, counted
    /// from this board on.
    pub open spec fn is_ordered_by_reach(self, cells: Seq<usize>) -> bool {
        forall|j: int, k: int|
            0 <= j <= k < cells.len() ==> self.reach_turn(#[trigger] cells[j] as int)
                <= self.reach_turn(#[trigger] cells[k] as int)
    }

    /// The section made of the perimeter `cells` of a cluster of houses of
    /// this board: the fire reaches it when it reaches the first of the cells.
    pub open spec fn shield_of(self, cells: Seq<usize>) -> SectionView {
        self.section(cells, self.reach_turn(cells[0] as int))
    }

    /// Whether the cluster `houses` of this board, with the perimeter `cells`
    /// in the order of the reach turns, has its section among `sections` in
    /// case it has a perimeter and the section is feasible.
    pub open spec fn is_cluster_served(
        self,
        sections: Seq<SectionView>,
        houses: Seq<usize>,
        cells: Seq<usize>,
    ) -> bool {
        &&& self.is_cluster(houses, cells)
        &&& self.is_ordered_by_reach(cells)
        &&& cells.len() > 0 && self.shield_of(cells).is_feasible() ==> sections.contains(
            self.shield_of(cells),
        )
    }

    /// Whether the intact house at `h` of this board belongs to a cluster
    /// that has its section among `sections` in case it has a perimeter and
    /// the section is feasible.
    pub open spec fn is_house_served(self, sections: Seq<SectionView>, h: int) -> bool {
        exists|houses: Seq<usize>, cells: Seq<usize>| #[trigger]
            self.is_cluster_served(sections, houses, cells) && houses.contains(h as usize)
    }
}

/// A fire front of a turn of the run that starts at turn zero is a section of
/// a fire front of the board.
pub proof fn lemma_front_is_section(
    v: BoardView,
    marks: Seq<bool>,
    section: SectionView,
    turn: int,
)
    requires
        v.frame_wf(),
        v.reset().wf(),
        0 <= turn,
        v.reset().after(turn as nat).wf(),
        marks.len() == GRID_CELLS,
        forall|i: int|
            0 <= i < GRID_CELLS ==> (#[trigger] marks[i] <==> !v.reset().unreached_before(i, turn)),
        v.reset().after(turn as nat).is_front(marks, section, turn),
    ensures
        v.is_front_section(section),
        section.time_to_reach == turn,
{
    let start = v.reset();
    let now = start.after(turn as nat);
    assert forall|p: int| 0 <= p < section.cells.len() implies start.reach_turn(
        #[trigger] section.cells[p] as int,
    ) == turn && turn != NEVER by {
        let x = section.cells[p];
        assert(now.fires.contains(x));
        let f = choose|f: int| 0 <= f < now.fires.len() && now.fires[f] == x;
        assert(now.cells[now.fires[f] as int].is_burning());
        assert(!marks[x as int]);
        lemma_reached_now(start, x as int, turn);
        lemma_burns_early(start, x as int, turn);
    }
    assert(start.reach_turn(section.cells[0] as int) == turn);
    assert forall|p: int| 0 <= p < section.cells.len() implies v.joins_neighbours(
        section,
        #[trigger] section.cells[p] as int,
    ) by {
        let x = section.cells[p] as int;
        assert(takes_neighbours(now.fires, marks, section.cells, x));
        assert forall|m: int| 0 <= m < 8 implies v.joins(section, #[trigger] neighbours8(x)[m]) by {
            let y = neighbours8(x)[m];
            assert(takes_in(now.fires, marks, section.cells, y));
            if on_grid(y) && start.reach_turn(y) == turn {
                lemma_reach_turn_exists(start, y);
                assert(start.burns_at(y, turn));
                assert(now.fires.contains(y as usize));
            }
        }
    }
}

} // verus!

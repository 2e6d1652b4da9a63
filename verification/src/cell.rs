//! What one grid position can be, and the constants that govern how long it
//! burns, how long it takes to clear and what it is worth.

use vstd::prelude::*;

verus! {

/// One grid position. A tree or a house is intact until it is set on fire or
/// a cut of it starts; the number carried by a burning cell, or by one being
/// cut, is the count of turns that state still lasts.
#[derive(Clone, Copy, Debug, PartialEq, Eq, Structural)]
pub enum Cell {
    Tree,
    TreeBurning(i32),
    TreeBurnt,
    TreeCutting(i32),
    TreeCut,
    House,
    HouseBurning(i32),
    HouseBurnt,
    HouseCutting(i32),
    HouseCut,
    Empty,
}

/// The per-kind constants of a simulation.
#[derive(Clone, Copy, Debug, PartialEq, Eq, Structural)]
pub struct Rules {
    pub tree_cut_duration: i32,
    pub tree_fire_duration: i32,
    pub tree_value: i32,
    pub house_cut_duration: i32,
    pub house_fire_duration: i32,
    pub house_value: i32,
}

impl Cell {
    /// A tree in any state.
    pub open spec fn is_tree(self) -> bool {
        self is Tree || self is TreeBurning || self is TreeBurnt || self is TreeCutting
            || self is TreeCut
    }

    /// A house in any state.
    pub open spec fn is_house(self) -> bool {
        self is House || self is HouseBurning || self is HouseBurnt || self is HouseCutting
            || self is HouseCut
    }

    /// Flammable and so far untouched.
    pub open spec fn is_intact(self) -> bool {
        self is Tree || self is House
    }

    pub open spec fn is_burning(self) -> bool {
        self is TreeBurning || self is HouseBurning
    }

    pub open spec fn is_burnt(self) -> bool {
        self is TreeBurnt || self is HouseBurnt
    }

    /// A cut of the cell is under way.
    pub open spec fn is_cutting(self) -> bool {
        self is TreeCutting || self is HouseCutting
    }

    /// The cut of the cell is complete.
    pub open spec fn is_cut(self) -> bool {
        self is TreeCut || self is HouseCut
    }

    /// Turns left in the current state of a burning cell or of one being cut;
    /// zero for every other cell.
    pub open spec fn timer(self) -> int {
        match self {
            Cell::TreeBurning(t) => t as int,
            Cell::HouseBurning(t) => t as int,
            Cell::TreeCutting(t) => t as int,
            Cell::HouseCutting(t) => t as int,
            _ => 0,
        }
    }

    /// On fire and in its last turn: at the next step it collapses and sets
    /// its intact neighbours alight.
    pub open spec fn is_collapsing(self) -> bool {
        self.is_burning() && self.timer() == 1
    }

    /// The cell as it was before any fire or cut.
    pub open spec fn pristine(self) -> Cell {
        if self.is_tree() {
            Cell::Tree
        } else if self.is_house() {
            Cell::House
        } else {
            Cell::Empty
        }
    }

    /// The cell after ignition. Only an intact cell catches fire.
    pub open spec fn lit(self, rules: Rules) -> Cell {
        match self {
            Cell::Tree => Cell::TreeBurning(rules.tree_fire_duration),
            Cell::House => Cell::HouseBurning(rules.house_fire_duration),
            _ => self,
        }
    }

    /// The cell after a cut of it has started. Only an intact cell can be cut.
    pub open spec fn felled(self, rules: Rules) -> Cell {
        match self {
            Cell::Tree => Cell::TreeCutting(rules.tree_cut_duration),
            Cell::House => Cell::HouseCutting(rules.house_cut_duration),
            _ => self,
        }
    }

    /// The cell one turn later, as far as its own timer decides: a burning
    /// cell burns down or collapses, a cell being cut gets nearer to cleared
    /// or is cleared. Every other cell stays as it is.
    pub open spec fn aged(self) -> Cell {
        match self {
            Cell::TreeBurning(t) => if t == 1 {
                Cell::TreeBurnt
            } else {
                Cell::TreeBurning((t - 1) as i32)
            },
            Cell::HouseBurning(t) => if t == 1 {
                Cell::HouseBurnt
            } else {
                Cell::HouseBurning((t - 1) as i32)
            },
            Cell::TreeCutting(t) => if t == 1 {
                Cell::TreeCut
            } else {
                Cell::TreeCutting((t - 1) as i32)
            },
            Cell::HouseCutting(t) => if t == 1 {
                Cell::HouseCut
            } else {
                Cell::HouseCutting((t - 1) as i32)
            },
            _ => self,
        }
    }

    /// The character that stands for the cell in a printed grid.
    pub fn symbol(&self) -> (c: char)
        ensures
            c == (if self.is_intact() {
                if self.is_tree() {
                    '.'
                } else {
                    'X'
                }
            } else if self.is_burning() {
                'F'
            } else if self.is_cutting() {
                '+'
            } else {
                '#'
            }),
    {
        match self {
            Cell::Tree => '.',
            Cell::TreeBurning(_) => 'F',
            Cell::TreeBurnt => '#',
            Cell::TreeCutting(_) => '+',
            Cell::TreeCut => '#',
            Cell::House => 'X',
            Cell::HouseBurning(_) => 'F',
            Cell::HouseBurnt => '#',
            Cell::HouseCutting(_) => '+',
            Cell::HouseCut => '#',
            Cell::Empty => '#',
        }
    }

    /// The cell that a character of a map stands for: `.` a tree, `X` a house,
    /// `#` an empty cell. No other character stands for a cell.
    pub fn from_symbol(c: char) -> (cell: Option<Cell>)
        ensures
            c == '.' ==> cell == Some(Cell::Tree),
            c == 'X' ==> cell == Some(Cell::House),
            c == '#' ==> cell == Some(Cell::Empty),
            c != '.' && c != 'X' && c != '#' ==> cell is None,
    {
        if c == '.' {
            Some(Cell::Tree)
        } else if c == 'X' {
            Some(Cell::House)
        } else if c == '#' {
            Some(Cell::Empty)
        } else {
            None
        }
    }
}

impl Rules {
    /// Every duration is at least one turn and no value is negative.
    pub open spec fn wf(self) -> bool {
        &&& self.tree_cut_duration >= 1
        &&& self.tree_fire_duration >= 1
        &&& self.house_cut_duration >= 1
        &&& self.house_fire_duration >= 1
        &&& self.tree_value >= 0
        &&& self.house_value >= 0
    }

    /// Points that the cell is worth as it stands: its kind's value while it
    /// is intact, nothing once it has caught fire or a cut of it has started.
    pub open spec fn value(self, cell: Cell) -> int {
        match cell {
            Cell::Tree => self.tree_value as int,
            Cell::House => self.house_value as int,
            _ => 0,
        }
    }

    /// Turns that a cell of this kind burns.
    pub open spec fn fire_duration(self, cell: Cell) -> int {
        if cell.is_tree() {
            self.tree_fire_duration as int
        } else if cell.is_house() {
            self.house_fire_duration as int
        } else {
            0
        }
    }

    /// Turns that cutting the cell would take: its kind's cutting time while
    /// it is intact or burning, zero for every other cell.
    pub open spec fn cut_duration(self, cell: Cell) -> int {
        match cell {
            Cell::Tree => self.tree_cut_duration as int,
            Cell::TreeBurning(_) => self.tree_cut_duration as int,
            Cell::House => self.house_cut_duration as int,
            Cell::HouseBurning(_) => self.house_cut_duration as int,
            _ => 0,
        }
    }

    /// Turns of fire that the cell can still feed: one more than its burning
    /// time while it is intact, its timer while it burns, nothing afterwards.
    pub open spec fn fuel(self, cell: Cell) -> int {
        if cell.is_intact() {
            self.fire_duration(cell) + 1
        } else if cell.is_burning() {
            cell.timer()
        } else {
            0
        }
    }
}

} // verus!

use wildfire::board::{Board, Cell};
use wildfire::model::{GRID_CELLS, STRIDE};

fn grid(rows: &[&str]) -> [Cell; 2500] {
    let mut cells = [Cell::Empty; 2500];
    for (r, line) in rows.iter().enumerate() {
        for (c, ch) in line.chars().enumerate() {
            cells[r * 50 + c] = Cell::from_symbol(ch).unwrap();
        }
    }
    cells
}

/// Cut 2, fire 3, value 1 for trees; cut 4, fire 5, value 10 for houses.
fn board(rows: &[&str], fire_start: usize) -> Board {
    let cells = grid(rows);
    let width = rows[0].len();
    let height = rows.len();
    assert!(Board::accepts(width, height, 2, 3, 1, 4, 5, 10, fire_start, &cells));
    Board::new(width, height, 2, 3, 1, 4, 5, 10, fire_start, cells)
}

fn snapshot(board: &Board) -> (Vec<Cell>, Vec<usize>, bool, i32) {
    let cells = (0..2500).map(|i| *board.get_cell(i)).collect();
    (cells, board.get_fire().clone(), board.can_act(), board.score())
}

const CROSS: [&str; 5] = ["#####", "#.X.#", "#...#", "#.X.#", "#####"];

#[test]
fn constants_describe_the_storage() {
    assert_eq!(STRIDE, 50);
    assert_eq!(GRID_CELLS, 2500);
}

#[test]
fn new_board_burns_at_fire_start_only() {
    let b = board(&CROSS, 102);
    assert_eq!(b.get_width(), 5);
    assert_eq!(b.get_height(), 5);
    assert_eq!(*b.get_cell(102), Cell::TreeBurning(3));
    assert_eq!(*b.get_cell(52), Cell::House);
    assert_eq!(*b.get_cell(51), Cell::Tree);
    assert_eq!(*b.get_cell(0), Cell::Empty);
    assert_eq!(b.get_fire(), &vec![102]);
    assert!(b.can_act());
}

#[test]
fn new_board_with_fire_start_on_house() {
    let b = board(&CROSS, 52);
    assert_eq!(*b.get_cell(52), Cell::HouseBurning(5));
    assert_eq!(b.get_fire(), &vec![52]);
}

#[test]
fn new_board_with_fire_start_on_empty_cell_has_no_fire() {
    let mut b = board(&CROSS, 0);
    assert!(b.get_fire().is_empty());
    assert_eq!(b.score(), 7 + 20);
    assert!(b.step());
    assert_eq!(b.score(), 7 + 20);
}

#[test]
fn value_is_that_of_intact_cells_only() {
    let mut b = board(&CROSS, 102);
    assert_eq!(b.get_value(51), 1);
    assert_eq!(b.get_value(52), 10);
    assert_eq!(b.get_value(102), 0);
    assert_eq!(b.get_value(0), 0);
    b.cut(51);
    assert_eq!(b.get_value(51), 0);
}

#[test]
fn cut_duration_is_that_of_intact_and_burning_cells() {
    let mut b = board(&CROSS, 52);
    assert_eq!(b.get_cut_duration(51), 2);
    assert_eq!(b.get_cut_duration(152), 4);
    assert_eq!(b.get_cut_duration(52), 4);
    assert_eq!(b.get_cut_duration(0), 0);
    b.cut(51);
    assert_eq!(b.get_cut_duration(51), 0);
    let mut t = board(&CROSS, 102);
    assert_eq!(t.get_cut_duration(102), 2);
    t.step();
    t.step();
    t.step();
    assert_eq!(*t.get_cell(102), Cell::TreeBurnt);
    assert_eq!(t.get_cut_duration(102), 0);
}

#[test]
fn score_sums_the_values_of_intact_cells() {
    let b = board(&CROSS, 102);
    // seven trees, one of them burning, and two houses
    assert_eq!(b.score(), 6 * 1 + 2 * 10);
}

#[test]
fn step_burns_down_then_collapses_and_spreads() {
    let mut b = board(&CROSS, 102);
    assert!(!b.step());
    assert_eq!(*b.get_cell(102), Cell::TreeBurning(2));
    assert_eq!(b.get_fire(), &vec![102]);
    assert!(!b.step());
    assert_eq!(*b.get_cell(102), Cell::TreeBurning(1));
    assert!(!b.step());
    assert_eq!(*b.get_cell(102), Cell::TreeBurnt);
    // neighbours catch fire in the order above, below, left, right
    assert_eq!(b.get_fire(), &vec![52, 152, 101, 103]);
    assert_eq!(*b.get_cell(52), Cell::HouseBurning(5));
    assert_eq!(*b.get_cell(152), Cell::HouseBurning(5));
    assert_eq!(*b.get_cell(101), Cell::TreeBurning(3));
    assert_eq!(*b.get_cell(103), Cell::TreeBurning(3));
    // diagonal neighbours do not
    assert_eq!(*b.get_cell(51), Cell::Tree);
    assert_eq!(*b.get_cell(153), Cell::Tree);
    assert_eq!(b.score(), 4);
}

#[test]
fn step_keeps_survivors_before_the_cells_they_do_not_light() {
    let mut b = board(&CROSS, 102);
    for _ in 0..3 {
        b.step();
    }
    for _ in 0..3 {
        b.step();
    }
    // the trees collapsed and lit the corners; the houses burn on
    assert_eq!(*b.get_cell(101), Cell::TreeBurnt);
    assert_eq!(*b.get_cell(52), Cell::HouseBurning(2));
    assert_eq!(b.get_fire(), &vec![52, 152, 51, 151, 53, 153]);
}

#[test]
fn step_reports_the_end_of_the_fire() {
    let mut b = board(&["###", "#.#", "###"], 51);
    assert!(!b.step());
    assert!(!b.step());
    assert!(b.step());
    assert!(b.get_fire().is_empty());
    assert_eq!(*b.get_cell(51), Cell::TreeBurnt);
    assert!(b.step());
}

#[test]
fn fire_burns_out_within_its_fuel() {
    let mut b = board(&CROSS, 102);
    // seven trees of three turns and two houses of five, one step each to light
    let fuel = 7 * 4 + 2 * 6;
    let mut steps = 0;
    while !b.step() {
        steps += 1;
        assert!(steps < fuel);
    }
    // the centre collapses at step 3, the trees beside it at step 6, the
    // houses at step 8 and the corners at step 9
    assert_eq!(steps + 1, 9);
    assert_eq!(b.score(), 0);
}

#[test]
fn fire_does_not_leave_the_border() {
    let mut b = board(&CROSS, 102);
    while !b.step() {}
    for i in 0..2500 {
        let row = i / 50;
        let col = i % 50;
        if row == 0 || row >= 4 || col == 0 || col >= 4 {
            assert_eq!(*b.get_cell(i), Cell::Empty);
        }
    }
}

#[test]
fn cut_starts_on_an_intact_cell() {
    let mut b = board(&CROSS, 102);
    let before = b.score();
    b.cut(51);
    assert_eq!(*b.get_cell(51), Cell::TreeCutting(2));
    assert!(!b.can_act());
    assert_eq!(b.score(), before - 1);
    b.step();
    assert_eq!(*b.get_cell(51), Cell::TreeCutting(1));
    assert!(!b.can_act());
    b.step();
    assert_eq!(*b.get_cell(51), Cell::TreeCut);
    assert!(b.can_act());
    assert_eq!(b.get_value(51), 0);
}

#[test]
fn cut_of_a_house_takes_its_own_time() {
    let mut b = board(&CROSS, 102);
    b.cut(152);
    assert_eq!(*b.get_cell(152), Cell::HouseCutting(4));
    for _ in 0..3 {
        b.step();
        assert!(!b.can_act());
    }
    b.step();
    assert_eq!(*b.get_cell(152), Cell::HouseCut);
    assert!(b.can_act());
}

#[test]
fn cut_is_ignored_while_another_is_under_way() {
    let mut b = board(&CROSS, 102);
    b.cut(51);
    let before = snapshot(&b);
    b.cut(53);
    assert_eq!(snapshot(&b), before);
    assert_eq!(*b.get_cell(53), Cell::Tree);
}

#[test]
fn cut_is_ignored_on_cells_that_are_not_intact() {
    let mut b = board(&CROSS, 102);
    let before = snapshot(&b);
    b.cut(102); // burning
    assert_eq!(snapshot(&b), before);
    b.cut(0); // empty
    assert_eq!(snapshot(&b), before);
    b.cut(2500); // off the grid
    assert_eq!(snapshot(&b), before);
    b.cut(usize::MAX);
    assert_eq!(snapshot(&b), before);
    b.cut(51);
    b.step();
    b.step();
    let cleared = snapshot(&b);
    b.cut(51); // cleared
    assert_eq!(snapshot(&b), cleared);
    b.step();
    let burnt = snapshot(&b);
    b.cut(102); // burnt
    assert_eq!(snapshot(&b), burnt);
}

#[test]
fn cell_under_the_axe_does_not_catch_fire() {
    let mut b = board(&["#####", "#...#", "#####"], 51);
    b.cut(52);
    while !b.step() {}
    assert_eq!(*b.get_cell(51), Cell::TreeBurnt);
    assert_eq!(*b.get_cell(52), Cell::TreeCut);
    assert_eq!(*b.get_cell(53), Cell::Tree);
    assert_eq!(b.score(), 1);
}

#[test]
fn reset_restores_turn_zero() {
    let mut b = board(&CROSS, 102);
    let start = snapshot(&b);
    b.cut(51);
    for _ in 0..4 {
        b.step();
    }
    b.cut(153);
    assert_ne!(snapshot(&b), start);
    b.reset();
    assert_eq!(snapshot(&b), start);
}

#[test]
fn reset_twice_is_reset_once() {
    let mut b = board(&CROSS, 102);
    b.cut(51);
    while !b.step() {}
    b.reset();
    let once = snapshot(&b);
    b.reset();
    assert_eq!(snapshot(&b), once);
}

#[test]
fn score_stays_between_zero_and_the_initial_values() {
    let mut b = board(&CROSS, 102);
    let total = 7 * 1 + 2 * 10;
    loop {
        let score = b.score();
        assert!(0 <= score && score <= total);
        if b.step() {
            break;
        }
    }
    assert!(0 <= b.score() && b.score() <= total);
}

#[test]
fn accepts_a_grid_with_its_border() {
    let cells = grid(&CROSS);
    assert!(Board::accepts(5, 5, 2, 3, 1, 4, 5, 10, 102, &cells));
    assert!(Board::accepts(5, 5, 1, 1, 0, 1, 1, 0, 0, &cells));
    assert!(Board::accepts(50, 50, 2, 3, 1, 4, 5, 10, 2499, &cells));
    assert!(Board::accepts(2, 2, 2, 3, 1, 4, 5, 10, 0, &[Cell::Empty; 2500]));
}

#[test]
fn accepts_no_grid_without_its_border() {
    let cells = grid(&CROSS);
    // the grid reaches into what would be the border
    assert!(!Board::accepts(4, 5, 2, 3, 1, 4, 5, 10, 102, &cells));
    assert!(!Board::accepts(5, 4, 2, 3, 1, 4, 5, 10, 102, &cells));
    assert!(!Board::accepts(5, 5, 2, 3, 1, 4, 5, 10, 102, &grid(&[".####", "#...#", "#####"])));
    assert!(!Board::accepts(5, 5, 2, 3, 1, 4, 5, 10, 102, &grid(&["#####", "....#", "#####"])));
    let mut far = [Cell::Empty; 2500];
    far[2499] = Cell::House;
    assert!(!Board::accepts(50, 50, 2, 3, 1, 4, 5, 10, 0, &far));
}

#[test]
fn accepts_no_size_out_of_range() {
    let empty = [Cell::Empty; 2500];
    assert!(!Board::accepts(1, 5, 2, 3, 1, 4, 5, 10, 0, &empty));
    assert!(!Board::accepts(5, 1, 2, 3, 1, 4, 5, 10, 0, &empty));
    assert!(!Board::accepts(0, 0, 2, 3, 1, 4, 5, 10, 0, &empty));
    assert!(!Board::accepts(51, 5, 2, 3, 1, 4, 5, 10, 0, &empty));
    assert!(!Board::accepts(5, 51, 2, 3, 1, 4, 5, 10, 0, &empty));
    assert!(!Board::accepts(5, 5, 2, 3, 1, 4, 5, 10, 2500, &empty));
}

#[test]
fn accepts_no_duration_below_one_and_no_negative_value() {
    let cells = grid(&CROSS);
    assert!(!Board::accepts(5, 5, 0, 3, 1, 4, 5, 10, 102, &cells));
    assert!(!Board::accepts(5, 5, 2, 0, 1, 4, 5, 10, 102, &cells));
    assert!(!Board::accepts(5, 5, 2, 3, -1, 4, 5, 10, 102, &cells));
    assert!(!Board::accepts(5, 5, 2, 3, 1, 0, 5, 10, 102, &cells));
    assert!(!Board::accepts(5, 5, 2, 3, 1, 4, -5, 10, 102, &cells));
    assert!(!Board::accepts(5, 5, 2, 3, 1, 4, 5, -10, 102, &cells));
}

#[test]
fn accepts_no_cell_that_is_not_at_its_start() {
    for cell in [
        Cell::TreeBurning(3),
        Cell::TreeBurnt,
        Cell::TreeCutting(2),
        Cell::TreeCut,
        Cell::HouseBurning(5),
        Cell::HouseBurnt,
        Cell::HouseCutting(4),
        Cell::HouseCut,
    ] {
        let mut cells = grid(&CROSS);
        cells[102] = cell;
        assert!(!Board::accepts(5, 5, 2, 3, 1, 4, 5, 10, 51, &cells));
    }
}

#[test]
fn accepts_no_totals_beyond_32_bits() {
    let cells = grid(&CROSS);
    // seven trees and two houses
    assert!(Board::accepts(5, 5, 2, 3, 306_783_378, 4, 5, 0, 102, &cells));
    assert!(!Board::accepts(5, 5, 2, 3, 306_783_379, 4, 5, 0, 102, &cells));
    assert!(Board::accepts(5, 5, 2, 3, 0, 4, 5, i32::MAX / 2, 102, &cells));
    assert!(!Board::accepts(5, 5, 2, 3, 1, 4, 5, i32::MAX / 2, 102, &cells));
    assert!(!Board::accepts(5, 5, 2, 3, 0, 4, 5, i32::MAX / 2 + 1, 102, &cells));
    assert!(!Board::accepts(5, 5, i32::MAX, 3, 1, 4, 5, 10, 102, &cells));
    assert!(!Board::accepts(5, 5, 2, i32::MAX, 1, 4, 5, 10, 102, &cells));
    assert!(!Board::accepts(5, 5, 2, 3, 1, i32::MAX, 5, 10, 102, &cells));
    assert!(!Board::accepts(5, 5, 2, 3, 1, 4, i32::MAX, 10, 102, &cells));
    // one tree alone may take as long as 32 bits let it
    let one = grid(&["###", "#.#", "###"]);
    assert!(Board::accepts(3, 3, i32::MAX, i32::MAX - 1, i32::MAX, 4, 5, 10, 51, &one));
    assert!(!Board::accepts(3, 3, 2, i32::MAX, 1, 4, 5, 10, 51, &one));
}

#[test]
fn symbols_stand_for_cells() {
    assert_eq!(Cell::from_symbol('.'), Some(Cell::Tree));
    assert_eq!(Cell::from_symbol('X'), Some(Cell::House));
    assert_eq!(Cell::from_symbol('#'), Some(Cell::Empty));
    assert_eq!(Cell::from_symbol('x'), None);
    assert_eq!(Cell::from_symbol(' '), None);
    assert_eq!(Cell::from_symbol('F'), None);
}

#[test]
fn cells_have_symbols() {
    assert_eq!(Cell::Tree.symbol(), '.');
    assert_eq!(Cell::House.symbol(), 'X');
    assert_eq!(Cell::TreeBurning(2).symbol(), 'F');
    assert_eq!(Cell::HouseBurning(1).symbol(), 'F');
    assert_eq!(Cell::TreeCutting(2).symbol(), '+');
    assert_eq!(Cell::HouseCutting(1).symbol(), '+');
    assert_eq!(Cell::TreeBurnt.symbol(), '#');
    assert_eq!(Cell::HouseBurnt.symbol(), '#');
    assert_eq!(Cell::TreeCut.symbol(), '#');
    assert_eq!(Cell::HouseCut.symbol(), '#');
    assert_eq!(Cell::Empty.symbol(), '#');
}

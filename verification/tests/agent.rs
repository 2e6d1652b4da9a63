use wildfire::agent::{
    compute_city_sections, compute_front_sections, compute_reach_turns, compute_sections,
    evaluate_option, find_combinations, solve, Section,
};
use wildfire::board::{Board, Cell};
use wildfire::order::sort_order;
use wildfire::reach::NEVER;

fn grid(rows: &[&str]) -> [Cell; 2500] {
    let mut cells = [Cell::Empty; 2500];
    for (r, line) in rows.iter().enumerate() {
        for (c, ch) in line.chars().enumerate() {
            cells[r * 50 + c] = Cell::from_symbol(ch).unwrap();
        }
    }
    cells
}

fn board_with(rows: &[&str], fire_start: usize, cut: i32, fire: i32) -> Board {
    let cells = grid(rows);
    let width = rows[0].len();
    let height = rows.len();
    assert!(Board::accepts(width, height, cut, fire, 1, cut, fire, 10, fire_start, &cells));
    Board::new(width, height, cut, fire, 1, cut, fire, 10, fire_start, cells)
}

/// Five by five cells inside the border, a house in the middle, the fire in
/// the corner; fire 3 turns, cut 2 turns, tree 1 point, house 10 points.
fn village() -> Board {
    board_with(
        &["#######", "#.....#", "#.....#", "#..X..#", "#.....#", "#.....#", "#######"],
        51,
        2,
        3,
    )
}

fn snapshot(board: &Board) -> (Vec<Cell>, Vec<usize>, bool) {
    let cells = (0..2500).map(|i| *board.get_cell(i)).collect();
    (cells, board.get_fire().clone(), board.can_act())
}

/// The replay as a driver would run it, without a reset at its end.
fn drive(board: &mut Board, actions: &[usize]) -> i32 {
    board.reset();
    let mut next = 0;
    loop {
        if board.can_act() && next < actions.len() {
            board.cut(actions[next]);
            next += 1;
        }
        if board.step() {
            return board.score();
        }
    }
}

fn parts(section: &Section) -> (Vec<usize>, i32, i32, i32) {
    (section.sections.clone(), section.time_to_cut, section.time_to_reach, section.time_to_save)
}

#[test]
fn reach_turns_grow_with_the_distance_from_the_fire() {
    let mut b = village();
    let reach = compute_reach_turns(&mut b);
    assert_eq!(reach.len(), 2500);
    for row in 0..50 {
        for col in 0..50 {
            let inside = 1 <= row && row <= 5 && 1 <= col && col <= 5;
            let expected = if inside { 3 * ((row - 1) + (col - 1)) as i32 } else { NEVER };
            assert_eq!(reach[row * 50 + col], expected);
        }
    }
}

#[test]
fn reach_turn_of_a_cell_out_of_reach_is_never() {
    let mut b = board_with(&["#####", "#.#.#", "#####"], 51, 2, 3);
    let reach = compute_reach_turns(&mut b);
    assert_eq!(NEVER, i32::MAX);
    assert_eq!(reach[51], 0);
    assert_eq!(reach[52], NEVER);
    assert_eq!(reach[53], NEVER);
}

#[test]
fn reach_turns_leave_the_board_at_turn_zero() {
    let mut b = village();
    let start = snapshot(&b);
    b.cut(153);
    b.step();
    compute_reach_turns(&mut b);
    assert_eq!(snapshot(&b), start);
}

#[test]
fn front_sections_of_the_village() {
    let mut b = village();
    let fronts = compute_front_sections(&mut b);
    let found: Vec<_> = fronts.iter().map(parts).collect();
    // the front of the start itself cannot be saved: 1 turn to save, reached at turn 0
    assert_eq!(
        found,
        vec![
            (vec![101, 52], 4, 3, 3),
            (vec![151, 102, 53], 6, 6, 5),
            (vec![201, 152, 103, 54], 8, 9, 7),
            (vec![251, 202, 153, 104, 55], 10, 12, 9),
            (vec![252, 203, 154, 105], 8, 15, 7),
            (vec![253, 204, 155], 6, 18, 5),
            (vec![254, 205], 4, 21, 3),
            (vec![255], 2, 24, 1),
        ]
    );
}

#[test]
fn front_sections_split_fronts_that_do_not_touch() {
    // the fire runs along two arms that never touch
    let mut b = board_with(&["#######", "#.....#", "#.###.#", "#.###.#", "#######"], 53, 1, 2);
    let fronts = compute_front_sections(&mut b);
    let found: Vec<_> = fronts.iter().map(parts).collect();
    assert_eq!(
        found,
        vec![
            (vec![52], 1, 2, 1),
            (vec![54], 1, 2, 1),
            (vec![51], 1, 4, 1),
            (vec![55], 1, 4, 1),
            (vec![101], 1, 6, 1),
            (vec![105], 1, 6, 1),
            (vec![151], 1, 8, 1),
            (vec![155], 1, 8, 1),
        ]
    );
}

#[test]
fn front_sections_drop_what_cannot_be_saved() {
    // cutting takes so long that only fronts of one cell can be saved
    let mut b = board_with(
        &["#######", "#.....#", "#.....#", "#..X..#", "#.....#", "#.....#", "#######"],
        51,
        30,
        3,
    );
    let fronts = compute_front_sections(&mut b);
    let found: Vec<_> = fronts.iter().map(parts).collect();
    assert_eq!(found, vec![(vec![255], 30, 24, 1)]);
}

#[test]
fn front_sections_leave_the_board_at_turn_zero() {
    let mut b = village();
    let start = snapshot(&b);
    b.step();
    b.cut(153);
    compute_front_sections(&mut b);
    assert_eq!(snapshot(&b), start);
}

#[test]
fn city_sections_of_the_village() {
    let mut b = village();
    let cities = compute_city_sections(&mut b);
    let found: Vec<_> = cities.iter().map(parts).collect();
    // left, above, right, below; the fire reaches the first two at turn 9
    assert_eq!(found, vec![(vec![152, 103, 154, 203], 8, 9, 7)]);
}

#[test]
fn city_sections_order_the_perimeter_by_reach_turn() {
    // the fire comes from the right, so the right neighbour burns first
    let mut b =
        board_with(&["########", "#......#", "#..X...#", "#......#", "########"], 106, 1, 2);
    let cities = compute_city_sections(&mut b);
    let found: Vec<_> = cities.iter().map(parts).collect();
    // found as 102, 53, 104, 153 with reach turns 8, 8, 4, 8
    assert_eq!(found, vec![(vec![104, 102, 53, 153], 4, 4, 4)]);
    let reach = compute_reach_turns(&mut b);
    assert_eq!([reach[104], reach[102], reach[53], reach[153]], [4, 8, 8, 8]);
}

#[test]
fn city_sections_need_time_to_save_within_time_to_reach() {
    // as above, but the fire starts one cell nearer: 4 turns to save, reached at turn 2
    let mut b = board_with(&["#######", "#.....#", "#..X..#", "#.....#", "#######"], 105, 1, 2);
    assert!(compute_city_sections(&mut b).is_empty());
}

#[test]
fn city_sections_take_a_cluster_of_houses_as_one() {
    let mut b = board_with(&["######", "#....#", "#.XX.#", "#....#", "######"], 51, 1, 6);
    let cities = compute_city_sections(&mut b);
    let found: Vec<_> = cities.iter().map(parts).collect();
    // houses 102 and 103; perimeter found as 101, 52, 152 from 102, then 53, 104, 153 from 103
    assert_eq!(found, vec![(vec![101, 52, 53, 152, 104, 153], 6, 6, 6)]);
    let reach = compute_reach_turns(&mut b);
    assert_eq!(
        [reach[101], reach[52], reach[53], reach[152], reach[104], reach[153]],
        [6, 6, 12, 18, 24, 24]
    );
}

#[test]
fn city_sections_of_houses_out_of_reach_are_never_reached() {
    let mut b = board_with(&["#######", "#.#.X.#", "#######"], 51, 1, 1);
    let cities = compute_city_sections(&mut b);
    let found: Vec<_> = cities.iter().map(parts).collect();
    assert_eq!(found, vec![(vec![53, 55], 2, NEVER, 2)]);
}

#[test]
fn city_sections_skip_houses_without_trees_and_what_cannot_be_saved() {
    // a house walled in, and a house whose trees burn before they can be cut
    let mut walled = board_with(&["#####", "#.#X#", "#####"], 51, 1, 2);
    assert!(compute_city_sections(&mut walled).is_empty());
    let mut late = board_with(&["#####", "#...#", "#.X.#", "#...#", "#####"], 51, 3, 2);
    // perimeter 101, 52, 103, 152: 12 turns to cut, 10 to save, reached at turn 2
    assert!(compute_city_sections(&mut late).is_empty());
}

#[test]
fn city_sections_ignore_a_house_that_burns_at_turn_zero() {
    let mut b = board_with(&["#####", "#.X.#", "#####"], 52, 1, 9);
    assert!(compute_city_sections(&mut b).is_empty());
}

#[test]
fn sections_come_ordered_and_feasible() {
    let mut b = village();
    let all = compute_sections(&mut b);
    let found: Vec<_> = all.iter().map(parts).collect();
    assert_eq!(
        found,
        vec![
            (vec![101, 52], 4, 3, 3),
            (vec![151, 102, 53], 6, 6, 5),
            (vec![201, 152, 103, 54], 8, 9, 7),
            (vec![152, 103, 154, 203], 8, 9, 7),
            (vec![251, 202, 153, 104, 55], 10, 12, 9),
            (vec![252, 203, 154, 105], 8, 15, 7),
            (vec![253, 204, 155], 6, 18, 5),
            (vec![254, 205], 4, 21, 3),
            (vec![255], 2, 24, 1),
        ]
    );
    for section in &all {
        assert!(section.time_to_save <= section.time_to_reach);
        assert_eq!(section.time_to_save, section.time_to_cut - 2 + 1);
    }
    for pair in all.windows(2) {
        assert!(
            (pair[0].time_to_reach, pair[0].time_to_save)
                <= (pair[1].time_to_reach, pair[1].time_to_save)
        );
    }
}

#[test]
fn sections_put_the_cheaper_save_first_among_equal_reach() {
    // the house in the corner is shielded by two trees, reached at turns 9
    // and 15; the front of turn 9 has four cells
    let mut b = board_with(
        &["#######", "#....X#", "#.....#", "#.....#", "#.....#", "#.....#", "#######"],
        51,
        2,
        3,
    );
    let all = compute_sections(&mut b);
    let found: Vec<_> = all.iter().map(parts).collect();
    assert_eq!(found[2], (vec![54, 105], 4, 9, 3));
    assert_eq!(found[3], (vec![201, 152, 103, 54], 8, 9, 7));
    // among the fire fronts it came fourth, behind all the fronts
    let fronts = compute_front_sections(&mut b);
    assert_eq!(parts(&fronts[2]), (vec![201, 152, 103, 54], 8, 9, 7));
    let cities = compute_city_sections(&mut b);
    assert_eq!(cities.iter().map(parts).collect::<Vec<_>>(), vec![(vec![54, 105], 4, 9, 3)]);
    assert_eq!(all.len(), fronts.len() + 1);
}

#[test]
fn sections_of_equal_rank_keep_their_order() {
    let mut b = board_with(&["######", "#....#", "#.#X##", "######"], 51, 1, 2);
    let all = compute_sections(&mut b);
    let found: Vec<_> = all.iter().map(parts).collect();
    // the front [53] stands before the shield [53] of the house at 103
    assert_eq!(
        found,
        vec![
            (vec![101, 52], 2, 2, 2),
            (vec![53], 1, 4, 1),
            (vec![53], 1, 4, 1),
            (vec![103, 54], 2, 6, 2)
        ]
    );
    assert_eq!(compute_front_sections(&mut b).len(), 3);
    assert_eq!(compute_city_sections(&mut b).len(), 1);
}

#[test]
fn evaluate_without_actions_lets_everything_burn() {
    let mut b = village();
    assert_eq!(evaluate_option(&[], &mut b), 0);
    let mut c = board_with(&["#####", "#.#.#", "#####"], 51, 2, 3);
    assert_eq!(evaluate_option(&[], &mut c), 1);
}

#[test]
fn evaluate_without_actions_is_the_untouched_fire() {
    let mut b = board_with(&["######", "#.##.#", "#.X..#", "######"], 51, 2, 3);
    let replayed = evaluate_option(&[], &mut b);
    b.reset();
    while !b.step() {}
    assert_eq!(replayed, b.score());
    assert_eq!(replayed, 0);
}

#[test]
fn evaluate_counts_the_house_that_a_ring_of_cuts_saves() {
    let mut b = village();
    // the four trees around the house are cut at turns 0, 2, 4 and 6, before
    // the fire reaches the first of them at turn 9
    assert_eq!(evaluate_option(&[152, 103, 154, 203], &mut b), 10);
    // one cut too few, and the house burns
    assert_eq!(evaluate_option(&[152, 103, 154], &mut b), 0);
}

#[test]
fn evaluate_counts_the_house_that_one_cut_in_time_saves() {
    // the house stands at the end of a row of five trees; the fire starts at
    // the other end and reaches the last tree at turn 12
    let mut b = board_with(&["########", "#.....X#", "########"], 51, 2, 3);
    assert_eq!(evaluate_option(&[], &mut b), 0);
    assert_eq!(evaluate_option(&[55], &mut b), 10);
    // the cut comes in time at turn 11 and too late at turn 12
    let mut plan = vec![0; 11];
    plan.push(55);
    assert_eq!(evaluate_option(&plan, &mut b), 10);
    plan.insert(0, 0);
    assert_eq!(evaluate_option(&plan, &mut b), 0);
    // the planner cuts earlier, where it saves more trees: the front of turn 3
    assert_eq!(solve(&mut b), vec![52]);
    assert_eq!(evaluate_option(&[52], &mut b), 10 + 3);
}

#[test]
fn evaluate_counts_what_a_cut_front_saves() {
    let mut b = village();
    // the fire takes the six cells before the cut diagonal; the house and
    // fourteen trees stand behind it
    assert_eq!(evaluate_option(&[201, 152, 103, 54], &mut b), 10 + 14);
}

#[test]
fn evaluate_ignores_stale_actions() {
    let mut b = village();
    let plain = evaluate_option(&[201, 152, 103, 54], &mut b);
    assert_eq!(plain, 24);
    // the burning start and a place off the grid start no cut
    assert_eq!(evaluate_option(&[51, 9999, 201, 152, 103, 54], &mut b), plain);
    // a cell twice, the second time for nothing
    assert_eq!(evaluate_option(&[201, 201, 152, 103, 54], &mut b), plain);
}

#[test]
fn evaluate_spends_a_turn_on_each_stale_action() {
    let mut b = village();
    // with three turns lost the last cut comes at turn 9, when its cell burns
    assert_eq!(evaluate_option(&[51, 0, 9999, 201, 152, 103, 54], &mut b), 0);
}

#[test]
fn evaluate_issues_an_action_only_when_a_cut_may_start() {
    // cutting takes four turns, the fire needs two to leave its cell
    let mut b = board_with(&["######", "#....#", "######"], 51, 4, 2);
    // the cut of 53 starts at turn 0 and stops the fire at turn 4; the replay
    // ends before the cut of 54 can start
    assert_eq!(evaluate_option(&[53, 54], &mut b), 1);
    assert_eq!(evaluate_option(&[53], &mut b), 1);
    // 52 catches fire at turn 2, before the second cut may start at turn 4
    assert_eq!(evaluate_option(&[54, 52], &mut b), 0);
    // with cuts of one turn both cuts start in time
    let mut c = board_with(&["######", "#....#", "######"], 51, 1, 2);
    assert_eq!(evaluate_option(&[54, 52], &mut c), 1);
}

#[test]
fn evaluate_gives_the_same_score_again() {
    let mut b = village();
    let plan = [201, 152, 103, 54, 255];
    let first = evaluate_option(&plan, &mut b);
    let second = evaluate_option(&plan, &mut b);
    assert_eq!(first, second);
    // whatever state the board is in
    b.cut(153);
    for _ in 0..7 {
        b.step();
    }
    assert_eq!(evaluate_option(&plan, &mut b), first);
    assert_eq!(first, drive(&mut b, &plan));
}

#[test]
fn evaluate_leaves_the_board_at_turn_zero() {
    let mut b = village();
    let start = snapshot(&b);
    evaluate_option(&[201, 152, 103, 54], &mut b);
    assert_eq!(snapshot(&b), start);
}

#[test]
fn evaluate_stays_within_the_initial_values() {
    let mut b = village();
    for plan in [vec![], vec![153], vec![255, 254], vec![201, 152, 103, 54]] {
        let score = evaluate_option(&plan, &mut b);
        assert!(0 <= score && score <= 24 + 10);
    }
}

#[test]
fn one_more_cut_of_a_lost_cell_never_costs_points() {
    let mut b = village();
    for plan in [vec![], vec![201, 152], vec![152, 103, 154, 203], vec![201, 152, 103]] {
        let base = drive(&mut b, &plan);
        let lost: Vec<usize> =
            (0..2500).filter(|&i| !matches!(b.get_cell(i), Cell::Tree | Cell::House)).collect();
        assert!(lost.len() >= 2500 - 25);
        for c in lost {
            let mut longer = plan.clone();
            longer.push(c);
            assert!(evaluate_option(&longer, &mut b) >= base);
        }
    }
}

#[test]
fn one_more_cut_of_a_saved_cell_may_cost_points() {
    let mut b = village();
    assert_eq!(evaluate_option(&[201, 152, 103, 54], &mut b), 24);
    assert_eq!(evaluate_option(&[201, 152, 103, 54, 255], &mut b), 23);
}

#[test]
fn combinations_of_no_sections_are_the_empty_plan() {
    let mut b = village();
    assert_eq!(find_combinations(&[], &mut b), Vec::<usize>::new());
}

#[test]
fn combinations_try_single_sections_and_pairs() {
    let mut b = village();
    let section = |cells: &[usize], cut, reach, save| Section {
        sections: cells.to_vec(),
        time_to_cut: cut,
        time_to_reach: reach,
        time_to_save: save,
    };
    // neither half of the diagonal saves anything alone; together they do
    let halves = [section(&[201, 152], 4, 9, 3), section(&[103, 54], 4, 9, 3)];
    assert_eq!(find_combinations(&halves, &mut b), vec![201, 152, 103, 54]);
    // the second half does not fit behind the first if that takes too long
    let slow = [section(&[201, 152], 5, 9, 3), section(&[103, 54], 4, 9, 3)];
    assert_eq!(find_combinations(&slow, &mut b), Vec::<usize>::new());
    // a section that does not fit alone starts no plan
    let late = [section(&[201, 152, 103, 54], 9, 9, 7)];
    assert_eq!(find_combinations(&late, &mut b), Vec::<usize>::new());
    // pairs keep the order of the sections
    let swapped = [section(&[103, 54], 4, 9, 3), section(&[201, 152], 4, 9, 3)];
    assert_eq!(find_combinations(&swapped, &mut b), vec![103, 54, 201, 152]);
}

#[test]
fn combinations_pair_no_sections_that_share_a_cell() {
    let mut b = village();
    let section = |cells: &[usize]| Section {
        sections: cells.to_vec(),
        time_to_cut: 4,
        time_to_reach: 9,
        time_to_save: 3,
    };
    // the halves of the diagonal overlap in 152 and save nothing alone
    let overlapping = [section(&[201, 152, 103]), section(&[152, 103, 54])];
    assert_eq!(evaluate_option(&[201, 152, 103, 152, 103, 54], &mut b), 24);
    assert_eq!(find_combinations(&overlapping, &mut b), Vec::<usize>::new());
    // apart, they make the plan
    let apart = [section(&[201, 152, 103]), section(&[54])];
    assert_eq!(find_combinations(&apart, &mut b), vec![201, 152, 103, 54]);
}

#[test]
fn solve_cuts_no_cell_twice() {
    // two houses two cells apart: their shields share the tree between them
    let mut cells = [Cell::Empty; 2500];
    for row in 1..13 {
        for col in 1..13 {
            cells[row * 50 + col] = Cell::Tree;
        }
    }
    cells[255] = Cell::House;
    cells[257] = Cell::House;
    assert!(Board::accepts(14, 14, 1, 1, 1, 1, 1, 1000, 51, &cells));
    let mut b = Board::new(14, 14, 1, 1, 1, 1, 1, 1000, 51, cells);
    let shields: Vec<_> = compute_city_sections(&mut b).iter().map(parts).collect();
    assert_eq!(
        shields,
        vec![(vec![254, 205, 256, 305], 4, 7, 4), (vec![256, 207, 258, 307], 4, 9, 4)]
    );
    // both shields together would save both houses, with 256 cut twice
    assert_eq!(evaluate_option(&[254, 205, 256, 305, 256, 207, 258, 307], &mut b), 2000);
    let plan = solve(&mut b);
    let mut sorted = plan.clone();
    sorted.sort();
    sorted.dedup();
    assert_eq!(sorted.len(), plan.len());
    assert_eq!(plan, vec![254, 205, 256, 305, 604, 555, 506, 457, 408, 359, 310, 261, 212]);
    assert_eq!(evaluate_option(&plan, &mut b), 1036);
    for &cell in &plan {
        let (row, col) = (cell / 50, cell % 50);
        assert!(1 <= row && row <= 12 && 1 <= col && col <= 12);
        assert!(matches!(b.get_cell(cell), Cell::Tree | Cell::House));
    }
}

#[test]
fn combinations_keep_the_first_of_equal_plans() {
    let mut b = village();
    let section = |cells: &[usize]| Section {
        sections: cells.to_vec(),
        time_to_cut: 8,
        time_to_reach: 9,
        time_to_save: 7,
    };
    let a = [section(&[201, 152, 103, 54]), section(&[54, 103, 152, 201])];
    assert_eq!(find_combinations(&a, &mut b), vec![201, 152, 103, 54]);
    let c = [section(&[54, 103, 152, 201]), section(&[201, 152, 103, 54])];
    assert_eq!(find_combinations(&c, &mut b), vec![54, 103, 152, 201]);
    // a plan that saves nothing does not replace the empty plan
    let idle = [section(&[255])];
    assert_eq!(evaluate_option(&[255], &mut b), 0);
    assert_eq!(find_combinations(&idle, &mut b), Vec::<usize>::new());
}

#[test]
fn solve_cuts_the_front_that_saves_most() {
    let mut b = village();
    let plan = solve(&mut b);
    assert_eq!(plan, vec![201, 152, 103, 54]);
    assert_eq!(evaluate_option(&plan, &mut b), 24);
}

#[test]
fn solve_beats_every_single_section_and_the_empty_plan() {
    let mut b = board_with(
        &["########", "#..X...#", "#.#..X.#", "#...#..#", "#.X....#", "########"],
        151,
        1,
        2,
    );
    let plan = solve(&mut b);
    let best = evaluate_option(&plan, &mut b);
    assert!(best >= evaluate_option(&[], &mut b));
    for section in compute_sections(&mut b) {
        if section.time_to_cut < section.time_to_reach {
            assert!(best >= evaluate_option(&section.sections, &mut b));
        }
    }
    assert!(best > 0);
}

#[test]
fn solve_gives_the_same_plan_again() {
    let mut b = village();
    let first = solve(&mut b);
    b.cut(153);
    b.step();
    assert_eq!(solve(&mut b), first);
}

#[test]
fn solve_leaves_the_board_at_turn_zero() {
    let mut b = village();
    let start = snapshot(&b);
    solve(&mut b);
    assert_eq!(snapshot(&b), start);
}

#[test]
fn solve_returns_no_plan_without_sections() {
    // one tree alone: its front is reached at turn zero
    let mut b = board_with(&["###", "#.#", "###"], 51, 1, 1);
    assert!(compute_sections(&mut b).is_empty());
    assert_eq!(solve(&mut b), Vec::<usize>::new());
    // no fire and no house
    let mut c = board_with(&["#####", "#...#", "#####"], 0, 1, 1);
    assert!(compute_sections(&mut c).is_empty());
    assert_eq!(solve(&mut c), Vec::<usize>::new());
}

#[test]
fn solve_cuts_nothing_where_nothing_burns() {
    // the shield of the house fits, but cutting costs trees; the replay ends
    // with its first turn, after one cut
    let mut b = board_with(&["#####", "#.X.#", "#####"], 0, 1, 1);
    let all = compute_sections(&mut b);
    assert_eq!(all.iter().map(parts).collect::<Vec<_>>(), vec![(vec![51, 53], 2, NEVER, 2)]);
    assert_eq!(evaluate_option(&[51, 53], &mut b), 11);
    assert_eq!(evaluate_option(&[], &mut b), 12);
    assert_eq!(solve(&mut b), Vec::<usize>::new());
}

#[test]
fn solve_returns_no_plan_when_the_fire_is_too_fast() {
    // the fire moves on every turn and a cut takes ten
    let mut b = board_with(
        &["#######", "#.....#", "#.....#", "#..X..#", "#.....#", "#.....#", "#######"],
        51,
        10,
        1,
    );
    assert_eq!(solve(&mut b), Vec::<usize>::new());
    assert_eq!(evaluate_option(&[], &mut b), 0);
}

#[test]
fn sort_order_is_stable() {
    assert_eq!(sort_order(&vec![]), Vec::<usize>::new());
    assert_eq!(sort_order(&vec![7]), vec![0]);
    assert_eq!(sort_order(&vec![3, 1, 2, 1]), vec![1, 3, 2, 0]);
    assert_eq!(sort_order(&vec![5, 5, 5]), vec![0, 1, 2]);
    assert_eq!(sort_order(&vec![i64::MAX, i64::MIN, 0, -1]), vec![1, 3, 2, 0]);
}

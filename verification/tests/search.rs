use sudoku::{build_grid, try_solutions, unique_sets, Grid};

fn sample() -> Vec<usize> {
    vec![
        0, 0, 9, 4, 7, 0, 0, 0, 0, //
        8, 0, 6, 2, 0, 0, 7, 0, 0, //
        0, 0, 0, 0, 0, 1, 0, 0, 0, //
        9, 0, 3, 0, 0, 0, 0, 4, 0, //
        7, 1, 0, 0, 0, 0, 0, 5, 6, //
        0, 2, 0, 0, 0, 0, 8, 0, 3, //
        0, 0, 0, 6, 0, 0, 0, 0, 0, //
        0, 0, 7, 0, 0, 4, 9, 0, 8, //
        0, 0, 0, 0, 3, 7, 4, 0, 0,
    ]
}

const SAMPLE_SOLVED: &str =
    "159478632\n846253719\n372961584\n963582147\n718349256\n425716893\n284695371\n537124968\n691837425\n";

const LEAST_GRID: &str =
    "123456789\n456789123\n789123456\n214365897\n365897214\n897214365\n531642978\n642978531\n978531642\n";

fn numbers(text: &str) -> Vec<usize> {
    text.chars()
        .filter(|c| *c != '\n')
        .map(|c| c.to_digit(10).unwrap() as usize)
        .collect()
}

fn assert_valid_completion(g: &Grid) {
    assert!(!g.is_invalid());
    for group in &unique_sets() {
        let mut digits: Vec<usize> = Vec::new();
        for i in group {
            assert!(g.cell(*i).is_solved());
            digits.push(g.cell(*i).digit());
        }
        digits.sort();
        assert_eq!(digits, vec![1, 2, 3, 4, 5, 6, 7, 8, 9]);
    }
}

#[test]
fn the_sample_has_its_solution() {
    let groups = unique_sets();
    let r = try_solutions(build_grid(&sample()), 0, &groups);
    let g = r.expect("the sample puzzle has a solution");
    assert_eq!(g.print_compact(), SAMPLE_SOLVED);
    assert_valid_completion(&g);
}

#[test]
fn clues_are_kept_in_the_solution() {
    let groups = unique_sets();
    let nums = sample();
    let g = try_solutions(build_grid(&nums), 0, &groups).unwrap();
    for i in 0..81usize {
        if nums[i] != 0 {
            assert!(g.cell(i).is_solved());
            assert_eq!(g.cell(i).digit(), nums[i]);
        }
    }
}

#[test]
fn an_empty_grid_is_solved_with_the_least_grid() {
    let groups = unique_sets();
    let g = try_solutions(build_grid(&vec![0; 81]), 0, &groups).unwrap();
    assert_valid_completion(&g);
    assert_eq!(g.print_compact(), LEAST_GRID);
}

#[test]
fn a_solved_grid_comes_back_unchanged() {
    let groups = unique_sets();
    for text in [SAMPLE_SOLVED, LEAST_GRID] {
        let g = try_solutions(build_grid(&numbers(text)), 0, &groups).unwrap();
        assert_eq!(g.print_compact(), text);
    }
}

#[test]
fn two_equal_clues_in_a_row_have_no_solution() {
    let mut nums = vec![0usize; 81];
    nums[0] = 5;
    nums[4] = 5;
    let groups = unique_sets();
    assert!(try_solutions(build_grid(&nums), 0, &groups).is_none());
}

#[test]
fn two_equal_clues_in_a_box_have_no_solution() {
    let mut nums = sample();
    nums[10] = 9;
    let groups = unique_sets();
    assert!(try_solutions(build_grid(&nums), 0, &groups).is_none());
}

#[test]
fn a_cell_with_no_digit_left_has_no_solution() {
    // Eight digits in the row and the ninth in the column of the last cell.
    let mut nums = vec![0usize; 81];
    for i in 0..8 {
        nums[i] = i + 1;
    }
    nums[17] = 9;
    let groups = unique_sets();
    assert!(try_solutions(build_grid(&nums), 0, &groups).is_none());
}

#[test]
fn a_clash_found_only_by_search_has_no_solution() {
    // The solved sample with two cells of a row opened and a wrong digit put
    // in their column: every guess fails.
    let mut nums = numbers(SAMPLE_SOLVED);
    nums[0] = 0;
    nums[1] = 0;
    nums[9] = 1;
    let groups = unique_sets();
    assert!(try_solutions(build_grid(&nums), 0, &groups).is_none());
}

#[test]
fn a_puzzle_with_many_solutions_gets_a_valid_one() {
    let mut nums = sample();
    for i in 27..54 {
        nums[i] = 0;
    }
    let groups = unique_sets();
    let g = try_solutions(build_grid(&nums), 0, &groups).unwrap();
    assert_valid_completion(&g);
    for i in 0..81usize {
        if nums[i] != 0 {
            assert_eq!(g.cell(i).digit(), nums[i]);
        }
    }
}

#[test]
fn the_search_may_start_behind_solved_cells() {
    let mut nums = sample();
    let row = [1usize, 5, 9, 4, 7, 8, 6, 0, 0];
    for i in 0..9 {
        nums[i] = row[i];
    }
    let groups = unique_sets();
    let from_start = try_solutions(build_grid(&nums), 0, &groups).unwrap();
    let from_seven = try_solutions(build_grid(&nums), 7, &groups).unwrap();
    assert_eq!(from_start.print_compact(), SAMPLE_SOLVED);
    assert_eq!(from_seven.print_compact(), SAMPLE_SOLVED);
}

#[test]
fn a_start_index_beyond_the_grid_only_propagates() {
    let groups = unique_sets();
    let g = try_solutions(build_grid(&numbers(SAMPLE_SOLVED)), 100, &groups).unwrap();
    assert_eq!(g.print_compact(), SAMPLE_SOLVED);
}

#[test]
fn the_input_is_not_needed_afterwards() {
    let groups = unique_sets();
    let start = build_grid(&sample());
    let copy = start.clone();
    let g = try_solutions(start, 0, &groups).unwrap();
    assert_eq!(g.print_compact(), SAMPLE_SOLVED);
    assert_eq!(
        copy.print_compact(),
        "??947????\n8?62??7??\n?????1???\n9?3????4?\n71?????56\n?2????8?3\n???6?????\n??7??49?8\n????374??\n"
    );
}

use sudoku::{build_grid, unique_sets, Grid};

fn sample() -> Vec<usize> {
    vec![
        0, 0, 9, 4, 7, 0, 0, 0, 0, //
        8, 0, 6, 2, 0, 0, 7, 0, 0, //
        0, 0, 0, 0, 0, 1, 0, 0, 0, //
        9, 0, 3, 0, 0, 0, 0, 4, 0, //
        7, 1, 0, 0, 0, 0, 0, 5, 6, //
        0, 2, 0, 0, 0, 0, 8, 0, 3, //
        0, 0, 0, 6, 0, 0, 0, 0, 0, //
        0, 0, 7, 0, 0, 4, 9, 0, 8, //
        0, 0, 0, 0, 3, 7, 4, 0, 0,
    ]
}

fn listings(g: &Grid) -> Vec<String> {
    (0..81usize).map(|i| g.cell(i).print()).collect()
}

fn lies_within(a: &str, b: &str) -> bool {
    a.chars().all(|c| b.contains(c))
}

#[test]
fn cascade_takes_claimed_digits_from_the_open_cells_of_the_group() {
    let groups = unique_sets();
    let mut g = build_grid(&sample());
    assert!(g.cascade(&groups[0]));
    let after = listings(&g);
    assert_eq!(
        after[0..9].to_vec(),
        vec!["123568", "123568", "9", "4", "7", "123568", "123568", "123568", "123568"]
    );
    for i in 9..81 {
        assert_eq!(after[i], build_grid(&sample()).cell(i).print());
    }
}

#[test]
fn cascade_repeats_until_nothing_is_taken() {
    // Seven clues leave two digits; once one of the two open cells loses a
    // digit to a clue outside the row, the other follows in the next pass.
    let mut nums = vec![0usize; 81];
    for i in 0..7 {
        nums[i] = i + 1;
    }
    let groups = unique_sets();
    let mut g = build_grid(&nums);
    assert!(g.cascade(&groups[0]));
    assert_eq!(g.cell(7).print(), "89");
    assert_eq!(g.cell(8).print(), "89");
    assert!(g.restrict_cell(7, &sudoku::build_elem(9)));
    assert!(g.cascade(&groups[0]));
    assert_eq!(g.cell(7).print(), "8");
    assert_eq!(g.cell(8).print(), "9");
    assert!(!g.is_invalid());
}

#[test]
fn cascade_is_idempotent() {
    let groups = unique_sets();
    for n in 0..27 {
        let mut g = build_grid(&sample());
        g.cascade(&groups[n]);
        let once = listings(&g);
        assert!(!g.cascade(&groups[n]));
        assert_eq!(listings(&g), once);
    }
}

#[test]
fn cascade_only_takes_digits_away() {
    let groups = unique_sets();
    let mut g = build_grid(&sample());
    for n in 0..27 {
        let before = listings(&g);
        g.cascade(&groups[n]);
        let after = listings(&g);
        for i in 0..81 {
            assert!(lies_within(&after[i], &before[i]));
        }
    }
}

#[test]
fn cascade_without_clues_changes_nothing() {
    let groups = unique_sets();
    let mut g = build_grid(&vec![0; 81]);
    assert!(!g.cascade(&groups[0]));
    for i in 0..81 {
        assert_eq!(g.cell(i).print(), "123456789");
    }
}

#[test]
fn two_equal_clues_in_a_row_make_a_contradiction() {
    let mut nums = vec![0usize; 81];
    nums[0] = 5;
    nums[4] = 5;
    let groups = unique_sets();
    let mut g = build_grid(&nums);
    assert!(g.cascade(&groups[0]));
    assert!(g.is_invalid());
    assert!(g.cell(4).is_invalid());
    assert_eq!(g.cell(0).print(), "5");
    assert_eq!(g.cell(1).print(), "12346789");
    assert_eq!(g.cell(8).print(), "12346789");
    assert_eq!(g.print_compact().lines().next(), Some("5???X????"));
}

#[test]
fn a_duplicate_is_emptied_even_where_no_digit_is_taken() {
    // A completed row with the 1 twice: no open cell is left to restrict, so
    // cascade reports no change, but the second 1 is emptied.
    let mut nums = vec![0usize; 81];
    let row = [1usize, 2, 3, 4, 5, 6, 7, 8, 1];
    for i in 0..9 {
        nums[i] = row[i];
    }
    let groups = unique_sets();
    let mut g = build_grid(&nums);
    assert!(!g.cascade(&groups[0]));
    assert!(g.cell(8).is_invalid());
    assert_eq!(g.cell(0).print(), "1");
    assert!(g.is_invalid());
}

#[test]
fn solved_mask_collects_the_clues_of_the_group() {
    let groups = unique_sets();
    let g = build_grid(&sample());
    assert_eq!(g.solved_mask(&groups[0]).print(), "479");
    assert_eq!(g.solved_mask(&groups[9]).print(), "789");
    assert_eq!(g.solved_mask(&groups[18]).print(), "689");
    assert_eq!(build_grid(&vec![0; 81]).solved_mask(&groups[0]).print(), "");
}

#[test]
fn cascade_over_sets_on_the_sample() {
    let groups = unique_sets();
    let mut g = build_grid(&sample());
    g.cascade_over_sets(&groups);
    assert!(!g.is_invalid());
    assert_eq!(
        g.print_compact(),
        "??947????\n8?62??7??\n?????1???\n9?3???147\n71????256\n?2????893\n???6?????\n??7??49?8\n????374??\n"
    );
    let after = listings(&g);
    assert_eq!(
        after[0..9].to_vec(),
        vec!["1235", "35", "9", "4", "7", "3568", "356", "12368", "125"]
    );
}

#[test]
fn cascade_over_sets_restricts_the_blanks_of_a_nearly_full_row() {
    let mut nums = sample();
    let row = [1usize, 5, 9, 4, 7, 8, 6, 0, 0];
    for i in 0..9 {
        nums[i] = row[i];
    }
    let groups = unique_sets();
    let mut g = build_grid(&nums);
    g.cascade_over_sets(&groups);
    assert!(!g.is_invalid());
    assert!(lies_within(&g.cell(7).print(), "23"));
    assert!(lies_within(&g.cell(8).print(), "23"));
    assert!(!g.cell(7).is_invalid());
    assert!(!g.cell(8).is_invalid());
    assert_eq!(
        g.print_compact(),
        "159478632\n8?62??71?\n?????158?\n9?3???147\n71????256\n?2????893\n???6??3??\n??7??49?8\n????374??\n"
    );
}

#[test]
fn cascade_over_sets_leaves_no_duplicate_among_solved_cells() {
    let groups = unique_sets();
    let mut g = build_grid(&sample());
    g.cascade_over_sets(&groups);
    for group in &groups {
        let mut seen = Vec::new();
        for i in group {
            if g.cell(*i).is_solved() {
                let d = g.cell(*i).digit();
                assert!(!seen.contains(&d));
                seen.push(d);
            }
        }
    }
}

#[test]
fn cascade_over_sets_is_stable() {
    let groups = unique_sets();
    let mut g = build_grid(&sample());
    g.cascade_over_sets(&groups);
    let once = listings(&g);
    g.cascade_over_sets(&groups);
    assert_eq!(listings(&g), once);
    for n in 0..27 {
        assert!(!g.cascade(&groups[n]));
    }
    assert_eq!(listings(&g), once);
}

#[test]
fn cascade_over_sets_only_takes_digits_away() {
    let groups = unique_sets();
    let mut g = build_grid(&sample());
    let before = listings(&g);
    g.cascade_over_sets(&groups);
    let after = listings(&g);
    for i in 0..81 {
        assert!(lies_within(&after[i], &before[i]));
    }
}

#[test]
fn cascade_over_sets_finds_a_clash_between_column_clues() {
    let mut nums = vec![0usize; 81];
    nums[3] = 2;
    nums[75] = 2;
    let groups = unique_sets();
    let mut g = build_grid(&nums);
    g.cascade_over_sets(&groups);
    assert!(g.is_invalid());
}

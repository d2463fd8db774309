use sudoku::{build_elem, build_grid, Cell};

fn sample() -> Vec<usize> {
    vec![
        0, 0, 9, 4, 7, 0, 0, 0, 0, //
        8, 0, 6, 2, 0, 0, 7, 0, 0, //
        0, 0, 0, 0, 0, 1, 0, 0, 0, //
        9, 0, 3, 0, 0, 0, 0, 4, 0, //
        7, 1, 0, 0, 0, 0, 0, 5, 6, //
        0, 2, 0, 0, 0, 0, 8, 0, 3, //
        0, 0, 0, 6, 0, 0, 0, 0, 0, //
        0, 0, 7, 0, 0, 4, 9, 0, 8, //
        0, 0, 0, 0, 3, 7, 4, 0, 0,
    ]
}

#[test]
fn build_grid_places_clues_and_blanks() {
    let nums = sample();
    let g = build_grid(&nums);
    for i in 0..81usize {
        if nums[i] == 0 {
            assert_eq!(g.cell(i).print(), "123456789");
        } else {
            assert_eq!(g.cell(i).print(), format!("{}", nums[i]));
        }
    }
}

#[test]
fn print_compact_of_the_input() {
    let g = build_grid(&sample());
    assert_eq!(
        g.print_compact(),
        "??947????\n8?62??7??\n?????1???\n9?3????4?\n71?????56\n?2????8?3\n???6?????\n??7??49?8\n????374??\n"
    );
}

#[test]
fn print_compact_marks_a_contradiction() {
    let mut g = build_grid(&sample());
    g.clear_cell(0);
    g.clear_cell(80);
    assert_eq!(
        g.print_compact(),
        "X?947????\n8?62??7??\n?????1???\n9?3????4?\n71?????56\n?2????8?3\n???6?????\n??7??49?8\n????374?X\n"
    );
}

#[test]
fn print_lists_every_cell() {
    let g = build_grid(&sample());
    let text = g.print();
    let lines: Vec<&str> = text.lines().collect();
    assert_eq!(lines.len(), 81);
    assert!(text.ends_with('\n'));
    assert_eq!(lines[0], "(0,0) 123456789");
    assert_eq!(lines[1], "(0,1) 123456789");
    assert_eq!(lines[2], "(0,2) 9");
    assert_eq!(lines[9], "(1,0) 8");
    assert_eq!(lines[44], "(4,8) 6");
    assert_eq!(lines[80], "(8,8) 123456789");
}

#[test]
fn print_shows_what_is_left() {
    let mut g = build_grid(&sample());
    let mut mask = Cell::vacant();
    mask.merge(&build_elem(9));
    mask.merge(&build_elem(4));
    mask.merge(&build_elem(7));
    g.restrict_cell(0, &mask);
    g.clear_cell(1);
    let text = g.print();
    let lines: Vec<&str> = text.lines().collect();
    assert_eq!(lines[0], "(0,0) 123568");
    assert_eq!(lines[1], "(0,1) ");
}

#[test]
fn a_fresh_grid_is_not_invalid() {
    assert!(!build_grid(&sample()).is_invalid());
    assert!(!build_grid(&vec![0; 81]).is_invalid());
}

#[test]
fn one_empty_cell_makes_the_grid_invalid() {
    for i in [0usize, 40, 80] {
        let mut g = build_grid(&sample());
        g.clear_cell(i);
        assert!(g.is_invalid());
        assert!(g.cell(i).is_invalid());
    }
}

#[test]
fn row_size_is_nine() {
    assert_eq!(build_grid(&sample()).row_size(), 9);
}

#[test]
fn set_cell_replaces_one_cell() {
    let mut g = build_grid(&sample());
    g.set_cell(1, build_elem(5));
    assert_eq!(g.cell(1).print(), "5");
    assert_eq!(g.cell(0).print(), "123456789");
    assert_eq!(g.cell(2).print(), "9");
}

#[test]
fn restrict_cell_reports_change_of_that_cell() {
    let mut g = build_grid(&sample());
    assert!(g.restrict_cell(0, &build_elem(9)));
    assert_eq!(g.cell(0).print(), "12345678");
    assert!(!g.restrict_cell(0, &build_elem(9)));
    assert!(!g.restrict_cell(3, &build_elem(9)));
    assert_eq!(g.cell(3).print(), "4");
    assert_eq!(g.cell(1).print(), "123456789");
}

#[test]
fn a_cloned_grid_does_not_follow_its_source() {
    let mut g = build_grid(&sample());
    let h = g.clone();
    g.clear_cell(2);
    g.set_cell(0, build_elem(1));
    assert!(g.is_invalid());
    assert!(!h.is_invalid());
    assert_eq!(h.cell(2).print(), "9");
    assert_eq!(h.cell(0).print(), "123456789");
    assert_eq!(
        h.print_compact(),
        "??947????\n8?62??7??\n?????1???\n9?3????4?\n71?????56\n?2????8?3\n???6?????\n??7??49?8\n????374??\n"
    );
}

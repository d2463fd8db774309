use sudoku::cell::decimal_char;
use sudoku::{build_elem, Cell};

fn holding(digits: &[usize]) -> Cell {
    let mut c = Cell::vacant();
    for d in digits {
        c.merge(&build_elem(*d));
    }
    c
}

fn listings(cells: &Vec<Cell>) -> Vec<String> {
    cells.iter().map(|c| c.print()).collect()
}

#[test]
fn blank_allows_every_digit() {
    let c = build_elem(0);
    assert_eq!(c.print(), "123456789");
    assert!(!c.is_solved());
    assert!(!c.is_invalid());
    assert_eq!(c.solutions().len(), 9);
    assert_eq!(c.digit(), 1);
}

#[test]
fn clue_is_solved_with_its_digit() {
    for d in 1..=9usize {
        let c = build_elem(d);
        assert!(c.is_solved());
        assert!(!c.is_invalid());
        assert_eq!(c.print(), format!("{}", d));
        assert_eq!(c.digit(), d);
    }
}

#[test]
fn solutions_of_a_solved_cell_is_itself() {
    let c = build_elem(7);
    let s = c.solutions();
    assert_eq!(listings(&s), vec![String::from("7")]);
    assert!(s[0].is_solved());
}

#[test]
fn solutions_come_in_increasing_digit_order() {
    let c = holding(&[9, 2, 5]);
    assert_eq!(c.print(), "259");
    assert!(!c.is_solved());
    let s = c.solutions();
    assert_eq!(
        listings(&s),
        vec![String::from("2"), String::from("5"), String::from("9")]
    );
    for one in &s {
        assert!(one.is_solved());
    }
}

#[test]
fn solutions_of_a_contradiction_is_empty() {
    let mut c = build_elem(0);
    c.clear();
    assert_eq!(c.solutions().len(), 0);
}

#[test]
fn vacant_holds_no_digit() {
    let c = Cell::vacant();
    assert!(c.is_invalid());
    assert!(!c.is_solved());
    assert_eq!(c.print(), "");
    assert_eq!(c.digit(), 10);
}

#[test]
fn clear_leaves_a_contradiction() {
    let mut c = build_elem(4);
    assert!(!c.is_invalid());
    c.clear();
    assert!(c.is_invalid());
    assert!(!c.is_solved());
    assert_eq!(c.print(), "");
    let mut b = build_elem(0);
    b.clear();
    assert!(b.is_invalid());
    assert_eq!(b.print(), "");
}

#[test]
fn merge_adds_the_digits_of_the_other() {
    let mut c = build_elem(3);
    c.merge(&build_elem(8));
    assert_eq!(c.print(), "38");
    assert!(!c.is_solved());
    c.merge(&build_elem(3));
    assert_eq!(c.print(), "38");
    c.merge(&holding(&[1, 8, 9]));
    assert_eq!(c.print(), "1389");
}

#[test]
fn restrict_takes_the_mask_away_and_reports_change() {
    let mut c = build_elem(0);
    assert!(c.restrict(&build_elem(3)));
    assert_eq!(c.print(), "12456789");
    assert!(!c.restrict(&build_elem(3)));
    assert_eq!(c.print(), "12456789");
    assert!(c.restrict(&holding(&[1, 2, 3, 4, 5, 6, 7])));
    assert_eq!(c.print(), "89");
    assert!(c.restrict(&build_elem(9)));
    assert!(c.is_solved());
    assert_eq!(c.digit(), 8);
}

#[test]
fn restrict_by_a_disjoint_mask_changes_nothing() {
    let mut c = holding(&[2, 4]);
    assert!(!c.restrict(&holding(&[1, 3, 5, 9])));
    assert_eq!(c.print(), "24");
    assert!(!c.restrict(&Cell::vacant()));
    assert_eq!(c.print(), "24");
}

#[test]
fn restrict_can_empty_a_cell() {
    let mut c = build_elem(6);
    assert!(c.restrict(&build_elem(6)));
    assert!(c.is_invalid());
    assert!(!c.restrict(&build_elem(0)));
    assert!(c.is_invalid());
}

#[test]
fn digit_is_the_least_digit_left() {
    assert_eq!(holding(&[4, 6, 9]).digit(), 4);
    assert_eq!(holding(&[9]).digit(), 9);
}

#[test]
fn a_clone_does_not_follow_its_source() {
    let mut c = build_elem(5);
    let d = c.clone();
    c.clear();
    assert!(c.is_invalid());
    assert!(d.is_solved());
    assert_eq!(d.print(), "5");
}

#[test]
fn write_to_appends() {
    let mut out = String::from("left: ");
    holding(&[1, 7]).write_to(&mut out);
    assert_eq!(out, "left: 17");
}

#[test]
fn decimal_char_gives_the_digit() {
    let expected = ['0', '1', '2', '3', '4', '5', '6', '7', '8', '9'];
    for d in 0..10usize {
        assert_eq!(decimal_char(d), expected[d]);
    }
}

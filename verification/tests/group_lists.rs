use sudoku::unique_sets;

#[test]
fn there_are_twenty_seven_groups_of_nine() {
    let groups = unique_sets();
    assert_eq!(groups.len(), 27);
    for g in &groups {
        assert_eq!(g.len(), 9);
        for i in g {
            assert!(*i < 81);
        }
    }
}

#[test]
fn rows_come_first() {
    let groups = unique_sets();
    assert_eq!(groups[0], vec![0, 1, 2, 3, 4, 5, 6, 7, 8]);
    assert_eq!(groups[4], vec![36, 37, 38, 39, 40, 41, 42, 43, 44]);
    assert_eq!(groups[8], vec![72, 73, 74, 75, 76, 77, 78, 79, 80]);
}

#[test]
fn columns_come_second() {
    let groups = unique_sets();
    assert_eq!(groups[9], vec![0, 9, 18, 27, 36, 45, 54, 63, 72]);
    assert_eq!(groups[13], vec![4, 13, 22, 31, 40, 49, 58, 67, 76]);
    assert_eq!(groups[17], vec![8, 17, 26, 35, 44, 53, 62, 71, 80]);
}

#[test]
fn boxes_come_last() {
    let groups = unique_sets();
    assert_eq!(groups[18], vec![0, 1, 2, 9, 10, 11, 18, 19, 20]);
    assert_eq!(groups[19], vec![3, 4, 5, 12, 13, 14, 21, 22, 23]);
    assert_eq!(groups[20], vec![6, 7, 8, 15, 16, 17, 24, 25, 26]);
    assert_eq!(groups[21], vec![27, 28, 29, 36, 37, 38, 45, 46, 47]);
    assert_eq!(groups[22], vec![30, 31, 32, 39, 40, 41, 48, 49, 50]);
    assert_eq!(groups[26], vec![60, 61, 62, 69, 70, 71, 78, 79, 80]);
}

#[test]
fn every_cell_is_in_three_groups() {
    let groups = unique_sets();
    for i in 0..81usize {
        let n = groups.iter().filter(|g| g.contains(&i)).count();
        assert_eq!(n, 3);
    }
}

#[test]
fn no_group_names_a_cell_twice_and_no_two_groups_are_the_same() {
    let groups = unique_sets();
    for g in &groups {
        for a in 0..9 {
            for b in (a + 1)..9 {
                assert_ne!(g[a], g[b]);
            }
        }
    }
    for a in 0..27 {
        for b in (a + 1)..27 {
            assert_ne!(groups[a], groups[b]);
        }
    }
}

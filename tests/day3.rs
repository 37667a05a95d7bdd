use quest_solvers::day3::{carve_deeper, Day3};
use quest_solvers::solution::Solution;

#[test]
fn day3_test_part1() {
    let input = "..........\n..###.##..\n...####...\n..######..\n..######..\n...####...\n..........";
    let day = Day3;
    assert_eq!(day.part1(input), Some(35));
}

#[test]
fn day3_test_part3() {
    let input = "..........\n..###.##..\n...####...\n..######..\n..######..\n...####...\n..........";
    let day = Day3;
    assert_eq!(day.part3(input), Some(29));
}

#[test]
fn one_pass_digs_only_enclosed_cells() {
    // 5 x 4 grid, all ones but the border row/column zero
    let mut grid: Vec<u16> = vec![
        0, 0, 0, 0, 0, //
        0, 1, 1, 1, 0, //
        0, 1, 1, 1, 0, //
        0, 0, 0, 0, 0,
    ];
    assert!(!carve_deeper(&mut grid, 2, 5, 4, false));
    let mut full: Vec<u16> = vec![1; 25];
    assert!(carve_deeper(&mut full, 2, 5, 5, false));
    assert_eq!(full[12], 2);
    assert_eq!(full[0], 1);
}

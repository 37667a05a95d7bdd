use quest_solvers::day8::{Day8, Pyramid};
use quest_solvers::solution::Solution;

fn get_solution() -> impl Solution<u128> {
    Day8
}

#[test]
fn day8_test_part1() {
    let test_input = "13";
    let solution = get_solution();
    assert_eq!(solution.part1(test_input), Some(21));
    let mut pyramid = Pyramid::new();
    while pyramid.sum < 13 {
        pyramid.add_row();
    }
    let _columnwise = pyramid.column_heights();
}

#[test]
fn day8_test_part2() {
    let solution = get_solution();
    let test_input = "3";
    let _ = solution.part2(test_input);
}

#[test]
fn day8_test_part3() {
    let solution = get_solution();
    let test_input = "2";
    let _ = solution.part3(test_input);
}

#[test]
fn thin_pyramid_profile_is_a_staircase() {
    let mut pyramid = Pyramid::new();
    while pyramid.sum < 13 {
        pyramid.add_row();
    }
    assert_eq!(pyramid.rows, vec![1, 3, 5, 7]);
    assert_eq!(pyramid.sum, 16);
    assert_eq!(pyramid.column_heights(), vec![1, 2, 3, 4, 3, 2, 1]);
}

#[test]
fn thick_rows_repeat_their_width() {
    let mut pyramid = Pyramid::new();
    pyramid.add_row_p2(3);
    assert_eq!(pyramid.rows, vec![1, 3, 3, 3]);
    assert_eq!(pyramid.sum, 10);
    pyramid.add_row_p2(3);
    assert_eq!(pyramid.rows.len(), 4 + 9);
    assert_eq!(pyramid.sum, 10 + 9 * 5);
}

#[test]
fn hollow_rows_are_at_least_ten_thick() {
    let mut pyramid = Pyramid::new();
    pyramid.add_row_p3(2);
    // thickness (1 * 2) % 10 + 10 = 12, width 3
    assert_eq!(pyramid.sum, 1 + 12 * 3);
    assert_eq!(pyramid.column_heights(), vec![12, 13, 12]);
    // half-profile [13, 12]: w = 2, first line 2 * 2 = 4; the axis entry 13 gives 52 % 10 = 2
    assert_eq!(pyramid.empty_blocks(2), 2);
    let mut single = Pyramid::new();
    single.add_row_p3(1);
    // thickness 11, half-profile [12, 11]: first line 2, 24 % 10 = 4
    assert_eq!(single.empty_blocks(1), 4);
}

#[test]
fn single_block_has_no_empty_blocks() {
    let pyramid = Pyramid::new();
    assert_eq!(pyramid.empty_blocks(7), 0);
}

#[test]
fn sum_and_widths_never_shrink() {
    let mut pyramid = Pyramid::new();
    let mut last_sum = pyramid.sum;
    for _ in 0..5 {
        pyramid.add_row_p3(3);
        assert!(pyramid.sum >= last_sum);
        last_sum = pyramid.sum;
    }
    assert!(pyramid.rows.windows(2).all(|w| w[0] <= w[1]));
}

#[test]
fn part_functions_read_their_number() {
    assert_eq!(Day8::thin_part(" 13\n"), Some(21));
    assert_eq!(Day8::thin_part("x"), None);
    assert_eq!(Day8::thin_surplus(1), Some(0));
}

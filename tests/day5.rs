use quest_solvers::day5::Day5;
use quest_solvers::solution::Solution;

fn get_solution() -> impl Solution<String> {
    Day5
}

#[test]
fn day5_test_part1() {
    let test_input = "2 3 4 5\n3 4 5 2\n4 5 2 3\n5 2 3 4";
    let solution = get_solution();
    assert_eq!(solution.part1(test_input), Some("2323".to_string()));
}

#[test]
fn day5_test_part2() {
    let test_input = "2 3 4 5\n6 7 8 9";
    let solution = get_solution();
    assert_eq!(solution.part2(test_input), Some("50877075".to_string()));
}

#[test]
fn day5_rejects_a_short_row() {
    let solution = get_solution();
    assert_eq!(solution.part1("2 3 4"), None);
}

#[test]
fn dancer_part3_max_shout_before_the_state_repeats() {
    let test_input = "2 3 4 5\n6 7 8 9";
    let solution = get_solution();
    assert_eq!(solution.part3(test_input), Some("6584".to_string()));
}

#[test]
fn tenth_shout_and_parse_errors() {

    assert_eq!(Day5::tenth_shout("2 3 4 5\n3 4 5 2\n4 5 2 3\n5 2 3 4\n"), Some("2323".to_string()));
    assert_eq!(Day5::tenth_shout("2 3 4 5 6"), None);
    assert_eq!(Day5::repeated_shout_product("2 3 4 5\n6 7 8 9"), Some("50877075".to_string()));
}

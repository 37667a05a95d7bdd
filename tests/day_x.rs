use quest_solvers::day_x::Day5;
use quest_solvers::solution::Solution;

fn get_solution() -> impl Solution<i64> {
    Day5
}

#[test]
fn dayX_test_part1() {
    let solution = get_solution();
    let test_input = "";
    assert_eq!(solution.part1(test_input), None);
}

#[test]
fn dayX_test_part2() {
    let solution = get_solution();
    let test_input = "";
    assert_eq!(solution.part2(test_input), None);
}

#[test]
fn dayX_test_part3() {
    let solution = get_solution();
    let test_input = "";
    assert_eq!(solution.part3(test_input), None);
}

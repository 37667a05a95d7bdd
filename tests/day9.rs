use quest_solvers::day9::{minimum_stamps, minimum_stamps_bfs, BeetleCountCalculator, Day9};
use quest_solvers::solution::Solution;

fn get_solution() -> impl Solution<i64> {
    Day9
}

#[test]
fn day9_test_part1() {
    let test_input = "2\n4\n7\n16";
    let solution = get_solution();
    assert_eq!(solution.part1(test_input), Some(10));
}

#[test]
fn day9_test_part2() {
    let solution = get_solution();
    let test_input = "33\n41\n55\n99";
    assert_eq!(solution.part2(test_input), Some(10));
}

#[test]
fn fewest_stamps_beats_greedy() {
    assert_eq!(minimum_stamps_bfs(6, &vec![4, 3, 1]), Some(2));
    assert_eq!(minimum_stamps(6, &vec![4, 3, 1]), vec![1, 0, 2]);
    assert_eq!(minimum_stamps_bfs(0, &vec![4, 3, 1]), Some(0));
    assert_eq!(minimum_stamps_bfs(5, &vec![3]), None);
}

#[test]
fn calculator_remembers_counts() {
    let mut calc = BeetleCountCalculator::new(vec![1, 3, 5, 10]);
    assert_eq!(calc.get(16), Some(3));
    assert_eq!(calc.get(16), Some(3));
    assert_eq!(calc.get(0), Some(0));
}

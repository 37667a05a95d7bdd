use quest_solvers::day4::{sorted_values, Day4};
use quest_solvers::solution::Solution;

#[test]
fn test_p3() {
    let d4 = Day4;
    let input = "2\n4\n5\n6\n8";
    assert_eq!(d4.part3(input), Some(8))
}

#[test]
fn leveling_to_the_lowest_nail() {
    let d4 = Day4;
    assert_eq!(d4.part1("3\n4\n7\n8"), Some(10));
    assert_eq!(d4.part2("5"), Some(0));
}

#[test]
fn values_come_out_sorted() {
    assert_eq!(sorted_values(&vec![5, -2, 9, 0, 5]), vec![-2, 0, 5, 5, 9]);
}

use quest_solvers::day6::{Day6, Day6World};
use quest_solvers::solution::Solution;

fn get_solution() -> impl Solution<String> {
    Day6
}

fn name(s: &str) -> Vec<char> {
    s.chars().collect()
}

#[test]
fn day6_test_part1() {
    let test_input = "RR:A,B,C\nA:D,E\nB:F,@\nC:G,H\nD:@\nE:@\nF:@\nG:@\nH:@";
    let solution = get_solution();
    assert_eq!(solution.part1(test_input), Some("RRB@".to_string()));
}

#[test]
fn day6_test_part2() {
    let solution = get_solution();
    let test_input = "";
    assert_eq!(solution.part2(test_input), None);
}

#[test]
fn day6_test_part3() {
    let solution = get_solution();
    let test_input = "";
    assert_eq!(solution.part3(test_input), None);
}

#[test]
fn paths_and_depths_follow_parents() {
    let world = Day6World::from_text(&name("RR:A,B\nA:C\nB:@\nC:@")).unwrap();
    assert_eq!(world.depth_of(&name("C")), Some(2));
    assert_eq!(world.path_to(&name("C")), Some(vec![name("RR"), name("A"), name("C")]));
    assert_eq!(world.depth_of(&name("Z")), None);
}

#[test]
fn branches_with_two_parents_are_dropped() {
    let world = Day6World::from_text(&name("RR:A,B\nA:X\nB:X\nX:@")).unwrap();
    assert_eq!(world.depth_of(&name("X")), None);
    assert_eq!(world.depth_of(&name("A")), Some(1));
}

#[test]
fn first_letters_of_the_singular_path() {
    let solution = get_solution();
    let test_input = "RR:AB,BC\nAB:@\nBC:CD,@\nCD:@";
    assert_eq!(solution.part2(test_input), Some("RBC@".to_string()));
}

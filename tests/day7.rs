use quest_solvers::day7::{generate_possible_plans, Chariot, Day7, Day7ParseError, Day7World, Direction, Instruction};
use quest_solvers::solution::Solution;

fn get_solution() -> impl Solution<String> {
    Day7
}

#[test]
fn day7_test_part1() {
    let test_input = "A:+,-,=,=\nB:+,=,-,+\nC:=,-,+,+\nD:=,=,=,+";
    let solution = get_solution();
    assert_eq!(solution.part1(test_input), Some("BDCA".to_string()));
}

#[test]
fn day7_test_part2() {
    let solution = get_solution();
    let test_input = "A:+,-,=,=\nB:+,=,-,+\nC:=,-,+,+\nD:=,=,=,+\n\nS+===\n-   +\n=+=-+";
    assert_eq!(solution.part2(test_input), Some("DCBA".to_string()));
}

#[test]
fn track_is_walked_clockwise_from_the_corner() {
    let lines: Vec<Vec<char>> = vec!["S+===".chars().collect(), "-   +".chars().collect(), "=+=-+".chars().collect()];
    let track = Day7World::track_from_ascii(&lines).unwrap();
    let (a, s, m) = (Instruction::AddOne, Instruction::SubtractOne, Instruction::Maintain);
    assert_eq!(track, vec![a, m, m, m, a, a, s, m, a, m, s, m]);
}

#[test]
fn broken_track_is_rejected() {
    let lines: Vec<Vec<char>> = vec!["S+=".chars().collect(), "   ".chars().collect()];
    assert_eq!(Day7World::track_from_ascii(&lines), Err(Day7ParseError::MalformedTrack));
}

#[test]
fn power_never_drops_below_zero() {
    let mut c = Chariot::from_line(&"Z:-".chars().collect()).unwrap();
    for _ in 0..12 {
        c.apply_instruction(Instruction::SubtractOne);
    }
    assert_eq!(c.power, 0);
    assert_eq!(c.essence_collected, 9 + 8 + 7 + 6 + 5 + 4 + 3 + 2 + 1);
}

#[test]
fn bad_plan_symbol_is_rejected() {
    assert!(Chariot::from_line(&"A:+,x".chars().collect()).is_none());
    assert!(Chariot::from_line(&"A+".chars().collect()).is_none());
}

#[test]
fn directions_rotate_and_march() {
    assert_eq!(Direction::North.rotate_clockwise(), Direction::East);
    assert_eq!(Direction::North.rotate_counterclockwise(), Direction::West);
    assert_eq!(Direction::East.try_march(4, 0, 5, 3), None);
    assert_eq!(Direction::North.try_march(1, 1, 5, 3), Some((1, 2)));
}

#[test]
fn same_input_gives_same_ranking() {
    let solution = get_solution();
    let input = "A:+,-,=,=\nB:+,=,-,+\nC:=,-,+,+\nD:=,=,=,+";
    assert_eq!(solution.part1(input), solution.part1(input));
}

#[test]
fn plan_enumeration_gives_each_arrangement_once() {
    let plans = generate_possible_plans();
    assert_eq!(plans.len(), 9240);
    let distinct: std::collections::HashSet<Vec<Instruction>> = plans.iter().cloned().collect();
    assert_eq!(distinct.len(), 9240);
    assert!(plans.iter().all(|p| p.len() == 11
        && p.iter().filter(|i| **i == Instruction::AddOne).count() == 5
        && p.iter().filter(|i| **i == Instruction::SubtractOne).count() == 3));
}

#[test]
fn ranking_needs_a_track_to_loop() {
    assert_eq!(Day7::ranking_after("A:+", true), None);
    assert_eq!(Day7::ranking_after("A:+\nB:-", false), Some("AB".to_string()));
}

#[test]
fn parse_errors_are_told_apart() {
    let bad_line: Vec<char> = "A:+,x".chars().collect();
    assert_eq!(Day7World::from_text(&bad_line).err(), Some(Day7ParseError::UnreadableChariot));
    let bad_track: Vec<char> = "A:+\n\nS+?\n+ +\n+++".chars().collect();
    assert_eq!(Day7World::from_text(&bad_track).err(), Some(Day7ParseError::MalformedTrack));
    let fine: Vec<char> = "A:+\nB:-".chars().collect();
    assert!(Day7World::from_text(&fine).is_ok());
}

#[test]
fn part3_counts_the_synthetic_chariots_that_win() {
    let solution = get_solution();
    let input = "A:+,+,+,+,+,=,=,=,-,-,-\n\nS+===\n-   +\n=+=-+";
    assert_eq!(solution.part3(input), Some("25".to_string()));
}

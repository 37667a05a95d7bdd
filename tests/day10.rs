use quest_solvers::day10::{runic_word_power, Day10};
use quest_solvers::solution::Solution;

fn get_solution() -> impl Solution<String> {
    Day10
}

#[test]
fn day10_test_part1() {
    let test_input = "**PCBS**\n**RLNW**\nBV....PT\nCR....HZ\nFL....JW\nSG....MN\n**FTZV**\n**GMJH**";
    let solution = get_solution();
    assert_eq!(solution.part1(test_input), Some("PTBVRCZHFLJWGMNS".to_string()));
}

#[test]
fn day10_test_part2() {
    let solution = get_solution();
    let test_input = "PTBVRCZHFLJWGMNS";
    assert_eq!(runic_word_power(test_input), 1851);
    let test_input = "**PCBS**\n**RLNW**\nBV....PT\nCR....HZ\nFL....JW\nSG....MN\n**FTZV**\n**GMJH**";
    assert_eq!(solution.part2(test_input), Some("1851".to_string()));
}

#[test]
fn word_power_weights_by_position() {
    assert_eq!(runic_word_power("A"), 1);
    assert_eq!(runic_word_power("BA"), 2 + 2);
    assert_eq!(runic_word_power(""), 0);
}

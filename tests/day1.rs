use quest_solvers::day1::{p2_map, Day1};
use quest_solvers::solution::Solution;

#[test]
fn single_creatures_need_their_own_potions() {
    assert_eq!(Day1.part1("ABBAC"), Some(5));
    assert_eq!(Day1.part1("ABD"), None);
}

#[test]
fn pairs_fight_together() {
    assert_eq!(Day1.part2("AxBCDDCAxD"), Some(28));
}

#[test]
fn triples_fight_together() {
    assert_eq!(Day1.part3("xBxAAABCDxCC"), Some(30));
}

#[test]
fn creature_values() {
    assert_eq!(p2_map('D'), Some(5));
    assert_eq!(p2_map('x'), None);
}

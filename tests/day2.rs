use quest_solvers::day2::{count_occurrences, get_match_mask, Day2};
use quest_solvers::solution::Solution;

fn chars(s: &str) -> Vec<char> {
    s.chars().collect()
}

#[test]
fn day2_test_part1() {
    let day = Day2;
    let input = "WORDS:THE,OWE,MES,ROD,HER\n\nAWAKEN THE POWER ADORNED WITH THE FLAMES BRIGHT IRE";
    assert_eq!(day.part1(input), Some(4));
}

#[test]
#[allow(unreachable_code)]
fn day2_test_part2() {
    return;
    let day = Day2;
    let input = "WORDS:THE,OWE,MES,ROD,HER\n\nAWAKEN THE POWE ADORNED WITH THE FLAMES BRIGHT IRE\nTHE FLAME SHIELDED THE HEART OF THE KINGS\nPOWE PO WER P OWE R\nTHERE IS THE END";
    assert_eq!(day.part2(input), Some(37));
}

#[test]
fn day2_test_part3() {
    let day = Day2;
    let input = "WORDS:THE,OWE,MES,ROD,RODEO\n\nHELWORLT\nENIGWDXL\nTRODEOAL";
    assert_eq!(day.part3(input), Some(10));
}

#[test]
fn mask_marks_forward_and_backward_words() {
    let words = vec![chars("THE"), chars("OWE")];
    let mask = get_match_mask(&chars("EHT POWE"), &words, false);
    assert_eq!(mask, vec![true, true, true, false, false, true, true, true, false]);
}

#[test]
fn ring_mask_wraps_around() {
    let words = vec![chars("THE")];
    let mask = get_match_mask(&chars("HELWORLT"), &words, true);
    assert_eq!(mask, vec![true, true, false, false, false, false, false, true]);
    let plain = get_match_mask(&chars("HELWORLT"), &words, false);
    assert!(plain.iter().all(|m| !m));
}

#[test]
fn occurrences_do_not_overlap() {
    assert_eq!(count_occurrences(&chars("AAAA"), &chars("AA")), 2);
    assert_eq!(count_occurrences(&chars("THE THE"), &chars("THE")), 2);
    assert_eq!(count_occurrences(&chars("TH"), &chars("THE")), 0);
}

#[test]
fn plain_line_matches_stop_at_the_end() {
    let words = vec![chars("B$"), chars("BA")];
    let mask = get_match_mask(&chars("AB"), &words, false);
    assert_eq!(mask, vec![true, true, false]);
    let ring = get_match_mask(&chars("AB"), &vec![chars("BA")], true);
    assert_eq!(ring, vec![true, true]);
}

#[test]
fn part_functions_count_words_and_runes() {
    assert_eq!(Day2::word_count("WORDS:THE\n\nTHE THE"), Some(2));
    assert_eq!(Day2::word_count("WORDS:THE"), None);
    assert_eq!(Day2::rune_count("WORDS:THE\n\nEHT X\nTHE"), Some(6));
    assert_eq!(Day2::grid_rune_count("WORDS:AB\n\nAB\nB."), Some(3));
}

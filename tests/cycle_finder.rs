use quest_solvers::utils::cycle_finder::{find_cycle, CycleFinder, CycleFinderExt};

#[test]
fn test_cycle_finder() {
    let input = vec![1, 2, 3, 4, 5, 1, 2, 3, 4, 5];
    let cycle = input.clone().find_cycle();
    assert_eq!(cycle, vec![1, 2, 3, 4, 5]);
}

#[test]
fn cycle_finder_without_repeat_emits_everything() {
    assert_eq!(find_cycle(vec![7u64, 8, 9]), vec![7, 8, 9]);
    assert_eq!(find_cycle(Vec::<u64>::new()), Vec::<u64>::new());
}

#[test]
fn cycle_finder_stops_at_first_repeat_for_good() {
    let mut finder = CycleFinder::new();
    assert_eq!(finder.next(Some(3u32)), Some(3));
    assert_eq!(finder.next(Some(4u32)), Some(4));
    assert_eq!(finder.next(Some(3u32)), None);
    assert_eq!(finder.next(Some(5u32)), None);
}

#[test]
fn cycle_finder_repeat_in_the_middle() {
    assert_eq!(find_cycle(vec![1u8, 2, 2, 3]), vec![1, 2]);
}

use advent_puzzles::rucksack::{get_priority, get_repeated, puzzle1, puzzle2};

fn test_input() -> Vec<Vec<char>> {
    [
        "vJrwpWtwJgWrhcsFMMfFFhFp",
        "jqHRNqRjqzjGDLGLrsFMfFZSrLrFZsSL",
        "PmmdzqPrVvPwwTWBwg",
        "wMqvLMZHhHMvwLHjbvcjnnSBnvTQFn",
        "ttgJtRGJQctTZtZT",
        "CrZsJsPPZsGzwwsLwLmpwMDw",
    ]
    .iter()
    .map(|l| l.chars().collect())
    .collect()
}

#[test]
fn day3_puzzle1_test() {
    let test_input = test_input();

    assert_eq!(puzzle1(&test_input), Some(157))
}

#[test]
fn day3_puzzle2_test() {
    let test_input = test_input();

    assert_eq!(puzzle2(&test_input), Some(70))
}

#[test]
fn rucksack_priorities() {
    assert_eq!(get_priority('a'), Some(1));
    assert_eq!(get_priority('z'), Some(26));
    assert_eq!(get_priority('A'), Some(27));
    assert_eq!(get_priority('Z'), Some(52));
    assert_eq!(get_priority('1'), None);
}

#[test]
fn rucksack_first_shared_item() {
    assert_eq!(get_repeated(&['a', 'b', 'c'], &['c', 'b']), Some('b'));
    assert_eq!(get_repeated(&['a'], &['b']), None);
}

#[test]
fn rucksack_incomplete_group_is_rejected() {
    let mut input = test_input();
    input.pop();
    assert_eq!(puzzle2(&input), None);
}

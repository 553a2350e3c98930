use advent_puzzles::ranges::{next_and_convert, parse_pair, parse_pairs, puzzle1, puzzle2};

fn test_input() -> Vec<[u16; 4]> {
    let lines: Vec<String> = ["2-4,6-8", "2-3,4-5", "5-7,7-9", "2-8,3-7", "6-6,4-6", "2-6,4-8"]
        .iter()
        .map(|l| l.to_string())
        .collect();
    parse_pairs(&lines).unwrap()
}

#[test]
fn day4_puzzle1_test() {
    let test_input = test_input();

    assert_eq!(puzzle1(&test_input), 2)
}

#[test]
fn day4_puzzle2_test() {
    let test_input = test_input();

    assert_eq!(puzzle2(&test_input), 4)
}

#[test]
fn range_line_parsing() {
    assert_eq!(parse_pair("12-34,5-678"), Some([12, 34, 5, 678]));
    assert_eq!(parse_pair("1-2,3"), None);
    assert_eq!(parse_pair("1-2,3-"), None);
    assert_eq!(parse_pair("1-x,3-4"), None);
    assert_eq!(parse_pair("1-70000,3-4"), None);
    assert_eq!(parse_pair("+1-2,3-+4"), Some([1, 2, 3, 4]));
}

#[test]
fn range_field_reading_moves_to_separator() {
    let mut pos: usize = 0;
    assert_eq!(next_and_convert("17-4", &mut pos), Some(17));
    assert_eq!(pos, 2);
}

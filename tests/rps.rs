use advent_puzzles::rps::{parse_round, puzzle1, puzzle2, Move};

fn test_input() -> Vec<(char, char)> {
    ["A Y", "B X", "C Z"].iter().map(|l| parse_round(l).unwrap()).collect()
}

#[test]
fn day2_puzzle1_test() {
    let test_input = test_input();

    assert_eq!(puzzle1(&test_input), 15)
}

#[test]
fn day2_puzzle2_test() {
    let test_input = test_input();

    assert_eq!(puzzle2(&test_input), 12)
}

#[test]
fn rps_shapes_and_outcomes() {
    assert_eq!(Move::from_code('A'), Move::Rock);
    assert_eq!(Move::from_code('Y'), Move::Paper);
    assert_eq!(Move::from_code('Z'), Move::Scissors);
    assert_eq!(Move::Rock.play(&Move::Paper), 6);
    assert_eq!(Move::Paper.play(&Move::Rock), 0);
    assert_eq!(Move::Scissors.play(&Move::Scissors), 3);
    assert_eq!(Move::Scissors.points(), 3);
    assert_eq!(Move::Rock.winning_response(), Move::Paper);
    assert_eq!(Move::Rock.losing_response(), Move::Scissors);
}

#[test]
fn rps_round_parsing() {
    assert_eq!(parse_round("B Z"), Some(('B', 'Z')));
    assert_eq!(parse_round("BZ"), None);
    assert_eq!(parse_round("B  Z"), Some(('B', 'Z')));
    assert_eq!(parse_round("Bx Zy extra"), Some(('B', 'Z')));
    assert_eq!(parse_round("  "), None);
}

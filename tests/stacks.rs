use advent_puzzles::stacks::{parse_input, parse_moves, parse_state, puzzle1, puzzle2, Movement};

const DRAWING: &str = "    [D]    \n[N] [C]    \n[Z] [M] [P]\n 1   2   3 ";

fn test_input() -> (Vec<Vec<char>>, Vec<Movement>) {
    let text = format!(
        "{}\n\nmove 1 from 2 to 1\nmove 3 from 1 to 3\nmove 2 from 2 to 1\nmove 1 from 1 to 2\n",
        DRAWING
    );
    parse_input(&text).unwrap()
}

#[test]
fn day5_puzzle1_test() {
    let (state, movements) = test_input();

    assert_eq!(puzzle1(state, &movements), Some("CMZ".to_string()))
}

#[test]
fn day5_puzzle2_test() {
    let (state, movements) = test_input();

    assert_eq!(puzzle2(state, &movements), Some("MCD".to_string()))
}

#[test]
fn stacks_drawing_is_read_bottom_first() {
    assert_eq!(parse_state(DRAWING), vec![vec!['Z', 'N'], vec!['M', 'C', 'D'], vec!['P']]);
}

#[test]
fn stacks_moves_are_read() {
    let moves = parse_moves("move 3 from 1 to 2\n\nmove 10 from 2 to 3").unwrap();
    assert_eq!(moves, vec![Movement { from: 1, to: 2, amount: 3 }, Movement { from: 2, to: 3, amount: 10 }]);
    assert_eq!(parse_moves("move 3 from 1"), None);
}

#[test]
fn stacks_impossible_move_is_rejected() {
    let state = parse_state(DRAWING);
    assert_eq!(puzzle1(state.clone(), &[Movement { from: 3, to: 1, amount: 2 }]), None);
    assert_eq!(puzzle2(state, &[Movement { from: 4, to: 1, amount: 1 }]), None);
}

#[test]
fn stacks_empty_stack_has_no_top() {
    let state = parse_state(DRAWING);
    assert_eq!(puzzle1(state, &[Movement { from: 3, to: 1, amount: 1 }]), None);
}

#[test]
fn stacks_moves_take_the_first_three_numbers() {
    let moves = parse_moves("1 2 3\nmove  +4 from 5 to 6 7").unwrap();
    assert_eq!(moves, vec![Movement { from: 2, to: 3, amount: 1 }, Movement { from: 5, to: 6, amount: 4 }]);
}

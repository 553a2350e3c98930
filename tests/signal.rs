use advent_puzzles::signal::{puzzle, puzzle1, puzzle2};

#[test]
fn day6_puzzle1_test() {
    let test_input_1 = "bvwbjplbgvbhsrlpgdmjqwftvncz".to_owned();
    let test_input_2 = "nppdvjthqldpwncqszvftbrmjlhg".to_owned();
    let test_input_3 = "nznrnfrfntjfmvfwmzdfjlvtqnbhcprsg".to_owned();
    let test_input_4 = "zcfzfwzzqfrljwzlrfnpqdbhtmscgvjw".to_owned();

    assert_eq!(puzzle1(&test_input_1), 5);
    assert_eq!(puzzle1(&test_input_2), 6);
    assert_eq!(puzzle1(&test_input_3), 10);
    assert_eq!(puzzle1(&test_input_4), 11);
}

#[test]
fn day6_puzzle2_test() {
    let test_input_1 = "mjqjpqmgbljsphdztnvjfqwrcgsmlb".to_owned();
    let test_input_2 = "bvwbjplbgvbhsrlpgdmjqwftvncz".to_owned();
    let test_input_3 = "nppdvjthqldpwncqszvftbrmjlhg".to_owned();
    let test_input_4 = "nznrnfrfntjfmvfwmzdfjlvtqnbhcprsg".to_owned();
    let test_input_5 = "zcfzfwzzqfrljwzlrfnpqdbhtmscgvjw".to_owned();

    assert_eq!(puzzle2(&test_input_1), 19);
    assert_eq!(puzzle2(&test_input_2), 23);
    assert_eq!(puzzle2(&test_input_3), 23);
    assert_eq!(puzzle2(&test_input_4), 29);
    assert_eq!(puzzle2(&test_input_5), 26);
}

#[test]
fn signal_without_marker_gives_its_length() {
    assert_eq!(puzzle(&"aaaaaa".to_owned(), 4), 6);
    assert_eq!(puzzle(&"abc".to_owned(), 4), 3);
    assert_eq!(puzzle(&String::new(), 4), 0);
}

#[test]
fn signal_marker_at_start() {
    assert_eq!(puzzle(&"abcdxxxx".to_owned(), 4), 4);
}

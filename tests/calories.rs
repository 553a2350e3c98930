use advent_puzzles::calories::{add_to_top, group_totals, puzzle1, puzzle2};

fn test_input() -> Vec<String> {
    [
        "1000", "2000", "3000", "", "4000", "", "5000", "6000", "", "7000", "8000", "9000", "", "10000",
    ]
    .iter()
    .map(|l| l.to_string())
    .collect()
}

#[test]
fn day1_puzzle1_test() {
    let test_input = test_input();

    assert_eq!(puzzle1(&test_input), Some(24000))
}

#[test]
fn day1_puzzle2_test() {
    let test_input = test_input();
    assert_eq!(puzzle2(&test_input), Some(45000))
}

#[test]
fn calorie_groups_are_summed_in_order() {
    assert_eq!(group_totals(&test_input()), Some(vec![6000, 4000, 11000, 24000, 10000]));
}

#[test]
fn calorie_group_overflow_is_reported() {
    let input: Vec<String> = vec!["4294967295".to_string(), "1".to_string()];
    assert_eq!(puzzle1(&input), None);
    assert_eq!(puzzle2(&input), None);
}

#[test]
fn calorie_top_three_with_fewer_groups() {
    let input: Vec<String> = vec!["5".to_string(), "".to_string(), "7".to_string()];
    assert_eq!(puzzle2(&input), Some(12));
}

#[test]
fn calorie_insert_into_top_three() {
    let mut top: [u32; 3] = [9, 5, 2];
    add_to_top(&mut top, 7);
    assert_eq!(top, [9, 7, 5]);
    add_to_top(&mut top, 10);
    assert_eq!(top, [10, 9, 7]);
    add_to_top(&mut top, 8);
    assert_eq!(top, [10, 9, 8]);
}

#[test]
fn calorie_numbers_may_carry_a_plus_sign() {
    let input: Vec<String> = vec!["1".to_string(), "+5".to_string(), "".to_string(), "+".to_string(), "2".to_string()];
    assert_eq!(group_totals(&input), Some(vec![6, 0, 2]));
    assert_eq!(puzzle1(&input), Some(6));
    assert_eq!(puzzle2(&input), Some(8));
}

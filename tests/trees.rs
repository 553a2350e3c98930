use advent_puzzles::trees::{
    bottom_max_sight, left_max_sight, parse_grid, puzzle1, puzzle2, right_max_sight, top_max_sight,
    visible_from_bottom, visible_from_right, visible_from_top,
};

fn test_input() -> Vec<Vec<u32>> {
    let lines: Vec<String> = ["30373", "25512", "65332", "33549", "35390"].iter().map(|l| l.to_string()).collect();
    parse_grid(&lines).unwrap()
}

#[test]
fn day8_puzzle1_test() {
    let test_input = test_input();

    assert_eq!(puzzle1(&test_input), 21)
}

#[test]
fn day8_puzzle2_test() {
    let test_input = test_input();

    assert_eq!(puzzle2(&test_input), Some(8))
}

#[test]
fn trees_directions() {
    let g = test_input();
    assert!(visible_from_top(&g, 1, 1, 5));
    assert!(!visible_from_bottom(&g, 1, 1, 5));
    assert!(!visible_from_right(&g, 1, 1, 5));
    assert!(visible_from_right(&g, 1, 2, 5));
    assert_eq!(left_max_sight(&[3, 5, 3], 5), 2);
    assert_eq!(right_max_sight(&[3, 3], 5), 2);
    assert_eq!(top_max_sight(&g[0..3], 2, 5), 2);
    assert_eq!(bottom_max_sight(&g[4..5], 2, 5), 1);
}

#[test]
fn trees_grid_rejects_non_digits() {
    let lines: Vec<String> = vec!["12".to_string(), "1a".to_string()];
    assert_eq!(parse_grid(&lines), None);
}

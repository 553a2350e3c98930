use advent_puzzles::filesystem::{aggregate, list_directories, puzzle1, puzzle2, run_line, DirSize, FsError, System};

fn lines(text: &[&str]) -> Vec<String> {
    text.iter().map(|l| l.to_string()).collect()
}

fn test_input() -> Vec<DirSize> {
    let input = lines(&[
        "$ cd /", "$ ls", "dir a", "14848514 b.txt", "8504156 c.dat", "dir d", "$ cd a", "$ ls", "dir e", "29116 f",
        "2557 g", "62596 h.lst", "$ cd e", "$ ls", "584 i", "$ cd ..", "$ cd ..", "$ cd d", "$ ls", "4060174 j",
        "8033020 d.log", "5626152 d.ext", "7214296 k",
    ]);
    list_directories(&input).unwrap()
}

#[test]
fn day7_puzzle1_test() {
    assert_eq!(puzzle1(&test_input()), 95437);
}

#[test]
fn day7_puzzle2_test() {
    assert_eq!(puzzle2(&test_input()), 24933642);
}

#[test]
fn dirs_example_sizes() {
    let dirs = list_directories(&lines(&["$ cd /", "$ ls", "100 a", "dir b", "$ cd b", "$ ls", "50 c"])).unwrap();
    assert_eq!(
        dirs,
        vec![DirSize { id: 1, size: 150, parent: 0 }, DirSize { id: 3, size: 50, parent: 1 }]
    );
}

#[test]
fn dirs_root_is_sum_of_children() {
    let dirs = test_input();
    let root = dirs[0];
    assert_eq!(root.id, 1);
    let children: usize = dirs.iter().filter(|d| d.parent == 1).map(|d| d.size).sum();
    assert_eq!(root.size, 14848514 + 8504156 + children);
    assert_eq!(root.size, 48381165);
}

#[test]
fn dirs_aggregation_twice_is_the_same() {
    let mut system = System::new();
    for l in ["$ ls", "dir x", "7 f", "$ cd x", "$ ls", "5 g"] {
        run_line(&mut system, l).unwrap();
    }
    let first = aggregate(&system.files).unwrap();
    let second = aggregate(&system.files).unwrap();
    assert_eq!(first, second);
    assert_eq!(first, vec![12, 5, 7, 5]);
    assert_eq!(list_directories(&lines(&["dir x", "$ cd x", "3 y"])), list_directories(&lines(&["dir x", "$ cd x", "3 y"])));
}

#[test]
fn dirs_limit_is_inclusive() {
    let dirs = vec![
        DirSize { id: 1, size: 100_001, parent: 0 },
        DirSize { id: 2, size: 100_000, parent: 1 },
        DirSize { id: 3, size: 1, parent: 1 },
    ];
    assert_eq!(puzzle1(&dirs), 100_001);
}

#[test]
fn dirs_deletion_takes_the_smallest_candidate() {
    let dirs = vec![
        DirSize { id: 1, size: 50_000_000, parent: 0 },
        DirSize { id: 2, size: 30_000_000, parent: 1 },
        DirSize { id: 3, size: 10_000_001, parent: 1 },
        DirSize { id: 4, size: 20_000_000, parent: 1 },
        DirSize { id: 5, size: 9_999_999, parent: 1 },
    ];
    assert_eq!(puzzle2(&dirs), 10_000_001);
}

#[test]
fn dirs_cd_above_root_fails() {
    assert_eq!(list_directories(&lines(&["$ cd /", "$ cd .."])), Err(FsError::AboveRoot));
    let mut system = System::new();
    assert_eq!(system.cd(".."), Err(FsError::AboveRoot));
}

#[test]
fn dirs_errors() {
    assert_eq!(list_directories(&lines(&["$ cd nowhere"])), Err(FsError::UnknownDirectory));
    assert_eq!(list_directories(&lines(&["$ rm x"])), Err(FsError::InvalidCommand));
    assert_eq!(list_directories(&lines(&["12x a"])), Err(FsError::MalformedLine));
    assert_eq!(list_directories(&lines(&["12"])), Err(FsError::MalformedLine));
    let big = format!("{} a", usize::MAX);
    assert_eq!(list_directories(&lines(&[big.as_str(), "1 b"])), Err(FsError::SizeOverflow));
}

#[test]
fn dirs_cd_moves_and_returns() {
    let mut system = System::new();
    run_line(&mut system, "dir a").unwrap();
    run_line(&mut system, "$ cd a").unwrap();
    assert_eq!(system.current_dir, 2);
    run_line(&mut system, "$ cd /").unwrap();
    assert_eq!(system.current_dir, 1);
    assert_eq!(system.get_next_id(), 3);
}

#[test]
fn dirs_lines_are_read_as_words() {
    let mut system = System::new();
    run_line(&mut system, "dir  a b").unwrap();
    run_line(&mut system, "  7   f.txt extra").unwrap();
    run_line(&mut system, "+3 g").unwrap();
    assert_eq!(system.files[1].name, "a");
    assert_eq!(system.files[2].name, "f.txt");
    assert_eq!(system.files[2].size, 7);
    assert_eq!(system.files[3].size, 3);
    run_line(&mut system, "$ ls extra").unwrap();
    run_line(&mut system, "$  cd a b").unwrap();
    assert_eq!(system.current_dir, 2);
}

#[test]
fn dirs_rejected_line_changes_nothing() {
    let mut system = System::new();
    run_line(&mut system, "dir a").unwrap();
    run_line(&mut system, "$ cd a").unwrap();
    assert_eq!(run_line(&mut system, "$ rm a"), Err(FsError::InvalidCommand));
    assert_eq!(run_line(&mut system, "$ cd"), Err(FsError::MalformedLine));
    assert_eq!(run_line(&mut system, "$ cd zz"), Err(FsError::UnknownDirectory));
    assert_eq!(run_line(&mut system, "dir"), Err(FsError::MalformedLine));
    assert_eq!(run_line(&mut system, ""), Err(FsError::MalformedLine));
    assert_eq!(system.current_dir, 2);
    assert_eq!(system.files.len(), 2);
}

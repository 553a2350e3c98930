//! Tree heights on a grid: which trees can be seen from outside, and how far
//! each tree can see.
use vstd::prelude::*;
use vstd::string::*;
use crate::text::{digit_value, is_digit};

verus! {

/// The grid as rows of heights.
pub open spec fn grid(input: Seq<Vec<u32>>) -> Seq<Seq<u32>> {
    input.map_values(|row: Vec<u32>| row@)
}

/// Every tree left of column `c` in row `r` is lower than `h`.
pub open spec fn clear_left(g: Seq<Seq<u32>>, r: int, c: int, h: u32) -> bool {
    forall|j: int| 0 <= j < c ==> #[trigger] g[r][j] < h
}

/// Every tree right of column `c` in row `r`, if there is such a row, is lower than `h`.
pub open spec fn clear_right(g: Seq<Seq<u32>>, r: int, c: int, h: u32) -> bool {
    0 <= r < g.len() ==> forall|j: int| c < j < g[r].len() ==> #[trigger] g[r][j] < h
}

/// Every tree above row `r` in column `c` is lower than `h`; rows too short to
/// reach column `c` hide nothing.
pub open spec fn clear_above(g: Seq<Seq<u32>>, r: int, c: int, h: u32) -> bool {
    forall|i: int| 0 <= i < r && c < g[i].len() ==> #[trigger] g[i][c] < h
}

/// Every tree below row `r` in column `c` is lower than `h`.
pub open spec fn clear_below(g: Seq<Seq<u32>>, r: int, c: int, h: u32) -> bool {
    forall|i: int| r < i < g.len() && c < g[i].len() ==> #[trigger] g[i][c] < h
}

/// The tree at row `r`, column `c` can be seen from outside the grid.
pub open spec fn is_visible(g: Seq<Seq<u32>>, r: int, c: int) -> bool {
    let h = g[r][c];
    clear_left(g, r, c, h) || clear_right(g, r, c, h) || clear_above(g, r, c, h) || clear_below(g, r, c, h)
}

/// The number of visible trees among the first `n` of row `r`.
pub open spec fn row_visible(g: Seq<Seq<u32>>, r: int, n: int) -> nat
    decreases n,
{
    if n <= 0 {
        0
    } else {
        row_visible(g, r, n - 1) + if is_visible(g, r, n - 1) { 1nat } else { 0 }
    }
}

/// The number of visible trees in the first `m` rows.
pub open spec fn visible_count(g: Seq<Seq<u32>>, m: int) -> nat
    decreases m,
{
    if m <= 0 {
        0
    } else {
        visible_count(g, m - 1) + row_visible(g, m - 1, g[m - 1].len() as int)
    }
}

/// The number of trees in the first `m` rows.
pub open spec fn cell_count(g: Seq<Seq<u32>>, m: int) -> nat
    decreases m,
{
    if m <= 0 {
        0
    } else {
        cell_count(g, m - 1) + g[m - 1].len()
    }
}

proof fn lemma_cell_count_grows(g: Seq<Seq<u32>>, a: int, b: int)
    requires
        a <= b,
    ensures
        cell_count(g, a) <= cell_count(g, b),
    decreases b - a,
{
    if a < b {
        lemma_cell_count_grows(g, a, b - 1);
    }
}

proof fn lemma_row_visible_bound(g: Seq<Seq<u32>>, r: int, n: int)
    requires
        0 <= n,
    ensures
        row_visible(g, r, n) <= n,
    decreases n,
{
    if n > 0 {
        lemma_row_visible_bound(g, r, n - 1);
    }
}

proof fn lemma_visible_count_bound(g: Seq<Seq<u32>>, m: int)
    ensures
        visible_count(g, m) <= cell_count(g, m),
    decreases m,
{
    if m > 0 {
        lemma_visible_count_bound(g, m - 1);
        lemma_row_visible_bound(g, m - 1, g[m - 1].len() as int);
    }
}

/// Whether every tree above row `line_idx` in column `column_idx` is lower than `current_tree`.
pub fn visible_from_top(input: &Vec<Vec<u32>>, line_idx: usize, column_idx: usize, current_tree: u32) -> (r: bool)
    requires
        line_idx <= input@.len(),
    ensures
        r == clear_above(grid(input@), line_idx as int, column_idx as int, current_tree),
{
    let ghost g = grid(input@);
    let mut i: usize = 0;
    while i < line_idx
        invariant
            i <= line_idx <= input@.len(),
            g == grid(input@),
            clear_above(g, i as int, column_idx as int, current_tree),
        decreases line_idx - i,
    {
        let line = &input[i];
        assert(g[i as int] == line@);
        if column_idx < line.len() && line[column_idx] >= current_tree {
            return false;
        }
        i = i + 1;
    }
    true
}

/// Whether every tree below row `line_idx` in column `column_idx` is lower than `current_tree`.
pub fn visible_from_bottom(input: &Vec<Vec<u32>>, line_idx: usize, column_idx: usize, current_tree: u32) -> (r: bool)
    requires
        line_idx < input@.len(),
    ensures
        r == clear_below(grid(input@), line_idx as int, column_idx as int, current_tree),
{
    let ghost g = grid(input@);
    let mut i: usize = input.len();
    while i > line_idx + 1
        invariant
            line_idx < i <= input@.len(),
            g == grid(input@),
            forall|k: int| i <= k < g.len() && column_idx < g[k].len() ==> #[trigger] g[k][column_idx as int] < current_tree,
        decreases i,
    {
        i = i - 1;
        let line = &input[i];
        assert(g[i as int] == line@);
        if column_idx < line.len() && line[column_idx] >= current_tree {
            return false;
        }
    }
    true
}

/// Whether every tree right of column `column_idx` in row `line_idx` is lower than `current_tree`.
pub fn visible_from_right(input: &Vec<Vec<u32>>, line_idx: usize, column_idx: usize, current_tree: u32) -> (r: bool)
    requires
        line_idx < input@.len() ==> column_idx < input@[line_idx as int]@.len(),
    ensures
        r == clear_right(grid(input@), line_idx as int, column_idx as int, current_tree),
{
    let ghost g = grid(input@);
    if line_idx >= input.len() {
        return true;
    }
    let line = &input[line_idx];
    assert(g[line_idx as int] == line@);
    let mut j: usize = line.len();
    while j > column_idx + 1
        invariant
            column_idx < j <= line@.len(),
            line_idx < g.len(),
            g == grid(input@),
            g[line_idx as int] == line@,
            forall|k: int| j <= k < line@.len() ==> #[trigger] line@[k] < current_tree,
        decreases j,
    {
        j = j - 1;
        if line[j] >= current_tree {
            assert(g[line_idx as int][j as int] == line@[j as int]);
            return false;
        }
    }
    true
}

/// Counts the trees that can be seen from outside the grid: those lower than
/// nothing between them and one of the four edges.
pub fn puzzle1(input: &Vec<Vec<u32>>) -> (r: usize)
    requires
        cell_count(grid(input@), input@.len() as int) <= usize::MAX,
    ensures
        r == visible_count(grid(input@), input@.len() as int),
{
    let ghost g = grid(input@);
    let mut visible_trees: usize = 0;
    let mut line_idx: usize = 0;
    while line_idx < input.len()
        invariant
            line_idx <= input@.len(),
            g == grid(input@),
            cell_count(g, input@.len() as int) <= usize::MAX,
            visible_trees == visible_count(g, line_idx as int),
        decreases input.len() - line_idx,
    {
        let line = &input[line_idx];
        assert(g[line_idx as int] == line@);
        let mut highest_in_line: u32 = 0;
        let mut column_idx: usize = 0;
        while column_idx < line.len()
            invariant
                line_idx < input@.len(),
                column_idx <= line@.len(),
                g == grid(input@),
                g[line_idx as int] == line@,
                cell_count(g, input@.len() as int) <= usize::MAX,
                visible_trees == visible_count(g, line_idx as int) + row_visible(g, line_idx as int, column_idx as int),
                forall|j: int| 0 <= j < column_idx ==> #[trigger] line@[j] <= highest_in_line,
                column_idx > 0 ==> exists|j: int| 0 <= j < column_idx && #[trigger] line@[j] == highest_in_line,
            decreases line.len() - column_idx,
        {
            let tree = line[column_idx];
            let from_left = column_idx == 0 || tree > highest_in_line;
            assert(from_left == clear_left(g, line_idx as int, column_idx as int, tree));
            let visible = from_left
                || visible_from_right(input, line_idx, column_idx, tree)
                || visible_from_top(input, line_idx, column_idx, tree)
                || visible_from_bottom(input, line_idx, column_idx, tree);
            if visible {
                proof {
                    lemma_visible_count_bound(g, line_idx as int);
                    lemma_row_visible_bound(g, line_idx as int, column_idx as int);
                    lemma_cell_count_grows(g, line_idx + 1, input@.len() as int);
                }
                visible_trees = visible_trees + 1;
            }
            if column_idx == 0 || tree > highest_in_line {
                highest_in_line = tree;
            }
            assert(line@[column_idx as int] == tree);
            column_idx = column_idx + 1;
        }
        line_idx = line_idx + 1;
    }
    visible_trees
}

/// How many trees are seen looking from the end of `xs` towards its start,
/// counting from the `k`-th nearest on: up to and including the first one at least
/// `h` high, or to the start.
pub open spec fn left_sight(xs: Seq<u32>, h: u32, k: int) -> nat
    decreases xs.len() - k,
{
    if k < 0 || k >= xs.len() {
        xs.len()
    } else if xs[xs.len() - 1 - k] >= h {
        (k + 1) as nat
    } else {
        left_sight(xs, h, k + 1)
    }
}

/// How many trees are seen looking from the start of `xs` towards its end, counting
/// from position `k` on: up to and including the first one at least `h` high, or to the end.
pub open spec fn right_sight(xs: Seq<u32>, h: u32, k: int) -> nat
    decreases xs.len() - k,
{
    if k < 0 || k >= xs.len() {
        xs.len()
    } else if xs[k] >= h {
        (k + 1) as nat
    } else {
        right_sight(xs, h, k + 1)
    }
}

/// Like `left_sight`, over the rows `rows` from the last upwards, in column `c`;
/// a row too short to reach column `c` blocks nothing.
pub open spec fn up_sight(rows: Seq<Seq<u32>>, c: int, h: u32, k: int) -> nat
    decreases rows.len() - k,
{
    if k < 0 || k >= rows.len() {
        rows.len()
    } else if c < rows[rows.len() - 1 - k].len() && rows[rows.len() - 1 - k][c] >= h {
        (k + 1) as nat
    } else {
        up_sight(rows, c, h, k + 1)
    }
}

/// Like `right_sight`, over the rows `rows` from the first downwards, in column `c`.
pub open spec fn down_sight(rows: Seq<Seq<u32>>, c: int, h: u32, k: int) -> nat
    decreases rows.len() - k,
{
    if k < 0 || k >= rows.len() {
        rows.len()
    } else if c < rows[k].len() && rows[k][c] >= h {
        (k + 1) as nat
    } else {
        down_sight(rows, c, h, k + 1)
    }
}

/// The product of how far the tree at row `r`, column `c` sees in the four directions.
pub open spec fn scenic_score(g: Seq<Seq<u32>>, r: int, c: int) -> nat {
    let h = g[r][c];
    let row = g[r];
    left_sight(row.subrange(0, c), h, 0) * right_sight(row.subrange(c + 1, row.len() as int), h, 0)
        * up_sight(g.subrange(0, r), c, h, 0) * down_sight(g.subrange(r + 1, g.len() as int), c, h, 0)
}

pub open spec fn is_cell(g: Seq<Seq<u32>>, r: int, c: int) -> bool {
    0 <= r < g.len() && 0 <= c < g[r].len()
}

/// How far a tree of height `tree` sees leftwards over `line`, the trees left of it.
pub fn left_max_sight(line: &[u32], tree: u32) -> (r: usize)
    ensures
        r == left_sight(line@, tree, 0),
{
    let n = line.len();
    let mut k: usize = 0;
    while k < n
        invariant
            k <= n == line@.len(),
            left_sight(line@, tree, 0) == left_sight(line@, tree, k as int),
        decreases n - k,
    {
        if line[n - 1 - k] >= tree {
            return k + 1;
        }
        k = k + 1;
    }
    n
}

/// How far a tree of height `tree` sees rightwards over `line`, the trees right of it.
pub fn right_max_sight(line: &[u32], tree: u32) -> (r: usize)
    ensures
        r == right_sight(line@, tree, 0),
{
    let n = line.len();
    let mut k: usize = 0;
    while k < n
        invariant
            k <= n == line@.len(),
            right_sight(line@, tree, 0) == right_sight(line@, tree, k as int),
        decreases n - k,
    {
        if line[k] >= tree {
            return k + 1;
        }
        k = k + 1;
    }
    n
}

/// How far a tree of height `tree` sees upwards in column `column_idx` over `slice`,
/// the rows above it.
pub fn top_max_sight(slice: &[Vec<u32>], column_idx: usize, tree: u32) -> (r: usize)
    ensures
        r == up_sight(grid(slice@), column_idx as int, tree, 0),
{
    let ghost g = grid(slice@);
    let n = slice.len();
    let mut k: usize = 0;
    while k < n
        invariant
            k <= n == slice@.len(),
            g == grid(slice@),
            up_sight(g, column_idx as int, tree, 0) == up_sight(g, column_idx as int, tree, k as int),
        decreases n - k,
    {
        let line = &slice[n - 1 - k];
        assert(g[n - 1 - k] == line@);
        if column_idx < line.len() && line[column_idx] >= tree {
            return k + 1;
        }
        k = k + 1;
    }
    n
}

/// How far a tree of height `tree` sees downwards in column `column_idx` over
/// `slice`, the rows below it.
pub fn bottom_max_sight(slice: &[Vec<u32>], column_idx: usize, tree: u32) -> (r: usize)
    ensures
        r == down_sight(grid(slice@), column_idx as int, tree, 0),
{
    let ghost g = grid(slice@);
    let n = slice.len();
    let mut k: usize = 0;
    while k < n
        invariant
            k <= n == slice@.len(),
            g == grid(slice@),
            down_sight(g, column_idx as int, tree, 0) == down_sight(g, column_idx as int, tree, k as int),
        decreases n - k,
    {
        let line = &slice[k];
        assert(g[k as int] == line@);
        if column_idx < line.len() && line[column_idx] >= tree {
            return k + 1;
        }
        k = k + 1;
    }
    n
}

/// The score of one tree, or nothing where it does not fit in a `usize`.
fn score_at(input: &Vec<Vec<u32>>, line_idx: usize, column_idx: usize) -> (r: Option<usize>)
    requires
        is_cell(grid(input@), line_idx as int, column_idx as int),
    ensures
        match r {
            Some(s) => s == scenic_score(grid(input@), line_idx as int, column_idx as int),
            None => scenic_score(grid(input@), line_idx as int, column_idx as int) > usize::MAX,
        },
{
    let ghost g = grid(input@);
    let line = &input[line_idx];
    assert(g[line_idx as int] == line@);
    let width = line.len();
    let height = input.len();
    let tree = line[column_idx];
    let left = left_max_sight(&line[0..column_idx], tree);
    let after: usize = column_idx + 1;
    let right = right_max_sight(&line[after..width], tree);
    let above = &input[0..line_idx];
    assert(grid(above@) =~= g.subrange(0, line_idx as int));
    let top = top_max_sight(above, column_idx, tree);
    let next: usize = line_idx + 1;
    let below = &input[next..height];
    assert(grid(below@) =~= g.subrange(line_idx + 1, g.len() as int));
    let bottom = bottom_max_sight(below, column_idx, tree);
    assert(scenic_score(g, line_idx as int, column_idx as int) == left * right * top * bottom);
    if left == 0 || right == 0 || top == 0 || bottom == 0 {
        assert(left * right * top * bottom == 0) by (nonlinear_arith)
            requires left == 0 || right == 0 || top == 0 || bottom == 0;
        return Some(0);
    }
    proof {
        assert(left * right <= left * right * top * bottom) by (nonlinear_arith)
            requires left >= 1, right >= 1, top >= 1, bottom >= 1;
        assert(left * right * top <= left * right * top * bottom) by (nonlinear_arith)
            requires left >= 1, right >= 1, top >= 1, bottom >= 1;
    }
    let a = match left.checked_mul(right) {
        Some(v) => v,
        None => return None,
    };
    let b = match a.checked_mul(top) {
        Some(v) => v,
        None => return None,
    };
    b.checked_mul(bottom)
}

/// The highest scenic score of any tree, or nothing where some tree's score does
/// not fit in a `usize`.
pub fn puzzle2(input: &Vec<Vec<u32>>) -> (r: Option<usize>)
    requires
        input@.len() > 0,
        forall|i: int| 0 <= i < input@.len() ==> #[trigger] input@[i]@.len() > 0,
    ensures
        match r {
            Some(m) => (exists|i: int, j: int| is_cell(grid(input@), i, j) && #[trigger] scenic_score(grid(input@), i, j) == m)
                && forall|i: int, j: int| is_cell(grid(input@), i, j) ==> #[trigger] scenic_score(grid(input@), i, j) <= m,
            None => exists|i: int, j: int| is_cell(grid(input@), i, j) && #[trigger] scenic_score(grid(input@), i, j) > usize::MAX,
        },
{
    let ghost g = grid(input@);
    let mut best: usize = 0;
    let ghost mut wr: int = 0;
    let ghost mut wc: int = 0;
    let mut line_idx: usize = 0;
    while line_idx < input.len()
        invariant
            line_idx <= input@.len(),
            g == grid(input@),
            g.len() == input@.len(),
            forall|i: int| 0 <= i < g.len() ==> #[trigger] g[i].len() > 0,
            line_idx > 0 ==> is_cell(g, wr, wc) && scenic_score(g, wr, wc) == best,
            forall|i: int, j: int| is_cell(g, i, j) && i < line_idx ==> #[trigger] scenic_score(g, i, j) <= best,
        decreases input.len() - line_idx,
    {
        let n = input[line_idx].len();
        assert(g[line_idx as int].len() == n);
        let mut column_idx: usize = 0;
        while column_idx < n
            invariant
                line_idx < input@.len(),
                column_idx <= n == g[line_idx as int].len(),
                g == grid(input@),
                g.len() == input@.len(),
                (line_idx > 0 || column_idx > 0) ==> is_cell(g, wr, wc) && scenic_score(g, wr, wc) == best,
                forall|i: int, j: int| is_cell(g, i, j) && (i < line_idx || (i == line_idx && j < column_idx))
                    ==> #[trigger] scenic_score(g, i, j) <= best,
            decreases n - column_idx,
        {
            match score_at(input, line_idx, column_idx) {
                Some(s) => {
                    if (line_idx == 0 && column_idx == 0) || s > best {
                        best = s;
                        proof {
                            wr = line_idx as int;
                            wc = column_idx as int;
                        }
                    }
                },
                None => return None,
            }
            column_idx = column_idx + 1;
        }
        line_idx = line_idx + 1;
    }
    Some(best)
}

/// Every character of `l` is a digit.
pub open spec fn all_digits(l: Seq<char>) -> bool {
    forall|j: int| 0 <= j < l.len() ==> is_digit(#[trigger] l[j])
}

/// The heights that a line of digits gives.
pub open spec fn digit_row(l: Seq<char>) -> Seq<u32> {
    l.map_values(|c: char| digit_value(c) as u32)
}

fn digits_of(line: &str) -> (r: Option<Vec<u32>>)
    ensures
        match r {
            Some(row) => all_digits(line@) && row@ == digit_row(line@),
            None => !all_digits(line@),
        },
{
    let n = line.unicode_len();
    let mut row: Vec<u32> = Vec::new();
    let mut j: usize = 0;
    while j < n
        invariant
            n == line@.len(),
            j <= n,
            row@ == digit_row(line@.subrange(0, j as int)),
            forall|x: int| 0 <= x < j ==> is_digit(#[trigger] line@[x]),
        decreases n - j,
    {
        let c = line.get_char(j);
        if !('0' <= c && c <= '9') {
            return None;
        }
        row.push((c as u32 - '0' as u32) as u32);
        j = j + 1;
        assert(row@ =~= digit_row(line@.subrange(0, j as int)));
    }
    assert(line@.subrange(0, n as int) =~= line@);
    Some(row)
}

/// Reads one row of the grid per line, one digit per tree; nothing where a line
/// holds something other than digits.
pub fn parse_grid(lines: &Vec<String>) -> (r: Option<Vec<Vec<u32>>>)
    ensures
        match r {
            Some(g) => g@.len() == lines@.len() && forall|i: int| 0 <= i < lines@.len() ==>
                all_digits(lines@[i]@) && #[trigger] g@[i]@ == digit_row(lines@[i]@),
            None => exists|i: int| 0 <= i < lines@.len() && !all_digits(#[trigger] lines@[i]@),
        },
{
    let mut grid: Vec<Vec<u32>> = Vec::new();
    let mut i: usize = 0;
    while i < lines.len()
        invariant
            i <= lines@.len(),
            grid@.len() == i,
            forall|k: int| 0 <= k < i ==> #[trigger] all_digits(lines@[k]@),
            forall|k: int| 0 <= k < i ==> #[trigger] grid@[k]@ == digit_row(lines@[k]@),
        decreases lines.len() - i,
    {
        let ghost before = grid@;
        let line = lines[i].as_str();
        match digits_of(line) {
            Some(row) => {
                grid.push(row);
                assert(grid@[i as int]@ == digit_row(lines@[i as int]@));
                assert forall|k: int| 0 <= k < i + 1 implies #[trigger] grid@[k]@ == digit_row(lines@[k]@) by {
                    if k < i {
                        assert(grid@[k] == before[k]);
                        assert(before[k]@ == digit_row(lines@[k]@));
                    }
                }
            },
            None => return None,
        }
        i = i + 1;
    }
    Some(grid)
}

} // verus!

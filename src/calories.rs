//! Calories carried by elves: the lines of a list, one number per line, with
//! groups separated by any line that is not a number.
use vstd::prelude::*;
use vstd::string::*;
use crate::text::{number_at_most, parse_number, texts};

verus! {

/// The number that a line holds, where it reads as a `u32`.
pub open spec fn line_value(l: Seq<char>) -> Option<nat> {
    number_at_most(l, u32::MAX as nat)
}

/// The total of each group of lines, in order; a line that is not a number
/// closes the group before it.
pub open spec fn groups(lines: Seq<Seq<char>>) -> Seq<nat>
    decreases lines.len(),
{
    if lines.len() == 0 {
        seq![0nat]
    } else {
        let g = groups(lines.drop_last());
        match line_value(lines.last()) {
            Some(v) => g.update(g.len() - 1, g.last() + v),
            None => g.push(0),
        }
    }
}

/// Every group total fits in a `u32`.
pub open spec fn totals_fit(g: Seq<nat>) -> bool {
    forall|i: int| 0 <= i < g.len() ==> #[trigger] g[i] <= u32::MAX
}

/// The group totals followed by three empty groups, so that three can always be picked.
pub open spec fn padded(g: Seq<nat>) -> Seq<nat> {
    g + seq![0nat, 0nat, 0nat]
}

pub open spec fn distinct3(n: int, i: int, j: int, k: int) -> bool {
    0 <= i < n && 0 <= j < n && 0 <= k < n && i != j && i != k && j != k
}

/// `t` is the largest total of three different groups.
pub open spec fn is_top_three(g: Seq<nat>, t: nat) -> bool {
    let p = padded(g);
    &&& exists|i: int, j: int, k: int| distinct3(p.len() as int, i, j, k) && #[trigger] (p[i] + p[j] + p[k]) == t
    &&& forall|i: int, j: int, k: int| distinct3(p.len() as int, i, j, k) ==> #[trigger] (p[i] + p[j] + p[k]) <= t
}

proof fn lemma_groups_grow(lines: Seq<Seq<char>>, k: int)
    requires
        0 <= k <= lines.len(),
    ensures
        groups(lines.subrange(0, k)).len() >= 1,
        groups(lines.subrange(0, k)).len() <= groups(lines).len(),
        forall|x: int| 0 <= x < groups(lines.subrange(0, k)).len() ==>
            #[trigger] groups(lines.subrange(0, k))[x] <= groups(lines)[x],
    decreases lines.len() - k,
{
    if k < lines.len() {
        assert(lines.subrange(0, k + 1).drop_last() =~= lines.subrange(0, k));
        lemma_groups_nonempty(lines.subrange(0, k));
        lemma_groups_grow(lines, k + 1);
        let a = groups(lines.subrange(0, k));
        let b = groups(lines.subrange(0, k + 1));
        assert(a.len() <= b.len());
        assert forall|x: int| 0 <= x < a.len() implies #[trigger] a[x] <= b[x] by {}
    } else {
        assert(lines.subrange(0, k) =~= lines);
        lemma_groups_nonempty(lines);
    }
}

proof fn lemma_groups_nonempty(lines: Seq<Seq<char>>)
    ensures
        groups(lines).len() >= 1,
    decreases lines.len(),
{
    if lines.len() > 0 {
        lemma_groups_nonempty(lines.drop_last());
    }
}

/// The total of each group, or nothing where one does not fit in a `u32`.
pub fn group_totals(input: &Vec<String>) -> (r: Option<Vec<u32>>)
    ensures
        match r {
            Some(v) => v@.map_values(|x: u32| x as nat) == groups(texts(input@)),
            None => !totals_fit(groups(texts(input@))),
        },
{
    let ghost lines = texts(input@);
    let mut totals: Vec<u32> = Vec::new();
    let mut current: u32 = 0;
    let mut i: usize = 0;
    while i < input.len()
        invariant
            lines == texts(input@),
            i <= lines.len(),
            totals@.map_values(|x: u32| x as nat).push(current as nat) == groups(lines.subrange(0, i as int)),
        decreases input.len() - i,
    {
        let line = input[i].as_str();
        assert(lines.subrange(0, i + 1).drop_last() =~= lines.subrange(0, i as int));
        assert(lines.subrange(0, i + 1).last() == line@);
        let n = line.unicode_len();
        let parsed = parse_number(line, 0, n);
        assert(line@.subrange(0, n as int) =~= line@);
        match parsed {
            Some(value) if value <= u32::MAX as usize => {
                if value as u32 > u32::MAX - current {
                    proof {
                        let g = groups(lines.subrange(0, i + 1));
                        assert(g[g.len() - 1] > u32::MAX);
                        lemma_groups_grow(lines, i + 1);
                        assert(groups(lines)[g.len() - 1] > u32::MAX);
                    }
                    return None;
                }
                current = current + value as u32;
                assert(totals@.map_values(|x: u32| x as nat).push(current as nat) =~= groups(lines.subrange(0, i + 1)));
            },
            _ => {
                let ghost old_totals = totals@;
                totals.push(current);
                current = 0;
                assert(totals@.map_values(|x: u32| x as nat) =~= old_totals.map_values(|x: u32| x as nat).push(totals@.last() as nat));
                assert(totals@.map_values(|x: u32| x as nat).push(current as nat) =~= groups(lines.subrange(0, i + 1)));
            },
        }
        i = i + 1;
    }
    let ghost old_totals = totals@;
    totals.push(current);
    assert(lines.subrange(0, lines.len() as int) =~= lines);
    assert(totals@.map_values(|x: u32| x as nat) =~= old_totals.map_values(|x: u32| x as nat).push(current as nat));
    Some(totals)
}

/// The largest group total; nothing where a group total does not fit in a `u32`.
pub fn puzzle1(input: &Vec<String>) -> (r: Option<u32>)
    ensures
        match r {
            Some(m) => (exists|i: int| 0 <= i < groups(texts(input@)).len() && #[trigger] groups(texts(input@))[i] == m)
                && forall|i: int| 0 <= i < groups(texts(input@)).len() ==> #[trigger] groups(texts(input@))[i] <= m,
            None => !totals_fit(groups(texts(input@))),
        },
{
    let ghost g = groups(texts(input@));
    let totals = match group_totals(input) {
        Some(t) => t,
        None => return None,
    };
    assert(totals@.len() == g.len());
    proof {
        lemma_groups_nonempty(texts(input@));
    }
    let mut max: u32 = totals[0];
    assert(g[0] == totals@[0]);
    let mut i: usize = 1;
    while i < totals.len()
        invariant
            g == totals@.map_values(|x: u32| x as nat),
            1 <= i <= totals@.len(),
            exists|k: int| 0 <= k < i && #[trigger] g[k] == max,
            forall|k: int| 0 <= k < i ==> #[trigger] g[k] <= max,
        decreases totals.len() - i,
    {
        assert(g[i as int] == totals@[i as int]);
        if totals[i] > max {
            max = totals[i];
        }
        i = i + 1;
    }
    Some(max)
}

/// Puts `new_value` in its place among the three largest totals so far, held
/// largest first, dropping the smallest.
pub fn add_to_top(top: &mut [u32; 3], new_value: u32)
    requires
        old(top)@[0] >= old(top)@[1] >= old(top)@[2],
        new_value > old(top)@[2],
    ensures
        final(top)@ == if new_value > old(top)@[0] {
            seq![new_value, old(top)@[0], old(top)@[1]]
        } else if new_value > old(top)@[1] {
            seq![old(top)@[0], new_value, old(top)@[1]]
        } else {
            seq![old(top)@[0], old(top)@[1], new_value]
        },
{
    let first = top[0];
    let second = top[1];
    top[2] = new_value;
    if new_value > second {
        top[2] = second;
        top[1] = new_value;
        if new_value > first {
            top[1] = first;
            top[0] = new_value;
        }
    }
    assert(final(top)@ =~= if new_value > old(top)@[0] {
        seq![new_value, old(top)@[0], old(top)@[1]]
    } else if new_value > old(top)@[1] {
        seq![old(top)@[0], new_value, old(top)@[1]]
    } else {
        seq![old(top)@[0], old(top)@[1], new_value]
    });
}

/// The total of the three largest groups; nothing where a group total or that sum
/// does not fit in a `u32`.
pub fn puzzle2(input: &Vec<String>) -> (r: Option<u32>)
    ensures
        match r {
            Some(t) => totals_fit(groups(texts(input@))) && is_top_three(groups(texts(input@)), t as nat),
            None => !totals_fit(groups(texts(input@)))
                || exists|t: nat| t > u32::MAX && is_top_three(groups(texts(input@)), t),
        },
{
    let ghost g = groups(texts(input@));
    let totals = match group_totals(input) {
        Some(t) => t,
        None => return None,
    };
    let ghost p = padded(g);
    let n = totals.len();
    let ghost mut ia: int = n as int;
    let ghost mut ib: int = n + 1;
    let ghost mut ic: int = n + 2;
    let mut top: [u32; 3] = [0, 0, 0];
    let mut i: usize = 0;
    while i < n
        invariant
            g == totals@.map_values(|x: u32| x as nat),
            p == padded(g),
            n == g.len(),
            i <= n,
            top@[0] >= top@[1] >= top@[2],
            ia != ib && ia != ic && ib != ic,
            0 <= ia < p.len() && (ia < i || ia >= n),
            0 <= ib < p.len() && (ib < i || ib >= n),
            0 <= ic < p.len() && (ic < i || ic >= n),
            p[ia] == top@[0] && p[ib] == top@[1] && p[ic] == top@[2],
            forall|x: int| 0 <= x < p.len() && (x < i || x >= n) ==> #[trigger] p[x] <= top@[0],
            forall|x: int| 0 <= x < p.len() && (x < i || x >= n) && x != ia ==> #[trigger] p[x] <= top@[1],
            forall|x: int| 0 <= x < p.len() && (x < i || x >= n) && x != ia && x != ib ==> #[trigger] p[x] <= top@[2],
        decreases n - i,
    {
        let value = totals[i];
        assert(p[i as int] == value);
        if value > top[2] {
            let ghost (a, b) = (ia, ib);
            add_to_top(&mut top, value);
            proof {
                if value > p[a] {
                    ia = i as int;
                    ib = a;
                    ic = b;
                } else if value > p[b] {
                    ib = i as int;
                    ic = b;
                } else {
                    ic = i as int;
                }
            }
        }
        i = i + 1;
    }
    let ghost best = p[ia] + p[ib] + p[ic];
    proof {
        assert(distinct3(p.len() as int, ia, ib, ic) && p[ia] + p[ib] + p[ic] == best);
        assert forall|i: int, j: int, k: int| distinct3(p.len() as int, i, j, k) implies #[trigger] (p[i] + p[j] + p[k]) <= best by {
            if i == ia {
                if j == ib || k == ib {
                } else {
                }
            }
        }
    }
    let sum = top[0] as u64 + top[1] as u64 + top[2] as u64;
    assert(sum == best);
    assert(is_top_three(g, best));
    if sum > u32::MAX as u64 {
        return None;
    }
    Some(sum as u32)
}

} // verus!

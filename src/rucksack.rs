//! Rucksacks: the item that two compartments, or three rucksacks of a group, share.
use vstd::prelude::*;

verus! {

/// The first item of `a` from position `k` on that `b` also holds.
pub open spec fn first_common(a: Seq<char>, b: Seq<char>, k: int) -> Option<char>
    decreases a.len() - k,
{
    if k < 0 || k >= a.len() {
        None
    } else if b.contains(a[k]) {
        Some(a[k])
    } else {
        first_common(a, b, k + 1)
    }
}

/// The items of `a` that `b` also holds, in the order of `a`.
pub open spec fn common_with(a: Seq<char>, b: Seq<char>) -> Seq<char>
    decreases a.len(),
{
    if a.len() == 0 {
        Seq::empty()
    } else if b.contains(a.last()) {
        common_with(a.drop_last(), b).push(a.last())
    } else {
        common_with(a.drop_last(), b)
    }
}

/// An item's priority: 1 to 26 for `a` to `z`, 27 to 52 for `A` to `Z`.
pub open spec fn priority(c: char) -> Option<nat> {
    if 'a' <= c && c <= 'z' {
        Some((c as u32 - 'a' as u32 + 1) as nat)
    } else if 'A' <= c && c <= 'Z' {
        Some((c as u32 - 'A' as u32 + 27) as nat)
    } else {
        None
    }
}

/// The priority of the item that both halves of a rucksack hold.
pub open spec fn rucksack_priority(line: Seq<char>) -> Option<nat> {
    let half = line.len() / 2;
    match first_common(line.subrange(0, half as int), line.subrange(half as int, line.len() as int), 0) {
        Some(c) => priority(c),
        None => None,
    }
}

/// The priority of the badge of a group: the first item of the first rucksack
/// that the other two also hold.
pub open spec fn badge_priority(x: Seq<char>, y: Seq<char>, z: Seq<char>) -> Option<nat> {
    match first_common(common_with(x, y), z, 0) {
        Some(c) => priority(c),
        None => None,
    }
}

pub open spec fn rows(input: Seq<Vec<char>>) -> Seq<Seq<char>> {
    input.map_values(|l: Vec<char>| l@)
}

/// The priorities of the first `n` rucksacks added up, or nothing where one has none.
pub open spec fn rucksacks_total(lines: Seq<Seq<char>>, n: int) -> Option<nat>
    decreases n,
{
    if n <= 0 {
        Some(0)
    } else {
        match (rucksacks_total(lines, n - 1), rucksack_priority(lines[n - 1])) {
            (Some(t), Some(p)) => Some(t + p),
            _ => None,
        }
    }
}

/// The badge priorities of the first `n` groups of three added up, or nothing
/// where one has none.
pub open spec fn badges_total(lines: Seq<Seq<char>>, n: int) -> Option<nat>
    decreases n,
{
    if n <= 0 {
        Some(0)
    } else {
        match (badges_total(lines, n - 1), badge_priority(lines[3 * n - 3], lines[3 * n - 2], lines[3 * n - 1])) {
            (Some(t), Some(p)) => Some(t + p),
            _ => None,
        }
    }
}

proof fn lemma_rucksacks_stop(lines: Seq<Seq<char>>, k: int, n: int)
    requires
        0 <= k <= n,
        rucksacks_total(lines, k) is None,
    ensures
        rucksacks_total(lines, n) is None,
    decreases n - k,
{
    if k < n {
        lemma_rucksacks_stop(lines, k, n - 1);
    }
}

proof fn lemma_badges_stop(lines: Seq<Seq<char>>, k: int, n: int)
    requires
        0 <= k <= n,
        badges_total(lines, k) is None,
    ensures
        badges_total(lines, n) is None,
    decreases n - k,
{
    if k < n {
        lemma_badges_stop(lines, k, n - 1);
    }
}

fn holds(items: &[char], c: char) -> (r: bool)
    ensures
        r == items@.contains(c),
{
    let mut i: usize = 0;
    while i < items.len()
        invariant
            i <= items@.len(),
            forall|j: int| 0 <= j < i ==> items@[j] != c,
        decreases items.len() - i,
    {
        if items[i] == c {
            return true;
        }
        i = i + 1;
    }
    false
}

/// The first item of `first` that `second` also holds.
pub fn get_repeated(first: &[char], second: &[char]) -> (r: Option<char>)
    ensures
        r == first_common(first@, second@, 0),
{
    let mut i: usize = 0;
    while i < first.len()
        invariant
            i <= first@.len(),
            first_common(first@, second@, 0) == first_common(first@, second@, i as int),
        decreases first.len() - i,
    {
        if holds(second, first[i]) {
            return Some(first[i]);
        }
        i = i + 1;
    }
    None
}

/// The priority of an item, where it is a letter.
pub fn get_priority(element: char) -> (r: Option<usize>)
    ensures
        match priority(element) {
            Some(p) => r == Some(p as usize),
            None => r is None,
        },
{
    if 'a' <= element && element <= 'z' {
        Some((element as u32 - 'a' as u32 + 1) as usize)
    } else if 'A' <= element && element <= 'Z' {
        Some((element as u32 - 'A' as u32 + 27) as usize)
    } else {
        None
    }
}

/// Adds up the priorities of the item in both halves of each rucksack; nothing
/// where a rucksack has no such letter.
pub fn puzzle1(input: &Vec<Vec<char>>) -> (r: Option<usize>)
    requires
        input@.len() * 52 <= usize::MAX,
    ensures
        match rucksacks_total(rows(input@), input@.len() as int) {
            Some(t) => r == Some(t as usize),
            None => r is None,
        },
{
    let ghost ls = rows(input@);
    let mut total: usize = 0;
    let mut i: usize = 0;
    while i < input.len()
        invariant
            ls == rows(input@),
            i <= input@.len(),
            input@.len() * 52 <= usize::MAX,
            rucksacks_total(ls, i as int) == Some(total as nat),
            total <= i * 52,
        decreases input.len() - i,
    {
        let line = &input[i];
        assert(ls[i as int] == line@);
        let n = line.len();
        let half = n / 2;
        let first = &line[0..half];
        let second = &line[half..n];
        let p = match get_repeated(first, second) {
            Some(c) => get_priority(c),
            None => None,
        };
        match p {
            Some(p) => {
                assert((i + 1) * 52 <= input@.len() * 52) by (nonlinear_arith)
                    requires i + 1 <= input@.len();
                total = total + p;
            },
            None => {
                proof {
                    lemma_rucksacks_stop(ls, i as int + 1, input@.len() as int);
                }
                return None;
            },
        }
        i = i + 1;
    }
    Some(total)
}

/// The items of `first` that `second` also holds, in the order of `first`.
fn common_items(first: &[char], second: &[char]) -> (r: Vec<char>)
    ensures
        r@ == common_with(first@, second@),
{
    let mut r: Vec<char> = Vec::new();
    let mut i: usize = 0;
    while i < first.len()
        invariant
            i <= first@.len(),
            r@ == common_with(first@.subrange(0, i as int), second@),
        decreases first.len() - i,
    {
        let c = first[i];
        assert(first@.subrange(0, i + 1).drop_last() =~= first@.subrange(0, i as int));
        if holds(second, c) {
            r.push(c);
        }
        i = i + 1;
    }
    assert(first@.subrange(0, first@.len() as int) =~= first@);
    r
}

/// Adds up, for each group of three rucksacks, the priority of the first item of
/// the first rucksack that the other two also hold; nothing where the rucksacks
/// do not form whole groups or a group has no such letter.
pub fn puzzle2(input: &Vec<Vec<char>>) -> (r: Option<usize>)
    requires
        input@.len() * 52 <= usize::MAX,
    ensures
        input@.len() % 3 != 0 ==> r is None,
        input@.len() % 3 == 0 ==> match badges_total(rows(input@), (input@.len() / 3) as int) {
            Some(t) => r == Some(t as usize),
            None => r is None,
        },
{
    let ghost ls = rows(input@);
    if input.len() % 3 != 0 {
        return None;
    }
    let groups = input.len() / 3;
    let mut total: usize = 0;
    let mut g: usize = 0;
    while g < groups
        invariant
            ls == rows(input@),
            groups * 3 == input@.len(),
            g <= groups,
            input@.len() * 52 <= usize::MAX,
            badges_total(ls, g as int) == Some(total as nat),
            total <= g * 52,
        decreases groups - g,
    {
        let x = &input[3 * g];
        let y = &input[3 * g + 1];
        let z = &input[3 * g + 2];
        assert(ls[3 * g as int] == x@ && ls[3 * g + 1] == y@ && ls[3 * g + 2] == z@);
        let repeated = common_items(x.as_slice(), y.as_slice());
        let p = match get_repeated(repeated.as_slice(), z.as_slice()) {
            Some(c) => get_priority(c),
            None => None,
        };
        match p {
            Some(p) => {
                assert((g + 1) * 52 <= input@.len() * 52) by (nonlinear_arith)
                    requires g + 1 <= groups, groups * 3 == input@.len();
                total = total + p;
            },
            None => {
                proof {
                    lemma_badges_stop(ls, g as int + 1, groups as int);
                }
                return None;
            },
        }
        g = g + 1;
    }
    Some(total)
}

} // verus!

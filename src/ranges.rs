//! Pairs of section ranges, `a-b,c-d`: how many pairs have one range inside the
//! other, and how many overlap at all.
use vstd::prelude::*;
use vstd::string::*;
use crate::text::{number_at_most, parse_number};

verus! {

pub open spec fn is_separator(c: char) -> bool {
    c == '-' || c == ','
}

/// Where the field that starts at `from` ends: the next separator, or the end of the line.
pub open spec fn field_end(s: Seq<char>, from: int) -> int
    decreases s.len() - from,
{
    if from < 0 || from >= s.len() {
        s.len() as int
    } else if is_separator(s[from]) {
        from
    } else {
        field_end(s, from + 1)
    }
}

/// The numbers of `k` fields from position `from` on, where each reads as a `u16`.
pub open spec fn fields(s: Seq<char>, from: int, k: nat) -> Option<Seq<nat>>
    decreases k,
{
    if k == 0 {
        Some(Seq::empty())
    } else if from > s.len() {
        None
    } else {
        let end = field_end(s, from);
        match (number_at_most(s.subrange(from, end), u16::MAX as nat), fields(s, end + 1, (k - 1) as nat)) {
            (Some(v), Some(rest)) => Some(seq![v] + rest),
            _ => None,
        }
    }
}

/// The range pair that a line states: its first four fields.
pub open spec fn line_pair(l: Seq<char>) -> Option<Seq<nat>> {
    fields(l, 0, 4)
}

pub open spec fn pair_values(p: [u16; 4]) -> Seq<nat> {
    p@.map_values(|x: u16| x as nat)
}

/// One range of the pair holds the other.
pub open spec fn contains_other(p: [u16; 4]) -> bool {
    (p[0] <= p[2] && p[1] >= p[3]) || (p[2] <= p[0] && p[3] >= p[1])
}

/// The two ranges share a section; each range is taken to start at or before its end.
pub open spec fn overlaps(p: [u16; 4]) -> bool {
    (p[0] <= p[2] && p[2] <= p[1]) || (p[2] <= p[0] && p[0] <= p[3])
}

/// The number of pairs among the first `n` for which `f` holds.
pub open spec fn count_where(pairs: Seq<[u16; 4]>, n: int, f: spec_fn([u16; 4]) -> bool) -> nat
    decreases n,
{
    if n <= 0 {
        0
    } else {
        count_where(pairs, n - 1, f) + if f(pairs[n - 1]) { 1nat } else { 0 }
    }
}

/// Reads the field at `*pos`, a number up to the next separator, and moves `*pos`
/// to that separator, or to the end of the line.
pub fn next_and_convert(line: &str, pos: &mut usize) -> (r: Option<u16>)
    requires
        *old(pos) <= line@.len(),
    ensures
        *final(pos) == field_end(line@, *old(pos) as int),
        *final(pos) <= line@.len(),
        match number_at_most(line@.subrange(*old(pos) as int, field_end(line@, *old(pos) as int)), u16::MAX as nat) {
            Some(v) => r == Some(v as u16),
            None => r is None,
        },
{
    let n = line.unicode_len();
    let start = *pos;
    let mut end: usize = start;
    while end < n
        invariant
            n == line@.len(),
            start <= end <= n,
            field_end(line@, start as int) == field_end(line@, end as int),
        ensures
            start <= end <= n,
            field_end(line@, start as int) == end,
        decreases n - end,
    {
        let c = line.get_char(end);
        if c == '-' || c == ',' {
            break;
        }
        end = end + 1;
    }
    *pos = end;
    match parse_number(line, start, end) {
        Some(v) if v <= u16::MAX as usize => Some(v as u16),
        _ => None,
    }
}

/// Reads a line `a-b,c-d`.
pub fn parse_pair(line: &str) -> (r: Option<[u16; 4]>)
    ensures
        match line_pair(line@) {
            Some(f) => r is Some && pair_values(r.unwrap()) == f,
            None => r is None,
        },
{
    let ghost s = line@;
    let n = line.unicode_len();
    let mut values: Vec<u16> = Vec::new();
    let mut pos: usize = 0;
    let mut k: usize = 0;
    while k < 4
        invariant
            n == s.len(),
            s == line@,
            k <= 4,
            values@.len() == k,
            pos <= n,
            match fields(s, pos as int, (4 - k) as nat) {
                Some(rest) => line_pair(s) == Some(values@.map_values(|x: u16| x as nat) + rest),
                None => line_pair(s) is None,
            },
        decreases 4 - k,
    {
        let ghost before = values@;
        let v = match next_and_convert(line, &mut pos) {
            Some(v) => v,
            None => return None,
        };
        values.push(v);
        assert(values@.map_values(|x: u16| x as nat) =~= before.map_values(|x: u16| x as nat).push(v as nat));
        if k < 3 {
            if pos >= n {
                assert(fields(s, pos + 1, (4 - k - 1) as nat) is None);
                return None;
            }
            pos = pos + 1;
        } else {
            assert(fields(s, pos + 1, 0) == Some(Seq::<nat>::empty()));
        }
        proof {
            let ghost rest = fields(s, pos as int, (4 - k - 1) as nat);
            if k < 3 {
                if rest is Some {
                    assert(values@.map_values(|x: u16| x as nat) + rest.unwrap() =~= before.map_values(|x: u16| x as nat) + (seq![v as nat] + rest.unwrap()));
                }
            } else {
                assert(values@.map_values(|x: u16| x as nat) + Seq::<nat>::empty() =~= before.map_values(|x: u16| x as nat) + (seq![v as nat] + Seq::<nat>::empty()));
            }
        }
        k = k + 1;
    }
    let r = [values[0], values[1], values[2], values[3]];
    assert(pair_values(r) =~= values@.map_values(|x: u16| x as nat));
    assert(values@.map_values(|x: u16| x as nat) + Seq::<nat>::empty() =~= values@.map_values(|x: u16| x as nat));
    Some(r)
}

/// Reads one pair per line.
pub fn parse_pairs(lines: &Vec<String>) -> (r: Option<Vec<[u16; 4]>>)
    ensures
        match r {
            Some(v) => v@.len() == lines@.len() && forall|i: int| 0 <= i < lines@.len() ==>
                line_pair(#[trigger] lines@[i]@) == Some(pair_values(v@[i])),
            None => exists|i: int| 0 <= i < lines@.len() && line_pair(#[trigger] lines@[i]@) is None,
        },
{
    let mut out: Vec<[u16; 4]> = Vec::new();
    let mut i: usize = 0;
    while i < lines.len()
        invariant
            i <= lines@.len(),
            out@.len() == i,
            forall|j: int| 0 <= j < i ==> line_pair(#[trigger] lines@[j]@) == Some(pair_values(out@[j])),
        decreases lines.len() - i,
    {
        match parse_pair(lines[i].as_str()) {
            Some(p) => out.push(p),
            None => return None,
        }
        i = i + 1;
    }
    Some(out)
}

/// The number of pairs in which one range holds the other.
pub fn puzzle1(input: &Vec<[u16; 4]>) -> (r: usize)
    ensures
        r == count_where(input@, input@.len() as int, |p: [u16; 4]| contains_other(p)),
{
    let mut count: usize = 0;
    let mut i: usize = 0;
    while i < input.len()
        invariant
            i <= input@.len(),
            count <= i,
            count == count_where(input@, i as int, |p: [u16; 4]| contains_other(p)),
        decreases input.len() - i,
    {
        let p = input[i];
        if (p[0] <= p[2] && p[1] >= p[3]) || (p[2] <= p[0] && p[3] >= p[1]) {
            count = count + 1;
        }
        i = i + 1;
    }
    count
}

/// The number of pairs whose ranges overlap.
pub fn puzzle2(input: &Vec<[u16; 4]>) -> (r: usize)
    ensures
        r == count_where(input@, input@.len() as int, |p: [u16; 4]| overlaps(p)),
{
    let mut count: usize = 0;
    let mut i: usize = 0;
    while i < input.len()
        invariant
            i <= input@.len(),
            count <= i,
            count == count_where(input@, i as int, |p: [u16; 4]| overlaps(p)),
        decreases input.len() - i,
    {
        let p = input[i];
        if (p[0] <= p[2] && p[2] <= p[1]) || (p[2] <= p[0] && p[0] <= p[3]) {
            count = count + 1;
        }
        i = i + 1;
    }
    count
}

} // verus!

//! Start markers in a signal: the first window of characters that are all different.
use vstd::prelude::*;
use crate::text::chars_of;

verus! {

/// The `m` characters of `s` from position `i` on are all different.
pub open spec fn all_different(s: Seq<char>, i: int, m: int) -> bool {
    forall|a: int, b: int| i <= a < b < i + m ==> #[trigger] s[a] != #[trigger] s[b]
}

/// The first position at or after `i` where a window of `m` different characters starts.
pub open spec fn first_marker(s: Seq<char>, m: int, i: int) -> Option<int>
    decreases s.len() + 1 - i,
{
    if i < 0 || i + m > s.len() {
        None
    } else if all_different(s, i, m) {
        Some(i)
    } else {
        first_marker(s, m, i + 1)
    }
}

/// Where the signal is read up to when its marker has just been seen.
pub open spec fn marker_end(s: Seq<char>, m: int) -> int {
    match first_marker(s, m, 0) {
        Some(i) => i + m,
        None => s.len() as int,
    }
}

fn window_different(cs: &Vec<char>, i: usize, m: usize) -> (r: bool)
    requires
        i + m <= cs@.len(),
    ensures
        r == all_different(cs@, i as int, m as int),
{
    let n = cs.len();
    let end: usize = i + m;
    let mut b: usize = i;
    while b < end
        invariant
            end == i + m,
            i <= b <= i + m <= cs@.len(),
            forall|x: int, y: int| i <= x < y < b ==> #[trigger] cs@[x] != #[trigger] cs@[y],
        decreases end - b,
    {
        let mut a: usize = i;
        while a < b
            invariant
                end == i + m,
                i <= a <= b < i + m <= cs@.len(),
                forall|x: int, y: int| i <= x < y < b ==> #[trigger] cs@[x] != #[trigger] cs@[y],
                forall|x: int| i <= x < a ==> #[trigger] cs@[x] != cs@[b as int],
            decreases b - a,
        {
            if cs[a] == cs[b] {
                return false;
            }
            a = a + 1;
        }
        b = b + 1;
    }
    true
}

/// The position just past the first window of `marker` different characters, or
/// the signal's length where there is none.
pub fn puzzle(input: &String, marker: usize) -> (r: usize)
    ensures
        r == marker_end(input@, marker as int),
{
    let cs = chars_of(input.as_str());
    let signal_length = cs.len();
    let mut i: usize = 0;
    while i < signal_length && marker <= signal_length - i
        invariant
            cs@ == input@,
            signal_length == cs@.len(),
            i <= signal_length,
            first_marker(cs@, marker as int, 0) == first_marker(cs@, marker as int, i as int),
        decreases signal_length - i,
    {
        if window_different(&cs, i, marker) {
            return i + marker;
        }
        i = i + 1;
    }
    signal_length
}

/// The end of the first packet marker, four different characters.
pub fn puzzle1(input: &String) -> (r: usize)
    ensures
        r == marker_end(input@, 4),
{
    puzzle(input, 4)
}

/// The end of the first message marker, fourteen different characters.
pub fn puzzle2(input: &String) -> (r: usize)
    ensures
        r == marker_end(input@, 14),
{
    puzzle(input, 14)
}

} // verus!

//! Character-level helpers shared by the puzzle parsers.
use vstd::prelude::*;
use vstd::string::*;

verus! {

pub open spec fn is_digit(c: char) -> bool {
    '0' <= c && c <= '9'
}

pub open spec fn digit_value(c: char) -> nat {
    (c as u32 - '0' as u32) as nat
}

/// A non-empty run of decimal digits.
pub open spec fn is_decimal(s: Seq<char>) -> bool {
    s.len() > 0 && forall|i: int| 0 <= i < s.len() ==> is_digit(#[trigger] s[i])
}

/// The number that a run of decimal digits denotes.
pub open spec fn decimal_value(s: Seq<char>) -> nat
    decreases s.len(),
{
    if s.len() == 0 {
        0
    } else {
        decimal_value(s.drop_last()) * 10 + digit_value(s.last())
    }
}

/// What reading `s` as a decimal number of at most `max` gives.
pub open spec fn decimal_at_most(s: Seq<char>, max: nat) -> Option<nat> {
    if is_decimal(s) && decimal_value(s) <= max {
        Some(decimal_value(s))
    } else {
        None
    }
}

/// `s` holds `p` at position `from`.
pub open spec fn occurs_at(s: Seq<char>, from: int, p: Seq<char>) -> bool {
    0 <= from && from + p.len() <= s.len() && s.subrange(from, from + p.len()) == p
}

proof fn lemma_decimal_prefix_grows(s: Seq<char>, k: int)
    requires
        0 <= k <= s.len(),
        forall|i: int| 0 <= i < s.len() ==> is_digit(#[trigger] s[i]),
    ensures
        decimal_value(s.subrange(0, k)) <= decimal_value(s),
    decreases s.len(),
{
    if k < s.len() {
        let t = s.drop_last();
        assert(t.subrange(0, k) =~= s.subrange(0, k));
        lemma_decimal_prefix_grows(t, k);
    } else {
        assert(s.subrange(0, k) =~= s);
    }
}

/// Reads the characters `from..to` of `s` as a decimal number that fits in a `usize`.
pub fn parse_decimal(s: &str, from: usize, to: usize) -> (r: Option<usize>)
    requires
        from <= to <= s@.len(),
    ensures
        r == match decimal_at_most(s@.subrange(from as int, to as int), usize::MAX as nat) {
            Some(v) => Some(v as usize),
            None => None::<usize>,
        },
{
    let ghost t = s@.subrange(from as int, to as int);
    if from == to {
        return None;
    }
    let mut value: usize = 0;
    let mut i: usize = from;
    while i < to
        invariant
            from <= i <= to <= s@.len(),
            t == s@.subrange(from as int, to as int),
            forall|j: int| 0 <= j < i - from ==> is_digit(#[trigger] t[j]),
            value as nat == decimal_value(t.subrange(0, i - from)),
        decreases to - i,
    {
        let c = s.get_char(i);
        let ghost p = t.subrange(0, i - from + 1);
        assert(p.drop_last() =~= t.subrange(0, i - from));
        assert(t[i - from] == c);
        if !('0' <= c && c <= '9') {
            return None;
        }
        let d: usize = (c as u32 - '0' as u32) as usize;
        if value > (usize::MAX - d) / 10 {
            proof {
                assert(decimal_value(p) > usize::MAX) by (nonlinear_arith)
                    requires
                        value > (usize::MAX - d) / 10,
                        decimal_value(p) == value * 10 + d,
                        d <= 9,
                ;
                if is_decimal(t) {
                    lemma_decimal_prefix_grows(t, i - from + 1);
                }
            }
            return None;
        }
        proof {
            assert(value * 10 + d <= usize::MAX) by (nonlinear_arith)
                requires
                    value <= (usize::MAX - d) / 10,
                    d <= 9,
            ;
        }
        value = value * 10 + d;
        i = i + 1;
    }
    assert(t.subrange(0, to - from) =~= t);
    Some(value)
}

/// Whether `s` holds `p` at position `from`.
pub fn matches_at(s: &str, from: usize, p: &str) -> (r: bool)
    ensures
        r == occurs_at(s@, from as int, p@),
{
    let n = s.unicode_len();
    let m = p.unicode_len();
    if from > n || m > n - from {
        return false;
    }
    let mut i: usize = 0;
    while i < m
        invariant
            n == s@.len(),
            m == p@.len(),
            from + m <= n,
            i <= m,
            forall|j: int| 0 <= j < i ==> s@[from + j] == p@[j],
        decreases m - i,
    {
        if s.get_char(from + i) != p.get_char(i) {
            assert(s@.subrange(from as int, from + m)[i as int] != p@[i as int]);
            return false;
        }
        i = i + 1;
    }
    assert(s@.subrange(from as int, from + m) =~= p@);
    true
}

/// Whether the two texts hold the same characters.
pub fn same_text(a: &str, b: &str) -> (r: bool)
    ensures
        r == (a@ == b@),
{
    let n = a.unicode_len();
    if n != b.unicode_len() {
        return false;
    }
    let r = matches_at(a, 0, b);
    assert(r ==> a@.subrange(0, n as int) =~= a@);
    assert(a@ == b@ ==> a@.subrange(0, n as int) =~= a@);
    r
}

/// The position of the first `c` in `s` at or after `from`, if any.
pub open spec fn index_of(s: Seq<char>, c: char, from: int) -> Option<int>
    decreases s.len() - from,
{
    if from < 0 || from >= s.len() {
        None
    } else if s[from] == c {
        Some(from)
    } else {
        index_of(s, c, from + 1)
    }
}

/// The position of the first `c` in `s` at or after `from`, if any.
pub fn find_char(s: &str, from: usize, c: char) -> (r: Option<usize>)
    requires
        from <= s@.len(),
    ensures
        match r {
            Some(k) => from <= k < s@.len() && index_of(s@, c, from as int) == Some(k as int),
            None => index_of(s@, c, from as int) == None::<int>,
        },
{
    let n = s.unicode_len();
    let mut i: usize = from;
    while i < n
        invariant
            n == s@.len(),
            from <= i <= n,
            index_of(s@, c, from as int) == index_of(s@, c, i as int),
        decreases n - i,
    {
        if s.get_char(i) == c {
            return Some(i);
        }
        i = i + 1;
    }
    None
}

/// The pieces of `s` from position `from` on, cut at each `c`: one more piece
/// than there are `c`s.
pub open spec fn pieces(s: Seq<char>, c: char, from: int) -> Seq<Seq<char>>
    decreases s.len() - from,
{
    match index_of(s, c, from) {
        Some(k) => if from <= k < s.len() {
            seq![s.subrange(from, k)] + pieces(s, c, k + 1)
        } else {
            Seq::empty()
        },
        None => seq![s.subrange(from, s.len() as int)],
    }
}

pub open spec fn texts(v: Seq<String>) -> Seq<Seq<char>> {
    v.map_values(|t: String| t@)
}

/// Cuts `s` at each `c`.
pub fn split_text(s: &str, c: char) -> (r: Vec<String>)
    ensures
        texts(r@) == pieces(s@, c, 0),
        r@.len() >= 1,
{
    let n = s.unicode_len();
    let mut r: Vec<String> = Vec::new();
    let mut i: usize = 0;
    loop
        invariant
            n == s@.len(),
            i <= n,
            texts(r@) + pieces(s@, c, i as int) == pieces(s@, c, 0),
        decreases n - i,
    {
        let ghost before = r@;
        match find_char(s, i, c) {
            Some(k) => {
                let piece = s.substring_char(i, k).to_owned();
                r.push(piece);
                proof {
                    assert(texts(r@) =~= texts(before).push(piece@));
                    assert(texts(r@) + pieces(s@, c, k + 1) =~= texts(before) + pieces(s@, c, i as int));
                }
                i = k + 1;
            },
            None => {
                let piece = s.substring_char(i, n).to_owned();
                r.push(piece);
                proof {
                    assert(texts(r@) =~= texts(before) + pieces(s@, c, i as int));
                }
                return r;
            },
        }
    }
}

/// The first position at or after `from` where `s` holds `p`, if any.
pub open spec fn position_of(s: Seq<char>, p: Seq<char>, from: int) -> Option<int>
    decreases s.len() + 1 - from,
{
    if from < 0 || from + p.len() > s.len() {
        None
    } else if occurs_at(s, from, p) {
        Some(from)
    } else {
        position_of(s, p, from + 1)
    }
}

/// The first position at or after `from` where `s` holds `p`, if any.
pub fn find_text(s: &str, from: usize, p: &str) -> (r: Option<usize>)
    requires
        p@.len() > 0,
    ensures
        match r {
            Some(k) => from <= k && k + p@.len() <= s@.len() && position_of(s@, p@, from as int) == Some(k as int),
            None => position_of(s@, p@, from as int) == None::<int>,
        },
{
    let n = s.unicode_len();
    let m = p.unicode_len();
    if m > n {
        return None;
    }
    let mut i: usize = from;
    while i <= n - m
        invariant
            n == s@.len(),
            m == p@.len(),
            0 < m <= n,
            from <= i,
            position_of(s@, p@, from as int) == position_of(s@, p@, i as int),
        decreases n - i,
    {
        if matches_at(s, i, p) {
            return Some(i);
        }
        i = i + 1;
    }
    None
}

/// The characters of `s`.
pub fn chars_of(s: &str) -> (r: Vec<char>)
    ensures
        r@ == s@,
{
    let n = s.unicode_len();
    let mut r: Vec<char> = Vec::new();
    let mut i: usize = 0;
    while i < n
        invariant
            n == s@.len(),
            i <= n,
            r@ == s@.subrange(0, i as int),
        decreases n - i,
    {
        r.push(s.get_char(i));
        i = i + 1;
        assert(r@ =~= s@.subrange(0, i as int));
    }
    assert(r@ =~= s@);
    r
}

/// A number as `str::parse` reads it for an unsigned type: an optional `+`,
/// then decimal digits, of value at most `max`.
pub open spec fn number_at_most(s: Seq<char>, max: nat) -> Option<nat> {
    if s.len() > 0 && s[0] == '+' {
        decimal_at_most(s.drop_first(), max)
    } else {
        decimal_at_most(s, max)
    }
}

/// Reads the characters `from..to` of `s` as an unsigned number that fits in a `usize`.
pub fn parse_number(s: &str, from: usize, to: usize) -> (r: Option<usize>)
    requires
        from <= to <= s@.len(),
    ensures
        r == match number_at_most(s@.subrange(from as int, to as int), usize::MAX as nat) {
            Some(v) => Some(v as usize),
            None => None::<usize>,
        },
{
    if from < to && s.get_char(from) == '+' {
        assert(s@.subrange(from as int, to as int).drop_first() =~= s@.subrange(from + 1, to as int));
        parse_decimal(s, from + 1, to)
    } else {
        parse_decimal(s, from, to)
    }
}

/// The characters that `char::is_whitespace` accepts: those of Unicode's White_Space property.
pub open spec fn is_space(c: char) -> bool {
    ('\t' <= c && c <= '\r') || c == ' ' || c == '\u{85}' || c == '\u{a0}' || c == '\u{1680}'
        || ('\u{2000}' <= c && c <= '\u{200a}') || c == '\u{2028}' || c == '\u{2029}' || c == '\u{202f}'
        || c == '\u{205f}' || c == '\u{3000}'
}

fn char_is_space(c: char) -> (r: bool)
    ensures
        r == is_space(c),
{
    ('\t' <= c && c <= '\r') || c == ' ' || c == '\u{85}' || c == '\u{a0}' || c == '\u{1680}'
        || ('\u{2000}' <= c && c <= '\u{200a}') || c == '\u{2028}' || c == '\u{2029}' || c == '\u{202f}'
        || c == '\u{205f}' || c == '\u{3000}'
}

/// The first position at or after `i` that holds no whitespace, or the end.
pub open spec fn skip_spaces(s: Seq<char>, i: int) -> int
    decreases s.len() - i,
{
    if i < 0 || i >= s.len() {
        s.len() as int
    } else if !is_space(s[i]) {
        i
    } else {
        skip_spaces(s, i + 1)
    }
}

/// The first position at or after `i` that holds whitespace, or the end.
pub open spec fn word_end(s: Seq<char>, i: int) -> int
    decreases s.len() - i,
{
    if i < 0 || i >= s.len() {
        s.len() as int
    } else if is_space(s[i]) {
        i
    } else {
        word_end(s, i + 1)
    }
}

/// The words of `s` from position `i` on, as `str::split_whitespace` gives them.
pub open spec fn words_from(s: Seq<char>, i: int) -> Seq<Seq<char>>
    decreases s.len() - i,
{
    let j = skip_spaces(s, i);
    let k = word_end(s, j);
    if 0 <= i < j && j < s.len() || 0 <= i == j < s.len() {
        if i < k <= s.len() {
            seq![s.subrange(j, k)] + words_from(s, k)
        } else {
            Seq::empty()
        }
    } else {
        Seq::empty()
    }
}

/// The words of `s`: its runs of characters other than whitespace.
pub open spec fn words(s: Seq<char>) -> Seq<Seq<char>> {
    words_from(s, 0)
}

proof fn lemma_skip_bounds(s: Seq<char>, i: int)
    requires
        0 <= i <= s.len(),
    ensures
        i <= skip_spaces(s, i) <= s.len(),
        skip_spaces(s, i) < s.len() ==> !is_space(s[skip_spaces(s, i)]),
    decreases s.len() - i,
{
    if i < s.len() && is_space(s[i]) {
        lemma_skip_bounds(s, i + 1);
    }
}

proof fn lemma_end_bounds(s: Seq<char>, j: int)
    requires
        0 <= j < s.len(),
        !is_space(s[j]),
    ensures
        j < word_end(s, j) <= s.len(),
    decreases s.len() - j,
{
    assert(word_end(s, j) == word_end(s, j + 1));
    if j + 1 < s.len() && !is_space(s[j + 1]) {
        lemma_end_bounds(s, j + 1);
    } else {
        assert(word_end(s, j + 1) == j + 1);
    }
}

/// Cuts `s` into its words, as `str::split_whitespace` does.
pub fn split_words(s: &str) -> (r: Vec<String>)
    ensures
        texts(r@) == words(s@),
        forall|i: int| 0 <= i < r@.len() ==> #[trigger] r@[i]@.len() > 0,
{
    let n = s.unicode_len();
    let mut r: Vec<String> = Vec::new();
    let mut i: usize = 0;
    while i < n
        invariant
            n == s@.len(),
            i <= n,
            texts(r@) + words_from(s@, i as int) == words(s@),
            forall|x: int| 0 <= x < r@.len() ==> #[trigger] r@[x]@.len() > 0,
        decreases n - i,
    {
        let mut j: usize = i;
        while j < n && char_is_space(s.get_char(j))
            invariant
                n == s@.len(),
                i <= j <= n,
                skip_spaces(s@, i as int) == skip_spaces(s@, j as int),
            decreases n - j,
        {
            j = j + 1;
        }
        if j == n {
            assert(words_from(s@, i as int) =~= Seq::<Seq<char>>::empty());
            assert(texts(r@) + words_from(s@, i as int) =~= texts(r@));
            return r;
        }
        let mut k: usize = j;
        while k < n && !char_is_space(s.get_char(k))
            invariant
                n == s@.len(),
                j <= k <= n,
                word_end(s@, j as int) == word_end(s@, k as int),
            decreases n - k,
        {
            k = k + 1;
        }
        proof {
            lemma_skip_bounds(s@, i as int);
            lemma_end_bounds(s@, j as int);
        }
        let ghost before = r@;
        let w = s.substring_char(j, k).to_owned();
        r.push(w);
        proof {
            assert(texts(r@) =~= texts(before).push(w@));
            assert(texts(r@) + words_from(s@, k as int) =~= texts(before) + words_from(s@, i as int));
        }
        i = k;
    }
    assert(words_from(s@, i as int) =~= Seq::<Seq<char>>::empty());
    assert(texts(r@) + words_from(s@, i as int) =~= texts(r@));
    r
}

} // verus!

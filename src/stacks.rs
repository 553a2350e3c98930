//! Stacks of crates moved by a crane: parsing the drawing and the moves, and
//! running them one crate at a time or several at once.
use vstd::prelude::*;
use vstd::string::*;
use crate::text::{number_at_most, parse_number, pieces, position_of, texts, find_text, split_text, split_words, words};

verus! {

/// Move `amount` crates from stack `from` to stack `to`, both counted from 1.
#[derive(Clone, Copy, Debug, PartialEq, Eq, Structural)]
pub struct Movement {
    pub from: usize,
    pub to: usize,
    pub amount: usize,
}

/// Whether `char::is_alphabetic` holds of a character.
pub uninterp spec fn alphabetic(c: char) -> bool;

/// Relies on `char::is_alphabetic`: whether the character has Unicode's
/// Alphabetic property, a fact of the character alone.
#[verifier::external_body]
fn is_alphabetic(c: char) -> (r: bool)
    ensures
        r == alphabetic(c),
{
    c.is_alphabetic()
}

/// The stack in column `col` of the drawing's `k` lowest rows, bottom first.
pub open spec fn column_stack(rows: Seq<Seq<char>>, col: int, k: int) -> Seq<char>
    decreases k,
{
    if k <= 0 {
        Seq::empty()
    } else {
        let below = column_stack(rows, col, k - 1);
        let row = rows[rows.len() - k];
        if col < row.len() && alphabetic(row[col]) {
            below.push(row[col])
        } else {
            below
        }
    }
}

/// The stacks that a drawing shows: its last line numbers them, and the label of
/// stack `i` stands in column `4 * i + 1` of the lines above.
pub open spec fn drawing_stacks(text: Seq<char>) -> Seq<Seq<char>> {
    let lines = pieces(text, '\n', 0);
    let rows = lines.drop_last();
    let n = words(lines.last()).len();
    Seq::new(n, |i: int| column_stack(rows, 4 * i + 1, rows.len() as int))
}

pub open spec fn stacks_of(state: Seq<Vec<char>>) -> Seq<Seq<char>> {
    state.map_values(|s: Vec<char>| s@)
}

/// Reads the drawing of the stacks, bottom crate first in each stack.
pub fn parse_state(state_data: &str) -> (r: Vec<Vec<char>>)
    ensures
        stacks_of(r@) == drawing_stacks(state_data@),
{
    let lines = split_text(state_data, '\n');
    let ghost ls = texts(lines@);
    let last = lines.len() - 1;
    assert(ls.last() == lines@[last as int]@);
    let total_stacks = split_words(lines[last].as_str()).len();
    let ghost rows = ls.drop_last();
    let ghost want = drawing_stacks(state_data@);
    let mut state: Vec<Vec<char>> = Vec::new();
    let mut current_stack: usize = 0;
    while current_stack < total_stacks
        invariant
            ls == texts(lines@),
            ls == pieces(state_data@, '\n', 0),
            rows == ls.drop_last(),
            last + 1 == lines@.len(),
            want == drawing_stacks(state_data@),
            want.len() == total_stacks,
            current_stack <= total_stacks,
            stacks_of(state@) == want.subrange(0, current_stack as int),
        decreases total_stacks - current_stack,
    {
        let ghost col = 4 * current_stack + 1;
        let mut stack: Vec<char> = Vec::new();
        let mut k: usize = 0;
        while k < last
            invariant
                ls == texts(lines@),
                rows == ls.drop_last(),
                last + 1 == lines@.len(),
                k <= last,
                col == 4 * current_stack + 1,
                stack@ == column_stack(rows, col, k as int),
            decreases last - k,
        {
            let line = lines[last - 1 - k].as_str();
            assert(rows[rows.len() - (k + 1)] == line@);
            let width = line.unicode_len();
            if current_stack <= (usize::MAX - 1) / 4 {
                let current_index = current_stack * 4 + 1;
                assert(current_index == col);
                if current_index < width {
                    let value = line.get_char(current_index);
                    if is_alphabetic(value) {
                        stack.push(value);
                    }
                }
            } else {
                assert(col > usize::MAX) by (nonlinear_arith)
                    requires current_stack > (usize::MAX - 1) / 4, col == 4 * current_stack + 1;
            }
            k = k + 1;
        }
        let ghost before = state@;
        state.push(stack);
        proof {
            assert(stacks_of(state@) =~= stacks_of(before).push(stack@));
            assert(want.subrange(0, current_stack + 1) =~= want.subrange(0, current_stack as int).push(want[current_stack as int]));
        }
        current_stack = current_stack + 1;
    }
    assert(want.subrange(0, total_stacks as int) =~= want);
    state
}

/// The words among `ws` that read as a `usize`, with their values, in order.
pub open spec fn numbers_in(ws: Seq<Seq<char>>) -> Seq<nat>
    decreases ws.len(),
{
    if ws.len() == 0 {
        Seq::empty()
    } else {
        match number_at_most(ws.last(), usize::MAX as nat) {
            Some(v) => numbers_in(ws.drop_last()).push(v),
            None => numbers_in(ws.drop_last()),
        }
    }
}

/// The move that a line states: its first three words that read as numbers are
/// the amount, the stack to take from and the stack to put on.
pub open spec fn parse_move(l: Seq<char>) -> Option<Movement> {
    let ns = numbers_in(words(l));
    if ns.len() >= 3 {
        Some(Movement { amount: ns[0] as usize, from: ns[1] as usize, to: ns[2] as usize })
    } else {
        None
    }
}

/// The moves of the lines in order, empty lines skipped; nothing where a line states no move.
pub open spec fn parse_move_lines(lines: Seq<Seq<char>>) -> Option<Seq<Movement>>
    decreases lines.len(),
{
    if lines.len() == 0 {
        Some(Seq::empty())
    } else {
        match parse_move_lines(lines.drop_last()) {
            None => None,
            Some(ms) => if lines.last().len() == 0 {
                Some(ms)
            } else {
                match parse_move(lines.last()) {
                    Some(m) => Some(ms.push(m)),
                    None => None,
                }
            },
        }
    }
}

fn parse_move_line(l: &str) -> (r: Option<Movement>)
    ensures
        r == parse_move(l@),
{
    let ws = split_words(l);
    let ghost w = texts(ws@);
    let mut ns: Vec<usize> = Vec::new();
    let mut i: usize = 0;
    while i < ws.len()
        invariant
            w == texts(ws@),
            i <= w.len(),
            ns@.map_values(|x: usize| x as nat) == numbers_in(w.subrange(0, i as int)),
        decreases ws.len() - i,
    {
        let word = ws[i].as_str();
        let n = word.unicode_len();
        assert(w.subrange(0, i + 1).drop_last() =~= w.subrange(0, i as int));
        assert(w.subrange(0, i + 1).last() == word@);
        assert(word@.subrange(0, n as int) =~= word@);
        let ghost before = ns@;
        match parse_number(word, 0, n) {
            Some(v) => {
                ns.push(v);
                assert(ns@.map_values(|x: usize| x as nat) =~= before.map_values(|x: usize| x as nat).push(v as nat));
            },
            None => {},
        }
        i = i + 1;
    }
    assert(w.subrange(0, w.len() as int) =~= w);
    if ns.len() < 3 {
        return None;
    }
    assert(ns@[0] as nat == numbers_in(w)[0] && ns@[1] as nat == numbers_in(w)[1] && ns@[2] as nat == numbers_in(w)[2]);
    Some(Movement { from: ns[1], to: ns[2], amount: ns[0] })
}

/// Reads one move per line, such as `move <amount> from <from> to <to>`, skipping
/// empty lines; nothing where a line holds fewer than three numbers.
pub fn parse_moves(moves: &str) -> (r: Option<Vec<Movement>>)
    ensures
        match parse_move_lines(pieces(moves@, '\n', 0)) {
            Some(ms) => r is Some && r.unwrap()@ == ms,
            None => r is None,
        },
{
    let lines = split_text(moves, '\n');
    let ghost ls = texts(lines@);
    let mut out: Vec<Movement> = Vec::new();
    let mut i: usize = 0;
    while i < lines.len()
        invariant
            ls == texts(lines@),
            ls == pieces(moves@, '\n', 0),
            i <= ls.len(),
            parse_move_lines(ls.subrange(0, i as int)) == Some(out@),
        decreases lines.len() - i,
    {
        let line = lines[i].as_str();
        assert(ls.subrange(0, i + 1).drop_last() =~= ls.subrange(0, i as int));
        assert(ls.subrange(0, i + 1).last() == line@);
        if line.unicode_len() > 0 {
            match parse_move_line(line) {
                Some(m) => out.push(m),
                None => {
                    proof {
                        assert(parse_move_lines(ls.subrange(0, i + 1)) is None);
                        lemma_parse_stops(ls, i as int + 1);
                    }
                    return None;
                },
            }
        }
        i = i + 1;
    }
    assert(ls.subrange(0, ls.len() as int) =~= ls);
    Some(out)
}

proof fn lemma_parse_stops(lines: Seq<Seq<char>>, k: int)
    requires
        0 <= k <= lines.len(),
        parse_move_lines(lines.subrange(0, k)) is None,
    ensures
        parse_move_lines(lines) is None,
    decreases lines.len() - k,
{
    if k < lines.len() {
        assert(lines.subrange(0, k + 1).drop_last() =~= lines.subrange(0, k));
        lemma_parse_stops(lines, k + 1);
    } else {
        assert(lines.subrange(0, k) =~= lines);
    }
}

/// Move `m` can be made: both stacks exist and the first holds enough crates.
pub open spec fn move_applies(st: Seq<Seq<char>>, m: Movement) -> bool {
    1 <= m.from <= st.len() && 1 <= m.to <= st.len() && m.amount <= st[m.from - 1].len()
}

/// The stacks after the top crate of stack `f` goes onto stack `t`.
pub open spec fn lift_one(st: Seq<Seq<char>>, f: int, t: int) -> Seq<Seq<char>> {
    let c = st[f].last();
    let st1 = st.update(f, st[f].drop_last());
    st1.update(t, st1[t].push(c))
}

/// The stacks after `k` crates go from stack `f` to stack `t` one at a time.
pub open spec fn lift_each(st: Seq<Seq<char>>, f: int, t: int, k: int) -> Seq<Seq<char>>
    decreases k,
{
    if k <= 0 {
        st
    } else {
        lift_one(lift_each(st, f, t, k - 1), f, t)
    }
}

/// The stacks after the top `k` crates of stack `f` go onto stack `t` at once, in their order.
pub open spec fn lift_together(st: Seq<Seq<char>>, f: int, t: int, k: int) -> Seq<Seq<char>> {
    let n = st[f].len() as int;
    let st1 = st.update(f, st[f].subrange(0, n - k));
    st1.update(t, st1[t] + st[f].subrange(n - k, n))
}

/// The stacks after the moves in order, or nothing where one of them cannot be made.
pub open spec fn run_crane(st: Seq<Seq<char>>, moves: Seq<Movement>, together: bool) -> Option<Seq<Seq<char>>>
    decreases moves.len(),
{
    if moves.len() == 0 {
        Some(st)
    } else {
        match run_crane(st, moves.drop_last(), together) {
            None => None,
            Some(s) => {
                let m = moves.last();
                if !move_applies(s, m) {
                    None
                } else if together {
                    Some(lift_together(s, m.from - 1, m.to - 1, m.amount as int))
                } else {
                    Some(lift_each(s, m.from - 1, m.to - 1, m.amount as int))
                }
            },
        }
    }
}

/// The top crate of each stack, where none is empty.
pub open spec fn tops(st: Seq<Seq<char>>) -> Option<Seq<char>> {
    if forall|i: int| 0 <= i < st.len() ==> #[trigger] st[i].len() > 0 {
        Some(Seq::new(st.len(), |i: int| st[i].last()))
    } else {
        None
    }
}

pub open spec fn crane_tops(st: Seq<Seq<char>>, moves: Seq<Movement>, together: bool) -> Option<Seq<char>> {
    match run_crane(st, moves, together) {
        Some(s) => tops(s),
        None => None,
    }
}

/// Relies on `String::push`: the character goes at the end.
#[verifier::external_body]
fn push_char(s: &mut String, c: char)
    ensures
        final(s)@ == old(s)@.push(c),
{
    s.push(c)
}

fn take_stack(state: &mut Vec<Vec<char>>, i: usize) -> (r: Vec<char>)
    requires
        i < old(state)@.len(),
    ensures
        r@ == stacks_of(old(state)@)[i as int],
        stacks_of(final(state)@) == stacks_of(old(state)@).update(i as int, Seq::empty()),
        final(state)@.len() == old(state)@.len(),
{
    let mut r: Vec<char> = Vec::new();
    state.set_and_swap(i, &mut r);
    proof {
        assert(stacks_of(final(state)@) =~= stacks_of(old(state)@).update(i as int, Seq::empty()));
    }
    r
}

fn put_stack(state: &mut Vec<Vec<char>>, i: usize, s: Vec<char>)
    requires
        i < old(state)@.len(),
    ensures
        stacks_of(final(state)@) == stacks_of(old(state)@).update(i as int, s@),
        final(state)@.len() == old(state)@.len(),
{
    state.set(i, s);
    proof {
        assert(stacks_of(final(state)@) =~= stacks_of(old(state)@).update(i as int, s@));
    }
}

fn top_crates(state: &Vec<Vec<char>>) -> (r: Option<String>)
    ensures
        match tops(stacks_of(state@)) {
            Some(t) => r is Some && r.unwrap()@ == t,
            None => r is None,
        },
{
    let ghost st = stacks_of(state@);
    let mut out = String::new();
    let mut i: usize = 0;
    while i < state.len()
        invariant
            st == stacks_of(state@),
            i <= st.len(),
            forall|j: int| 0 <= j < i ==> #[trigger] st[j].len() > 0,
            out@ == Seq::new(i as nat, |j: int| st[j].last()),
        decreases state.len() - i,
    {
        let stack = &state[i];
        assert(st[i as int] == stack@);
        if stack.len() == 0 {
            return None;
        }
        push_char(&mut out, stack[stack.len() - 1]);
        assert(out@ =~= Seq::new((i + 1) as nat, |j: int| st[j].last()));
        i = i + 1;
    }
    assert(out@ =~= Seq::new(st.len(), |j: int| st[j].last()));
    Some(out)
}

fn check_move(state: &Vec<Vec<char>>, m: Movement) -> (r: bool)
    ensures
        r == move_applies(stacks_of(state@), m),
{
    let n = state.len();
    if m.from < 1 || m.from > n || m.to < 1 || m.to > n {
        return false;
    }
    m.amount <= state[m.from - 1].len()
}

/// The top crates after a crane that carries one crate at a time makes the
/// moves; nothing where a move cannot be made or a stack ends empty.
pub fn puzzle1(state: Vec<Vec<char>>, movements: &[Movement]) -> (r: Option<String>)
    ensures
        match crane_tops(stacks_of(state@), movements@, false) {
            Some(t) => r is Some && r.unwrap()@ == t,
            None => r is None,
        },
{
    let ghost st0 = stacks_of(state@);
    let mut stacks = state;
    let mut i: usize = 0;
    while i < movements.len()
        invariant
            i <= movements@.len(),
            st0 == stacks_of(state@),
            run_crane(st0, movements@.subrange(0, i as int), false) == Some(stacks_of(stacks@)),
        decreases movements.len() - i,
    {
        let m = movements[i];
        assert(movements@.subrange(0, i + 1).drop_last() =~= movements@.subrange(0, i as int));
        if !check_move(&stacks, m) {
            proof {
                assert(run_crane(st0, movements@.subrange(0, i + 1), false) is None);
                lemma_crane_stops(st0, movements@, false, i as int + 1);
            }
            return None;
        }
        let f = m.from - 1;
        let t = m.to - 1;
        let ghost s0 = stacks_of(stacks@);
        let ghost n0 = s0[f as int].len();
        let mut k: usize = 0;
        while k < m.amount
            invariant
                k <= m.amount <= n0,
                f < stacks@.len(),
                t < stacks@.len(),
                s0.len() == stacks@.len(),
                stacks_of(stacks@) == lift_each(s0, f as int, t as int, k as int),
                stacks_of(stacks@)[f as int].len() == if f == t { n0 } else { (n0 - k) as nat },
            decreases m.amount - k,
        {
            let ghost before = stacks_of(stacks@);
            let mut src = take_stack(&mut stacks, f);
            let c = match src.pop() {
                Some(c) => c,
                None => return None,
            };
            put_stack(&mut stacks, f, src);
            let mut dst = take_stack(&mut stacks, t);
            dst.push(c);
            put_stack(&mut stacks, t, dst);
            proof {
                assert(stacks_of(stacks@) =~= lift_one(before, f as int, t as int));
            }
            k = k + 1;
        }
        i = i + 1;
    }
    assert(movements@.subrange(0, movements@.len() as int) =~= movements@);
    top_crates(&stacks)
}

/// The top crates after a crane that carries several crates at once, keeping
/// their order, makes the moves; nothing where a move cannot be made or a stack
/// ends empty.
pub fn puzzle2(state: Vec<Vec<char>>, movements: &[Movement]) -> (r: Option<String>)
    ensures
        match crane_tops(stacks_of(state@), movements@, true) {
            Some(t) => r is Some && r.unwrap()@ == t,
            None => r is None,
        },
{
    let ghost st0 = stacks_of(state@);
    let mut stacks = state;
    let mut i: usize = 0;
    while i < movements.len()
        invariant
            i <= movements@.len(),
            st0 == stacks_of(state@),
            run_crane(st0, movements@.subrange(0, i as int), true) == Some(stacks_of(stacks@)),
        decreases movements.len() - i,
    {
        let m = movements[i];
        assert(movements@.subrange(0, i + 1).drop_last() =~= movements@.subrange(0, i as int));
        if !check_move(&stacks, m) {
            proof {
                assert(run_crane(st0, movements@.subrange(0, i + 1), true) is None);
                lemma_crane_stops(st0, movements@, true, i as int + 1);
            }
            return None;
        }
        let f = m.from - 1;
        let t = m.to - 1;
        let ghost before = stacks_of(stacks@);
        let mut src = take_stack(&mut stacks, f);
        let new_length = src.len() - m.amount;
        let mut crates_to_move = src.split_off(new_length);
        put_stack(&mut stacks, f, src);
        let mut dst = take_stack(&mut stacks, t);
        dst.append(&mut crates_to_move);
        put_stack(&mut stacks, t, dst);
        proof {
            assert(stacks_of(stacks@) =~= lift_together(before, f as int, t as int, m.amount as int));
        }
        i = i + 1;
    }
    assert(movements@.subrange(0, movements@.len() as int) =~= movements@);
    top_crates(&stacks)
}

proof fn lemma_crane_stops(st: Seq<Seq<char>>, moves: Seq<Movement>, together: bool, k: int)
    requires
        0 <= k <= moves.len(),
        run_crane(st, moves.subrange(0, k), together) is None,
    ensures
        run_crane(st, moves, together) is None,
    decreases moves.len() - k,
{
    if k < moves.len() {
        assert(moves.subrange(0, k + 1).drop_last() =~= moves.subrange(0, k));
        lemma_crane_stops(st, moves, together, k + 1);
    } else {
        assert(moves.subrange(0, k) =~= moves);
    }
}

/// Reads the whole puzzle: the drawing, an empty line, then the moves. Nothing
/// where there is no empty line or a move line states no move.
pub fn parse_input(input: &str) -> (r: Option<(Vec<Vec<char>>, Vec<Movement>)>)
    ensures
        match position_of(input@, "\n\n"@, 0) {
            Some(k) => match parse_move_lines(pieces(input@.subrange(k + 2, input@.len() as int), '\n', 0)) {
                Some(ms) => r is Some && stacks_of(r.unwrap().0@) == drawing_stacks(input@.subrange(0, k))
                    && r.unwrap().1@ == ms,
                None => r is None,
            },
            None => r is None,
        },
{
    proof {
        reveal_strlit("\n\n");
    }
    assert("\n\n"@.len() == 2);
    let n = input.unicode_len();
    match find_text(input, 0, "\n\n") {
        Some(k) => {
            let state = parse_state(input.substring_char(0, k));
            match parse_moves(input.substring_char(k + 2, n)) {
                Some(moves) => Some((state, moves)),
                None => None,
            }
        },
        None => None,
    }
}

} // verus!

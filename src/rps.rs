//! Rock, paper, scissors: scoring a strategy guide of rounds.
use vstd::prelude::*;
use vstd::string::*;
use crate::text::{split_words, texts, words};

verus! {

#[derive(Clone, Copy, Debug, PartialEq, Eq, Structural)]
pub enum Move {
    Rock,
    Paper,
    Scissors,
}

/// The shape a code stands for: `A` or `X` rock, `B` or `Y` paper, anything else scissors.
pub open spec fn move_of(c: char) -> Move {
    if c == 'A' || c == 'X' {
        Move::Rock
    } else if c == 'B' || c == 'Y' {
        Move::Paper
    } else {
        Move::Scissors
    }
}

/// The shape that beats `m`.
pub open spec fn beater(m: Move) -> Move {
    match m {
        Move::Rock => Move::Paper,
        Move::Paper => Move::Scissors,
        Move::Scissors => Move::Rock,
    }
}

/// The shape that `m` beats.
pub open spec fn loser(m: Move) -> Move {
    match m {
        Move::Rock => Move::Scissors,
        Move::Paper => Move::Rock,
        Move::Scissors => Move::Paper,
    }
}

/// What the second player scores for the outcome: 3 for a draw, 6 for a win, 0 for a loss.
pub open spec fn outcome_score(first: Move, second: Move) -> nat {
    if first == second {
        3
    } else if second == beater(first) {
        6
    } else {
        0
    }
}

/// What a shape scores by itself: 1 for rock, 2 for paper, 3 for scissors.
pub open spec fn shape_score(m: Move) -> nat {
    match m {
        Move::Rock => 1,
        Move::Paper => 2,
        Move::Scissors => 3,
    }
}

pub open spec fn round_score(op: Move, response: Move) -> nat {
    outcome_score(op, response) + shape_score(response)
}

/// The response that the second code asks for: `X` lose, `Y` draw, anything else win.
pub open spec fn response_for(op: Move, code: char) -> Move {
    if code == 'X' {
        loser(op)
    } else if code == 'Y' {
        op
    } else {
        beater(op)
    }
}

/// The scores of the first `n` rounds added up, the second code read as a shape.
pub open spec fn shapes_total(rounds: Seq<(char, char)>, n: int) -> nat
    decreases n,
{
    if n <= 0 {
        0
    } else {
        shapes_total(rounds, n - 1) + round_score(move_of(rounds[n - 1].0), move_of(rounds[n - 1].1))
    }
}

/// The scores of the first `n` rounds added up, the second code read as an outcome.
pub open spec fn outcomes_total(rounds: Seq<(char, char)>, n: int) -> nat
    decreases n,
{
    if n <= 0 {
        0
    } else {
        let op = move_of(rounds[n - 1].0);
        outcomes_total(rounds, n - 1) + round_score(op, response_for(op, rounds[n - 1].1))
    }
}

impl Move {
    pub fn from_code(letter_code: char) -> (r: Self)
        ensures
            r == move_of(letter_code),
    {
        if letter_code == 'A' || letter_code == 'X' {
            Self::Rock
        } else if letter_code == 'B' || letter_code == 'Y' {
            Self::Paper
        } else {
            Self::Scissors
        }
    }

    /// What `move2` scores for the outcome against `self`.
    pub fn play(&self, move2: &Self) -> (r: u32)
        ensures
            r == outcome_score(*self, *move2),
    {
        match (*self, *move2) {
            (Self::Rock, Self::Rock) | (Self::Paper, Self::Paper) | (Self::Scissors, Self::Scissors) => 3,
            (Self::Rock, Self::Paper) => 6,
            (Self::Paper, Self::Scissors) => 6,
            (Self::Scissors, Self::Rock) => 6,
            _ => 0,
        }
    }

    pub fn points(&self) -> (r: u32)
        ensures
            r == shape_score(*self),
    {
        match self {
            Self::Rock => 1,
            Self::Paper => 2,
            Self::Scissors => 3,
        }
    }

    pub fn winning_response(&self) -> (r: Self)
        ensures
            r == beater(*self),
    {
        match self {
            Self::Rock => Self::Paper,
            Self::Paper => Self::Scissors,
            Self::Scissors => Self::Rock,
        }
    }

    pub fn losing_response(&self) -> (r: Self)
        ensures
            r == loser(*self),
    {
        match self {
            Self::Rock => Self::Scissors,
            Self::Paper => Self::Rock,
            Self::Scissors => Self::Paper,
        }
    }
}

/// The two codes of a line: the first character of each of its first two words.
pub open spec fn round_codes(l: Seq<char>) -> Option<(char, char)> {
    let w = words(l);
    if w.len() >= 2 && w[0].len() > 0 && w[1].len() > 0 {
        Some((w[0][0], w[1][0]))
    } else {
        None
    }
}

/// The two codes of a line `<op> <response>`.
pub fn parse_round(line: &str) -> (r: Option<(char, char)>)
    ensures
        r == round_codes(line@),
{
    let ws = split_words(line);
    let ghost w = texts(ws@);
    if ws.len() < 2 {
        return None;
    }
    assert(w[0] == ws@[0]@ && w[1] == ws@[1]@);
    Some((ws[0].as_str().get_char(0), ws[1].as_str().get_char(0)))
}

/// The total score when the second code names the shape to play.
pub fn puzzle1(input: &Vec<(char, char)>) -> (r: u32)
    requires
        input@.len() * 9 <= u32::MAX,
    ensures
        r == shapes_total(input@, input@.len() as int),
{
    let mut total_points: u32 = 0;
    let mut i: usize = 0;
    while i < input.len()
        invariant
            i <= input@.len(),
            input@.len() * 9 <= u32::MAX,
            total_points == shapes_total(input@, i as int),
            total_points <= i * 9,
        decreases input.len() - i,
    {
        let (op_move_code, response_code) = input[i];
        let response = Move::from_code(response_code);
        let round_points = Move::from_code(op_move_code).play(&response) + response.points();
        assert((i + 1) * 9 <= input@.len() * 9) by (nonlinear_arith)
            requires i + 1 <= input@.len();
        total_points = total_points + round_points;
        i = i + 1;
    }
    total_points
}

/// The total score when the second code names the outcome to reach.
pub fn puzzle2(input: &Vec<(char, char)>) -> (r: u32)
    requires
        input@.len() * 9 <= u32::MAX,
    ensures
        r == outcomes_total(input@, input@.len() as int),
{
    let mut total_points: u32 = 0;
    let mut i: usize = 0;
    while i < input.len()
        invariant
            i <= input@.len(),
            input@.len() * 9 <= u32::MAX,
            total_points == outcomes_total(input@, i as int),
            total_points <= i * 9,
        decreases input.len() - i,
    {
        let (op_move_code, result_code) = input[i];
        let op_move = Move::from_code(op_move_code);
        let response = if result_code == 'X' {
            op_move.losing_response()
        } else if result_code == 'Y' {
            op_move
        } else {
            op_move.winning_response()
        };
        let round_points = op_move.play(&response) + response.points();
        assert((i + 1) * 9 <= input@.len() * 9) by (nonlinear_arith)
            requires i + 1 <= input@.len();
        total_points = total_points + round_points;
        i = i + 1;
    }
    total_points
}

} // verus!

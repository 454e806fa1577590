//! Scoring a strategy guide for rock, paper, scissors.
//!
//! Each line of the guide holds the opponent's move (`A`, `B` or `C` for
//! rock, paper, scissors) and a second letter (`X`, `Y` or `Z`), which is
//! read either as the outcome to reach (loss, tie, win) or, in the reading
//! that proved wrong, as the move to play (rock, paper, scissors).

use crate::text::{chars_of, lines, split_lines, split_words, string_of, views, word_is, words};
use vstd::prelude::*;
use vstd::string::StringExecFns;

verus! {

#[derive(Debug, Clone, Copy, PartialEq, Eq, Structural)]
pub enum Move {
    Rock,
    Paper,
    Scissors,
}

#[derive(Debug, Clone, Copy, PartialEq, Eq, Structural)]
pub enum Outcome {
    Loss,
    Tie,
    Win,
}

/// One round: what the opponent plays and what I play.
#[derive(Debug, Clone, Copy, PartialEq, Eq, Structural)]
pub struct Round {
    pub opponent: Move,
    pub me: Move,
}

/// The rounds of a guide, in order.
#[derive(Debug)]
pub struct Strategy {
    pub actions: Vec<Round>,
}

/// Why a line of the guide was refused. Where a letter is not one of the
/// three, the error holds the word that stands in its place.
#[derive(Debug, PartialEq, Eq)]
pub enum StrategyError {
    NoOpponentMove,
    InvalidOpponentInput(String),
    NoSelfMove,
    InvalidSelfInput(String),
}

/// The mathematical value of a [`StrategyError`].
pub enum StrategyErrorView {
    NoOpponentMove,
    InvalidOpponentInput(Seq<char>),
    NoSelfMove,
    InvalidSelfInput(Seq<char>),
}

impl View for StrategyError {
    type V = StrategyErrorView;

    open spec fn view(&self) -> StrategyErrorView {
        match self {
            StrategyError::NoOpponentMove => StrategyErrorView::NoOpponentMove,
            StrategyError::InvalidOpponentInput(s) => StrategyErrorView::InvalidOpponentInput(s@),
            StrategyError::NoSelfMove => StrategyErrorView::NoSelfMove,
            StrategyError::InvalidSelfInput(s) => StrategyErrorView::InvalidSelfInput(s@),
        }
    }
}

/// What the error says.
pub open spec fn message_of(e: StrategyErrorView) -> Seq<char> {
    match e {
        StrategyErrorView::NoOpponentMove => "No opponent move"@,
        StrategyErrorView::InvalidOpponentInput(input) => "Invalid opponent input: "@ + input,
        StrategyErrorView::NoSelfMove => "No self move"@,
        StrategyErrorView::InvalidSelfInput(input) => "Invalid self input: "@ + input,
    }
}

impl StrategyError {
    /// What the error says.
    pub fn message(&self) -> (text: String)
        ensures
            text@ == message_of(self@),
    {
        match self {
            StrategyError::NoOpponentMove => "No opponent move".to_owned(),
            StrategyError::InvalidOpponentInput(input) => {
                let mut text = "Invalid opponent input: ".to_owned();
                text.append(input.as_str());
                text
            },
            StrategyError::NoSelfMove => "No self move".to_owned(),
            StrategyError::InvalidSelfInput(input) => {
                let mut text = "Invalid self input: ".to_owned();
                text.append(input.as_str());
                text
            },
        }
    }
}

/// How the second letter of a line is read.
#[derive(Debug, Clone, Copy, PartialEq, Eq, Structural)]
pub enum Reading {
    /// As the outcome to reach.
    AsOutcome,
    /// As the move to play.
    AsMove,
}

/// The points that playing `m` is worth.
pub open spec fn point_value_of(m: Move) -> nat {
    match m {
        Move::Rock => 1,
        Move::Paper => 2,
        Move::Scissors => 3,
    }
}

/// The move that loses against `m`.
pub open spec fn loses_to(m: Move) -> Move {
    match m {
        Move::Rock => Move::Scissors,
        Move::Paper => Move::Rock,
        Move::Scissors => Move::Paper,
    }
}

/// The move that wins against `m`.
pub open spec fn wins_over(m: Move) -> Move {
    match m {
        Move::Rock => Move::Paper,
        Move::Paper => Move::Scissors,
        Move::Scissors => Move::Rock,
    }
}

/// How the round ends for me when the opponent plays `opponent` and I
/// play `mine`.
pub open spec fn outcome_of(opponent: Move, mine: Move) -> Outcome {
    if wins_over(opponent) == mine {
        Outcome::Win
    } else if loses_to(opponent) == mine {
        Outcome::Loss
    } else {
        Outcome::Tie
    }
}

/// The move to play against `opponent` for the round to end in `outcome`.
pub open spec fn move_for(opponent: Move, outcome: Outcome) -> Move {
    match outcome {
        Outcome::Loss => loses_to(opponent),
        Outcome::Tie => opponent,
        Outcome::Win => wins_over(opponent),
    }
}

/// The points that an outcome is worth.
pub open spec fn score_of(o: Outcome) -> nat {
    match o {
        Outcome::Loss => 0,
        Outcome::Tie => 3,
        Outcome::Win => 6,
    }
}

/// My points for a round: those of my move and those of the outcome.
pub open spec fn round_score(r: Round) -> nat {
    point_value_of(r.me) + score_of(outcome_of(r.opponent, r.me))
}

/// My points for the first `n` of the rounds.
pub open spec fn total_score(rounds: Seq<Round>, n: int) -> nat
    decreases n,
{
    if n <= 0 {
        0
    } else {
        total_score(rounds, n - 1) + round_score(rounds[n - 1])
    }
}

/// The rounds together are worth at most 9 points each.
pub proof fn lemma_total_score_bound(rounds: Seq<Round>, n: int)
    requires
        0 <= n,
    ensures
        total_score(rounds, n) <= 9 * n,
    decreases n,
{
    if n > 0 {
        lemma_total_score_bound(rounds, n - 1);
    }
}

impl Move {
    /// The points that playing this move is worth.
    pub fn point_value(&self) -> (points: usize)
        ensures
            points == point_value_of(*self),
    {
        match self {
            Move::Rock => 1,
            Move::Paper => 2,
            Move::Scissors => 3,
        }
    }

    /// The move that loses against this one.
    pub fn losing_response(self) -> (m: Move)
        ensures
            m == loses_to(self),
    {
        match self {
            Move::Rock => Move::Scissors,
            Move::Paper => Move::Rock,
            Move::Scissors => Move::Paper,
        }
    }

    /// The move that wins against this one.
    pub fn winning_response(self) -> (m: Move)
        ensures
            m == wins_over(self),
    {
        match self {
            Move::Rock => Move::Paper,
            Move::Paper => Move::Scissors,
            Move::Scissors => Move::Rock,
        }
    }

    /// How the round ends for me when this is the opponent's move and I
    /// play `my_move`.
    pub fn vs_my_move(self, my_move: Move) -> (o: Outcome)
        ensures
            o == outcome_of(self, my_move),
    {
        if self.winning_response() == my_move {
            Outcome::Win
        } else if self.losing_response() == my_move {
            Outcome::Loss
        } else {
            Outcome::Tie
        }
    }

    /// The move to play against this one for the round to end in `outcome`.
    pub fn move_needed_for(self, outcome: Outcome) -> (m: Move)
        ensures
            m == move_for(self, outcome),
            outcome_of(self, m) == outcome,
    {
        match outcome {
            Outcome::Loss => self.losing_response(),
            Outcome::Tie => self,
            Outcome::Win => self.winning_response(),
        }
    }
}

impl Outcome {
    /// The points that the outcome is worth.
    pub fn score(self) -> (points: usize)
        ensures
            points == score_of(self),
    {
        match self {
            Outcome::Loss => 0,
            Outcome::Tie => 3,
            Outcome::Win => 6,
        }
    }
}

impl Round {
    /// My points for the round.
    pub fn my_score(&self) -> (points: usize)
        ensures
            points == round_score(*self),
    {
        self.me.point_value() + self.opponent.vs_my_move(self.me).score()
    }
}

/// The opponent's move that the word `w` stands for.
pub open spec fn opponent_move(w: Seq<char>) -> Option<Move> {
    if w == "A"@ {
        Some(Move::Rock)
    } else if w == "B"@ {
        Some(Move::Paper)
    } else if w == "C"@ {
        Some(Move::Scissors)
    } else {
        None
    }
}

/// My move that the word `w` stands for against `opponent`.
pub open spec fn my_move(w: Seq<char>, opponent: Move, reading: Reading) -> Option<Move> {
    let (x, y, z) = match reading {
        Reading::AsOutcome => (
            move_for(opponent, Outcome::Loss),
            move_for(opponent, Outcome::Tie),
            move_for(opponent, Outcome::Win),
        ),
        Reading::AsMove => (Move::Rock, Move::Paper, Move::Scissors),
    };
    if w == "X"@ {
        Some(x)
    } else if w == "Y"@ {
        Some(y)
    } else if w == "Z"@ {
        Some(z)
    } else {
        None
    }
}

/// The round that a line made of the words `w` stands for. Words after the
/// second are not looked at.
pub open spec fn round_of(w: Seq<Seq<char>>, reading: Reading) -> Result<Round, StrategyErrorView> {
    if w.len() == 0 {
        Err(StrategyErrorView::NoOpponentMove)
    } else {
        match opponent_move(w[0]) {
            None => Err(StrategyErrorView::InvalidOpponentInput(w[0])),
            Some(opponent) => if w.len() == 1 {
                Err(StrategyErrorView::NoSelfMove)
            } else {
                match my_move(w[1], opponent, reading) {
                    None => Err(StrategyErrorView::InvalidSelfInput(w[1])),
                    Some(me) => Ok(Round { opponent: opponent, me: me }),
                }
            },
        }
    }
}

/// The rounds of the first `n` of the lines `ls`, or the error of the first
/// line among them that is refused.
pub open spec fn rounds_of(ls: Seq<Seq<char>>, reading: Reading, n: int) -> Result<
    Seq<Round>,
    StrategyErrorView,
>
    decreases n,
{
    if n <= 0 {
        Ok(Seq::empty())
    } else {
        match rounds_of(ls, reading, n - 1) {
            Err(e) => Err(e),
            Ok(rounds) => match round_of(words(ls[n - 1]), reading) {
                Err(e) => Err(e),
                Ok(r) => Ok(rounds.push(r)),
            },
        }
    }
}

/// What reading the guide `text` gives.
pub open spec fn strategy_of(text: Seq<char>, reading: Reading) -> Result<
    Seq<Round>,
    StrategyErrorView,
> {
    rounds_of(lines(text), reading, lines(text).len() as int)
}

/// Once a line is refused, the error stays.
pub proof fn lemma_rounds_error_stays(ls: Seq<Seq<char>>, reading: Reading, k: int, n: int)
    requires
        k <= n,
        rounds_of(ls, reading, k) is Err,
    ensures
        rounds_of(ls, reading, n) == rounds_of(ls, reading, k),
    decreases n - k,
{
    if k < n {
        lemma_rounds_error_stays(ls, reading, k, n - 1);
    }
}

/// Reads one line of the guide.
pub fn parse_round(line: &[char], reading: Reading) -> (r: Result<Round, StrategyError>)
    ensures
        match round_of(words(line@), reading) {
            Ok(round) => r == Ok::<Round, StrategyError>(round),
            Err(e) => r is Err && r->Err_0@ == e,
        },
{
    let w = split_words(line);
    assert(forall|i: int| 0 <= i < w@.len() ==> (#[trigger] w@[i])@ == words(line@)[i]);
    if w.len() == 0 {
        return Err(StrategyError::NoOpponentMove);
    }
    let first = w[0].as_slice();
    let opponent = if word_is(first, "A") {
        Move::Rock
    } else if word_is(first, "B") {
        Move::Paper
    } else if word_is(first, "C") {
        Move::Scissors
    } else {
        return Err(StrategyError::InvalidOpponentInput(string_of(first)));
    };
    if w.len() == 1 {
        return Err(StrategyError::NoSelfMove);
    }
    let second = w[1].as_slice();
    let me = match reading {
        Reading::AsOutcome => {
            if word_is(second, "X") {
                opponent.move_needed_for(Outcome::Loss)
            } else if word_is(second, "Y") {
                opponent.move_needed_for(Outcome::Tie)
            } else if word_is(second, "Z") {
                opponent.move_needed_for(Outcome::Win)
            } else {
                return Err(StrategyError::InvalidSelfInput(string_of(second)));
            }
        },
        Reading::AsMove => {
            if word_is(second, "X") {
                Move::Rock
            } else if word_is(second, "Y") {
                Move::Paper
            } else if word_is(second, "Z") {
                Move::Scissors
            } else {
                return Err(StrategyError::InvalidSelfInput(string_of(second)));
            }
        },
    };
    Ok(Round { opponent, me })
}

/// Reads the guide `text`, its second letters read as `reading` says.
pub fn parse_strategy(text: &str, reading: Reading) -> (r: Result<Strategy, StrategyError>)
    ensures
        match strategy_of(text@, reading) {
            Ok(rounds) => r is Ok && r->Ok_0.actions@ == rounds,
            Err(e) => r is Err && r->Err_0@ == e,
        },
{
    let chars = chars_of(text);
    let ls = split_lines(chars.as_slice());
    let ghost all = lines(text@);
    let mut actions: Vec<Round> = Vec::new();
    let mut k: usize = 0;
    while k < ls.len()
        invariant
            k <= ls@.len(),
            views(ls@) == all,
            all == lines(text@),
            rounds_of(all, reading, k as int) == Ok::<Seq<Round>, StrategyErrorView>(actions@),
        decreases ls@.len() - k,
    {
        assert(ls@[k as int]@ == all[k as int]);
        match parse_round(ls[k].as_slice(), reading) {
            Ok(round) => {
                actions.push(round);
            },
            Err(e) => {
                proof {
                    lemma_rounds_error_stays(all, reading, k + 1, all.len() as int);
                }
                return Err(e);
            },
        }
        k += 1;
    }
    Ok(Strategy { actions })
}

impl Strategy {
    /// My points for all rounds together.
    pub fn run_and_score(&self) -> (points: usize)
        requires
            total_score(self.actions@, self.actions@.len() as int) <= usize::MAX,
        ensures
            points == total_score(self.actions@, self.actions@.len() as int),
    {
        let mut points: usize = 0;
        let mut i: usize = 0;
        while i < self.actions.len()
            invariant
                i <= self.actions@.len(),
                points == total_score(self.actions@, i as int),
                total_score(self.actions@, self.actions@.len() as int) <= usize::MAX,
            decreases self.actions@.len() - i,
        {
            proof {
                lemma_total_score_monotone(self.actions@, i + 1, self.actions@.len() as int);
            }
            points = points + self.actions[i].my_score();
            i += 1;
        }
        points
    }

    /// Reads the guide `text`, the second letter of each line being the
    /// outcome to reach.
    pub fn parse(text: &str) -> (r: Result<Strategy, StrategyError>)
        ensures
            match strategy_of(text@, Reading::AsOutcome) {
                Ok(rounds) => r is Ok && r->Ok_0.actions@ == rounds,
                Err(e) => r is Err && r->Err_0@ == e,
            },
    {
        parse_strategy(text, Reading::AsOutcome)
    }

    /// Reads the guide `text`, the second letter of each line being the
    /// move to play.
    pub fn parse_incorrect(text: &str) -> (r: Result<Strategy, StrategyError>)
        ensures
            match strategy_of(text@, Reading::AsMove) {
                Ok(rounds) => r is Ok && r->Ok_0.actions@ == rounds,
                Err(e) => r is Err && r->Err_0@ == e,
            },
    {
        parse_strategy(text, Reading::AsMove)
    }
}

/// The points of more rounds are not fewer.
pub proof fn lemma_total_score_monotone(rounds: Seq<Round>, m: int, n: int)
    requires
        m <= n,
    ensures
        total_score(rounds, m) <= total_score(rounds, n),
    decreases n - m,
{
    if m < n {
        lemma_total_score_monotone(rounds, m, n - 1);
    }
}

} // verus!

use puzzles::rps::{parse_round, parse_strategy, Move, Outcome, Reading, Round, Strategy, StrategyError};

const GUIDE: &str = "A Y\nB X\nC Z\n";

fn chars(s: &str) -> Vec<char> {
    s.chars().collect()
}

#[test]
fn point_values() {
    assert_eq!(Move::Rock.point_value(), 1);
    assert_eq!(Move::Paper.point_value(), 2);
    assert_eq!(Move::Scissors.point_value(), 3);
}

#[test]
fn responses() {
    assert_eq!(Move::Rock.losing_response(), Move::Scissors);
    assert_eq!(Move::Paper.losing_response(), Move::Rock);
    assert_eq!(Move::Scissors.losing_response(), Move::Paper);
    assert_eq!(Move::Rock.winning_response(), Move::Paper);
    assert_eq!(Move::Paper.winning_response(), Move::Scissors);
    assert_eq!(Move::Scissors.winning_response(), Move::Rock);
}

#[test]
fn outcomes_of_all_nine_rounds() {
    assert_eq!(Move::Rock.vs_my_move(Move::Rock), Outcome::Tie);
    assert_eq!(Move::Rock.vs_my_move(Move::Paper), Outcome::Win);
    assert_eq!(Move::Rock.vs_my_move(Move::Scissors), Outcome::Loss);
    assert_eq!(Move::Paper.vs_my_move(Move::Rock), Outcome::Loss);
    assert_eq!(Move::Paper.vs_my_move(Move::Paper), Outcome::Tie);
    assert_eq!(Move::Paper.vs_my_move(Move::Scissors), Outcome::Win);
    assert_eq!(Move::Scissors.vs_my_move(Move::Rock), Outcome::Win);
    assert_eq!(Move::Scissors.vs_my_move(Move::Paper), Outcome::Loss);
    assert_eq!(Move::Scissors.vs_my_move(Move::Scissors), Outcome::Tie);
}

#[test]
fn move_needed_reaches_the_outcome() {
    for opponent in [Move::Rock, Move::Paper, Move::Scissors] {
        for outcome in [Outcome::Loss, Outcome::Tie, Outcome::Win] {
            let mine = opponent.move_needed_for(outcome);
            assert_eq!(opponent.vs_my_move(mine), outcome);
        }
    }
    assert_eq!(Move::Rock.move_needed_for(Outcome::Loss), Move::Scissors);
    assert_eq!(Move::Rock.move_needed_for(Outcome::Tie), Move::Rock);
    assert_eq!(Move::Rock.move_needed_for(Outcome::Win), Move::Paper);
}

#[test]
fn outcome_scores() {
    assert_eq!(Outcome::Loss.score(), 0);
    assert_eq!(Outcome::Tie.score(), 3);
    assert_eq!(Outcome::Win.score(), 6);
}

#[test]
fn round_scores() {
    assert_eq!(Round { opponent: Move::Rock, me: Move::Paper }.my_score(), 8);
    assert_eq!(Round { opponent: Move::Paper, me: Move::Rock }.my_score(), 1);
    assert_eq!(Round { opponent: Move::Scissors, me: Move::Scissors }.my_score(), 6);
    assert_eq!(Round { opponent: Move::Scissors, me: Move::Rock }.my_score(), 7);
    assert_eq!(Round { opponent: Move::Paper, me: Move::Scissors }.my_score(), 9);
}

#[test]
fn guide_read_as_moves() {
    let s = Strategy::parse_incorrect(GUIDE).unwrap();
    assert_eq!(
        s.actions,
        vec![
            Round { opponent: Move::Rock, me: Move::Paper },
            Round { opponent: Move::Paper, me: Move::Rock },
            Round { opponent: Move::Scissors, me: Move::Scissors },
        ]
    );
    assert_eq!(s.run_and_score(), 15);
}

#[test]
fn guide_read_as_outcomes() {
    let s = Strategy::parse(GUIDE).unwrap();
    assert_eq!(
        s.actions,
        vec![
            Round { opponent: Move::Rock, me: Move::Rock },
            Round { opponent: Move::Paper, me: Move::Rock },
            Round { opponent: Move::Scissors, me: Move::Rock },
        ]
    );
    assert_eq!(s.run_and_score(), 12);
}

#[test]
fn empty_guide_scores_nothing() {
    let s = Strategy::parse("").unwrap();
    assert!(s.actions.is_empty());
    assert_eq!(s.run_and_score(), 0);
}

#[test]
fn words_after_the_second_are_not_looked_at() {
    let s = Strategy::parse("  B   Z  and more\r\n").unwrap();
    assert_eq!(s.actions, vec![Round { opponent: Move::Paper, me: Move::Scissors }]);
}

#[test]
fn each_error_of_the_guide() {
    assert_eq!(Strategy::parse("A X\n\nB Y\n").err(), Some(StrategyError::NoOpponentMove));
    assert_eq!(
        Strategy::parse("A X\nD Y\n").err(),
        Some(StrategyError::InvalidOpponentInput("D".to_string()))
    );
    assert_eq!(Strategy::parse("A\n").err(), Some(StrategyError::NoSelfMove));
    assert_eq!(
        Strategy::parse("A XY\n").err(),
        Some(StrategyError::InvalidSelfInput("XY".to_string()))
    );
    assert_eq!(
        Strategy::parse_incorrect("A x\n").err(),
        Some(StrategyError::InvalidSelfInput("x".to_string()))
    );
    assert_eq!(
        Strategy::parse_incorrect("AA X\nQ Q\n").err(),
        Some(StrategyError::InvalidOpponentInput("AA".to_string()))
    );
}

#[test]
fn the_first_error_is_reported() {
    assert_eq!(
        parse_strategy("A X\nB\nZ Z\n", Reading::AsMove).err(),
        Some(StrategyError::NoSelfMove)
    );
}

#[test]
fn parse_round_in_both_readings() {
    assert_eq!(
        parse_round(&chars("C X"), Reading::AsMove),
        Ok(Round { opponent: Move::Scissors, me: Move::Rock })
    );
    assert_eq!(
        parse_round(&chars("C X"), Reading::AsOutcome),
        Ok(Round { opponent: Move::Scissors, me: Move::Paper })
    );
    assert_eq!(
        parse_round(&chars("C Y"), Reading::AsOutcome),
        Ok(Round { opponent: Move::Scissors, me: Move::Scissors })
    );
    assert_eq!(
        parse_round(&chars("C Z"), Reading::AsOutcome),
        Ok(Round { opponent: Move::Scissors, me: Move::Rock })
    );
}

#[test]
fn what_the_errors_say() {
    assert_eq!(StrategyError::NoOpponentMove.message(), "No opponent move");
    assert_eq!(StrategyError::NoSelfMove.message(), "No self move");
    assert_eq!(
        StrategyError::InvalidOpponentInput("D".to_string()).message(),
        "Invalid opponent input: D"
    );
    assert_eq!(
        StrategyError::InvalidSelfInput("W".to_string()).message(),
        "Invalid self input: W"
    );
}

#[test]
fn letters_may_be_parted_by_any_white_space() {
    let s = Strategy::parse_incorrect("A\u{a0}Y").unwrap();
    assert_eq!(s.actions, vec![Round { opponent: Move::Rock, me: Move::Paper }]);
    assert_eq!(s.run_and_score(), 8);
    let s = Strategy::parse("\u{3000}C\u{2003}\u{2003}X\u{85}\nB\u{1680}Z").unwrap();
    assert_eq!(
        s.actions,
        vec![
            Round { opponent: Move::Scissors, me: Move::Paper },
            Round { opponent: Move::Paper, me: Move::Scissors },
        ]
    );
    assert_eq!(
        Strategy::parse("A\u{200b}Y").err(),
        Some(StrategyError::InvalidOpponentInput("A\u{200b}Y".to_string()))
    );
}

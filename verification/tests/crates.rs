use puzzles::crates::{
    build_stacks, parse_move, read_row, row_fits, Crane, Crates, CratesError, CratesErrorKind, Move,
};

const INPUT: &str = "    [D]    
[N] [C]    
[Z] [M] [P]
 1   2   3 

move 1 from 2 to 1
move 3 from 1 to 3
move 2 from 2 to 1
move 1 from 1 to 2
";

fn chars(s: &str) -> Vec<char> {
    s.chars().collect()
}

fn stacks_of(c: &Crates) -> Vec<String> {
    c.stacks.iter().map(|s| s.iter().collect()).collect()
}

fn moves_of(c: &Crates) -> Vec<(usize, usize, usize)> {
    c.instructions.iter().map(|m| (m.crates, m.from, m.to)).collect()
}

#[test]
fn parse_reads_drawing_and_moves() {
    let c = Crates::parse(INPUT).unwrap();
    assert_eq!(stacks_of(&c), vec!["ZN", "MCD", "P", "", "", "", "", "", ""]);
    assert_eq!(moves_of(&c), vec![(1, 2, 1), (3, 1, 3), (2, 2, 1), (1, 1, 2)]);
}

#[test]
fn crane_that_moves_one_by_one() {
    let c = Crates::parse(INPUT).unwrap();
    let after = c.execute_moves(Crane::CrateMover9000);
    assert_eq!(stacks_of(&after), vec!["C", "M", "PDNZ", "", "", "", "", "", ""]);
    assert_eq!(after.topmost(), "CMZ");
    assert!(after.instructions.is_empty());
    assert_eq!(moves_of(&c).len(), 4);
    assert_eq!(c.topmost(), "NDP");
}

#[test]
fn crane_that_moves_all_at_once() {
    let c = Crates::parse(INPUT).unwrap();
    let after = c.execute_moves(Crane::CrateMover9001);
    assert_eq!(stacks_of(&after), vec!["M", "C", "PZND", "", "", "", "", "", ""]);
    assert_eq!(after.topmost(), "MCD");
    assert!(after.instructions.is_empty());
}

#[test]
fn moves_keep_the_number_of_crates() {
    let c = Crates::parse(INPUT).unwrap();
    for crane in [Crane::CrateMover9000, Crane::CrateMover9001] {
        let after = c.execute_moves(crane);
        let before: usize = c.stacks.iter().map(|s| s.len()).sum();
        let now: usize = after.stacks.iter().map(|s| s.len()).sum();
        assert_eq!(before, now);
    }
}

#[test]
fn move_within_one_stack() {
    let c = Crates::parse("[A]\n[B]\n[C]\n\nmove 2 from 1 to 1\n").unwrap();
    assert_eq!(stacks_of(&c)[0], "CBA");
    assert_eq!(stacks_of(&c.execute_moves(Crane::CrateMover9000))[0], "CAB");
    assert_eq!(stacks_of(&c.execute_moves(Crane::CrateMover9001))[0], "CBA");
}

#[test]
fn moves_that_cannot_be_made() {
    let too_many = Crates::parse("[A]\n\nmove 2 from 1 to 2\n").unwrap();
    assert!(too_many.try_execute_moves(Crane::CrateMover9000).is_none());
    let from_zero = Crates::parse("[A]\n\nmove 0 from 0 to 2\n").unwrap();
    assert!(from_zero.try_execute_moves(Crane::CrateMover9000).is_none());
    let to_ten = Crates::parse("[A]\n\nmove 1 from 1 to 10\n").unwrap();
    assert!(to_ten.try_execute_moves(Crane::CrateMover9001).is_none());
    let later = Crates::parse("[A]\n\nmove 1 from 1 to 9\nmove 1 from 1 to 9\n").unwrap();
    assert!(later.try_execute_moves(Crane::CrateMover9001).is_none());
    let fine = Crates::parse("[A]\n\nmove 1 from 1 to 9\nmove 0 from 1 to 9\n").unwrap();
    let after = fine.try_execute_moves(Crane::CrateMover9001).unwrap();
    assert_eq!(stacks_of(&after)[8], "A");
    assert_eq!(after.topmost(), "A");
}

#[test]
fn drawing_without_moves_and_empty_input() {
    let c = Crates::parse("[a] [b]").unwrap();
    assert_eq!(stacks_of(&c)[..2], ["a", "b"]);
    assert!(c.instructions.is_empty());
    let e = Crates::parse("").unwrap();
    assert_eq!(e.topmost(), "");
    assert_eq!(e.execute_moves(Crane::CrateMover9000).topmost(), "");
    let only_moves = Crates::parse("\nmove 0 from 1 to 2\n").unwrap();
    assert_eq!(moves_of(&only_moves), vec![(0, 1, 2)]);
}

#[test]
fn nine_stacks_are_the_most() {
    let nine = "[A] [B] [C] [D] [E] [F] [G] [H] [I]\n";
    let c = Crates::parse(nine).unwrap();
    assert_eq!(c.topmost(), "ABCDEFGHI");
    let ten = "[A] [B] [C] [D] [E] [F] [G] [H] [I] [J]\n";
    assert_eq!(
        Crates::parse(ten).unwrap_err(),
        CratesError { line: 1, kind: CratesErrorKind::TooManyStacks }
    );
    let digits = "[A] [B] [C] [D] [E] [F] [G] [H] [I] [1]\n";
    assert!(Crates::parse(digits).is_ok());
    let second = format!("{}{}", nine, ten);
    assert_eq!(
        Crates::parse(&second).unwrap_err(),
        CratesError { line: 2, kind: CratesErrorKind::TooManyStacks }
    );
}

#[test]
fn malformed_moves() {
    let err = |text: &str| Crates::parse(text).unwrap_err();
    assert_eq!(err("[A]\n\nmove 1 from 1\n"), CratesError { line: 3, kind: CratesErrorKind::MalformedMove });
    assert_eq!(err("[A]\n\nmove x from 1 to 2\n"), CratesError { line: 3, kind: CratesErrorKind::MalformedMove });
    assert_eq!(err("[A]\n\nmove 1 from 1 to 2\n\n"), CratesError { line: 4, kind: CratesErrorKind::MalformedMove });
    assert_eq!(err("\n\n"), CratesError { line: 2, kind: CratesErrorKind::MalformedMove });
    assert_eq!(
        err("[A]\n\nmove 1 from 1 to 99999999999999999999999999\n"),
        CratesError { line: 3, kind: CratesErrorKind::MalformedMove }
    );
}

#[test]
fn parse_move_takes_every_other_word() {
    let m = parse_move(&chars("shift 12 off 3 onto 4 now")).unwrap();
    assert_eq!((m.crates, m.from, m.to), (12, 3, 4));
    assert!(parse_move(&chars("1 2 3 4 5")).is_none());
    let copy: Move = m;
    assert_eq!(copy.crates, 12);
}

#[test]
fn crates_may_be_any_alphabetic_character() {
    let c = Crates::parse("[\u{e9}] [\u{3b2}]\n[a] [1] [\u{4e2d}]\n").unwrap();
    assert_eq!(stacks_of(&c)[..3], ["a\u{e9}", "\u{3b2}", "\u{4e2d}"]);
    assert_eq!(c.topmost(), "\u{e9}\u{3b2}\u{4e2d}");
}

#[test]
fn moves_may_have_plus_signs_and_any_white_space() {
    let c = Crates::parse("[A]\n\nmove\u{a0}+1\u{3000}from +1 to\u{2003}+2\n").unwrap();
    assert_eq!(moves_of(&c), vec![(1, 1, 2)]);
    assert_eq!(c.execute_moves(Crane::CrateMover9000).topmost(), "A");
}

#[test]
fn rows_of_a_drawing() {
    assert_eq!(read_row(&chars("[A]     [c] ")), vec![Some('A'), None, Some('c')]);
    assert_eq!(read_row(&chars(" 1   2 ")), vec![None, None]);
    assert_eq!(read_row(&chars("[")), Vec::<Option<char>>::new());
    assert_eq!(read_row(&chars("")), Vec::<Option<char>>::new());
    assert_eq!(read_row(&chars("[A")), vec![Some('A')]);
    assert_eq!(read_row(&chars("[A] [")), vec![Some('A')]);
    assert_eq!(read_row(&chars("[A] [B")), vec![Some('A'), Some('B')]);
    let nine = vec![None; 9];
    assert!(row_fits(&nine));
    let mut ten = nine.clone();
    ten.push(None);
    assert!(row_fits(&ten));
    ten.push(Some('x'));
    assert!(!row_fits(&ten));
    assert!(row_fits(&[Some('a')]));
}

#[test]
fn stacks_from_rows() {
    let rows = vec![vec![None, Some('D')], vec![Some('N'), Some('C')], vec![Some('Z'), Some('M'), Some('P')]];
    let stacks = build_stacks(&rows).unwrap();
    let texts: Vec<String> = stacks.iter().map(|s| s.iter().collect()).collect();
    assert_eq!(texts, vec!["ZN", "MCD", "P", "", "", "", "", "", ""]);
    let mut wide = vec![None; 9];
    wide.push(Some('q'));
    let rows = vec![vec![Some('a')], wide.clone(), wide];
    assert_eq!(build_stacks(&rows), Err(1));
    let none: Vec<Vec<Option<char>>> = Vec::new();
    assert!(build_stacks(&none).unwrap().iter().all(|s| s.is_empty()));
}

use puzzles::sections::{
    mask_between, parse_mask, parse_pair, Relation, Sections, SectionsError, SectionsErrorKind,
};

const LIST: &str = "2-4,6-8\n2-3,4-5\n5-7,7-9\n2-8,3-7\n6-6,4-6\n2-6,4-8\n";

fn chars(s: &str) -> Vec<char> {
    s.chars().collect()
}

fn error_of(text: &str) -> SectionsError {
    Sections::parse(text).unwrap_err()
}

#[test]
fn masks_of_ranges() {
    assert_eq!(mask_between(2, 3), 12);
    assert_eq!(mask_between(0, 0), 1);
    assert_eq!(mask_between(0, 7), 255);
    assert_eq!(mask_between(127, 127), 1u128 << 127);
    assert_eq!(mask_between(0, 127), u128::MAX);
    assert_eq!(mask_between(5, 7), 32 + 64 + 128);
}

#[test]
fn parse_gives_pairs_of_masks() {
    let s = Sections::parse("2-4,6-8\n0-0,1-1").unwrap();
    assert_eq!(s.pairs, vec![(0b11100, 0b1_1100_0000), (1, 2)]);
    assert!(Sections::parse("").unwrap().pairs.is_empty());
}

#[test]
fn fully_contained_pairs() {
    let s = Sections::parse(LIST).unwrap();
    let found = s.fully_contained();
    assert_eq!(found.len(), 2);
    assert_eq!(found, vec![(mask_between(2, 8), mask_between(3, 7)), (mask_between(6, 6), mask_between(4, 6))]);
}

#[test]
fn overlapped_pairs() {
    let s = Sections::parse(LIST).unwrap();
    let found = s.overlapped();
    assert_eq!(found.len(), 4);
    assert_eq!(found[0], (mask_between(5, 7), mask_between(7, 9)));
    assert_eq!(s.select(Relation::Overlapping), found);
    assert_eq!(s.select(Relation::Contained), s.fully_contained());
}

#[test]
fn each_error_of_the_section_list() {
    assert_eq!(error_of("2-4\n"), SectionsError { line: 1, kind: SectionsErrorKind::MalformedLine });
    assert_eq!(error_of("2-4,6\n"), SectionsError { line: 1, kind: SectionsErrorKind::MalformedLine });
    assert_eq!(error_of("1-2,3-4\n\n"), SectionsError { line: 2, kind: SectionsErrorKind::MalformedLine });
    assert_eq!(error_of("a-4,6-8\n"), SectionsError { line: 1, kind: SectionsErrorKind::MalformedLine });
    assert_eq!(error_of("2-4, 6-8\n"), SectionsError { line: 1, kind: SectionsErrorKind::MalformedLine });
    assert_eq!(error_of("1-2,3-4\n2-128,6-8\n"), SectionsError { line: 2, kind: SectionsErrorKind::SectionTooHigh });
    assert_eq!(
        error_of("2-99999999999999999999999999999,6-8\n"),
        SectionsError { line: 1, kind: SectionsErrorKind::SectionTooHigh }
    );
    assert_eq!(error_of("4-2,6-8\n"), SectionsError { line: 1, kind: SectionsErrorKind::EmptyRange });
    assert_eq!(error_of("2-4,8-6\n"), SectionsError { line: 1, kind: SectionsErrorKind::EmptyRange });
}

#[test]
fn single_ranges_and_pairs() {
    assert_eq!(parse_mask(&chars("2-3")), Ok(12));
    assert_eq!(parse_mask(&chars("007-7")), Ok(128));
    assert_eq!(parse_mask(&chars("2-3-4")), Err(SectionsErrorKind::MalformedLine));
    assert_eq!(parse_pair(&chars("0-1,1-2")), Ok((3, 6)));
    assert_eq!(parse_pair(&chars(",")), Err(SectionsErrorKind::MalformedLine));
}

#[test]
fn sections_may_have_a_plus_sign() {
    let s = Sections::parse("+2-+3,4-+5\n").unwrap();
    assert_eq!(s.pairs, vec![(12, 48)]);
    assert_eq!(parse_mask(&chars("+-3")), Err(SectionsErrorKind::MalformedLine));
    assert_eq!(parse_mask(&chars("+128-+129")), Err(SectionsErrorKind::SectionTooHigh));
}

use puzzles::filesystem::parse::{parse_line, Line, ParseError, ParseErrorKind, TranscriptParser};
use puzzles::filesystem::query::{QueryError, SizedFilesystem};
use puzzles::filesystem::{Contents, Filesystem, Node};

const SESSION: &str = "$ cd /\n$ ls\ndir a\n14848514 b.txt\n$ cd a\n$ ls\n29116 f\n$ cd ..\n";

const LONG_SESSION: &str = "$ cd /
$ ls
dir a
14848514 b.txt
8504156 c.dat
dir d
$ cd a
$ ls
dir e
29116 f
2557 g
62596 h.lst
$ cd e
$ ls
584 i
$ cd ..
$ cd ..
$ cd d
$ ls
4060174 j
8033020 d.log
5626152 d.ext
7214296 k
";

fn chars(s: &str) -> Vec<char> {
    s.chars().collect()
}

fn kind_of(text: &str) -> (usize, ParseErrorKind) {
    match Filesystem::parse(text) {
        Ok(_) => panic!("the record was accepted"),
        Err(ParseError { line, kind }) => (line, kind),
    }
}

#[test]
fn example_session_sizes() {
    let fs = Filesystem::parse(SESSION).unwrap();
    assert_eq!(fs.arena.len(), 4);
    assert_eq!(fs.pointer, 0);
    let sized = fs.aggregate();
    let fs = sized.filesystem();
    let a = fs.find_child(0, "a").unwrap();
    assert_eq!(a, 1);
    assert_eq!(fs.arena[a].size, 29116);
    assert_eq!(fs.arena[0].size, 14848514 + 29116);
    assert_eq!(fs.arena[0].size, 14877630);
    assert_eq!(sized.root_size(), 14877630);
    assert_eq!(sized.sum_small_dirs(30000), 29116);
}

#[test]
fn parse_leaves_directory_sizes_at_zero() {
    let fs = Filesystem::parse(SESSION).unwrap();
    assert_eq!(fs.arena[0].size, 0);
    assert_eq!(fs.arena[1].size, 0);
    assert_eq!(fs.arena[2].size, 14848514);
    assert_eq!(fs.arena[3].size, 29116);
}

#[test]
fn parse_builds_links_in_order_of_listing() {
    let fs = Filesystem::parse(LONG_SESSION).unwrap();
    assert_eq!(fs.arena.len(), 14);
    assert_eq!(fs.arena[0].parent, None);
    assert_eq!(fs.arena[0].data.name(), "/");
    assert_eq!(fs.arena[0].data.children(), &[1, 2, 3, 4]);
    assert_eq!(fs.arena[1].data.name(), "a");
    assert_eq!(fs.arena[1].data.children(), &[5, 6, 7, 8]);
    assert_eq!(fs.arena[5].data.name(), "e");
    assert_eq!(fs.arena[5].parent, Some(1));
    assert_eq!(fs.arena[5].data.children(), &[9]);
    assert_eq!(fs.arena[9].data.name(), "i");
    assert_eq!(fs.arena[9].size, 584);
    assert_eq!(fs.arena[4].data.name(), "d");
    assert_eq!(fs.arena[4].data.children(), &[10, 11, 12, 13]);
    assert_eq!(fs.pointer, 4);
    assert!(fs.arena[4].is_dir());
    assert!(!fs.arena[13].is_dir());
}

#[test]
fn long_session_sizes() {
    let sized = Filesystem::parse(LONG_SESSION).unwrap().aggregate();
    let fs = sized.filesystem();
    assert_eq!(fs.arena[5].size, 584);
    assert_eq!(fs.arena[1].size, 94853);
    assert_eq!(fs.arena[4].size, 24933642);
    assert_eq!(fs.arena[0].size, 48381165);
    assert_eq!(sized.sum_small_dirs(100_000), 95437);
    assert_eq!(fs.dirs_up_to(100_000), vec![94853, 584]);
}

#[test]
fn root_size_is_sum_of_all_files_whatever_the_nesting() {
    let flat = "$ ls\n10 a\n20 b\n30 c\n";
    let nested = "$ ls\ndir x\n10 a\n$ cd x\n$ ls\ndir y\n20 b\n$ cd y\n$ ls\n30 c\n";
    assert_eq!(Filesystem::parse(flat).unwrap().aggregate().root_size(), 60);
    assert_eq!(Filesystem::parse(nested).unwrap().aggregate().root_size(), 60);
}

#[test]
fn calculating_twice_changes_nothing() {
    let mut fs = Filesystem::parse(LONG_SESSION).unwrap();
    fs.calculate_size();
    let first: Vec<usize> = fs.arena.iter().map(|n| n.size).collect();
    fs.calculate_size();
    let second: Vec<usize> = fs.arena.iter().map(|n| n.size).collect();
    assert_eq!(first, second);
    assert_eq!(first[0], 48381165);
}

#[test]
fn directory_size_is_sum_of_what_children_hold() {
    let mut fs = Filesystem::parse(LONG_SESSION).unwrap();
    fs.calculate_size();
    for node in fs.arena.iter() {
        if node.is_dir() {
            let sum: usize = node.data.children().iter().map(|c| fs.arena[*c].size).sum();
            assert_eq!(node.size, sum);
        }
    }
}

#[test]
fn size_of_a_subtree_leaves_the_rest_alone() {
    let mut fs = Filesystem::parse(LONG_SESSION).unwrap();
    let total = Filesystem::size(&mut fs.arena, 1);
    assert_eq!(total, 94853);
    assert_eq!(fs.arena[5].size, 584);
    assert_eq!(fs.arena[1].size, 0);
    assert_eq!(fs.arena[4].size, 0);
    assert_eq!(fs.arena[0].size, 0);
}

#[test]
fn sum_small_dirs_grows_with_the_threshold() {
    let sized = Filesystem::parse(LONG_SESSION).unwrap().aggregate();
    let thresholds = [0usize, 583, 584, 94852, 94853, 24933642, 48381165, usize::MAX];
    let sums: Vec<u128> = thresholds.iter().map(|t| sized.sum_small_dirs(*t)).collect();
    assert_eq!(sums, vec![0, 0, 584, 584, 95437, 25029079, 73410244, 73410244]);
    for pair in sums.windows(2) {
        assert!(pair[0] <= pair[1]);
    }
}

#[test]
fn smallest_dir_to_free_picks_the_smallest_that_is_enough() {
    let sized = Filesystem::parse(LONG_SESSION).unwrap().aggregate();
    let found = sized.smallest_dir_to_free(70_000_000, 30_000_000);
    assert_eq!(found, Ok(Some(4)));
    assert_eq!(sized.filesystem().arena[4].size, 24933642);
}

#[test]
fn smallest_dir_to_free_is_the_same_each_time() {
    let sized = Filesystem::parse(LONG_SESSION).unwrap().aggregate();
    let first = sized.smallest_dir_to_free(70_000_000, 30_000_000);
    let second = sized.smallest_dir_to_free(70_000_000, 30_000_000);
    assert_eq!(first, second);
}

#[test]
fn smallest_dir_to_free_needs_nothing_when_enough_is_free() {
    let sized = Filesystem::parse(LONG_SESSION).unwrap().aggregate();
    assert_eq!(sized.smallest_dir_to_free(70_000_000, 21_618_835), Ok(None));
    assert_eq!(sized.smallest_dir_to_free(70_000_000, 0), Ok(None));
    assert_eq!(sized.smallest_dir_to_free(70_000_000, 21_618_836), Ok(Some(5)));
}

#[test]
fn smallest_dir_to_free_fails_when_nothing_is_large_enough() {
    let sized = Filesystem::parse(LONG_SESSION).unwrap().aggregate();
    assert_eq!(
        sized.smallest_dir_to_free(70_000_000, 70_000_001),
        Err(QueryError::NoDirectoryLargeEnough)
    );
    assert_eq!(sized.smallest_dir_to_free(70_000_000, 70_000_000), Ok(Some(0)));
}

#[test]
fn smallest_dir_to_free_takes_the_first_of_equal_sizes() {
    let text = "$ ls\ndir p\ndir q\n$ cd p\n$ ls\n50 f\n$ cd ..\n$ cd q\n$ ls\n50 g\n";
    let sized = Filesystem::parse(text).unwrap().aggregate();
    assert_eq!(sized.smallest_dir_to_free(100, 40), Ok(Some(1)));
    assert_eq!(sized.smallest_dir_to_free(100, 60), Ok(Some(0)));
}

#[test]
fn cd_up_in_the_root_is_an_error() {
    assert_eq!(kind_of("$ cd ..\n"), (1, ParseErrorKind::NoParent));
    assert_eq!(kind_of("$ cd /\n$ ls\ndir a\n$ cd a\n$ cd ..\n$ cd ..\n"), (6, ParseErrorKind::NoParent));
}

#[test]
fn directory_and_file_of_one_name() {
    // Both entries are kept, in the order of their listing; `cd` goes to
    // the first child of the name, and fails where that child is a file.
    let fs = Filesystem::parse("$ ls\ndir x\n7 x\n$ cd x\n$ ls\n5 y\n").unwrap();
    assert_eq!(fs.arena.len(), 4);
    assert_eq!(fs.arena[0].data.children(), &[1, 2]);
    assert!(fs.arena[1].is_dir());
    assert!(!fs.arena[2].is_dir());
    assert_eq!(fs.pointer, 1);
    assert_eq!(fs.find_child(0, "x"), Some(1));
    let sized = fs.aggregate();
    assert_eq!(sized.filesystem().arena[1].size, 5);
    assert_eq!(sized.root_size(), 12);

    assert_eq!(kind_of("$ ls\n7 x\ndir x\n$ cd x\n"), (4, ParseErrorKind::UnknownDirectory));
}

#[test]
fn same_directory_listed_twice_gives_two_nodes() {
    let fs = Filesystem::parse("$ ls\ndir x\ndir x\n").unwrap();
    assert_eq!(fs.arena.len(), 3);
    assert_eq!(fs.find_child(0, "x"), Some(1));
}

#[test]
fn cd_into_unknown_directory_is_an_error() {
    assert_eq!(kind_of("$ ls\ndir a\n$ cd b\n"), (3, ParseErrorKind::UnknownDirectory));
    assert_eq!(kind_of("$ cd a\n"), (1, ParseErrorKind::UnknownDirectory));
    assert_eq!(kind_of("$ ls\n12 a\n$ cd a\n"), (3, ParseErrorKind::UnknownDirectory));
}

#[test]
fn malformed_lines_are_errors() {
    assert_eq!(kind_of("ls\n"), (1, ParseErrorKind::MalformedLine));
    assert_eq!(kind_of("$ ls\n\n"), (2, ParseErrorKind::MalformedLine));
    assert_eq!(kind_of("$ ls\n$ rm a\n"), (2, ParseErrorKind::MalformedLine));
    assert_eq!(kind_of("$ cd\n"), (1, ParseErrorKind::MalformedLine));
    assert_eq!(kind_of("$ ls\ndir\n"), (2, ParseErrorKind::MalformedLine));
    assert_eq!(kind_of("$ ls\ndir a b\n"), (2, ParseErrorKind::MalformedLine));
    assert_eq!(kind_of("$ ls extra\n"), (1, ParseErrorKind::MalformedLine));
    assert_eq!(kind_of("dir a\n"), (1, ParseErrorKind::MalformedLine));
    assert_eq!(kind_of("12 a\n"), (1, ParseErrorKind::MalformedLine));
    assert_eq!(kind_of("$ ls\ndir a\n$ cd a\n12 f\n"), (4, ParseErrorKind::MalformedLine));
}

#[test]
fn sizes_must_be_decimal_numerals() {
    assert_eq!(kind_of("$ ls\nabc f\n"), (2, ParseErrorKind::InvalidSize));
    assert_eq!(kind_of("$ ls\n-1 f\n"), (2, ParseErrorKind::InvalidSize));
    assert_eq!(kind_of("$ ls\n12x f\n"), (2, ParseErrorKind::InvalidSize));
    assert_eq!(
        kind_of("$ ls\n999999999999999999999999999999999999999999 f\n"),
        (2, ParseErrorKind::InvalidSize)
    );
    let fs = Filesystem::parse("$ ls\n007 f\n0 g\n").unwrap();
    assert_eq!(fs.arena[1].size, 7);
    assert_eq!(fs.arena[2].size, 0);
}

#[test]
fn total_of_files_must_fit() {
    let max = usize::MAX;
    let text = format!("$ ls\n{} a\n1 b\n", max);
    assert_eq!(kind_of(&text), (3, ParseErrorKind::TotalTooLarge));
    let text = format!("$ ls\n{} a\n0 b\n", max);
    let sized = Filesystem::parse(&text).unwrap().aggregate();
    assert_eq!(sized.root_size(), max);
    assert_eq!(sized.sum_small_dirs(max), max as u128);
}

#[test]
fn empty_record_is_the_root_alone() {
    let fs = Filesystem::parse("").unwrap();
    assert_eq!(fs.arena.len(), 1);
    assert_eq!(fs.pointer, 0);
    assert_eq!(fs.arena[0].data.name(), "/");
    let sized = fs.aggregate();
    assert_eq!(sized.root_size(), 0);
    assert_eq!(sized.sum_small_dirs(0), 0);
    assert_eq!(sized.smallest_dir_to_free(10, 10), Ok(None));
    assert_eq!(sized.smallest_dir_to_free(10, 11), Err(QueryError::NoDirectoryLargeEnough));
}

#[test]
fn lines_may_end_in_carriage_return_and_hold_extra_blanks() {
    let fs = Filesystem::parse("$ cd /\r\n$   ls\r\n  dir   a\r\n12\tb\r\n$ cd a").unwrap();
    assert_eq!(fs.arena.len(), 3);
    assert_eq!(fs.arena[1].data.name(), "a");
    assert_eq!(fs.arena[2].data.name(), "b");
    assert_eq!(fs.pointer, 1);
}

#[test]
fn parse_line_reads_each_shape() {
    assert!(matches!(parse_line(&chars("$ cd /")), Ok(Line::CdRoot)));
    assert!(matches!(parse_line(&chars("$ cd ..")), Ok(Line::CdUp)));
    assert!(matches!(parse_line(&chars("$ cd abc")), Ok(Line::CdInto(n)) if n == "abc"));
    assert!(matches!(parse_line(&chars("$ ls")), Ok(Line::List)));
    assert!(matches!(parse_line(&chars("dir abc")), Ok(Line::DirEntry(n)) if n == "abc"));
    assert!(matches!(parse_line(&chars("42 abc")), Ok(Line::FileEntry(42, n)) if n == "abc"));
    assert!(matches!(parse_line(&chars("")), Err(ParseErrorKind::MalformedLine)));
    assert!(matches!(parse_line(&chars("x y")), Err(ParseErrorKind::InvalidSize)));
    assert!(matches!(parse_line(&chars("dir")), Err(ParseErrorKind::MalformedLine)));
}

#[test]
fn parser_keeps_its_state_when_a_line_is_refused() {
    let mut p = TranscriptParser::new();
    assert_eq!(p.feed(Line::List), Ok(()));
    assert_eq!(p.feed(Line::DirEntry("a".to_string())), Ok(()));
    assert_eq!(p.feed(Line::CdInto("b".to_string())), Err(ParseErrorKind::UnknownDirectory));
    assert!(p.listing);
    assert_eq!(p.fs.pointer, 0);
    assert_eq!(p.feed(Line::CdInto("a".to_string())), Ok(()));
    assert!(!p.listing);
    assert_eq!(p.feed(Line::FileEntry(3, "f".to_string())), Err(ParseErrorKind::MalformedLine));
    assert_eq!(p.feed(Line::List), Ok(()));
    assert_eq!(p.feed(Line::FileEntry(3, "f".to_string())), Ok(()));
    assert_eq!(p.total, 3);
    assert_eq!(p.feed(Line::CdUp), Ok(()));
    assert_eq!(p.feed(Line::CdUp), Err(ParseErrorKind::NoParent));
    let fs = p.finish();
    assert_eq!(fs.arena.len(), 3);
    assert_eq!(fs.arena[2].parent, Some(1));
}

#[test]
fn contents_constructors_and_accessors() {
    let mut d = Contents::new_dir("docs");
    assert_eq!(d.name(), "docs");
    assert!(d.children().is_empty());
    d.push_child(4);
    d.push_child(2);
    assert_eq!(d.children(), &[4, 2]);
    assert_eq!(d.name(), "docs");
    let f = Contents::new_file("notes.txt");
    assert_eq!(f.name(), "notes.txt");
    assert!(matches!(f, Contents::File { .. }));
}

#[test]
fn cd_finds_the_first_child_of_the_name() {
    let fs = Filesystem::parse("$ ls\ndir a\n5 b\ndir c\n5 c\n").unwrap();
    assert_eq!(fs.arena[0].data.cd("a", &fs.arena), 1);
    assert_eq!(fs.arena[0].data.cd("b", &fs.arena), 2);
    assert_eq!(fs.arena[0].data.cd("c", &fs.arena), 3);
    assert_eq!(fs.find_child(0, "c"), Some(3));
    assert_eq!(fs.find_child(0, "zzz"), None);
    assert_eq!(fs.find_child(2, "a"), None);
    assert_eq!(fs.find_child(99, "a"), None);
}

#[test]
fn new_filesystem_and_add_child() {
    let mut fs = Filesystem::new();
    assert_eq!(fs.arena.len(), 1);
    assert_eq!(fs.arena[0].data.name(), "/");
    assert_eq!(fs.arena[0].parent, None);
    let d = fs.add_child(0, Node { parent: Some(0), data: Contents::new_dir("d"), size: 0 });
    assert_eq!(d, 1);
    let f = fs.add_child(d, Node { parent: Some(d), data: Contents::new_file("f"), size: 9 });
    assert_eq!(f, 2);
    assert_eq!(fs.arena[0].data.children(), &[1]);
    assert_eq!(fs.arena[1].data.children(), &[2]);
    assert_eq!(fs.pointer, 0);
    let sized = fs.aggregate();
    assert_eq!(sized.root_size(), 9);
    assert_eq!(sized.filesystem().arena[1].size, 9);
}

#[test]
fn allocate_appends_and_returns_the_index() {
    let mut arena: Vec<Node> = Vec::new();
    let i = Filesystem::allocate(&mut arena, Node { parent: None, data: Contents::new_dir("/"), size: 0 });
    let j = Filesystem::allocate(&mut arena, Node { parent: Some(0), data: Contents::new_file("f"), size: 1 });
    assert_eq!((i, j), (0, 1));
    assert_eq!(arena.len(), 2);
    assert_eq!(arena[1].data.name(), "f");
}

#[test]
fn words_may_be_parted_by_any_white_space() {
    let fs = Filesystem::parse("$\u{a0}ls\ndir\u{3000}a\n+12\u{2003}b\n$\u{85}cd\u{a0}a").unwrap();
    assert_eq!(fs.arena.len(), 3);
    assert_eq!(fs.arena[1].data.name(), "a");
    assert_eq!(fs.arena[2].size, 12);
    assert_eq!(fs.pointer, 1);
}

#[test]
fn sizes_may_have_a_plus_sign() {
    let fs = Filesystem::parse("$ ls\n+5 f\n+0 g\n").unwrap();
    assert_eq!(fs.arena[1].size, 5);
    assert_eq!(fs.arena[2].size, 0);
    assert_eq!(kind_of("$ ls\n+ f\n"), (2, ParseErrorKind::InvalidSize));
    assert_eq!(kind_of("$ ls\n++5 f\n"), (2, ParseErrorKind::InvalidSize));
}

#[test]
fn reading_and_sizing_in_one() {
    let sized = SizedFilesystem::parse(LONG_SESSION).unwrap();
    assert_eq!(sized.root_size(), 48381165);
    assert_eq!(
        sized.root_size(),
        14848514 + 8504156 + 29116 + 2557 + 62596 + 584 + 4060174 + 8033020 + 5626152 + 7214296
    );
    assert_eq!(sized.filesystem().pointer, 4);
    assert_eq!(sized.sum_small_dirs(100_000), 95437);
    match SizedFilesystem::parse("$ cd ..\n") {
        Ok(_) => panic!("the record was accepted"),
        Err(e) => assert_eq!(e, ParseError { line: 1, kind: ParseErrorKind::NoParent }),
    }
}

#[test]
fn aggregate_keeps_the_current_directory() {
    let fs = Filesystem::parse(SESSION.trim_end_matches("$ cd ..\n")).unwrap();
    assert_eq!(fs.pointer, 1);
    let sized = fs.aggregate();
    assert_eq!(sized.filesystem().pointer, 1);
}

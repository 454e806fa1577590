use puzzles::signal::{all_different, Signal};
use std::collections::VecDeque;

#[test]
fn markers_of_known_streams() {
    let cases = [
        ("mjqjpqmgbljsphdztnvjfqwrcgsmlb", 7, 19),
        ("bvwbjplbgvbhsrlpgdmjqwftvncz", 5, 23),
        ("nppdvjthqldpwncqszvftbrmjlhg", 6, 23),
        ("nznrnfrfntjfmvfwmzdfjlvtqnbhcprsg", 10, 29),
        ("zcfzfwzzqfrljwzlrfnpqdbhtmscgvjw", 11, 26),
    ];
    for (text, first_of_4, first_of_14) in cases {
        let s = Signal::parse(text);
        assert_eq!(s.markers(4)[0], first_of_4);
        assert_eq!(s.markers(14)[0], first_of_14);
    }
}

#[test]
fn all_markers_in_rising_order() {
    let s = Signal::parse("abcabcdd");
    assert_eq!(s.markers(3), vec![3, 4, 5, 6, 7]);
    assert_eq!(s.markers(4), vec![7]);
    assert_eq!(s.markers(5), Vec::<usize>::new());
    assert_eq!(s.markers(1), vec![1, 2, 3, 4, 5, 6, 7, 8]);
    assert_eq!(s.markers(2), vec![2, 3, 4, 5, 6, 7]);
}

#[test]
fn short_and_empty_streams() {
    assert_eq!(Signal::parse("").markers(1), Vec::<usize>::new());
    assert_eq!(Signal::parse("ab").markers(3), Vec::<usize>::new());
    assert_eq!(Signal::parse("ab").markers(2), vec![2]);
    assert_eq!(Signal::parse("aa").markers(2), Vec::<usize>::new());
}

#[test]
fn parse_keeps_every_character() {
    let s = Signal::parse("a\nb ");
    assert_eq!(s.data, vec!['a', '\n', 'b', ' ']);
}

#[test]
fn windows_of_different_characters() {
    let w: VecDeque<char> = "abcd".chars().collect();
    assert!(all_different(&w));
    let w: VecDeque<char> = "abca".chars().collect();
    assert!(!all_different(&w));
    let w: VecDeque<char> = "abb".chars().collect();
    assert!(!all_different(&w));
    assert!(all_different(&VecDeque::new()));
}

#[test]
fn stream_of_one_character_less_than_a_run() {
    assert_eq!(Signal::parse("abc").markers(4), Vec::<usize>::new());
    assert_eq!(Signal::parse("abcd").markers(4), vec![4]);
}

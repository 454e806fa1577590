use puzzles::rucksack::{halve, holds, Rucksack, RucksackInventory};

const LIST: &str = "vJrwpWtwJgWrhcsFMMfFFhFp
jqHRNqRjqzjGDLGLrsFMfFZSrLrFZsSL
PmmdzqPrVvPwwTWBwg
wMqvLMZHhHMvwLHjbvcjnnSBnvTQFn
ttgJtRGJQctTZtZT
CrZsJsPPZsGzwwsLwLmpwMDw
";

fn sack(left: &str, right: &str) -> Rucksack {
    Rucksack { left: left.chars().collect(), right: right.chars().collect() }
}

#[test]
fn parse_splits_each_line_in_half() {
    let inv = RucksackInventory::parse("abcd\nxyz\n\n");
    assert_eq!(inv.list.len(), 3);
    assert_eq!(inv.list[0].left, vec!['a', 'b']);
    assert_eq!(inv.list[0].right, vec!['c', 'd']);
    assert_eq!(inv.list[1].left, vec!['x']);
    assert_eq!(inv.list[1].right, vec!['y', 'z']);
    assert!(inv.list[2].left.is_empty() && inv.list[2].right.is_empty());
    assert_eq!(inv.priority_map.len(), 52);
}

#[test]
fn priorities_of_the_letters() {
    let m = RucksackInventory::priority_map();
    assert_eq!(m.len(), 52);
    assert_eq!(m.get(&('a' as u32)), Some(&1));
    assert_eq!(m.get(&('p' as u32)), Some(&16));
    assert_eq!(m.get(&('z' as u32)), Some(&26));
    assert_eq!(m.get(&('A' as u32)), Some(&27));
    assert_eq!(m.get(&('L' as u32)), Some(&38));
    assert_eq!(m.get(&('Z' as u32)), Some(&52));
    assert_eq!(m.get(&('0' as u32)), None);
    assert_eq!(m.get(&('[' as u32)), None);
    assert_eq!(m.get(&('`' as u32)), None);
    assert_eq!(m.get(&('{' as u32)), None);
    assert_eq!(m.get(&('@' as u32)), None);
}

#[test]
fn analysis_of_the_known_list() {
    let inv = RucksackInventory::parse(LIST);
    let analysis = inv.analyze_rucksack();
    assert_eq!(analysis.errors, vec!['p', 'L', 'P', 'v', 't', 's']);
    assert_eq!(analysis.badges, vec!['r', 'Z']);
    assert_eq!(inv.sum_priorities(analysis.errors), 157);
    assert_eq!(inv.sum_priorities(analysis.badges), 70);
}

#[test]
fn rucksacks_after_the_last_full_group_do_not_count() {
    let inv = RucksackInventory::parse("abac\nxyax\naa\nqqqq\nno\n");
    let analysis = inv.try_analyze().unwrap();
    assert_eq!(analysis.errors, vec!['a', 'x', 'a']);
    assert_eq!(analysis.badges, vec!['a']);
    let empty = RucksackInventory::parse("abab\n");
    let analysis = empty.try_analyze().unwrap();
    assert!(analysis.errors.is_empty() && analysis.badges.is_empty());
}

#[test]
fn nothing_comes_of_a_list_without_error_or_badge() {
    assert!(RucksackInventory::parse("abcd\nabab\nabab\n").try_analyze().is_none());
    assert!(RucksackInventory::parse("aa\nbb\ncc\n").try_analyze().is_none());
    assert!(RucksackInventory::parse("aa\nbb\ncc\n").try_analyze().is_none());
    assert!(RucksackInventory::parse("axax\naa\nxbxb\n").try_analyze().is_none());
}

#[test]
fn first_shared_item_wins() {
    let s = sack("abc", "cba");
    assert_eq!(s.error(), Some('a'));
    assert_eq!(sack("abc", "xyz").error(), None);
    assert_eq!(sack("", "").error(), None);
    let a = sack("xq", "zr");
    let b = sack("r", "qz");
    let c = sack("zq", "r");
    assert_eq!(a.badge(&b, &c), Some('q'));
    assert_eq!(a.badge(&b, &sack("r", "r")), Some('r'));
    assert_eq!(a.badge(&b, &sack("", "")), None);
    assert!(a.holds('z') && a.holds('x') && !a.holds('b'));
    assert!(holds(&['a', 'b'], 'b') && !holds(&['a', 'b'], 'c') && !holds(&[], 'c'));
}

#[test]
fn sums_of_priorities() {
    let inv = RucksackInventory::parse("");
    assert_eq!(inv.sum_priorities(vec![]), 0);
    assert_eq!(inv.sum_priorities(vec!['a', 'A', 'z', 'Z']), 1 + 27 + 26 + 52);
    assert_eq!(inv.try_sum_priorities(&['a', 'b']), Some(3));
    assert_eq!(inv.try_sum_priorities(&['a', '1']), None);
    let mut heavy = RucksackInventory::parse("");
    heavy.priority_map.insert('q' as u32, usize::MAX);
    assert_eq!(heavy.try_sum_priorities(&['q']), Some(usize::MAX));
    assert_eq!(heavy.try_sum_priorities(&['q', 'a']), None);
}

#[test]
fn lines_are_halved_by_their_bytes() {
    let inv = RucksackInventory::try_parse("\u{e9}\u{e9}\nab\u{e9}\n\u{20ac}abc\n").unwrap();
    assert_eq!(inv.list[0].left, vec!['\u{e9}']);
    assert_eq!(inv.list[0].right, vec!['\u{e9}']);
    assert_eq!(inv.list[1].left, vec!['a', 'b']);
    assert_eq!(inv.list[1].right, vec!['\u{e9}']);
    assert_eq!(inv.list[2].left, vec!['\u{20ac}']);
    assert_eq!(inv.list[2].right, vec!['a', 'b', 'c']);
    for line in ["\u{e9}\u{e9}", "ab\u{e9}", "\u{20ac}abc", "abcd", "abc", ""] {
        let (l, r) = line.split_at(line.len() / 2);
        let chars: Vec<char> = line.chars().collect();
        let sack = halve(&chars).unwrap();
        assert_eq!(sack.left, l.chars().collect::<Vec<char>>());
        assert_eq!(sack.right, r.chars().collect::<Vec<char>>());
    }
}

#[test]
fn a_line_that_cannot_be_halved() {
    for line in ["\u{e9}a", "a\u{e9}b", "\u{1f600}", "ab\u{20ac}c"] {
        assert!(!line.is_char_boundary(line.len() / 2));
        let chars: Vec<char> = line.chars().collect();
        assert!(halve(&chars).is_none());
    }
    assert!(RucksackInventory::try_parse("abcd\n\u{e9}a\nabcd\n").is_none());
    assert!(RucksackInventory::try_parse("abcd\nabcd\n").is_some());
}

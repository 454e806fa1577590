//! Rucksacks with two compartments: finding the item that stands in both
//! compartments of a rucksack, and the badge that the three rucksacks of a
//! group share.
//!
//! A line of the input is one rucksack: its first half is the left
//! compartment, its second half the right one. The halves are halves of
//! the line's bytes in UTF-8. Items are characters; a map
//! from an item's code point gives its priority.

use crate::text::{
    byte_len, byte_len_of, chars_of, copy_range, lemma_byte_len_bounds, lines, split_lines,
    utf8_len_of, views,
};
use std::collections::HashMap;
use vstd::prelude::*;

verus! {

broadcast use vstd::std_specs::hash::group_hash_axioms;

#[derive(Debug, Default)]
pub struct Rucksack {
    pub left: Vec<char>,
    pub right: Vec<char>,
}

/// All rucksacks, in groups of three, and the priorities of the items.
pub struct RucksackInventory {
    pub list: Vec<Rucksack>,
    /// The priority of each item, by the item's code point.
    pub priority_map: HashMap<u32, usize>,
}

/// What an analysis finds: the wrongly packed item of each rucksack and
/// the badge of each group.
pub struct RucksackAnalysis {
    pub errors: Vec<char>,
    pub badges: Vec<char>,
}

/// The mathematical value of a [`Rucksack`].
pub struct RucksackView {
    pub left: Seq<char>,
    pub right: Seq<char>,
}

impl RucksackView {
    /// All items, those of the left compartment first.
    pub open spec fn items(self) -> Seq<char> {
        self.left + self.right
    }
}

impl View for Rucksack {
    type V = RucksackView;

    open spec fn view(&self) -> RucksackView {
        RucksackView { left: self.left@, right: self.right@ }
    }
}

/// The values of a list of rucksacks.
pub open spec fn sack_views(list: Seq<Rucksack>) -> Seq<RucksackView> {
    list.map_values(|r: Rucksack| r@)
}

/// The first position from `k` on before which the characters of `s` take
/// `target` bytes in UTF-8; nothing where a character lies across that
/// byte, or the text is shorter.
pub open spec fn boundary(s: Seq<char>, target: int, k: int) -> Option<int>
    decreases s.len() - k,
{
    if byte_len(s, k) == target {
        Some(k)
    } else if k < 0 || k >= s.len() || byte_len(s, k) > target {
        None
    } else {
        boundary(s, target, k + 1)
    }
}

/// Where the line `line` is halved: after half of its bytes in UTF-8, the
/// half rounded down. Nothing where a character lies across that byte.
pub open spec fn half_of(line: Seq<char>) -> Option<int> {
    boundary(line, byte_len(line, line.len() as int) / 2, 0)
}

/// The rucksack that the line `line` stands for, where the line can be
/// halved: its compartments are the two halves.
pub open spec fn sack_of(line: Seq<char>) -> Option<RucksackView> {
    match half_of(line) {
        Some(k) => Some(
            RucksackView { left: line.subrange(0, k), right: line.subrange(k, line.len() as int) },
        ),
        None => None,
    }
}

/// Each of the first `n` of the lines `ls` can be halved.
pub open spec fn halvable(ls: Seq<Seq<char>>, n: int) -> bool {
    forall|i: int| 0 <= i < n ==> (#[trigger] sack_of(ls[i])) is Some
}

/// The rucksacks that the lines `ls` stand for.
pub open spec fn sacks_of(ls: Seq<Seq<char>>) -> Seq<RucksackView> {
    Seq::new(ls.len(), |i: int| sack_of(ls[i])->0)
}

/// The first item of `a`, from position `from` on, that both `b` and `c`
/// hold.
pub open spec fn first_shared(a: Seq<char>, b: Seq<char>, c: Seq<char>, from: int) -> Option<char>
    decreases a.len() - from,
{
    if from < 0 || from >= a.len() {
        None
    } else if b.contains(a[from]) && c.contains(a[from]) {
        Some(a[from])
    } else {
        first_shared(a, b, c, from + 1)
    }
}

/// The item that is packed wrongly: the first of the left compartment that
/// the right one holds too.
pub open spec fn error_of(sack: RucksackView) -> Option<char> {
    first_shared(sack.left, sack.right, sack.right, 0)
}

/// The badge of a group: the first item of the first rucksack that the two
/// others hold too.
pub open spec fn badge_of(a: RucksackView, b: RucksackView, c: RucksackView) -> Option<char> {
    first_shared(a.items(), b.items(), c.items(), 0)
}

/// Every one of the first `n` rucksacks has an item that is packed wrongly.
pub open spec fn errors_exist(list: Seq<RucksackView>, n: int) -> bool {
    forall|i: int| 0 <= i < n ==> (#[trigger] error_of(list[i])) is Some
}

/// Every one of the first `g` groups of three has a badge.
pub open spec fn badges_exist(list: Seq<RucksackView>, g: int) -> bool {
    forall|k: int|
        0 <= k < g ==> (#[trigger] badge_of(list[3 * k], list[3 * k + 1], list[3 * k + 2])) is Some
}

/// The rucksacks can be analyzed: each rucksack of a full group of three
/// has an item that is packed wrongly, and each full group has a badge.
/// Rucksacks after the last full group do not count.
pub open spec fn analyzable(list: Seq<RucksackView>) -> bool {
    let groups = list.len() as int / 3;
    errors_exist(list, 3 * groups) && badges_exist(list, groups)
}

/// The wrongly packed items of the first `n` rucksacks, in order.
pub open spec fn errors_of(list: Seq<RucksackView>, n: int) -> Seq<char>
    decreases n,
{
    if n <= 0 {
        Seq::empty()
    } else {
        errors_of(list, n - 1).push(error_of(list[n - 1])->0)
    }
}

/// The badges of the first `g` groups of three, in order.
pub open spec fn badges_of(list: Seq<RucksackView>, g: int) -> Seq<char>
    decreases g,
{
    if g <= 0 {
        Seq::empty()
    } else {
        badges_of(list, g - 1).push(
            badge_of(list[3 * (g - 1)], list[3 * (g - 1) + 1], list[3 * (g - 1) + 2])->0,
        )
    }
}

/// The code point of the letter `c` in lower case counts from 1 for `a`,
/// in upper case from 27 for `A`; nothing else has a priority.
pub open spec fn priority_of(code: u32) -> Option<usize> {
    if 'a' as u32 <= code <= 'z' as u32 {
        Some((code - 'a' as u32 + 1) as usize)
    } else if 'A' as u32 <= code <= 'Z' as u32 {
        Some((code - 'A' as u32 + 27) as usize)
    } else {
        None
    }
}

/// The priorities of the letters, by code point.
pub open spec fn letter_priorities() -> Map<u32, usize> {
    Map::new(|code: u32| priority_of(code) is Some, |code: u32| priority_of(code)->0)
}

/// The map `m` gives a priority for each of the first `n` of `chars`.
pub open spec fn all_known(m: Map<u32, usize>, chars: Seq<char>, n: int) -> bool {
    forall|i: int| 0 <= i < n ==> m.contains_key(#[trigger] chars[i] as u32)
}

/// The sum of the priorities that `m` gives for the first `n` of `chars`.
pub open spec fn priority_sum(m: Map<u32, usize>, chars: Seq<char>, n: int) -> int
    decreases n,
{
    if n <= 0 {
        0
    } else {
        priority_sum(m, chars, n - 1) + m[chars[n - 1] as u32]
    }
}

/// The sum over more items is not smaller.
pub proof fn lemma_priority_sum_monotone(m: Map<u32, usize>, chars: Seq<char>, k: int, n: int)
    requires
        k <= n,
    ensures
        0 <= priority_sum(m, chars, k) <= priority_sum(m, chars, n),
    decreases n - k, n,
{
    if k < n {
        lemma_priority_sum_monotone(m, chars, k, n - 1);
    } else if n > 0 {
        lemma_priority_sum_monotone(m, chars, k - 1, n - 1);
    }
}

/// Whether `v` holds `c`.
pub fn holds(v: &[char], c: char) -> (b: bool)
    ensures
        b == v@.contains(c),
{
    let mut i: usize = 0;
    while i < v.len()
        invariant
            i <= v@.len(),
            forall|j: int| 0 <= j < i ==> v@[j] != c,
        decreases v@.len() - i,
    {
        if v[i] == c {
            return true;
        }
        i += 1;
    }
    false
}

impl Rucksack {
    /// Whether one of the compartments holds `c`.
    pub fn holds(&self, c: char) -> (b: bool)
        ensures
            b == self@.items().contains(c),
    {
        let b = holds(self.left.as_slice(), c) || holds(self.right.as_slice(), c);
        proof {
            let l = self.left@;
            let r = self.right@;
            if l.contains(c) {
                let i = choose|i: int| 0 <= i < l.len() && l[i] == c;
                assert((l + r)[i] == c);
            }
            if r.contains(c) {
                let i = choose|i: int| 0 <= i < r.len() && r[i] == c;
                assert((l + r)[l.len() + i] == c);
            }
            if (l + r).contains(c) {
                let i = choose|i: int| 0 <= i < (l + r).len() && (l + r)[i] == c;
                if i < l.len() {
                    assert(l[i] == c);
                } else {
                    assert(r[i - l.len()] == c);
                }
            }
        }
        b
    }

    /// The item that is packed wrongly, if there is one.
    pub fn error(&self) -> (e: Option<char>)
        ensures
            e == error_of(self@),
    {
        let mut i: usize = 0;
        while i < self.left.len()
            invariant
                i <= self.left@.len(),
                error_of(self@) == first_shared(self.left@, self.right@, self.right@, i as int),
            decreases self.left@.len() - i,
        {
            let c = self.left[i];
            if holds(self.right.as_slice(), c) {
                return Some(c);
            }
            i += 1;
        }
        None
    }

    /// The badge of the group that this rucksack forms with `b` and `c`,
    /// if there is one.
    pub fn badge(&self, b: &Rucksack, c: &Rucksack) -> (badge: Option<char>)
        ensures
            badge == badge_of(self@, b@, c@),
    {
        let ghost all = self@.items();
        let mut i: usize = 0;
        while i < self.left.len()
            invariant
                i <= self.left@.len(),
                all == self.left@ + self.right@,
                badge_of(self@, b@, c@) == first_shared(all, b@.items(), c@.items(), i as int),
            decreases self.left@.len() - i,
        {
            let x = self.left[i];
            assert(all[i as int] == x);
            if b.holds(x) && c.holds(x) {
                return Some(x);
            }
            i += 1;
        }
        let mut j: usize = 0;
        while j < self.right.len()
            invariant
                j <= self.right@.len(),
                all == self.left@ + self.right@,
                badge_of(self@, b@, c@) == first_shared(
                    all,
                    b@.items(),
                    c@.items(),
                    self.left@.len() + j,
                ),
            decreases self.right@.len() - j,
        {
            let x = self.right[j];
            assert(all[self.left@.len() + j] == x);
            if b.holds(x) && c.holds(x) {
                return Some(x);
            }
            j += 1;
        }
        None
    }
}

impl RucksackInventory {
    /// The values of the rucksacks.
    pub open spec fn sacks(&self) -> Seq<RucksackView> {
        sack_views(self.list@)
    }

    /// The wrongly packed item of each rucksack and the badge of each
    /// group of three; nothing where a rucksack has no such item or a
    /// group no badge.
    pub fn try_analyze(&self) -> (r: Option<RucksackAnalysis>)
        ensures
            r is Some == analyzable(self.sacks()),
            r is Some ==> {
                &&& r->0.errors@ == errors_of(self.sacks(), 3 * (self.list@.len() as int / 3))
                &&& r->0.badges@ == badges_of(self.sacks(), self.list@.len() as int / 3)
            },
    {
        let ghost list = self.sacks();
        let groups = self.list.len() / 3;
        let mut errors: Vec<char> = Vec::new();
        let mut badges: Vec<char> = Vec::new();
        let mut g: usize = 0;
        assert(3 * groups <= self.list@.len());
        while g < groups
            invariant
                g <= groups,
                groups == self.list@.len() / 3,
                3 * groups <= self.list@.len() <= usize::MAX,
                list == self.sacks(),
                errors_exist(list, 3 * g),
                badges_exist(list, g as int),
                errors@ == errors_of(list, 3 * g),
                badges@ == badges_of(list, g as int),
            decreases groups - g,
        {
            let base = 3 * g;
            let mut k: usize = 0;
            while k < 3
                invariant
                    k <= 3,
                    base == 3 * g,
                    g < groups,
                    groups == self.list@.len() / 3,
                    3 * groups <= self.list@.len() <= usize::MAX,
                    list == self.sacks(),
                    errors_exist(list, base + k),
                    errors@ == errors_of(list, base + k),
                decreases 3 - k,
            {
                assert(self.list@[base + k]@ == list[base + k]);
                match self.list[base + k].error() {
                    Some(e) => {
                        errors.push(e);
                    },
                    None => {
                        assert(!errors_exist(list, 3 * groups));
                        return None;
                    },
                }
                k += 1;
            }
            assert(self.list@[base as int]@ == list[base as int]);
            assert(self.list@[base + 1]@ == list[base + 1]);
            assert(self.list@[base + 2]@ == list[base + 2]);
            match self.list[base].badge(&self.list[base + 1], &self.list[base + 2]) {
                Some(b) => {
                    badges.push(b);
                },
                None => {
                    assert(!badges_exist(list, groups as int));
                    return None;
                },
            }
            g += 1;
        }
        Some(RucksackAnalysis { errors, badges })
    }

    /// The wrongly packed item of each rucksack and the badge of each
    /// group of three.
    pub fn analyze_rucksack(&self) -> (r: RucksackAnalysis)
        requires
            analyzable(self.sacks()),
        ensures
            r.errors@ == errors_of(self.sacks(), 3 * (self.list@.len() as int / 3)),
            r.badges@ == badges_of(self.sacks(), self.list@.len() as int / 3),
    {
        match self.try_analyze() {
            Some(r) => r,
            None => RucksackAnalysis { errors: Vec::new(), badges: Vec::new() },
        }
    }

    /// The sum of the priorities of `chars`; nothing where an item has no
    /// priority or the sum is more than a `usize` holds.
    pub fn try_sum_priorities(&self, chars: &[char]) -> (r: Option<usize>)
        ensures
            r is Some == (all_known(self.priority_map@, chars@, chars@.len() as int)
                && priority_sum(self.priority_map@, chars@, chars@.len() as int) <= usize::MAX),
            r is Some ==> r->0 == priority_sum(self.priority_map@, chars@, chars@.len() as int),
    {
        let ghost m = self.priority_map@;
        let mut sum: usize = 0;
        let mut i: usize = 0;
        while i < chars.len()
            invariant
                i <= chars@.len(),
                m == self.priority_map@,
                all_known(m, chars@, i as int),
                sum == priority_sum(m, chars@, i as int),
            decreases chars@.len() - i,
        {
            let code = chars[i] as u32;
            match self.priority_map.get(&code) {
                Some(p) => match sum.checked_add(*p) {
                    Some(s) => {
                        sum = s;
                    },
                    None => {
                        proof {
                            lemma_priority_sum_monotone(m, chars@, i + 1, chars@.len() as int);
                        }
                        return None;
                    },
                },
                None => {
                    assert(!m.contains_key(chars@[i as int] as u32));
                    return None;
                },
            }
            i += 1;
        }
        Some(sum)
    }

    /// The sum of the priorities of `chars`.
    pub fn sum_priorities(&self, chars: Vec<char>) -> (sum: usize)
        requires
            all_known(self.priority_map@, chars@, chars@.len() as int),
            priority_sum(self.priority_map@, chars@, chars@.len() as int) <= usize::MAX,
        ensures
            sum == priority_sum(self.priority_map@, chars@, chars@.len() as int),
    {
        match self.try_sum_priorities(chars.as_slice()) {
            Some(sum) => sum,
            None => 0,
        }
    }

    /// The priorities of the letters: 1 to 26 for `a` to `z`, 27 to 52 for
    /// `A` to `Z`.
    pub fn priority_map() -> (m: HashMap<u32, usize>)
        ensures
            m@ == letter_priorities(),
    {
        let mut m: HashMap<u32, usize> = HashMap::new();
        let mut i: u32 = 0;
        while i < 26
            invariant
                i <= 26,
                m@ == Map::<u32, usize>::new(
                    |code: u32| 'a' as u32 <= code < 'a' as u32 + i,
                    |code: u32| priority_of(code)->0,
                ),
            decreases 26 - i,
        {
            m.insert('a' as u32 + i, i as usize + 1);
            i += 1;
            assert(m@ =~= Map::<u32, usize>::new(
                |code: u32| 'a' as u32 <= code < 'a' as u32 + i,
                |code: u32| priority_of(code)->0,
            ));
        }
        let mut j: u32 = 0;
        while j < 26
            invariant
                j <= 26,
                m@ == Map::<u32, usize>::new(
                    |code: u32|
                        'a' as u32 <= code <= 'z' as u32 || 'A' as u32 <= code < 'A' as u32 + j,
                    |code: u32| priority_of(code)->0,
                ),
            decreases 26 - j,
        {
            m.insert('A' as u32 + j, j as usize + 27);
            j += 1;
            assert(m@ =~= Map::<u32, usize>::new(
                |code: u32|
                    'a' as u32 <= code <= 'z' as u32 || 'A' as u32 <= code < 'A' as u32 + j,
                |code: u32| priority_of(code)->0,
            ));
        }
        assert(m@ =~= letter_priorities());
        m
    }

    /// Reads the rucksacks that `text` lists, one to a line, and gives
    /// them the priorities of the letters; nothing where a line cannot be
    /// halved.
    pub fn try_parse(text: &str) -> (r: Option<RucksackInventory>)
        ensures
            r is Some == halvable(lines(text@), lines(text@).len() as int),
            r is Some ==> {
                &&& r->0.sacks() == sacks_of(lines(text@))
                &&& r->0.priority_map@ == letter_priorities()
            },
    {
        let chars = chars_of(text);
        let ls = split_lines(chars.as_slice());
        let ghost all = lines(text@);
        let mut list: Vec<Rucksack> = Vec::new();
        let mut k: usize = 0;
        while k < ls.len()
            invariant
                k <= ls@.len(),
                views(ls@) == all,
                all == lines(text@),
                list@.len() == k,
                halvable(all, k as int),
                forall|i: int| 0 <= i < k ==> Some((#[trigger] list@[i])@) == sack_of(all[i]),
            decreases ls@.len() - k,
        {
            assert(ls@[k as int]@ == all[k as int]);
            match halve(ls[k].as_slice()) {
                Some(sack) => {
                    list.push(sack);
                },
                None => {
                    assert(!halvable(all, all.len() as int)) by {
                        assert(sack_of(all[k as int]) is None);
                    }
                    return None;
                },
            }
            k += 1;
        }
        assert(sack_views(list@) =~= sacks_of(all));
        Some(RucksackInventory { list, priority_map: Self::priority_map() })
    }

    /// Reads the rucksacks that `text` lists, one to a line, and gives
    /// them the priorities of the letters.
    pub fn parse(text: &str) -> (inv: RucksackInventory)
        requires
            halvable(lines(text@), lines(text@).len() as int),
        ensures
            inv.sacks() == sacks_of(lines(text@)),
            inv.priority_map@ == letter_priorities(),
    {
        match Self::try_parse(text) {
            Some(inv) => inv,
            None => RucksackInventory { list: Vec::new(), priority_map: Self::priority_map() },
        }
    }
}

/// The rucksack that the line `line` stands for, where the line can be
/// halved.
pub fn halve(line: &[char]) -> (r: Option<Rucksack>)
    ensures
        match sack_of(line@) {
            Some(sack) => r is Some && r->0@ == sack,
            None => r is None,
        },
{
    let target = byte_len_of(line) / 2;
    let mut taken: u128 = 0;
    let mut k: usize = 0;
    while k < line.len() && taken < target
        invariant
            k <= line@.len(),
            taken == byte_len(line@, k as int),
            target == byte_len(line@, line@.len() as int) / 2,
            half_of(line@) == boundary(line@, target as int, k as int),
        decreases line@.len() - k,
    {
        proof {
            lemma_byte_len_bounds(line@, k as int);
        }
        taken = taken + utf8_len_of(line[k]);
        k += 1;
    }
    if taken == target {
        Some(Rucksack { left: copy_range(line, 0, k), right: copy_range(line, k, line.len()) })
    } else {
        None
    }
}

} // verus!

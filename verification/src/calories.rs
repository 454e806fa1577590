//! Lists of calories, one list to an elf, and the largest totals.
//!
//! Each line of the input holds one number; an empty line ends the list of
//! one elf. Elves are numbered from 0 in the order of their lists. A list
//! that no empty line ends is not kept.

use crate::text::{chars_of, decimal_value, is_decimal, lines, parse_decimal, split_lines, views};
use nohash_hasher::BuildNoHashHasher;
use nohash_hasher::NoHashHasher;
use std::collections::BTreeMap;
use std::collections::HashMap;
use std::hash::BuildHasherDefault;
use vstd::prelude::*;
use vstd::std_specs::cmp::OrdSpec;
use vstd::std_specs::iter::IteratorSpec;

verus! {

broadcast use {vstd::std_specs::btree::group_btree_axioms, vstd::laws_cmp::group_laws_cmp};

/// The hasher of `nohash_hasher`, which takes an integer key as its own
/// hash.
#[verifier::external_type_specification]
#[verifier::external_body]
#[verifier::reject_recursive_types(T)]
pub struct ExNoHashHasher<T>(NoHashHasher<T>);

/// What builds a hasher by `Default`.
#[verifier::external_type_specification]
#[verifier::external_body]
#[verifier::reject_recursive_types(H)]
pub struct ExBuildHasherDefault<H>(BuildHasherDefault<H>);

#[derive(Debug, Default, Clone, Copy, PartialEq, Eq, PartialOrd, Ord, Hash)]
pub struct ElfId(pub usize);

#[derive(Debug, Default, Clone, Copy, PartialEq, Eq, PartialOrd, Ord)]
pub struct Calories(pub usize);

/// The lists of all elves and what they add up to.
pub struct CalorieList {
    /// The list of each elf, by the elf's number.
    pub map: HashMap<usize, Vec<Calories>, BuildNoHashHasher<usize>>,
    /// For each total that a list adds up to, an elf whose list does.
    pub calorie_totals: BTreeMap<usize, ElfId>,
}

/// Why a line was refused.
#[derive(Debug, Clone, Copy, PartialEq, Eq)]
pub enum CaloriesErrorKind {
    /// The line is neither empty nor a decimal numeral that a `usize`
    /// holds.
    InvalidNumber,
    /// With this line the list adds up to more than a `usize` holds.
    TotalTooLarge,
}

/// A refused line: its number, the first line being line 1, and the reason.
#[derive(Debug, Clone, Copy, PartialEq, Eq)]
pub struct CaloriesError {
    pub line: usize,
    pub kind: CaloriesErrorKind,
}

/// The sum of the first `n` items.
pub open spec fn sum_of(items: Seq<Calories>, n: int) -> int
    decreases n,
{
    if n <= 0 {
        0
    } else {
        sum_of(items, n - 1) + items[n - 1].0
    }
}

/// What a list adds up to.
pub open spec fn total_of(items: Seq<Calories>) -> int {
    sum_of(items, items.len() as int)
}

/// Where the reading stands: the lists that are complete, the number of
/// the next elf, and the list that is being read.
pub struct ReadState {
    pub groups: Map<usize, Seq<Calories>>,
    pub next: int,
    pub buffer: Seq<Calories>,
}

/// The state after `line`, or why the line is refused.
pub open spec fn read_line(st: ReadState, line: Seq<char>) -> Result<ReadState, CaloriesErrorKind> {
    if line.len() == 0 {
        Ok(
            ReadState {
                groups: st.groups.insert(st.next as usize, st.buffer),
                next: st.next + 1,
                buffer: Seq::empty(),
            },
        )
    } else if !(is_decimal(line) && decimal_value(line) <= usize::MAX) {
        Err(CaloriesErrorKind::InvalidNumber)
    } else if total_of(st.buffer) + decimal_value(line) > usize::MAX {
        Err(CaloriesErrorKind::TotalTooLarge)
    } else {
        Ok(
            ReadState {
                groups: st.groups,
                next: st.next,
                buffer: st.buffer.push(Calories(decimal_value(line) as usize)),
            },
        )
    }
}

/// The state after the first `n` of the lines `ls`, or the first error
/// among them.
pub open spec fn read_lines(ls: Seq<Seq<char>>, n: int) -> Result<ReadState, CaloriesError>
    decreases n,
{
    if n <= 0 {
        Ok(ReadState { groups: Map::empty(), next: 0, buffer: Seq::empty() })
    } else {
        match read_lines(ls, n - 1) {
            Err(e) => Err(e),
            Ok(st) => match read_line(st, ls[n - 1]) {
                Ok(next) => Ok(next),
                Err(kind) => Err(CaloriesError { line: n as usize, kind: kind }),
            },
        }
    }
}

/// The lists that `text` holds, by the number of their elf.
pub open spec fn groups_of(text: Seq<char>) -> Result<Map<usize, Seq<Calories>>, CaloriesError> {
    match read_lines(lines(text), lines(text).len() as int) {
        Ok(st) => Ok(st.groups),
        Err(e) => Err(e),
    }
}

/// The totals belong to the lists: every list's total is among them, and
/// each of them names an elf whose list adds up to it.
pub open spec fn totals_match(groups: Map<usize, Seq<Calories>>, totals: Map<usize, ElfId>) -> bool {
    &&& forall|id: usize| #[trigger]
        groups.contains_key(id) ==> total_of(groups[id]) <= usize::MAX && totals.contains_key(
            total_of(groups[id]) as usize,
        )
    &&& forall|t: usize| #[trigger]
        totals.contains_key(t) ==> groups.contains_key(totals[t].0) && total_of(
            groups[totals[t].0],
        ) == t
}

/// The totals of the lists of the first `n` of the elves `ids`: each total
/// with the last of these elves whose list adds up to it.
pub open spec fn totals_after(groups: Map<usize, Seq<Calories>>, ids: Seq<usize>, n: int) -> Map<
    usize,
    ElfId,
>
    decreases n,
{
    if n <= 0 {
        Map::empty()
    } else if groups.contains_key(ids[n - 1]) {
        totals_after(groups, ids, n - 1).insert(
            total_of(groups[ids[n - 1]]) as usize,
            ElfId(ids[n - 1]),
        )
    } else {
        totals_after(groups, ids, n - 1)
    }
}

/// The totals of the first `n` elves hold the total of each of them, and
/// name with each total an elf whose list adds up to it.
pub proof fn lemma_totals_after_match(groups: Map<usize, Seq<Calories>>, ids: Seq<usize>, n: int)
    requires
        n <= ids.len(),
        forall|i: usize| #[trigger] groups.contains_key(i) ==> total_of(groups[i]) <= usize::MAX,
    ensures
        forall|j: int|
            0 <= j < n && groups.contains_key(#[trigger] ids[j]) ==> totals_after(
                groups,
                ids,
                n,
            ).contains_key(total_of(groups[ids[j]]) as usize),
        forall|t: usize| #[trigger]
            totals_after(groups, ids, n).contains_key(t) ==> groups.contains_key(
                totals_after(groups, ids, n)[t].0,
            ) && total_of(groups[totals_after(groups, ids, n)[t].0]) == t,
    decreases n,
{
    if n > 0 {
        lemma_totals_after_match(groups, ids, n - 1);
        let before = totals_after(groups, ids, n - 1);
        let now = totals_after(groups, ids, n);
        let id = ids[n - 1];
        if groups.contains_key(id) {
            lemma_sum_of_monotone(groups[id], 0, groups[id].len() as int);
            let total = total_of(groups[id]) as usize;
            assert(now == before.insert(total, ElfId(id)));
            assert forall|t: usize| #[trigger] now.contains_key(t) implies groups.contains_key(
                now[t].0,
            ) && total_of(groups[now[t].0]) == t by {
                if t != total {
                    assert(before.contains_key(t));
                }
            }
            assert forall|j: int| 0 <= j < n && groups.contains_key(
                #[trigger] ids[j],
            ) implies now.contains_key(total_of(groups[ids[j]]) as usize) by {
                if j < n - 1 {
                    assert(before.contains_key(total_of(groups[ids[j]]) as usize));
                }
            }
        }
    }
}

/// The largest number in `s`.
pub open spec fn largest(s: Set<usize>) -> usize {
    choose|m: usize| s.contains(m) && forall|x: usize| s.contains(x) ==> x <= m
}

/// The sum of the `n` largest numbers in `s`.
pub open spec fn top_sum(s: Set<usize>, n: nat) -> int
    decreases n,
{
    if n == 0 {
        0
    } else {
        largest(s) + top_sum(s.remove(largest(s)), (n - 1) as nat)
    }
}

/// The sum of the last `n` numbers of `ks`.
pub open spec fn tail_sum(ks: Seq<usize>, n: nat) -> int
    decreases n,
{
    if n == 0 {
        0
    } else {
        tail_sum(ks, (n - 1) as nat) + ks[ks.len() - n]
    }
}

/// Each number of `ks` is less than those after it.
pub open spec fn rising(ks: Seq<usize>) -> bool {
    forall|i: int, j: int| 0 <= i < j < ks.len() ==> ks[i] < ks[j]
}

/// The sum over more items is not smaller.
pub proof fn lemma_sum_of_monotone(items: Seq<Calories>, k: int, n: int)
    requires
        k <= n,
    ensures
        0 <= sum_of(items, k) <= sum_of(items, n),
    decreases n - k, n,
{
    if k < n {
        lemma_sum_of_monotone(items, k, n - 1);
    } else if n > 0 {
        lemma_sum_of_monotone(items, k - 1, n - 1);
    }
}

/// Once a line is refused, the error stays.
pub proof fn lemma_read_error_stays(ls: Seq<Seq<char>>, k: int, n: int)
    requires
        k <= n,
        read_lines(ls, k) is Err,
    ensures
        read_lines(ls, n) == read_lines(ls, k),
    decreases n - k,
{
    if k < n {
        lemma_read_error_stays(ls, k, n - 1);
    }
}

/// The last `n` of a sequence are its last and the last `n - 1` of the
/// rest.
pub proof fn lemma_tail_sum_peel(ks: Seq<usize>, n: nat)
    requires
        1 <= n <= ks.len(),
    ensures
        tail_sum(ks, n) == ks.last() + tail_sum(ks.drop_last(), (n - 1) as nat),
    decreases n,
{
    let rest = ks.drop_last();
    if n > 1 {
        lemma_tail_sum_peel(ks, (n - 1) as nat);
        assert(rest[rest.len() - (n - 1)] == ks[ks.len() - n]);
        assert(tail_sum(rest, (n - 1) as nat) == tail_sum(rest, (n - 2) as nat) + rest[rest.len()
            - (n - 1)]);
    } else {
        assert(tail_sum(ks, 0) == 0);
        assert(tail_sum(rest, 0) == 0);
    }
}

/// A further item leaves the sums of the items before it as they are.
pub proof fn lemma_sum_of_push(items: Seq<Calories>, c: Calories, n: int)
    requires
        n <= items.len(),
    ensures
        sum_of(items.push(c), n) == sum_of(items, n),
    decreases n,
{
    if n > 0 {
        lemma_sum_of_push(items, c, n - 1);
    }
}

/// The sum of more of the last numbers is not smaller.
pub proof fn lemma_tail_sum_monotone(ks: Seq<usize>, k: nat, n: nat)
    requires
        k <= n,
    ensures
        0 <= tail_sum(ks, k) <= tail_sum(ks, n),
    decreases n - k, n,
{
    if k < n {
        lemma_tail_sum_monotone(ks, k, (n - 1) as nat);
    } else if n > 0 {
        lemma_tail_sum_monotone(ks, (k - 1) as nat, (n - 1) as nat);
    }
}

/// The `n` largest numbers of a set are the last `n` of its numbers in
/// rising order.
pub proof fn lemma_top_sum_rising(ks: Seq<usize>, n: nat)
    requires
        rising(ks),
        n <= ks.len(),
    ensures
        top_sum(ks.to_set(), n) == tail_sum(ks, n),
    decreases n,
{
    if n > 0 {
        let s = ks.to_set();
        let m = ks.last();
        assert(s.contains(m)) by {
            assert(ks[ks.len() - 1] == m);
        }
        assert forall|x: usize| s.contains(x) implies x <= m by {
            let i = choose|i: int| 0 <= i < ks.len() && ks[i] == x;
            assert(i == ks.len() - 1 || ks[i] < ks[ks.len() - 1]);
        }
        assert(largest(s) == m);
        let rest = ks.drop_last();
        assert(s.remove(m) =~= rest.to_set()) by {
            assert forall|x: usize| s.remove(m).contains(x) implies rest.to_set().contains(x) by {
                let i = choose|i: int| 0 <= i < ks.len() && ks[i] == x;
                assert(rest[i] == x);
            }
            assert forall|x: usize| rest.to_set().contains(x) implies s.remove(m).contains(x) by {
                let i = choose|i: int| 0 <= i < rest.len() && rest[i] == x;
                assert(ks[i] == x);
                assert(ks[i] < ks[ks.len() - 1]);
            }
        }
        assert(rising(rest));
        lemma_top_sum_rising(rest, (n - 1) as nat);
        lemma_tail_sum_peel(ks, n);
    }
}

/// In a sequence that the map's order calls increasing, an earlier number
/// is less than a later one.
proof fn lemma_increasing(s: Seq<&usize>, i: int, j: int)
    requires
        vstd::std_specs::btree::increasing_seq(s),
        0 <= i < j < s.len(),
    ensures
        *s[i] < *s[j],
{
    assert(vstd::laws_cmp::obeys_cmp::<usize>());
    assert(vstd::laws_cmp::obeys_cmp::<&usize>());
    vstd::std_specs::btree::axiom_increasing_seq_meaning::<&usize>(s);
    assert(OrdSpec::cmp_spec(&s[i], &s[j]) is Less);
}

/// The keys of `m` in rising order.
pub fn sorted_keys(m: &BTreeMap<usize, ElfId>) -> (ks: Vec<usize>)
    ensures
        ks@.to_set() == m@.dom(),
        ks@.len() == m@.dom().len(),
        rising(ks@),
{
    let mut ks: Vec<usize> = Vec::new();
    let keys = m.keys();
    let ghost all = keys.remaining();
    assert(all.unref().to_set() == m@.dom());
    assert(vstd::std_specs::btree::increasing_seq(all));
    for k in it: keys
        invariant
            it.seq() == all,
            ks@ == it.seq().take(it.index()).unref(),
    {
        ks.push(*k);
        assert(ks@ =~= it.seq().take(it.index() + 1).unref());
    }
    assert(all.take(all.len() as int) =~= all);
    assert forall|i: int, j: int| 0 <= i < j < ks@.len() implies ks@[i] < ks@[j] by {
        lemma_increasing(all, i, j);
    }
    ks
}

/// Puts the list `items` into `map` under the number `id`, by
/// `HashMap::insert` with the hasher of `nohash_hasher`, whose
/// `write_usize` keeps the key and whose `finish` hands it back as the
/// hash: the map afterwards is the map before with `id` bound to `items`.
#[verifier::external_body]
fn insert_group(
    map: &mut HashMap<usize, Vec<Calories>, BuildNoHashHasher<usize>>,
    id: usize,
    items: Vec<Calories>,
)
    ensures
        final(map)@ == old(map)@.insert(id, items),
{
    map.insert(id, items);
}

/// The list that `map` holds under the number `id`, by `HashMap::get` with
/// the hasher of `nohash_hasher`: the list where `map` binds `id`, nothing
/// where it does not.
#[verifier::external_body]
fn group<'a>(map: &'a HashMap<usize, Vec<Calories>, BuildNoHashHasher<usize>>, id: usize) -> (r:
    Option<&'a Vec<Calories>>)
    ensures
        match r {
            Some(items) => map@.contains_key(id) && *items == map@[id],
            None => !map@.contains_key(id),
        },
{
    map.get(&id)
}

/// The numbers that `map` binds, in the order in which `HashMap::keys`
/// walks a map with the hasher of `nohash_hasher`: each number once, in an
/// order of which nothing is said.
#[verifier::external_body]
fn group_ids(map: &HashMap<usize, Vec<Calories>, BuildNoHashHasher<usize>>) -> (ids: Vec<usize>)
    ensures
        ids@.no_duplicates(),
        ids@.to_set() == map@.dom(),
{
    map.keys().copied().collect()
}

/// What the list `items` adds up to.
pub fn sum_calories(items: &[Calories]) -> (total: usize)
    requires
        total_of(items@) <= usize::MAX,
    ensures
        total == total_of(items@),
{
    let mut total: usize = 0;
    let mut i: usize = 0;
    while i < items.len()
        invariant
            i <= items@.len(),
            total == sum_of(items@, i as int),
            total_of(items@) <= usize::MAX,
        decreases items@.len() - i,
    {
        proof {
            lemma_sum_of_monotone(items@, i + 1, items@.len() as int);
        }
        total = total + items[i].0;
        i += 1;
    }
    total
}

/// The lists of a map, each as a sequence.
pub open spec fn groups_view(m: Map<usize, Vec<Calories>>) -> Map<usize, Seq<Calories>> {
    Map::new(|id: usize| m.contains_key(id), |id: usize| m[id]@)
}

impl CalorieList {
    /// The list of each elf, by the elf's number.
    pub open spec fn groups(&self) -> Map<usize, Seq<Calories>> {
        groups_view(self.map@)
    }

    /// The totals, each with its elf.
    pub open spec fn totals(&self) -> Map<usize, ElfId> {
        self.calorie_totals@
    }

    /// Reads the lists that `text` holds and adds each of them up.
    pub fn parse(text: &str) -> (r: Result<CalorieList, CaloriesError>)
        ensures
            match groups_of(text@) {
                Ok(groups) => r is Ok && r->Ok_0.groups() == groups && totals_match(
                    groups,
                    r->Ok_0.totals(),
                ),
                Err(e) => r == Err::<CalorieList, CaloriesError>(e),
            },
    {
        let chars = chars_of(text);
        let ls = split_lines(chars.as_slice());
        let ghost all = lines(text@);
        let mut map: HashMap<usize, Vec<Calories>, BuildNoHashHasher<usize>> = HashMap::default();
        let mut id: usize = 0;
        let mut buffer: Vec<Calories> = Vec::new();
        let mut sum: usize = 0;
        let mut k: usize = 0;
        assert(groups_view(map@) =~= Map::<usize, Seq<Calories>>::empty());
        while k < ls.len()
            invariant
                k <= ls@.len(),
                views(ls@) == all,
                all == lines(text@),
                id <= k,
                sum == total_of(buffer@),
                forall|i: usize| #[trigger]
                    map@.contains_key(i) ==> total_of(map@[i]@) <= usize::MAX,
                read_lines(all, k as int) == Ok::<ReadState, CaloriesError>(
                    ReadState { groups: groups_view(map@), next: id as int, buffer: buffer@ },
                ),
            decreases ls@.len() - k,
        {
            assert(ls@[k as int]@ == all[k as int]);
            let line = ls[k].as_slice();
            let ghost st = ReadState { groups: groups_view(map@), next: id as int, buffer: buffer@ };
            if line.len() == 0 {
                let ghost before = map@;
                insert_group(&mut map, id, buffer);
                assert(groups_view(map@) =~= groups_view(before).insert(id, st.buffer));
                id = id + 1;
                buffer = Vec::new();
                sum = 0;
            } else {
                let kind = match parse_decimal(line) {
                    None => Some(CaloriesErrorKind::InvalidNumber),
                    Some(v) => match sum.checked_add(v) {
                        None => Some(CaloriesErrorKind::TotalTooLarge),
                        Some(s) => {
                            buffer.push(Calories(v));
                            sum = s;
                            proof {
                                lemma_sum_of_push(st.buffer, Calories(v), st.buffer.len() as int);
                            }
                            None
                        },
                    },
                };
                match kind {
                    Some(kind) => {
                        proof {
                            lemma_read_error_stays(all, k + 1, all.len() as int);
                        }
                        return Err(CaloriesError { line: k + 1, kind: kind });
                    },
                    None => {},
                }
            }
            k += 1;
        }
        let ids = group_ids(&map);
        let calorie_totals = Self::add_up(&map, ids.as_slice());
        Ok(CalorieList { map, calorie_totals })
    }

    /// The totals of the lists of the elves `ids`, taken in that order:
    /// each total with the last of these elves whose list adds up to it.
    /// A number that is no elf's is passed over.
    pub fn add_up(
        map: &HashMap<usize, Vec<Calories>, BuildNoHashHasher<usize>>,
        ids: &[usize],
    ) -> (totals: BTreeMap<usize, ElfId>)
        requires
            forall|i: usize| #[trigger] map@.contains_key(i) ==> total_of(map@[i]@) <= usize::MAX,
        ensures
            totals@ == totals_after(groups_view(map@), ids@, ids@.len() as int),
            ids@.to_set() == map@.dom() ==> totals_match(groups_view(map@), totals@),
    {
        let ghost groups = groups_view(map@);
        let mut totals: BTreeMap<usize, ElfId> = BTreeMap::new();
        let mut k: usize = 0;
        while k < ids.len()
            invariant
                k <= ids@.len(),
                groups == groups_view(map@),
                forall|i: usize| #[trigger]
                    map@.contains_key(i) ==> total_of(map@[i]@) <= usize::MAX,
                totals@ == totals_after(groups, ids@, k as int),
            decreases ids@.len() - k,
        {
            let id = ids[k];
            match group(map, id) {
                Some(items) => {
                    let total = sum_calories(items.as_slice());
                    totals.insert(total, ElfId(id));
                },
                None => {},
            }
            k += 1;
        }
        proof {
            if ids@.to_set() == map@.dom() {
                lemma_totals_after_match(groups, ids@, ids@.len() as int);
                assert forall|id: usize| #[trigger] groups.contains_key(id) implies total_of(
                    groups[id],
                ) <= usize::MAX && totals@.contains_key(total_of(groups[id]) as usize) by {
                    assert(ids@.to_set().contains(id));
                    let j = choose|j: int| 0 <= j < ids@.len() && ids@[j] == id;
                    assert(ids@[j] == id);
                }
            }
        }
        totals
    }

    /// The sum of the `n` largest totals; nothing where there are fewer
    /// than `n` totals or the sum is more than a `usize` holds. Lists of
    /// one total count once.
    pub fn try_top_n_calories(&self, n: usize) -> (r: Option<Calories>)
        ensures
            r is Some == (n <= self.totals().dom().len() && top_sum(self.totals().dom(), n as nat)
                <= usize::MAX),
            r is Some ==> (r->Some_0).0 == top_sum(self.totals().dom(), n as nat),
    {
        let ks = sorted_keys(&self.calorie_totals);
        let len = ks.len();
        if n > len {
            return None;
        }
        proof {
            lemma_top_sum_rising(ks@, n as nat);
        }
        let mut total: usize = 0;
        let mut i: usize = 0;
        while i < n
            invariant
                i <= n <= len,
                len == ks@.len(),
                len == self.totals().dom().len(),
                total == tail_sum(ks@, i as nat),
                tail_sum(ks@, n as nat) == top_sum(self.totals().dom(), n as nat),
            decreases n - i,
        {
            match total.checked_add(ks[len - 1 - i]) {
                Some(t) => {
                    total = t;
                },
                None => {
                    proof {
                        lemma_tail_sum_monotone(ks@, (i + 1) as nat, n as nat);
                    }
                    return None;
                },
            }
            i += 1;
        }
        Some(Calories(total))
    }

    /// The sum of the `n` largest totals. Lists of one total count once.
    pub fn top_n_calories(&self, n: usize) -> (c: Calories)
        requires
            n <= self.totals().dom().len(),
            top_sum(self.totals().dom(), n as nat) <= usize::MAX,
        ensures
            c.0 == top_sum(self.totals().dom(), n as nat),
    {
        match self.try_top_n_calories(n) {
            Some(c) => c,
            None => Calories(0),
        }
    }
}

} // verus!

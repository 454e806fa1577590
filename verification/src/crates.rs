//! Stacks of crates and a crane that moves them.
//!
//! The input begins with a drawing of nine stacks at most, the top of each
//! stack first. In every line of the drawing the crate of stack `i`,
//! counted from 0, stands at position `4 * i + 1`, and is an alphabetic
//! character. An
//! empty line ends the drawing. Each line after it is a move, `move 3 from
//! 1 to 2`: its second, fourth and sixth word are the number of crates,
//! the stack they leave and the stack they reach, stacks counted from 1.

use crate::text::{
    chars_of, copy_range, decimal_value, is_decimal, lines, parse_decimal, push_char,
    split_lines, split_words, views, words,
};
use vstd::prelude::*;

verus! {

/// One move: `crates` crates from stack `from` to stack `to`, the stacks
/// counted from 1.
#[derive(Debug, Clone, Copy)]
pub struct Move {
    pub crates: usize,
    pub from: usize,
    pub to: usize,
}

#[derive(Debug, Clone, Copy, PartialEq, Eq, Structural)]
pub enum Crane {
    /// Moves the crates one by one, so that they arrive in reverse order.
    CrateMover9000,
    /// Moves the crates all at once, so that they keep their order.
    CrateMover9001,
}

/// Nine stacks, each from its bottom to its top, and the moves to make.
#[derive(Debug, Clone)]
pub struct Crates {
    pub stacks: [Vec<char>; 9],
    pub instructions: Vec<Move>,
}

/// Why a line was refused.
#[derive(Debug, Clone, Copy, PartialEq, Eq)]
pub enum CratesErrorKind {
    /// A line of the drawing shows a crate beyond the ninth stack.
    TooManyStacks,
    /// A line after the drawing has fewer than six words, or its second,
    /// fourth or sixth word is no decimal numeral that a `usize` holds.
    MalformedMove,
}

/// A refused line: its number, the first line being line 1, and the reason.
#[derive(Debug, Clone, Copy, PartialEq, Eq)]
pub struct CratesError {
    pub line: usize,
    pub kind: CratesErrorKind,
}

/// What `char::is_alphabetic` says of `c`: whether Unicode gives `c` the
/// property `Alphabetic`.
pub uninterp spec fn alphabetic(c: char) -> bool;

/// The number of stacks for which a line of `len` characters has a place:
/// the positions 1, 5, 9 and so on that lie within the line.
pub open spec fn columns(len: int) -> int {
    if len >= 2 {
        (len - 2) / 4 + 1
    } else {
        0
    }
}

/// What the line `line` shows: for each stack that it has a place for, the
/// crate at that place, where an alphabetic character stands there.
pub open spec fn row_of(line: Seq<char>) -> Seq<Option<char>> {
    Seq::new(
        columns(line.len() as int) as nat,
        |i: int|
            if alphabetic(line[4 * i + 1]) {
                Some(line[4 * i + 1])
            } else {
                None
            },
    )
}

/// What the first `n` of the lines `ls` show.
pub open spec fn rows_of(ls: Seq<Seq<char>>, n: int) -> Seq<Seq<Option<char>>> {
    Seq::new(n as nat, |k: int| row_of(ls[k]))
}

/// The crate that `row` shows for stack `i`, if it shows one.
pub open spec fn label_at(row: Seq<Option<char>>, i: int) -> Option<char> {
    if 0 <= i < row.len() {
        row[i]
    } else {
        None
    }
}

/// The row shows no crate beyond the ninth stack.
pub open spec fn fits_nine(row: Seq<Option<char>>) -> bool {
    forall|i: int| 9 <= i < row.len() ==> (#[trigger] row[i]) is None
}

/// The index of the first empty line from `from` on, or the number of
/// lines where there is none.
pub open spec fn drawing_end(ls: Seq<Seq<char>>, from: int) -> int
    decreases ls.len() - from,
{
    if from < 0 || from >= ls.len() || ls[from].len() == 0 {
        from
    } else {
        drawing_end(ls, from + 1)
    }
}

/// The first of the rows from `from` up to `to` that shows a crate beyond
/// the ninth stack.
pub open spec fn first_unfit(rows: Seq<Seq<Option<char>>>, from: int, to: int) -> Option<int>
    decreases to - from,
{
    if from >= to {
        None
    } else if !fits_nine(rows[from]) {
        Some(from)
    } else {
        first_unfit(rows, from + 1, to)
    }
}

/// Stack `i` as the rows from `from` up to `to` show it, from its bottom
/// to its top: the last row shows the bottom.
pub open spec fn pile(rows: Seq<Seq<Option<char>>>, from: int, to: int, i: int) -> Seq<char>
    decreases to - from,
{
    if from >= to {
        Seq::empty()
    } else {
        match label_at(rows[from], i) {
            Some(c) => pile(rows, from + 1, to, i).push(c),
            None => pile(rows, from + 1, to, i),
        }
    }
}

/// The nine stacks that the rows from `from` up to `to` show.
pub open spec fn piles(rows: Seq<Seq<Option<char>>>, from: int, to: int) -> Seq<Seq<char>> {
    Seq::new(9, |i: int| pile(rows, from, to, i))
}

/// The values of a sequence of rows.
pub open spec fn row_views(rows: Seq<Vec<Option<char>>>) -> Seq<Seq<Option<char>>> {
    rows.map_values(|r: Vec<Option<char>>| r@)
}

/// The number that the word `w` stands for.
pub open spec fn number_of(w: Seq<char>) -> Option<usize> {
    if is_decimal(w) && decimal_value(w) <= usize::MAX {
        Some(decimal_value(w) as usize)
    } else {
        None
    }
}

/// The move that a line made of the words `w` stands for.
pub open spec fn move_of(w: Seq<Seq<char>>) -> Option<Move> {
    if w.len() < 6 {
        None
    } else {
        match (number_of(w[1]), number_of(w[3]), number_of(w[5])) {
            (Some(crates), Some(from), Some(to)) => Some(
                Move { crates: crates, from: from, to: to },
            ),
            _ => None,
        }
    }
}

/// The moves that the `n` lines from `start` on stand for, or the first
/// error among them.
pub open spec fn moves_of(ls: Seq<Seq<char>>, start: int, n: int) -> Result<Seq<Move>, CratesError>
    decreases n,
{
    if n <= 0 {
        Ok(Seq::empty())
    } else {
        match moves_of(ls, start, n - 1) {
            Err(e) => Err(e),
            Ok(moves) => match move_of(words(ls[start + n - 1])) {
                None => Err(
                    CratesError { line: (start + n) as usize, kind: CratesErrorKind::MalformedMove },
                ),
                Some(m) => Ok(moves.push(m)),
            },
        }
    }
}

/// The mathematical value of a [`Crates`].
pub struct CratesView {
    pub stacks: Seq<Seq<char>>,
    pub instructions: Seq<Move>,
}

impl View for Crates {
    type V = CratesView;

    open spec fn view(&self) -> CratesView {
        CratesView { stacks: views(self.stacks@), instructions: self.instructions@ }
    }
}

/// What reading the lines `ls` gives.
pub open spec fn crates_of_lines(ls: Seq<Seq<char>>) -> Result<CratesView, CratesError> {
    let end = drawing_end(ls, 0);
    let rows = rows_of(ls, end);
    match first_unfit(rows, 0, end) {
        Some(k) => Err(CratesError { line: (k + 1) as usize, kind: CratesErrorKind::TooManyStacks }),
        None => {
            let start = if end < ls.len() {
                end + 1
            } else {
                end
            };
            match moves_of(ls, start, ls.len() - start) {
                Err(e) => Err(e),
                Ok(moves) => Ok(CratesView { stacks: piles(rows, 0, end), instructions: moves }),
            }
        },
    }
}

/// What reading `text` gives.
pub open spec fn crates_of(text: Seq<char>) -> Result<CratesView, CratesError> {
    crates_of_lines(lines(text))
}

/// The move can be made: both stacks are among the nine, and the stack
/// that the crates leave holds as many.
pub open spec fn move_ok(stacks: Seq<Seq<char>>, m: Move) -> bool {
    &&& 1 <= m.from <= 9
    &&& 1 <= m.to <= 9
    &&& m.crates <= stacks[m.from - 1].len()
}

/// The crates as the crane sets them down.
pub open spec fn load_of(lifted: Seq<char>, crane: Crane) -> Seq<char> {
    match crane {
        Crane::CrateMover9000 => lifted.reverse(),
        Crane::CrateMover9001 => lifted,
    }
}

/// The stacks after the move `m`.
pub open spec fn moved(stacks: Seq<Seq<char>>, m: Move, crane: Crane) -> Seq<Seq<char>> {
    let source = stacks[m.from - 1];
    let keep = source.len() - m.crates;
    let lifted = source.subrange(keep, source.len() as int);
    let left = stacks.update(m.from - 1, source.subrange(0, keep));
    left.update(m.to - 1, left[m.to - 1] + load_of(lifted, crane))
}

/// The stacks after the first `n` of the moves, or nothing where one of
/// them cannot be made.
pub open spec fn run_moves(stacks: Seq<Seq<char>>, moves: Seq<Move>, crane: Crane, n: int) -> Option<
    Seq<Seq<char>>,
>
    decreases n,
{
    if n <= 0 {
        Some(stacks)
    } else {
        match run_moves(stacks, moves, crane, n - 1) {
            None => None,
            Some(s) => if move_ok(s, moves[n - 1]) {
                Some(moved(s, moves[n - 1], crane))
            } else {
                None
            },
        }
    }
}

/// The tops of the first `n` stacks that are not empty, in order.
pub open spec fn tops(stacks: Seq<Seq<char>>, n: int) -> Seq<char>
    decreases n,
{
    if n <= 0 {
        Seq::empty()
    } else if stacks[n - 1].len() > 0 {
        tops(stacks, n - 1).push(stacks[n - 1].last())
    } else {
        tops(stacks, n - 1)
    }
}

/// A move keeps the number of stacks and the number of crates.
pub proof fn lemma_moved_keeps_crates(stacks: Seq<Seq<char>>, m: Move, crane: Crane)
    requires
        stacks.len() == 9,
        move_ok(stacks, m),
    ensures
        moved(stacks, m, crane).len() == 9,
        count(moved(stacks, m, crane), 9) == count(stacks, 9),
{
    let after = moved(stacks, m, crane);
    let source = stacks[m.from - 1];
    let keep = source.len() - m.crates;
    let lifted = source.subrange(keep, source.len() as int);
    assert(load_of(lifted, crane).len() == lifted.len());
    lemma_count_change(stacks, after, 9, m.from - 1, m.to - 1, m.crates as int);
}

/// The number of crates on the first `n` stacks.
pub open spec fn count(stacks: Seq<Seq<char>>, n: int) -> int
    decreases n,
{
    if n <= 0 {
        0
    } else {
        count(stacks, n - 1) + stacks[n - 1].len()
    }
}

/// Where `k` crates go from one stack to another and the other stacks
/// keep theirs, the number of crates on the first `n` stacks changes by
/// what arrives there and what leaves.
proof fn lemma_count_change(
    a: Seq<Seq<char>>,
    b: Seq<Seq<char>>,
    n: int,
    from: int,
    to: int,
    k: int,
)
    requires
        0 <= n <= a.len(),
        a.len() == b.len(),
        0 <= from < a.len(),
        0 <= to < a.len(),
        forall|i: int| 0 <= i < a.len() && i != from && i != to ==> a[i].len() == b[i].len(),
        from != to ==> b[from].len() == a[from].len() - k && b[to].len() == a[to].len() + k,
        from == to ==> b[from].len() == a[from].len(),
    ensures
        count(b, n) == count(a, n) + (if from != to && to < n {
            k
        } else {
            0
        }) - (if from != to && from < n {
            k
        } else {
            0
        }),
    decreases n,
{
    if n > 0 {
        lemma_count_change(a, b, n - 1, from, to, k);
    }
}

/// Whether `c` is alphabetic, by `char::is_alphabetic`: the result is what
/// that function says of `c`, which depends on `c` alone.
#[verifier::external_body]
fn is_alphabetic(c: char) -> (b: bool)
    ensures
        b == alphabetic(c),
{
    c.is_alphabetic()
}

/// What the line `line` shows.
pub fn read_row(line: &[char]) -> (row: Vec<Option<char>>)
    ensures
        row@ == row_of(line@),
{
    let mut row: Vec<Option<char>> = Vec::new();
    let mut pos: usize = 1;
    while pos < line.len()
        invariant_except_break
            pos == 4 * row@.len() + 1,
        invariant
            row@.len() <= columns(line@.len() as int),
            forall|i: int| 0 <= i < row@.len() ==> #[trigger] row@[i] == row_of(line@)[i],
        ensures
            row@.len() == columns(line@.len() as int),
            forall|i: int| 0 <= i < row@.len() ==> #[trigger] row@[i] == row_of(line@)[i],
        decreases line@.len() + 4 - pos,
    {
        let c = line[pos];
        row.push(
            if is_alphabetic(c) {
                Some(c)
            } else {
                None
            },
        );
        if pos > usize::MAX - 4 {
            break;
        }
        pos += 4;
    }
    assert(row@ =~= row_of(line@));
    row
}

/// Whether `row` shows no crate beyond the ninth stack.
pub fn row_fits(row: &[Option<char>]) -> (b: bool)
    ensures
        b == fits_nine(row@),
{
    let mut i: usize = 9;
    while i < row.len()
        invariant
            9 <= i,
            forall|j: int| 9 <= j < i && j < row@.len() ==> (#[trigger] row@[j]) is None,
        decreases row@.len() - i,
    {
        if row[i].is_some() {
            return false;
        }
        i += 1;
    }
    true
}

/// Nine empty stacks.
fn empty_stacks() -> (s: [Vec<char>; 9])
    ensures
        forall|j: int| 0 <= j < 9 ==> (#[trigger] s@[j])@ == Seq::<char>::empty(),
{
    [
        Vec::new(),
        Vec::new(),
        Vec::new(),
        Vec::new(),
        Vec::new(),
        Vec::new(),
        Vec::new(),
        Vec::new(),
        Vec::new(),
    ]
}

/// Puts the crates that `row` shows on top of the stacks.
fn stack_row(stacks: &mut [Vec<char>; 9], row: &[Option<char>])
    ensures
        forall|i: int|
            0 <= i < 9 ==> (#[trigger] final(stacks)@[i])@ == (match label_at(row@, i) {
                Some(c) => old(stacks)@[i]@.push(c),
                None => old(stacks)@[i]@,
            }),
{
    let mut i: usize = 0;
    while i < 9
        invariant
            i <= 9,
            forall|j: int|
                0 <= j < i ==> (#[trigger] stacks@[j])@ == (match label_at(row@, j) {
                    Some(c) => old(stacks)@[j]@.push(c),
                    None => old(stacks)@[j]@,
                }),
            forall|j: int| i <= j < 9 ==> (#[trigger] stacks@[j]) == old(stacks)@[j],
        decreases 9 - i,
    {
        if i < row.len() {
            match row[i] {
                Some(c) => {
                    stacks[i].push(c);
                },
                None => {},
            }
        }
        i += 1;
    }
}

/// The nine stacks that `rows` show, the top of each stack first; or the
/// index of the first row that shows a crate beyond the ninth stack.
pub fn build_stacks(rows: &[Vec<Option<char>>]) -> (r: Result<[Vec<char>; 9], usize>)
    ensures
        match first_unfit(row_views(rows@), 0, rows@.len() as int) {
            Some(k) => r is Err && r->Err_0 == k,
            None => r is Ok && views(r->Ok_0@) == piles(row_views(rows@), 0, rows@.len() as int),
        },
        r is Err ==> r->Err_0 < rows@.len(),
{
    let ghost all = row_views(rows@);
    let end = rows.len();
    let mut k: usize = 0;
    while k < end
        invariant
            k <= end,
            end == rows@.len(),
            all == row_views(rows@),
            first_unfit(all, 0, end as int) == first_unfit(all, k as int, end as int),
        decreases end - k,
    {
        assert(rows@[k as int]@ == all[k as int]);
        if !row_fits(rows[k].as_slice()) {
            return Err(k);
        }
        k += 1;
    }
    let mut stacks = empty_stacks();
    let mut k: usize = end;
    assert(views(stacks@) =~= piles(all, end as int, end as int));
    while k > 0
        invariant
            k <= end,
            end == rows@.len(),
            all == row_views(rows@),
            views(stacks@) == piles(all, k as int, end as int),
            first_unfit(all, 0, end as int) is None,
        decreases k,
    {
        k -= 1;
        assert(rows@[k as int]@ == all[k as int]);
        let ghost before = stacks@;
        stack_row(&mut stacks, rows[k].as_slice());
        assert(views(stacks@) =~= piles(all, k as int, end as int)) by {
            assert forall|i: int| 0 <= i < 9 implies views(stacks@)[i] == pile(
                all,
                k as int,
                end as int,
                i,
            ) by {
                assert(views(before)[i] == pile(all, k + 1, end as int, i));
            }
        }
    }
    Ok(stacks)
}

/// Reads a move.
pub fn parse_move(line: &[char]) -> (r: Option<Move>)
    ensures
        r == move_of(words(line@)),
{
    let w = split_words(line);
    assert(forall|i: int| 0 <= i < w@.len() ==> (#[trigger] w@[i])@ == words(line@)[i]);
    if w.len() < 6 {
        return None;
    }
    let crates = parse_decimal(w[1].as_slice());
    let from = parse_decimal(w[3].as_slice());
    let to = parse_decimal(w[5].as_slice());
    match (crates, from, to) {
        (Some(crates), Some(from), Some(to)) => Some(Move { crates, from, to }),
        _ => None,
    }
}

/// Once a line is refused, the error stays.
pub proof fn lemma_moves_error_stays(ls: Seq<Seq<char>>, start: int, k: int, n: int)
    requires
        k <= n,
        moves_of(ls, start, k) is Err,
    ensures
        moves_of(ls, start, n) == moves_of(ls, start, k),
    decreases n - k,
{
    if k < n {
        lemma_moves_error_stays(ls, start, k, n - 1);
    }
}

/// Makes the move `m`.
fn make_move(stacks: &mut [Vec<char>; 9], m: Move, crane: Crane)
    requires
        move_ok(views(old(stacks)@), m),
    ensures
        views(final(stacks)@) == moved(views(old(stacks)@), m, crane),
{
    let ghost before = views(stacks@);
    let from = m.from - 1;
    let to = m.to - 1;
    assert(before[from as int] == stacks@[from as int]@);
    let keep = stacks[from].len() - m.crates;
    let mut lifted = stacks[from].split_off(keep);
    let ghost load = load_of(lifted@, crane);
    let ghost left = views(stacks@);
    let ghost base = left[to as int];
    assert(left =~= before.update(from as int, before[from as int].subrange(0, keep as int)));
    match crane {
        Crane::CrateMover9000 => {
            let ghost all = lifted@;
            let n = lifted.len();
            let mut k: usize = 0;
            while k < n
                invariant
                    k <= n,
                    n == all.len(),
                    to < 9,
                    lifted@ == all.subrange(0, n - k),
                    stacks@[to as int]@ == base + all.reverse().subrange(0, k as int),
                    left.len() == 9,
                    forall|j: int| 0 <= j < 9 && j != to ==> (#[trigger] stacks@[j])@ == left[j],
                decreases n - k,
            {
                let ghost target = stacks@[to as int]@;
                let c = lifted.pop();
                match c {
                    Some(c) => {
                        stacks[to].push(c);
                        assert(c == all.reverse()[k as int]);
                        assert(stacks@[to as int]@ =~= base + all.reverse().subrange(0, k + 1));
                    },
                    None => {},
                }
                k += 1;
                assert(lifted@ =~= all.subrange(0, n - k));
            }
            assert(all.reverse().subrange(0, n as int) =~= all.reverse());
        },
        Crane::CrateMover9001 => {
            let n = lifted.len();
            let mut k: usize = 0;
            while k < n
                invariant
                    k <= n,
                    n == lifted@.len(),
                    to < 9,
                    stacks@[to as int]@ == base + lifted@.subrange(0, k as int),
                    left.len() == 9,
                    forall|j: int| 0 <= j < 9 && j != to ==> (#[trigger] stacks@[j])@ == left[j],
                decreases n - k,
            {
                stacks[to].push(lifted[k]);
                k += 1;
                assert(stacks@[to as int]@ =~= base + lifted@.subrange(0, k as int));
            }
            assert(lifted@.subrange(0, n as int) =~= lifted@);
        },
    }
    assert(views(stacks@) =~= moved(before, m, crane));
}

impl Crates {
    /// Reads the drawing and the moves from `text`.
    pub fn parse(text: &str) -> (r: Result<Crates, CratesError>)
        ensures
            match crates_of(text@) {
                Ok(c) => r is Ok && r->Ok_0@ == c,
                Err(e) => r == Err::<Crates, CratesError>(e),
            },
    {
        let chars = chars_of(text);
        let ls = split_lines(chars.as_slice());
        let ghost all = lines(text@);
        let n = ls.len();
        // Where the drawing ends.
        let mut end: usize = 0;
        while end < n && ls[end].len() > 0
            invariant
                end <= n,
                n == ls@.len(),
                views(ls@) == all,
                drawing_end(all, 0) == drawing_end(all, end as int),
            decreases n - end,
        {
            assert(ls@[end as int]@ == all[end as int]);
            end += 1;
        }
        assert(end < n ==> ls@[end as int]@ == all[end as int]);
        assert(drawing_end(all, 0) == end);
        // What the lines of the drawing show.
        let mut rows: Vec<Vec<Option<char>>> = Vec::new();
        let mut k: usize = 0;
        while k < end
            invariant
                k <= end <= n,
                n == ls@.len(),
                views(ls@) == all,
                rows@.len() == k,
                forall|i: int| 0 <= i < k ==> (#[trigger] rows@[i])@ == row_of(all[i]),
            decreases end - k,
        {
            assert(ls@[k as int]@ == all[k as int]);
            rows.push(read_row(ls[k].as_slice()));
            k += 1;
        }
        assert(row_views(rows@) =~= rows_of(all, end as int));
        let stacks = match build_stacks(rows.as_slice()) {
            Ok(stacks) => stacks,
            Err(k) => {
                return Err(CratesError { line: k + 1, kind: CratesErrorKind::TooManyStacks });
            },
        };
        // The moves.
        let start = if end < n {
            end + 1
        } else {
            end
        };
        let mut instructions: Vec<Move> = Vec::new();
        let mut j: usize = start;
        while j < n
            invariant
                start <= j <= n,
                n == ls@.len(),
                views(ls@) == all,
                all == lines(text@),
                drawing_end(all, 0) == end,
                first_unfit(rows_of(all, end as int), 0, end as int) is None,
                start == if end < n {
                    end + 1
                } else {
                    end as int
                },
                views(stacks@) == piles(rows_of(all, end as int), 0, end as int),
                moves_of(all, start as int, j - start) == Ok::<Seq<Move>, CratesError>(
                    instructions@,
                ),
            decreases n - j,
        {
            assert(ls@[j as int]@ == all[j as int]);
            match parse_move(ls[j].as_slice()) {
                Some(m) => {
                    instructions.push(m);
                },
                None => {
                    proof {
                        lemma_moves_error_stays(all, start as int, j - start + 1, n - start);
                    }
                    return Err(CratesError { line: j + 1, kind: CratesErrorKind::MalformedMove });
                },
            }
            j += 1;
        }
        Ok(Crates { stacks, instructions })
    }

    /// The stacks after all moves, made by `crane`, and no moves left to
    /// make; nothing where one of the moves cannot be made.
    pub fn try_execute_moves(&self, crane: Crane) -> (r: Option<Crates>)
        ensures
            match run_moves(self@.stacks, self@.instructions, crane, self@.instructions.len() as int) {
                Some(s) => r is Some && r->0@.stacks == s && r->0@.instructions == Seq::<
                    Move,
                >::empty(),
                None => r is None,
            },
    {
        let mut stacks = empty_stacks();
        let mut i: usize = 0;
        while i < 9
            invariant
                i <= 9,
                forall|j: int| 0 <= j < i ==> (#[trigger] stacks@[j])@ == self.stacks@[j]@,
            decreases 9 - i,
        {
            let copy = copy_range(self.stacks[i].as_slice(), 0, self.stacks[i].len());
            assert(copy@ =~= self.stacks@[i as int]@);
            stacks[i] = copy;
            i += 1;
        }
        assert(views(stacks@) =~= self@.stacks);
        let mut k: usize = 0;
        while k < self.instructions.len()
            invariant
                k <= self.instructions@.len(),
                run_moves(self@.stacks, self@.instructions, crane, k as int) == Some(
                    views(stacks@),
                ),
            decreases self.instructions@.len() - k,
        {
            let m = self.instructions[k];
            let ghost s = views(stacks@);
            assert(s[m.from - 1] == stacks@[m.from - 1]@ || !(1 <= m.from <= 9));
            if m.from < 1 || m.from > 9 || m.to < 1 || m.to > 9 || m.crates > stacks[m.from
                - 1].len() {
                proof {
                    lemma_run_moves_stays(
                        self@.stacks,
                        self@.instructions,
                        crane,
                        k + 1,
                        self@.instructions.len() as int,
                    );
                }
                return None;
            }
            make_move(&mut stacks, m, crane);
            k += 1;
        }
        Some(Crates { stacks, instructions: Vec::new() })
    }

    /// The stacks after all moves, made by `crane`, and no moves left to
    /// make.
    pub fn execute_moves(&self, crane: Crane) -> (r: Crates)
        requires
            run_moves(
                self@.stacks,
                self@.instructions,
                crane,
                self@.instructions.len() as int,
            ) is Some,
        ensures
            Some(r@.stacks) == run_moves(
                self@.stacks,
                self@.instructions,
                crane,
                self@.instructions.len() as int,
            ),
            r@.instructions == Seq::<Move>::empty(),
    {
        match self.try_execute_moves(crane) {
            Some(r) => r,
            None => Crates { stacks: empty_stacks(), instructions: Vec::new() },
        }
    }

    /// The crates on top of the stacks that are not empty, from the first
    /// stack to the last.
    pub fn topmost(&self) -> (top: String)
        ensures
            top@ == tops(self@.stacks, 9),
    {
        let mut top = String::new();
        let mut i: usize = 0;
        while i < 9
            invariant
                i <= 9,
                top@ == tops(self@.stacks, i as int),
            decreases 9 - i,
        {
            let s = &self.stacks[i];
            assert(self@.stacks[i as int] == s@);
            if s.len() > 0 {
                push_char(&mut top, s[s.len() - 1]);
            }
            i += 1;
        }
        top
    }
}

/// Once a move cannot be made, nothing comes of the moves.
pub proof fn lemma_run_moves_stays(
    stacks: Seq<Seq<char>>,
    moves: Seq<Move>,
    crane: Crane,
    k: int,
    n: int,
)
    requires
        k <= n,
        run_moves(stacks, moves, crane, k) is None,
    ensures
        run_moves(stacks, moves, crane, n) is None,
    decreases n - k,
{
    if k < n {
        lemma_run_moves_stays(stacks, moves, crane, k, n - 1);
    }
}

} // verus!

//! Pairs of section ranges, each range held as a bit mask: bit `i` is set
//! where section `i` belongs to the range.
//!
//! A line of the input reads `a-b,c-d`: two ranges, each from its first
//! section to its last. Sections are numbered from 0 to 127.

use crate::text::{
    chars_of, decimal_value, is_decimal, is_numeral, lines, parse_decimal, split_at_first,
    split_lines, split_once, views,
};
use vstd::prelude::*;

verus! {

#[derive(Debug, Clone)]
pub struct Sections {
    pub pairs: Vec<(u128, u128)>,
}

/// Why a line was refused.
#[derive(Debug, Clone, Copy, PartialEq, Eq)]
pub enum SectionsErrorKind {
    /// The line does not read `a-b,c-d` with four decimal numerals.
    MalformedLine,
    /// A section's number is above 127.
    SectionTooHigh,
    /// A range ends before it begins.
    EmptyRange,
}

/// A refused line: its number, the first line being line 1, and the reason.
#[derive(Debug, Clone, Copy, PartialEq, Eq)]
pub struct SectionsError {
    pub line: usize,
    pub kind: SectionsErrorKind,
}

/// How the two ranges of a pair may lie.
#[derive(Debug, Clone, Copy, PartialEq, Eq)]
pub enum Relation {
    /// One range holds every section of the other.
    Contained,
    /// The ranges share a section.
    Overlapping,
}

/// The mask of section `i` alone.
pub open spec fn bit(i: u32) -> u128 {
    1u128 << (i as u128)
}

/// The mask of the sections from `lo` to `hi`.
pub open spec fn range_mask(lo: u32, hi: u32) -> u128
    decreases hi,
{
    if hi < lo {
        0
    } else if hi == lo {
        bit(hi)
    } else {
        range_mask(lo, (hi - 1) as u32) | bit(hi)
    }
}

/// The number of a section that the numeral `s` stands for.
pub open spec fn section_of(s: Seq<char>) -> Result<u32, SectionsErrorKind> {
    if !is_decimal(s) {
        Err(SectionsErrorKind::MalformedLine)
    } else if decimal_value(s) > 127 {
        Err(SectionsErrorKind::SectionTooHigh)
    } else {
        Ok(decimal_value(s) as u32)
    }
}

/// The mask of the range that `s` stands for, which reads `a-b`.
pub open spec fn mask_of(s: Seq<char>) -> Result<u128, SectionsErrorKind> {
    match split_once(s, '-') {
        None => Err(SectionsErrorKind::MalformedLine),
        Some((first, last)) => match section_of(first) {
            Err(e) => Err(e),
            Ok(lo) => match section_of(last) {
                Err(e) => Err(e),
                Ok(hi) => if hi < lo {
                    Err(SectionsErrorKind::EmptyRange)
                } else {
                    Ok(range_mask(lo, hi))
                },
            },
        },
    }
}

/// The pair of masks that the line `s` stands for, which reads `a-b,c-d`.
pub open spec fn pair_of(s: Seq<char>) -> Result<(u128, u128), SectionsErrorKind> {
    match split_once(s, ',') {
        None => Err(SectionsErrorKind::MalformedLine),
        Some((left, right)) => match mask_of(left) {
            Err(e) => Err(e),
            Ok(a) => match mask_of(right) {
                Err(e) => Err(e),
                Ok(b) => Ok((a, b)),
            },
        },
    }
}

/// The pairs of the first `n` of the lines `ls`, or the first error among
/// them.
pub open spec fn pairs_of(ls: Seq<Seq<char>>, n: int) -> Result<Seq<(u128, u128)>, SectionsError>
    decreases n,
{
    if n <= 0 {
        Ok(Seq::empty())
    } else {
        match pairs_of(ls, n - 1) {
            Err(e) => Err(e),
            Ok(pairs) => match pair_of(ls[n - 1]) {
                Err(kind) => Err(SectionsError { line: n as usize, kind: kind }),
                Ok(p) => Ok(pairs.push(p)),
            },
        }
    }
}

/// What reading `text` gives.
pub open spec fn sections_of(text: Seq<char>) -> Result<Seq<(u128, u128)>, SectionsError> {
    pairs_of(lines(text), lines(text).len() as int)
}

/// Whether the masks of the pair `p` lie as `rel` says.
pub open spec fn related(p: (u128, u128), rel: Relation) -> bool {
    match rel {
        Relation::Contained => p.0 & p.1 == p.0 || p.0 & p.1 == p.1,
        Relation::Overlapping => p.0 & p.1 != 0,
    }
}

/// Those of the first `n` pairs that lie as `rel` says, in order.
pub open spec fn selected(pairs: Seq<(u128, u128)>, rel: Relation, n: int) -> Seq<(u128, u128)>
    decreases n,
{
    if n <= 0 {
        Seq::empty()
    } else if related(pairs[n - 1], rel) {
        selected(pairs, rel, n - 1).push(pairs[n - 1])
    } else {
        selected(pairs, rel, n - 1)
    }
}

/// The mask of the sections from `lo` to `hi`, written without recursion:
/// all bits up to `hi` that are not below `lo`.
pub open spec fn span(lo: u32, hi: u32) -> u128 {
    (u128::MAX >> ((127 - hi) as u128)) & (u128::MAX << (lo as u128))
}

/// The mask of a range is its span.
pub proof fn lemma_range_mask_is_span(lo: u32, hi: u32)
    requires
        lo <= hi <= 127,
    ensures
        range_mask(lo, hi) == span(lo, hi),
    decreases hi,
{
    let l = lo as u128;
    let h = hi as u128;
    if hi == lo {
        assert((u128::MAX >> ((127 - h) as u128)) & (u128::MAX << l) == 1u128 << h) by (bit_vector)
            requires
                l == h,
                h <= 127,
        ;
    } else {
        lemma_range_mask_is_span(lo, (hi - 1) as u32);
        let g = (hi - 1) as u128;
        assert(((u128::MAX >> ((127 - g) as u128)) & (u128::MAX << l)) | (1u128 << h) == (u128::MAX
            >> ((127 - h) as u128)) & (u128::MAX << l)) by (bit_vector)
            requires
                l < h,
                h <= 127,
                g == h - 1,
        ;
    }
}

/// The masks of two ranges share a bit where the ranges share a section,
/// and one mask holds the other where one range holds the other.
pub proof fn lemma_masks_tell_ranges(a: (u32, u32), b: (u32, u32))
    requires
        a.0 <= a.1 <= 127,
        b.0 <= b.1 <= 127,
    ensures
        related((range_mask(a.0, a.1), range_mask(b.0, b.1)), Relation::Overlapping) <==> (a.0
            <= b.1 && b.0 <= a.1),
        related((range_mask(a.0, a.1), range_mask(b.0, b.1)), Relation::Contained) <==> ((a.0
            <= b.0 && b.1 <= a.1) || (b.0 <= a.0 && a.1 <= b.1)),
{
    lemma_range_mask_is_span(a.0, a.1);
    lemma_range_mask_is_span(b.0, b.1);
    let al = a.0 as u128;
    let ah = a.1 as u128;
    let bl = b.0 as u128;
    let bh = b.1 as u128;
    let x = (u128::MAX >> ((127 - ah) as u128)) & (u128::MAX << al);
    let y = (u128::MAX >> ((127 - bh) as u128)) & (u128::MAX << bl);
    assert((x & y != 0) <==> (al <= bh && bl <= ah)) by (bit_vector)
        requires
            al <= ah <= 127,
            bl <= bh <= 127,
            x == (u128::MAX >> ((127 - ah) as u128)) & (u128::MAX << al),
            y == (u128::MAX >> ((127 - bh) as u128)) & (u128::MAX << bl),
    ;
    assert((x & y == x) <==> (bl <= al && ah <= bh)) by (bit_vector)
        requires
            al <= ah <= 127,
            bl <= bh <= 127,
            x == (u128::MAX >> ((127 - ah) as u128)) & (u128::MAX << al),
            y == (u128::MAX >> ((127 - bh) as u128)) & (u128::MAX << bl),
    ;
    assert((x & y == y) <==> (al <= bl && bh <= ah)) by (bit_vector)
        requires
            al <= ah <= 127,
            bl <= bh <= 127,
            x == (u128::MAX >> ((127 - ah) as u128)) & (u128::MAX << al),
            y == (u128::MAX >> ((127 - bh) as u128)) & (u128::MAX << bl),
    ;
}

/// Once a line is refused, the error stays.
pub proof fn lemma_pairs_error_stays(ls: Seq<Seq<char>>, k: int, n: int)
    requires
        k <= n,
        pairs_of(ls, k) is Err,
    ensures
        pairs_of(ls, n) == pairs_of(ls, k),
    decreases n - k,
{
    if k < n {
        lemma_pairs_error_stays(ls, k, n - 1);
    }
}

/// The mask of the sections from `lo` to `hi`.
pub fn mask_between(lo: u32, hi: u32) -> (m: u128)
    requires
        lo <= hi <= 127,
    ensures
        m == range_mask(lo, hi),
{
    let mut m: u128 = 1u128 << lo;
    let mut i: u32 = lo;
    while i < hi
        invariant
            lo <= i <= hi <= 127,
            m == range_mask(lo, i),
        decreases hi - i,
    {
        i += 1;
        m = m | (1u128 << i);
    }
    m
}

/// Reads the number of a section.
fn parse_section(s: &[char]) -> (r: Result<u32, SectionsErrorKind>)
    ensures
        r == section_of(s@),
        r is Ok ==> r->Ok_0 <= 127,
{
    match parse_decimal(s) {
        Some(n) => if n > 127 {
            Err(SectionsErrorKind::SectionTooHigh)
        } else {
            Ok(n as u32)
        },
        None => {
            if is_numeral(s) {
                Err(SectionsErrorKind::SectionTooHigh)
            } else {
                Err(SectionsErrorKind::MalformedLine)
            }
        },
    }
}

/// Reads a range, which reads `a-b`, into its mask.
pub fn parse_mask(s: &[char]) -> (r: Result<u128, SectionsErrorKind>)
    ensures
        r == mask_of(s@),
{
    match split_at_first(s, '-') {
        None => Err(SectionsErrorKind::MalformedLine),
        Some((first, last)) => {
            let lo = match parse_section(first.as_slice()) {
                Ok(lo) => lo,
                Err(e) => {
                    return Err(e);
                },
            };
            let hi = match parse_section(last.as_slice()) {
                Ok(hi) => hi,
                Err(e) => {
                    return Err(e);
                },
            };
            if hi < lo {
                Err(SectionsErrorKind::EmptyRange)
            } else {
                Ok(mask_between(lo, hi))
            }
        },
    }
}

/// Reads a line, which reads `a-b,c-d`, into its pair of masks.
pub fn parse_pair(s: &[char]) -> (r: Result<(u128, u128), SectionsErrorKind>)
    ensures
        r == pair_of(s@),
{
    match split_at_first(s, ',') {
        None => Err(SectionsErrorKind::MalformedLine),
        Some((left, right)) => {
            let a = match parse_mask(left.as_slice()) {
                Ok(a) => a,
                Err(e) => {
                    return Err(e);
                },
            };
            match parse_mask(right.as_slice()) {
                Ok(b) => Ok((a, b)),
                Err(e) => Err(e),
            }
        },
    }
}

impl Sections {
    /// Reads the pairs of ranges that `text` lists, a pair to a line.
    pub fn parse(text: &str) -> (r: Result<Sections, SectionsError>)
        ensures
            match sections_of(text@) {
                Ok(pairs) => r is Ok && r->Ok_0.pairs@ == pairs,
                Err(e) => r == Err::<Sections, SectionsError>(e),
            },
    {
        let chars = chars_of(text);
        let ls = split_lines(chars.as_slice());
        let ghost all = lines(text@);
        let mut pairs: Vec<(u128, u128)> = Vec::new();
        let mut k: usize = 0;
        while k < ls.len()
            invariant
                k <= ls@.len(),
                views(ls@) == all,
                all == lines(text@),
                pairs_of(all, k as int) == Ok::<Seq<(u128, u128)>, SectionsError>(pairs@),
            decreases ls@.len() - k,
        {
            assert(ls@[k as int]@ == all[k as int]);
            match parse_pair(ls[k].as_slice()) {
                Ok(p) => {
                    pairs.push(p);
                },
                Err(kind) => {
                    proof {
                        lemma_pairs_error_stays(all, k + 1, all.len() as int);
                    }
                    return Err(SectionsError { line: k + 1, kind: kind });
                },
            }
            k += 1;
        }
        Ok(Sections { pairs })
    }

    /// The pairs that lie as `rel` says, in order.
    pub fn select(&self, rel: Relation) -> (found: Vec<(u128, u128)>)
        ensures
            found@ == selected(self.pairs@, rel, self.pairs@.len() as int),
    {
        let mut found: Vec<(u128, u128)> = Vec::new();
        let mut i: usize = 0;
        while i < self.pairs.len()
            invariant
                i <= self.pairs@.len(),
                found@ == selected(self.pairs@, rel, i as int),
            decreases self.pairs@.len() - i,
        {
            let (a, b) = self.pairs[i];
            let c = a & b;
            let hit = match rel {
                Relation::Contained => c == a || c == b,
                Relation::Overlapping => c != 0,
            };
            if hit {
                found.push((a, b));
            }
            i += 1;
        }
        found
    }

    /// The pairs in which one range holds every section of the other.
    pub fn fully_contained(&self) -> (found: Vec<(u128, u128)>)
        ensures
            found@ == selected(self.pairs@, Relation::Contained, self.pairs@.len() as int),
    {
        self.select(Relation::Contained)
    }

    /// The pairs whose ranges share a section.
    pub fn overlapped(&self) -> (found: Vec<(u128, u128)>)
        ensures
            found@ == selected(self.pairs@, Relation::Overlapping, self.pairs@.len() as int),
    {
        self.select(Relation::Overlapping)
    }
}

} // verus!

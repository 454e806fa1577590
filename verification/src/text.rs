//! Splitting text into characters, lines and words, and reading decimal
//! numbers. Everything here works on sequences of characters; a `&str` is
//! turned into one by [`chars_of`].

use vstd::prelude::*;
use vstd::slice::slice_subrange;

verus! {

/// A set of characters that a scan runs over.
#[derive(Clone, Copy, Debug, PartialEq, Eq)]
pub enum CharClass {
    /// White space, the line feed included.
    Blank,
    /// Anything but white space.
    Word,
    /// Anything but the given character.
    Not(char),
}

/// White space: the characters that Unicode gives the property
/// `White_Space`. They are the tab, the line feed, the vertical tab, the
/// form feed and the carriage return (U+0009 to U+000D), the space, the
/// next line (U+0085), the no-break space (U+00A0), the Ogham space mark
/// (U+1680), the spaces from U+2000 to U+200A, the line and the paragraph
/// separator (U+2028, U+2029), the narrow no-break space (U+202F), the
/// medium mathematical space (U+205F) and the ideographic space (U+3000).
pub open spec fn is_blank(c: char) -> bool {
    ||| '\u{9}' <= c <= '\u{d}'
    ||| c == ' '
    ||| c == '\u{85}'
    ||| c == '\u{a0}'
    ||| c == '\u{1680}'
    ||| '\u{2000}' <= c <= '\u{200a}'
    ||| c == '\u{2028}'
    ||| c == '\u{2029}'
    ||| c == '\u{202f}'
    ||| c == '\u{205f}'
    ||| c == '\u{3000}'
}

/// Whether `c` belongs to the class `k`.
pub open spec fn in_class(k: CharClass, c: char) -> bool {
    match k {
        CharClass::Blank => is_blank(c),
        CharClass::Word => !is_blank(c),
        CharClass::Not(x) => c != x,
    }
}

/// The number of consecutive characters of class `k` that `s` holds from
/// position `from` on.
pub open spec fn run_len(s: Seq<char>, from: int, k: CharClass) -> nat
    decreases s.len() - from,
{
    if from < 0 || from >= s.len() || !in_class(k, s[from]) {
        0
    } else {
        1 + run_len(s, from + 1, k)
    }
}

/// One line's text: the characters between `from` and the line's end at
/// `end`, without the carriage return of a `\r\n` ending.
pub open spec fn line_body(s: Seq<char>, from: int, end: int) -> Seq<char> {
    if end < s.len() && from < end && s[end - 1] == '\r' {
        s.subrange(from, end - 1)
    } else {
        s.subrange(from, end)
    }
}

/// The lines of `s` that start at position `from` or later.
pub open spec fn lines_from(s: Seq<char>, from: int) -> Seq<Seq<char>>
    decreases s.len() - from,
{
    if from < 0 || from >= s.len() {
        Seq::empty()
    } else {
        let end = from + run_len(s, from, CharClass::Not('\n'));
        let rest = if end < s.len() {
            lines_from(s, end + 1)
        } else {
            Seq::empty()
        };
        seq![line_body(s, from, end)] + rest
    }
}

/// The lines of `s`. A line ends at a line feed or at the end of the text;
/// a carriage return just before the line feed is not part of the line, and
/// a line feed at the very end starts no further line.
pub open spec fn lines(s: Seq<char>) -> Seq<Seq<char>> {
    lines_from(s, 0)
}

/// The words of `s` that start at position `from` or later.
pub open spec fn words_from(s: Seq<char>, from: int) -> Seq<Seq<char>>
    decreases s.len() - from,
{
    let start = from + run_len(s, from, CharClass::Blank);
    if from < 0 || start >= s.len() {
        Seq::empty()
    } else {
        let end = start + run_len(s, start, CharClass::Word);
        let rest = if end < s.len() {
            words_from(s, end + 1)
        } else {
            Seq::empty()
        };
        seq![s.subrange(start, end)] + rest
    }
}

/// The words of `s`: its maximal runs of characters that are not white space.
pub open spec fn words(s: Seq<char>) -> Seq<Seq<char>> {
    words_from(s, 0)
}

/// What stands before the first `c` in `s` and what stands after it, where
/// `s` holds a `c`.
pub open spec fn split_once(s: Seq<char>, c: char) -> Option<(Seq<char>, Seq<char>)> {
    let at = run_len(s, 0, CharClass::Not(c)) as int;
    if at < s.len() {
        Some((s.subrange(0, at), s.subrange(at + 1, s.len() as int)))
    } else {
        None
    }
}

/// The views of a sequence of character vectors.
pub open spec fn views(v: Seq<Vec<char>>) -> Seq<Seq<char>> {
    v.map_values(|x: Vec<char>| x@)
}

/// A run ends where the text ends or at a character outside the class, and
/// holds characters of the class only.
pub proof fn lemma_run_len(s: Seq<char>, from: int, k: CharClass)
    requires
        0 <= from <= s.len(),
    ensures
        from + run_len(s, from, k) <= s.len(),
        from + run_len(s, from, k) < s.len() ==> !in_class(k, s[from + run_len(s, from, k)]),
        forall|i: int| from <= i < from + run_len(s, from, k) ==> in_class(k, #[trigger] s[i]),
    decreases s.len() - from,
{
    if from < s.len() && in_class(k, s[from]) {
        lemma_run_len(s, from + 1, k);
    }
}

/// The characters of `s`, in order.
pub fn chars_of(s: &str) -> (v: Vec<char>)
    ensures
        v@ == s@,
{
    let mut v: Vec<char> = Vec::new();
    for c in it: s.chars()
        invariant
            it.seq() == s@,
            v@ == it.seq().take(it.index()),
    {
        v.push(c);
    }
    v
}

/// Whether `c` is white space.
pub fn is_blank_char(c: char) -> (b: bool)
    ensures
        b == is_blank(c),
{
    (c >= '\u{9}' && c <= '\u{d}') || c == ' ' || c == '\u{85}' || c == '\u{a0}' || c
        == '\u{1680}' || (c >= '\u{2000}' && c <= '\u{200a}') || c == '\u{2028}' || c
        == '\u{2029}' || c == '\u{202f}' || c == '\u{205f}' || c == '\u{3000}'
}

/// Whether `c` belongs to the class `k`.
pub fn char_in_class(k: CharClass, c: char) -> (b: bool)
    ensures
        b == in_class(k, c),
{
    match k {
        CharClass::Blank => is_blank_char(c),
        CharClass::Word => !is_blank_char(c),
        CharClass::Not(x) => c != x,
    }
}

/// The position at which the run of class `k` that starts at `from` ends.
pub fn scan(s: &[char], from: usize, k: CharClass) -> (end: usize)
    requires
        from <= s@.len(),
    ensures
        end == from + run_len(s@, from as int, k),
        from <= end <= s@.len(),
{
    let mut i: usize = from;
    while i < s.len() && char_in_class(k, s[i])
        invariant
            from <= i <= s@.len(),
            from + run_len(s@, from as int, k) == i + run_len(s@, i as int, k),
        decreases s@.len() - i,
    {
        i += 1;
    }
    i
}

/// A copy of the characters of `s` from `from` up to `to`.
pub fn copy_range(s: &[char], from: usize, to: usize) -> (v: Vec<char>)
    requires
        from <= to <= s@.len(),
    ensures
        v@ == s@.subrange(from as int, to as int),
{
    let mut v: Vec<char> = Vec::new();
    let mut i: usize = from;
    while i < to
        invariant
            from <= i <= to <= s@.len(),
            v@ == s@.subrange(from as int, i as int),
        decreases to - i,
    {
        v.push(s[i]);
        i += 1;
        assert(v@ =~= s@.subrange(from as int, i as int));
    }
    v
}

/// Splits `s` at its first `c`.
pub fn split_at_first(s: &[char], c: char) -> (r: Option<(Vec<char>, Vec<char>)>)
    ensures
        match split_once(s@, c) {
            Some((before, after)) => r is Some && (r->Some_0).0@ == before && (r->Some_0).1@ == after,
            None => r is None,
        },
{
    let at = scan(s, 0, CharClass::Not(c));
    if at < s.len() {
        Some((copy_range(s, 0, at), copy_range(s, at + 1, s.len())))
    } else {
        None
    }
}

/// Splits `s` into its lines.
pub fn split_lines(s: &[char]) -> (out: Vec<Vec<char>>)
    ensures
        views(out@) == lines(s@),
{
    let mut out: Vec<Vec<char>> = Vec::new();
    let mut pos: usize = 0;
    assert(views(out@) =~= Seq::<Seq<char>>::empty());
    while pos < s.len()
        invariant
            pos <= s@.len(),
            views(out@) + lines_from(s@, pos as int) == lines(s@),
        decreases s@.len() - pos,
    {
        let end = scan(s, pos, CharClass::Not('\n'));
        let stop = if end < s.len() && pos < end && s[end - 1] == '\r' {
            end - 1
        } else {
            end
        };
        let line = copy_range(s, pos, stop);
        let next = if end < s.len() {
            end + 1
        } else {
            end
        };
        proof {
            let rest = lines_from(s@, next as int);
            assert(line@ == line_body(s@, pos as int, end as int));
            assert(lines_from(s@, pos as int) == seq![line@] + rest);
            assert(views(out@.push(line)) =~= views(out@).push(line@));
            assert(views(out@).push(line@) + rest =~= views(out@) + (seq![line@] + rest));
        }
        out.push(line);
        pos = next;
    }
    assert(views(out@) + Seq::<Seq<char>>::empty() =~= views(out@));
    out
}

/// Splits `s` into its words.
pub fn split_words(s: &[char]) -> (out: Vec<Vec<char>>)
    ensures
        views(out@) == words(s@),
{
    let mut out: Vec<Vec<char>> = Vec::new();
    let mut pos: usize = 0;
    assert(views(out@) =~= Seq::<Seq<char>>::empty());
    loop
        invariant_except_break
            pos <= s@.len(),
            views(out@) + words_from(s@, pos as int) == words(s@),
        ensures
            views(out@) == words(s@),
        decreases s@.len() - pos,
    {
        let start = scan(s, pos, CharClass::Blank);
        if start >= s.len() {
            assert(views(out@) + Seq::<Seq<char>>::empty() =~= views(out@));
            break;
        }
        let end = scan(s, start, CharClass::Word);
        let word = copy_range(s, start, end);
        proof {
            let rest = if end < s@.len() {
                words_from(s@, end + 1)
            } else {
                Seq::empty()
            };
            assert(words_from(s@, pos as int) == seq![word@] + rest);
            assert(views(out@.push(word)) =~= views(out@).push(word@));
            assert(views(out@).push(word@) + rest =~= views(out@) + (seq![word@] + rest));
        }
        out.push(word);
        if end >= s.len() {
            break;
        }
        pos = end + 1;
    }
    out
}

/// The number of bytes that `c` takes in UTF-8.
pub open spec fn utf8_len(c: char) -> int {
    if (c as u32) < 0x80 {
        1
    } else if (c as u32) < 0x800 {
        2
    } else if (c as u32) < 0x10000 {
        3
    } else {
        4
    }
}

/// The number of bytes that the first `n` characters of `s` take in UTF-8.
pub open spec fn byte_len(s: Seq<char>, n: int) -> int
    decreases n,
{
    if n <= 0 {
        0
    } else {
        byte_len(s, n - 1) + utf8_len(s[n - 1])
    }
}

/// No character takes more than 4 bytes, and none takes less than 1.
pub proof fn lemma_byte_len_bounds(s: Seq<char>, n: int)
    requires
        0 <= n,
    ensures
        n <= byte_len(s, n) <= 4 * n,
    decreases n,
{
    if n > 0 {
        lemma_byte_len_bounds(s, n - 1);
    }
}

/// The number of bytes that `c` takes in UTF-8.
pub fn utf8_len_of(c: char) -> (n: u128)
    ensures
        n == utf8_len(c),
{
    let code = c as u32;
    if code < 0x80 {
        1
    } else if code < 0x800 {
        2
    } else if code < 0x10000 {
        3
    } else {
        4
    }
}

/// The number of bytes that `s` takes in UTF-8.
pub fn byte_len_of(s: &[char]) -> (n: u128)
    ensures
        n == byte_len(s@, s@.len() as int),
{
    let mut n: u128 = 0;
    let mut i: usize = 0;
    while i < s.len()
        invariant
            i <= s@.len(),
            n == byte_len(s@, i as int),
        decreases s@.len() - i,
    {
        proof {
            lemma_byte_len_bounds(s@, i as int);
        }
        n = n + utf8_len_of(s[i]);
        i += 1;
    }
    n
}

/// Whether `c` is a decimal digit.
pub open spec fn is_digit(c: char) -> bool {
    '0' <= c <= '9'
}

/// The number that the digit `c` stands for.
pub open spec fn digit_value(c: char) -> int {
    c as int - '0' as int
}

/// Whether `s` is one digit or more, and nothing else.
pub open spec fn is_digits(s: Seq<char>) -> bool {
    s.len() > 0 && forall|i: int| 0 <= i < s.len() ==> is_digit(#[trigger] s[i])
}

/// The number that the digits `s` stand for.
pub open spec fn digits_value(s: Seq<char>) -> int
    decreases s.len(),
{
    if s.len() == 0 {
        0
    } else {
        10 * digits_value(s.drop_last()) + digit_value(s.last())
    }
}

/// The numeral `s` without its plus sign, where it has one.
pub open spec fn unsigned(s: Seq<char>) -> Seq<char> {
    if s.len() > 0 && s[0] == '+' {
        s.subrange(1, s.len() as int)
    } else {
        s
    }
}

/// Whether `s` is a decimal numeral: one digit or more, with or without a
/// plus sign before them, and nothing else.
pub open spec fn is_decimal(s: Seq<char>) -> bool {
    is_digits(unsigned(s))
}

/// The number that the decimal numeral `s` stands for.
pub open spec fn decimal_value(s: Seq<char>) -> int {
    digits_value(unsigned(s))
}

/// Digits are worth at least as much as each of their prefixes.
pub proof fn lemma_digits_prefix(s: Seq<char>, n: int)
    requires
        0 <= n <= s.len(),
        forall|i: int| 0 <= i < s.len() ==> is_digit(#[trigger] s[i]),
    ensures
        0 <= digits_value(s.take(n)) <= digits_value(s),
    decreases s.len() - n,
{
    if n == s.len() {
        assert(s.take(n) =~= s);
        lemma_digits_nonnegative(s);
    } else {
        lemma_digits_prefix(s.drop_last(), n);
        assert(s.drop_last().take(n) =~= s.take(n));
        assert(is_digit(s[s.len() - 1]));
    }
}

/// Digits stand for a number that is not negative.
pub proof fn lemma_digits_nonnegative(s: Seq<char>)
    requires
        forall|i: int| 0 <= i < s.len() ==> is_digit(#[trigger] s[i]),
    ensures
        0 <= digits_value(s),
    decreases s.len(),
{
    if s.len() > 0 {
        lemma_digits_nonnegative(s.drop_last());
        assert(is_digit(s[s.len() - 1]));
    }
}

/// The numeral `w` without its plus sign, where it has one.
pub fn without_plus(w: &[char]) -> (digits: &[char])
    ensures
        digits@ == unsigned(w@),
{
    if w.len() > 0 && w[0] == '+' {
        slice_subrange(w, 1, w.len())
    } else {
        w
    }
}

/// Whether `s` is one digit or more, and nothing else.
pub fn all_digits(s: &[char]) -> (b: bool)
    ensures
        b == is_digits(s@),
{
    if s.len() == 0 {
        return false;
    }
    let mut i: usize = 0;
    while i < s.len()
        invariant
            i <= s@.len(),
            forall|j: int| 0 <= j < i ==> is_digit(#[trigger] s@[j]),
        decreases s@.len() - i,
    {
        if s[i] < '0' || s[i] > '9' {
            return false;
        }
        i += 1;
    }
    true
}

/// Whether `s` is a decimal numeral.
pub fn is_numeral(s: &[char]) -> (b: bool)
    ensures
        b == is_decimal(s@),
{
    all_digits(without_plus(s))
}

/// Reads `w` as digits: the number they stand for where `w` is one digit
/// or more and the number fits, nothing otherwise.
pub fn parse_digits(w: &[char]) -> (r: Option<usize>)
    ensures
        r == if is_digits(w@) && digits_value(w@) <= usize::MAX {
            Some(digits_value(w@) as usize)
        } else {
            None
        },
        is_digits(w@) ==> 0 <= digits_value(w@),
{
    proof {
        if is_digits(w@) {
            lemma_digits_nonnegative(w@);
        }
    }
    if w.len() == 0 {
        return None;
    }
    let mut acc: usize = 0;
    let mut i: usize = 0;
    assert(w@.take(0) =~= Seq::<char>::empty());
    while i < w.len()
        invariant
            i <= w@.len(),
            w@.len() > 0,
            forall|j: int| 0 <= j < i ==> is_digit(#[trigger] w@[j]),
            acc == digits_value(w@.take(i as int)),
        decreases w@.len() - i,
    {
        let c = w[i];
        if c < '0' || c > '9' {
            return None;
        }
        let d: usize = (c as u32 - '0' as u32) as usize;
        proof {
            assert(w@.take(i + 1).drop_last() =~= w@.take(i as int));
            assert(w@.take(i + 1).last() == c);
            assert(digits_value(w@.take(i + 1)) == 10 * acc + d);
        }
        let next = match acc.checked_mul(10) {
            Some(m) => m.checked_add(d),
            None => None,
        };
        match next {
            Some(n) => {
                acc = n;
            },
            None => {
                proof {
                    if is_digits(w@) {
                        lemma_digits_prefix(w@, i + 1);
                    }
                }
                return None;
            },
        }
        i += 1;
    }
    assert(w@.take(i as int) =~= w@);
    Some(acc)
}

/// Reads `w` as a decimal numeral: the number it stands for where `w` is a
/// numeral and the number fits, nothing otherwise.
pub fn parse_decimal(w: &[char]) -> (r: Option<usize>)
    ensures
        r == if is_decimal(w@) && decimal_value(w@) <= usize::MAX {
            Some(decimal_value(w@) as usize)
        } else {
            None
        },
        is_decimal(w@) ==> 0 <= decimal_value(w@),
{
    parse_digits(without_plus(w))
}

/// Appends `c` to `s`, by `String::push`: the text afterwards is the text
/// before with `c` at its end.
#[verifier::external_body]
pub(crate) fn push_char(s: &mut String, c: char)
    ensures
        final(s)@ == old(s)@.push(c),
{
    s.push(c);
}

/// A string that holds the characters of `chars`.
pub fn string_of(chars: &[char]) -> (s: String)
    ensures
        s@ == chars@,
{
    let mut s = String::new();
    let mut i: usize = 0;
    while i < chars.len()
        invariant
            i <= chars@.len(),
            s@ == chars@.take(i as int),
        decreases chars@.len() - i,
    {
        push_char(&mut s, chars[i]);
        i += 1;
        assert(s@ =~= chars@.take(i as int));
    }
    assert(chars@.take(i as int) =~= chars@);
    s
}

/// Whether the characters of `w` are those of `lit`.
pub fn word_is(w: &[char], lit: &str) -> (b: bool)
    ensures
        b == (w@ == lit@),
{
    let l = chars_of(lit);
    same_chars(w, l.as_slice())
}

/// Whether `a` and `b` hold the same characters.
pub fn same_chars(a: &[char], b: &[char]) -> (r: bool)
    ensures
        r == (a@ == b@),
{
    if a.len() != b.len() {
        return false;
    }
    let mut i: usize = 0;
    while i < a.len()
        invariant
            i <= a@.len(),
            a@.len() == b@.len(),
            forall|j: int| 0 <= j < i ==> a@[j] == b@[j],
        decreases a@.len() - i,
    {
        if a[i] != b[i] {
            return false;
        }
        i += 1;
    }
    assert(a@ =~= b@);
    true
}

} // verus!

//! Finding the markers in a stream of characters: the positions at which
//! the characters just received are all different. The characters just
//! received are kept in a window, which takes each new character in at its
//! front and lets the oldest go at its back.

use crate::text::chars_of;
use std::collections::VecDeque;
use vstd::prelude::*;

verus! {

/// A stream of characters.
#[derive(Debug)]
pub struct Signal {
    pub data: Vec<char>,
}

/// The `n` characters of `s` that end just before position `p` are all
/// different.
pub open spec fn distinct_run(s: Seq<char>, p: int, n: int) -> bool {
    forall|i: int, j: int| p - n <= i < j < p ==> s[i] != s[j]
}

/// Position `p` is a marker: at least `n` characters have arrived, and the
/// last `n` of them are all different.
pub open spec fn is_marker(s: Seq<char>, p: int, n: int) -> bool {
    n <= p <= s.len() && distinct_run(s, p, n)
}

/// The markers for runs of `n`, which is 1 or more, among the positions up
/// to `upto`, in rising order.
pub open spec fn markers_upto(s: Seq<char>, n: int, upto: int) -> Seq<usize>
    decreases upto,
{
    if upto < n || upto < 1 {
        Seq::empty()
    } else if is_marker(s, upto, n) {
        markers_upto(s, n, upto - 1).push(upto as usize)
    } else {
        markers_upto(s, n, upto - 1)
    }
}

/// Every position that `markers_upto` lists is a marker, and the positions
/// rise.
pub proof fn lemma_markers_sound(s: Seq<char>, n: int, upto: int)
    requires
        upto <= usize::MAX,
    ensures
        forall|k: int|
            0 <= k < markers_upto(s, n, upto).len() ==> {
                &&& is_marker(s, #[trigger] markers_upto(s, n, upto)[k] as int, n)
                &&& markers_upto(s, n, upto)[k] <= upto
            },
        forall|k: int, l: int|
            0 <= k < l < markers_upto(s, n, upto).len() ==> markers_upto(s, n, upto)[k]
                < markers_upto(s, n, upto)[l],
    decreases upto,
{
    if upto < n || upto < 1 {
    } else {
        let prev = markers_upto(s, n, upto - 1);
        let all = markers_upto(s, n, upto);
        lemma_markers_sound(s, n, upto - 1);
        assert forall|k: int| 0 <= k < all.len() implies {
            &&& is_marker(s, #[trigger] all[k] as int, n)
            &&& all[k] <= upto
        } by {
            if k < prev.len() {
                assert(all[k] == prev[k]);
            }
        }
        assert forall|k: int, l: int| 0 <= k < l < all.len() implies all[k] < all[l] by {
            assert(all[k] == prev[k]);
            if l < prev.len() {
                assert(all[l] == prev[l]);
            }
        }
    }
}

/// Every marker up to `upto` is listed.
pub proof fn lemma_markers_complete(s: Seq<char>, n: int, upto: int, p: int)
    requires
        1 <= n,
        0 <= p <= upto <= usize::MAX,
        is_marker(s, p, n),
    ensures
        markers_upto(s, n, upto).contains(p as usize),
    decreases upto,
{
    if p == upto {
        let m = markers_upto(s, n, upto);
        assert(m[m.len() - 1] == p as usize);
    } else if !(upto < n) {
        lemma_markers_complete(s, n, upto - 1, p);
        let prev = markers_upto(s, n, upto - 1);
        let k = choose|k: int| 0 <= k < prev.len() && prev[k] == p as usize;
        assert(markers_upto(s, n, upto)[k] == p as usize);
    }
}

impl Signal {
    /// The stream that holds the characters of `text`.
    pub fn parse(text: &str) -> (s: Signal)
        ensures
            s.data@ == text@,
    {
        Signal { data: chars_of(text) }
    }

    /// The markers for runs of `run_length`: each position, counted from 1,
    /// at which the last `run_length` characters are all different, in
    /// rising order. The run is one character long at least, and the
    /// stream holds all characters of a run but one, or more.
    pub fn markers(&self, run_length: usize) -> (found: Vec<usize>)
        requires
            run_length >= 1,
            run_length - 1 <= self.data@.len(),
        ensures
            found@ == markers_upto(self.data@, run_length as int, self.data@.len() as int),
    {
        let n = self.data.len();
        let mut found: Vec<usize> = Vec::new();
        // The window holds the last characters received, the latest first.
        let mut kernel: VecDeque<char> = VecDeque::new();
        let mut i: usize = 0;
        while i < run_length - 1
            invariant
                i <= run_length - 1 <= n,
                n == self.data@.len(),
                is_window(kernel@, self.data@, i as int, i as int),
            decreases run_length - 1 - i,
        {
            kernel.push_front(self.data[i]);
            i += 1;
        }
        assert(markers_upto(self.data@, run_length as int, i as int) =~= Seq::<usize>::empty());
        while i < n
            invariant
                1 <= run_length,
                run_length - 1 <= i <= n,
                n == self.data@.len(),
                is_window(kernel@, self.data@, i as int, run_length - 1),
                found@ == markers_upto(self.data@, run_length as int, i as int),
            decreases n - i,
        {
            kernel.push_front(self.data[i]);
            assert(is_window(kernel@, self.data@, i + 1, run_length as int));
            let distinct = all_different(&kernel);
            proof {
                lemma_window_distinct(kernel@, self.data@, i + 1, run_length as int);
            }
            if distinct {
                found.push(i + 1);
            }
            kernel.pop_back();
            i += 1;
        }
        found
    }
}

/// The window `w` holds the `n` characters of `s` that end just before
/// position `p`, the latest first.
pub open spec fn is_window(w: Seq<char>, s: Seq<char>, p: int, n: int) -> bool {
    &&& w.len() == n
    &&& 0 <= n <= p <= s.len()
    &&& forall|j: int| 0 <= j < n ==> #[trigger] w[j] == s[p - 1 - j]
}

/// The characters of `w` are all different.
pub open spec fn different(w: Seq<char>) -> bool {
    forall|a: int, b: int| 0 <= a < b < w.len() ==> w[a] != w[b]
}

/// The characters of a window are all different where those of the run
/// that it holds are.
pub proof fn lemma_window_distinct(w: Seq<char>, s: Seq<char>, p: int, n: int)
    requires
        is_window(w, s, p, n),
    ensures
        different(w) == distinct_run(s, p, n),
{
    if different(w) {
        assert forall|i: int, j: int| p - n <= i < j < p implies s[i] != s[j] by {
            assert(w[p - 1 - j] == s[j]);
            assert(w[p - 1 - i] == s[i]);
        }
    }
    if distinct_run(s, p, n) {
        assert forall|a: int, b: int| 0 <= a < b < w.len() implies w[a] != w[b] by {
            assert(w[a] == s[p - 1 - a]);
            assert(w[b] == s[p - 1 - b]);
        }
    }
}

/// Whether the characters of `w` are all different.
pub fn all_different(w: &VecDeque<char>) -> (b: bool)
    ensures
        b == different(w@),
{
    let n = w.len();
    let mut i: usize = 0;
    while i < n
        invariant
            i <= n,
            n == w@.len(),
            forall|a: int, b: int| 0 <= a < i && a < b < n ==> w@[a] != w@[b],
        decreases n - i,
    {
        let mut j: usize = i + 1;
        while j < n
            invariant
                i < j <= n,
                n == w@.len(),
                forall|b: int| i < b < j ==> w@[i as int] != w@[b],
            decreases n - j,
        {
            if w[i] == w[j] {
                return false;
            }
            j += 1;
        }
        i += 1;
    }
    true
}

} // verus!

//! Questions about a tree whose sizes have been calculated.

use crate::filesystem::model::{
    aggregated, files_total, lemma_effective_size_bounded, lemma_root_holds_files_total,
    lemma_root_size_is_files_total, sized, well_formed,
};
use crate::filesystem::parse::{listed_total, parsed, ParseError};
use crate::text::lines;
use crate::filesystem::{Filesystem, NodeView};
use vstd::prelude::*;

verus! {

/// Why a question has no answer.
#[derive(Debug, Clone, Copy, PartialEq, Eq)]
pub enum QueryError {
    /// No directory is large enough to free the space that is needed.
    NoDirectoryLargeEnough,
}

/// The sizes of the directories among the first `n` nodes that hold at most
/// `limit`, in the order of the arena.
pub open spec fn small_dir_sizes(a: Seq<NodeView>, limit: usize, n: int) -> Seq<usize>
    decreases n,
{
    if n <= 0 {
        Seq::empty()
    } else if a[n - 1].is_dir() && a[n - 1].size <= limit {
        small_dir_sizes(a, limit, n - 1).push(a[n - 1].size)
    } else {
        small_dir_sizes(a, limit, n - 1)
    }
}

/// The sum of the sizes of the directories among the first `n` nodes that
/// hold at most `limit`.
pub open spec fn small_dirs_sum(a: Seq<NodeView>, limit: usize, n: int) -> int
    decreases n,
{
    if n <= 0 {
        0
    } else if a[n - 1].is_dir() && a[n - 1].size <= limit {
        small_dirs_sum(a, limit, n - 1) + a[n - 1].size
    } else {
        small_dirs_sum(a, limit, n - 1)
    }
}

/// The space that has to be freed so that `required` is free on a disk of
/// `capacity` of which the root's size is in use. Nothing has to be freed
/// where this is zero or less.
pub open spec fn space_needed(a: Seq<NodeView>, capacity: usize, required: usize) -> int {
    required - (capacity - a[0].size)
}

/// Node `i` is a directory that holds at least `needed`.
pub open spec fn is_candidate(a: Seq<NodeView>, needed: int, i: int) -> bool {
    0 <= i < a.len() && a[i].is_dir() && a[i].size >= needed
}

/// Candidate `i` is to be preferred to candidate `j`, or is `j`: it is
/// smaller, or as large and not later in the arena.
pub open spec fn no_worse(a: Seq<NodeView>, i: int, j: int) -> bool {
    a[i].size < a[j].size || (a[i].size == a[j].size && i <= j)
}

/// Node `i` is the smallest of the directories that hold at least
/// `needed`, and the first of them in the arena among those of its size.
pub open spec fn is_smallest_candidate(a: Seq<NodeView>, needed: int, i: int) -> bool {
    &&& is_candidate(a, needed, i)
    &&& forall|j: int| #[trigger] is_candidate(a, needed, j) ==> no_worse(a, i, j)
}

/// The sum over the small directories is never negative and does not
/// shrink when the limit grows.
pub proof fn lemma_small_dirs_sum_monotone(a: Seq<NodeView>, low: usize, high: usize, n: int)
    requires
        low <= high,
    ensures
        0 <= small_dirs_sum(a, low, n) <= small_dirs_sum(a, high, n),
    decreases n,
{
    if n > 0 {
        lemma_small_dirs_sum_monotone(a, low, high, n - 1);
    }
}

/// There is at most one smallest candidate: the question which directory
/// to delete has one answer.
pub proof fn lemma_smallest_candidate_unique(a: Seq<NodeView>, needed: int, i: int, j: int)
    requires
        is_smallest_candidate(a, needed, i),
        is_smallest_candidate(a, needed, j),
    ensures
        i == j,
{
    assert(no_worse(a, i, j));
    assert(no_worse(a, j, i));
}

/// The sum over the small directories among the first `n` nodes is at most
/// `n` times the largest size there is.
proof fn lemma_small_dirs_sum_bound(a: Seq<NodeView>, limit: usize, n: int)
    requires
        0 <= n,
    ensures
        0 <= small_dirs_sum(a, limit, n) <= n * usize::MAX,
    decreases n,
{
    if n > 0 {
        lemma_small_dirs_sum_bound(a, limit, n - 1);
        assert((n - 1) * usize::MAX + usize::MAX == n * usize::MAX) by (nonlinear_arith);
    }
}

/// A tree whose sizes have been calculated. It cannot be changed any more.
#[derive(Debug)]
pub struct SizedFilesystem {
    fs: Filesystem,
}

impl SizedFilesystem {
    #[verifier::type_invariant]
    spec fn inv(&self) -> bool {
        self.fs.wf() && sized(self.fs.nodes())
    }

    /// The values of the nodes.
    pub closed spec fn nodes(&self) -> Seq<NodeView> {
        self.fs.nodes()
    }

    /// The current directory, as the tree had it when its sizes were
    /// calculated.
    pub closed spec fn pointer(&self) -> usize {
        self.fs.pointer
    }

    /// The tree, to read: it is well formed and every directory holds its
    /// size.
    pub fn filesystem(&self) -> (fs: &Filesystem)
        ensures
            fs.nodes() == self.nodes(),
            fs.pointer == self.pointer(),
            fs.wf(),
            sized(fs.nodes()),
    {
        proof {
            use_type_invariant(self);
        }
        &self.fs
    }

    /// The size of the root: the sum of the sizes of all files.
    pub fn root_size(&self) -> (total: usize)
        ensures
            total == self.nodes()[0].size,
            total == files_total(self.nodes(), self.nodes().len() as int),
    {
        proof {
            use_type_invariant(self);
            lemma_root_holds_files_total(self.fs.nodes());
        }
        self.fs.arena[0].size
    }

    /// The sum of the sizes of all directories, the root included, that
    /// hold at most `threshold`.
    pub fn sum_small_dirs(&self, threshold: usize) -> (sum: u128)
        ensures
            sum == small_dirs_sum(self.nodes(), threshold, self.nodes().len() as int),
    {
        let ghost a = self.fs.nodes();
        let mut sum: u128 = 0;
        let mut i: usize = 0;
        while i < self.fs.arena.len()
            invariant
                a == self.fs.nodes(),
                i <= a.len(),
                a.len() == self.fs.arena@.len(),
                sum == small_dirs_sum(a, threshold, i as int),
            decreases a.len() - i,
        {
            let node = &self.fs.arena[i];
            assert(node@ == a[i as int]);
            if node.is_dir() && node.size <= threshold {
                proof {
                    lemma_small_dirs_sum_bound(a, threshold, i + 1);
                    assert((i + 1) * usize::MAX <= u128::MAX) by (nonlinear_arith)
                        requires
                            i + 1 <= usize::MAX,
                            usize::MAX <= u64::MAX,
                    ;
                }
                sum = sum + node.size as u128;
            }
            i += 1;
        }
        sum
    }

    /// The directory to delete so that `required_free` is free on a disk of
    /// `total_capacity`: the smallest of those that are large enough, and
    /// among several of that size the first in the arena. Where enough is
    /// free already, none.
    pub fn smallest_dir_to_free(&self, total_capacity: usize, required_free: usize) -> (r: Result<
        Option<usize>,
        QueryError,
    >)
        ensures
            match r {
                Ok(None) => space_needed(self.nodes(), total_capacity, required_free) <= 0,
                Ok(Some(i)) => {
                    &&& space_needed(self.nodes(), total_capacity, required_free) > 0
                    &&& is_smallest_candidate(
                        self.nodes(),
                        space_needed(self.nodes(), total_capacity, required_free),
                        i as int,
                    )
                },
                Err(_) => {
                    &&& space_needed(self.nodes(), total_capacity, required_free) > 0
                    &&& forall|j: int|
                        !is_candidate(
                            self.nodes(),
                            space_needed(self.nodes(), total_capacity, required_free),
                            j,
                        )
                },
            },
    {
        proof {
            use_type_invariant(self);
        }
        let ghost a = self.fs.nodes();
        let used = self.fs.arena[0].size as u128;
        assert(self.fs.arena@[0]@ == a[0]);
        if required_free as u128 + used <= total_capacity as u128 {
            return Ok(None);
        }
        let needed: u128 = required_free as u128 + used - total_capacity as u128;
        let mut best: Option<usize> = None;
        let mut i: usize = 0;
        while i < self.fs.arena.len()
            invariant
                a == self.fs.nodes(),
                i <= a.len(),
                a.len() == self.fs.arena@.len(),
                needed == space_needed(a, total_capacity, required_free),
                match best {
                    Some(b) => {
                        &&& b < i
                        &&& is_candidate(a, needed as int, b as int)
                        &&& forall|j: int|
                            0 <= j < i && #[trigger] is_candidate(a, needed as int, j) ==> no_worse(
                                a,
                                b as int,
                                j,
                            )
                    },
                    None => forall|j: int| 0 <= j < i ==> !is_candidate(a, needed as int, j),
                },
            decreases a.len() - i,
        {
            let node = &self.fs.arena[i];
            assert(node@ == a[i as int]);
            if node.is_dir() && node.size as u128 >= needed {
                let better = match best {
                    Some(b) => {
                        assert(self.fs.arena@[b as int]@ == a[b as int]);
                        node.size < self.fs.arena[b].size
                    },
                    None => true,
                };
                if better {
                    best = Some(i);
                }
            }
            i += 1;
        }
        match best {
            Some(b) => Ok(Some(b)),
            None => Err(QueryError::NoDirectoryLargeEnough),
        }
    }
}

impl SizedFilesystem {
    /// Reads the record `text` into a tree and calculates its sizes. The
    /// root then holds the sum of the sizes that the lines of the record
    /// list for files, however the directories are nested.
    pub fn parse(text: &str) -> (r: Result<SizedFilesystem, ParseError>)
        ensures
            match parsed(text@) {
                Ok(st) => {
                    &&& r is Ok
                    &&& r->Ok_0.nodes() == aggregated(st.nodes)
                    &&& r->Ok_0.pointer() == st.cursor
                    &&& r->Ok_0.nodes()[0].size == listed_total(
                        lines(text@),
                        lines(text@).len() as int,
                    )
                },
                Err(e) => r == Err::<SizedFilesystem, ParseError>(e),
            },
    {
        match Filesystem::parse(text) {
            Ok(fs) => {
                proof {
                    lemma_root_size_is_files_total(fs.nodes());
                    lemma_effective_size_bounded(fs.nodes(), 0);
                }
                Ok(fs.aggregate())
            },
            Err(e) => Err(e),
        }
    }
}

impl Filesystem {
    /// Calculates the sizes and hands the tree on for questions.
    pub fn aggregate(self) -> (s: SizedFilesystem)
        requires
            self.wf(),
        ensures
            s.nodes() == aggregated(self.nodes()),
            s.pointer() == self.pointer,
            well_formed(s.nodes()),
            sized(s.nodes()),
    {
        let mut fs = self;
        fs.calculate_size();
        SizedFilesystem { fs }
    }

    /// The sizes of the directories that hold at most `greater_than`, in
    /// the order of the arena.
    pub fn dirs_up_to(&self, greater_than: usize) -> (sizes: Vec<usize>)
        ensures
            sizes@ == small_dir_sizes(self.nodes(), greater_than, self.arena@.len() as int),
    {
        let ghost a = self.nodes();
        let mut sizes: Vec<usize> = Vec::new();
        let mut i: usize = 0;
        while i < self.arena.len()
            invariant
                a == self.nodes(),
                i <= a.len(),
                a.len() == self.arena@.len(),
                sizes@ == small_dir_sizes(a, greater_than, i as int),
            decreases a.len() - i,
        {
            let node = &self.arena[i];
            assert(node@ == a[i as int]);
            if node.size <= greater_than && node.is_dir() {
                sizes.push(node.size);
            }
            i += 1;
        }
        sizes
    }
}

} // verus!

//! Calculating the sizes of directories.

use crate::filesystem::model::{
    aggregated, aggregated_under, children_sum, dir_size, files_total, lemma_aggregated_sized,
    lemma_aggregated_under_root, lemma_child_of, lemma_children_ready,
    lemma_children_sum_monotone, lemma_effective_size_bounded, lemma_not_under_before,
    lemma_root_size_is_files_total, linked, sized, tree_shaped, under, well_formed, with_size,
};
use crate::filesystem::{arena_view, Filesystem, Node};
use vstd::prelude::*;

verus! {

/// For each node, whether it is `top` or lies below it.
fn mark_under(arena: &[Node], top: usize) -> (marks: Vec<bool>)
    requires
        tree_shaped(arena_view(arena@)),
        top < arena@.len(),
    ensures
        marks@.len() == arena@.len(),
        forall|i: int|
            0 <= i < marks@.len() ==> #[trigger] marks@[i] == under(arena_view(arena@), top as int, i),
{
    let ghost a = arena_view(arena@);
    let mut marks: Vec<bool> = Vec::new();
    let mut i: usize = 0;
    while i < arena.len()
        invariant
            a == arena_view(arena@),
            tree_shaped(a),
            i <= arena@.len(),
            marks@.len() == i,
            forall|j: int| 0 <= j < i ==> #[trigger] marks@[j] == under(a, top as int, j),
        decreases arena@.len() - i,
    {
        let below = match arena[i].parent {
            Some(p) => {
                proof {
                    if i >= 1 {
                        assert(linked(a, i as int));
                    }
                }
                i >= 1 && marks[p]
            },
            None => false,
        };
        marks.push(i == top || below);
        i += 1;
    }
    marks
}

/// The sum of what the children of directory `d` count for, where each
/// child that is a directory holds its size already.
fn sum_children(arena: &[Node], d: usize) -> (total: usize)
    requires
        well_formed(arena_view(arena@)),
        d < arena@.len(),
        arena_view(arena@)[d as int].is_dir(),
        forall|j: int|
            0 <= j < arena_view(arena@)[d as int].children().len() ==> {
                let c = #[trigger] arena_view(arena@)[d as int].children()[j] as int;
                arena_view(arena@)[c].is_dir() ==> arena_view(arena@)[c].size == dir_size(
                    arena_view(arena@),
                    c,
                )
            },
    ensures
        total == dir_size(arena_view(arena@), d as int),
{
    let ghost a = arena_view(arena@);
    let children = arena[d].data.children();
    let mut total: usize = 0;
    let mut k: usize = 0;
    while k < children.len()
        invariant
            a == arena_view(arena@),
            well_formed(a),
            d < a.len(),
            a[d as int].is_dir(),
            children@ == a[d as int].children(),
            k <= children@.len(),
            total == children_sum(a, d as int, k as int),
            forall|j: int|
                0 <= j < a[d as int].children().len() ==> {
                    let c = #[trigger] a[d as int].children()[j] as int;
                    a[c].is_dir() ==> a[c].size == dir_size(a, c)
                },
        decreases children@.len() - k,
    {
        let c = children[k];
        proof {
            lemma_child_of(a, d as int, k as int);
            assert(c == a[d as int].children()[k as int]);
            assert(children_sum(a, d as int, k + 1) == total + a[c as int].size);
            lemma_children_sum_monotone(a, d as int, k + 1, children@.len() as int);
            lemma_effective_size_bounded(a, d as int);
        }
        total = total + arena[c].size;
        k += 1;
    }
    total
}

impl Filesystem {
    /// Calculates the size of every directory that lies below the directory
    /// `pointer`, writes each into its node, and returns the size of
    /// `pointer` itself, which it does not write.
    pub fn size(arena: &mut [Node], pointer: usize) -> (total: usize)
        requires
            well_formed(arena_view(old(arena)@)),
            pointer < old(arena)@.len(),
            arena_view(old(arena)@)[pointer as int].is_dir(),
        ensures
            total == dir_size(arena_view(old(arena)@), pointer as int),
            arena_view(final(arena)@) == aggregated_under(arena_view(old(arena)@), pointer as int),
    {
        let ghost a = arena_view(arena@);
        let marks = mark_under(arena, pointer);
        let mut i: usize = arena.len();
        while i > pointer + 1
            invariant
                a == arena_view(old(arena)@),
                well_formed(a),
                pointer < i <= a.len(),
                arena@.len() == a.len(),
                marks@.len() == a.len(),
                forall|j: int|
                    0 <= j < marks@.len() ==> #[trigger] marks@[j] == under(a, pointer as int, j),
                forall|j: int|
                    0 <= j < i ==> #[trigger] arena_view(arena@)[j] == a[j],
                forall|j: int|
                    i <= j < a.len() ==> #[trigger] arena_view(arena@)[j] == aggregated_under(
                        a,
                        pointer as int,
                    )[j],
            decreases i,
        {
            i -= 1;
            if marks[i] && arena[i].is_dir() {
                let ghost cur = arena_view(arena@);
                proof {
                    assert(marks@[i as int]);
                    lemma_children_ready(a, cur, pointer as int, i as int);
                }
                let s = sum_children(arena, i);
                arena[i].size = s;
                proof {
                    assert forall|j: int| 0 <= j < i implies #[trigger] arena_view(arena@)[j]
                        == a[j] by {
                        assert(cur[j] == a[j]);
                    }
                    assert forall|j: int| i <= j < a.len() implies #[trigger] arena_view(
                        arena@,
                    )[j] == aggregated_under(a, pointer as int)[j] by {
                        if j > i {
                            assert(cur[j] == aggregated_under(a, pointer as int)[j]);
                        } else {
                            assert(cur[j] == a[j]);
                        }
                    }
                }
            }
        }
        proof {
            let cur = arena_view(arena@);
            lemma_children_ready(a, cur, pointer as int, pointer as int);
            assert forall|j: int| 0 <= j < a.len() implies cur[j] == aggregated_under(
                a,
                pointer as int,
            )[j] by {
                if j <= pointer {
                    assert(arena_view(arena@)[j] == a[j]);
                    if j < pointer {
                        lemma_not_under_before(a, pointer as int, j);
                    }
                } else {
                    assert(arena_view(arena@)[j] == aggregated_under(a, pointer as int)[j]);
                }
            }
            assert(cur =~= aggregated_under(a, pointer as int));
        }
        sum_children(arena, pointer)
    }

    /// Calculates the size of every directory and writes each into its
    /// node. Afterwards every directory holds the sum of what its children
    /// hold, and the root holds the sum of the sizes of all files.
    pub fn calculate_size(&mut self)
        requires
            old(self).wf(),
        ensures
            final(self).nodes() == aggregated(old(self).nodes()),
            final(self).pointer == old(self).pointer,
            final(self).wf(),
            sized(final(self).nodes()),
            final(self).nodes()[0].size == files_total(
                old(self).nodes(),
                old(self).arena@.len() as int,
            ),
    {
        let ghost a = self.nodes();
        let total = Self::size(self.arena.as_mut_slice(), 0);
        assert(self.nodes() == aggregated_under(a, 0));
        assert(self.nodes().len() == self.arena@.len());
        let ghost mid = self.arena@;
        self.arena[0].size = total;
        proof {
            lemma_aggregated_under_root(a);
            lemma_effective_size_bounded(a, 0);
            assert forall|j: int| 0 <= j < a.len() implies self.nodes()[j] == aggregated_under(
                a,
                0,
            ).update(0, with_size(a[0], dir_size(a, 0)))[j] by {
                assert(arena_view(mid)[j] == aggregated_under(a, 0)[j]);
                if j != 0 {
                    assert(self.arena@[j] == mid[j]);
                }
            }
            assert(self.nodes() =~= aggregated_under(a, 0).update(
                0,
                with_size(a[0], dir_size(a, 0)),
            ));
            lemma_aggregated_sized(a);
            lemma_root_size_is_files_total(a);
        }
    }
}

} // verus!

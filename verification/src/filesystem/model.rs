//! The mathematical model of the tree: when an arena is well formed, what a
//! directory's size is, and how the sizes relate to the files.

use crate::filesystem::NodeView;
use vstd::prelude::*;

verus! {

/// The indices below `n` of the nodes whose parent is `d`, in rising order.
pub open spec fn kids(a: Seq<NodeView>, d: usize, n: int) -> Seq<usize>
    decreases n,
{
    if n <= 0 {
        Seq::empty()
    } else if a[n - 1].parent == Some(d) {
        kids(a, d, n - 1).push((n - 1) as usize)
    } else {
        kids(a, d, n - 1)
    }
}

/// Node `i` has a parent, which comes before it and is a directory.
pub open spec fn linked(a: Seq<NodeView>, i: int) -> bool {
    match a[i].parent {
        Some(p) => p < i && a[p as int].is_dir(),
        None => false,
    }
}

/// The children that node `d` lists are the nodes whose parent is `d`, in
/// the order of their creation.
pub open spec fn listed(a: Seq<NodeView>, d: int) -> bool {
    a[d].children() == kids(a, d as usize, a.len() as int)
}

/// The sum of the sizes of the files among the first `n` nodes.
pub open spec fn files_total(a: Seq<NodeView>, n: int) -> int
    decreases n,
{
    if n <= 0 {
        0
    } else {
        files_total(a, n - 1) + if a[n - 1].is_dir() {
            0
        } else {
            a[n - 1].size as int
        }
    }
}

/// The links of a tree: node 0 is the root directory `/` and has no parent;
/// every other node has a parent before it, which is a directory; and each
/// node lists as its children exactly the nodes whose parent it is.
pub open spec fn tree_shaped(a: Seq<NodeView>) -> bool {
    &&& 1 <= a.len() <= usize::MAX
    &&& a[0].parent is None
    &&& a[0].is_dir()
    &&& a[0].name() == "/"@
    &&& forall|i: int| 1 <= i < a.len() ==> #[trigger] linked(a, i)
    &&& forall|d: int| 0 <= d < a.len() ==> #[trigger] listed(a, d)
}

/// A well-formed arena is a tree whose files, taken together, have a size
/// that a `usize` holds.
pub open spec fn well_formed(a: Seq<NodeView>) -> bool {
    &&& tree_shaped(a)
    &&& files_total(a, a.len() as int) <= usize::MAX
}

/// The sum of the effective sizes of the first `k` children of node `d`: a
/// child that is a file counts with its size, a child that is a directory
/// with the sum over all of its own children.
pub open spec fn children_sum(a: Seq<NodeView>, d: int, k: int) -> int
    decreases a.len() - d, k,
{
    if d < 0 || d >= a.len() || k <= 0 || k > a[d].children().len() {
        0
    } else {
        let c = a[d].children()[k - 1] as int;
        let rest = children_sum(a, d, k - 1);
        if d < c < a.len() {
            rest + if a[c].is_dir() {
                children_sum(a, c, a[c].children().len() as int)
            } else {
                a[c].size as int
            }
        } else {
            rest
        }
    }
}

/// The size of directory `d`: the sum of the effective sizes of its children.
pub open spec fn dir_size(a: Seq<NodeView>, d: int) -> int {
    children_sum(a, d, a[d].children().len() as int)
}

/// What node `i` counts for in its parent: a file's size, a directory's
/// [`dir_size`].
pub open spec fn effective_size(a: Seq<NodeView>, i: int) -> int {
    if a[i].is_dir() {
        dir_size(a, i)
    } else {
        a[i].size as int
    }
}

/// Every directory's `size` field holds its [`dir_size`].
pub open spec fn sized(a: Seq<NodeView>) -> bool {
    forall|d: int| 0 <= d < a.len() && (#[trigger] a[d]).is_dir() ==> a[d].size == dir_size(a, d)
}

/// Two arenas that differ at most in the `size` fields of directories.
pub open spec fn same_shape(a: Seq<NodeView>, b: Seq<NodeView>) -> bool {
    &&& a.len() == b.len()
    &&& forall|i: int|
        0 <= i < a.len() ==> {
            &&& (#[trigger] a[i]).parent == b[i].parent
            &&& a[i].data == b[i].data
            &&& !a[i].is_dir() ==> a[i].size == b[i].size
        }
}

/// Node `i` with the size `size`.
pub open spec fn with_size(node: NodeView, size: int) -> NodeView {
    NodeView { parent: node.parent, data: node.data, size: size as usize }
}

/// The arena `a` with the size of every directory written into its node.
pub open spec fn aggregated(a: Seq<NodeView>) -> Seq<NodeView> {
    Seq::new(
        a.len(),
        |i: int|
            if a[i].is_dir() {
                with_size(a[i], dir_size(a, i))
            } else {
                a[i]
            },
    )
}

/// Node `i` is `top` or lies below it in the tree.
pub open spec fn under(a: Seq<NodeView>, top: int, i: int) -> bool
    decreases i,
{
    i == top || (0 <= i < a.len() && match a[i].parent {
        Some(p) => p < i && under(a, top, p as int),
        None => false,
    })
}

/// The arena `a` with the size of every directory that lies below `top`
/// written into its node.
pub open spec fn aggregated_under(a: Seq<NodeView>, top: int) -> Seq<NodeView> {
    Seq::new(
        a.len(),
        |i: int|
            if i != top && under(a, top, i) && a[i].is_dir() {
                with_size(a[i], dir_size(a, i))
            } else {
                a[i]
            },
    )
}

/// The sum of the effective sizes of the nodes below `hi` whose parent's
/// index is at least `plo` and less than `phi`.
pub open spec fn sum_under(a: Seq<NodeView>, hi: int, plo: int, phi: int) -> int
    decreases hi,
{
    if hi <= 0 {
        0
    } else {
        sum_under(a, hi - 1, plo, phi) + if parent_in(a, hi - 1, plo, phi) {
            effective_size(a, hi - 1)
        } else {
            0
        }
    }
}

/// Node `i` has a parent whose index is at least `plo` and less than `phi`.
pub open spec fn parent_in(a: Seq<NodeView>, i: int, plo: int, phi: int) -> bool {
    match a[i].parent {
        Some(p) => plo <= p < phi,
        None => false,
    }
}

/// No sum over children is negative.
pub proof fn lemma_children_sum_nonnegative(a: Seq<NodeView>, d: int, k: int)
    ensures
        0 <= children_sum(a, d, k),
    decreases a.len() - d, k,
{
    if d < 0 || d >= a.len() || k <= 0 || k > a[d].children().len() {
    } else {
        let c = a[d].children()[k - 1] as int;
        lemma_children_sum_nonnegative(a, d, k - 1);
        if d < c < a.len() {
            lemma_children_sum_nonnegative(a, c, a[c].children().len() as int);
        }
    }
}

/// No node counts for less than nothing.
pub proof fn lemma_effective_size_nonnegative(a: Seq<NodeView>, i: int)
    ensures
        0 <= effective_size(a, i),
{
    lemma_children_sum_nonnegative(a, i, a[i].children().len() as int);
}

/// The sum over more children is not smaller.
pub proof fn lemma_children_sum_monotone(a: Seq<NodeView>, d: int, j: int, k: int)
    requires
        0 <= d < a.len(),
        0 <= j <= k <= a[d].children().len(),
    ensures
        children_sum(a, d, j) <= children_sum(a, d, k),
    decreases k - j,
{
    if j < k {
        lemma_children_sum_monotone(a, d, j, k - 1);
        let c = a[d].children()[k - 1] as int;
        if d < c < a.len() {
            lemma_effective_size_nonnegative(a, c);
        }
    }
}

/// The sizes of directories depend on the tree's links and on the sizes of
/// its files alone.
pub proof fn lemma_children_sum_same_shape(a: Seq<NodeView>, b: Seq<NodeView>, d: int, k: int)
    requires
        same_shape(a, b),
    ensures
        children_sum(a, d, k) == children_sum(b, d, k),
    decreases a.len() - d, k,
{
    if d < 0 || d >= a.len() || k <= 0 || k > a[d].children().len() {
    } else {
        let c = a[d].children()[k - 1] as int;
        lemma_children_sum_same_shape(a, b, d, k - 1);
        if d < c < a.len() {
            lemma_children_sum_same_shape(a, b, c, a[c].children().len() as int);
        }
    }
}

/// Which nodes have `d` as their parent depends on the parents alone.
pub proof fn lemma_kids_same_shape(a: Seq<NodeView>, b: Seq<NodeView>, d: usize, n: int)
    requires
        n <= a.len(),
        n <= b.len(),
        forall|i: int| 0 <= i < n ==> (#[trigger] a[i]).parent == b[i].parent,
    ensures
        kids(a, d, n) == kids(b, d, n),
    decreases n,
{
    if n > 0 {
        lemma_kids_same_shape(a, b, d, n - 1);
    }
}

/// The sum of the files' sizes depends on which nodes are files, and on
/// their sizes, alone.
pub proof fn lemma_files_total_same_shape(a: Seq<NodeView>, b: Seq<NodeView>, n: int)
    requires
        n <= a.len(),
        n <= b.len(),
        forall|i: int|
            0 <= i < n ==> (#[trigger] a[i]).is_dir() == b[i].is_dir() && (!a[i].is_dir()
                ==> a[i].size == b[i].size),
    ensures
        files_total(a, n) == files_total(b, n),
    decreases n,
{
    if n > 0 {
        lemma_files_total_same_shape(a, b, n - 1);
    }
}

/// The members of `kids(a, d, n)` come before `n` and have `d` as their parent.
pub proof fn lemma_kids_members(a: Seq<NodeView>, d: usize, n: int)
    requires
        n <= a.len() <= usize::MAX,
    ensures
        forall|j: int|
            0 <= j < kids(a, d, n).len() ==> {
                &&& 0 <= #[trigger] kids(a, d, n)[j] < n
                &&& a[kids(a, d, n)[j] as int].parent == Some(d)
            },
    decreases n,
{
    if n > 0 {
        lemma_kids_members(a, d, n - 1);
        assert forall|j: int| 0 <= j < kids(a, d, n).len() implies {
            &&& 0 <= #[trigger] kids(a, d, n)[j] < n
            &&& a[kids(a, d, n)[j] as int].parent == Some(d)
        } by {
            if j < kids(a, d, n - 1).len() {
                assert(kids(a, d, n)[j] == kids(a, d, n - 1)[j]);
            }
        }
    }
}

/// A child of a node that lies below `top` lies below `top`.
pub proof fn lemma_under_child(a: Seq<NodeView>, top: int, d: int, c: int)
    requires
        under(a, top, d),
        0 <= d < c < a.len(),
        a[c].parent == Some(d as usize),
        a.len() <= usize::MAX,
    ensures
        under(a, top, c),
{
}

/// A child that a directory of a tree lists comes after it, within the
/// arena, and has the directory as its parent.
pub proof fn lemma_child_of(a: Seq<NodeView>, d: int, j: int)
    requires
        tree_shaped(a),
        0 <= d < a.len(),
        0 <= j < a[d].children().len(),
    ensures
        d < a[d].children()[j] < a.len(),
        a[a[d].children()[j] as int].parent == Some(d as usize),
{
    assert(listed(a, d));
    lemma_kids_members(a, d as usize, a.len() as int);
    let c = a[d].children()[j] as int;
    assert(c == kids(a, d as usize, a.len() as int)[j]);
    assert(c >= 1);
    assert(linked(a, c));
}

/// Nothing that comes before `top` lies below it.
pub proof fn lemma_not_under_before(a: Seq<NodeView>, top: int, i: int)
    requires
        i < top,
    ensures
        !under(a, top, i),
    decreases i,
{
    if 0 <= i < a.len() {
        match a[i].parent {
            Some(p) => {
                if p < i {
                    lemma_not_under_before(a, top, p as int);
                }
            },
            None => {},
        }
    }
}

/// Every node of a tree lies below the root.
pub proof fn lemma_under_root(a: Seq<NodeView>, i: int)
    requires
        tree_shaped(a),
        0 <= i < a.len(),
    ensures
        under(a, 0, i),
    decreases i,
{
    if i > 0 {
        assert(linked(a, i));
        lemma_under_root(a, a[i].parent->0 as int);
    }
}

/// Well-formedness depends on the tree's links and on the sizes of its files
/// alone.
pub proof fn lemma_well_formed_same_shape(a: Seq<NodeView>, b: Seq<NodeView>)
    requires
        same_shape(a, b),
        well_formed(a),
    ensures
        well_formed(b),
{
    assert forall|i: int| 1 <= i < b.len() implies #[trigger] linked(b, i) by {
        assert(linked(a, i));
        let p = a[i].parent->0 as int;
        assert(a[p].data == b[p].data);
    }
    assert forall|d: int| 0 <= d < b.len() implies #[trigger] listed(b, d) by {
        assert(listed(a, d));
        lemma_kids_same_shape(a, b, d as usize, a.len() as int);
    }
    lemma_files_total_same_shape(a, b, a.len() as int);
    assert(a[0].data == b[0].data);
}

/// The files among more nodes are not smaller in sum.
pub proof fn lemma_files_total_monotone(a: Seq<NodeView>, m: int, n: int)
    requires
        m <= n,
    ensures
        0 <= files_total(a, m) <= files_total(a, n),
    decreases n - m, n,
{
    if m < n {
        lemma_files_total_monotone(a, m, n - 1);
    } else if n > 0 {
        lemma_files_total_monotone(a, m - 1, n - 1);
    }
}

/// What `kids` lists up to `m` is the beginning of what it lists up to `n`.
pub proof fn lemma_kids_prefix(a: Seq<NodeView>, d: usize, m: int, n: int)
    requires
        m <= n,
    ensures
        kids(a, d, m).len() <= kids(a, d, n).len(),
        kids(a, d, m) == kids(a, d, n).take(kids(a, d, m).len() as int),
    decreases n - m,
{
    if m < n {
        lemma_kids_prefix(a, d, m, n - 1);
    }
    assert(kids(a, d, m) =~= kids(a, d, n).take(kids(a, d, m).len() as int));
}

/// The sum over a range of parents is the sum over its two halves.
pub proof fn lemma_sum_under_split(a: Seq<NodeView>, hi: int, plo: int, pmid: int, phi: int)
    requires
        plo <= pmid <= phi,
    ensures
        sum_under(a, hi, plo, phi) == sum_under(a, hi, plo, pmid) + sum_under(a, hi, pmid, phi),
    decreases hi,
{
    if hi > 0 {
        lemma_sum_under_split(a, hi - 1, plo, pmid, phi);
    }
}

/// No node comes before a child of its own.
pub proof fn lemma_sum_under_empty(a: Seq<NodeView>, hi: int, plo: int, phi: int)
    requires
        tree_shaped(a),
        hi <= a.len(),
        hi <= plo + 1,
    ensures
        sum_under(a, hi, plo, phi) == 0,
    decreases hi,
{
    if hi > 0 {
        lemma_sum_under_empty(a, hi - 1, plo, phi);
        if hi - 1 >= 1 {
            assert(linked(a, hi - 1));
        }
    }
}

/// The sum over more nodes is not smaller.
pub proof fn lemma_sum_under_monotone(a: Seq<NodeView>, h1: int, h2: int, plo: int, phi: int)
    requires
        h1 <= h2,
    ensures
        0 <= sum_under(a, h1, plo, phi) <= sum_under(a, h2, plo, phi),
    decreases h2 - h1, h2,
{
    if h1 < h2 {
        lemma_sum_under_monotone(a, h1, h2 - 1, plo, phi);
        if h2 > 0 {
            lemma_effective_size_nonnegative(a, h2 - 1);
        }
    } else if h2 > 0 {
        lemma_sum_under_monotone(a, h1 - 1, h2 - 1, plo, phi);
        lemma_effective_size_nonnegative(a, h2 - 1);
    }
}

/// Summing over a node's list of children is summing over the nodes whose
/// parent it is.
pub proof fn lemma_children_sum_is_sum_under(a: Seq<NodeView>, d: int, n: int)
    requires
        tree_shaped(a),
        0 <= d < a.len(),
        0 <= n <= a.len(),
    ensures
        kids(a, d as usize, n).len() <= a[d].children().len(),
        children_sum(a, d, kids(a, d as usize, n).len() as int) == sum_under(a, n, d, d + 1),
    decreases n,
{
    assert(listed(a, d));
    lemma_kids_prefix(a, d as usize, n, a.len() as int);
    if n > 0 {
        let i = n - 1;
        lemma_children_sum_is_sum_under(a, d, i);
        if a[i].parent == Some(d as usize) {
            let m = kids(a, d as usize, n).len() as int;
            assert(a[d].children()[m - 1] == kids(a, d as usize, n)[m - 1]);
            assert(i >= 1);
            assert(linked(a, i));
        }
    }
}

/// What is still to be added on the way down to node `k`: the effective
/// sizes of the nodes from `k` on whose parent comes before `k`, and the
/// files before `k`, add up to the root's size.
pub proof fn lemma_balance(a: Seq<NodeView>, k: int)
    requires
        tree_shaped(a),
        1 <= k <= a.len(),
    ensures
        sum_under(a, a.len() as int, 0, k) - sum_under(a, k, 0, k) + files_total(a, k) == dir_size(
            a,
            0,
        ),
    decreases k,
{
    let len = a.len() as int;
    if k == 1 {
        lemma_children_sum_is_sum_under(a, 0, len);
        assert(listed(a, 0));
        assert(sum_under(a, 1, 0, 1) == 0) by {
            assert(sum_under(a, 0, 0, 1) == 0);
        }
        assert(files_total(a, 1) == 0) by {
            assert(files_total(a, 0) == 0);
        }
    } else {
        let j = k - 1;
        lemma_balance(a, j);
        lemma_sum_under_split(a, len, 0, j, k);
        lemma_children_sum_is_sum_under(a, j, len);
        assert(listed(a, j));
        assert(sum_under(a, len, j, k) == if a[j].is_dir() {
            dir_size(a, j)
        } else {
            0
        });
        assert(linked(a, j));
        assert(parent_in(a, j, 0, k));
        lemma_sum_under_split(a, j, 0, j, k);
        lemma_sum_under_empty(a, j, j, k);
    }
}

/// The root's size is the sum of the sizes of all files, whatever the shape
/// of the tree.
pub proof fn lemma_root_size_is_files_total(a: Seq<NodeView>)
    requires
        tree_shaped(a),
    ensures
        dir_size(a, 0) == files_total(a, a.len() as int),
{
    lemma_balance(a, a.len() as int);
}

/// No node counts for more than all files together.
pub proof fn lemma_effective_size_bounded(a: Seq<NodeView>, i: int)
    requires
        tree_shaped(a),
        0 <= i < a.len(),
    ensures
        0 <= effective_size(a, i) <= files_total(a, a.len() as int),
{
    let len = a.len() as int;
    lemma_effective_size_nonnegative(a, i);
    if i == 0 {
        lemma_root_size_is_files_total(a);
    } else {
        lemma_balance(a, i);
        lemma_root_size_is_files_total(a);
        lemma_sum_under_monotone(a, i + 1, len, 0, i);
        assert(linked(a, i));
        assert(parent_in(a, i, 0, i));
        lemma_files_total_monotone(a, 0, i);
    }
}

/// Writing the sizes changes neither the links nor the files.
pub proof fn lemma_aggregated_same_shape(a: Seq<NodeView>)
    ensures
        same_shape(a, aggregated(a)),
{
}

/// Once the sizes are written, every directory holds its size, and the
/// arena is well formed as before.
pub proof fn lemma_aggregated_sized(a: Seq<NodeView>)
    requires
        well_formed(a),
    ensures
        well_formed(aggregated(a)),
        sized(aggregated(a)),
{
    let b = aggregated(a);
    lemma_aggregated_same_shape(a);
    lemma_well_formed_same_shape(a, b);
    assert forall|d: int| 0 <= d < b.len() && (#[trigger] b[d]).is_dir() implies b[d].size
        == dir_size(b, d) by {
        lemma_children_sum_same_shape(a, b, d, a[d].children().len() as int);
        lemma_effective_size_bounded(a, d);
    }
}

/// Calculating the sizes a second time changes nothing.
pub proof fn lemma_aggregated_idempotent(a: Seq<NodeView>)
    requires
        well_formed(a),
    ensures
        aggregated(aggregated(a)) == aggregated(a),
{
    let b = aggregated(a);
    lemma_aggregated_sized(a);
    assert forall|i: int| 0 <= i < b.len() implies aggregated(b)[i] == b[i] by {
        if b[i].is_dir() {
            lemma_effective_size_bounded(b, i);
        }
    }
    assert(aggregated(b) =~= b);
}

/// Where the sizes are written already, calculating them changes nothing.
pub proof fn lemma_aggregated_of_sized(a: Seq<NodeView>)
    requires
        sized(a),
    ensures
        aggregated(a) == a,
{
    assert forall|i: int| 0 <= i < a.len() implies aggregated(a)[i] == a[i] by {
        if a[i].is_dir() {
            assert(a[i].size == dir_size(a, i));
        }
    }
    assert(aggregated(a) =~= a);
}

/// The sum of the `size` fields of the first `k` children of node `d`.
pub open spec fn stored_sum(a: Seq<NodeView>, d: int, k: int) -> int
    decreases k,
{
    if k <= 0 {
        0
    } else {
        stored_sum(a, d, k - 1) + a[a[d].children()[k - 1] as int].size
    }
}

/// Where every directory holds its size, the size of a directory is the sum
/// of the `size` fields of its children, files and directories alike.
pub proof fn lemma_size_is_sum_of_children(a: Seq<NodeView>, d: int)
    requires
        tree_shaped(a),
        sized(a),
        0 <= d < a.len(),
        a[d].is_dir(),
    ensures
        a[d].size == stored_sum(a, d, a[d].children().len() as int),
{
    lemma_children_sum_is_stored_sum(a, d, a[d].children().len() as int);
}

/// Where every directory holds its size, summing what the children count
/// for is summing what they hold.
pub proof fn lemma_children_sum_is_stored_sum(a: Seq<NodeView>, d: int, k: int)
    requires
        tree_shaped(a),
        sized(a),
        0 <= d < a.len(),
        0 <= k <= a[d].children().len(),
    ensures
        children_sum(a, d, k) == stored_sum(a, d, k),
    decreases k,
{
    if k > 0 {
        lemma_children_sum_is_stored_sum(a, d, k - 1);
        lemma_child_of(a, d, k - 1);
        let c = a[d].children()[k - 1] as int;
        assert(a[c].is_dir() ==> a[c].size == dir_size(a, c));
    }
}

/// In a sized tree the root holds the sum of the sizes of all files.
pub proof fn lemma_root_holds_files_total(a: Seq<NodeView>)
    requires
        tree_shaped(a),
        sized(a),
    ensures
        a[0].size == files_total(a, a.len() as int),
{
    lemma_root_size_is_files_total(a);
}

/// Writing the sizes of all that lies below the root, and then the root's,
/// is writing all sizes.
pub proof fn lemma_aggregated_under_root(a: Seq<NodeView>)
    requires
        well_formed(a),
    ensures
        aggregated_under(a, 0).update(0, with_size(a[0], dir_size(a, 0))) == aggregated(a),
{
    let b = aggregated_under(a, 0).update(0, with_size(a[0], dir_size(a, 0)));
    assert forall|i: int| 0 <= i < a.len() implies b[i] == aggregated(a)[i] by {
        lemma_under_root(a, i);
    }
    assert(b =~= aggregated(a));
}

/// While the sizes are being written from the end of the arena down: where
/// the nodes after `d` hold what they are to hold at the end and the
/// others are as before, and `d` is `top` or lies below it, the arena is
/// still well formed, each child of `d` that is a directory holds its
/// size, and the size of `d` is what it was.
pub proof fn lemma_children_ready(a: Seq<NodeView>, cur: Seq<NodeView>, top: int, d: int)
    requires
        well_formed(a),
        cur.len() == a.len(),
        0 <= d < a.len(),
        under(a, top, d),
        forall|j: int| 0 <= j <= d ==> #[trigger] cur[j] == a[j],
        forall|j: int| d < j < a.len() ==> #[trigger] cur[j] == aggregated_under(a, top)[j],
    ensures
        well_formed(cur),
        dir_size(cur, d) == dir_size(a, d),
        forall|j: int|
            0 <= j < cur[d].children().len() ==> {
                let c = #[trigger] cur[d].children()[j] as int;
                cur[c].is_dir() ==> cur[c].size == dir_size(cur, c)
            },
{
    assert(same_shape(a, cur)) by {
        assert forall|j: int| 0 <= j < a.len() implies {
            &&& (#[trigger] a[j]).parent == cur[j].parent
            &&& a[j].data == cur[j].data
            &&& !a[j].is_dir() ==> a[j].size == cur[j].size
        } by {
            if j <= d {
                assert(cur[j] == a[j]);
            } else {
                assert(cur[j] == aggregated_under(a, top)[j]);
            }
        }
    }
    lemma_well_formed_same_shape(a, cur);
    if d < top {
        lemma_not_under_before(a, top, d);
    }
    assert forall|j: int| 0 <= j < cur[d].children().len() implies {
        let c = #[trigger] cur[d].children()[j] as int;
        cur[c].is_dir() ==> cur[c].size == dir_size(cur, c)
    } by {
        let c = cur[d].children()[j] as int;
        lemma_child_of(cur, d, j);
        assert(cur[c] == aggregated_under(a, top)[c]);
        assert(a[c].parent == cur[c].parent);
        lemma_under_child(a, top, d, c);
        lemma_effective_size_bounded(a, c);
        lemma_children_sum_same_shape(a, cur, c, a[c].children().len() as int);
    }
    lemma_children_sum_same_shape(a, cur, d, a[d].children().len() as int);
}

} // verus!

//! A snapshot of a directory hierarchy and the recursive size aggregation
//! over it.
use rayon::iter::{IntoParallelRefIterator, ParallelIterator};
use vstd::prelude::*;
use vstd::seq_lib::group_to_multiset_ensures;

verus! {

/// One filesystem object as it was observed: a regular file with its length,
/// a directory with its named children, or anything else (a symbolic link, a
/// device, an entry whose metadata could not be read).
pub enum FsNode {
    File(u64),
    Dir(Vec<(String, FsNode)>),
    Other,
}

/// What a node contributes to the size of the directory holding it: a file
/// its length, a directory the sum over its children, anything else nothing.
pub open spec fn total_size(n: FsNode) -> nat
    decreases n, 1nat,
{
    match n {
        FsNode::File(len) => len as nat,
        FsNode::Dir(children) => entries_total(children@),
        FsNode::Other => 0,
    }
}

/// The sum of `total_size` over a sequence of named children.
pub open spec fn entries_total(s: Seq<(String, FsNode)>) -> nat
    decreases s, 0nat,
{
    if s.len() == 0 {
        0
    } else {
        entries_total(s.drop_last()) + total_size(s.last().1)
    }
}

/// The aggregate size of a directory: the sum over its children. Anything
/// that is not a readable directory aggregates to zero.
pub open spec fn dir_total(n: FsNode) -> nat {
    match n {
        FsNode::Dir(children) => entries_total(children@),
        _ => 0,
    }
}

/// A byte count as a `u64`, saturating at `u64::MAX`.
pub open spec fn capped(n: nat) -> u64 {
    if n <= u64::MAX {
        n as u64
    } else {
        u64::MAX
    }
}

proof fn lemma_capped_add(a: nat, b: nat)
    ensures
        capped(a).saturating_add(capped(b)) == capped(a + b),
{
}

proof fn lemma_child_decreases(n: FsNode, children: Vec<(String, FsNode)>, i: int)
    requires
        n == FsNode::Dir(children),
        0 <= i < children@.len(),
    ensures
        decreases_to!(n => children@[i].1),
{
    assert(decreases_to!(n => n->Dir_0));
    assert(decreases_to!(children => children@));
    assert(decreases_to!(children@ => children@[i]));
    assert(decreases_to!(children@[i] => children@[i].1));
}

/// The aggregate size of `node`, read one child after the other.
///
/// A file, or anything that is not a directory, aggregates to zero; the sum
/// saturates at `u64::MAX`.
pub fn dir_size(node: &FsNode) -> (r: u64)
    ensures
        r == capped(dir_total(*node)),
    decreases node,
{
    match node {
        FsNode::Dir(children) => {
            let mut total: u64 = 0;
            let mut i: usize = 0;
            while i < children.len()
                invariant
                    i <= children.len(),
                    *node == FsNode::Dir(*children),
                    total == capped(entries_total(children@.subrange(0, i as int))),
                decreases children.len() - i,
            {
                let part: u64 = match &children[i].1 {
                    FsNode::File(len) => *len,
                    FsNode::Dir(_) => {
                        proof {
                            lemma_child_decreases(*node, *children, i as int);
                        }
                        dir_size(&children[i].1)
                    },
                    FsNode::Other => 0,
                };
                proof {
                    let s = children@.subrange(0, i + 1);
                    assert(s.drop_last() == children@.subrange(0, i as int));
                    lemma_capped_add(entries_total(s.drop_last()), total_size(s.last().1));
                }
                total = total.saturating_add(part);
                i = i + 1;
            }
            assert(children@.subrange(0, children@.len() as int) == children@);
            total
        },
        _ => 0,
    }
}

/// The contribution of one child: its length, its aggregate, or zero.
fn entry_size(node: &FsNode) -> (r: u64)
    ensures
        r == capped(total_size(*node)),
{
    match node {
        FsNode::File(len) => *len,
        FsNode::Dir(_) => calculate_dir_size(node),
        FsNode::Other => 0,
    }
}

/// Relies on rayon's `par_iter().map(..).collect()` over a `Vec`: the closure
/// runs once on each child, possibly on several threads, and the collected
/// results keep the order of the children.
#[verifier::external_body]
fn sizes_in_parallel(children: &Vec<(String, FsNode)>) -> (r: Vec<u64>)
    ensures
        r@.len() == children@.len(),
        forall|i: int| 0 <= i < r@.len() ==> r@[i] == capped(total_size(#[trigger] children@[i].1)),
{
    children.par_iter().map(|c| entry_size(&c.1)).collect()
}

/// The aggregate size of `node`, with the children of each directory sized
/// in parallel and the results summed once all of them are in.
///
/// Agrees with `dir_size` on every input.
pub fn calculate_dir_size(node: &FsNode) -> (r: u64)
    ensures
        r == capped(dir_total(*node)),
{
    match node {
        FsNode::Dir(children) => {
            let sizes = sizes_in_parallel(children);
            let mut total: u64 = 0;
            let mut i: usize = 0;
            while i < sizes.len()
                invariant
                    i <= sizes.len(),
                    sizes@.len() == children@.len(),
                    forall|j: int| 0 <= j < sizes@.len() ==> sizes@[j] == capped(total_size(#[trigger] children@[j].1)),
                    total == capped(entries_total(children@.subrange(0, i as int))),
                decreases sizes.len() - i,
            {
                proof {
                    let s = children@.subrange(0, i + 1);
                    assert(s.drop_last() == children@.subrange(0, i as int));
                    lemma_capped_add(entries_total(s.drop_last()), total_size(s.last().1));
                }
                total = total.saturating_add(sizes[i]);
                i = i + 1;
            }
            assert(children@.subrange(0, children@.len() as int) == children@);
            total
        },
        _ => 0,
    }
}

/// The sum of the lengths of the files among `s`.
pub open spec fn files_total(s: Seq<(String, FsNode)>) -> nat
    decreases s.len(),
{
    if s.len() == 0 {
        0
    } else {
        files_total(s.drop_last()) + match s.last().1 {
            FsNode::File(len) => len as nat,
            _ => 0,
        }
    }
}

/// The sum of the aggregates of the directories among `s`.
pub open spec fn subdirs_total(s: Seq<(String, FsNode)>) -> nat
    decreases s.len(),
{
    if s.len() == 0 {
        0
    } else {
        subdirs_total(s.drop_last()) + match s.last().1 {
            FsNode::Dir(_) => dir_total(s.last().1),
            _ => 0,
        }
    }
}

proof fn lemma_split_total(s: Seq<(String, FsNode)>)
    ensures
        entries_total(s) == files_total(s) + subdirs_total(s),
    decreases s.len(),
{
    if s.len() > 0 {
        lemma_split_total(s.drop_last());
        match s.last().1 {
            FsNode::Dir(c) => assert(total_size(s.last().1) == entries_total(c@)),
            FsNode::File(len) => assert(total_size(s.last().1) == len as nat),
            FsNode::Other => assert(total_size(s.last().1) == 0),
        }
    }
}

/// The aggregate of a directory is the sum of the lengths of its immediate
/// files plus the sum of the aggregates of its immediate subdirectories.
pub proof fn lemma_recursive_consistency(node: FsNode)
    requires
        node is Dir,
    ensures
        dir_total(node) == files_total(node->Dir_0@) + subdirs_total(node->Dir_0@),
{
    lemma_split_total(node->Dir_0@);
}

proof fn lemma_entries_total_remove(s: Seq<(String, FsNode)>, k: int)
    requires
        0 <= k < s.len(),
    ensures
        entries_total(s) == entries_total(s.remove(k)) + total_size(s[k].1),
    decreases s.len(),
{
    if k == s.len() - 1 {
        assert(s.remove(k) == s.drop_last());
    } else {
        lemma_entries_total_remove(s.drop_last(), k);
        assert(s.remove(k).drop_last() == s.drop_last().remove(k));
        assert(s.remove(k).last() == s.last());
    }
}

proof fn lemma_entries_total_permutation(a: Seq<(String, FsNode)>, b: Seq<(String, FsNode)>)
    requires
        a.to_multiset() == b.to_multiset(),
    ensures
        entries_total(a) == entries_total(b),
    decreases a.len(),
{
    broadcast use group_to_multiset_ensures;

    if a.len() == 0 {
        assert(a.to_multiset().len() == 0);
        assert(b.to_multiset().len() == 0);
    } else {
        let x = a.last();
        assert(a.to_multiset().count(x) > 0) by {
            assert(a.contains(x)) by {
                assert(a[a.len() - 1] == x);
            }
        }
        assert(b.contains(x));
        let k = choose|k: int| 0 <= k < b.len() && b[k] == x;
        assert(a.remove(a.len() - 1) == a.drop_last());
        assert(a.drop_last().to_multiset() == b.remove(k).to_multiset());
        lemma_entries_total_permutation(a.drop_last(), b.remove(k));
        lemma_entries_total_remove(b, k);
    }
}

/// The aggregate of a directory does not depend on the order in which its
/// children are listed: two listings holding the same children give the
/// same total.
pub proof fn lemma_order_independent(a: FsNode, b: FsNode)
    requires
        a is Dir,
        b is Dir,
        a->Dir_0@.to_multiset() == b->Dir_0@.to_multiset(),
    ensures
        dir_total(a) == dir_total(b),
{
    lemma_entries_total_permutation(a->Dir_0@, b->Dir_0@);
}

/// An empty directory aggregates to zero, and so does a path that holds no
/// readable directory (missing, a file, or anything else).
pub proof fn lemma_empty_and_missing(empty: FsNode, len: u64)
    requires
        empty is Dir,
        empty->Dir_0@.len() == 0,
    ensures
        dir_total(empty) == 0,
        dir_total(FsNode::Other) == 0,
        dir_total(FsNode::File(len)) == 0,
{
}

} // verus!

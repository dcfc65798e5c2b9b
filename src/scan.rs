//! The first level of each supplied root, merged into one table of sizes.
use vstd::prelude::*;
use vstd::string::StringExecFns;
use crate::snapshot::{calculate_dir_size, capped, dir_total, FsNode};
use crate::utils::{
    distinct_names, has_name, path_extension, path_file_stem, shortened_name, truncate_filename, upsert,
    SizeTable,
};

verus! {

/// A path as supplied, with what was found there (`None` where nothing
/// exists).
pub struct Root {
    pub path: String,
    pub node: Option<FsNode>,
}

/// What the table shows for a file of the given name.
pub open spec fn display_name(name: Seq<char>) -> Seq<char> {
    shortened_name(path_file_stem(name), path_extension(name))
}

/// The rows that the children of a directory give: a file its display name
/// and length, a directory its display name followed by `/` and its
/// aggregate; anything else no row.
pub open spec fn dir_rows(children: Seq<(String, FsNode)>) -> Seq<(Seq<char>, u64)>
    decreases children.len(),
{
    if children.len() == 0 {
        Seq::empty()
    } else {
        let (name, node) = children.last();
        dir_rows(children.drop_last()) + match node {
            FsNode::File(len) => seq![(display_name(name@), len)],
            FsNode::Dir(_) => seq![(display_name(name@) + seq!['/'], capped(dir_total(node)))],
            FsNode::Other => Seq::empty(),
        }
    }
}

/// The rows that one root gives: a file itself, a directory its children,
/// anything else (missing included) none.
pub open spec fn root_rows(root: Root) -> Seq<(Seq<char>, u64)> {
    match root.node {
        Some(FsNode::File(len)) => seq![(display_name(root.path@), len)],
        Some(FsNode::Dir(children)) => dir_rows(children@),
        _ => Seq::empty(),
    }
}

/// The rows of all roots, in the order in which the roots were supplied.
pub open spec fn all_rows(roots: Seq<Root>) -> Seq<(Seq<char>, u64)>
    decreases roots.len(),
{
    if roots.len() == 0 {
        Seq::empty()
    } else {
        all_rows(roots.drop_last()) + root_rows(roots.last())
    }
}

/// The table that writing `rows` one after the other into `table` leaves.
pub open spec fn apply_rows(table: Seq<(Seq<char>, u64)>, rows: Seq<(Seq<char>, u64)>) -> Seq<(Seq<char>, u64)>
    decreases rows.len(),
{
    if rows.len() == 0 {
        table
    } else {
        let t = apply_rows(table, rows.drop_last());
        upsert(t, rows.last().0, rows.last().1)
    }
}

/// The positions of the roots that do not exist, in ascending order.
pub open spec fn missing_positions(roots: Seq<Root>) -> Seq<usize>
    decreases roots.len(),
{
    if roots.len() == 0 {
        Seq::empty()
    } else if roots.last().node is None {
        missing_positions(roots.drop_last()).push((roots.len() - 1) as usize)
    } else {
        missing_positions(roots.drop_last())
    }
}

/// The outcome of a scan over the supplied roots.
pub struct ScanReport {
    /// One size per name over all roots.
    pub table: SizeTable,
    /// The positions of the roots that do not exist.
    pub missing: Vec<usize>,
    /// The last root does not exist: nothing more is reported.
    pub halted: bool,
}

/// Writes the rows of `children` into `table`.
fn scan_children(table: &mut SizeTable, children: &Vec<(String, FsNode)>)
    ensures
        final(table)@ == apply_rows(old(table)@, dir_rows(children@)),
{
    let mut i: usize = 0;
    while i < children.len()
        invariant
            i <= children.len(),
            table@ == apply_rows(old(table)@, dir_rows(children@.subrange(0, i as int))),
        decreases children.len() - i,
    {
        let ghost before = dir_rows(children@.subrange(0, i as int));
        let ghost s = children@.subrange(0, i + 1);
        assert(s.drop_last() == children@.subrange(0, i as int));
        let name = &children[i].0;
        match &children[i].1 {
            FsNode::File(len) => {
                let label = truncate_filename(name.as_str());
                table.insert(label, *len);
                proof {
                    let row = (display_name(name@), *len);
                    assert(dir_rows(s) == before + seq![row]);
                    assert(before + seq![row] == before.push(row));
                    assert(before.push(row).drop_last() == before);
                    assert(table@ == apply_rows(old(table)@, before.push(row)));
                }
            },
            FsNode::Dir(_) => {
                let mut label = truncate_filename(name.as_str());
                proof {
                    reveal_strlit("/");
                }
                label.append("/");
                assert("/"@ == seq!['/']);
                assert(label@ == display_name(name@) + seq!['/']);
                let size = calculate_dir_size(&children[i].1);
                table.insert(label, size);
                proof {
                    let row = (display_name(name@) + seq!['/'], capped(dir_total(children@[i as int].1)));
                    assert(dir_rows(s) == before + seq![row]);
                    assert(before + seq![row] == before.push(row));
                    assert(before.push(row).drop_last() == before);
                    assert(table@ == apply_rows(old(table)@, before.push(row)));
                }
            },
            FsNode::Other => {
                assert(dir_rows(s) == before + Seq::<(Seq<char>, u64)>::empty());
                assert(dir_rows(s) == before);
            },
        }
        i = i + 1;
    }
    assert(children@.subrange(0, children@.len() as int) == children@);
}

/// Writes the rows of every root into one table, in the order in which the
/// roots were supplied; a name that two roots give keeps the size of the
/// later one.
pub fn scan_roots(roots: &Vec<Root>) -> (r: ScanReport)
    ensures
        r.table@ == apply_rows(Seq::empty(), all_rows(roots@)),
        r.missing@ == missing_positions(roots@),
        r.halted == (roots@.len() > 0 && roots@.last().node is None),
{
    let mut table = SizeTable::new();
    let mut missing: Vec<usize> = Vec::new();
    let mut i: usize = 0;
    while i < roots.len()
        invariant
            i <= roots.len(),
            table@ == apply_rows(Seq::empty(), all_rows(roots@.subrange(0, i as int))),
            missing@ == missing_positions(roots@.subrange(0, i as int)),
        decreases roots.len() - i,
    {
        let ghost s = roots@.subrange(0, i + 1);
        assert(s.drop_last() == roots@.subrange(0, i as int));
        let ghost done = all_rows(roots@.subrange(0, i as int));
        let root = &roots[i];
        match &root.node {
            None => {
                missing.push(i);
                assert(root_rows(*root) == Seq::<(Seq<char>, u64)>::empty());
                assert(all_rows(s) == done);
            },
            Some(FsNode::File(len)) => {
                let label = truncate_filename(root.path.as_str());
                table.insert(label, *len);
                proof {
                    let row = (display_name(root.path@), *len);
                    assert(all_rows(s) == done.push(row));
                    assert(done.push(row).drop_last() == done);
                }
            },
            Some(FsNode::Dir(children)) => {
                scan_children(&mut table, children);
                proof {
                    lemma_apply_rows_append(Seq::empty(), done, dir_rows(children@));
                }
            },
            Some(FsNode::Other) => {
                assert(all_rows(s) == done);
            },
        }
        i = i + 1;
    }
    assert(roots@.subrange(0, roots@.len() as int) == roots@);
    let halted = roots.len() > 0 && roots[roots.len() - 1].node.is_none();
    ScanReport { table, missing, halted }
}

proof fn lemma_apply_rows_append(
    table: Seq<(Seq<char>, u64)>,
    a: Seq<(Seq<char>, u64)>,
    b: Seq<(Seq<char>, u64)>,
)
    ensures
        apply_rows(table, a + b) == apply_rows(apply_rows(table, a), b),
    decreases b.len(),
{
    if b.len() == 0 {
        assert(a + b == a);
    } else {
        assert((a + b).drop_last() == a + b.drop_last());
        lemma_apply_rows_append(table, a, b.drop_last());
    }
}

proof fn lemma_upsert(s: Seq<(Seq<char>, u64)>, name: Seq<char>, size: u64)
    requires
        distinct_names(s),
    ensures
        distinct_names(upsert(s, name, size)),
        upsert(s, name, size).contains((name, size)),
        forall|y: (Seq<char>, u64)| s.contains(y) && y.0 != name ==> upsert(s, name, size).contains(y),
{
    let u = upsert(s, name, size);
    if has_name(s, name) {
        let k = choose|k: int| 0 <= k < s.len() && s[k].0 == name;
        assert(u[k] == (name, size));
        assert forall|y: (Seq<char>, u64)| s.contains(y) && y.0 != name implies u.contains(y) by {
            let m = choose|m: int| 0 <= m < s.len() && s[m] == y;
            assert(u[m] == y);
        }
    } else {
        assert(u[s.len() as int] == (name, size));
        assert forall|y: (Seq<char>, u64)| s.contains(y) && y.0 != name implies u.contains(y) by {
            let m = choose|m: int| 0 <= m < s.len() && s[m] == y;
            assert(u[m] == y);
        }
    }
}

proof fn lemma_rows_distinct(rows: Seq<(Seq<char>, u64)>)
    ensures
        distinct_names(apply_rows(Seq::empty(), rows)),
    decreases rows.len(),
{
    if rows.len() > 0 {
        lemma_rows_distinct(rows.drop_last());
        lemma_upsert(apply_rows(Seq::empty(), rows.drop_last()), rows.last().0, rows.last().1);
    }
}

/// The last write of a name wins: where the row at `j` is the last one that
/// carries its name, the table that the rows leave holds that row, and no
/// other pair with the same name.
pub proof fn lemma_last_write_wins(rows: Seq<(Seq<char>, u64)>, j: int)
    requires
        0 <= j < rows.len(),
        forall|l: int| j < l < rows.len() ==> rows[l].0 != rows[j].0,
    ensures
        distinct_names(apply_rows(Seq::empty(), rows)),
        apply_rows(Seq::empty(), rows).contains(rows[j]),
    decreases rows.len(),
{
    lemma_rows_distinct(rows);
    let t = apply_rows(Seq::empty(), rows.drop_last());
    lemma_rows_distinct(rows.drop_last());
    lemma_upsert(t, rows.last().0, rows.last().1);
    if j < rows.len() - 1 {
        lemma_last_write_wins(rows.drop_last(), j);
    }
}

} // verus!

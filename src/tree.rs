//! The bounded-depth listing of a directory, the ordered tree built from it,
//! and its rendering as indented text.
use humansize::{format_size, DECIMAL};
use rayon::iter::{IntoParallelRefIterator, ParallelIterator};
use vstd::prelude::*;
use vstd::string::{StrSliceExecFns, StringExecFns};
use crate::snapshot::{calculate_dir_size, capped, dir_total, FsNode};
use crate::utils::{lemma_name_lt_total, lemma_name_lt_transitive, name_less, name_lt};

verus! {

/// The character that separates the segments of a relative path.
pub const SEPARATOR: char = '/';

/// `name` below `prefix`; at the root (an empty prefix) the name alone.
pub open spec fn join_path(prefix: Seq<char>, name: Seq<char>) -> Seq<char> {
    if prefix.len() == 0 {
        name
    } else {
        prefix + seq![SEPARATOR] + name
    }
}

/// The views of the rows of a listing: relative path, size, whether a
/// directory.
pub open spec fn rows_view(s: Seq<(String, u64, bool)>) -> Seq<(Seq<char>, u64, bool)> {
    s.map_values(|r: (String, u64, bool)| (r.0@, r.1, r.2))
}

/// The rows of the listing of `node` at `depth`, with paths below `prefix`:
/// nothing once `depth` is past `max_depth`, nor for what is not a directory.
pub open spec fn collected(node: FsNode, prefix: Seq<char>, depth: int, max_depth: int) -> Seq<(Seq<char>, u64, bool)>
    decreases node, 2nat,
{
    if depth > max_depth {
        Seq::empty()
    } else {
        match node {
            FsNode::Dir(children) => collected_children(children@, prefix, depth, max_depth),
            _ => Seq::empty(),
        }
    }
}

/// The rows that the children `s` give, one child after the other.
pub open spec fn collected_children(
    s: Seq<(String, FsNode)>,
    prefix: Seq<char>,
    depth: int,
    max_depth: int,
) -> Seq<(Seq<char>, u64, bool)>
    decreases s, 1nat,
{
    if s.len() == 0 {
        Seq::empty()
    } else {
        collected_children(s.drop_last(), prefix, depth, max_depth) + child_rows(s.last(), prefix, depth, max_depth)
    }
}

/// The rows of one child: a file its path and length; a directory its path
/// and aggregate, then, while `depth` is below `max_depth`, its own listing
/// one level deeper; anything else nothing.
pub open spec fn child_rows(
    entry: (String, FsNode),
    prefix: Seq<char>,
    depth: int,
    max_depth: int,
) -> Seq<(Seq<char>, u64, bool)>
    decreases entry, 0nat,
{
    let path = join_path(prefix, entry.0@);
    match entry.1 {
        FsNode::File(len) => seq![(path, len, false)],
        FsNode::Dir(_) => seq![(path, capped(dir_total(entry.1)), true)] + if depth < max_depth {
            collected(entry.1, path, depth + 1, max_depth)
        } else {
            Seq::empty()
        },
        FsNode::Other => Seq::empty(),
    }
}

/// The path of `name` below `prefix`.
pub fn join(prefix: &str, name: &str) -> (r: String)
    ensures
        r@ == join_path(prefix@, name@),
{
    if prefix.is_empty() {
        String::from_str(name)
    } else {
        let mut r = String::from_str(prefix);
        proof {
            reveal_strlit("/");
        }
        r.append("/");
        r.append(name);
        r
    }
}

/// The rows of one child of a directory at `depth`.
fn child_entries(entry: &(String, FsNode), prefix: &str, depth: usize, max_depth: usize) -> (r: Vec<(String, u64, bool)>)
    requires
        depth <= max_depth,
    ensures
        rows_view(r@) == child_rows(*entry, prefix@, depth as int, max_depth as int),
{
    let path = join(prefix, entry.0.as_str());
    match &entry.1 {
        FsNode::File(len) => {
            let r = vec![(path, *len, false)];
            assert(rows_view(r@) =~= seq![(join_path(prefix@, entry.0@), *len, false)]);
            r
        },
        FsNode::Dir(_) => {
            let size = calculate_dir_size(&entry.1);
            let mut r = vec![(path.clone(), size, true)];
            assert(rows_view(r@) =~= seq![(join_path(prefix@, entry.0@), size, true)]);
            if depth < max_depth {
                let mut deeper = collect_entries(&entry.1, path.as_str(), depth + 1, max_depth);
                let ghost first = rows_view(r@);
                let ghost rest = rows_view(deeper@);
                r.append(&mut deeper);
                assert(rows_view(r@) =~= first + rest);
            } else {
                assert(rows_view(r@) =~= rows_view(r@) + Seq::<(Seq<char>, u64, bool)>::empty());
            }
            r
        },
        FsNode::Other => {
            let r: Vec<(String, u64, bool)> = Vec::new();
            assert(rows_view(r@) =~= Seq::<(Seq<char>, u64, bool)>::empty());
            r
        },
    }
}

/// Relies on rayon's `par_iter().map(..).collect()` over a `Vec`: the closure
/// runs once on each child, possibly on several threads, and the collected
/// results keep the order of the children.
#[verifier::external_body]
fn entries_in_parallel(
    children: &Vec<(String, FsNode)>,
    prefix: &str,
    depth: usize,
    max_depth: usize,
) -> (r: Vec<Vec<(String, u64, bool)>>)
    requires
        depth <= max_depth,
    ensures
        r@.len() == children@.len(),
        forall|i: int|
            0 <= i < r@.len() ==> rows_view(#[trigger] r@[i]@) == child_rows(children@[i], prefix@, depth as int, max_depth as int),
{
    children.par_iter().map(|c| child_entries(c, prefix, depth, max_depth)).collect()
}

/// The rows of every file and directory below `node`, from `depth` down to
/// `max_depth`, with paths relative to the root of the listing (`prefix` is
/// the path of `node` itself, empty at the root). The children of a
/// directory are listed in parallel; each child's rows keep their place.
pub fn collect_entries(node: &FsNode, prefix: &str, depth: usize, max_depth: usize) -> (r: Vec<(String, u64, bool)>)
    ensures
        rows_view(r@) == collected(*node, prefix@, depth as int, max_depth as int),
{
    if depth > max_depth {
        let r: Vec<(String, u64, bool)> = Vec::new();
        assert(rows_view(r@) =~= Seq::<(Seq<char>, u64, bool)>::empty());
        return r;
    }
    match node {
        FsNode::Dir(children) => {
            let mut parts = entries_in_parallel(children, prefix, depth, max_depth);
            let ghost all = parts@;
            let mut out: Vec<(String, u64, bool)> = Vec::new();
            let mut i: usize = 0;
            assert(rows_view(out@) =~= collected_children(children@.subrange(0, 0), prefix@, depth as int, max_depth as int));
            while i < children.len()
                invariant
                    i <= children.len(),
                    all.len() == children@.len(),
                    parts@ == all.subrange(i as int, all.len() as int),
                    forall|j: int|
                        0 <= j < all.len() ==> rows_view(#[trigger] all[j]@) == child_rows(children@[j], prefix@, depth as int, max_depth as int),
                    rows_view(out@) == collected_children(children@.subrange(0, i as int), prefix@, depth as int, max_depth as int),
                decreases children.len() - i,
            {
                let mut part = parts.remove(0);
                assert(part == all[i as int]);
                let ghost before = rows_view(out@);
                let ghost added = rows_view(part@);
                out.append(&mut part);
                proof {
                    let s = children@.subrange(0, i + 1);
                    assert(s.drop_last() == children@.subrange(0, i as int));
                    assert(s.last() == children@[i as int]);
                    assert(rows_view(out@) =~= before + added);
                    assert(parts@ =~= all.subrange(i + 1, all.len() as int));
                }
                i = i + 1;
            }
            assert(children@.subrange(0, children@.len() as int) == children@);
            out
        },
        _ => {
            let r: Vec<(String, u64, bool)> = Vec::new();
            assert(rows_view(r@) =~= Seq::<(Seq<char>, u64, bool)>::empty());
            r
        },
    }
}

/// The segments of a path between separators, as `str::split` gives them:
/// an empty path is one empty segment.
pub open spec fn split_path(p: Seq<char>) -> Seq<Seq<char>>
    decreases p.len(),
{
    if p.len() == 0 {
        seq![Seq::empty()]
    } else {
        let parts = split_path(p.drop_last());
        if p.last() == SEPARATOR {
            parts.push(Seq::empty())
        } else {
            parts.update(parts.len() - 1, parts.last().push(p.last()))
        }
    }
}

/// The views of a list of strings.
pub open spec fn strings_view(s: Seq<String>) -> Seq<Seq<char>> {
    s.map_values(|x: String| x@)
}

/// The segments of `path`.
pub fn split(path: &str) -> (r: Vec<String>)
    ensures
        strings_view(r@) == split_path(path@),
{
    let n = path.unicode_len();
    let mut parts: Vec<String> = Vec::new();
    let mut start: usize = 0;
    let mut i: usize = 0;
    assert(path@.subrange(0, 0) =~= Seq::<char>::empty());
    assert(split_path(Seq::<char>::empty()) == seq![Seq::<char>::empty()]);
    assert(strings_view(parts@).push(path@.subrange(0, 0)) =~= seq![Seq::<char>::empty()]);
    while i < n
        invariant
            n == path@.len(),
            start <= i <= n,
            split_path(path@.subrange(0, i as int)) == strings_view(parts@).push(path@.subrange(start as int, i as int)),
        decreases n - i,
    {
        let c = path.get_char(i);
        proof {
            let q = path@.subrange(0, i + 1);
            assert(q.drop_last() == path@.subrange(0, i as int));
            assert(q.last() == c);
        }
        if c == SEPARATOR {
            let piece = String::from_str(path.substring_char(start, i));
            let ghost old_parts = strings_view(parts@);
            parts.push(piece);
            assert(strings_view(parts@) =~= old_parts.push(path@.subrange(start as int, i as int)));
            start = i + 1;
            assert(path@.subrange(start as int, i + 1) =~= Seq::<char>::empty());
        } else {
            assert(path@.subrange(start as int, i + 1) =~= path@.subrange(start as int, i as int).push(c));
        }
        i = i + 1;
    }
    let last = String::from_str(path.substring_char(start, n));
    let ghost old_parts = strings_view(parts@);
    parts.push(last);
    assert(strings_view(parts@) =~= old_parts.push(path@.subrange(start as int, n as int)));
    assert(path@.subrange(0, n as int) == path@);
    parts
}

/// A node of the tree as the renderer sees it: a size, whether a directory,
/// and the named children in the order in which they are shown.
pub struct SpecTree {
    pub size: u64,
    pub is_dir: bool,
    pub children: Seq<(Seq<char>, SpecTree)>,
}

/// A node on which nothing has been recorded yet.
pub open spec fn empty_tree() -> SpecTree {
    SpecTree { size: 0, is_dir: false, children: Seq::empty() }
}

/// The first position from `from` on whose name does not sort before `name`.
pub open spec fn slot(children: Seq<(Seq<char>, SpecTree)>, name: Seq<char>, from: int) -> int
    decreases children.len() - from,
{
    if from < 0 || from >= children.len() || !name_lt(children[from].0, name) {
        from
    } else {
        slot(children, name, from + 1)
    }
}

/// `t` with `size` and `is_dir` recorded on the node at the end of `segs`;
/// the nodes on the way are created empty where they are missing, each at
/// its place in name order.
pub open spec fn insert_at(t: SpecTree, segs: Seq<Seq<char>>, size: u64, is_dir: bool) -> SpecTree
    decreases segs.len(),
{
    if segs.len() == 0 {
        t
    } else {
        let name = segs[0];
        let p = slot(t.children, name, 0);
        let found = p < t.children.len() && t.children[p].0 == name;
        let child = if found { t.children[p].1 } else { empty_tree() };
        let updated = if segs.len() == 1 {
            SpecTree { size, is_dir, children: child.children }
        } else {
            insert_at(child, segs.drop_first(), size, is_dir)
        };
        SpecTree {
            size: t.size,
            is_dir: t.is_dir,
            children: if found {
                t.children.update(p, (name, updated))
            } else {
                t.children.insert(p, (name, updated))
            },
        }
    }
}

/// The tree that recording every row of `rows`, one after the other, gives.
pub open spec fn built(rows: Seq<(Seq<char>, u64, bool)>) -> SpecTree
    decreases rows.len(),
{
    if rows.len() == 0 {
        empty_tree()
    } else {
        let r = rows.last();
        insert_at(built(rows.drop_last()), split_path(r.0), r.1, r.2)
    }
}

/// A node of the tree built from a listing; its root stands for the listed
/// directory itself and is never shown.
pub struct TreeNode {
    size: u64,
    is_dir: bool,
    children: Vec<(String, TreeNode)>,
}

impl TreeNode {
    /// The node as the renderer sees it.
    pub closed spec fn model(&self) -> SpecTree
        decreases self, 1nat,
    {
        SpecTree { size: self.size, is_dir: self.is_dir, children: model_children(self.children@) }
    }

    /// A node on which nothing has been recorded yet.
    pub fn new() -> (r: TreeNode)
        ensures
            r.model() == empty_tree(),
    {
        let r = TreeNode { size: 0, is_dir: false, children: Vec::new() };
        assert(model_children(r.children@) =~= Seq::<(Seq<char>, SpecTree)>::empty());
        r
    }
}

/// The models of a list of named nodes.
pub closed spec fn model_children(s: Seq<(String, TreeNode)>) -> Seq<(Seq<char>, SpecTree)>
    decreases s, 0nat,
{
    if s.len() == 0 {
        Seq::empty()
    } else {
        model_children(s.drop_last()).push((s.last().0@, s.last().1.model()))
    }
}

proof fn lemma_model_children(s: Seq<(String, TreeNode)>)
    ensures
        model_children(s).len() == s.len(),
        forall|i: int| 0 <= i < s.len() ==> #[trigger] model_children(s)[i] == (s[i].0@, s[i].1.model()),
    decreases s.len(),
{
    if s.len() > 0 {
        lemma_model_children(s.drop_last());
    }
}

proof fn lemma_model_children_ext(a: Seq<(String, TreeNode)>, m: Seq<(Seq<char>, SpecTree)>)
    requires
        a.len() == m.len(),
        forall|i: int| 0 <= i < a.len() ==> (a[i].0@, a[i].1.model()) == #[trigger] m[i],
    ensures
        model_children(a) == m,
{
    lemma_model_children(a);
    assert(model_children(a) =~= m);
}

proof fn lemma_slot(c: Seq<(Seq<char>, SpecTree)>, name: Seq<char>, p: int, from: int)
    requires
        0 <= from <= p <= c.len(),
        forall|j: int| 0 <= j < p ==> name_lt(#[trigger] c[j].0, name),
        p == c.len() || !name_lt(c[p].0, name),
    ensures
        slot(c, name, from) == p,
    decreases p - from,
{
    if from < p {
        lemma_slot(c, name, p, from + 1);
    }
}

/// Records `size` and `is_dir` on the node at the end of `segs[i..]` below
/// `node`.
fn insert_path(node: &mut TreeNode, segs: &Vec<String>, i: usize, size: u64, is_dir: bool)
    requires
        i <= segs.len(),
    ensures
        final(node).model() == insert_at(old(node).model(), strings_view(segs@).subrange(i as int, segs@.len() as int), size, is_dir),
    decreases segs.len() - i,
{
    let ghost segs_v = strings_view(segs@).subrange(i as int, segs@.len() as int);
    if i == segs.len() {
        assert(segs_v.len() == 0);
        return;
    }
    let name = &segs[i];
    assert(segs_v[0] == name@);
    let ghost before = node.model();
    proof {
        lemma_model_children(node.children@);
    }
    let mut p: usize = 0;
    while p < node.children.len() && name_less(node.children[p].0.as_str(), name.as_str())
        invariant
            before == node.model(),
            before.children == model_children(node.children@),
            model_children(node.children@).len() == node.children@.len(),
            forall|k: int| 0 <= k < node.children@.len() ==> #[trigger] model_children(node.children@)[k] == (node.children@[k].0@, node.children@[k].1.model()),
            p <= node.children.len(),
            forall|j: int| 0 <= j < p ==> name_lt(#[trigger] before.children[j].0, name@),
        decreases node.children.len() - p,
    {
        p = p + 1;
    }
    proof {
        lemma_slot(before.children, name@, p as int, 0);
    }
    let found = p < node.children.len() && node.children[p].0 == *name;
    let (key, mut child) = if found {
        node.children.remove(p)
    } else {
        (name.clone(), TreeNode::new())
    };
    let ghost child0 = child.model();
    assert(child0 == if found { before.children[p as int].1 } else { empty_tree() });
    if i + 1 == segs.len() {
        child.size = size;
        child.is_dir = is_dir;
        assert(segs_v.len() == 1);
    } else {
        insert_path(&mut child, segs, i + 1, size, is_dir);
        assert(segs_v.drop_first() == strings_view(segs@).subrange(i + 1, segs@.len() as int));
    }
    let ghost updated = child.model();
    let ghost rest = node.children@;
    node.children.insert(p, (key, child));
    proof {
        let m = if found {
            before.children.update(p as int, (name@, updated))
        } else {
            before.children.insert(p as int, (name@, updated))
        };
        if !found {
            before.children.insert_ensures(p as int, (name@, updated));
        }
        lemma_model_children_ext(node.children@, m);
    }
}

/// The tree of the rows of a listing: each path is split at the separator
/// and its size and kind are recorded on the node at its end.
pub fn build_tree(entries: Vec<(String, u64, bool)>) -> (r: TreeNode)
    ensures
        r.model() == built(rows_view(entries@)),
{
    let mut root = TreeNode::new();
    let mut i: usize = 0;
    while i < entries.len()
        invariant
            i <= entries.len(),
            root.model() == built(rows_view(entries@.subrange(0, i as int))),
        decreases entries.len() - i,
    {
        let segs = split(entries[i].0.as_str());
        insert_path(&mut root, &segs, 0, entries[i].1, entries[i].2);
        proof {
            let s = rows_view(entries@.subrange(0, i + 1));
            assert(s.drop_last() =~= rows_view(entries@.subrange(0, i as int)));
            assert(strings_view(segs@).subrange(0, segs@.len() as int) == strings_view(segs@));
        }
        i = i + 1;
    }
    assert(entries@.subrange(0, entries@.len() as int) == entries@);
    root
}

/// Names what humansize's `format_size` with the `DECIMAL` options gives for
/// a byte count.
pub uninterp spec fn human_size_of(bytes: u64) -> Seq<char>;

/// Relies on humansize's `format_size(bytes, DECIMAL)`: the text depends on
/// the count alone and is ASCII (a number, a space, a unit from `B` to `YB`).
#[verifier::external_body]
fn human_size(bytes: u64) -> (r: String)
    ensures
        r@ == human_size_of(bytes),
        forall|i: int| 0 <= i < r@.len() ==> (r@[i] as u32) < 128,
{
    format_size(bytes, DECIMAL)
}

/// The branch in front of the last child of a node.
pub open spec fn last_branch(ascii: bool) -> Seq<char> {
    if ascii {
        seq!['`', '-', '-', ' ']
    } else {
        seq!['\u{2514}', '\u{2500}', '\u{2500}', ' ']
    }
}

/// The branch in front of every other child.
pub open spec fn middle_branch(ascii: bool) -> Seq<char> {
    if ascii {
        seq!['+', '-', '-', ' ']
    } else {
        seq!['\u{251c}', '\u{2500}', '\u{2500}', ' ']
    }
}

/// The indentation below a child that has siblings after it.
pub open spec fn pipe_indent(ascii: bool) -> Seq<char> {
    if ascii {
        seq!['|', ' ', ' ', ' ']
    } else {
        seq!['\u{2502}', ' ', ' ', ' ']
    }
}

/// The indentation below the last child.
pub open spec fn blank_indent() -> Seq<char> {
    seq![' ', ' ', ' ', ' ']
}

/// One line of the rendering: indentation, branch, name, `/` for a directory
/// or `*` for a file, then the size text in parentheses.
pub open spec fn line_text(prefix: Seq<char>, branch: Seq<char>, name: Seq<char>, is_dir: bool, size_text: Seq<char>) -> Seq<char> {
    prefix + branch + name + (if is_dir { seq!['/'] } else { seq!['*'] }) + seq![' ', ' ', '('] + size_text + seq![')', '\n']
}

/// The rendering of the children of `t`, each below `prefix`.
pub open spec fn rendered(t: SpecTree, prefix: Seq<char>, ascii: bool) -> Seq<char>
    decreases t, 0int,
{
    rendered_from(t.children, 0, prefix, ascii)
}

/// The rendering of the children `cs` from position `i` on: each child's
/// line, then, where it has children of its own, their rendering one level
/// deeper.
pub open spec fn rendered_from(cs: Seq<(Seq<char>, SpecTree)>, i: int, prefix: Seq<char>, ascii: bool) -> Seq<char>
    decreases cs, cs.len() - i,
{
    if i < 0 || i >= cs.len() {
        Seq::empty()
    } else {
        let last = i == cs.len() - 1;
        let child = cs[i].1;
        let branch = if last { last_branch(ascii) } else { middle_branch(ascii) };
        let indent = if last { blank_indent() } else { pipe_indent(ascii) };
        let below = if child.children.len() > 0 {
            rendered(child, prefix + indent, ascii)
        } else {
            Seq::empty()
        };
        line_text(prefix, branch, cs[i].0, child.is_dir, human_size_of(child.size)) + below + rendered_from(cs, i + 1, prefix, ascii)
    }
}

/// A character of the box-drawing block, U+2500 to U+257F.
pub open spec fn is_box_drawing(c: char) -> bool {
    0x2500 <= (c as u32) && (c as u32) <= 0x257f
}

/// `s` holds no box-drawing character.
pub open spec fn free_of_box_drawing(s: Seq<char>) -> bool {
    forall|i: int| 0 <= i < s.len() ==> !is_box_drawing(#[trigger] s[i])
}

/// No name in the tree below `t` holds a box-drawing character.
pub open spec fn names_free_of_box_drawing(t: SpecTree) -> bool
    decreases t, 0int,
{
    names_free_from(t.children, 0)
}

/// No name of the children `cs` from position `i` on, nor below them, holds
/// a box-drawing character.
pub open spec fn names_free_from(cs: Seq<(Seq<char>, SpecTree)>, i: int) -> bool
    decreases cs, cs.len() - i,
{
    if i < 0 || i >= cs.len() {
        true
    } else {
        free_of_box_drawing(cs[i].0) && names_free_of_box_drawing(cs[i].1) && names_free_from(cs, i + 1)
    }
}

proof fn lemma_free_concat(a: Seq<char>, b: Seq<char>)
    requires
        free_of_box_drawing(a),
        free_of_box_drawing(b),
    ensures
        free_of_box_drawing(a + b),
{
    assert forall|i: int| 0 <= i < (a + b).len() implies !is_box_drawing(#[trigger] (a + b)[i]) by {
        if i < a.len() {
            assert((a + b)[i] == a[i]);
        } else {
            assert((a + b)[i] == b[i - a.len()]);
        }
    }
}

proof fn lemma_line_free(prefix: Seq<char>, branch: Seq<char>, name: Seq<char>, is_dir: bool, size_text: Seq<char>)
    requires
        free_of_box_drawing(prefix),
        free_of_box_drawing(branch),
        free_of_box_drawing(name),
        forall|i: int| 0 <= i < size_text.len() ==> (size_text[i] as u32) < 128,
    ensures
        free_of_box_drawing(line_text(prefix, branch, name, is_dir, size_text)),
{
    let marker = if is_dir { seq!['/'] } else { seq!['*'] };
    let open = seq![' ', ' ', '('];
    let close = seq![')', '\n'];
    assert(free_of_box_drawing(marker));
    assert(free_of_box_drawing(open));
    assert(free_of_box_drawing(close));
    assert(free_of_box_drawing(size_text)) by {
        assert forall|i: int| 0 <= i < size_text.len() implies !is_box_drawing(#[trigger] size_text[i]) by {
            assert((size_text[i] as u32) < 128);
        }
    }
    lemma_free_concat(prefix, branch);
    lemma_free_concat(prefix + branch, name);
    lemma_free_concat(prefix + branch + name, marker);
    lemma_free_concat(prefix + branch + name + marker, open);
    lemma_free_concat(prefix + branch + name + marker + open, size_text);
    lemma_free_concat(prefix + branch + name + marker + open + size_text, close);
}

/// One line of the rendering, with the size already put in words.
pub fn render_line(prefix: &str, branch: &str, name: &str, is_dir: bool, size_text: &str) -> (r: String)
    ensures
        r@ == line_text(prefix@, branch@, name@, is_dir, size_text@),
{
    let mut r = String::from_str(prefix);
    r.append(branch);
    r.append(name);
    proof {
        reveal_strlit("/");
        reveal_strlit("*");
        reveal_strlit("  (");
        reveal_strlit(")\n");
    }
    if is_dir {
        r.append("/");
    } else {
        r.append("*");
    }
    r.append("  (");
    r.append(size_text);
    r.append(")\n");
    r
}

/// The rendering of the children of `node`, each below `prefix`, in the
/// order in which the node holds them.
pub fn render_tree(node: &TreeNode, prefix: &str, ascii: bool) -> (r: String)
    ensures
        r@ == rendered(node.model(), prefix@, ascii),
        ascii && free_of_box_drawing(prefix@) && names_free_of_box_drawing(node.model()) ==> free_of_box_drawing(r@),
    decreases node,
{
    let (branch_last, branch_mid, pipe) = if ascii {
        ("`-- ", "+-- ", "|   ")
    } else {
        ("\u{2514}\u{2500}\u{2500} ", "\u{251c}\u{2500}\u{2500} ", "\u{2502}   ")
    };
    proof {
        reveal_strlit("`-- ");
        reveal_strlit("+-- ");
        reveal_strlit("|   ");
        reveal_strlit("\u{2514}\u{2500}\u{2500} ");
        reveal_strlit("\u{251c}\u{2500}\u{2500} ");
        reveal_strlit("\u{2502}   ");
        reveal_strlit("    ");
        lemma_model_children(node.children@);
    }
    assert(branch_last@ == last_branch(ascii));
    assert(branch_mid@ == middle_branch(ascii));
    assert(pipe@ == pipe_indent(ascii));
    let ghost cs = node.model().children;
    let mut out = String::new();
    let n = node.children.len();
    let mut i: usize = 0;
    while i < n
        invariant
            n == node.children@.len(),
            cs == node.model().children,
            cs == model_children(node.children@),
            cs.len() == n,
            forall|k: int| 0 <= k < n ==> #[trigger] cs[k] == (node.children@[k].0@, node.children@[k].1.model()),
            branch_last@ == last_branch(ascii),
            branch_mid@ == middle_branch(ascii),
            pipe@ == pipe_indent(ascii),
            "    "@ == blank_indent(),
            i <= n,
            out@ + rendered_from(cs, i as int, prefix@, ascii) == rendered(node.model(), prefix@, ascii),
            ascii && free_of_box_drawing(prefix@) && names_free_of_box_drawing(node.model()) ==> names_free_from(cs, i as int)
                && free_of_box_drawing(out@),
        decreases n - i,
    {
        let name = &node.children[i].0;
        let child = &node.children[i].1;
        let is_last = i == n - 1;
        let branch = if is_last { branch_last } else { branch_mid };
        let size_text = human_size(child.size);
        let line = render_line(prefix, branch, name.as_str(), child.is_dir, size_text.as_str());
        let ghost out0 = out@;
        let ghost plain = ascii && free_of_box_drawing(prefix@) && names_free_of_box_drawing(node.model());
        proof {
            if plain {
                assert(free_of_box_drawing(branch@));
                lemma_line_free(prefix@, branch@, name@, child.is_dir, size_text@);
                lemma_free_concat(out0, line@);
            }
        }
        out.append(line.as_str());
        proof {
            lemma_model_children(child.children@);
        }
        let ghost below: Seq<char> = Seq::empty();
        if child.children.len() > 0 {
            let mut deeper = String::from_str(prefix);
            if is_last {
                deeper.append("    ");
            } else {
                deeper.append(pipe);
            }
            proof {
                assert(decreases_to!(node.children => node.children@));
                assert(decreases_to!(node.children@ => node.children@[i as int]));
                assert(decreases_to!(node.children@[i as int] => node.children@[i as int].1));
            }
            proof {
                if plain {
                    assert(free_of_box_drawing("    "@));
                    assert(free_of_box_drawing(pipe@));
                    lemma_free_concat(prefix@, "    "@);
                    lemma_free_concat(prefix@, pipe@);
                }
            }
            let sub = render_tree(child, deeper.as_str(), ascii);
            proof {
                below = sub@;
                if plain {
                    lemma_free_concat(out@, sub@);
                }
            }
            out.append(sub.as_str());
        }
        proof {
            let c = cs[i as int].1;
            assert(c == child.model());
            assert(c.children.len() == child.children@.len());
            let t = line_text(prefix@, branch@, name@, c.is_dir, human_size_of(c.size));
            assert(rendered_from(cs, i as int, prefix@, ascii) == t + below + rendered_from(cs, i + 1, prefix@, ascii));
            assert(out@ == out0 + t + below);
            assert(out0 + (t + below + rendered_from(cs, i + 1, prefix@, ascii)) =~= out0 + t + below + rendered_from(cs, i + 1, prefix@, ascii));
        }
        i = i + 1;
    }
    assert(out@ + Seq::<char>::empty() =~= out@);
    out
}

proof fn lemma_last_branch_shown(cs: Seq<(Seq<char>, SpecTree)>, i: int, prefix: Seq<char>)
    requires
        0 <= i < cs.len(),
    ensures
        rendered_from(cs, i, prefix, false).contains('\u{2514}'),
    decreases cs.len() - i,
{
    let child = cs[i].1;
    let last = i == cs.len() - 1;
    let branch = if last { last_branch(false) } else { middle_branch(false) };
    let indent = if last { blank_indent() } else { pipe_indent(false) };
    let below = if child.children.len() > 0 { rendered(child, prefix + indent, false) } else { Seq::empty() };
    let line = line_text(prefix, branch, cs[i].0, child.is_dir, human_size_of(child.size));
    let rest = rendered_from(cs, i + 1, prefix, false);
    assert(rendered_from(cs, i, prefix, false) == line + below + rest);
    if last {
        assert(line[prefix.len() as int] == '\u{2514}');
        lemma_concat_contains(line, below, '\u{2514}');
        lemma_concat_contains(line + below, rest, '\u{2514}');
    } else {
        lemma_last_branch_shown(cs, i + 1, prefix);
        lemma_concat_contains(line + below, rest, '\u{2514}');
    }
}

/// In Unicode mode the rendering of a node with children shows the
/// box-drawing branch (U+2514) in front of its last child. In ASCII mode no
/// box-drawing character appears unless a name or the prefix brings one
/// (see the contract of `render_tree`).
pub proof fn lemma_unicode_uses_box_drawing(t: SpecTree, prefix: Seq<char>)
    requires
        t.children.len() > 0,
    ensures
        rendered(t, prefix, false).contains('\u{2514}'),
{
    lemma_last_branch_shown(t.children, 0, prefix);
}

/// The tree of `node` as text: every file and directory down to `depth`
/// levels (all of them where no depth is given), children in the order of
/// their names.
pub fn generate_tree(node: &FsNode, depth: Option<usize>, ascii: bool) -> (r: String)
    ensures
        r@ == rendered(
            built(collected(*node, Seq::empty(), 1, match depth { Some(d) => d as int, None => usize::MAX as int })),
            Seq::empty(),
            ascii,
        ),
{
    let max_depth: usize = match depth {
        Some(d) => d,
        None => usize::MAX,
    };
    proof {
        reveal_strlit("");
    }
    assert(""@ =~= Seq::<char>::empty());
    let entries = collect_entries(node, "", 1, max_depth);
    let tree = build_tree(entries);
    render_tree(&tree, "", ascii)
}

/// The number of separators in `s`.
pub open spec fn separators(s: Seq<char>) -> nat
    decreases s.len(),
{
    if s.len() == 0 {
        0
    } else {
        separators(s.drop_last()) + if s.last() == SEPARATOR { 1nat } else { 0nat }
    }
}

/// Every name below `node` is a single, non-empty path segment.
pub open spec fn plain_names(node: FsNode) -> bool
    decreases node, 1nat,
{
    match node {
        FsNode::Dir(children) => plain_names_in(children@),
        _ => true,
    }
}

/// Every name in `s`, and below it, is a single, non-empty path segment.
pub open spec fn plain_names_in(s: Seq<(String, FsNode)>) -> bool
    decreases s, 0nat,
{
    if s.len() == 0 {
        true
    } else {
        &&& plain_names_in(s.drop_last())
        &&& s.last().0@.len() > 0
        &&& separators(s.last().0@) == 0
        &&& plain_names(s.last().1)
    }
}

proof fn lemma_separators_concat(a: Seq<char>, b: Seq<char>)
    ensures
        separators(a + b) == separators(a) + separators(b),
    decreases b.len(),
{
    if b.len() == 0 {
        assert(a + b == a);
    } else {
        assert((a + b).drop_last() == a + b.drop_last());
        lemma_separators_concat(a, b.drop_last());
    }
}

/// The separators that a path below `prefix` has before its own part.
pub open spec fn prefix_separators(prefix: Seq<char>) -> nat {
    if prefix.len() == 0 {
        0
    } else {
        separators(prefix) + 1
    }
}

proof fn lemma_join_separators(prefix: Seq<char>, name: Seq<char>)
    requires
        name.len() > 0,
        separators(name) == 0,
    ensures
        separators(join_path(prefix, name)) == prefix_separators(prefix),
        prefix_separators(join_path(prefix, name)) == prefix_separators(prefix) + 1,
{
    if prefix.len() > 0 {
        lemma_separators_concat(prefix, seq![SEPARATOR]);
        lemma_separators_concat(prefix + seq![SEPARATOR], name);
        assert(seq![SEPARATOR].drop_last() =~= Seq::<char>::empty());
        assert(seq![SEPARATOR].last() == SEPARATOR);
        assert(separators(Seq::<char>::empty()) == 0);
        assert(separators(seq![SEPARATOR]) == 1);
        assert(join_path(prefix, name) == prefix + seq![SEPARATOR] + name);
    }
}

proof fn lemma_concat_all<A>(a: Seq<A>, b: Seq<A>, p: spec_fn(A) -> bool)
    requires
        forall|i: int| 0 <= i < a.len() ==> p(#[trigger] a[i]),
        forall|i: int| 0 <= i < b.len() ==> p(#[trigger] b[i]),
    ensures
        forall|i: int| 0 <= i < (a + b).len() ==> p(#[trigger] (a + b)[i]),
{
    assert forall|i: int| 0 <= i < (a + b).len() implies p(#[trigger] (a + b)[i]) by {
        if i >= a.len() {
            assert((a + b)[i] == b[i - a.len()]);
        }
    }
}

proof fn lemma_collected_depth(node: FsNode, prefix: Seq<char>, depth: int, max_depth: int)
    requires
        plain_names(node),
    ensures
        forall|i: int|
            0 <= i < collected(node, prefix, depth, max_depth).len() ==> separators(
                #[trigger] collected(node, prefix, depth, max_depth)[i].0,
            ) + depth <= prefix_separators(prefix) + max_depth,
    decreases node, 2nat,
{
    if depth <= max_depth {
        if let FsNode::Dir(children) = node {
            assert(plain_names_in(children@));
            lemma_collected_children_depth(children@, prefix, depth, max_depth);
            assert(collected(node, prefix, depth, max_depth) == collected_children(children@, prefix, depth, max_depth));
        } else {
            assert(collected(node, prefix, depth, max_depth).len() == 0);
        }
    } else {
        assert(collected(node, prefix, depth, max_depth).len() == 0);
    }
}

proof fn lemma_collected_children_depth(s: Seq<(String, FsNode)>, prefix: Seq<char>, depth: int, max_depth: int)
    requires
        plain_names_in(s),
        depth <= max_depth,
    ensures
        forall|i: int|
            0 <= i < collected_children(s, prefix, depth, max_depth).len() ==> separators(
                #[trigger] collected_children(s, prefix, depth, max_depth)[i].0,
            ) + depth <= prefix_separators(prefix) + max_depth,
    decreases s, 1nat,
{
    if s.len() > 0 {
        lemma_collected_children_depth(s.drop_last(), prefix, depth, max_depth);
        lemma_child_rows_depth(s.last(), prefix, depth, max_depth);
        let bound = |r: (Seq<char>, u64, bool)| separators(r.0) + depth <= prefix_separators(prefix) + max_depth;
        lemma_concat_all(
            collected_children(s.drop_last(), prefix, depth, max_depth),
            child_rows(s.last(), prefix, depth, max_depth),
            bound,
        );
    }
}

proof fn lemma_child_rows_depth(entry: (String, FsNode), prefix: Seq<char>, depth: int, max_depth: int)
    requires
        entry.0@.len() > 0,
        separators(entry.0@) == 0,
        plain_names(entry.1),
        depth <= max_depth,
    ensures
        forall|i: int|
            0 <= i < child_rows(entry, prefix, depth, max_depth).len() ==> separators(
                #[trigger] child_rows(entry, prefix, depth, max_depth)[i].0,
            ) + depth <= prefix_separators(prefix) + max_depth,
    decreases entry, 0nat,
{
    let path = join_path(prefix, entry.0@);
    lemma_join_separators(prefix, entry.0@);
    if entry.1 is Dir && depth < max_depth {
        lemma_collected_depth(entry.1, path, depth + 1, max_depth);
        let bound = |r: (Seq<char>, u64, bool)| separators(r.0) + depth <= prefix_separators(prefix) + max_depth;
        lemma_concat_all(
            seq![(path, capped(dir_total(entry.1)), true)],
            collected(entry.1, path, depth + 1, max_depth),
            bound,
        );
    } else if entry.1 is Dir {
        assert(child_rows(entry, prefix, depth, max_depth) =~= seq![(path, capped(dir_total(entry.1)), true)]);
    }
}

/// The listing from the root goes no deeper than `max_depth` levels: a row
/// carries fewer separators than `max_depth`. With a depth of one only the
/// immediate children are listed, with two the grandchildren too and nothing
/// below them.
pub proof fn lemma_depth_bound(node: FsNode, max_depth: int)
    requires
        plain_names(node),
    ensures
        forall|i: int|
            0 <= i < collected(node, Seq::empty(), 1, max_depth).len() ==> separators(
                #[trigger] collected(node, Seq::empty(), 1, max_depth)[i].0,
            ) < max_depth,
{
    lemma_collected_depth(node, Seq::empty(), 1, max_depth);
}

proof fn lemma_concat_contains<A>(a: Seq<A>, b: Seq<A>, x: A)
    requires
        a.contains(x) || b.contains(x),
    ensures
        (a + b).contains(x),
{
    if a.contains(x) {
        let k = choose|k: int| 0 <= k < a.len() && a[k] == x;
        assert((a + b)[k] == x);
    } else {
        let k = choose|k: int| 0 <= k < b.len() && b[k] == x;
        assert((a + b)[a.len() + k] == x);
    }
}

proof fn lemma_children_contain(
    s: Seq<(String, FsNode)>,
    k: int,
    prefix: Seq<char>,
    depth: int,
    max_depth: int,
    row: (Seq<char>, u64, bool),
)
    requires
        0 <= k < s.len(),
        child_rows(s[k], prefix, depth, max_depth).contains(row),
    ensures
        collected_children(s, prefix, depth, max_depth).contains(row),
    decreases s.len(),
{
    let front = collected_children(s.drop_last(), prefix, depth, max_depth);
    let back = child_rows(s.last(), prefix, depth, max_depth);
    if k < s.len() - 1 {
        lemma_children_contain(s.drop_last(), k, prefix, depth, max_depth, row);
    }
    lemma_concat_contains(front, back, row);
}

/// With a depth of two or more, every grandchild that is a file or a
/// directory is listed, under the path of its parent, a separator and its
/// own name.
pub proof fn lemma_grandchildren_listed(node: FsNode, a: int, b: int, max_depth: int)
    requires
        max_depth >= 2,
        node is Dir,
        0 <= a < node->Dir_0@.len(),
        node->Dir_0@[a].0@.len() > 0,
        node->Dir_0@[a].1 is Dir,
        0 <= b < node->Dir_0@[a].1->Dir_0@.len(),
        !(node->Dir_0@[a].1->Dir_0@[b].1 is Other),
    ensures
        exists|i: int|
            0 <= i < collected(node, Seq::empty(), 1, max_depth).len()
                && (#[trigger] collected(node, Seq::empty(), 1, max_depth)[i]).0 == node->Dir_0@[a].0@ + seq![SEPARATOR]
                + node->Dir_0@[a].1->Dir_0@[b].0@,
{
    let c = node->Dir_0@;
    let parent = c[a];
    let n1 = parent.0@;
    let d = parent.1;
    let c1 = d->Dir_0@;
    let grand = c1[b];
    let rows = child_rows(grand, n1, 2, max_depth);
    let path = n1 + seq![SEPARATOR] + grand.0@;
    assert(join_path(n1, grand.0@) == path);
    assert(join_path(Seq::empty(), n1) == n1);
    let row = rows[0];
    assert(row.0 == path);
    assert(rows.contains(row));
    lemma_children_contain(c1, b, n1, 2, max_depth, row);
    assert(collected(d, n1, 2, max_depth) == collected_children(c1, n1, 2, max_depth));
    let head = seq![(n1, capped(dir_total(d)), true)];
    assert(child_rows(parent, Seq::empty(), 1, max_depth) == head + collected(d, n1, 2, max_depth));
    lemma_concat_contains(head, collected(d, n1, 2, max_depth), row);
    lemma_children_contain(c, a, Seq::empty(), 1, max_depth, row);
    let all = collected(node, Seq::empty(), 1, max_depth);
    assert(all == collected_children(c, Seq::empty(), 1, max_depth));
    let i = choose|i: int| 0 <= i < all.len() && all[i] == row;
    assert(all[i].0 == path);
}

/// Every node of `t` holds its children in strictly ascending name order.
pub open spec fn sorted_tree(t: SpecTree) -> bool
    decreases t,
{
    &&& forall|i: int, j: int| 0 <= i < j < t.children.len() ==> name_lt(t.children[i].0, t.children[j].0)
    &&& forall|i: int| 0 <= i < t.children.len() ==> sorted_tree(#[trigger] t.children[i].1)
}

proof fn lemma_insert_sorted(t: SpecTree, segs: Seq<Seq<char>>, size: u64, is_dir: bool)
    requires
        sorted_tree(t),
    ensures
        sorted_tree(insert_at(t, segs, size, is_dir)),
    decreases segs.len(),
{
    if segs.len() > 0 {
        let cs = t.children;
        let name = segs[0];
        let p = slot(cs, name, 0);
        lemma_slot_bounds(cs, name, 0);
        let found = p < cs.len() && cs[p].0 == name;
        let child = if found { cs[p].1 } else { empty_tree() };
        assert(sorted_tree(child));
        let updated = if segs.len() == 1 {
            SpecTree { size, is_dir, children: child.children }
        } else {
            insert_at(child, segs.drop_first(), size, is_dir)
        };
        if segs.len() > 1 {
            lemma_insert_sorted(child, segs.drop_first(), size, is_dir);
        }
        assert(sorted_tree(updated));
        let r = insert_at(t, segs, size, is_dir);
        if found {
            assert(r.children == cs.update(p, (name, updated)));
            assert(sorted_tree(r));
        } else {
            let n = cs.insert(p, (name, updated));
            assert(r.children == n);
            cs.insert_ensures(p, (name, updated));
            if p < cs.len() {
                lemma_name_lt_total(cs[p].0, name);
            }
            assert forall|i: int, j: int| 0 <= i < j < n.len() implies name_lt(n[i].0, n[j].0) by {
                if j < p {
                } else if i > p {
                    assert(n[i] == cs[i - 1]);
                    assert(n[j] == cs[j - 1]);
                } else if i == p {
                    assert(n[j] == cs[j - 1]);
                    if j - 1 > p {
                        lemma_name_lt_transitive(name, cs[p].0, cs[j - 1].0);
                    }
                } else if j == p {
                } else {
                    assert(n[j] == cs[j - 1]);
                    if j - 1 > p {
                        lemma_name_lt_transitive(name, cs[p].0, cs[j - 1].0);
                    }
                    lemma_name_lt_transitive(cs[i].0, name, cs[j - 1].0);
                }
            }
            assert forall|i: int| 0 <= i < n.len() implies sorted_tree(#[trigger] n[i].1) by {
                if i > p {
                    assert(n[i] == cs[i - 1]);
                }
            }
        }
    }
}

proof fn lemma_slot_bounds(cs: Seq<(Seq<char>, SpecTree)>, name: Seq<char>, from: int)
    requires
        0 <= from <= cs.len(),
        forall|j: int| 0 <= j < from ==> name_lt(#[trigger] cs[j].0, name),
    ensures
        from <= slot(cs, name, from) <= cs.len(),
        forall|j: int| 0 <= j < slot(cs, name, from) ==> name_lt(#[trigger] cs[j].0, name),
        slot(cs, name, from) < cs.len() ==> !name_lt(cs[slot(cs, name, from)].0, name),
    decreases cs.len() - from,
{
    if from < cs.len() && name_lt(cs[from].0, name) {
        lemma_slot_bounds(cs, name, from + 1);
    }
}

/// The tree built from any listing holds, at every node, its children in
/// strictly ascending name order, so that the rendering shows them in that
/// order.
pub proof fn lemma_built_sorted(rows: Seq<(Seq<char>, u64, bool)>)
    ensures
        sorted_tree(built(rows)),
    decreases rows.len(),
{
    if rows.len() == 0 {
        assert(sorted_tree(empty_tree()));
    } else {
        lemma_built_sorted(rows.drop_last());
        let r = rows.last();
        lemma_insert_sorted(built(rows.drop_last()), split_path(r.0), r.1, r.2);
    }
}

} // verus!

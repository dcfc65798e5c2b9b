//! Names: their order, their shortened display form, and the table of sizes
//! keyed by them.
use std::path::Path;
use vstd::prelude::*;
use vstd::string::{StrSliceExecFns, StringExecFns, StringSliceAdditionalSpecFns};
use vstd::utf8::{decode_utf8, encode_utf8, is_char_boundary};

pub use crate::snapshot::dir_size;

verus! {

/// Lexicographic order on names, character by character. Code point order is
/// also the byte order of the UTF-8 encodings, so this is the order of `str`.
pub open spec fn name_lt(a: Seq<char>, b: Seq<char>) -> bool
    decreases a.len(),
{
    if a.len() == 0 {
        b.len() > 0
    } else if b.len() == 0 {
        false
    } else if a[0] != b[0] {
        (a[0] as u32) < (b[0] as u32)
    } else {
        name_lt(a.drop_first(), b.drop_first())
    }
}

/// The order of names is transitive.
pub proof fn lemma_name_lt_transitive(a: Seq<char>, b: Seq<char>, c: Seq<char>)
    requires
        name_lt(a, b),
        name_lt(b, c),
    ensures
        name_lt(a, c),
    decreases a.len(),
{
    if a.len() > 0 && b.len() > 0 && c.len() > 0 && a[0] == b[0] && b[0] == c[0] {
        lemma_name_lt_transitive(a.drop_first(), b.drop_first(), c.drop_first());
    }
}

/// Of two different names one sorts before the other.
pub proof fn lemma_name_lt_total(a: Seq<char>, b: Seq<char>)
    requires
        a != b,
    ensures
        name_lt(a, b) || name_lt(b, a),
    decreases a.len(),
{
    if a.len() > 0 && b.len() > 0 && a[0] == b[0] {
        if a.drop_first() == b.drop_first() {
            assert(a == seq![a[0]] + a.drop_first());
            assert(b == seq![b[0]] + b.drop_first());
        }
        lemma_name_lt_total(a.drop_first(), b.drop_first());
    } else if a.len() == 0 && b.len() == 0 {
        assert(a == b);
    } else if a.len() > 0 && b.len() > 0 {
        if (a[0] as u32) == (b[0] as u32) {
            vstd::utf8::char_u32_cast(a[0], a[0] as u32);
            vstd::utf8::char_u32_cast(b[0], b[0] as u32);
        }
    }
}

/// Whether `a` sorts strictly before `b`.
pub fn name_less(a: &str, b: &str) -> (r: bool)
    ensures
        r == name_lt(a@, b@),
{
    let la = a.unicode_len();
    let lb = b.unicode_len();
    let mut i: usize = 0;
    assert(a@.subrange(0, la as int) == a@);
    assert(b@.subrange(0, lb as int) == b@);
    while i < la && i < lb
        invariant
            la == a@.len(),
            lb == b@.len(),
            i <= la,
            i <= lb,
            name_lt(a@, b@) == name_lt(a@.subrange(i as int, la as int), b@.subrange(i as int, lb as int)),
        decreases la - i,
    {
        let ca = a.get_char(i);
        let cb = b.get_char(i);
        if ca != cb {
            return (ca as u32) < (cb as u32);
        }
        proof {
            let x = a@.subrange(i as int, la as int);
            let y = b@.subrange(i as int, lb as int);
            assert(x.drop_first() == a@.subrange(i + 1, la as int));
            assert(y.drop_first() == b@.subrange(i + 1, lb as int));
        }
        i = i + 1;
    }
    i == la && i < lb
}

/// The longest stem, in bytes, that is shown in full.
pub const STEM_LIMIT: usize = 15;

/// The largest character boundary of `bytes` that is not above `k`.
pub open spec fn boundary_at_most(bytes: Seq<u8>, k: int) -> int
    decreases k,
{
    if k <= 0 {
        0
    } else if is_char_boundary(bytes, k) {
        k
    } else {
        boundary_at_most(bytes, k - 1)
    }
}

/// A stem longer than `STEM_LIMIT` bytes keeps the characters that fit in
/// its first `STEM_LIMIT` bytes, followed by `...`.
pub open spec fn shortened_stem(stem: Seq<char>) -> Seq<char> {
    let bytes = encode_utf8(stem);
    if bytes.len() > STEM_LIMIT {
        decode_utf8(bytes.subrange(0, boundary_at_most(bytes, STEM_LIMIT as int))) + seq!['.', '.', '.']
    } else {
        stem
    }
}

/// The display form of a file name with the given stem and extension.
pub open spec fn shortened_name(stem: Seq<char>, extension: Seq<char>) -> Seq<char> {
    if extension.len() > 0 {
        shortened_stem(stem) + seq!['.'] + extension
    } else {
        shortened_stem(stem)
    }
}

/// The display form of a file name given as its stem and its extension
/// (empty where there is none).
pub fn shorten_name(stem: &str, extension: &str) -> (r: String)
    ensures
        r@ == shortened_name(stem@, extension@),
{
    broadcast use vstd::utf8::encode_utf8_decode_utf8, vstd::utf8::encode_utf8_valid_utf8;

    let mut head: String;
    if stem.as_bytes().len() > STEM_LIMIT {
        let mut k: usize = STEM_LIMIT;
        while k > 0 && !stem.is_char_boundary(k)
            invariant
                k <= STEM_LIMIT,
                stem.spec_bytes().len() > STEM_LIMIT,
                boundary_at_most(stem.spec_bytes(), STEM_LIMIT as int) == boundary_at_most(stem.spec_bytes(), k as int),
            decreases k,
        {
            k = k - 1;
        }
        let (kept, _) = stem.split_at(k);
        head = String::from_str(kept);
        proof {
            reveal_strlit("...");
            let bytes = encode_utf8(stem@);
            assert(k as int == boundary_at_most(bytes, STEM_LIMIT as int));
            assert(kept@ == decode_utf8(encode_utf8(kept@)));
            assert(head@ == decode_utf8(bytes.subrange(0, k as int)));
        }
        head.append("...");
        assert("..."@ == seq!['.', '.', '.']);
        assert(head@ == shortened_stem(stem@));
    } else {
        head = String::from_str(stem);
    }
    assert(head@ == shortened_stem(stem@));
    if !extension.is_empty() {
        proof {
            reveal_strlit(".");
        }
        head.append(".");
        head.append(extension);
    }
    head
}

/// Names what std's `Path::file_stem` gives for a path: the last component
/// without its extension.
pub uninterp spec fn path_file_stem(path: Seq<char>) -> Seq<char>;

/// Names what std's `Path::extension` gives for a path: the extension of the
/// last component, empty where it has none.
pub uninterp spec fn path_extension(path: Seq<char>) -> Seq<char>;

/// Relies on std's `Path::file_stem`, with an empty string where it gives
/// none; a piece of a `&str` is always valid UTF-8.
#[verifier::external_body]
fn file_stem(path: &str) -> (r: String)
    ensures
        r@ == path_file_stem(path@),
{
    Path::new(path).file_stem().and_then(|s| s.to_str()).unwrap_or("").to_string()
}

/// Relies on std's `Path::extension`, with an empty string where it gives
/// none.
#[verifier::external_body]
fn extension(path: &str) -> (r: String)
    ensures
        r@ == path_extension(path@),
{
    Path::new(path).extension().and_then(|s| s.to_str()).unwrap_or("").to_string()
}

/// The display form of the last component of `path`: a stem longer than
/// `STEM_LIMIT` bytes is cut and marked with `...`, the extension is kept.
pub fn truncate_filename(path: &str) -> (r: String)
    ensures
        r@ == shortened_name(path_file_stem(path@), path_extension(path@)),
{
    let stem = file_stem(path);
    let ext = extension(path);
    shorten_name(stem.as_str(), ext.as_str())
}

/// The views of a list of (name, size) pairs.
pub open spec fn pairs_view(s: Seq<(String, u64)>) -> Seq<(Seq<char>, u64)> {
    s.map_values(|p: (String, u64)| (p.0@, p.1))
}

/// No name occurs twice.
pub open spec fn distinct_names(s: Seq<(Seq<char>, u64)>) -> bool {
    forall|i: int, j: int| 0 <= i < s.len() && 0 <= j < s.len() && i != j ==> s[i].0 != s[j].0
}

/// Whether some pair of `s` carries `name`.
pub open spec fn has_name(s: Seq<(Seq<char>, u64)>, name: Seq<char>) -> bool {
    exists|i: int| 0 <= i < s.len() && s[i].0 == name
}

/// `s` with the size of `name` set to `size`: an existing pair is replaced
/// where it stands, a new one goes to the end.
pub open spec fn upsert(s: Seq<(Seq<char>, u64)>, name: Seq<char>, size: u64) -> Seq<(Seq<char>, u64)> {
    if has_name(s, name) {
        s.update(choose|i: int| 0 <= i < s.len() && s[i].0 == name, (name, size))
    } else {
        s.push((name, size))
    }
}

/// The sum of the sizes in `s`.
pub open spec fn sizes_total(s: Seq<(Seq<char>, u64)>) -> nat
    decreases s.len(),
{
    if s.len() == 0 {
        0
    } else {
        sizes_total(s.drop_last()) + s.last().1 as nat
    }
}

/// `a` holds exactly the pairs of `b`, each once.
pub open spec fn same_entries(a: Seq<(Seq<char>, u64)>, b: Seq<(Seq<char>, u64)>) -> bool {
    &&& a.len() == b.len()
    &&& distinct_names(a)
    &&& forall|x: (Seq<char>, u64)| a.contains(x) <==> b.contains(x)
}

/// Names in strictly ascending order.
pub open spec fn sorted_by_name(s: Seq<(Seq<char>, u64)>) -> bool {
    forall|i: int, j: int| 0 <= i < j < s.len() ==> name_lt(s[i].0, s[j].0)
}

/// Sizes in descending order.
pub open spec fn sorted_by_size(s: Seq<(Seq<char>, u64)>) -> bool {
    forall|i: int, j: int| 0 <= i < j < s.len() ==> s[i].1 >= s[j].1
}

/// The sizes found for a set of names, one pair per name, in the order in
/// which the names first came. Setting the size of a name that is already
/// there replaces its size: the last write wins.
pub struct SizeTable {
    entries: Vec<(String, u64)>,
}

impl View for SizeTable {
    type V = Seq<(Seq<char>, u64)>;

    closed spec fn view(&self) -> Seq<(Seq<char>, u64)> {
        pairs_view(self.entries@)
    }
}

impl SizeTable {
    #[verifier::type_invariant]
    spec fn names_unique(&self) -> bool {
        distinct_names(self@)
    }

    /// An empty table.
    pub fn new() -> (r: SizeTable)
        ensures
            r@ == Seq::<(Seq<char>, u64)>::empty(),
    {
        let r = SizeTable { entries: Vec::new() };
        assert(r@ =~= Seq::<(Seq<char>, u64)>::empty());
        r
    }

    /// The number of names in the table.
    pub fn len(&self) -> (r: usize)
        ensures
            r == self@.len(),
    {
        self.entries.len()
    }

    /// Whether the table holds no name.
    pub fn is_empty(&self) -> (r: bool)
        ensures
            r == (self@.len() == 0),
    {
        self.entries.len() == 0
    }

    /// Sets the size of `name`, replacing the one it had.
    pub fn insert(&mut self, name: String, size: u64)
        ensures
            final(self)@ == upsert(old(self)@, name@, size),
    {
        proof {
            use_type_invariant(&*self);
        }
        let ghost before = self@;
        let mut taken = SizeTable::new();
        std::mem::swap(self, &mut taken);
        let SizeTable { mut entries } = taken;
        assert(pairs_view(entries@) == before);
        let mut i: usize = 0;
        while i < entries.len()
            invariant
                pairs_view(entries@) == before,
                before == old(self)@,
                distinct_names(before),
                i <= entries.len(),
                forall|j: int| 0 <= j < i ==> before[j].0 != name@,
            decreases entries.len() - i,
        {
            if entries[i].0 == name {
                assert(before[i as int].0 == name@);
                let ghost k = choose|k: int| 0 <= k < before.len() && before[k].0 == name@;
                assert(k == i);
                assert(has_name(before, name@));
                assert(upsert(before, name@, size) == before.update(i as int, (name@, size)));
                let _ = entries.remove(i);
                entries.insert(i, (name, size));
                assert(pairs_view(entries@) =~= before.update(i as int, (name@, size)));
                *self = SizeTable { entries };
                return;
            }
            i = i + 1;
        }
        entries.push((name, size));
        assert(pairs_view(entries@) =~= before.push((name@, size)));
        *self = SizeTable { entries };
    }

    /// The sum of all sizes in the table, saturating at `u64::MAX`.
    pub fn total(&self) -> (r: u64)
        ensures
            r == crate::snapshot::capped(sizes_total(self@)),
    {
        let mut sum: u64 = 0;
        let mut i: usize = 0;
        while i < self.entries.len()
            invariant
                i <= self.entries.len(),
                sum == crate::snapshot::capped(sizes_total(self@.subrange(0, i as int))),
            decreases self.entries.len() - i,
        {
            proof {
                let s = self@.subrange(0, i + 1);
                assert(s.drop_last() == self@.subrange(0, i as int));
            }
            sum = sum.saturating_add(self.entries[i].1);
            i = i + 1;
        }
        assert(self@.subrange(0, self@.len() as int) == self@);
        sum
    }
}

proof fn lemma_insert_contains(s: Seq<(Seq<char>, u64)>, p: int, x: (Seq<char>, u64))
    requires
        0 <= p <= s.len(),
    ensures
        s.insert(p, x).len() == s.len() + 1,
        forall|y: (Seq<char>, u64)| s.insert(p, x).contains(y) <==> (s.contains(y) || y == x),
{
    s.insert_ensures(p, x);
    let t = s.insert(p, x);
    assert forall|y: (Seq<char>, u64)| t.contains(y) <==> (s.contains(y) || y == x) by {
        if t.contains(y) {
            let k = choose|k: int| 0 <= k < t.len() && t[k] == y;
            if k < p {
                assert(s[k] == y);
            } else if k > p {
                assert(s[k - 1] == y);
            }
        }
        if s.contains(y) {
            let k = choose|k: int| 0 <= k < s.len() && s[k] == y;
            if k < p {
                assert(t[k] == y);
            } else {
                assert(t[k + 1] == y);
            }
        }
        if y == x {
            assert(t[p] == y);
        }
    }
}

proof fn lemma_insert_entry(o: Seq<(Seq<char>, u64)>, p: int, x: (Seq<char>, u64), u: Seq<(Seq<char>, u64)>)
    requires
        0 <= p <= o.len(),
        distinct_names(o),
        !has_name(o, x.0),
        forall|y: (Seq<char>, u64)| o.contains(y) <==> u.contains(y),
    ensures
        distinct_names(o.insert(p, x)),
        forall|y: (Seq<char>, u64)| o.insert(p, x).contains(y) <==> u.push(x).contains(y),
{
    let n = o.insert(p, x);
    lemma_insert_contains(o, p, x);
    o.insert_ensures(p, x);
    assert forall|y: (Seq<char>, u64)| n.contains(y) <==> u.push(x).contains(y) by {
        assert(o.contains(y) <==> u.contains(y));
        assert(n.contains(y) <==> (o.contains(y) || y == x));
        if u.push(x).contains(y) && y != x {
            let k = choose|k: int| 0 <= k < u.len() + 1 && u.push(x)[k] == y;
            assert(u[k] == y);
        }
        if u.contains(y) {
            let k = choose|k: int| 0 <= k < u.len() && u[k] == y;
            assert(u.push(x)[k] == y);
        }
        assert(u.push(x)[u.len() as int] == x);
    }
    assert forall|a: int, b: int| 0 <= a < n.len() && 0 <= b < n.len() && a != b implies n[a].0 != n[b].0 by {
        if a != p && b != p {
            let a0 = if a < p { a } else { a - 1 };
            let b0 = if b < p { b } else { b - 1 };
            assert(n[a] == o[a0]);
            assert(n[b] == o[b0]);
        } else if a == p {
            let b0 = if b < p { b } else { b - 1 };
            assert(n[b] == o[b0]);
        } else {
            let a0 = if a < p { a } else { a - 1 };
            assert(n[a] == o[a0]);
        }
    }
}

/// The pairs of `table`, names in ascending order.
pub fn sort_by_name(table: &SizeTable) -> (r: Vec<(String, u64)>)
    ensures
        same_entries(pairs_view(r@), table@),
        sorted_by_name(pairs_view(r@)),
{
    proof {
        use_type_invariant(table);
    }
    let ghost t = table@;
    let mut out: Vec<(String, u64)> = Vec::new();
    let mut i: usize = 0;
    while i < table.entries.len()
        invariant
            t == table@,
            distinct_names(t),
            i <= t.len(),
            pairs_view(out@).len() == i,
            distinct_names(pairs_view(out@)),
            sorted_by_name(pairs_view(out@)),
            forall|x: (Seq<char>, u64)| pairs_view(out@).contains(x) <==> t.subrange(0, i as int).contains(x),
        decreases t.len() - i,
    {
        let name = table.entries[i].0.clone();
        let size = table.entries[i].1;
        let ghost x = (name@, size);
        let ghost o = pairs_view(out@);
        assert(x == t[i as int]);
        assert(!has_name(o, name@)) by {
            if has_name(o, name@) {
                let k = choose|k: int| 0 <= k < o.len() && o[k].0 == name@;
                assert(o.contains(o[k]));
                let m = choose|m: int| 0 <= m < i && t.subrange(0, i as int)[m] == o[k];
                assert(t[m] == o[k]);
            }
        }
        let mut p: usize = 0;
        while p < out.len() && name_less(out[p].0.as_str(), name.as_str())
            invariant
                o == pairs_view(out@),
                p <= out.len(),
                forall|j: int| 0 <= j < p ==> name_lt(#[trigger] o[j].0, name@),
            decreases out.len() - p,
        {
            p = p + 1;
        }
        proof {
            if p < o.len() {
                assert(o[p as int].0 != name@);
                lemma_name_lt_total(o[p as int].0, name@);
                assert forall|j: int| p <= j < o.len() implies name_lt(name@, #[trigger] o[j].0) by {
                    if j > p {
                        lemma_name_lt_transitive(name@, o[p as int].0, o[j].0);
                    }
                }
            }
        }
        out.insert(p, (name, size));
        proof {
            let n = pairs_view(out@);
            assert(n =~= o.insert(p as int, x));
            o.insert_ensures(p as int, x);
            assert(t.subrange(0, i + 1) =~= t.subrange(0, i as int).push(x));
            lemma_insert_entry(o, p as int, x, t.subrange(0, i as int));
            assert forall|a: int, b: int| 0 <= a < b < n.len() implies name_lt(n[a].0, n[b].0) by {
                if b < p {
                } else if a > p {
                    assert(n[a] == o[a - 1]);
                    assert(n[b] == o[b - 1]);
                } else if a == p {
                    assert(n[b] == o[b - 1]);
                } else if b == p {
                } else {
                    assert(n[b] == o[b - 1]);
                    lemma_name_lt_transitive(o[a].0, name@, o[b - 1].0);
                }
            }
        }
        i = i + 1;
    }
    assert(t.subrange(0, t.len() as int) == t);
    out
}

/// The pairs of `table`, largest size first.
pub fn sort_by_size(table: &SizeTable) -> (r: Vec<(String, u64)>)
    ensures
        same_entries(pairs_view(r@), table@),
        sorted_by_size(pairs_view(r@)),
{
    proof {
        use_type_invariant(table);
    }
    let ghost t = table@;
    let mut out: Vec<(String, u64)> = Vec::new();
    let mut i: usize = 0;
    while i < table.entries.len()
        invariant
            t == table@,
            distinct_names(t),
            i <= t.len(),
            pairs_view(out@).len() == i,
            distinct_names(pairs_view(out@)),
            sorted_by_size(pairs_view(out@)),
            forall|x: (Seq<char>, u64)| pairs_view(out@).contains(x) <==> t.subrange(0, i as int).contains(x),
        decreases t.len() - i,
    {
        let name = table.entries[i].0.clone();
        let size = table.entries[i].1;
        let ghost x = (name@, size);
        let ghost o = pairs_view(out@);
        assert(x == t[i as int]);
        assert(!has_name(o, name@)) by {
            if has_name(o, name@) {
                let k = choose|k: int| 0 <= k < o.len() && o[k].0 == name@;
                assert(o.contains(o[k]));
                let m = choose|m: int| 0 <= m < i && t.subrange(0, i as int)[m] == o[k];
                assert(t[m] == o[k]);
            }
        }
        let mut p: usize = 0;
        while p < out.len() && out[p].1 >= size
            invariant
                o == pairs_view(out@),
                p <= out.len(),
                forall|j: int| 0 <= j < p ==> #[trigger] o[j].1 >= size,
            decreases out.len() - p,
        {
            p = p + 1;
        }
        out.insert(p, (name, size));
        proof {
            let n = pairs_view(out@);
            assert(n =~= o.insert(p as int, x));
            o.insert_ensures(p as int, x);
            assert(t.subrange(0, i + 1) =~= t.subrange(0, i as int).push(x));
            lemma_insert_entry(o, p as int, x, t.subrange(0, i as int));
            assert forall|a: int, b: int| 0 <= a < b < n.len() implies n[a].1 >= n[b].1 by {
                if b < p {
                } else if a > p {
                    assert(n[a] == o[a - 1]);
                    assert(n[b] == o[b - 1]);
                } else if a == p {
                    assert(n[b] == o[b - 1]);
                    assert(o[b - 1].1 <= o[p as int].1);
                } else if b == p {
                } else {
                    assert(n[b] == o[b - 1]);
                }
            }
        }
        i = i + 1;
    }
    assert(t.subrange(0, t.len() as int) == t);
    out
}

} // verus!

//! The snapshot of a candidate: the identity of its root and a digest over the
//! metadata of everything below it, taken in path order.
use vstd::prelude::*;
use vstd::utf8::encode_utf8;
use crate::digest::{hex_lower, le_bytes, lemma_hex_lower_len, push_le_bytes, sha256, sha256_of, to_hex_lower};
use crate::model::{Snapshot, SnapshotView};
use crate::paths::{components, components_after, components_of, components_start_with, path_starts_with, views};
use crate::sort::{sort_ranked, sorted_by_rank, Ranked};
use crate::text::{bytes_order, lemma_lex_flip, lemma_lex_transitive, lex_order, push_char, string_of, Order};

verus! {

/// The kind of a path component, in the order of `std::path::Component`: the root
/// directory, a leading `.`, `..`, then named components.
pub open spec fn component_kind(c: Seq<char>) -> nat {
    if c == seq!['/'] {
        0
    } else if c == seq!['.'] {
        1
    } else if c == seq!['.', '.'] {
        2
    } else {
        3
    }
}

/// How two components compare: by kind, then by their bytes.
pub open spec fn component_rank(a: Seq<char>, b: Seq<char>) -> Order {
    if component_kind(a) < component_kind(b) {
        Order::Less
    } else if component_kind(a) > component_kind(b) {
        Order::Greater
    } else {
        lex_order(encode_utf8(a), encode_utf8(b))
    }
}

/// How two component lists compare, lexicographically: `Path`'s `Ord`.
pub open spec fn components_rank(a: Seq<Seq<char>>, b: Seq<Seq<char>>) -> Order
    decreases a.len(),
{
    if a.len() == 0 {
        if b.len() == 0 { Order::Equal } else { Order::Less }
    } else if b.len() == 0 {
        Order::Greater
    } else {
        let c = component_rank(a[0], b[0]);
        if c != Order::Equal {
            c
        } else {
            components_rank(a.drop_first(), b.drop_first())
        }
    }
}

/// How two paths compare: component by component.
pub open spec fn path_rank(a: Seq<char>, b: Seq<char>) -> Order {
    components_rank(components(a), components(b))
}

proof fn lemma_component_flip(a: Seq<char>, b: Seq<char>)
    ensures
        component_rank(a, b) == component_rank(b, a).flip(),
{
    lemma_lex_flip(encode_utf8(a), encode_utf8(b));
}

proof fn lemma_component_transitive(a: Seq<char>, b: Seq<char>, c: Seq<char>)
    requires
        component_rank(a, b) != Order::Greater,
        component_rank(b, c) != Order::Greater,
    ensures
        component_rank(a, c) != Order::Greater,
        (component_rank(a, b) == Order::Less || component_rank(b, c) == Order::Less) ==> component_rank(a, c) == Order::Less,
        (component_rank(a, b) == Order::Equal && component_rank(b, c) == Order::Equal) ==> component_rank(a, c) == Order::Equal,
{
    if component_kind(a) == component_kind(b) && component_kind(b) == component_kind(c) {
        lemma_lex_transitive(encode_utf8(a), encode_utf8(b), encode_utf8(c));
        crate::text::lemma_lex_equal(encode_utf8(a), encode_utf8(b));
        crate::text::lemma_lex_equal(encode_utf8(b), encode_utf8(c));
        crate::text::lemma_lex_equal(encode_utf8(a), encode_utf8(c));
    }
}

proof fn lemma_components_flip(a: Seq<Seq<char>>, b: Seq<Seq<char>>)
    ensures
        components_rank(a, b) == components_rank(b, a).flip(),
    decreases a.len(),
{
    if a.len() > 0 && b.len() > 0 {
        lemma_component_flip(a[0], b[0]);
        lemma_components_flip(a.drop_first(), b.drop_first());
    }
}

proof fn lemma_components_transitive(a: Seq<Seq<char>>, b: Seq<Seq<char>>, c: Seq<Seq<char>>)
    requires
        components_rank(a, b) != Order::Greater,
        components_rank(b, c) != Order::Greater,
    ensures
        components_rank(a, c) != Order::Greater,
        (components_rank(a, b) == Order::Less || components_rank(b, c) == Order::Less) ==> components_rank(a, c) == Order::Less,
    decreases a.len(),
{
    if a.len() > 0 && b.len() > 0 && c.len() > 0 {
        lemma_component_flip(a[0], b[0]);
        lemma_component_flip(b[0], c[0]);
        if component_rank(a[0], b[0]) != Order::Greater && component_rank(b[0], c[0]) != Order::Greater {
            lemma_component_transitive(a[0], b[0], c[0]);
        }
        if component_rank(a[0], b[0]) == Order::Equal && component_rank(b[0], c[0]) == Order::Equal {
            lemma_components_transitive(a.drop_first(), b.drop_first(), c.drop_first());
        }
    }
}

/// How two components compare.
fn component_order(a: &Vec<char>, b: &Vec<char>) -> (res: Order)
    ensures
        res == component_rank(a@, b@),
{
    let ka = kind_of(a);
    let kb = kind_of(b);
    if ka < kb {
        Order::Less
    } else if ka > kb {
        Order::Greater
    } else {
        let sa = string_of(a.as_slice());
        let sb = string_of(b.as_slice());
        bytes_order(sa.as_str().as_bytes(), sb.as_str().as_bytes())
    }
}

/// The kind of a component.
fn kind_of(c: &Vec<char>) -> (res: u8)
    ensures
        res == component_kind(c@),
{
    if c.len() == 1 && c[0] == '/' {
        assert(c@ =~= seq!['/']);
        0
    } else if c.len() == 1 && c[0] == '.' {
        assert(c@ =~= seq!['.']);
        assert(c@ != seq!['/']);
        1
    } else if c.len() == 2 && c[0] == '.' && c[1] == '.' {
        assert(c@ =~= seq!['.', '.']);
        2
    } else {
        assert(c@ != seq!['/'] && c@ != seq!['.'] && c@ != seq!['.', '.']) by {
            if c@ == seq!['/'] { assert(c@[0] == '/'); }
            if c@ == seq!['.'] { assert(c@[0] == '.'); }
            if c@ == seq!['.', '.'] { assert(c@[0] == '.' && c@[1] == '.'); }
        }
        3
    }
}

/// How two paths compare, as `Path`'s `Ord` does.
pub fn path_order(a: &str, b: &str) -> (res: Order)
    ensures
        res == path_rank(a@, b@),
{
    let x = components_of(a);
    let y = components_of(b);
    let mut i: usize = 0;
    assert(views(x@).skip(0) =~= views(x@));
    assert(views(y@).skip(0) =~= views(y@));
    while i < x.len() && i < y.len()
        invariant
            i <= x.len(),
            i <= y.len(),
            path_rank(a@, b@) == components_rank(views(x@).skip(i as int), views(y@).skip(i as int)),
        decreases x.len() - i,
    {
        let c = component_order(&x[i], &y[i]);
        assert(views(x@).skip(i as int)[0] == x@[i as int]@);
        assert(views(y@).skip(i as int)[0] == y@[i as int]@);
        if c != Order::Equal {
            return c;
        }
        assert(views(x@).skip(i as int).drop_first() =~= views(x@).skip(i + 1));
        assert(views(y@).skip(i as int).drop_first() =~= views(y@).skip(i + 1));
        i = i + 1;
    }
    if i == x.len() && i == y.len() {
        Order::Equal
    } else if i == x.len() {
        Order::Less
    } else {
        Order::Greater
    }
}

/// Metadata of one entry below a candidate, as `symlink_metadata` reports it.
pub struct EntryMeta {
    pub device: u64,
    pub inode: u64,
    pub mode: u32,
    pub len: u64,
    pub mtime_nsec: i64,
    pub is_file: bool,
}

/// An entry found below a candidate (the candidate itself included) and its
/// metadata, or why that could not be read.
pub struct WalkEntry {
    pub path: String,
    pub meta: Result<EntryMeta, String>,
}

/// The contents of a `WalkEntry`.
pub struct WalkEntryView {
    pub path: Seq<char>,
    pub meta: Result<EntryMeta, Seq<char>>,
}

impl View for WalkEntry {
    type V = WalkEntryView;

    open spec fn view(&self) -> WalkEntryView {
        WalkEntryView {
            path: self.path@,
            meta: match self.meta {
                Ok(m) => Ok(m),
                Err(e) => Err(e@),
            },
        }
    }
}

impl Ranked for WalkEntry {
    open spec fn ranked(self, other: Self) -> Order {
        path_rank(self.path@, other.path@)
    }

    proof fn lemma_ranked_flip(a: Self, b: Self) {
        lemma_components_flip(components(a.path@), components(b.path@));
    }

    proof fn lemma_ranked_transitive(a: Self, b: Self, c: Self) {
        lemma_components_transitive(components(a.path@), components(b.path@), components(c.path@));
    }

    fn compare(&self, other: &Self) -> (res: Order) {
        path_order(self.path.as_str(), other.path.as_str())
    }
}

/// Metadata of a candidate's root, as `symlink_metadata` reports it.
pub struct RootMeta {
    pub device: u64,
    pub inode: u64,
    pub mode: u32,
    pub is_symlink: bool,
}

/// Components joined by `/`.
pub open spec fn joined_components(cs: Seq<Seq<char>>) -> Seq<char>
    decreases cs.len(),
{
    if cs.len() == 0 {
        Seq::<char>::empty()
    } else if cs.len() == 1 {
        cs[0]
    } else {
        joined_components(cs.drop_last()) + seq!['/'] + cs.last()
    }
}

/// An entry's path relative to the root, as hashed: its components below the root
/// joined by `/` (empty for the root itself), or `.` when it does not lie in the root.
pub open spec fn relative_text(path: Seq<char>, root: Seq<char>) -> Seq<char> {
    if path_starts_with(path, root) {
        joined_components(components_after(path, root))
    } else {
        seq!['.']
    }
}

/// The bytes that an entry adds to the digest: its relative path, a zero byte, then
/// device, inode, mode, length and the nanoseconds of its modification time, each as
/// eight little-endian bytes.
pub open spec fn entry_bytes(rel: Seq<char>, m: EntryMeta) -> Seq<u8> {
    encode_utf8(rel) + seq![0u8] + le_bytes(m.device) + le_bytes(m.inode) + le_bytes(m.mode as u64)
        + le_bytes(m.len) + le_bytes(m.mtime_nsec as u64)
}

/// The digest input and the file bytes of the first `n` entries, or the error of the
/// first entry whose metadata could not be read.
pub open spec fn walk_upto(root: Seq<char>, s: Seq<WalkEntryView>, n: int) -> Result<(Seq<u8>, nat), Seq<char>>
    decreases n,
{
    if n <= 0 {
        Ok((Seq::<u8>::empty(), 0nat))
    } else {
        match walk_upto(root, s, n - 1) {
            Err(e) => Err(e),
            Ok((bytes, size)) => match s[n - 1].meta {
                Err(e) => Err(s[n - 1].path + ": "@ + e),
                Ok(m) => Ok(
                    (
                        bytes + entry_bytes(relative_text(s[n - 1].path, root), m),
                        size + if m.is_file { m.len as nat } else { 0nat },
                    ),
                ),
            },
        }
    }
}

/// The snapshot of a root whose entries, in path order, are `s`: the root's identity,
/// the bytes of its files (at most `u64::MAX`), and the hexadecimal SHA-256 digest of
/// what the entries add.
pub open spec fn snapshot_of(root: Seq<char>, m: RootMeta, s: Seq<WalkEntryView>) -> Result<SnapshotView, Seq<char>> {
    match walk_upto(root, s, s.len() as int) {
        Err(e) => Err(e),
        Ok((bytes, size)) => Ok(
            SnapshotView {
                device: m.device,
                inode: m.inode,
                mode: m.mode,
                size: if size > u64::MAX { u64::MAX } else { size as u64 },
                digest: hex_lower(sha256_of(bytes)),
            },
        ),
    }
}

/// The views of walk entries.
pub open spec fn walk_views(s: Seq<WalkEntry>) -> Seq<WalkEntryView> {
    s.map_values(|e: WalkEntry| e@)
}

/// The message for a candidate root that is a symbolic link.
pub open spec fn symlink_root_message() -> Seq<char> {
    "候选根目录不能是符号链接"@
}

/// The view of a snapshot result.
pub open spec fn snapshot_view_result(r: Result<Snapshot, String>) -> Result<SnapshotView, Seq<char>> {
    match r {
        Ok(s) => Ok(s@),
        Err(e) => Err(e@),
    }
}

/// The relative path of an entry, as hashed.
fn relative_of(path: &str, root: &str) -> (res: String)
    ensures
        res@ == relative_text(path@, root@),
{
    let p = components_of(path);
    let r = components_of(root);
    if !components_start_with(&p, &r) {
        let mut dot = String::new();
        push_char(&mut dot, '.');
        assert(dot@ =~= seq!['.']);
        return dot;
    }
    let ghost rest = views(p@).skip(r.len() as int);
    assert(views(r@).len() == r.len());
    assert(rest == components_after(path@, root@));
    let mut out: Vec<char> = Vec::new();
    let mut k: usize = r.len();
    assert(rest.take(0) =~= Seq::<Seq<char>>::empty());
    while k < p.len()
        invariant
            r.len() <= k <= p.len(),
            rest == views(p@).skip(r.len() as int),
            out@ == joined_components(rest.take(k - r.len())),
        decreases p.len() - k,
    {
        let ghost n = k - r.len();
        assert(rest.take(n + 1).drop_last() =~= rest.take(n));
        assert(rest.take(n + 1).last() == p@[k as int]@);
        if k > r.len() {
            out.push('/');
        }
        let comp = &p[k];
        let ghost before = out@;
        let mut j: usize = 0;
        while j < comp.len()
            invariant
                j <= comp.len(),
                out@ == before + comp@.take(j as int),
            decreases comp.len() - j,
        {
            out.push(comp[j]);
            assert(comp@.take(j + 1) =~= comp@.take(j as int).push(comp@[j as int]));
            j = j + 1;
        }
        assert(comp@.take(comp.len() as int) =~= comp@);
        assert(out@ =~= joined_components(rest.take(n + 1)));
        k = k + 1;
    }
    assert(rest.take(rest.len() as int) =~= rest);
    string_of(out.as_slice())
}

/// Takes the snapshot of a candidate, given its path, the metadata of its root (or
/// why it could not be read) and the entries found below it, in any order. The
/// entries are put in path order first; a root that is a symbolic link is refused.
pub fn snapshot(root: &str, root_meta: Result<RootMeta, String>, entries: Vec<WalkEntry>) -> (res: Result<Snapshot, String>)
    ensures
        match root_meta {
            Err(e) => res is Err && res->Err_0@ == e@,
            Ok(m) => if m.is_symlink {
                res is Err && res->Err_0@ == symlink_root_message()
            } else {
                exists|s: Seq<WalkEntry>|
                    #![trigger s.to_multiset()]
                    s.to_multiset() == entries@.to_multiset() && sorted_by_rank(s) && snapshot_view_result(res)
                        == snapshot_of(root@, m, walk_views(s))
            },
        },
        res matches Ok(s) ==> s.digest@.len() == 64,
{
    let m = match root_meta {
        Ok(m) => m,
        Err(e) => return Err(e),
    };
    if m.is_symlink {
        return Err("候选根目录不能是符号链接".to_string());
    }
    let sorted = sort_ranked(entries);
    let ghost sv = walk_views(sorted@);
    let mut bytes: Vec<u8> = Vec::new();
    let mut size: u64 = 0;
    let mut i: usize = 0;
    while i < sorted.len()
        invariant
            i <= sorted.len(),
            sv == walk_views(sorted@),
            root_meta == Ok::<RootMeta, String>(m),
            !m.is_symlink,
            sorted@.to_multiset() == entries@.to_multiset(),
            sorted_by_rank(sorted@),
            walk_upto(root@, sv, i as int) matches Ok((b, z)) && b == bytes@ && size == (if z > u64::MAX { u64::MAX } else { z as u64 }),
        decreases sorted.len() - i,
    {
        let e = &sorted[i];
        assert(sv[i as int] == e@);
        let meta = match &e.meta {
            Ok(meta) => meta,
            Err(err) => {
                let mut msg = e.path.clone();
                msg.append(": ");
                msg.append(err.as_str());
                proof {
                    lemma_walk_error_sticks(root@, sv, i + 1, sv.len() as int);
                }
                let res: Result<Snapshot, String> = Err(msg);
                assert(snapshot_view_result(res) == snapshot_of(root@, m, sv));
                return res;
            },
        };
        let rel = relative_of(e.path.as_str(), root);
        let rb = rel.as_str().as_bytes();
        let ghost before = bytes@;
        let mut j: usize = 0;
        while j < rb.len()
            invariant
                j <= rb.len(),
                bytes@ == before + rb@.take(j as int),
            decreases rb.len() - j,
        {
            bytes.push(rb[j]);
            assert(rb@.take(j + 1) =~= rb@.take(j as int).push(rb@[j as int]));
            j = j + 1;
        }
        assert(rb@.take(rb.len() as int) =~= rb@);
        bytes.push(0u8);
        push_le_bytes(&mut bytes, meta.device);
        push_le_bytes(&mut bytes, meta.inode);
        push_le_bytes(&mut bytes, meta.mode as u64);
        push_le_bytes(&mut bytes, meta.len);
        push_le_bytes(&mut bytes, #[verifier::truncate] (meta.mtime_nsec as u64));
        assert(bytes@ =~= before + entry_bytes(relative_text(sv[i as int].path, root@), *meta));
        if meta.is_file {
            size = size.saturating_add(meta.len);
        }
        i = i + 1;
    }
    let digest = sha256(bytes.as_slice());
    let hex = to_hex_lower(digest.as_slice());
    proof {
        lemma_hex_lower_len(digest@);
    }
    let res: Result<Snapshot, String> = Ok(Snapshot { device: m.device, inode: m.inode, mode: m.mode, size, digest: hex });
    assert(snapshot_view_result(res) == snapshot_of(root@, m, sv));
    res
}

/// Once an entry's metadata is missing, the walk stays failed with its error.
proof fn lemma_walk_error_sticks(root: Seq<char>, s: Seq<WalkEntryView>, n: int, m: int)
    requires
        1 <= n <= m,
        walk_upto(root, s, n) is Err,
    ensures
        walk_upto(root, s, m) == walk_upto(root, s, n),
    decreases m - n,
{
    if n < m {
        lemma_walk_error_sticks(root, s, n, m - 1);
    }
}

} // verus!

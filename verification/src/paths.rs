//! Paths as the standard library's `Path` sees them: a string cut into components.
use vstd::prelude::*;
use crate::text::{chars_of, chars_equal, string_of};

verus! {

/// The pieces of a path string between its `/` separators, empty pieces included.
pub open spec fn pieces(s: Seq<char>) -> Seq<Seq<char>>
    decreases s.len(),
{
    if s.len() == 0 {
        seq![Seq::<char>::empty()]
    } else {
        let p = pieces(s.drop_last());
        if s.last() == '/' {
            p.push(Seq::<char>::empty())
        } else {
            p.update(p.len() - 1, p.last().push(s.last()))
        }
    }
}

/// A piece that `Path::components` reports as a component of its own: not empty, not `.`.
pub open spec fn is_named_piece(p: Seq<char>) -> bool {
    p.len() > 0 && p != seq!['.']
}

/// The pieces that name something, in order.
pub open spec fn named_pieces(ps: Seq<Seq<char>>) -> Seq<Seq<char>>
    decreases ps.len(),
{
    if ps.len() == 0 {
        Seq::<Seq<char>>::empty()
    } else {
        let r = named_pieces(ps.drop_last());
        if is_named_piece(ps.last()) {
            r.push(ps.last())
        } else {
            r
        }
    }
}

/// The path starts at the root directory.
pub open spec fn has_root(s: Seq<char>) -> bool {
    s.len() > 0 && s[0] == '/'
}

/// The path starts with a `.` component of its own (`.` or `./...`).
pub open spec fn has_leading_cur_dir(s: Seq<char>) -> bool {
    s.len() > 0 && s[0] == '.' && (s.len() == 1 || s[1] == '/')
}

/// The components of a path, as `Path::components` yields them on Unix: the root
/// directory as `/`, a leading `.` as `.`, then every piece that is neither empty
/// nor `.` (so `..` stays).
pub open spec fn components(s: Seq<char>) -> Seq<Seq<char>> {
    (if has_root(s) {
        seq![seq!['/']]
    } else if has_leading_cur_dir(s) {
        seq![seq!['.']]
    } else {
        Seq::<Seq<char>>::empty()
    }) + named_pieces(pieces(s))
}

/// `Path::starts_with`: the components of `base` come first in those of `path`.
pub open spec fn path_starts_with(path: Seq<char>, base: Seq<char>) -> bool {
    components(base).is_prefix_of(components(path))
}

/// `Path`'s `==`: the two paths have the same components.
pub open spec fn same_path(a: Seq<char>, b: Seq<char>) -> bool {
    components(a) == components(b)
}

/// The components of `path` after those of `base`, as `Path::strip_prefix` leaves them.
pub open spec fn components_after(path: Seq<char>, base: Seq<char>) -> Seq<Seq<char>> {
    components(path).skip(components(base).len() as int)
}

/// `Path::join` with a relative or absolute second part: an absolute part replaces
/// the base; otherwise a `/` is put between them unless the base is empty or ends in one.
pub open spec fn joined(base: Seq<char>, part: Seq<char>) -> Seq<char> {
    if part.len() > 0 && part[0] == '/' {
        part
    } else if base.len() == 0 || base.last() == '/' {
        base + part
    } else {
        base + seq!['/'] + part
    }
}

/// `Path::file_name`: the last component, unless it is the root, `.` or `..`.
pub open spec fn file_name(s: Seq<char>) -> Option<Seq<char>> {
    let c = components(s);
    if c.len() == 0 {
        None
    } else {
        let last = c.last();
        if last == seq!['/'] || last == seq!['.'] || last == seq!['.', '.'] {
            None
        } else {
            Some(last)
        }
    }
}

/// Index of the last `.` in a name, or -1 when there is none.
pub open spec fn last_dot(s: Seq<char>) -> int
    decreases s.len(),
{
    if s.len() == 0 {
        -1
    } else if s.last() == '.' {
        s.len() - 1
    } else {
        last_dot(s.drop_last())
    }
}

/// `Path::extension` of a file name: what follows its last `.`, unless there is no `.`
/// or the only place it could split is the very start of the name.
pub open spec fn extension(name: Seq<char>) -> Option<Seq<char>> {
    let k = last_dot(name);
    if k <= 0 {
        None
    } else {
        Some(name.subrange(k + 1, name.len() as int))
    }
}

/// A path without its trailing separators and trailing `.` components, as
/// `Path` trims what is left after its last component is taken off; a lone
/// first character stays.
pub open spec fn trim_tail(s: Seq<char>) -> Seq<char>
    decreases s.len(),
{
    if s.len() <= 1 {
        s
    } else if s.last() == '/' {
        trim_tail(s.drop_last())
    } else if s.last() == '.' && s[s.len() - 2] == '/' {
        trim_tail(s.drop_last())
    } else {
        s
    }
}

/// Index of the last `/` in a path, or -1 when there is none.
pub open spec fn last_sep(s: Seq<char>) -> int
    decreases s.len(),
{
    if s.len() == 0 {
        -1
    } else if s.last() == '/' {
        s.len() - 1
    } else {
        last_sep(s.drop_last())
    }
}

/// `Path::parent`: nothing for the root directory or an empty path; otherwise the
/// path up to its last component, without trailing separators and `.` components.
pub open spec fn parent_text(s: Seq<char>) -> Option<Seq<char>> {
    if components(s).len() == 0 || components(s) == seq![seq!['/']] {
        None
    } else {
        let t = trim_tail(s);
        let k = last_sep(t);
        Some(if k < 0 { Seq::<char>::empty() } else { trim_tail(t.take(k + 1)) })
    }
}

/// The character sequences of a vector of character vectors.
pub open spec fn views(v: Seq<Vec<char>>) -> Seq<Seq<char>> {
    v.map_values(|x: Vec<char>| x@)
}

proof fn lemma_pieces_not_empty(s: Seq<char>)
    ensures
        pieces(s).len() >= 1,
    decreases s.len(),
{
    if s.len() > 0 {
        lemma_pieces_not_empty(s.drop_last());
    }
}

proof fn lemma_last_dot_range(s: Seq<char>)
    ensures
        -1 <= last_dot(s) < s.len(),
        last_dot(s) >= 0 ==> s[last_dot(s)] == '.',
        forall|j: int| last_dot(s) < j < s.len() ==> s[j] != '.',
    decreases s.len(),
{
    if s.len() > 0 {
        lemma_last_dot_range(s.drop_last());
        assert forall|j: int| last_dot(s) < j < s.len() implies s[j] != '.' by {
            if j < s.len() - 1 {
                assert(s[j] == s.drop_last()[j]);
            }
        }
    }
}

/// The components of a path string.
pub fn components_of(path: &str) -> (res: Vec<Vec<char>>)
    ensures
        views(res@) == components(path@),
{
    let cs = chars_of(path);
    let mut out: Vec<Vec<char>> = Vec::new();
    let ghost first: Seq<Seq<char>> = if has_root(cs@) {
        seq![seq!['/']]
    } else if has_leading_cur_dir(cs@) {
        seq![seq!['.']]
    } else {
        Seq::<Seq<char>>::empty()
    };
    if cs.len() > 0 && cs[0] == '/' {
        let mut root: Vec<char> = Vec::new();
        root.push('/');
        assert(root@ =~= seq!['/']);
        out.push(root);
        assert(views(out@) =~= first);
    } else if cs.len() > 0 && cs[0] == '.' && (cs.len() == 1 || cs[1] == '/') {
        let mut root: Vec<char> = Vec::new();
        root.push('.');
        assert(root@ =~= seq!['.']);
        out.push(root);
        assert(views(out@) =~= first);
    } else {
        assert(views(out@) =~= first);
    }
    let ghost prefix = views(out@);
    let mut cur: Vec<char> = Vec::new();
    let mut i: usize = 0;
    assert(cs@.take(0) =~= Seq::<char>::empty());
    assert(views(out@) =~= prefix + named_pieces(pieces(cs@.take(0)).drop_last()));
    while i < cs.len()
        invariant
            i <= cs.len(),
            pieces(cs@.take(i as int)).len() >= 1,
            cur@ == pieces(cs@.take(i as int)).last(),
            views(out@) == prefix + named_pieces(pieces(cs@.take(i as int)).drop_last()),
        decreases cs.len() - i,
    {
        let ghost ps = pieces(cs@.take(i as int));
        let c = cs[i];
        assert(cs@.take(i + 1).drop_last() =~= cs@.take(i as int));
        assert(cs@.take(i + 1).last() == c);
        if c == '/' {
            assert(pieces(cs@.take(i + 1)) == ps.push(Seq::<char>::empty()));
            assert(ps.push(Seq::<char>::empty()).drop_last() =~= ps);
            assert(ps.drop_last().push(ps.last()) =~= ps);
            if cur.len() > 0 && !(cur.len() == 1 && cur[0] == '.') {
                assert(is_named_piece(cur@)) by {
                    if cur@ == seq!['.'] {
                        assert(cur@.len() == 1);
                    }
                }
                let ghost before = out@;
                out.push(cur);
                assert(views(out@) =~= views(before).push(ps.last()));
            } else {
                assert(!is_named_piece(cur@)) by {
                    if cur.len() == 1 && cur[0] == '.' {
                        assert(cur@ =~= seq!['.']);
                    }
                }
            }
            cur = Vec::new();
            assert(cur@ =~= Seq::<char>::empty());
        } else {
            let ghost old_cur = cur@;
            cur.push(c);
            let ghost np = ps.update(ps.len() - 1, ps.last().push(c));
            assert(pieces(cs@.take(i + 1)) == np);
            assert(np.drop_last() =~= ps.drop_last());
        }
        i = i + 1;
    }
    assert(cs@.take(cs.len() as int) =~= cs@);
    let ghost ps = pieces(cs@);
    assert(ps.drop_last().push(ps.last()) =~= ps);
    if cur.len() > 0 && !(cur.len() == 1 && cur[0] == '.') {
        assert(is_named_piece(cur@)) by {
            if cur@ == seq!['.'] {
                assert(cur@.len() == 1);
            }
        }
        let ghost before = out@;
        out.push(cur);
        assert(views(out@) =~= views(before).push(ps.last()));
    } else {
        assert(!is_named_piece(cur@)) by {
            if cur.len() == 1 && cur[0] == '.' {
                assert(cur@ =~= seq!['.']);
            }
        }
    }
    out
}

/// Whether the components `base` come first in `path`.
pub fn components_start_with(path: &Vec<Vec<char>>, base: &Vec<Vec<char>>) -> (res: bool)
    ensures
        res == views(base@).is_prefix_of(views(path@)),
{
    if base.len() > path.len() {
        return false;
    }
    let mut i: usize = 0;
    while i < base.len()
        invariant
            base.len() <= path.len(),
            i <= base.len(),
            forall|j: int| 0 <= j < i ==> base@[j]@ == path@[j]@,
        decreases base.len() - i,
    {
        if !chars_equal(base[i].as_slice(), path[i].as_slice()) {
            assert(views(base@)[i as int] != views(path@).subrange(0, base.len() as int)[i as int]);
            return false;
        }
        i = i + 1;
    }
    assert(views(base@) =~= views(path@).subrange(0, base.len() as int));
    true
}

/// Whether two component lists are the same.
pub fn components_equal(a: &Vec<Vec<char>>, b: &Vec<Vec<char>>) -> (res: bool)
    ensures
        res == (views(a@) == views(b@)),
{
    if a.len() != b.len() {
        assert(views(a@).len() != views(b@).len());
        return false;
    }
    let r = components_start_with(a, b);
    if r {
        assert(views(a@) =~= views(b@));
    } else {
        assert(views(a@) != views(b@)) by {
            if views(a@) == views(b@) {
                assert(views(b@) =~= views(a@).subrange(0, b.len() as int));
            }
        }
    }
    r
}

/// `Path::starts_with` on two path strings.
pub fn starts_with(path: &str, base: &str) -> (res: bool)
    ensures
        res == path_starts_with(path@, base@),
{
    let p = components_of(path);
    let b = components_of(base);
    components_start_with(&p, &b)
}

/// `Path`'s `==` on two path strings.
pub fn paths_equal(a: &str, b: &str) -> (res: bool)
    ensures
        res == same_path(a@, b@),
{
    let x = components_of(a);
    let y = components_of(b);
    components_equal(&x, &y)
}

/// `Path::join`, as a string.
pub fn join(base: &str, part: &str) -> (res: String)
    ensures
        res@ == joined(base@, part@),
{
    let b = chars_of(base);
    let p = chars_of(part);
    if p.len() > 0 && p[0] == '/' {
        return string_of(p.as_slice());
    }
    let mut all = b;
    if all.len() > 0 && all[all.len() - 1] != '/' {
        all.push('/');
    }
    let ghost head = all@;
    let mut i: usize = 0;
    while i < p.len()
        invariant
            i <= p.len(),
            all@ == head + p@.take(i as int),
        decreases p.len() - i,
    {
        all.push(p[i]);
        assert(p@.take(i + 1) =~= p@.take(i as int).push(p@[i as int]));
        i = i + 1;
    }
    assert(p@.take(p.len() as int) =~= p@);
    assert(all@ =~= joined(base@, part@));
    string_of(all.as_slice())
}

/// `Path::file_name` of a path string.
pub fn file_name_of(path: &str) -> (res: Option<Vec<char>>)
    ensures
        match res {
            Some(n) => file_name(path@) == Some(n@),
            None => file_name(path@) is None,
        },
{
    let c = components_of(path);
    if c.len() == 0 {
        return None;
    }
    let last = &c[c.len() - 1];
    assert(views(c@).last() == last@);
    let root = last.len() == 1 && last[0] == '/';
    let cur = last.len() == 1 && last[0] == '.';
    let parent = last.len() == 2 && last[0] == '.' && last[1] == '.';
    if root || cur || parent {
        assert(last@ == seq!['/'] || last@ == seq!['.'] || last@ == seq!['.', '.']) by {
            if root { assert(last@ =~= seq!['/']); }
            if cur { assert(last@ =~= seq!['.']); }
            if parent { assert(last@ =~= seq!['.', '.']); }
        }
        None
    } else {
        assert(!(last@ == seq!['/'] || last@ == seq!['.'] || last@ == seq!['.', '.'])) by {
            if last@ == seq!['/'] { assert(last@[0] == '/'); }
            if last@ == seq!['.'] { assert(last@[0] == '.'); }
            if last@ == seq!['.', '.'] { assert(last@[0] == '.' && last@[1] == '.'); }
        }
        Some(last.clone())
    }
}

/// The characters of a path without its trailing separators and `.` components.
fn trim_tail_chars(v: &[char]) -> (res: Vec<char>)
    ensures
        res@ == trim_tail(v@),
{
    let mut n: usize = v.len();
    assert(v@.take(n as int) =~= v@);
    while n > 1 && (v[n - 1] == '/' || (v[n - 1] == '.' && v[n - 2] == '/'))
        invariant
            n <= v.len(),
            trim_tail(v@) == trim_tail(v@.take(n as int)),
        decreases n,
    {
        assert(v@.take(n as int).drop_last() =~= v@.take(n - 1));
        n = n - 1;
    }
    let mut res: Vec<char> = Vec::new();
    let mut i: usize = 0;
    while i < n
        invariant
            i <= n,
            n <= v.len(),
            res@ == v@.take(i as int),
        decreases n - i,
    {
        res.push(v[i]);
        assert(v@.take(i + 1) =~= v@.take(i as int).push(v@[i as int]));
        i = i + 1;
    }
    res
}

/// Where the last `/` of the characters stands.
fn last_sep_of(v: &[char]) -> (res: Option<usize>)
    ensures
        match res {
            Some(k) => k < v.len() && last_sep(v@) == k,
            None => last_sep(v@) == -1,
        },
{
    let mut n: usize = v.len();
    assert(v@.take(n as int) =~= v@);
    while n > 0
        invariant
            n <= v.len(),
            last_sep(v@) == last_sep(v@.take(n as int)),
        decreases n,
    {
        if v[n - 1] == '/' {
            return Some(n - 1);
        }
        assert(v@.take(n as int).drop_last() =~= v@.take(n - 1));
        n = n - 1;
    }
    None
}

/// `Path::parent` of a path.
pub fn parent_of(path: &str) -> (res: Option<String>)
    ensures
        match res {
            Some(p) => parent_text(path@) == Some(p@),
            None => parent_text(path@) is None,
        },
{
    let c = components_of(path);
    if c.len() == 0 {
        return None;
    }
    if c.len() == 1 && c[0].len() == 1 && c[0][0] == '/' {
        assert(components(path@) =~= seq![seq!['/']]) by {
            assert(views(c@)[0] =~= seq!['/']);
        }
        return None;
    }
    assert(components(path@) != seq![seq!['/']]) by {
        if components(path@) == seq![seq!['/']] {
            assert(views(c@)[0] == seq!['/']);
            assert(c@[0]@ == seq!['/']);
        }
    }
    let chars = chars_of(path);
    let t = trim_tail_chars(chars.as_slice());
    match last_sep_of(t.as_slice()) {
        None => Some(String::new()),
        Some(k) => {
            let mut head: Vec<char> = Vec::new();
            let mut i: usize = 0;
            while i <= k
                invariant
                    i <= k + 1,
                    k < t.len(),
                    head@ == t@.take(i as int),
                decreases k + 1 - i,
            {
                head.push(t[i]);
                assert(t@.take(i + 1) =~= t@.take(i as int).push(t@[i as int]));
                i = i + 1;
            }
            let p = trim_tail_chars(head.as_slice());
            Some(string_of(p.as_slice()))
        },
    }
}

/// `Path::extension` of a file name.
pub fn extension_of(name: &[char]) -> (res: Option<Vec<char>>)
    ensures
        match res {
            Some(e) => extension(name@) == Some(e@),
            None => extension(name@) is None,
        },
{
    proof {
        lemma_last_dot_range(name@);
    }
    let mut k: usize = name.len();
    while k > 0 && name[k - 1] != '.'
        invariant
            k <= name.len(),
            forall|j: int| k <= j < name.len() ==> name@[j] != '.',
        decreases k,
    {
        k = k - 1;
    }
    if k <= 1 {
        proof {
            if k == 1 {
                assert(last_dot(name@) == 0);
            } else {
                assert(last_dot(name@) < 0);
            }
        }
        return None;
    }
    assert(last_dot(name@) == k - 1);
    let mut e: Vec<char> = Vec::new();
    let mut i: usize = k;
    while i < name.len()
        invariant
            k <= i <= name.len(),
            e@ == name@.subrange(k as int, i as int),
        decreases name.len() - i,
    {
        e.push(name[i]);
        assert(name@.subrange(k as int, i + 1) =~= name@.subrange(k as int, i as int).push(name@[i as int]));
        i = i + 1;
    }
    Some(e)
}

} // verus!

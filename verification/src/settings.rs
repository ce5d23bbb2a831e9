//! The project roots that the dependency rule walks: defaults, and the checks a
//! root must pass before it is saved.
use vstd::prelude::*;
use crate::paths::{
    components_after, components_of, components_start_with, join, joined, path_starts_with,
    same_path, views, components_equal,
};
use crate::scanner::{any_component_in, device_result, name_list, string_result};
use crate::sort::{sort_ranked, sorted_by_rank, Ranked};
use crate::text::{lemma_encode_injective, lemma_lex_equal, str_rank, Order};
use vstd::utf8::encode_utf8;

verus! {

/// The saved settings.
#[derive(Debug, Clone, PartialEq)]
pub struct Settings {
    pub project_roots: Vec<String>,
}

/// Settings as the user submits them.
#[derive(Debug, Clone)]
pub struct SettingsInput {
    pub project_roots: Vec<String>,
}

/// Directories in the home directory that serve as project roots when they exist.
pub open spec fn default_root_names() -> Seq<Seq<char>> {
    seq!["Code"@, "Developer"@, "Projects"@, "workspace"@, "work"@]
}

/// Names that may not occur below the home directory in a project root.
pub open spec fn denied_names() -> Seq<Seq<char>> {
    seq![
        "Library"@,
        ".Trash"@,
        "CloudStorage"@,
        "Mobile Documents"@,
        "Applications"@,
        ".ssh"@,
        ".gnupg"@,
    ]
}

/// The characters of each string.
pub open spec fn string_views(s: Seq<String>) -> Seq<Seq<char>> {
    s.map_values(|x: String| x@)
}

/// The default roots' paths in the home directory, in order.
pub fn default_root_paths(home: &str) -> (res: Vec<String>)
    ensures
        string_views(res@) == default_root_names().map_values(|n: Seq<char>| joined(home@, n)),
{
    let mut res: Vec<String> = Vec::new();
    res.push(join(home, "Code"));
    res.push(join(home, "Developer"));
    res.push(join(home, "Projects"));
    res.push(join(home, "workspace"));
    res.push(join(home, "work"));
    assert(string_views(res@) =~= default_root_names().map_values(|n: Seq<char>| joined(home@, n)));
    res
}

/// The default roots among the first `n` that are directories.
pub open spec fn defaults_upto(home: Seq<char>, is_dir: Seq<bool>, n: int) -> Seq<Seq<char>>
    decreases n,
{
    if n <= 0 {
        Seq::<Seq<char>>::empty()
    } else {
        let r = defaults_upto(home, is_dir, n - 1);
        if is_dir[n - 1] {
            r.push(joined(home, default_root_names()[n - 1]))
        } else {
            r
        }
    }
}

/// The default settings: the default roots that are directories, given for each
/// path of `default_root_paths` whether it is one.
pub fn defaults(home: &str, is_dir: &[bool]) -> (res: Settings)
    requires
        is_dir.len() == 5,
    ensures
        string_views(res.project_roots@) == defaults_upto(home@, is_dir@, 5),
{
    let paths = default_root_paths(home);
    assert(string_views(paths@).len() == paths@.len());
    let mut roots: Vec<String> = Vec::new();
    let mut i: usize = 0;
    while i < 5
        invariant
            i <= 5,
            is_dir.len() == 5,
            paths.len() == 5,
            string_views(paths@) == default_root_names().map_values(|n: Seq<char>| joined(home@, n)),
            string_views(roots@) == defaults_upto(home@, is_dir@, i as int),
        decreases 5 - i,
    {
        if is_dir[i] {
            let ghost before = roots@;
            roots.push(paths[i].clone());
            assert(string_views(paths@)[i as int] == paths@[i as int]@);
            assert(string_views(roots@) =~= string_views(before).push(paths@[i as int]@));
        }
        i = i + 1;
    }
    Settings { project_roots: roots }
}

/// What was learned of a requested root: whether it is a symbolic link, its
/// canonical path, and the device of that path, each with why it could not be had.
pub struct RootProbe {
    pub is_symlink: Result<bool, String>,
    pub canonical: Result<String, String>,
    pub device: Result<u64, String>,
}

/// The contents of a `RootProbe`.
pub struct RootProbeView {
    pub is_symlink: Result<bool, Seq<char>>,
    pub canonical: Result<Seq<char>, Seq<char>>,
    pub device: Result<u64, Seq<char>>,
}

impl View for RootProbe {
    type V = RootProbeView;

    open spec fn view(&self) -> RootProbeView {
        RootProbeView {
            is_symlink: match self.is_symlink {
                Ok(b) => Ok(b),
                Err(e) => Err(e@),
            },
            canonical: match self.canonical {
                Ok(p) => Ok(p@),
                Err(e) => Err(e@),
            },
            device: match self.device {
                Ok(d) => Ok(d),
                Err(e) => Err(e@),
            },
        }
    }
}

/// The outcome of checking one requested root: its canonical path, or why it is
/// refused. A root must be no symbolic link, lie strictly inside the home directory,
/// have no denied name below home, and be on the home directory's file system.
pub open spec fn root_check(raw: Seq<char>, home: Seq<char>, home_device: u64, probe: RootProbeView) -> Result<
    Seq<char>,
    Seq<char>,
> {
    match probe.is_symlink {
        Err(e) => Err(raw + ": "@ + e),
        Ok(true) => Err("不允许符号链接根目录："@ + raw),
        Ok(false) => match probe.canonical {
            Err(e) => Err(raw + ": "@ + e),
            Ok(path) => if same_path(path, home) || !path_starts_with(path, home) {
                Err("项目目录必须位于用户目录内："@ + raw)
            } else if exists|i: int|
                0 <= i < components_after(path, home).len() && denied_names().contains(
                    #[trigger] components_after(path, home)[i],
                ) {
                Err("不允许扫描敏感目录："@ + raw)
            } else {
                match probe.device {
                    Err(e) => Err(e),
                    Ok(d) => if d != home_device {
                        Err("项目目录必须与用户目录位于同一文件系统："@ + raw)
                    } else {
                        Ok(path)
                    },
                }
            },
        },
    }
}

/// The roots checked so far, without repeats, or the first refusal.
pub open spec fn roots_upto(
    home: Seq<char>,
    home_device: u64,
    roots: Seq<Seq<char>>,
    probes: Seq<RootProbeView>,
    n: int,
) -> Result<Seq<Seq<char>>, Seq<char>>
    decreases n,
{
    if n <= 0 {
        Ok(Seq::<Seq<char>>::empty())
    } else {
        match roots_upto(home, home_device, roots, probes, n - 1) {
            Err(e) => Err(e),
            Ok(v) => match root_check(roots[n - 1], home, home_device, probes[n - 1]) {
                Err(e) => Err(e),
                Ok(p) => Ok(if v.contains(p) { v } else { v.push(p) }),
            },
        }
    }
}

/// The outcome of validating roots: the home directory must be canonical and its
/// device known; then every root must pass, and the distinct canonical roots remain.
pub open spec fn validation(
    home: Result<Seq<char>, Seq<char>>,
    home_device: Result<u64, Seq<char>>,
    roots: Seq<Seq<char>>,
    probes: Seq<RootProbeView>,
) -> Result<Seq<Seq<char>>, Seq<char>> {
    match home {
        Err(e) => Err(e),
        Ok(h) => match home_device {
            Err(e) => Err(e),
            Ok(d) => roots_upto(h, d, roots, probes, roots.len() as int),
        },
    }
}

/// The denied names, as characters.
fn denied_list() -> (res: Vec<Vec<char>>)
    ensures
        views(res@) == denied_names(),
{
    let names = ["Library", ".Trash", "CloudStorage", "Mobile Documents", "Applications", ".ssh", ".gnupg"];
    let res = name_list(&names);
    assert(views(res@) =~= denied_names());
    res
}

/// Checks one requested root.
pub fn check_root(raw: &str, home: &str, home_device: u64, probe: &RootProbe) -> (res: Result<String, String>)
    ensures
        match res {
            Ok(p) => root_check(raw@, home@, home_device, probe@) == Ok::<Seq<char>, Seq<char>>(p@),
            Err(e) => root_check(raw@, home@, home_device, probe@) == Err::<Seq<char>, Seq<char>>(e@),
        },
{
    match &probe.is_symlink {
        Err(e) => {
            let mut m = raw.to_string();
            m.append(": ");
            m.append(e.as_str());
            return Err(m);
        },
        Ok(true) => {
            let mut m = "不允许符号链接根目录：".to_string();
            m.append(raw);
            return Err(m);
        },
        Ok(false) => {},
    }
    let path = match &probe.canonical {
        Err(e) => {
            let mut m = raw.to_string();
            m.append(": ");
            m.append(e.as_str());
            return Err(m);
        },
        Ok(p) => p,
    };
    let pc = components_of(path.as_str());
    let hc = components_of(home);
    if components_equal(&pc, &hc) || !components_start_with(&pc, &hc) {
        let mut m = "项目目录必须位于用户目录内：".to_string();
        m.append(raw);
        return Err(m);
    }
    let denied = denied_list();
    assert(views(hc@).len() == hc.len());
    assert(views(pc@).skip(hc.len() as int) == components_after(path@, home@));
    if any_component_in(&pc, hc.len(), &denied) {
        let mut m = "不允许扫描敏感目录：".to_string();
        m.append(raw);
        return Err(m);
    }
    match &probe.device {
        Err(e) => Err(e.clone()),
        Ok(d) => {
            if *d != home_device {
                let mut m = "项目目录必须与用户目录位于同一文件系统：".to_string();
                m.append(raw);
                Err(m)
            } else {
                Ok(path.clone())
            }
        },
    }
}

/// Whether a string with these characters is in the list.
fn contains_string(v: &Vec<String>, s: &String) -> (res: bool)
    ensures
        res == string_views(v@).contains(s@),
{
    let mut i: usize = 0;
    while i < v.len()
        invariant
            i <= v.len(),
            forall|j: int| 0 <= j < i ==> v@[j]@ != s@,
        decreases v.len() - i,
    {
        if v[i] == *s {
            assert(string_views(v@)[i as int] == s@);
            return true;
        }
        i = i + 1;
    }
    assert(!string_views(v@).contains(s@)) by {
        if string_views(v@).contains(s@) {
            let j = choose|j: int| 0 <= j < string_views(v@).len() && string_views(v@)[j] == s@;
            assert(v@[j]@ == s@);
        }
    }
    false
}

/// The views of root probes.
pub open spec fn probe_views(s: Seq<RootProbe>) -> Seq<RootProbeView> {
    s.map_values(|p: RootProbe| p@)
}

/// Validates requested project roots, given the canonical home directory and its
/// device (or why they could not be had) and, for each root, what was learned of
/// it. The first refusal is returned; otherwise the distinct canonical roots,
/// sorted by their bytes.
pub fn validate_roots(
    home: Result<String, String>,
    home_device: Result<u64, String>,
    roots: Vec<String>,
    probes: Vec<RootProbe>,
) -> (res: Result<Settings, String>)
    requires
        probes.len() == roots.len(),
    ensures
        match (res, validation(
            string_result(home),
            device_result(home_device),
            string_views(roots@),
            probe_views(probes@),
        )) {
            (Ok(s), Ok(v)) => {
                &&& string_views(s.project_roots@).to_set() == v.to_set()
                &&& string_views(s.project_roots@).len() == v.len()
                &&& forall|i: int, j: int|
                    0 <= i < j < s.project_roots@.len() ==> #[trigger] str_rank(
                        s.project_roots@[i]@,
                        s.project_roots@[j]@,
                    ) == Order::Less
            },
            (Err(e), Err(f)) => e@ == f,
            _ => false,
        },
{
    let h = match home {
        Ok(h) => h,
        Err(e) => return Err(e),
    };
    let d = match home_device {
        Ok(d) => d,
        Err(e) => return Err(e),
    };
    let ghost rv = string_views(roots@);
    let ghost pv = probe_views(probes@);
    let mut valid: Vec<String> = Vec::new();
    let mut i: usize = 0;
    assert(string_views(valid@) =~= Seq::<Seq<char>>::empty());
    while i < roots.len()
        invariant
            i <= roots.len(),
            probes.len() == roots.len(),
            rv == string_views(roots@),
            pv == probe_views(probes@),
            string_result(home) == Ok::<Seq<char>, Seq<char>>(h@),
            device_result(home_device) == Ok::<u64, Seq<char>>(d),
            roots_upto(h@, d, rv, pv, i as int) == Ok::<Seq<Seq<char>>, Seq<char>>(string_views(valid@)),
            string_views(valid@).no_duplicates(),
        decreases roots.len() - i,
    {
        assert(rv[i as int] == roots@[i as int]@);
        assert(pv[i as int] == probes@[i as int]@);
        let p = match check_root(roots[i].as_str(), h.as_str(), d, &probes[i]) {
            Ok(p) => p,
            Err(e) => {
                proof {
                    assert(roots_upto(h@, d, rv, pv, i + 1) == Err::<Seq<Seq<char>>, Seq<char>>(e@));
                    lemma_roots_error_sticks(h@, d, rv, pv, i + 1, roots.len() as int);
                    assert(rv.len() == roots.len());
                    assert(string_result(home) == Ok::<Seq<char>, Seq<char>>(h@));
                    assert(validation(string_result(home), device_result(home_device), rv, pv)
                        == Err::<Seq<Seq<char>>, Seq<char>>(e@));
                }
                return Err(e);
            },
        };
        if !contains_string(&valid, &p) {
            let ghost before = valid@;
            valid.push(p);
            assert(string_views(valid@) =~= string_views(before).push(valid@.last()@));
        }
        i = i + 1;
    }
    let ghost unsorted = valid@;
    proof {
        lemma_views_distinct_values(unsorted);
    }
    let sorted = sort_ranked(valid);
    proof {
        lemma_sorted_strings(unsorted, sorted@);
    }
    Ok(Settings { project_roots: sorted })
}

/// Once a root is refused, validation stays refused with that error.
proof fn lemma_roots_error_sticks(
    home: Seq<char>,
    d: u64,
    roots: Seq<Seq<char>>,
    probes: Seq<RootProbeView>,
    n: int,
    m: int,
)
    requires
        1 <= n <= m,
        roots_upto(home, d, roots, probes, n) is Err,
    ensures
        roots_upto(home, d, roots, probes, m) == roots_upto(home, d, roots, probes, n),
    decreases m - n,
{
    if n < m {
        lemma_roots_error_sticks(home, d, roots, probes, n, m - 1);
    }
}

/// Strings whose views differ are different values.
proof fn lemma_views_distinct_values(s: Seq<String>)
    requires
        string_views(s).no_duplicates(),
    ensures
        s.no_duplicates(),
{
    assert forall|i: int, j: int| 0 <= i < s.len() && 0 <= j < s.len() && i != j implies s[i] != s[j] by {
        assert(string_views(s)[i] != string_views(s)[j]);
    }
}

/// A sorted rearrangement of distinct strings is strictly ascending and has the
/// same strings.
proof fn lemma_sorted_strings(unsorted: Seq<String>, sorted: Seq<String>)
    requires
        sorted.to_multiset() == unsorted.to_multiset(),
        unsorted.no_duplicates(),
        string_views(unsorted).no_duplicates(),
        sorted_by_rank(sorted),
        sorted.len() == unsorted.len(),
    ensures
        string_views(sorted).to_set() == string_views(unsorted).to_set(),
        string_views(sorted).len() == string_views(unsorted).len(),
        forall|i: int, j: int| 0 <= i < j < sorted.len() ==> #[trigger] str_rank(sorted[i]@, sorted[j]@) == Order::Less,
{
    broadcast use vstd::seq_lib::group_to_multiset_ensures;

    unsorted.lemma_multiset_has_no_duplicates();
    sorted.lemma_multiset_has_no_duplicates_conv();
    let sv = string_views(sorted);
    let uv = string_views(unsorted);
    assert forall|i: int, j: int| 0 <= i < j < sorted.len() implies #[trigger] str_rank(
        sorted[i]@,
        sorted[j]@,
    ) == Order::Less by {
        assert(sorted[i].ranked(sorted[j]) != Order::Greater);
        assert(sorted.to_multiset().count(sorted[i]) > 0);
        assert(sorted.to_multiset().count(sorted[j]) > 0);
        let m = choose|m: int| 0 <= m < unsorted.len() && unsorted[m] == sorted[i];
        let n = choose|n: int| 0 <= n < unsorted.len() && unsorted[n] == sorted[j];
        assert(sorted[i] != sorted[j]);
        assert(uv[m] == sorted[i]@ && uv[n] == sorted[j]@);
        lemma_encode_injective(sorted[i]@, sorted[j]@);
        lemma_lex_equal(encode_utf8(sorted[i]@), encode_utf8(sorted[j]@));
    }
    assert forall|x: Seq<char>| sv.to_set().contains(x) <==> uv.to_set().contains(x) by {
        if sv.to_set().contains(x) {
            assert(sv.contains(x));
            let i = choose|i: int| 0 <= i < sv.len() && sv[i] == x;
            assert(sorted.to_multiset().count(sorted[i]) > 0);
            let m = choose|m: int| 0 <= m < unsorted.len() && unsorted[m] == sorted[i];
            assert(uv[m] == x);
            assert(uv.contains(x));
        }
        if uv.to_set().contains(x) {
            assert(uv.contains(x));
            let m = choose|m: int| 0 <= m < uv.len() && uv[m] == x;
            assert(unsorted.to_multiset().count(unsorted[m]) > 0);
            let i = choose|i: int| 0 <= i < sorted.len() && sorted[i] == unsorted[m];
            assert(sv[i] == x);
            assert(sv.contains(x));
        }
    }
    assert(sv.to_set() =~= uv.to_set());
}

} // verus!

//! The rule for VS Code extensions installed in more than one version.
use vstd::prelude::*;
use crate::model::{Category, Risk};
use crate::paths::{file_name, file_name_of};
use crate::plugins::{RawCandidate, RawCandidateView};
use crate::text::{lowercase, string_of, to_lowercase, Order};
use crate::version::{
    lemma_version_flip, lemma_version_transitive, parse_version, parsed_version, version_rank,
    VersionKey, VersionView,
};

verus! {

/// A directory in the extensions folder: its path, the text of its `package.json`
/// if it could be read, and its modification time in seconds (0 when unreadable).
pub struct ExtensionDir {
    pub path: String,
    pub manifest: Option<String>,
    pub mtime: i64,
}

/// The contents of an `ExtensionDir`.
pub struct ExtensionDirView {
    pub path: Seq<char>,
    pub manifest: Option<Seq<char>>,
    pub mtime: i64,
}

impl View for ExtensionDir {
    type V = ExtensionDirView;

    open spec fn view(&self) -> ExtensionDirView {
        ExtensionDirView {
            path: self.path@,
            manifest: match self.manifest {
                Some(m) => Some(m@),
                None => None,
            },
            mtime: self.mtime,
        }
    }
}

/// The fields of an extension's manifest that the rule reads: each present when
/// the JSON document has a string there.
pub struct Manifest {
    pub publisher: Option<String>,
    pub name: Option<String>,
    pub version: Option<String>,
    pub target_platform: Option<String>,
}

/// The contents of a `Manifest`.
pub struct ManifestView {
    pub publisher: Option<Seq<char>>,
    pub name: Option<Seq<char>>,
    pub version: Option<Seq<char>>,
    pub target_platform: Option<Seq<char>>,
}

/// The view of an optional string.
pub open spec fn opt_view(s: Option<String>) -> Option<Seq<char>> {
    match s {
        Some(x) => Some(x@),
        None => None,
    }
}

impl View for Manifest {
    type V = ManifestView;

    open spec fn view(&self) -> ManifestView {
        ManifestView {
            publisher: opt_view(self.publisher),
            name: opt_view(self.name),
            version: opt_view(self.version),
            target_platform: opt_view(self.target_platform),
        }
    }
}

/// What `serde_json` reads from a manifest's text: nothing when the text is not a
/// JSON document, otherwise the strings at `publisher`, `name`, `version` and
/// `__metadata.targetPlatform`. It depends on the text alone.
pub uninterp spec fn json_manifest(text: Seq<char>) -> Option<ManifestView>;

/// What `serde_json` reads from the `.obsolete` file's text as a map from names to
/// booleans: nothing when the text is not such a JSON object, otherwise its entries
/// (the last one where a name repeats) in the order of the names. It depends on the
/// text alone.
pub uninterp spec fn json_flags(text: Seq<char>) -> Option<Seq<(Seq<char>, bool)>>;

/// The views of optional manifest fields.
pub open spec fn manifest_result(m: Option<Manifest>) -> Option<ManifestView> {
    match m {
        Some(x) => Some(x@),
        None => None,
    }
}

/// Reads the fields of a manifest.
///
/// Calls `serde_json::from_str::<serde_json::Value>` and picks the string fields
/// `publisher`, `name`, `version` and `__metadata.targetPlatform` from the value.
/// The contract says only that the result is `json_manifest` of the text.
#[verifier::external_body]
fn parse_manifest(text: &str) -> (res: Option<Manifest>)
    ensures
        manifest_result(res) == json_manifest(text@),
{
    let v: serde_json::Value = serde_json::from_str(text).ok()?;
    let field = |x: &serde_json::Value| x.as_str().map(String::from);
    Some(Manifest {
        publisher: field(&v["publisher"]),
        name: field(&v["name"]),
        version: field(&v["version"]),
        target_platform: field(&v["__metadata"]["targetPlatform"]),
    })
}

/// The views of parsed flag entries.
pub open spec fn flags_result(m: Option<Vec<(String, bool)>>) -> Option<Seq<(Seq<char>, bool)>> {
    match m {
        Some(x) => Some(x@.map_values(|e: (String, bool)| (e.0@, e.1))),
        None => None,
    }
}

/// Reads the `.obsolete` file's entries.
///
/// Calls `serde_json::from_str::<BTreeMap<String, bool>>` and lists the map's
/// entries. The contract says only that the result is `json_flags` of the text.
#[verifier::external_body]
fn parse_flags(text: &str) -> (res: Option<Vec<(String, bool)>>)
    ensures
        flags_result(res) == json_flags(text@),
{
    let m: std::collections::BTreeMap<String, bool> = serde_json::from_str(text).ok()?;
    Some(m.into_iter().collect())
}

/// What the rule knows of an installed extension.
pub struct ExtInfo {
    pub path: String,
    pub publisher: String,
    pub name: String,
    pub version: VersionKey,
    pub version_text: String,
    pub target: String,
    pub mtime: i64,
}

/// The contents of an `ExtInfo`.
pub struct ExtInfoView {
    pub path: Seq<char>,
    pub publisher: Seq<char>,
    pub name: Seq<char>,
    pub version: VersionView,
    pub version_text: Seq<char>,
    pub target: Seq<char>,
    pub mtime: i64,
}

impl View for ExtInfo {
    type V = ExtInfoView;

    open spec fn view(&self) -> ExtInfoView {
        ExtInfoView {
            path: self.path@,
            publisher: self.publisher@,
            name: self.name@,
            version: self.version@,
            version_text: self.version_text@,
            target: self.target@,
            mtime: self.mtime,
        }
    }
}

/// What the rule makes of an extension directory: nothing unless its manifest could
/// be read and names a publisher, a name and a version that parses; the target
/// platform defaults to `universal`.
pub open spec fn ext_info(d: ExtensionDirView) -> Option<ExtInfoView> {
    match d.manifest {
        None => None,
        Some(text) => match json_manifest(text) {
            None => None,
            Some(m) => match (m.publisher, m.name, m.version) {
                (Some(p), Some(n), Some(vt)) => match parsed_version(vt) {
                    Some(v) => Some(
                        ExtInfoView {
                            path: d.path,
                            publisher: p,
                            name: n,
                            version: v,
                            version_text: vt,
                            target: match m.target_platform {
                                Some(t) => t,
                                None => "universal"@,
                            },
                            mtime: d.mtime,
                        },
                    ),
                    None => None,
                },
                _ => None,
            },
        },
    }
}

/// The extensions that the rule knows of, in directory order.
pub open spec fn ext_infos(ds: Seq<ExtensionDirView>) -> Seq<ExtInfoView>
    decreases ds.len(),
{
    if ds.len() == 0 {
        Seq::<ExtInfoView>::empty()
    } else {
        let r = ext_infos(ds.drop_last());
        match ext_info(ds.last()) {
            Some(e) => r.push(e),
            None => r,
        }
    }
}

/// Two installs of the same extension: same publisher and name up to case, same
/// target platform.
pub open spec fn same_group(a: ExtInfoView, b: ExtInfoView) -> bool {
    &&& lowercase(a.publisher) == lowercase(b.publisher)
    &&& lowercase(a.name) == lowercase(b.name)
    &&& a.target == b.target
}

/// Installs order by version, then by modification time.
pub open spec fn ext_rank(a: ExtInfoView, b: ExtInfoView) -> Order {
    let v = version_rank(a.version, b.version);
    if v != Order::Equal {
        v
    } else if a.mtime < b.mtime {
        Order::Less
    } else if a.mtime > b.mtime {
        Order::Greater
    } else {
        Order::Equal
    }
}

/// The install at `i` is the one kept: the first of its group that no other
/// install of the group is newer than.
pub open spec fn kept_at(es: Seq<ExtInfoView>, i: int) -> bool {
    forall|j: int|
        0 <= j < es.len() && #[trigger] same_group(es[j], es[i]) ==> ext_rank(es[j], es[i])
            != Order::Greater && (j < i ==> ext_rank(es[j], es[i]) == Order::Less)
}

/// Another install of the same extension exists.
pub open spec fn has_company(es: Seq<ExtInfoView>, i: int) -> bool {
    exists|j: int| 0 <= j < es.len() && j != i && #[trigger] same_group(es[j], es[i])
}

/// An install that the rule proposes: its extension is installed more than once
/// and it is not the one kept.
pub open spec fn superseded(es: Seq<ExtInfoView>, i: int) -> bool {
    has_company(es, i) && !kept_at(es, i)
}

/// The install kept in the group of the install at `i`.
pub open spec fn kept_of(es: Seq<ExtInfoView>, i: int) -> int {
    choose|k: int| 0 <= k < es.len() && same_group(es[k], es[i]) && #[trigger] kept_at(es, k)
}

/// Whether the `.obsolete` entries mark a name as obsolete.
pub open spec fn marked_obsolete(flags: Seq<(Seq<char>, bool)>, name: Seq<char>) -> bool {
    exists|j: int| 0 <= j < flags.len() && #[trigger] flags[j] == (name, true)
}

/// The install at `path` is marked obsolete by VS Code.
pub open spec fn obsolete_path(flags: Seq<(Seq<char>, bool)>, path: Seq<char>) -> bool {
    match file_name(path) {
        Some(n) => marked_obsolete(flags, n),
        None => false,
    }
}

/// What the rule proposes for a superseded install, given the version kept.
pub open spec fn superseded_candidate(
    e: ExtInfoView,
    kept: Seq<char>,
    flags: Seq<(Seq<char>, bool)>,
) -> RawCandidateView {
    let obsolete = obsolete_path(flags, e.path);
    RawCandidateView {
        plugin: "vscode-duplicates"@,
        category: Category::DeveloperCaches,
        risk: if obsolete { Risk::Low } else { Risk::Review },
        path: e.path,
        reason: "VS Code 扩展 "@ + e.publisher + "."@ + e.name + " 旧版本 "@ + e.version_text
            + "；保留 "@ + kept + "（"@ + e.target + "）"@ + if obsolete {
            "，已标记 obsolete"@
        } else {
            "，请审查"@
        },
    }
}

/// Install `a` comes before install `b` of its group in the order in which the
/// rule goes through a group: the newer first (by version, then by modification
/// time), the one found first where they tie.
pub open spec fn comes_before(es: Seq<ExtInfoView>, a: int, b: int) -> bool {
    ext_rank(es[a], es[b]) == Order::Greater || (ext_rank(es[a], es[b]) == Order::Equal && a < b)
}

/// The first of the first `j` installs that belongs to the group of the install at
/// `i`, or -1 when there is none.
pub open spec fn first_upto(es: Seq<ExtInfoView>, i: int, j: int) -> int
    decreases j,
{
    if j <= 0 {
        -1
    } else {
        let f = first_upto(es, i, j - 1);
        if f >= 0 {
            f
        } else if same_group(es[j - 1], es[i]) {
            j - 1
        } else {
            -1
        }
    }
}

/// Where the group of the install at `i` is first met.
pub open spec fn group_lead(es: Seq<ExtInfoView>, i: int) -> int {
    first_upto(es, i, es.len() as int)
}

/// `idx` lists the installs that the rule proposes, each once, group by group in the
/// order in which the groups are first met, and within a group newest first.
pub open spec fn proposal_order(es: Seq<ExtInfoView>, idx: Seq<int>) -> bool {
    &&& forall|a: int| 0 <= a < idx.len() ==> 0 <= #[trigger] idx[a] < es.len() && superseded(es, idx[a])
    &&& idx.no_duplicates()
    &&& forall|i: int| 0 <= i < es.len() && #[trigger] superseded(es, i) ==> idx.contains(i)
    &&& forall|a: int, b: int|
        0 <= a < b < idx.len() && same_group(es[#[trigger] idx[a]], es[#[trigger] idx[b]]) ==> comes_before(
            es,
            idx[a],
            idx[b],
        )
    &&& forall|a: int, b: int|
        0 <= a < b < idx.len() && !same_group(es[#[trigger] idx[a]], es[#[trigger] idx[b]]) ==> group_lead(
            es,
            idx[a],
        ) < group_lead(es, idx[b])
}

/// What the rule proposes for the installs listed in `idx`, in that order.
pub open spec fn proposals_at(es: Seq<ExtInfoView>, idx: Seq<int>, flags: Seq<(Seq<char>, bool)>) -> Seq<
    RawCandidateView,
> {
    idx.map_values(|i: int| superseded_candidate(es[i], es[kept_of(es, i)].version_text, flags))
}

/// The `.obsolete` entries, or none when the file could not be read or parsed.
pub open spec fn obsolete_flags(text: Option<Seq<char>>) -> Seq<(Seq<char>, bool)> {
    match text {
        Some(t) => match json_flags(t) {
            Some(f) => f,
            None => Seq::<(Seq<char>, bool)>::empty(),
        },
        None => Seq::<(Seq<char>, bool)>::empty(),
    }
}

/// Installs compare the other way round with the opposite outcome.
proof fn lemma_ext_flip(a: ExtInfoView, b: ExtInfoView)
    ensures
        ext_rank(a, b) == ext_rank(b, a).flip(),
{
    lemma_version_flip(a.version, b.version);
}

/// The order of installs is transitive, strictly so when one step is strict.
proof fn lemma_ext_transitive(a: ExtInfoView, b: ExtInfoView, c: ExtInfoView)
    requires
        ext_rank(a, b) != Order::Greater,
        ext_rank(b, c) != Order::Greater,
    ensures
        ext_rank(a, c) != Order::Greater,
        (ext_rank(a, b) == Order::Less || ext_rank(b, c) == Order::Less) ==> ext_rank(a, c)
            == Order::Less,
{
    lemma_version_flip(a.version, b.version);
    lemma_version_flip(b.version, c.version);
    lemma_version_flip(a.version, c.version);
    if version_rank(a.version, b.version) != Order::Greater && version_rank(b.version, c.version)
        != Order::Greater {
        lemma_version_transitive(a.version, b.version, c.version);
    }
    if version_rank(a.version, b.version) == Order::Equal && version_rank(b.version, c.version)
        == Order::Equal {
        lemma_version_transitive(a.version, b.version, c.version);
        lemma_version_transitive(c.version, b.version, a.version);
    }
}

/// A group keeps one install only.
proof fn lemma_kept_unique(es: Seq<ExtInfoView>, k1: int, k2: int)
    requires
        0 <= k1 < es.len(),
        0 <= k2 < es.len(),
        same_group(es[k1], es[k2]),
        kept_at(es, k1),
        kept_at(es, k2),
    ensures
        k1 == k2,
{
    if k1 < k2 {
        assert(same_group(es[k1], es[k2]));
        assert(same_group(es[k2], es[k1]));
        lemma_ext_flip(es[k1], es[k2]);
    } else if k2 < k1 {
        assert(same_group(es[k1], es[k2]));
        assert(same_group(es[k2], es[k1]));
        lemma_ext_flip(es[k1], es[k2]);
    }
}

/// How two installs compare.
fn ext_order(a: &ExtInfo, b: &ExtInfo) -> (res: Order)
    ensures
        res == ext_rank(a@, b@),
{
    let v = a.version.compare_to(&b.version);
    if v != Order::Equal {
        v
    } else if a.mtime < b.mtime {
        Order::Less
    } else if a.mtime > b.mtime {
        Order::Greater
    } else {
        Order::Equal
    }
}

/// What the rule knows of one extension directory.
fn ext_info_of(d: &ExtensionDir) -> (res: Option<ExtInfo>)
    ensures
        match res {
            Some(e) => ext_info(d@) == Some(e@),
            None => ext_info(d@) is None,
        },
{
    let text = match &d.manifest {
        Some(t) => t,
        None => return None,
    };
    let m = match parse_manifest(text.as_str()) {
        Some(m) => m,
        None => return None,
    };
    let (publisher, name, version_text) = match (m.publisher, m.name, m.version) {
        (Some(p), Some(n), Some(v)) => (p, n, v),
        _ => return None,
    };
    let version = match parse_version(version_text.as_str()) {
        Some(v) => v,
        None => return None,
    };
    let target = match m.target_platform {
        Some(t) => t,
        None => "universal".to_string(),
    };
    Some(ExtInfo { path: d.path.clone(), publisher, name, version, version_text, target, mtime: d.mtime })
}

/// The views of extension directories.
pub open spec fn dir_views(ds: Seq<ExtensionDir>) -> Seq<ExtensionDirView> {
    ds.map_values(|d: ExtensionDir| d@)
}

/// The views of extensions.
pub open spec fn info_views(es: Seq<ExtInfo>) -> Seq<ExtInfoView> {
    es.map_values(|e: ExtInfo| e@)
}

/// What the rule knows of the extension directories, in order.
fn ext_infos_of(ds: &[ExtensionDir]) -> (res: Vec<ExtInfo>)
    ensures
        info_views(res@) == ext_infos(dir_views(ds@)),
{
    let mut res: Vec<ExtInfo> = Vec::new();
    let mut i: usize = 0;
    assert(dir_views(ds@).take(0) =~= Seq::<ExtensionDirView>::empty());
    while i < ds.len()
        invariant
            i <= ds.len(),
            info_views(res@) == ext_infos(dir_views(ds@).take(i as int)),
        decreases ds.len() - i,
    {
        assert(dir_views(ds@).take(i + 1).drop_last() =~= dir_views(ds@).take(i as int));
        assert(dir_views(ds@).take(i + 1).last() == ds@[i as int]@);
        match ext_info_of(&ds[i]) {
            Some(e) => {
                let ghost before = res@;
                res.push(e);
                assert(info_views(res@) =~= info_views(before).push(res@.last()@));
            },
            None => {},
        }
        i = i + 1;
    }
    assert(dir_views(ds@).take(ds.len() as int) =~= dir_views(ds@));
    res
}

/// The lowercase publisher and name of an install.
pub open spec fn key_of(k: (String, String), e: ExtInfo) -> bool {
    k.0@ == lowercase(e.publisher@) && k.1@ == lowercase(e.name@)
}

/// The lowercase publisher and name of each install.
fn group_keys(es: &Vec<ExtInfo>) -> (res: Vec<(String, String)>)
    ensures
        res.len() == es.len(),
        forall|i: int|
            0 <= i < es.len() ==> key_of(#[trigger] res@[i], es@[i]),
{
    let mut res: Vec<(String, String)> = Vec::new();
    let mut i: usize = 0;
    while i < es.len()
        invariant
            i <= es.len(),
            res.len() == i,
            forall|j: int|
                0 <= j < i ==> key_of(#[trigger] res@[j], es@[j]),
        decreases es.len() - i,
    {
        res.push((to_lowercase(es[i].publisher.as_str()), to_lowercase(es[i].name.as_str())));
        i = i + 1;
    }
    res
}

/// Whether the entries name a file as obsolete.
fn is_marked(flags: &Vec<(String, bool)>, name: &String) -> (res: bool)
    ensures
        res == marked_obsolete(flags@.map_values(|e: (String, bool)| (e.0@, e.1)), name@),
{
    let ghost fv = flags@.map_values(|e: (String, bool)| (e.0@, e.1));
    let mut j: usize = 0;
    while j < flags.len()
        invariant
            j <= flags.len(),
            fv == flags@.map_values(|e: (String, bool)| (e.0@, e.1)),
            forall|m: int| 0 <= m < j ==> #[trigger] fv[m] != (name@, true),
        decreases flags.len() - j,
    {
        assert(fv[j as int] == (flags@[j as int].0@, flags@[j as int].1));
        if flags[j].1 && flags[j].0 == *name {
            return true;
        }
        j = j + 1;
    }
    false
}

proof fn lemma_cb_facts(es: Seq<ExtInfoView>, a: int, b: int)
    ensures
        !comes_before(es, a, a),
        a != b ==> comes_before(es, a, b) || comes_before(es, b, a),
        !(comes_before(es, a, b) && comes_before(es, b, a)),
{
    lemma_ext_flip(es[a], es[a]);
    lemma_ext_flip(es[a], es[b]);
}

proof fn lemma_cb_trans(es: Seq<ExtInfoView>, a: int, b: int, c: int)
    requires
        comes_before(es, a, b),
        comes_before(es, b, c),
    ensures
        comes_before(es, a, c),
{
    lemma_ext_flip(es[a], es[b]);
    lemma_ext_flip(es[b], es[c]);
    lemma_ext_flip(es[a], es[c]);
    lemma_ext_transitive(es[c], es[b], es[a]);
}

/// The kept install comes before every other install of its group.
proof fn lemma_kept_first(es: Seq<ExtInfoView>, k: int, x: int)
    requires
        0 <= k < es.len(),
        0 <= x < es.len(),
        x != k,
        kept_at(es, k),
        same_group(es[x], es[k]),
    ensures
        comes_before(es, k, x),
{
    lemma_ext_flip(es[x], es[k]);
}

/// The install that comes before every other of its group is the one kept.
proof fn lemma_first_is_kept(es: Seq<ExtInfoView>, k: int)
    requires
        0 <= k < es.len(),
        forall|x: int| 0 <= x < es.len() && x != k && #[trigger] same_group(es[x], es[k]) ==> comes_before(es, k, x),
    ensures
        kept_at(es, k),
{
    assert forall|j: int| 0 <= j < es.len() && #[trigger] same_group(es[j], es[k]) implies ext_rank(es[j], es[k])
        != Order::Greater && (j < k ==> ext_rank(es[j], es[k]) == Order::Less) by {
        lemma_ext_flip(es[j], es[k]);
        if j == k {
            lemma_ext_flip(es[k], es[k]);
        }
    }
}

proof fn lemma_first_upto(es: Seq<ExtInfoView>, i: int, j: int)
    requires
        0 <= i < es.len(),
        0 <= j <= es.len(),
    ensures
        first_upto(es, i, j) < j,
        first_upto(es, i, j) >= 0 ==> same_group(es[first_upto(es, i, j)], es[i]),
        forall|m: int| 0 <= m < j && m < first_upto(es, i, j) ==> !#[trigger] same_group(es[m], es[i]),
        first_upto(es, i, j) < 0 ==> forall|m: int| 0 <= m < j ==> !#[trigger] same_group(es[m], es[i]),
    decreases j,
{
    if j > 0 {
        lemma_first_upto(es, i, j - 1);
    }
}

/// Where a group is first met, given its first install `g`.
proof fn lemma_lead_of(es: Seq<ExtInfoView>, g: int, x: int, j: int)
    requires
        0 <= g < es.len(),
        0 <= x < es.len(),
        0 <= j <= es.len(),
        same_group(es[x], es[g]),
        forall|m: int| 0 <= m < g ==> !#[trigger] same_group(es[m], es[g]),
    ensures
        first_upto(es, x, j) == if j <= g { -1 } else { g },
    decreases j,
{
    if j > 0 {
        lemma_lead_of(es, g, x, j - 1);
        if j - 1 < g {
            assert(!same_group(es[j - 1], es[g]));
        }
    }
}

/// How many of the first `n` installs of the group of `g` come after `last`.
pub open spec fn after_count(es: Seq<ExtInfoView>, g: int, last: int, n: int) -> nat
    decreases n,
{
    if n <= 0 {
        0
    } else {
        after_count(es, g, last, n - 1) + if same_group(es[n - 1], es[g]) && comes_before(es, last, n - 1) {
            1nat
        } else {
            0nat
        }
    }
}

proof fn lemma_after_less(es: Seq<ExtInfoView>, g: int, last: int, c: int, n: int)
    requires
        0 <= n <= es.len(),
        0 <= c,
        comes_before(es, last, c),
    ensures
        after_count(es, g, c, n) <= after_count(es, g, last, n),
        c < n && same_group(es[c], es[g]) ==> after_count(es, g, c, n) < after_count(es, g, last, n),
    decreases n,
{
    if n > 0 {
        lemma_after_less(es, g, last, c, n - 1);
        let m = n - 1;
        if comes_before(es, c, m) {
            lemma_cb_trans(es, last, c, m);
        }
        lemma_cb_facts(es, c, c);
        if c == m {
            assert(!comes_before(es, c, m));
            assert(comes_before(es, last, m));
        }
    }
}

/// Whether two installs belong to the same group.
fn same_group_of(es: &Vec<ExtInfo>, keys: &Vec<(String, String)>, a: usize, b: usize) -> (res: bool)
    requires
        a < es.len(),
        b < es.len(),
        keys.len() == es.len(),
        forall|m: int| 0 <= m < es.len() ==> key_of(#[trigger] keys@[m], es@[m]),
    ensures
        res == same_group(info_views(es@)[a as int], info_views(es@)[b as int]),
{
    assert(key_of(keys@[a as int], es@[a as int]) && key_of(keys@[b as int], es@[b as int]));
    keys[a].0 == keys[b].0 && keys[a].1 == keys[b].1 && es[a].target == es[b].target
}

/// Whether install `a` comes before install `b`.
fn comes_before_of(es: &Vec<ExtInfo>, a: usize, b: usize) -> (res: bool)
    requires
        a < es.len(),
        b < es.len(),
    ensures
        res == comes_before(info_views(es@), a as int, b as int),
{
    let o = ext_order(&es[a], &es[b]);
    o == Order::Greater || (o == Order::Equal && a < b)
}

/// What the rule proposes for the superseded install `e`, given the version kept.
fn superseded_proposal(e: &ExtInfo, kept: &String, flags: &Vec<(String, bool)>) -> (res: RawCandidate)
    ensures
        res@ == superseded_candidate(e@, kept@, flags@.map_values(|f: (String, bool)| (f.0@, f.1))),
{
    let obsolete_here = match file_name_of(e.path.as_str()) {
        Some(n) => is_marked(flags, &string_of(n.as_slice())),
        None => false,
    };
    let mut reason = "VS Code 扩展 ".to_string();
    reason.append(e.publisher.as_str());
    reason.append(".");
    reason.append(e.name.as_str());
    reason.append(" 旧版本 ");
    reason.append(e.version_text.as_str());
    reason.append("；保留 ");
    reason.append(kept.as_str());
    reason.append("（");
    reason.append(e.target.as_str());
    reason.append("）");
    if obsolete_here {
        reason.append("，已标记 obsolete");
    } else {
        reason.append("，请审查");
    }
    RawCandidate {
        plugin: "vscode-duplicates".to_string(),
        category: Category::DeveloperCaches,
        risk: if obsolete_here { Risk::Low } else { Risk::Review },
        path: e.path.clone(),
        reason,
    }
}

/// Proposes every install of a VS Code extension that is installed more than once
/// for the same platform, except the newest (by version, then by modification
/// time; the first one where they tie). The proposals come group by group, in the
/// order in which the groups are first met, and within a group newest first. An
/// install that VS Code marked obsolete is low risk, the others need review.
pub fn vscode_candidates(dirs: &[ExtensionDir], obsolete: Option<String>) -> (res: Vec<RawCandidate>)
    ensures
        exists|idx: Seq<int>|
            proposal_order(ext_infos(dir_views(dirs@)), idx) && res@.map_values(|r: RawCandidate| r@)
                == proposals_at(ext_infos(dir_views(dirs@)), idx, obsolete_flags(opt_view(obsolete))),
{
    let es = ext_infos_of(dirs);
    let ghost ev = info_views(es@);
    let keys = group_keys(&es);
    let flags: Vec<(String, bool)> = match &obsolete {
        Some(t) => match parse_flags(t.as_str()) {
            Some(f) => f,
            None => Vec::new(),
        },
        None => Vec::new(),
    };
    let ghost fv = obsolete_flags(opt_view(obsolete));
    assert(flags@.map_values(|e: (String, bool)| (e.0@, e.1)) =~= fv);
    let n = es.len();
    let mut out: Vec<RawCandidate> = Vec::new();
    let ghost mut idx: Seq<int> = Seq::empty();
    let mut g: usize = 0;
    assert(out@.map_values(|r: RawCandidate| r@) =~= proposals_at(ev, idx, fv));
    assert forall|i: int| 0 <= i < n && #[trigger] superseded(ev, i) implies group_lead(ev, i) >= 0 by {
        lemma_first_upto(ev, i, n as int);
        assert(same_group(ev[i], ev[i]));
    }
    while g < n
        invariant
            g <= n,
            n == es.len(),
            ev == info_views(es@),
            ev.len() == n,
            keys.len() == es.len(),
            forall|m: int| 0 <= m < es.len() ==> key_of(#[trigger] keys@[m], es@[m]),
            fv == flags@.map_values(|e: (String, bool)| (e.0@, e.1)),
            out@.map_values(|r: RawCandidate| r@) == proposals_at(ev, idx, fv),
            forall|a: int|
                0 <= a < idx.len() ==> 0 <= #[trigger] idx[a] < n && superseded(ev, idx[a]) && group_lead(ev, idx[a])
                    < g,
            idx.no_duplicates(),
            forall|i: int| 0 <= i < n && #[trigger] superseded(ev, i) && group_lead(ev, i) < g ==> idx.contains(i),
            forall|a: int, b: int|
                0 <= a < b < idx.len() && same_group(ev[#[trigger] idx[a]], ev[#[trigger] idx[b]]) ==> comes_before(
                    ev,
                    idx[a],
                    idx[b],
                ),
            forall|a: int, b: int|
                0 <= a < b < idx.len() && !same_group(ev[#[trigger] idx[a]], ev[#[trigger] idx[b]]) ==> group_lead(
                    ev,
                    idx[a],
                ) < group_lead(ev, idx[b]),
        decreases n - g,
    {
        let mut lead = true;
        let mut m: usize = 0;
        while m < g
            invariant
                m <= g,
                g < n,
                n == es.len(),
                ev == info_views(es@),
                keys.len() == es.len(),
                forall|q: int| 0 <= q < es.len() ==> key_of(#[trigger] keys@[q], es@[q]),
                lead == forall|q: int| 0 <= q < m ==> !#[trigger] same_group(ev[q], ev[g as int]),
            decreases g - m,
        {
            if same_group_of(&es, &keys, m, g) {
                lead = false;
            }
            m = m + 1;
        }
        proof {
            lemma_first_upto(ev, g as int, n as int);
            if !lead {
                let q = choose|q: int| 0 <= q < g && #[trigger] same_group(ev[q], ev[g as int]);
                assert(group_lead(ev, g as int) <= q);
            }
        }
        if lead {
            proof {
                assert(same_group(ev[g as int], ev[g as int]));
                lemma_lead_of(ev, g as int, g as int, n as int);
            }
            // The install kept in this group: the one that comes before all others.
            let mut k: usize = g;
            let mut j: usize = g + 1;
            proof {
                lemma_cb_facts(ev, g as int, g as int);
            }
            while j < n
                invariant
                    g < j <= n,
                    n == es.len(),
                    ev == info_views(es@),
                    ev.len() == n,
                    keys.len() == es.len(),
                    forall|q: int| 0 <= q < es.len() ==> key_of(#[trigger] keys@[q], es@[q]),
                    k < j,
                    same_group(ev[k as int], ev[g as int]),
                    forall|q: int| 0 <= q < g ==> !#[trigger] same_group(ev[q], ev[g as int]),
                    forall|x: int|
                        0 <= x < j && x != k && #[trigger] same_group(ev[x], ev[g as int]) ==> comes_before(
                            ev,
                            k as int,
                            x,
                        ),
                decreases n - j,
            {
                if same_group_of(&es, &keys, j, g) && comes_before_of(&es, j, k) {
                    proof {
                        assert forall|x: int|
                            0 <= x < j + 1 && x != j && #[trigger] same_group(ev[x], ev[g as int]) implies comes_before(
                            ev,
                            j as int,
                            x,
                        ) by {
                            if x != k {
                                lemma_cb_trans(ev, j as int, k as int, x);
                            }
                        }
                    }
                    k = j;
                } else {
                    proof {
                        if same_group(ev[j as int], ev[g as int]) {
                            lemma_cb_facts(ev, j as int, k as int);
                        }
                    }
                }
                j = j + 1;
            }
            proof {
                assert forall|x: int| 0 <= x < n && x != k && #[trigger] same_group(ev[x], ev[k as int]) implies comes_before(
                    ev,
                    k as int,
                    x,
                ) by {
                    assert(same_group(ev[x], ev[g as int]));
                    if x < g {
                        assert(!same_group(ev[x], ev[g as int]));
                    }
                }
                lemma_first_is_kept(ev, k as int);
            }
            let ghost start = idx;
            let ghost mut block: Seq<int> = Seq::empty();
            let mut last: usize = k;
            loop
                invariant_except_break
                    n == es.len(),
                    ev == info_views(es@),
                    ev.len() == n,
                    keys.len() == es.len(),
                    forall|q: int| 0 <= q < es.len() ==> key_of(#[trigger] keys@[q], es@[q]),
                    fv == flags@.map_values(|e: (String, bool)| (e.0@, e.1)),
                    g < n,
                    k < n,
                    last < n,
                    kept_at(ev, k as int),
                    same_group(ev[k as int], ev[g as int]),
                    same_group(ev[last as int], ev[g as int]),
                    forall|q: int| 0 <= q < g ==> !#[trigger] same_group(ev[q], ev[g as int]),
                    last == k || comes_before(ev, k as int, last as int),
                    idx == start + block,
                    out@.map_values(|r: RawCandidate| r@) == proposals_at(ev, idx, fv),
                    forall|a: int|
                        0 <= a < start.len() ==> 0 <= #[trigger] start[a] < n && superseded(ev, start[a])
                            && group_lead(ev, start[a]) < g,
                    start.no_duplicates(),
                    forall|a: int, b: int|
                        0 <= a < b < start.len() && same_group(ev[#[trigger] start[a]], ev[#[trigger] start[b]])
                            ==> comes_before(ev, start[a], start[b]),
                    forall|a: int, b: int|
                        0 <= a < b < start.len() && !same_group(ev[#[trigger] start[a]], ev[#[trigger] start[b]])
                            ==> group_lead(ev, start[a]) < group_lead(ev, start[b]),
                    block.no_duplicates(),
                    forall|a: int|
                        0 <= a < block.len() ==> 0 <= #[trigger] block[a] < n && same_group(ev[block[a]], ev[g as int])
                            && block[a] != k && (block[a] == last || comes_before(ev, block[a], last as int)),
                    forall|x: int|
                        0 <= x < n && x != k && #[trigger] same_group(ev[x], ev[g as int]) && !comes_before(
                            ev,
                            last as int,
                            x,
                        ) ==> block.contains(x),
                    forall|a: int, b: int| 0 <= a < b < block.len() ==> comes_before(ev, #[trigger] block[a], #[trigger] block[b]),
                ensures
                    idx == start + block,
                    out@.map_values(|r: RawCandidate| r@) == proposals_at(ev, idx, fv),
                    block.no_duplicates(),
                    forall|a: int|
                        0 <= a < block.len() ==> 0 <= #[trigger] block[a] < n && same_group(ev[block[a]], ev[g as int])
                            && block[a] != k,
                    forall|x: int|
                        0 <= x < n && x != k && #[trigger] same_group(ev[x], ev[g as int]) ==> block.contains(x),
                    forall|a: int, b: int| 0 <= a < b < block.len() ==> comes_before(ev, #[trigger] block[a], #[trigger] block[b]),
                decreases after_count(ev, g as int, last as int, n as int),
            {
                let mut next: usize = n;
                let mut q: usize = 0;
                while q < n
                    invariant
                        q <= n,
                        n == es.len(),
                        ev == info_views(es@),
                        keys.len() == es.len(),
                        forall|r: int| 0 <= r < es.len() ==> key_of(#[trigger] keys@[r], es@[r]),
                        g < n,
                        last < n,
                        next == n || (next < q && same_group(ev[next as int], ev[g as int]) && comes_before(
                            ev,
                            last as int,
                            next as int,
                        )),
                        next == n ==> forall|x: int|
                            0 <= x < q && #[trigger] same_group(ev[x], ev[g as int]) ==> !comes_before(ev, last as int, x),
                        next < n ==> forall|x: int|
                            0 <= x < q && x != next && #[trigger] same_group(ev[x], ev[g as int]) && comes_before(
                                ev,
                                last as int,
                                x,
                            ) ==> comes_before(ev, next as int, x),
                    decreases n - q,
                {
                    if same_group_of(&es, &keys, q, g) && comes_before_of(&es, last, q) {
                        if next == n || comes_before_of(&es, q, next) {
                            proof {
                                if next < n {
                                    assert forall|x: int|
                                        0 <= x < q + 1 && x != q && #[trigger] same_group(ev[x], ev[g as int])
                                            && comes_before(ev, last as int, x) implies comes_before(ev, q as int, x) by {
                                        if x != next {
                                            lemma_cb_trans(ev, q as int, next as int, x);
                                        }
                                    }
                                }
                            }
                            next = q;
                        } else {
                            proof {
                                lemma_cb_facts(ev, q as int, next as int);
                            }
                        }
                    }
                    q = q + 1;
                }
                if next == n {
                    proof {
                        assert forall|x: int| 0 <= x < n && x != k && #[trigger] same_group(ev[x], ev[g as int]) implies block.contains(x) by {
                            assert(!comes_before(ev, last as int, x));
                        }
                    }
                    break;
                }
                let c = next;
                let r = superseded_proposal(&es[c], &es[k].version_text, &flags);
                proof {
                    lemma_cb_facts(ev, k as int, c as int);
                    if last != k {
                        lemma_cb_trans(ev, k as int, last as int, c as int);
                    }
                    assert(comes_before(ev, k as int, c as int));
                    lemma_cb_facts(ev, k as int, k as int);
                    assert(c != k);
                    assert(same_group(ev[c as int], ev[k as int]));
                    assert(0 <= kept_of(ev, c as int) < ev.len() && same_group(ev[kept_of(ev, c as int)], ev[c as int])
                        && kept_at(ev, kept_of(ev, c as int))) by {
                        lemma_kept_exists(ev, c as int);
                    }
                    lemma_kept_unique(ev, kept_of(ev, c as int), k as int);
                    assert(ev[c as int] == es@[c as int]@);
                    assert(ev[k as int] == es@[k as int]@);
                    lemma_after_less(ev, g as int, last as int, c as int, n as int);
                }
                let ghost before_out = out@.map_values(|r: RawCandidate| r@);
                out.push(r);
                proof {
                    let nb = block.push(c as int);
                    assert forall|a: int| 0 <= a < block.len() implies #[trigger] block[a] != c as int by {
                        lemma_cb_facts(ev, last as int, c as int);
                        if block[a] != last {
                            lemma_cb_trans(ev, block[a], last as int, c as int);
                        }
                        lemma_cb_facts(ev, c as int, c as int);
                    }
                    assert forall|a: int| 0 <= a < nb.len() implies 0 <= #[trigger] nb[a] < n && same_group(
                        ev[nb[a]],
                        ev[g as int],
                    ) && nb[a] != k && (nb[a] == c || comes_before(ev, nb[a], c as int)) by {
                        if a < block.len() {
                            assert(nb[a] == block[a]);
                            if block[a] != last {
                                lemma_cb_trans(ev, block[a], last as int, c as int);
                            }
                        }
                    }
                    assert forall|a: int, b: int| 0 <= a < b < nb.len() implies comes_before(
                        ev,
                        #[trigger] nb[a],
                        #[trigger] nb[b],
                    ) by {
                        if b < block.len() {
                            assert(nb[a] == block[a] && nb[b] == block[b]);
                        } else {
                            assert(nb[a] == block[a]);
                            if block[a] != last {
                                lemma_cb_trans(ev, block[a], last as int, c as int);
                            }
                        }
                    }
                    assert forall|x: int|
                        0 <= x < n && x != k && #[trigger] same_group(ev[x], ev[g as int]) && !comes_before(ev, c as int, x)
                            implies nb.contains(x) by {
                        if x == c {
                            assert(nb[block.len() as int] == x);
                        } else if comes_before(ev, last as int, x) {
                            assert(comes_before(ev, c as int, x));
                        } else {
                            assert(block.contains(x));
                            let a = choose|a: int| 0 <= a < block.len() && block[a] == x;
                            assert(nb[a] == x);
                        }
                    }
                    assert(nb.no_duplicates());
                    block = nb;
                    idx = start + block;
                    assert(out@.map_values(|r: RawCandidate| r@) =~= before_out.push(r@));
                    assert(proposals_at(ev, idx, fv) =~= proposals_at(ev, start + block.drop_last(), fv).push(r@)) by {
                        assert(start + block.drop_last() =~= (start + block).drop_last());
                    }
                }
                last = c;
            }
            proof {
                assert forall|a: int| 0 <= a < block.len() implies group_lead(ev, #[trigger] block[a]) == g && superseded(ev, block[a]) by {
                    lemma_lead_of(ev, g as int, block[a], n as int);
                    assert(same_group(ev[block[a]], ev[k as int]));
                    assert(has_company(ev, block[a])) by {
                        assert(same_group(ev[k as int], ev[block[a]]));
                    }
                    if kept_at(ev, block[a]) {
                        lemma_kept_unique(ev, block[a], k as int);
                    }
                }
                let ni = start + block;
                assert forall|a: int| 0 <= a < ni.len() implies 0 <= #[trigger] ni[a] < n && superseded(ev, ni[a])
                    && group_lead(ev, ni[a]) < g + 1 by {
                    if a < start.len() {
                        assert(ni[a] == start[a]);
                    } else {
                        assert(ni[a] == block[a - start.len()]);
                    }
                }
                assert forall|a: int, b: int|
                    0 <= a < b < ni.len() && same_group(ev[#[trigger] ni[a]], ev[#[trigger] ni[b]]) implies comes_before(
                    ev,
                    ni[a],
                    ni[b],
                ) by {
                    if b < start.len() {
                        assert(ni[a] == start[a] && ni[b] == start[b]);
                    } else if a >= start.len() {
                        assert(ni[a] == block[a - start.len()] && ni[b] == block[b - start.len()]);
                    } else {
                        assert(ni[a] == start[a] && ni[b] == block[b - start.len()]);
                        lemma_first_upto(ev, ni[a], n as int);
                        lemma_first_upto(ev, ni[b], n as int);
                        lemma_lead_of(ev, g as int, ni[a], n as int);
                    }
                }
                assert forall|a: int, b: int|
                    0 <= a < b < ni.len() && !same_group(ev[#[trigger] ni[a]], ev[#[trigger] ni[b]]) implies group_lead(
                    ev,
                    ni[a],
                ) < group_lead(ev, ni[b]) by {
                    if b < start.len() {
                        assert(ni[a] == start[a] && ni[b] == start[b]);
                    } else if a >= start.len() {
                        assert(ni[a] == block[a - start.len()] && ni[b] == block[b - start.len()]);
                        assert(same_group(ev[ni[a]], ev[ni[b]]));
                    } else {
                        assert(ni[a] == start[a] && ni[b] == block[b - start.len()]);
                    }
                }
                assert(ni.no_duplicates()) by {
                    assert forall|a: int, b: int| 0 <= a < ni.len() && 0 <= b < ni.len() && a != b implies ni[a] != ni[b] by {
                        if a < start.len() && b >= start.len() {
                            assert(ni[a] == start[a] && ni[b] == block[b - start.len()]);
                        } else if b < start.len() && a >= start.len() {
                            assert(ni[b] == start[b] && ni[a] == block[a - start.len()]);
                        } else if a < start.len() {
                            assert(ni[a] == start[a] && ni[b] == start[b]);
                        } else {
                            assert(ni[a] == block[a - start.len()] && ni[b] == block[b - start.len()]);
                        }
                    }
                }
                assert forall|i: int| 0 <= i < n && #[trigger] superseded(ev, i) && group_lead(ev, i) < g + 1 implies ni.contains(i) by {
                    if group_lead(ev, i) < g {
                        let a = choose|a: int| 0 <= a < start.len() && start[a] == i;
                        assert(ni[a] == i);
                    } else {
                        lemma_first_upto(ev, i, n as int);
                        assert(same_group(ev[g as int], ev[i]));
                        assert(same_group(ev[i], ev[g as int]));
                        if i == k {
                            assert(kept_at(ev, i));
                        }
                        assert(block.contains(i));
                        let a = choose|a: int| 0 <= a < block.len() && block[a] == i;
                        assert(ni[start.len() + a] == i);
                    }
                }
            }
        } else {
            proof {
                assert forall|i: int| 0 <= i < n && #[trigger] superseded(ev, i) && group_lead(ev, i) < g + 1 implies idx.contains(i) by {
                    if group_lead(ev, i) == g {
                        lemma_first_upto(ev, i, n as int);
                        assert(same_group(ev[g as int], ev[i]));
                        let q = choose|q: int| 0 <= q < g && #[trigger] same_group(ev[q], ev[g as int]);
                        assert(same_group(ev[q], ev[i]));
                    }
                }
            }
        }
        g = g + 1;
    }
    proof {
        assert forall|i: int| 0 <= i < n && #[trigger] superseded(ev, i) implies idx.contains(i) by {
            lemma_first_upto(ev, i, n as int);
            assert(same_group(ev[i], ev[i]));
        }
        assert(proposal_order(ev, idx));
    }
    out
}

/// Among the first `j` installs of the group of the install at `i`, the first that
/// none of them is newer than (or -1 when there is none yet).
pub open spec fn best_upto(es: Seq<ExtInfoView>, i: int, j: int) -> int
    decreases j,
{
    if j <= 0 {
        -1
    } else {
        let b = best_upto(es, i, j - 1);
        if !same_group(es[j - 1], es[i]) {
            b
        } else if b < 0 {
            j - 1
        } else if ext_rank(es[j - 1], es[b]) == Order::Greater {
            j - 1
        } else {
            b
        }
    }
}

proof fn lemma_best_upto(es: Seq<ExtInfoView>, i: int, j: int)
    requires
        0 <= i < es.len(),
        0 <= j <= es.len(),
    ensures
        best_upto(es, i, j) < j,
        best_upto(es, i, j) >= 0 ==> same_group(es[best_upto(es, i, j)], es[i]),
        best_upto(es, i, j) < 0 ==> forall|m: int| 0 <= m < j ==> !#[trigger] same_group(es[m], es[i]),
        best_upto(es, i, j) >= 0 ==> forall|m: int|
            0 <= m < j && #[trigger] same_group(es[m], es[i]) ==> ext_rank(es[m], es[best_upto(es, i, j)])
                != Order::Greater && (m < best_upto(es, i, j) ==> ext_rank(es[m], es[best_upto(es, i, j)])
                == Order::Less),
    decreases j,
{
    if j > 0 {
        lemma_best_upto(es, i, j - 1);
        let b = best_upto(es, i, j - 1);
        let n = best_upto(es, i, j);
        lemma_ext_flip(es[j - 1], es[j - 1]);
        if same_group(es[j - 1], es[i]) && b >= 0 {
            lemma_ext_flip(es[j - 1], es[b]);
            if ext_rank(es[j - 1], es[b]) == Order::Greater {
                assert forall|m: int| 0 <= m < j && #[trigger] same_group(es[m], es[i]) implies ext_rank(
                    es[m],
                    es[n],
                ) != Order::Greater && (m < n ==> ext_rank(es[m], es[n]) == Order::Less) by {
                    if m < j - 1 {
                        lemma_ext_transitive(es[m], es[b], es[j - 1]);
                    }
                }
            }
        }
    }
}

/// Every install's group keeps exactly one install.
pub proof fn lemma_kept_exists(es: Seq<ExtInfoView>, i: int)
    requires
        0 <= i < es.len(),
    ensures
        exists|k: int| 0 <= k < es.len() && same_group(es[k], es[i]) && #[trigger] kept_at(es, k),
{
    lemma_best_upto(es, i, es.len() as int);
    let b = best_upto(es, i, es.len() as int);
    assert(same_group(es[i], es[i]));
    assert(kept_at(es, b)) by {
        assert forall|m: int| 0 <= m < es.len() && #[trigger] same_group(es[m], es[b]) implies ext_rank(
            es[m],
            es[b],
        ) != Order::Greater && (m < b ==> ext_rank(es[m], es[b]) == Order::Less) by {
            assert(same_group(es[m], es[i]));
        }
    }
}

} // verus!

//! The built-in cleaning rules: which places each rule looks at and what it decides
//! about what it finds there.
use vstd::prelude::*;
use crate::model::{Category, Risk};
use crate::paths::{extension, extension_of, file_name, file_name_of};
use crate::text::{
    chars_of, has_substring, lowercase, push_signed_decimal, signed_decimal, str_contains, str_is,
    string_of, to_lowercase,
};

verus! {

/// What a scan knows when it runs the rules.
pub struct ScanContext {
    pub home: String,
    pub now: i64,
    pub project_roots: Vec<String>,
}

/// Something a rule proposes, before it is checked and measured.
#[derive(Debug)]
pub struct RawCandidate {
    pub plugin: String,
    pub category: Category,
    pub risk: Risk,
    pub path: String,
    pub reason: String,
}

/// The contents of a `RawCandidate`.
pub struct RawCandidateView {
    pub plugin: Seq<char>,
    pub category: Category,
    pub risk: Risk,
    pub path: Seq<char>,
    pub reason: Seq<char>,
}

impl View for RawCandidate {
    type V = RawCandidateView;

    open spec fn view(&self) -> RawCandidateView {
        RawCandidateView {
            plugin: self.plugin@,
            category: self.category,
            risk: self.risk,
            path: self.path@,
            reason: self.reason@,
        }
    }
}

/// A proposal of `plugin` for `path`.
pub fn raw(plugin: &str, category: Category, risk: Risk, path: String, reason: String) -> (res:
    RawCandidate)
    ensures
        res@ == (RawCandidateView {
            plugin: plugin@,
            category,
            risk,
            path: path@,
            reason: reason@,
        }),
{
    RawCandidate { plugin: plugin.to_string(), category, risk, path, reason }
}

/// A rule that offers the old entries directly inside some directories below home.
pub struct SimpleRule {
    pub id: String,
    pub category: Category,
    pub risk: Risk,
    pub roots: Vec<(String, i64)>,
    pub reason: String,
    pub exclude: Vec<String>,
}

/// The contents of a `SimpleRule`.
pub struct SimpleRuleView {
    pub id: Seq<char>,
    pub category: Category,
    pub risk: Risk,
    pub roots: Seq<(Seq<char>, i64)>,
    pub reason: Seq<char>,
    pub exclude: Seq<Seq<char>>,
}

impl View for SimpleRule {
    type V = SimpleRuleView;

    open spec fn view(&self) -> SimpleRuleView {
        SimpleRuleView {
            id: self.id@,
            category: self.category,
            risk: self.risk,
            roots: self.roots@.map_values(|r: (String, i64)| (r.0@, r.1)),
            reason: self.reason@,
            exclude: self.exclude@.map_values(|x: String| x@),
        }
    }
}

/// One of the built-in rules.
pub enum CleanerPlugin {
    Simple(SimpleRule),
    VscodeDuplicates,
    ProjectDependencies,
    Downloads,
}

/// The contents of a `CleanerPlugin`.
pub enum PluginView {
    Simple(SimpleRuleView),
    VscodeDuplicates,
    ProjectDependencies,
    Downloads,
}

impl View for CleanerPlugin {
    type V = PluginView;

    open spec fn view(&self) -> PluginView {
        match self {
            CleanerPlugin::Simple(r) => PluginView::Simple(r@),
            CleanerPlugin::VscodeDuplicates => PluginView::VscodeDuplicates,
            CleanerPlugin::ProjectDependencies => PluginView::ProjectDependencies,
            CleanerPlugin::Downloads => PluginView::Downloads,
        }
    }
}

/// The id of a rule.
pub open spec fn plugin_id(p: PluginView) -> Seq<char> {
    match p {
        PluginView::Simple(r) => r.id,
        PluginView::VscodeDuplicates => "vscode-duplicates"@,
        PluginView::ProjectDependencies => "project-dependencies"@,
        PluginView::Downloads => "download-archives"@,
    }
}

impl CleanerPlugin {
    /// The id of this rule.
    pub fn id(&self) -> (res: String)
        ensures
            res@ == plugin_id(self@),
    {
        match self {
            CleanerPlugin::Simple(r) => r.id.clone(),
            CleanerPlugin::VscodeDuplicates => "vscode-duplicates".to_string(),
            CleanerPlugin::ProjectDependencies => "project-dependencies".to_string(),
            CleanerPlugin::Downloads => "download-archives".to_string(),
        }
    }
}

/// Names that keep a user cache out of the cache rule: browsers, keychains and
/// password managers.
pub open spec fn browser_and_secret_names() -> Seq<Seq<char>> {
    seq![
        "safari"@,
        "chrome"@,
        "firefox"@,
        "mozilla"@,
        "cloudkit"@,
        "keychain"@,
        "credential"@,
        "1password"@,
        "lastpass"@,
        "bitwarden"@,
    ]
}

/// A simple rule, as a value.
pub open spec fn simple_rule(
    id: Seq<char>,
    category: Category,
    roots: Seq<(Seq<char>, i64)>,
    reason: Seq<char>,
    exclude: Seq<Seq<char>>,
) -> PluginView {
    PluginView::Simple(SimpleRuleView { id, category, risk: Risk::Low, roots, reason, exclude })
}

/// The built-in rules, in the order in which a scan runs them.
pub open spec fn builtin_plugin_views() -> Seq<PluginView> {
    seq![
        simple_rule(
            "user-caches"@,
            Category::ApplicationCaches,
            seq![("Library/Caches"@, 30i64)],
            "可由应用重新生成的用户缓存"@,
            browser_and_secret_names(),
        ),
        simple_rule(
            "developer-caches"@,
            Category::DeveloperCaches,
            seq![
                (".cache"@, 30i64),
                (".npm/_cacache"@, 30i64),
                ("Library/Caches/pip"@, 30i64),
                ("Library/Developer/Xcode/DerivedData"@, 14i64),
            ],
            "可再生成的开发工具缓存"@,
            Seq::<Seq<char>>::empty(),
        ),
        PluginView::VscodeDuplicates,
        PluginView::ProjectDependencies,
        simple_rule(
            "old-logs"@,
            Category::Logs,
            seq![("Library/Logs"@, 30i64)],
            "用户日志"@,
            Seq::<Seq<char>>::empty(),
        ),
        simple_rule(
            "crash-reports"@,
            Category::CrashReports,
            seq![("Library/Logs/DiagnosticReports"@, 14i64)],
            "崩溃诊断报告"@,
            Seq::<Seq<char>>::empty(),
        ),
        PluginView::Downloads,
    ]
}

/// A simple rule with one root.
fn one_root_rule(
    id: &str,
    category: Category,
    root: &str,
    days: i64,
    reason: &str,
    exclude: Vec<String>,
) -> (res: CleanerPlugin)
    ensures
        res@ == simple_rule(
            id@,
            category,
            seq![(root@, days)],
            reason@,
            exclude@.map_values(|x: String| x@),
        ),
{
    let mut roots: Vec<(String, i64)> = Vec::new();
    roots.push((root.to_string(), days));
    let r = SimpleRule { id: id.to_string(), category, risk: Risk::Low, roots, reason: reason.to_string(), exclude };
    assert(r@.roots =~= seq![(root@, days)]);
    CleanerPlugin::Simple(r)
}

/// The built-in rules: user caches, developer caches, duplicate VS Code
/// extensions, project dependencies, old logs, crash reports and old downloaded
/// archives, in that order.
pub fn builtin_plugins() -> (res: Vec<CleanerPlugin>)
    ensures
        res@.map_values(|p: CleanerPlugin| p@) == builtin_plugin_views(),
{
    let mut excluded: Vec<String> = Vec::new();
    excluded.push("safari".to_string());
    excluded.push("chrome".to_string());
    excluded.push("firefox".to_string());
    excluded.push("mozilla".to_string());
    excluded.push("cloudkit".to_string());
    excluded.push("keychain".to_string());
    excluded.push("credential".to_string());
    excluded.push("1password".to_string());
    excluded.push("lastpass".to_string());
    excluded.push("bitwarden".to_string());
    assert(excluded@.map_values(|x: String| x@) =~= browser_and_secret_names());
    let mut res: Vec<CleanerPlugin> = Vec::new();
    res.push(
        one_root_rule("user-caches", Category::ApplicationCaches, "Library/Caches", 30, "可由应用重新生成的用户缓存", excluded),
    );
    let mut roots: Vec<(String, i64)> = Vec::new();
    roots.push((".cache".to_string(), 30));
    roots.push((".npm/_cacache".to_string(), 30));
    roots.push(("Library/Caches/pip".to_string(), 30));
    roots.push(("Library/Developer/Xcode/DerivedData".to_string(), 14));
    let dev = SimpleRule {
        id: "developer-caches".to_string(),
        category: Category::DeveloperCaches,
        risk: Risk::Low,
        roots,
        reason: "可再生成的开发工具缓存".to_string(),
        exclude: Vec::new(),
    };
    assert(dev@.roots =~= seq![
        (".cache"@, 30i64),
        (".npm/_cacache"@, 30i64),
        ("Library/Caches/pip"@, 30i64),
        ("Library/Developer/Xcode/DerivedData"@, 14i64),
    ]);
    assert(dev@.exclude =~= Seq::<Seq<char>>::empty());
    res.push(CleanerPlugin::Simple(dev));
    res.push(CleanerPlugin::VscodeDuplicates);
    res.push(CleanerPlugin::ProjectDependencies);
    let none: Vec<String> = Vec::new();
    assert(none@.map_values(|x: String| x@) =~= Seq::<Seq<char>>::empty());
    res.push(one_root_rule("old-logs", Category::Logs, "Library/Logs", 30, "用户日志", none));
    let none: Vec<String> = Vec::new();
    assert(none@.map_values(|x: String| x@) =~= Seq::<Seq<char>>::empty());
    res.push(
        one_root_rule("crash-reports", Category::CrashReports, "Library/Logs/DiagnosticReports", 14, "崩溃诊断报告", none),
    );
    res.push(CleanerPlugin::Downloads);
    assert(res@.map_values(|p: CleanerPlugin| p@) =~= builtin_plugin_views());
    res
}

/// The lowercase name of the last component of a path, or the empty string.
pub open spec fn lower_name(path: Seq<char>) -> Seq<char> {
    lowercase(
        match file_name(path) {
            Some(n) => n,
            None => Seq::<char>::empty(),
        },
    )
}

/// A simple rule leaves out an entry whose lowercase name holds one of its excluded
/// names, and the old-logs rule leaves out the crash reports' own directory.
pub open spec fn simple_skips(rule: SimpleRuleView, path: Seq<char>) -> bool {
    let lower = lower_name(path);
    (exists|i: int| 0 <= i < rule.exclude.len() && has_substring(lower, #[trigger] rule.exclude[i]))
        || (rule.id == "old-logs"@ && lower == "diagnosticreports"@)
}

/// The lowercase name of the last component of a path, or the empty string.
pub fn lower_name_of(path: &str) -> (res: String)
    ensures
        res@ == lower_name(path@),
{
    let name = match file_name_of(path) {
        Some(n) => string_of(n.as_slice()),
        None => String::new(),
    };
    to_lowercase(name.as_str())
}

impl SimpleRule {
    /// Whether this rule leaves out the entry at `path`.
    pub fn skips(&self, path: &str) -> (res: bool)
        ensures
            res == simple_skips(self@, path@),
    {
        let lower = lower_name_of(path);
        let mut i: usize = 0;
        while i < self.exclude.len()
            invariant
                i <= self.exclude.len(),
                lower@ == lower_name(path@),
                forall|j: int| 0 <= j < i ==> !has_substring(lower@, #[trigger] self@.exclude[j]),
            decreases self.exclude.len() - i,
        {
            assert(self@.exclude[i as int] == self.exclude@[i as int]@);
            if str_contains(lower.as_str(), self.exclude[i].as_str()) {
                return true;
            }
            i = i + 1;
        }
        str_is(self.id.as_str(), "old-logs") && str_is(lower.as_str(), "diagnosticreports")
    }

    /// What the rule proposes for an old entry found below a root kept `days` days.
    pub fn candidate(&self, path: String, days: i64) -> (res: RawCandidate)
        ensures
            res@ == (RawCandidateView {
                plugin: self.id@,
                category: self.category,
                risk: self.risk,
                path: path@,
                reason: simple_reason(self.reason@, days),
            }),
    {
        let mut reason = self.reason.clone();
        reason.append("（超过 ");
        push_signed_decimal(&mut reason, days);
        reason.append(" 天未变化）");
        RawCandidate { plugin: self.id.clone(), category: self.category, risk: self.risk, path, reason }
    }
}

/// What is known of an entry directly inside one of a rule's roots when the rule
/// comes to it: its path, its latest modification time (or why it could not be
/// read), and whether the scan had been cancelled by then.
pub struct ChildProbe {
    pub path: String,
    pub newest: Result<i64, String>,
    pub cancelled: bool,
}

/// The contents of a `ChildProbe`.
pub struct ChildProbeView {
    pub path: Seq<char>,
    pub newest: Result<i64, Seq<char>>,
    pub cancelled: bool,
}

impl View for ChildProbe {
    type V = ChildProbeView;

    open spec fn view(&self) -> ChildProbeView {
        ChildProbeView { path: self.path@, newest: time_result(self.newest), cancelled: self.cancelled }
    }
}

/// The views of the probes of each root.
pub open spec fn listing_views(ls: Seq<Vec<ChildProbe>>) -> Seq<Seq<ChildProbeView>> {
    ls.map_values(|l: Vec<ChildProbe>| l@.map_values(|c: ChildProbe| c@))
}

/// `now - days * 86400` can be computed in `i64`.
pub open spec fn age_fits(now: i64, days: i64) -> bool {
    &&& i64::MIN <= days * 86400 <= i64::MAX
    &&& i64::MIN <= now - days * 86400 <= i64::MAX
}

/// Whether the rule comes to the entry at `j`: the scan was not cancelled before
/// it or at it.
pub open spec fn reached(cs: Seq<ChildProbeView>, j: int) -> bool {
    forall|k: int| 0 <= k <= j ==> !(#[trigger] cs[k]).cancelled
}

/// What a simple rule proposes among the entries of one root kept `days` days: the
/// entries it is not told to leave out that are old, up to the first one at which
/// the scan was cancelled.
pub open spec fn root_proposals(rule: SimpleRuleView, days: i64, now: i64, cs: Seq<ChildProbeView>) -> Seq<
    RawCandidateView,
>
    decreases cs.len(),
{
    if cs.len() == 0 || cs[0].cancelled {
        Seq::<RawCandidateView>::empty()
    } else {
        let rest = root_proposals(rule, days, now, cs.drop_first());
        if !simple_skips(rule, cs[0].path) && is_old(cs[0].newest, now, days) {
            seq![
                RawCandidateView {
                    plugin: rule.id,
                    category: rule.category,
                    risk: rule.risk,
                    path: cs[0].path,
                    reason: simple_reason(rule.reason, days),
                },
            ] + rest
        } else {
            rest
        }
    }
}

/// What a simple rule proposes in its first `n` roots, root by root.
pub open spec fn simple_proposals(rule: SimpleRuleView, now: i64, ls: Seq<Seq<ChildProbeView>>, n: int) -> Seq<
    RawCandidateView,
>
    decreases n,
{
    if n <= 0 {
        Seq::<RawCandidateView>::empty()
    } else {
        simple_proposals(rule, now, ls, n - 1) + root_proposals(rule, rule.roots[n - 1].1, now, ls[n - 1])
    }
}

/// The rule's age test is computed for every entry it comes to, does not leave
/// out, and whose time could be read; there, `now - days * 86400` must fit.
pub open spec fn simple_ages_fit(rule: SimpleRuleView, now: i64, ls: Seq<Seq<ChildProbeView>>) -> bool {
    forall|i: int, j: int|
        0 <= i < ls.len() && 0 <= j < ls[i].len() && reached(ls[i], j) && !simple_skips(
            rule,
            #[trigger] ls[i][j].path,
        ) && ls[i][j].newest is Ok ==> age_fits(now, rule.roots[i].1)
}

impl SimpleRule {
    /// What the rule proposes, given for each of its roots, in order, what is known
    /// of the entries directly inside it.
    pub fn propose(&self, now: i64, listings: &[Vec<ChildProbe>]) -> (res: Vec<RawCandidate>)
        requires
            listings.len() == self.roots.len(),
            simple_ages_fit(self@, now, listing_views(listings@)),
        ensures
            res@.map_values(|r: RawCandidate| r@) == simple_proposals(
                self@,
                now,
                listing_views(listings@),
                listings.len() as int,
            ),
    {
        let ghost ls = listing_views(listings@);
        let mut res: Vec<RawCandidate> = Vec::new();
        let mut i: usize = 0;
        assert(res@.map_values(|r: RawCandidate| r@) =~= Seq::<RawCandidateView>::empty());
        while i < listings.len()
            invariant
                i <= listings.len(),
                listings.len() == self.roots.len(),
                ls == listing_views(listings@),
                simple_ages_fit(self@, now, ls),
                res@.map_values(|r: RawCandidate| r@) == simple_proposals(self@, now, ls, i as int),
            decreases listings.len() - i,
        {
            let days = self.roots[i].1;
            assert(self@.roots[i as int].1 == days);
            let cs = &listings[i];
            let ghost cv = ls[i as int];
            assert(cv == cs@.map_values(|c: ChildProbe| c@));
            let ghost start = res@.map_values(|r: RawCandidate| r@);
            let mut j: usize = 0;
            assert(cv.skip(0) =~= cv);
            assert(start + Seq::<RawCandidateView>::empty() =~= start);
            while j < cs.len()
                invariant_except_break
                    j <= cs.len(),
                    cv == cs@.map_values(|c: ChildProbe| c@),
                    cv == ls[i as int],
                    ls == listing_views(listings@),
                    i < listings.len(),
                    listings.len() == self.roots.len(),
                    days == self@.roots[i as int].1,
                    simple_ages_fit(self@, now, ls),
                    reached(cv, j - 1),
                    start + root_proposals(self@, days, now, cv) == res@.map_values(|r: RawCandidate| r@)
                        + root_proposals(self@, days, now, cv.skip(j as int)),
                ensures
                    start + root_proposals(self@, days, now, cv) == res@.map_values(|r: RawCandidate| r@),
                decreases cs.len() - j,
            {
                let c = &cs[j];
                assert(cv[j as int] == c@);
                let ghost tail = cv.skip(j as int);
                assert(tail[0] == c@);
                assert(tail.drop_first() =~= cv.skip(j + 1));
                if c.cancelled {
                    assert(root_proposals(self@, days, now, tail) =~= Seq::<RawCandidateView>::empty());
                    assert(res@.map_values(|r: RawCandidate| r@) + Seq::<RawCandidateView>::empty()
                        =~= res@.map_values(|r: RawCandidate| r@));
                    break;
                }
                assert(reached(cv, j as int)) by {
                    assert forall|k: int| 0 <= k <= j implies !(#[trigger] cv[k]).cancelled by {
                        if k < j {
                            assert(reached(cv, j - 1));
                        }
                    }
                }
                if !self.skips(c.path.as_str()) {
                    let aged = match &c.newest {
                        Ok(m) => {
                            assert(age_fits(now, days)) by {
                                assert(ls.len() == listings.len());
                                assert(ls[i as int][j as int] == c@);
                                assert(reached(ls[i as int], j as int));
                                assert(!simple_skips(self@, ls[i as int][j as int].path));
                                assert(ls[i as int][j as int].newest is Ok);
                            }
                            *m <= now - days * 86400
                        },
                        Err(_) => false,
                    };
                    if aged {
                        let r = self.candidate(c.path.clone(), days);
                        let ghost before = res@.map_values(|r: RawCandidate| r@);
                        res.push(r);
                        assert(res@.map_values(|r: RawCandidate| r@) =~= before.push(r@));
                        assert(root_proposals(self@, days, now, tail) =~= seq![r@] + root_proposals(
                            self@,
                            days,
                            now,
                            cv.skip(j + 1),
                        ));
                        assert(before + (seq![r@] + root_proposals(self@, days, now, cv.skip(j + 1)))
                            =~= before.push(r@) + root_proposals(self@, days, now, cv.skip(j + 1)));
                    }
                }
                j = j + 1;
            }
            proof {
                if j == cs.len() {
                    assert(cv.skip(j as int) =~= Seq::<ChildProbeView>::empty());
                    assert(res@.map_values(|r: RawCandidate| r@) + Seq::<RawCandidateView>::empty()
                        =~= res@.map_values(|r: RawCandidate| r@));
                }
            }
            i = i + 1;
        }
        res
    }
}

/// Why a simple rule proposes an entry.
pub open spec fn simple_reason(reason: Seq<char>, days: i64) -> Seq<char> {
    reason + "（超过 "@ + signed_decimal(days as int) + " 天未变化）"@
}

/// The latest modification time, in seconds, of an entry and everything below it:
/// the entry's own time, raised by each time that could be read below it.
pub open spec fn newest_of(root: i64, below: Seq<Option<i64>>) -> i64
    decreases below.len(),
{
    if below.len() == 0 {
        root
    } else {
        let m = newest_of(root, below.drop_last());
        match below.last() {
            Some(t) => if t > m { t } else { m },
            None => m,
        }
    }
}

/// The latest modification time of an entry and what lies below it, given the
/// entry's own time (or why it could not be read) and the times read below it.
pub fn newest_mtime(root: Result<i64, String>, below: &[Option<i64>]) -> (res: Result<i64, String>)
    ensures
        match root {
            Ok(r) => res == Ok::<i64, String>(newest_of(r, below@)),
            Err(e) => res is Err && res->Err_0@ == e@,
        },
{
    let mut newest = match root {
        Ok(r) => r,
        Err(e) => return Err(e),
    };
    let ghost r = newest;
    let mut i: usize = 0;
    assert(below@.take(0) =~= Seq::<Option<i64>>::empty());
    while i < below.len()
        invariant
            i <= below.len(),
            newest == newest_of(r, below@.take(i as int)),
        decreases below.len() - i,
    {
        assert(below@.take(i + 1).drop_last() =~= below@.take(i as int));
        if let Some(t) = below[i] {
            if t > newest {
                newest = t;
            }
        }
        i = i + 1;
    }
    assert(below@.take(below.len() as int) =~= below@);
    Ok(newest)
}

/// An entry is old when its latest modification time could be read and lies at
/// least `days` days before now.
pub open spec fn is_old(newest: Result<i64, Seq<char>>, now: i64, days: i64) -> bool {
    match newest {
        Ok(m) => m <= now - days * 86400,
        Err(_) => false,
    }
}

/// The view of an `i64` result.
pub open spec fn time_result(r: Result<i64, String>) -> Result<i64, Seq<char>> {
    match r {
        Ok(t) => Ok(t),
        Err(e) => Err(e@),
    }
}

/// Whether an entry with the given latest modification time is old enough.
pub fn old_enough(newest: &Result<i64, String>, ctx: &ScanContext, days: i64) -> (res: bool)
    requires
        i64::MIN <= days * 86400 <= i64::MAX,
        i64::MIN <= ctx.now - days * 86400 <= i64::MAX,
    ensures
        res == is_old(time_result(*newest), ctx.now, days),
{
    match newest {
        Ok(m) => *m <= ctx.now - days * 86400,
        Err(_) => false,
    }
}

/// A downloaded file that an old-downloads rule looks at: its extension, in
/// lowercase, is `dmg`, `pkg` or `zip`.
pub open spec fn is_archive_name(path: Seq<char>) -> bool {
    match file_name(path) {
        Some(n) => match extension(n) {
            Some(e) => {
                let l = lowercase(e);
                l == "dmg"@ || l == "pkg"@ || l == "zip"@
            },
            None => false,
        },
        None => false,
    }
}

/// Whether the file at `path` is an installer or archive by its extension.
pub fn is_download_archive(path: &str) -> (res: bool)
    ensures
        res == is_archive_name(path@),
{
    let name = match file_name_of(path) {
        Some(n) => n,
        None => return false,
    };
    let ext = match extension_of(name.as_slice()) {
        Some(e) => e,
        None => return false,
    };
    let e = string_of(ext.as_slice());
    let l = to_lowercase(e.as_str());
    str_is(l.as_str(), "dmg") || str_is(l.as_str(), "pkg") || str_is(l.as_str(), "zip")
}

/// The reason given for an old downloaded archive.
pub open spec fn download_reason() -> Seq<char> {
    "超过 30 天的安装包或压缩包，请确认不再需要"@
}

/// What the downloads rule proposes for an old archive.
pub fn download_candidate(path: String) -> (res: RawCandidate)
    ensures
        res@ == (RawCandidateView {
            plugin: "download-archives"@,
            category: Category::DownloadLeftovers,
            risk: Risk::Review,
            path: path@,
            reason: download_reason(),
        }),
{
    raw(
        "download-archives",
        Category::DownloadLeftovers,
        Risk::Review,
        path,
        "超过 30 天的安装包或压缩包，请确认不再需要".to_string(),
    )
}


/// What is known of an entry directly inside the downloads folder: its path,
/// whether it is a regular file, and its latest modification time (or why it
/// could not be read).
pub struct DownloadProbe {
    pub path: String,
    pub is_file: bool,
    pub newest: Result<i64, String>,
}

/// The contents of a `DownloadProbe`.
pub struct DownloadProbeView {
    pub path: Seq<char>,
    pub is_file: bool,
    pub newest: Result<i64, Seq<char>>,
}

impl View for DownloadProbe {
    type V = DownloadProbeView;

    open spec fn view(&self) -> DownloadProbeView {
        DownloadProbeView { path: self.path@, is_file: self.is_file, newest: time_result(self.newest) }
    }
}

/// The downloads rule takes a regular file with an archive's extension that has
/// not changed for 30 days.
pub open spec fn download_taken(p: DownloadProbeView, now: i64) -> bool {
    p.is_file && is_archive_name(p.path) && is_old(p.newest, now, 30)
}

/// What the downloads rule proposes among the first `n` entries, in order.
pub open spec fn download_proposals(now: i64, ps: Seq<DownloadProbeView>, n: int) -> Seq<RawCandidateView>
    decreases n,
{
    if n <= 0 {
        Seq::<RawCandidateView>::empty()
    } else {
        let r = download_proposals(now, ps, n - 1);
        if download_taken(ps[n - 1], now) {
            r.push(
                RawCandidateView {
                    plugin: "download-archives"@,
                    category: Category::DownloadLeftovers,
                    risk: Risk::Review,
                    path: ps[n - 1].path,
                    reason: download_reason(),
                },
            )
        } else {
            r
        }
    }
}

/// The views of download probes.
pub open spec fn download_views(ps: Seq<DownloadProbe>) -> Seq<DownloadProbeView> {
    ps.map_values(|p: DownloadProbe| p@)
}

/// What the downloads rule proposes, given what is known of the entries of the
/// downloads folder. The age test is computed for every archive file whose time
/// could be read; there `now - 30 days` must fit in `i64`.
pub fn downloads_proposals(now: i64, probes: &[DownloadProbe]) -> (res: Vec<RawCandidate>)
    requires
        forall|i: int|
            0 <= i < probes.len() && (#[trigger] probes@[i]).is_file && is_archive_name(probes@[i].path@)
                && probes@[i].newest is Ok ==> age_fits(now, 30),
    ensures
        res@.map_values(|r: RawCandidate| r@) == download_proposals(
            now,
            download_views(probes@),
            probes.len() as int,
        ),
{
    let ghost pv = download_views(probes@);
    let mut res: Vec<RawCandidate> = Vec::new();
    let mut i: usize = 0;
    assert(res@.map_values(|r: RawCandidate| r@) =~= Seq::<RawCandidateView>::empty());
    while i < probes.len()
        invariant
            i <= probes.len(),
            pv == download_views(probes@),
            forall|k: int|
                0 <= k < probes.len() && (#[trigger] probes@[k]).is_file && is_archive_name(probes@[k].path@)
                    && probes@[k].newest is Ok ==> age_fits(now, 30),
            res@.map_values(|r: RawCandidate| r@) == download_proposals(now, pv, i as int),
        decreases probes.len() - i,
    {
        let p = &probes[i];
        assert(pv[i as int] == p@);
        if p.is_file && is_download_archive(p.path.as_str()) {
            let aged = match &p.newest {
                Ok(m) => {
                    assert(age_fits(now, 30)) by {
                        assert(probes@[i as int].is_file);
                    }
                    *m <= now - 30 * 86400
                },
                Err(_) => false,
            };
            if aged {
                let r = download_candidate(p.path.clone());
                let ghost before = res@.map_values(|r: RawCandidate| r@);
                res.push(r);
                assert(res@.map_values(|r: RawCandidate| r@) =~= before.push(r@));
            }
        }
        i = i + 1;
    }
    res
}

} // verus!

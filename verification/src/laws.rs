//! What holds of the library as a whole: properties that span its functions.
use vstd::prelude::*;
use crate::cleaner::{attempted, batch_outcome, moved_message, OutcomeView};
use crate::commands::{last_with_id, picked};
use crate::deps::{dependency_names, home_dependencies_upto, proposals_upto, DirEntryView};
use crate::paths::{file_name, joined};
use crate::deps::read_at;
use crate::plugins::{download_proposals, is_archive_name, DownloadProbeView};
use crate::scanner::report_rank;
use crate::snapshot::{walk_upto, WalkEntryView};
use crate::settings::{root_check, roots_upto, validation, RootProbeView};
use crate::plugins::{builtin_plugin_views, browser_and_secret_names, lower_name, simple_skips, PluginView};
use crate::text::has_substring;
use crate::model::{CandidateInternal, CandidateInternalView, Category, CleanFailureView, Risk, SnapshotView};
use crate::paths::{components, path_starts_with, same_path};
use crate::plugins::RawCandidateView;
use crate::scanner::{
    absorbed, apart, built_candidate, contents_outcome, lemma_starts_with_itself, location_outcome,
    offerable, overlapping, overlaps_none, overlaps_only_inside, sensitive,
};
use crate::snapshot::{snapshot_of, walk_views, RootMeta, WalkEntry};
use crate::sort::{lemma_sorted_unique, sorted_by_rank, strictly_ranked, Ranked};
use crate::text::Order;
use crate::version::{
    lemma_version_flip, lemma_version_transitive, numbers_rank_from, version_rank, VersionView,
};
use crate::vscode::{ext_rank, has_company, kept_at, kept_of, lemma_kept_exists, obsolete_path, same_group, superseded, superseded_candidate, ExtInfoView};

verus! {

/// Versions compare number by number with missing numbers counting as zero, so
/// trailing zeros make no difference: `1.2` and `1.2.0` are the same version.
pub proof fn law_trailing_zeros_do_not_count(numbers: Seq<u64>, zeros: nat, prerelease: Option<Seq<char>>)
    ensures
        version_rank(
            VersionView { numbers, prerelease },
            VersionView { numbers: numbers + Seq::new(zeros, |i: int| 0u64), prerelease },
        ) == Order::Equal,
{
    let a = numbers;
    let b = numbers + Seq::new(zeros, |i: int| 0u64);
    lemma_numbers_equal_from(a, b, 0);
    if let Some(p) = prerelease {
        crate::text::lemma_lex_equal(vstd::utf8::encode_utf8(p), vstd::utf8::encode_utf8(p));
    }
}

proof fn lemma_numbers_equal_from(a: Seq<u64>, b: Seq<u64>, i: int)
    requires
        a.len() <= b.len(),
        forall|j: int| 0 <= j < a.len() ==> a[j] == b[j],
        forall|j: int| a.len() <= j < b.len() ==> b[j] == 0,
        0 <= i,
    ensures
        numbers_rank_from(a, b, i) == Order::Equal,
    decreases b.len() - i,
{
    if i < b.len() {
        lemma_numbers_equal_from(a, b, i + 1);
    }
}

/// A release ranks above every pre-release with the same numbers: `2.0.0` is newer
/// than `2.0.0-beta.1`.
pub proof fn law_release_above_prerelease(numbers: Seq<u64>, tag: Seq<char>)
    ensures
        version_rank(
            VersionView { numbers, prerelease: None },
            VersionView { numbers, prerelease: Some(tag) },
        ) == Order::Greater,
{
    lemma_numbers_equal_from(numbers, numbers, 0);
}

/// The order of versions is a total preorder: comparing the other way round gives
/// the opposite outcome, and it is transitive.
pub proof fn law_version_order(a: VersionView, b: VersionView, c: VersionView)
    ensures
        version_rank(a, b) == version_rank(b, a).flip(),
        version_rank(a, b) != Order::Greater && version_rank(b, c) != Order::Greater ==> version_rank(a, c)
            != Order::Greater,
{
    lemma_version_flip(a, b);
    if version_rank(a, b) != Order::Greater && version_rank(b, c) != Order::Greater {
        lemma_version_transitive(a, b, c);
    }
}

/// A path outside the home directory is always sensitive, so never offered.
pub proof fn law_outside_home_is_sensitive(path: Seq<char>, home: Seq<char>)
    requires
        !path_starts_with(path, home),
    ensures
        sensitive(path, home),
        !offerable(path, home),
{
}

/// Nothing is moved that fails the checks made right before the move: a candidate
/// passes only where its canonical path is still its own, no symbolic link, inside
/// the home directory and not sensitive, where its root is the same file, nothing
/// below it changed, and it lies on the trash's file system.
pub proof fn law_revalidation_guards(
    c: CandidateInternalView,
    home: Result<Seq<char>, Seq<char>>,
    path: Result<Seq<char>, Seq<char>>,
    is_symlink: bool,
    current: Result<SnapshotView, Seq<char>>,
    trash_device: Result<u64, Seq<char>>,
)
    requires
        location_outcome(c, home, path, is_symlink) is Ok,
        contents_outcome(c, current, trash_device) is Ok,
    ensures
        !is_symlink,
        home is Ok && path is Ok,
        same_path(path->Ok_0, c.path),
        offerable(path->Ok_0, home->Ok_0),
        current is Ok && trash_device is Ok,
        current->Ok_0.device == c.snapshot.device,
        current->Ok_0.inode == c.snapshot.inode,
        current->Ok_0.mode == c.snapshot.mode,
        current->Ok_0.size == c.snapshot.size,
        current->Ok_0.digest == c.snapshot.digest,
        current->Ok_0.device == trash_device->Ok_0,
{
}

/// What a scan admitted passes the checks before its move when nothing changed:
/// the path is canonical and inside home as before, and a fresh snapshot equals the
/// one taken during the scan, on the trash's file system.
pub proof fn law_unchanged_candidate_passes(
    raw: RawCandidateView,
    path: Seq<char>,
    home: Seq<char>,
    snap: SnapshotView,
    modified_at: i64,
)
    requires
        offerable(path, home),
    ensures
        location_outcome(built_candidate(raw, path, snap, modified_at), Ok(home), Ok(path), false) == Ok::<(), Seq<char>>(()),
        contents_outcome(built_candidate(raw, path, snap, modified_at), Ok(snap), Ok(snap.device)) == Ok::<(), Seq<char>>(()),
{
}

/// The sum of the sizes of a batch's candidates.
pub open spec fn batch_bytes(items: Seq<(CandidateInternalView, Result<(), Seq<char>>)>) -> nat
    decreases items.len(),
{
    if items.len() == 0 {
        0
    } else {
        batch_bytes(items.drop_last()) + items.last().0.public.size_bytes as nat
    }
}

/// The failures of a batch: each candidate whose checks or move failed, with its error.
pub open spec fn batch_failures(items: Seq<(CandidateInternalView, Result<(), Seq<char>>)>) -> Seq<CleanFailureView>
    decreases items.len(),
{
    if items.len() == 0 {
        Seq::<CleanFailureView>::empty()
    } else {
        let r = batch_failures(items.drop_last());
        let (c, result) = items.last();
        match result {
            Ok(()) => r,
            Err(message) => r.push(
                CleanFailureView { id: c.public.id, path: c.public.path, message, size_bytes: c.public.size_bytes },
            ),
        }
    }
}

/// A clean accounts for every candidate it was given: each is either moved or
/// listed as a failure with its error (a failed move is skipped, nothing else is
/// tried), and the bytes moved and the bytes that failed add up to the batch's size.
pub proof fn law_clean_accounts_for_everything(items: Seq<(CandidateInternalView, Result<(), Seq<char>>)>)
    ensures
        batch_outcome(items).moved_count + batch_outcome(items).failures.len() == items.len(),
        batch_outcome(items).moved_bytes + batch_outcome(items).failed_bytes == batch_bytes(items),
        batch_outcome(items).failures == batch_failures(items),
        batch_outcome(items).failed_bytes == failure_bytes(batch_failures(items)),
    decreases items.len(),
{
    if items.len() > 0 {
        law_clean_accounts_for_everything(items.drop_last());
        let r = batch_failures(items.drop_last());
        let f = batch_failures(items);
        if items.last().1 is Err {
            assert(f.drop_last() =~= r);
        }
    }
}

/// The sum of the sizes of the failed candidates.
pub open spec fn failure_bytes(fs: Seq<CleanFailureView>) -> nat
    decreases fs.len(),
{
    if fs.len() == 0 {
        0
    } else {
        failure_bytes(fs.drop_last()) + fs.last().size_bytes as nat
    }
}

/// The first `n` candidates of a clean, each with what happened to it: its check
/// comes first, and only a candidate that passed it is moved.
pub open spec fn attempts(
    cands: Seq<CandidateInternalView>,
    checks: Seq<Result<(), Seq<char>>>,
    moves: Seq<Result<(), Seq<char>>>,
    n: int,
) -> Seq<(CandidateInternalView, Result<(), Seq<char>>)> {
    Seq::new(n as nat, |i: int| (cands[i], attempted(checks[i], moves[i])))
}

/// How many of the first `n` candidates passed their check and were moved.
pub open spec fn moved_upto(checks: Seq<Result<(), Seq<char>>>, moves: Seq<Result<(), Seq<char>>>, n: int) -> nat
    decreases n,
{
    if n <= 0 {
        0
    } else {
        moved_upto(checks, moves, n - 1) + if checks[n - 1] is Ok && moves[n - 1] is Ok { 1nat } else { 0nat }
    }
}

/// The failures among the first `n` candidates, in order: the check's error where
/// the check failed, otherwise the move's error where the move failed.
pub open spec fn attempt_failures(
    cands: Seq<CandidateInternalView>,
    checks: Seq<Result<(), Seq<char>>>,
    moves: Seq<Result<(), Seq<char>>>,
    n: int,
) -> Seq<CleanFailureView>
    decreases n,
{
    if n <= 0 {
        Seq::<CleanFailureView>::empty()
    } else {
        let r = attempt_failures(cands, checks, moves, n - 1);
        let c = cands[n - 1];
        let failure = |message: Seq<char>|
            CleanFailureView { id: c.public.id, path: c.public.path, message, size_bytes: c.public.size_bytes };
        match checks[n - 1] {
            Err(e) => r.push(failure(e)),
            Ok(()) => match moves[n - 1] {
                Err(e) => r.push(failure(e)),
                Ok(()) => r,
            },
        }
    }
}

/// A clean moves a candidate only when its check passed: the moved ones are those
/// whose check and move both succeeded, and the failures are, in order, every other
/// candidate with its check's error, or with its move's error where the check passed.
pub proof fn law_clean_moves_only_checked(
    cands: Seq<CandidateInternalView>,
    checks: Seq<Result<(), Seq<char>>>,
    moves: Seq<Result<(), Seq<char>>>,
    n: int,
)
    requires
        0 <= n <= cands.len(),
        checks.len() == cands.len(),
        moves.len() == cands.len(),
    ensures
        batch_outcome(attempts(cands, checks, moves, n)).moved_count == moved_upto(checks, moves, n),
        batch_outcome(attempts(cands, checks, moves, n)).failures == attempt_failures(cands, checks, moves, n),
    decreases n,
{
    if n > 0 {
        law_clean_moves_only_checked(cands, checks, moves, n - 1);
        assert(attempts(cands, checks, moves, n).drop_last() =~= attempts(cands, checks, moves, n - 1));
    }
}

/// A clean takes only candidates of the finished scan it names, each the one that
/// its id names: the user can submit ids, never paths.
pub proof fn law_clean_takes_session_candidates(s: Seq<CandidateInternal>, ids: Seq<Seq<char>>, n: int)
    requires
        0 <= n <= ids.len(),
        picked(s, ids, n) is Ok,
    ensures
        picked(s, ids, n)->Ok_0.len() == n,
        forall|i: int|
            0 <= i < n ==> {
                let k = #[trigger] last_with_id(s, ids[i]);
                &&& 0 <= k < s.len()
                &&& s[k].public.id@ == ids[i]
                &&& picked(s, ids, n)->Ok_0[i] == s[k]@
            },
    decreases n,
{
    if n > 0 {
        law_clean_takes_session_candidates(s, ids, n - 1);
        lemma_last_with_id(s, ids[n - 1]);
        assert forall|i: int| 0 <= i < n implies {
            let k = #[trigger] last_with_id(s, ids[i]);
            &&& 0 <= k < s.len()
            &&& s[k].public.id@ == ids[i]
            &&& picked(s, ids, n)->Ok_0[i] == s[k]@
        } by {
            lemma_last_with_id(s, ids[i]);
        }
    }
}

proof fn lemma_last_with_id(s: Seq<CandidateInternal>, id: Seq<char>)
    ensures
        -1 <= last_with_id(s, id) < s.len(),
        last_with_id(s, id) >= 0 ==> s[last_with_id(s, id)].public.id@ == id,
    decreases s.len(),
{
    if s.len() > 0 {
        lemma_last_with_id(s.drop_last(), id);
    }
}

/// When a scan takes in a new candidate nothing is lost uncovered: every candidate
/// found before stays, or lies inside the new one, which then joins; and the new one
/// joins, or lies inside a candidate that stays.
pub proof fn law_merging_covers(found: Seq<CandidateInternalView>, c: CandidateInternalView)
    ensures
        forall|i: int|
            0 <= i < found.len() ==> absorbed(found, c).contains(#[trigger] found[i]) || (path_starts_with(
                found[i].path,
                c.path,
            ) && absorbed(found, c).contains(c)),
        absorbed(found, c).contains(c) || exists|j: int|
            0 <= j < absorbed(found, c).len() && path_starts_with(c.path, #[trigger] absorbed(found, c)[j].path),
{
    let a = absorbed(found, c);
    if overlaps_none(found, c.path) {
        assert(a[found.len() as int] == c);
        assert forall|i: int| 0 <= i < found.len() implies a.contains(#[trigger] found[i]) by {
            assert(a[i] == found[i]);
        }
    } else if overlaps_only_inside(found, c.path) {
        assert(a[a.len() - 1] == c);
        assert forall|i: int| 0 <= i < found.len() implies a.contains(#[trigger] found[i]) || (path_starts_with(
            found[i].path,
            c.path,
        ) && a.contains(c)) by {
            if !overlapping(found[i].path, c.path) {
                lemma_apart_contains(found, c.path, i);
                let k = choose|k: int| 0 <= k < apart(found, c.path).len() && apart(found, c.path)[k] == found[i];
                assert(a[k] == found[i]);
            }
        }
    } else {
        let j = choose|j: int|
            0 <= j < found.len() && overlapping(#[trigger] found[j].path, c.path) && !path_starts_with(found[j].path, c.path);
        assert(a[j] == found[j]);
        assert forall|i: int| 0 <= i < found.len() implies a.contains(#[trigger] found[i]) by {
            assert(a[i] == found[i]);
        }
    }
}

proof fn lemma_apart_contains(found: Seq<CandidateInternalView>, c: Seq<char>, i: int)
    requires
        0 <= i < found.len(),
        !overlapping(found[i].path, c),
    ensures
        apart(found, c).contains(found[i]),
    decreases found.len(),
{
    let rest = found.drop_last();
    if i < found.len() - 1 {
        assert(rest[i] == found[i]);
        lemma_apart_contains(rest, c, i);
        let k = choose|k: int| 0 <= k < apart(rest, c).len() && apart(rest, c)[k] == found[i];
        if !overlapping(found.last().path, c) {
            assert(apart(found, c)[k] == found[i]);
        }
    } else {
        assert(apart(found, c)[apart(found, c).len() - 1] == found[i]);
    }
}

/// A proposal of the dependency rule: its plugin and category, and risk Review.
pub open spec fn dependency_item(r: RawCandidateView) -> bool {
    &&& r.plugin == "project-dependencies"@
    &&& r.category == Category::ProjectDependencies
    &&& r.risk == Risk::Review
}

/// Dependency directories always need review before they are moved: everything the
/// dependency rule proposes carries its plugin and category and risk Review, and is
/// a directory with one of the three dependency names, right in the home directory
/// or among the entries read below a project root.
pub proof fn law_dependencies_need_review(
    home: Seq<char>,
    real_dirs: Seq<bool>,
    root: Seq<char>,
    entries: Seq<DirEntryView>,
    n: int,
    m: int,
)
    requires
        0 <= n <= real_dirs.len(),
        n <= 3,
        0 <= m <= entries.len(),
    ensures
        forall|i: int|
            0 <= i < home_dependencies_upto(home, real_dirs, n).len() ==> {
                let r = #[trigger] home_dependencies_upto(home, real_dirs, n)[i];
                &&& dependency_item(r)
                &&& exists|k: int| 0 <= k < 3 && r.path == joined(home, #[trigger] dependency_names()[k])
            },
        forall|i: int|
            0 <= i < proposals_upto(root, entries, m).len() ==> {
                let r = #[trigger] proposals_upto(root, entries, m)[i];
                &&& dependency_item(r)
                &&& exists|k: int|
                    0 <= k < m && r.path == (#[trigger] entries[k]).path && dependency_names().contains(entries[k].name)
            },
    decreases n + m,
{
    if n > 0 {
        law_dependencies_need_review(home, real_dirs, root, entries, n - 1, m);
        let r = home_dependencies_upto(home, real_dirs, n - 1);
        assert forall|i: int| 0 <= i < home_dependencies_upto(home, real_dirs, n).len() implies {
            let x = #[trigger] home_dependencies_upto(home, real_dirs, n)[i];
            &&& dependency_item(x)
            &&& exists|k: int| 0 <= k < 3 && x.path == joined(home, #[trigger] dependency_names()[k])
        } by {
            if i < r.len() {
                assert(home_dependencies_upto(home, real_dirs, n)[i] == r[i]);
            } else {
                let x = home_dependencies_upto(home, real_dirs, n)[i];
                assert(x.path == joined(home, dependency_names()[n - 1]));
            }
        }
    } else if m > 0 {
        law_dependencies_need_review(home, real_dirs, root, entries, n, m - 1);
        let r = proposals_upto(root, entries, m - 1);
        assert forall|i: int| 0 <= i < proposals_upto(root, entries, m).len() implies {
            let x = #[trigger] proposals_upto(root, entries, m)[i];
            &&& dependency_item(x)
            &&& exists|k: int|
                0 <= k < m && x.path == (#[trigger] entries[k]).path && dependency_names().contains(entries[k].name)
        } by {
            if i < r.len() {
                assert(proposals_upto(root, entries, m)[i] == r[i]);
                let x = r[i];
                let k = choose|k: int|
                    0 <= k < m - 1 && x.path == (#[trigger] entries[k]).path && dependency_names().contains(entries[k].name);
                assert(0 <= k < m && x.path == entries[k].path);
            } else {
                let x = proposals_upto(root, entries, m)[i];
                assert(x.path == entries[m - 1].path);
            }
        }
    }
}

/// The user-caches rule leaves out exactly the entries whose lowercase name holds
/// one of the browser and secret names, and the old-logs rule exactly the crash
/// reports' own directory.
pub proof fn law_builtin_exclusions(path: Seq<char>)
    ensures
        builtin_plugin_views()[0] matches PluginView::Simple(r) && r.id == "user-caches"@ && (simple_skips(r, path)
            <==> exists|k: int|
            0 <= k < browser_and_secret_names().len() && has_substring(
                lower_name(path),
                #[trigger] browser_and_secret_names()[k],
            )),
        builtin_plugin_views()[4] matches PluginView::Simple(r) && r.id == "old-logs"@ && (simple_skips(r, path)
            <==> lower_name(path) == "diagnosticreports"@),
{
    reveal_strlit("user-caches");
    reveal_strlit("old-logs");
    let r0 = builtin_plugin_views()[0]->Simple_0;
    assert(r0.id != "old-logs"@) by {
        assert(r0.id.len() != "old-logs"@.len());
    }
    assert(r0.exclude == browser_and_secret_names());
    let lower = lower_name(path);
    if simple_skips(r0, path) {
        let k = choose|k: int| 0 <= k < r0.exclude.len() && has_substring(lower, #[trigger] r0.exclude[k]);
        assert(has_substring(lower, browser_and_secret_names()[k]));
    }
    if exists|k: int|
        0 <= k < browser_and_secret_names().len() && has_substring(lower, #[trigger] browser_and_secret_names()[k]) {
        let k = choose|k: int|
            0 <= k < browser_and_secret_names().len() && has_substring(lower, #[trigger] browser_and_secret_names()[k]);
        assert(has_substring(lower, r0.exclude[k]));
    }
    let r4 = builtin_plugin_views()[4]->Simple_0;
    assert(r4.exclude.len() == 0);
}

/// An old extension install is low risk exactly when VS Code marked it obsolete,
/// it is proposed as a developer cache of the VS Code rule, its reason names the
/// version kept, and the install kept in its group is never the one proposed.
pub proof fn law_superseded_installs(es: Seq<ExtInfoView>, flags: Seq<(Seq<char>, bool)>, i: int)
    requires
        0 <= i < es.len(),
        superseded(es, i),
    ensures
        kept_of(es, i) != i,
        same_group(es[kept_of(es, i)], es[i]),
        ({
            let r = superseded_candidate(es[i], es[kept_of(es, i)].version_text, flags);
            &&& (r.risk == Risk::Low) == obsolete_path(flags, es[i].path)
            &&& r.plugin == "vscode-duplicates"@
            &&& r.category == Category::DeveloperCaches
            &&& r.path == es[i].path
            &&& has_substring(r.reason, "；保留 "@ + es[kept_of(es, i)].version_text)
        }),
{
    lemma_kept_exists(es, i);
    let k = kept_of(es, i);
    assert(0 <= k < es.len() && same_group(es[k], es[i]) && kept_at(es, k));
    let e = es[i];
    let kept = es[k].version_text;
    let r = superseded_candidate(e, kept, flags);
    let a = "VS Code 扩展 "@ + e.publisher + "."@ + e.name + " 旧版本 "@ + e.version_text;
    let t = "；保留 "@ + kept;
    let b = "（"@ + e.target + "）"@ + if obsolete_path(flags, e.path) {
        "，已标记 obsolete"@
    } else {
        "，请审查"@
    };
    assert(r.reason =~= a + t + b);
    assert((a + t + b).subrange(a.len() as int, (a.len() + t.len()) as int) =~= t);
}

/// A snapshot does not depend on the order in which a directory walk listed the
/// entries: two listings of the same entries, whose paths differ, put in path order
/// give the same snapshot.
pub proof fn law_snapshot_ignores_listing_order(
    root: Seq<char>,
    m: RootMeta,
    listed: Seq<WalkEntry>,
    relisted: Seq<WalkEntry>,
    s1: Seq<WalkEntry>,
    s2: Seq<WalkEntry>,
)
    requires
        relisted.to_multiset() == listed.to_multiset(),
        strictly_ranked(listed),
        s1.to_multiset() == listed.to_multiset(),
        s2.to_multiset() == relisted.to_multiset(),
        sorted_by_rank(s1),
        sorted_by_rank(s2),
    ensures
        snapshot_of(root, m, walk_views(s1)) == snapshot_of(root, m, walk_views(s2)),
{
    lemma_sorted_unique(s1, s2, listed);
}


/// Validating roots succeeds exactly when every root passes its own check.
pub proof fn law_roots_pass_each(
    home: Seq<char>,
    home_device: u64,
    roots: Seq<Seq<char>>,
    probes: Seq<RootProbeView>,
    n: int,
)
    requires
        0 <= n <= roots.len(),
        probes.len() == roots.len(),
    ensures
        (roots_upto(home, home_device, roots, probes, n) is Ok) <==> (forall|i: int|
            0 <= i < n ==> #[trigger] root_check(roots[i], home, home_device, probes[i]) is Ok),
        n == roots.len() ==> ((validation(
            Ok::<Seq<char>, Seq<char>>(home),
            Ok::<u64, Seq<char>>(home_device),
            roots,
            probes,
        ) is Ok) <==> (forall|i: int|
            0 <= i < roots.len() ==> #[trigger] root_check(roots[i], home, home_device, probes[i]) is Ok)),
    decreases n,
{
    if n > 0 {
        law_roots_pass_each(home, home_device, roots, probes, n - 1);
        if roots_upto(home, home_device, roots, probes, n) is Ok {
            assert forall|i: int| 0 <= i < n implies #[trigger] root_check(roots[i], home, home_device, probes[i]) is Ok by {
                if i < n - 1 {
                    assert(roots_upto(home, home_device, roots, probes, n - 1) is Ok);
                }
            }
        }
        if forall|i: int| 0 <= i < n ==> #[trigger] root_check(roots[i], home, home_device, probes[i]) is Ok {
            assert(root_check(roots[n - 1], home, home_device, probes[n - 1]) is Ok);
            assert forall|i: int| 0 <= i < n - 1 implies #[trigger] root_check(roots[i], home, home_device, probes[i]) is Ok by {
                assert(root_check(roots[i], home, home_device, probes[i]) is Ok);
            }
        }
    }
}

/// What probing a root that passed gives when nothing changed since: no symbolic
/// link, its own canonical path, the home directory's device.
pub open spec fn unchanged_probe(path: Seq<char>, home_device: u64) -> RootProbeView {
    RootProbeView {
        is_symlink: Ok(false),
        canonical: Ok(path),
        device: Ok(home_device),
    }
}

/// Every root that validation keeps passed the check of some requested root, with
/// itself as canonical path.
proof fn lemma_kept_roots_passed(
    home: Seq<char>,
    home_device: u64,
    roots: Seq<Seq<char>>,
    probes: Seq<RootProbeView>,
    n: int,
    x: Seq<char>,
)
    requires
        0 <= n <= roots.len(),
        probes.len() == roots.len(),
        roots_upto(home, home_device, roots, probes, n) is Ok,
        roots_upto(home, home_device, roots, probes, n)->Ok_0.contains(x),
    ensures
        exists|i: int| 0 <= i < n && #[trigger] root_check(roots[i], home, home_device, probes[i]) == Ok::<Seq<char>, Seq<char>>(x),
    decreases n,
{
    let v = roots_upto(home, home_device, roots, probes, n - 1)->Ok_0;
    let p = root_check(roots[n - 1], home, home_device, probes[n - 1])->Ok_0;
    if v.contains(x) {
        lemma_kept_roots_passed(home, home_device, roots, probes, n - 1, x);
        let i = choose|i: int| 0 <= i < n - 1 && #[trigger] root_check(roots[i], home, home_device, probes[i]) == Ok::<Seq<char>, Seq<char>>(x);
        assert(0 <= i < n);
    } else {
        let w = roots_upto(home, home_device, roots, probes, n)->Ok_0;
        if !v.contains(p) {
            assert(w == v.push(p));
            let j = choose|j: int| 0 <= j < w.len() && #[trigger] w[j] == x;
            if j < v.len() {
                assert(v[j] == x);
            }
        }
        assert(x == p);
        assert(root_check(roots[n - 1], home, home_device, probes[n - 1]) == Ok::<Seq<char>, Seq<char>>(x));
    }
}

/// Distinct roots that each pass their check as themselves are all kept, in order.
proof fn lemma_passing_roots_kept(
    home: Seq<char>,
    home_device: u64,
    w: Seq<Seq<char>>,
    n: int,
)
    requires
        0 <= n <= w.len(),
        w.no_duplicates(),
        forall|j: int|
            0 <= j < w.len() ==> #[trigger] root_check(w[j], home, home_device, unchanged_probe(w[j], home_device))
                == Ok::<Seq<char>, Seq<char>>(w[j]),
    ensures
        roots_upto(home, home_device, w, w.map_values(|p: Seq<char>| unchanged_probe(p, home_device)), n)
            == Ok::<Seq<Seq<char>>, Seq<char>>(w.take(n)),
    decreases n,
{
    let ps = w.map_values(|p: Seq<char>| unchanged_probe(p, home_device));
    if n > 0 {
        lemma_passing_roots_kept(home, home_device, w, n - 1);
        assert(ps[n - 1] == unchanged_probe(w[n - 1], home_device));
        assert(root_check(w[n - 1], home, home_device, ps[n - 1]) == Ok::<Seq<char>, Seq<char>>(w[n - 1]));
        assert(!w.take(n - 1).contains(w[n - 1])) by {
            if w.take(n - 1).contains(w[n - 1]) {
                let j = choose|j: int| 0 <= j < w.take(n - 1).len() && #[trigger] w.take(n - 1)[j] == w[n - 1];
                assert(w[j] == w[n - 1]);
            }
        }
        assert(w.take(n - 1).push(w[n - 1]) =~= w.take(n));
    } else {
        assert(w.take(0) =~= Seq::<Seq<char>>::empty());
    }
}

/// Validating the roots that a validation kept, in any order and without repeats,
/// when nothing changed on disk since, keeps exactly those roots: validation is
/// idempotent.
pub proof fn law_validation_idempotent(
    home: Seq<char>,
    home_device: u64,
    roots: Seq<Seq<char>>,
    probes: Seq<RootProbeView>,
    w: Seq<Seq<char>>,
)
    requires
        probes.len() == roots.len(),
        validation(Ok::<Seq<char>, Seq<char>>(home), Ok::<u64, Seq<char>>(home_device), roots, probes) is Ok,
        w.no_duplicates(),
        forall|j: int|
            0 <= j < w.len() ==> validation(
                Ok::<Seq<char>, Seq<char>>(home),
                Ok::<u64, Seq<char>>(home_device),
                roots,
                probes,
            )->Ok_0.contains(#[trigger] w[j]),
    ensures
        validation(
            Ok::<Seq<char>, Seq<char>>(home),
            Ok::<u64, Seq<char>>(home_device),
            w,
            w.map_values(|p: Seq<char>| unchanged_probe(p, home_device)),
        ) == Ok::<Seq<Seq<char>>, Seq<char>>(w),
{
    assert forall|j: int| 0 <= j < w.len() implies #[trigger] root_check(
        w[j],
        home,
        home_device,
        unchanged_probe(w[j], home_device),
    ) == Ok::<Seq<char>, Seq<char>>(w[j]) by {
        lemma_kept_roots_passed(home, home_device, roots, probes, roots.len() as int, w[j]);
        let i = choose|i: int|
            0 <= i < roots.len() && #[trigger] root_check(roots[i], home, home_device, probes[i])
                == Ok::<Seq<char>, Seq<char>>(w[j]);
        assert(root_check(roots[i], home, home_device, probes[i]) == Ok::<Seq<char>, Seq<char>>(w[j]));
    }
    lemma_passing_roots_kept(home, home_device, w, w.len() as int);
    assert(w.take(w.len() as int) =~= w);
}


/// What a scan holds after taking in the admitted candidates one by one, in order.
pub open spec fn scan_found(items: Seq<CandidateInternalView>) -> Seq<CandidateInternalView>
    decreases items.len(),
{
    if items.len() == 0 {
        Seq::<CandidateInternalView>::empty()
    } else {
        absorbed(scan_found(items.drop_last()), items.last())
    }
}

/// A path inside a path inside a third lies inside the third.
proof fn lemma_starts_with_transitive(a: Seq<char>, b: Seq<char>, c: Seq<char>)
    requires
        path_starts_with(a, b),
        path_starts_with(b, c),
    ensures
        path_starts_with(a, c),
{
    let ca = components(a);
    let cb = components(b);
    let cc = components(c);
    assert forall|k: int| 0 <= k < cc.len() implies ca[k] == cc[k] by {
        assert(cb.subrange(0, cc.len() as int)[k] == cc[k]);
        assert(ca.subrange(0, cb.len() as int)[k] == cb[k]);
    }
    assert(ca.subrange(0, cc.len() as int) =~= cc);
}

/// What is left apart from a path comes from the list.
proof fn lemma_apart_from(found: Seq<CandidateInternalView>, c: Seq<char>, j: int)
    requires
        0 <= j < apart(found, c).len(),
    ensures
        found.contains(apart(found, c)[j]),
    decreases found.len(),
{
    let rest = found.drop_last();
    let r = apart(rest, c);
    if j < r.len() {
        lemma_apart_from(rest, c, j);
        let k = choose|k: int| 0 <= k < rest.len() && rest[k] == r[j];
        assert(found[k] == rest[k]);
    } else {
        assert(apart(found, c)[j] == found[found.len() - 1]);
    }
}

/// Some candidate of `s` contains the path `x`.
pub open spec fn covered(x: Seq<char>, s: Seq<CandidateInternalView>) -> bool {
    exists|j: int| 0 <= j < s.len() && path_starts_with(x, #[trigger] s[j].path)
}

proof fn lemma_cover_step(f: Seq<CandidateInternalView>, c: CandidateInternalView, x: Seq<char>)
    requires
        covered(x, f),
    ensures
        covered(x, absorbed(f, c)),
{
    let a = absorbed(f, c);
    law_merging_covers(f, c);
    let j0 = choose|j: int| 0 <= j < f.len() && path_starts_with(x, #[trigger] f[j].path);
    if a.contains(f[j0]) {
        let k = choose|k: int| 0 <= k < a.len() && a[k] == f[j0];
        assert(path_starts_with(x, a[k].path));
    } else {
        lemma_starts_with_transitive(x, f[j0].path, c.path);
        let k = choose|k: int| 0 <= k < a.len() && a[k] == c;
        assert(path_starts_with(x, a[k].path));
    }
}

proof fn lemma_cover_new(f: Seq<CandidateInternalView>, c: CandidateInternalView)
    ensures
        covered(c.path, absorbed(f, c)),
{
    let a = absorbed(f, c);
    law_merging_covers(f, c);
    if a.contains(c) {
        let k = choose|k: int| 0 <= k < a.len() && a[k] == c;
        lemma_starts_with_itself(c.path);
        assert(path_starts_with(c.path, a[k].path));
    } else {
        let k = choose|k: int| 0 <= k < a.len() && path_starts_with(c.path, #[trigger] a[k].path);
        assert(path_starts_with(c.path, a[k].path));
    }
}

proof fn lemma_from_step(f: Seq<CandidateInternalView>, c: CandidateInternalView, j: int)
    requires
        0 <= j < absorbed(f, c).len(),
    ensures
        f.contains(absorbed(f, c)[j]) || absorbed(f, c)[j] == c,
{
    let a = absorbed(f, c);
    if overlaps_none(f, c.path) {
        if j < f.len() {
            assert(a[j] == f[j]);
        }
    } else if overlaps_only_inside(f, c.path) {
        let ap = apart(f, c.path);
        if j < ap.len() {
            assert(a[j] == ap[j]);
            lemma_apart_from(f, c.path, j);
        }
    } else {
        assert(a[j] == f[j]);
    }
}

proof fn lemma_scan_cover(items: Seq<CandidateInternalView>, i: int)
    requires
        0 <= i < items.len(),
    ensures
        covered(items[i].path, scan_found(items)),
    decreases items.len(),
{
    let prior = items.drop_last();
    let c = items.last();
    let f = scan_found(prior);
    if i < items.len() - 1 {
        lemma_scan_cover(prior, i);
        assert(prior[i] == items[i]);
        lemma_cover_step(f, c, items[i].path);
    } else {
        lemma_cover_new(f, c);
    }
}

proof fn lemma_scan_from(items: Seq<CandidateInternalView>, j: int)
    requires
        0 <= j < scan_found(items).len(),
    ensures
        items.contains(scan_found(items)[j]),
    decreases items.len(),
{
    let prior = items.drop_last();
    let c = items.last();
    let f = scan_found(prior);
    let x = scan_found(items)[j];
    lemma_from_step(f, c, j);
    if f.contains(x) {
        let m = choose|m: int| 0 <= m < f.len() && f[m] == x;
        lemma_scan_from(prior, m);
        let k = choose|k: int| 0 <= k < prior.len() && prior[k] == x;
        assert(items[k] == prior[k]);
    } else {
        assert(items[items.len() - 1] == x);
    }
}

/// A scan loses nothing and makes nothing up: every admitted candidate ends up
/// reported itself or under a reported candidate that contains it, and every
/// reported candidate is one of those admitted.
pub proof fn law_scan_covers_admitted(items: Seq<CandidateInternalView>)
    ensures
        forall|i: int| 0 <= i < items.len() ==> covered((#[trigger] items[i]).path, scan_found(items)),
        forall|j: int| 0 <= j < scan_found(items).len() ==> items.contains(#[trigger] scan_found(items)[j]),
{
    assert forall|i: int| 0 <= i < items.len() implies covered((#[trigger] items[i]).path, scan_found(items)) by {
        lemma_scan_cover(items, i);
    }
    assert forall|j: int| 0 <= j < scan_found(items).len() implies items.contains(#[trigger] scan_found(items)[j]) by {
        lemma_scan_from(items, j);
    }
}


/// How many of the first `n` installs belong to the group of the install at `g`.
pub open spec fn group_count(es: Seq<ExtInfoView>, g: int, n: int) -> nat
    decreases n,
{
    if n <= 0 {
        0
    } else {
        group_count(es, g, n - 1) + if same_group(es[n - 1], es[g]) { 1nat } else { 0nat }
    }
}

/// How many of the first `n` installs of the group of the install at `g` the rule
/// proposes.
pub open spec fn proposed_count(es: Seq<ExtInfoView>, g: int, n: int) -> nat
    decreases n,
{
    if n <= 0 {
        0
    } else {
        proposed_count(es, g, n - 1) + if same_group(es[n - 1], es[g]) && superseded(es, n - 1) {
            1nat
        } else {
            0nat
        }
    }
}

proof fn lemma_rank_flip(a: ExtInfoView, b: ExtInfoView)
    ensures
        ext_rank(a, b) == ext_rank(b, a).flip(),
{
    lemma_version_flip(a.version, b.version);
}

/// Two installs kept in one group are the same install.
proof fn lemma_kept_unique(es: Seq<ExtInfoView>, k1: int, k2: int)
    requires
        0 <= k1 < es.len(),
        0 <= k2 < es.len(),
        same_group(es[k1], es[k2]),
        kept_at(es, k1),
        kept_at(es, k2),
    ensures
        k1 == k2,
{
    lemma_rank_flip(es[k1], es[k2]);
    if k1 < k2 {
        assert(same_group(es[k1], es[k2]));
        assert(ext_rank(es[k1], es[k2]) == Order::Less);
        assert(same_group(es[k2], es[k1]));
        assert(ext_rank(es[k2], es[k1]) != Order::Greater);
    } else if k2 < k1 {
        assert(same_group(es[k2], es[k1]));
        assert(ext_rank(es[k2], es[k1]) == Order::Less);
        assert(ext_rank(es[k1], es[k2]) != Order::Greater);
    }
}

/// With one kept install `k` in the group of `g`, the proposals among the first `n`
/// installs of the group are all of them but `k` when the group has company.
proof fn lemma_proposed_count(es: Seq<ExtInfoView>, g: int, k: int, n: int)
    requires
        0 <= g < es.len(),
        0 <= k < es.len(),
        0 <= n <= es.len(),
        same_group(es[k], es[g]),
        kept_at(es, k),
        group_count(es, g, es.len() as int) >= 2,
        forall|j: int| 0 <= j < es.len() && same_group(es[j], es[g]) ==> #[trigger] has_company(es, j),
    ensures
        proposed_count(es, g, n) + (if k < n { 1int } else { 0int }) == group_count(es, g, n),
    decreases n,
{
    if n > 0 {
        lemma_proposed_count(es, g, k, n - 1);
        let j = n - 1;
        if same_group(es[j], es[g]) {
            assert(has_company(es, j));
            if kept_at(es, j) {
                lemma_kept_unique(es, j, k);
            }
        }
    }
}

/// A member without company is the only one of its group.
proof fn lemma_alone(es: Seq<ExtInfoView>, g: int, j: int, n: int)
    requires
        0 <= g < es.len(),
        0 <= j < es.len(),
        0 <= n <= es.len(),
        same_group(es[j], es[g]),
        !has_company(es, j),
    ensures
        group_count(es, g, n) == if j < n { 1nat } else { 0nat },
    decreases n,
{
    if n > 0 {
        lemma_alone(es, g, j, n - 1);
        let m = n - 1;
        if m != j && same_group(es[m], es[g]) {
            assert(same_group(es[m], es[j]));
            assert(has_company(es, j));
        }
    }
}

/// The VS Code rule proposes all but one install of every extension installed more
/// than once (per publisher, name and platform), and none of one installed once.
pub proof fn law_one_install_kept_per_group(es: Seq<ExtInfoView>, g: int)
    requires
        0 <= g < es.len(),
    ensures
        group_count(es, g, es.len() as int) >= 2 ==> proposed_count(es, g, es.len() as int) == group_count(
            es,
            g,
            es.len() as int,
        ) - 1,
        group_count(es, g, es.len() as int) == 1 ==> proposed_count(es, g, es.len() as int) == 0,
{
    let n = es.len() as int;
    lemma_kept_exists(es, g);
    let k = choose|k: int| 0 <= k < es.len() && same_group(es[k], es[g]) && #[trigger] kept_at(es, k);
    if group_count(es, g, n) >= 2 {
        assert forall|j: int| 0 <= j < es.len() && same_group(es[j], es[g]) implies #[trigger] has_company(es, j) by {
            if !has_company(es, j) {
                lemma_alone(es, g, j, n);
            }
        }
        lemma_proposed_count(es, g, k, n);
    } else if group_count(es, g, n) == 1 {
        assert(same_group(es[g], es[g]));
        lemma_no_proposal_alone(es, g, n);
    }
}

/// In a group of one, nothing is proposed.
proof fn lemma_no_proposal_alone(es: Seq<ExtInfoView>, g: int, n: int)
    requires
        0 <= g < es.len(),
        0 <= n <= es.len(),
        group_count(es, g, es.len() as int) == 1,
    ensures
        proposed_count(es, g, n) == 0,
    decreases n,
{
    if n > 0 {
        lemma_no_proposal_alone(es, g, n - 1);
        let j = n - 1;
        if same_group(es[j], es[g]) && superseded(es, j) {
            let o = choose|o: int| 0 <= o < es.len() && o != j && #[trigger] same_group(es[o], es[j]);
            assert(same_group(es[o], es[g]));
            lemma_two_members(es, g, j, o, es.len() as int);
        }
    }
}

/// Two members of a group make it count at least two.
proof fn lemma_two_members(es: Seq<ExtInfoView>, g: int, a: int, b: int, n: int)
    requires
        0 <= a < b < n <= es.len() || 0 <= b < a < n <= es.len(),
        0 <= g < es.len(),
        same_group(es[a], es[g]),
        same_group(es[b], es[g]),
    ensures
        group_count(es, g, n) >= 2,
    decreases n,
{
    let m = n - 1;
    if a < m && b < m {
        lemma_two_members(es, g, a, b, m);
    } else {
        let other = if a == m { b } else { a };
        lemma_one_member(es, g, other, m);
    }
}

/// One member of a group makes it count at least one.
proof fn lemma_one_member(es: Seq<ExtInfoView>, g: int, a: int, n: int)
    requires
        0 <= a < n <= es.len(),
        0 <= g < es.len(),
        same_group(es[a], es[g]),
    ensures
        group_count(es, g, n) >= 1,
    decreases n,
{
    if a < n - 1 {
        lemma_one_member(es, g, a, n - 1);
    }
}


/// The candidates after taking in `items`, one by one, on top of `found`.
pub open spec fn absorb_all(found: Seq<CandidateInternalView>, items: Seq<CandidateInternalView>) -> Seq<
    CandidateInternalView,
>
    decreases items.len(),
{
    if items.len() == 0 {
        found
    } else {
        absorbed(absorb_all(found, items.drop_last()), items.last())
    }
}

/// A scan after the rules `runs` ran, in order, each given by its id and either the
/// candidates admitted from its proposals, in order, or the error it failed with:
/// the candidates kept, and the warnings. This is what `ScanState::absorb` and
/// `ScanState::record_failure` do, step by step.
pub open spec fn scan_after(runs: Seq<(Seq<char>, Result<Seq<CandidateInternalView>, Seq<char>>)>) -> (
    Seq<CandidateInternalView>,
    Seq<Seq<char>>,
)
    decreases runs.len(),
{
    if runs.len() == 0 {
        (Seq::<CandidateInternalView>::empty(), Seq::<Seq<char>>::empty())
    } else {
        let (found, warnings) = scan_after(runs.drop_last());
        let (id, outcome) = runs.last();
        match outcome {
            Ok(items) => (absorb_all(found, items), warnings),
            Err(e) => (found, warnings.push(id + ": "@ + e)),
        }
    }
}

/// The errors of the rules that failed, in order, each after its rule's id.
pub open spec fn rule_errors(runs: Seq<(Seq<char>, Result<Seq<CandidateInternalView>, Seq<char>>)>) -> Seq<Seq<char>>
    decreases runs.len(),
{
    if runs.len() == 0 {
        Seq::<Seq<char>>::empty()
    } else {
        let r = rule_errors(runs.drop_last());
        match runs.last().1 {
            Ok(_) => r,
            Err(e) => r.push(runs.last().0 + ": "@ + e),
        }
    }
}

/// The candidates admitted from the rules that succeeded, in order.
pub open spec fn admitted_items(runs: Seq<(Seq<char>, Result<Seq<CandidateInternalView>, Seq<char>>)>) -> Seq<
    CandidateInternalView,
>
    decreases runs.len(),
{
    if runs.len() == 0 {
        Seq::<CandidateInternalView>::empty()
    } else {
        let r = admitted_items(runs.drop_last());
        match runs.last().1 {
            Ok(items) => r + items,
            Err(_) => r,
        }
    }
}

proof fn lemma_absorb_all(xs: Seq<CandidateInternalView>, ys: Seq<CandidateInternalView>)
    ensures
        absorb_all(scan_found(xs), ys) == scan_found(xs + ys),
    decreases ys.len(),
{
    if ys.len() == 0 {
        assert(xs + ys =~= xs);
    } else {
        lemma_absorb_all(xs, ys.drop_last());
        assert((xs + ys).drop_last() =~= xs + ys.drop_last());
        assert((xs + ys).last() == ys.last());
    }
}

/// A scan runs its rules in order: a rule that fails leaves a warning `id: error`,
/// in the order of the rules, and nothing else; the candidates kept are those that
/// taking in every admitted candidate of the rules that succeeded, in order, leaves.
pub proof fn law_scan_runs_rules_in_order(runs: Seq<(Seq<char>, Result<Seq<CandidateInternalView>, Seq<char>>)>)
    ensures
        scan_after(runs).1 == rule_errors(runs),
        scan_after(runs).0 == scan_found(admitted_items(runs)),
    decreases runs.len(),
{
    if runs.len() > 0 {
        law_scan_runs_rules_in_order(runs.drop_last());
        match runs.last().1 {
            Ok(items) => {
                lemma_absorb_all(admitted_items(runs.drop_last()), items);
            },
            Err(_) => {},
        }
    }
}


/// An old extension install is low risk exactly when the `.obsolete` entries hold
/// its own directory name with the value `true`; an entry for another name, or an
/// entry whose value is `false`, changes nothing.
pub proof fn law_obsolete_marks_only_its_own_install(
    e: ExtInfoView,
    kept: Seq<char>,
    flags: Seq<(Seq<char>, bool)>,
    extra: (Seq<char>, bool),
)
    ensures
        (superseded_candidate(e, kept, flags).risk == Risk::Low) <==> (file_name(e.path) matches Some(n)
            && flags.contains((n, true))),
        (file_name(e.path) matches Some(n) && (extra.0 != n || !extra.1)) ==> superseded_candidate(
            e,
            kept,
            flags.push(extra),
        ).risk == superseded_candidate(e, kept, flags).risk,
        file_name(e.path) is None ==> superseded_candidate(e, kept, flags.push(extra)).risk == Risk::Review,
{
    if let Some(n) = file_name(e.path) {
        let g = flags.push(extra);
        if flags.contains((n, true)) {
            let j = choose|j: int| 0 <= j < flags.len() && flags[j] == (n, true);
            assert(g[j] == (n, true));
        }
        if extra.0 != n || !extra.1 {
            if exists|j: int| 0 <= j < g.len() && #[trigger] g[j] == (n, true) {
                let j = choose|j: int| 0 <= j < g.len() && #[trigger] g[j] == (n, true);
                assert(j < flags.len());
                assert(flags[j] == (n, true));
            }
        }
    }
}

/// A latest modification time that could be read and is no later than `cutoff`.
pub open spec fn unchanged_since(newest: Result<i64, Seq<char>>, cutoff: int) -> bool {
    match newest {
        Ok(m) => m <= cutoff,
        Err(_) => false,
    }
}

/// The downloads rule proposes exactly the regular files with an archive's
/// extension whose latest modification time could be read and lies at least 30
/// days (30 * 86400 seconds) before now, each once and in order, and nothing else.
pub proof fn law_downloads_need_thirty_days(now: i64, ps: Seq<DownloadProbeView>, n: int)
    requires
        0 <= n <= ps.len(),
    ensures
        forall|i: int|
            0 <= i < n && ps[i].is_file && is_archive_name(ps[i].path) ==> (#[trigger] download_proposals(
                now,
                ps,
                i + 1,
            ).len() == download_proposals(now, ps, i).len() + 1 <==> unchanged_since(ps[i].newest, now - 30 * 86400)),
        forall|i: int|
            0 <= i < n && !(ps[i].is_file && is_archive_name(ps[i].path)) ==> #[trigger] download_proposals(
                now,
                ps,
                i + 1,
            ) == download_proposals(now, ps, i),
        forall|k: int|
            0 <= k < download_proposals(now, ps, n).len() ==> exists|i: int|
                0 <= i < n && (#[trigger] download_proposals(now, ps, n)[k]).path == ps[i].path && ps[i].is_file
                    && unchanged_since(ps[i].newest, now - 30 * 86400),
    decreases n,
{
    if n > 0 {
        law_downloads_need_thirty_days(now, ps, n - 1);
        let r = download_proposals(now, ps, n - 1);
        assert forall|k: int| 0 <= k < download_proposals(now, ps, n).len() implies exists|i: int|
            0 <= i < n && (#[trigger] download_proposals(now, ps, n)[k]).path == ps[i].path && ps[i].is_file
                && unchanged_since(ps[i].newest, now - 30 * 86400) by {
            if k < r.len() {
                assert(download_proposals(now, ps, n)[k] == r[k]);
                let i = choose|i: int|
                    0 <= i < n - 1 && (#[trigger] download_proposals(now, ps, n - 1)[k]).path == ps[i].path
                        && ps[i].is_file && unchanged_since(ps[i].newest, now - 30 * 86400);
                assert(0 <= i < n);
            } else {
                assert(download_proposals(now, ps, n)[k].path == ps[n - 1].path);
            }
        }
    }
}

/// The categories in the order in which they are declared and reported.
pub open spec fn declared_categories() -> Seq<Category> {
    seq![
        Category::ApplicationCaches,
        Category::DeveloperCaches,
        Category::ProjectDependencies,
        Category::Logs,
        Category::CrashReports,
        Category::DownloadLeftovers,
        Category::Other,
    ]
}

/// Among candidates of equal risk, a report lists the categories in their declared
/// order (application caches, developer caches, project dependencies, logs, crash
/// reports, download leftovers, other), whatever their sizes and paths: the
/// category's listing position is its place in that order.
pub proof fn law_categories_in_declared_order(a: CandidateInternalView, b: CandidateInternalView, i: int, j: int)
    requires
        0 <= i < j < 7,
        a.public.risk == b.public.risk,
        a.public.category == declared_categories()[i],
        b.public.category == declared_categories()[j],
    ensures
        report_rank(a, b) == Order::Less,
        report_rank(b, a) == Order::Greater,
        forall|k: int| 0 <= k < 7 ==> (#[trigger] declared_categories()[k]).rank() == k,
{
}

/// The bytes of the regular files among the entries, whatever their depth.
pub open spec fn file_bytes(s: Seq<WalkEntryView>) -> nat
    decreases s.len(),
{
    if s.len() == 0 {
        0
    } else {
        file_bytes(s.drop_last()) + match s.last().meta {
            Ok(m) => if m.is_file { m.len as nat } else { 0nat },
            Err(_) => 0nat,
        }
    }
}

proof fn lemma_walk_size(root: Seq<char>, s: Seq<WalkEntryView>, n: int)
    requires
        0 <= n <= s.len(),
    ensures
        walk_upto(root, s, n) matches Ok((b, z)) ==> z == file_bytes(s.take(n)),
    decreases n,
{
    if n > 0 {
        lemma_walk_size(root, s, n - 1);
        assert(s.take(n).drop_last() =~= s.take(n - 1));
        assert(s.take(n).last() == s[n - 1]);
        if walk_upto(root, s, n) is Ok {
            assert(walk_upto(root, s, n - 1) is Ok);
        }
    }
}

/// A snapshot's size is the sum of the lengths of every regular file listed below
/// the root, at any depth (at most `u64::MAX`); directories and links add nothing.
pub proof fn law_snapshot_counts_every_file(root: Seq<char>, m: RootMeta, s: Seq<WalkEntryView>)
    ensures
        snapshot_of(root, m, s) matches Ok(v) ==> v.size == if file_bytes(s) > u64::MAX {
            u64::MAX as nat
        } else {
            file_bytes(s)
        },
{
    lemma_walk_size(root, s, s.len() as int);
    assert(s.take(s.len() as int) =~= s);
}

/// The dependency walk reads every directory it reaches uncancelled down to seven
/// levels below a project root, and none deeper: entries found eight levels down
/// are still looked at, nothing below them.
pub proof fn law_walk_reads_seven_levels()
    ensures
        forall|d: nat, cancelled: bool| #[trigger] read_at(d, cancelled) <==> (!cancelled && d <= 7),
{
}

} // verus!

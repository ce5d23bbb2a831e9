//! Which paths may be offered, how candidates found by the plugins are merged into
//! one list, and the checks made again right before a candidate is moved.
use vstd::prelude::*;
use crate::digest::{candidate_id, candidate_id_of};
use crate::model::{
    Candidate, CandidateInternal, CandidateInternalView, CandidateView, DiskStats, ScanEvent,
    ScanReport, ScanSession, Snapshot, SnapshotView,
};
use crate::plugins::{RawCandidate, RawCandidateView};
use crate::sort::{sort_ranked, sorted_by_rank, Ranked};
use crate::text::{lemma_encode_injective, lemma_lex_equal, lemma_lex_flip, lemma_lex_transitive, str_order, str_rank, Order};
use vstd::utf8::encode_utf8;
use crate::paths::{
    components, components_after, components_of, components_start_with, path_starts_with, paths_equal,
    same_path, starts_with, views,
};
use crate::text::{chars_of, chars_equal};

verus! {

/// Names of directories below the home directory that are never offered.
pub open spec fn sensitive_names() -> Seq<Seq<char>> {
    seq![
        ".ssh"@,
        ".gnupg"@,
        "Keychains"@,
        "credentials"@,
        "secrets"@,
        "CloudStorage"@,
        "Mobile Documents"@,
        "Application Support"@,
        "Containers"@,
        "Group Containers"@,
    ]
}

/// A path is sensitive when it does not lie in `home`, or when one of its
/// components below `home` is a sensitive name.
pub open spec fn sensitive(path: Seq<char>, home: Seq<char>) -> bool {
    if path_starts_with(path, home) {
        let rest = components_after(path, home);
        exists|i: int| 0 <= i < rest.len() && sensitive_names().contains(#[trigger] rest[i])
    } else {
        true
    }
}

/// A candidate may be offered when its canonical path lies in the canonical home
/// directory and is not sensitive.
pub open spec fn offerable(path: Seq<char>, home: Seq<char>) -> bool {
    path_starts_with(path, home) && !sensitive(path, home)
}

/// The characters of each of the given names.
pub fn name_list(names: &[&str]) -> (res: Vec<Vec<char>>)
    ensures
        res.len() == names.len(),
        forall|i: int| 0 <= i < names.len() ==> #[trigger] res@[i]@ == names@[i]@,
{
    let mut res: Vec<Vec<char>> = Vec::new();
    let mut i: usize = 0;
    while i < names.len()
        invariant
            i <= names.len(),
            res.len() == i,
            forall|j: int| 0 <= j < i ==> #[trigger] res@[j]@ == names@[j]@,
        decreases names.len() - i,
    {
        res.push(chars_of(names[i]));
        i = i + 1;
    }
    res
}

/// Whether one of `names` is `c`.
pub fn names_contain(names: &Vec<Vec<char>>, c: &Vec<char>) -> (res: bool)
    ensures
        res == views(names@).contains(c@),
{
    let mut i: usize = 0;
    while i < names.len()
        invariant
            i <= names.len(),
            forall|j: int| 0 <= j < i ==> names@[j]@ != c@,
        decreases names.len() - i,
    {
        if chars_equal(names[i].as_slice(), c.as_slice()) {
            assert(views(names@)[i as int] == c@);
            return true;
        }
        i = i + 1;
    }
    assert(!views(names@).contains(c@)) by {
        if views(names@).contains(c@) {
            let j = choose|j: int| 0 <= j < views(names@).len() && views(names@)[j] == c@;
            assert(names@[j]@ == c@);
        }
    }
    false
}

/// The sensitive names, as characters.
pub fn sensitive_list() -> (res: Vec<Vec<char>>)
    ensures
        views(res@) == sensitive_names(),
{
    let names = [
        ".ssh",
        ".gnupg",
        "Keychains",
        "credentials",
        "secrets",
        "CloudStorage",
        "Mobile Documents",
        "Application Support",
        "Containers",
        "Group Containers",
    ];
    let res = name_list(&names);
    assert(views(res@) =~= sensitive_names());
    res
}

/// Whether some component of `comps` from index `from` on is one of `names`.
pub fn any_component_in(comps: &Vec<Vec<char>>, from: usize, names: &Vec<Vec<char>>) -> (res: bool)
    requires
        from <= comps.len(),
    ensures
        res == (exists|i: int|
            0 <= i < views(comps@).skip(from as int).len() && views(names@).contains(
                #[trigger] views(comps@).skip(from as int)[i],
            )),
{
    let ghost rest = views(comps@).skip(from as int);
    let mut k: usize = from;
    while k < comps.len()
        invariant
            from <= k <= comps.len(),
            rest == views(comps@).skip(from as int),
            forall|i: int| 0 <= i < k - from ==> !views(names@).contains(#[trigger] rest[i]),
        decreases comps.len() - k,
    {
        if names_contain(names, &comps[k]) {
            assert(rest[k - from] == comps@[k as int]@);
            return true;
        }
        assert(rest[k - from] == comps@[k as int]@);
        k = k + 1;
    }
    false
}

/// Whether a path is sensitive relative to the home directory: it lies outside
/// `home`, or one of its components below `home` is a sensitive name.
pub fn is_sensitive(path: &str, home: &str) -> (res: bool)
    ensures
        res == sensitive(path@, home@),
{
    let p = components_of(path);
    let h = components_of(home);
    if !components_start_with(&p, &h) {
        return true;
    }
    let names = sensitive_list();
    assert(views(h@).len() == h.len());
    assert(views(p@).skip(h.len() as int) == components_after(path@, home@));
    any_component_in(&p, h.len(), &names)
}

/// Whether a candidate's canonical path may be offered relative to the canonical home.
pub fn is_offerable(path: &str, home: &str) -> (res: bool)
    ensures
        res == offerable(path@, home@),
{
    starts_with(path, home) && !is_sensitive(path, home)
}

/// The first checks of a candidate found by a plugin: it is no symbolic link, its
/// path and the home directory could be made canonical, and the canonical path may
/// be offered. Gives the canonical path to take a snapshot of.
pub fn admit_candidate_path(
    is_symlink: bool,
    canonical_path: Option<String>,
    canonical_home: Option<String>,
) -> (res: Option<String>)
    ensures
        match res {
            Some(p) => {
                &&& !is_symlink
                &&& canonical_path == Some(p)
                &&& canonical_home is Some
                &&& offerable(p@, canonical_home->0@)
            },
            None => is_symlink || canonical_path is None || canonical_home is None || !offerable(
                canonical_path->0@,
                canonical_home->0@,
            ),
        },
{
    if is_symlink {
        return None;
    }
    match (canonical_path, canonical_home) {
        (Some(p), Some(h)) => {
            if is_offerable(p.as_str(), h.as_str()) {
                Some(p)
            } else {
                None
            }
        },
        _ => None,
    }
}

/// The message when a candidate's location no longer passes.
pub open spec fn location_refused() -> Seq<char> {
    "路径越界、敏感或为符号链接"@
}

/// The message when the root of a candidate is no longer the same file.
pub open spec fn identity_changed() -> Seq<char> {
    "文件身份在扫描后发生变化"@
}

/// The message when something below a candidate changed.
pub open spec fn content_changed() -> Seq<char> {
    "内容在扫描后发生变化"@
}

/// The message when a candidate and the trash are on different file systems.
pub open spec fn other_file_system() -> Seq<char> {
    "候选与废纸篓不在同一文件系统"@
}

/// The outcome of checking a candidate's location again, given the canonical home
/// directory, the candidate's canonical path (or why either could not be had) and
/// whether the candidate's path is now a symbolic link.
pub open spec fn location_outcome(
    candidate: CandidateInternalView,
    canonical_home: Result<Seq<char>, Seq<char>>,
    canonical_path: Result<Seq<char>, Seq<char>>,
    is_symlink: bool,
) -> Result<(), Seq<char>> {
    match canonical_home {
        Err(e) => Err(e),
        Ok(home) => match canonical_path {
            Err(e) => Err(e),
            Ok(path) => {
                if is_symlink || !same_path(path, candidate.path) || !path_starts_with(path, home)
                    || sensitive(path, home) {
                    Err(location_refused())
                } else {
                    Ok(())
                }
            },
        },
    }
}

/// The outcome of comparing a fresh snapshot of a candidate (or why none could be
/// taken) with the one taken during the scan, and its device with the trash's.
pub open spec fn contents_outcome(
    candidate: CandidateInternalView,
    current: Result<SnapshotView, Seq<char>>,
    trash_device: Result<u64, Seq<char>>,
) -> Result<(), Seq<char>> {
    match current {
        Err(e) => Err(e),
        Ok(now) => {
            let then = candidate.snapshot;
            if now.device != then.device || now.inode != then.inode || now.mode != then.mode {
                Err(identity_changed())
            } else if now.size != then.size || now.digest != then.digest {
                Err(content_changed())
            } else {
                match trash_device {
                    Err(e) => Err(e),
                    Ok(d) => if now.device != d {
                        Err(other_file_system())
                    } else {
                        Ok(())
                    },
                }
            }
        },
    }
}

/// The views of a result whose both sides are strings.
pub open spec fn string_result(r: Result<String, String>) -> Result<Seq<char>, Seq<char>> {
    match r {
        Ok(s) => Ok(s@),
        Err(e) => Err(e@),
    }
}

/// The view of a result whose error is a string.
pub open spec fn unit_result(r: Result<(), String>) -> Result<(), Seq<char>> {
    match r {
        Ok(()) => Ok(()),
        Err(e) => Err(e@),
    }
}

/// Checks again, right before a move, that a candidate is where it was found: its
/// path is still canonical, no symbolic link, inside the home directory and not
/// sensitive. An error in making a path canonical is passed on.
pub fn revalidate_location(
    candidate: &CandidateInternal,
    canonical_home: Result<String, String>,
    canonical_path: Result<String, String>,
    is_symlink: bool,
) -> (res: Result<(), String>)
    ensures
        unit_result(res) == location_outcome(
            candidate@,
            string_result(canonical_home),
            string_result(canonical_path),
            is_symlink,
        ),
{
    let home = match canonical_home {
        Ok(h) => h,
        Err(e) => return Err(e),
    };
    let path = match canonical_path {
        Ok(p) => p,
        Err(e) => return Err(e),
    };
    if is_symlink || !paths_equal(path.as_str(), candidate.path.as_str()) || !starts_with(
        path.as_str(),
        home.as_str(),
    ) || is_sensitive(path.as_str(), home.as_str()) {
        return Err("路径越界、敏感或为符号链接".to_string());
    }
    Ok(())
}

/// The view of a snapshot result.
pub open spec fn snapshot_result(r: Result<Snapshot, String>) -> Result<SnapshotView, Seq<char>> {
    match r {
        Ok(s) => Ok(s@),
        Err(e) => Err(e@),
    }
}

/// The view of a device result.
pub open spec fn device_result(r: Result<u64, String>) -> Result<u64, Seq<char>> {
    match r {
        Ok(d) => Ok(d),
        Err(e) => Err(e@),
    }
}

/// Checks again, right before a move, that nothing below a candidate changed since
/// the scan and that it lies on the trash's file system. An error in taking the
/// fresh snapshot or reading the trash's device is passed on.
pub fn revalidate_contents(
    candidate: &CandidateInternal,
    current: Result<Snapshot, String>,
    trash_device: Result<u64, String>,
) -> (res: Result<(), String>)
    ensures
        unit_result(res) == contents_outcome(
            candidate@,
            snapshot_result(current),
            device_result(trash_device),
        ),
{
    let now = match current {
        Ok(s) => s,
        Err(e) => return Err(e),
    };
    let then = &candidate.snapshot;
    if now.device != then.device || now.inode != then.inode || now.mode != then.mode {
        return Err("文件身份在扫描后发生变化".to_string());
    }
    if now.size != then.size || now.digest != then.digest {
        return Err("内容在扫描后发生变化".to_string());
    }
    let device = match trash_device {
        Ok(d) => d,
        Err(e) => return Err(e),
    };
    if now.device != device {
        return Err("候选与废纸篓不在同一文件系统".to_string());
    }
    Ok(())
}

/// The outcome of all the checks right before a move: first where the candidate
/// is, then what it holds and where it lies.
pub open spec fn revalidation_outcome(
    candidate: CandidateInternalView,
    canonical_home: Result<Seq<char>, Seq<char>>,
    canonical_path: Result<Seq<char>, Seq<char>>,
    is_symlink: bool,
    current: Result<SnapshotView, Seq<char>>,
    trash_device: Result<u64, Seq<char>>,
) -> Result<(), Seq<char>> {
    match location_outcome(candidate, canonical_home, canonical_path, is_symlink) {
        Err(e) => Err(e),
        Ok(()) => contents_outcome(candidate, current, trash_device),
    }
}

/// Checks a candidate again right before it is moved: where it is, then what it
/// holds. It passes exactly when both checks pass; the first error is returned.
pub fn revalidate(
    candidate: &CandidateInternal,
    canonical_home: Result<String, String>,
    canonical_path: Result<String, String>,
    is_symlink: bool,
    current: Result<Snapshot, String>,
    trash_device: Result<u64, String>,
) -> (res: Result<(), String>)
    ensures
        unit_result(res) == revalidation_outcome(
            candidate@,
            string_result(canonical_home),
            string_result(canonical_path),
            is_symlink,
            snapshot_result(current),
            device_result(trash_device),
        ),
{
    revalidate_location(candidate, canonical_home, canonical_path, is_symlink)?;
    revalidate_contents(candidate, current, trash_device)
}

/// What a finished candidate holds, given the proposal, its canonical path, the
/// snapshot taken of it and its modification time.
pub open spec fn built_candidate(
    raw: RawCandidateView,
    path: Seq<char>,
    snapshot: SnapshotView,
    modified_at: i64,
) -> CandidateInternalView {
    CandidateInternalView {
        public: CandidateView {
            id: candidate_id_of(raw.plugin, path),
            plugin: raw.plugin,
            category: raw.category,
            risk: raw.risk,
            path,
            size_bytes: snapshot.size,
            modified_at,
            reason: raw.reason,
            action: "move_to_trash"@,
        },
        snapshot,
        path,
    }
}

/// Turns an admitted proposal into a candidate. There is none when no snapshot
/// could be taken, when nothing below the path takes space, or when its
/// modification time could not be read.
pub fn make_candidate(
    raw: RawCandidate,
    path: String,
    snapshot: Option<Snapshot>,
    modified_at: Option<i64>,
) -> (res: Option<CandidateInternal>)
    ensures
        match res {
            Some(c) => {
                &&& snapshot is Some
                &&& snapshot->0.size != 0
                &&& modified_at is Some
                &&& c@ == built_candidate(raw@, path@, snapshot->0@, modified_at->0)
                &&& c.public.id@.len() == 12
            },
            None => snapshot is None || snapshot->0.size == 0 || modified_at is None,
        },
{
    let snap = match snapshot {
        Some(s) => s,
        None => return None,
    };
    if snap.size == 0 {
        return None;
    }
    let modified = match modified_at {
        Some(m) => m,
        None => return None,
    };
    let id = candidate_id(raw.plugin.as_str(), path.as_str());
    let public = Candidate {
        id,
        plugin: raw.plugin,
        category: raw.category,
        risk: raw.risk,
        path: path.clone(),
        size_bytes: snap.size,
        modified_at: modified,
        reason: raw.reason,
        action: "move_to_trash".to_string(),
    };
    Some(CandidateInternal { public, snapshot: snap, path })
}

/// Two paths overlap when one lies in the other (or they are the same).
pub open spec fn overlapping(a: Seq<char>, b: Seq<char>) -> bool {
    path_starts_with(a, b) || path_starts_with(b, a)
}

/// The candidates of `found` that do not overlap `c`, in order.
pub open spec fn apart(found: Seq<CandidateInternalView>, c: Seq<char>) -> Seq<CandidateInternalView>
    decreases found.len(),
{
    if found.len() == 0 {
        found
    } else {
        let r = apart(found.drop_last(), c);
        if overlapping(found.last().path, c) {
            r
        } else {
            r.push(found.last())
        }
    }
}

/// No candidate of `found` overlaps `c`.
pub open spec fn overlaps_none(found: Seq<CandidateInternalView>, c: Seq<char>) -> bool {
    forall|i: int| 0 <= i < found.len() ==> !overlapping(#[trigger] found[i].path, c)
}

/// Every candidate of `found` that overlaps `c` lies in `c`.
pub open spec fn overlaps_only_inside(found: Seq<CandidateInternalView>, c: Seq<char>) -> bool {
    forall|i: int|
        0 <= i < found.len() && overlapping(#[trigger] found[i].path, c) ==> path_starts_with(
            found[i].path,
            c,
        )
}

/// The list after a new candidate `c` comes in: it joins when it overlaps nothing;
/// it replaces what lies inside it when everything it overlaps lies inside it;
/// otherwise it lies inside something already found and is dropped.
pub open spec fn absorbed(found: Seq<CandidateInternalView>, c: CandidateInternalView) -> Seq<
    CandidateInternalView,
> {
    if overlaps_none(found, c.path) {
        found.push(c)
    } else if overlaps_only_inside(found, c.path) {
        apart(found, c.path).push(c)
    } else {
        found
    }
}

/// The bytes that the candidates take together.
pub open spec fn total_size(found: Seq<CandidateInternalView>) -> int
    decreases found.len(),
{
    if found.len() == 0 {
        0
    } else {
        total_size(found.drop_last()) + found.last().public.size_bytes
    }
}

/// No two of the candidates overlap.
pub open spec fn pairwise_apart(found: Seq<CandidateInternalView>) -> bool {
    forall|i: int, j: int|
        0 <= i < found.len() && 0 <= j < found.len() && i != j ==> !overlapping(
            #[trigger] found[i].path,
            #[trigger] found[j].path,
        )
}

/// A candidate shows the user the path that it will be checked and moved at.
pub open spec fn consistent(c: CandidateInternalView) -> bool {
    c.public.path == c.path
}

/// The views of a sequence of candidates.
pub open spec fn candidate_views(s: Seq<CandidateInternal>) -> Seq<CandidateInternalView> {
    s.map_values(|c: CandidateInternal| c@)
}

/// The public parts of a sequence of candidates.
pub open spec fn public_views(s: Seq<CandidateInternalView>) -> Seq<CandidateView> {
    s.map_values(|c: CandidateInternalView| c.public)
}

/// The characters of each string.
pub open spec fn string_views(s: Seq<String>) -> Seq<Seq<char>> {
    s.map_values(|x: String| x@)
}

/// Candidates found so far in a scan, and the warnings of rules that failed.
pub struct ScanState {
    pub found: Vec<CandidateInternal>,
    pub warnings: Vec<String>,
    pub total_bytes: u64,
}

impl ScanState {
    /// The candidates found so far.
    pub open spec fn found_views(self) -> Seq<CandidateInternalView> {
        candidate_views(self.found@)
    }

    /// What a scan keeps true: no two candidates overlap, each shows its own path,
    /// and `total_bytes` is what they take together.
    pub open spec fn wf(self) -> bool {
        &&& pairwise_apart(self.found_views())
        &&& forall|i: int| 0 <= i < self.found.len() ==> consistent(#[trigger] self.found_views()[i])
        &&& self.total_bytes == total_size(self.found_views())
    }

    /// A scan that has found nothing yet.
    pub fn new() -> (res: ScanState)
        ensures
            res.wf(),
            res.found@.len() == 0,
            res.warnings@.len() == 0,
            res.total_bytes == 0,
    {
        let res = ScanState { found: Vec::new(), warnings: Vec::new(), total_bytes: 0 };
        assert(res.found_views() =~= Seq::<CandidateInternalView>::empty());
        res
    }

    /// Whether `c` can come in without the byte total leaving `u64`.
    pub fn can_absorb(&self, c: &CandidateInternal) -> (res: bool)
        requires
            self.wf(),
        ensures
            res == (total_size(absorbed(self.found_views(), c@)) <= u64::MAX),
    {
        let (any, only_inside) = self.overlap_flags(c);
        proof {
            lemma_total_nonnegative(self.found_views());
        }
        if !any {
            proof {
                lemma_total_push(self.found_views(), c@);
            }
            (c.public.size_bytes as u128) + (self.total_bytes as u128) <= u64::MAX as u128
        } else if only_inside {
            let kept = self.total_after_removal(c);
            proof {
                lemma_total_push(apart(self.found_views(), c.path@), c@);
            }
            (c.public.size_bytes as u128) + (kept as u128) <= u64::MAX as u128
        } else {
            true
        }
    }

    /// Whether `c` overlaps something found, and whether all it overlaps lies inside it.
    fn overlap_flags(&self, c: &CandidateInternal) -> (res: (bool, bool))
        ensures
            res.0 == !overlaps_none(self.found_views(), c.path@),
            res.1 == overlaps_only_inside(self.found_views(), c.path@),
    {
        let mut any = false;
        let mut only_inside = true;
        let mut i: usize = 0;
        while i < self.found.len()
            invariant
                i <= self.found.len(),
                any == (exists|j: int| 0 <= j < i && overlapping(#[trigger] self.found_views()[j].path, c.path@)),
                only_inside == (forall|j: int|
                    0 <= j < i && overlapping(#[trigger] self.found_views()[j].path, c.path@) ==> path_starts_with(
                        self.found_views()[j].path,
                        c.path@,
                    )),
            decreases self.found.len() - i,
        {
            let e = &self.found[i];
            assert(self.found_views()[i as int] == e@);
            let inside = starts_with(e.path.as_str(), c.path.as_str());
            let around = starts_with(c.path.as_str(), e.path.as_str());
            assert(overlapping(self.found_views()[i as int].path, c.path@) == (inside || around));
            assert(path_starts_with(self.found_views()[i as int].path, c.path@) == inside);
            if inside || around {
                any = true;
                if !inside {
                    only_inside = false;
                }
            }
            i = i + 1;
        }
        (any, only_inside)
    }

    /// The byte total without the candidates that overlap `c`.
    fn total_after_removal(&self, c: &CandidateInternal) -> (res: u64)
        requires
            self.wf(),
        ensures
            res == total_size(apart(self.found_views(), c.path@)),
    {
        let ghost orig = self.found_views();
        let mut total: u64 = self.total_bytes;
        let mut i: usize = 0;
        assert(orig.take(0) =~= Seq::<CandidateInternalView>::empty());
        assert(orig =~= orig.take(0) + orig.skip(0));
        proof {
            lemma_total_concat(apart(orig.take(0), c.path@), orig.skip(0));
        }
        while i < self.found.len()
            invariant
                i <= self.found.len(),
                orig == self.found_views(),
                total == total_size(apart(orig.take(i as int), c.path@)) + total_size(orig.skip(i as int)),
            decreases self.found.len() - i,
        {
            let e = &self.found[i];
            assert(orig[i as int] == e@);
            assert(orig.take(i + 1).drop_last() =~= orig.take(i as int));
            assert(orig.skip(i as int) =~= seq![orig[i as int]] + orig.skip(i + 1));
            proof {
                lemma_total_concat(seq![orig[i as int]], orig.skip(i + 1));
                lemma_total_nonnegative(orig.skip(i + 1));
                lemma_total_nonnegative(apart(orig.take(i as int), c.path@));
                lemma_total_push(Seq::<CandidateInternalView>::empty(), orig[i as int]);
                assert(Seq::<CandidateInternalView>::empty().push(orig[i as int]) =~= seq![orig[i as int]]);
                lemma_total_push(apart(orig.take(i as int), c.path@), orig[i as int]);
            }
            if starts_with(e.path.as_str(), c.path.as_str()) || starts_with(c.path.as_str(), e.path.as_str()) {
                total = total - e.public.size_bytes;
            }
            i = i + 1;
        }
        assert(orig.take(i as int) =~= orig);
        assert(orig.skip(i as int) =~= Seq::<CandidateInternalView>::empty());
        total
    }

    /// Drops the candidates that overlap `path`, keeping the byte total right.
    fn remove_overlapping(&mut self, path: &String)
        requires
            old(self).total_bytes == total_size(old(self).found_views()),
        ensures
            final(self).found_views() == apart(old(self).found_views(), path@),
            final(self).total_bytes == total_size(final(self).found_views()),
            final(self).warnings == old(self).warnings,
    {
        let ghost orig = self.found_views();
        let mut i: usize = 0;
        let ghost mut k: int = 0;
        assert(orig.take(0) =~= Seq::<CandidateInternalView>::empty());
        assert(orig.skip(0) =~= orig);
        assert(self.found_views() =~= apart(orig.take(0), path@) + orig.skip(0));
        proof {
            lemma_total_concat(apart(orig.take(0), path@), orig.skip(0));
        }
        while i < self.found.len()
            invariant
                0 <= k <= orig.len(),
                i == apart(orig.take(k), path@).len(),
                self.found_views() == apart(orig.take(k), path@) + orig.skip(k),
                self.total_bytes == total_size(self.found_views()),
                self.found.len() == i + (orig.len() - k),
                self.warnings == old(self).warnings,
            decreases self.found.len() - i,
        {
            let ghost before = self.found_views();
            assert(before[i as int] == orig[k]);
            assert(self.found@[i as int]@ == orig[k]);
            assert(orig.take(k + 1).drop_last() =~= orig.take(k));
            let inside = starts_with(self.found[i].path.as_str(), path.as_str());
            let around = starts_with(path.as_str(), self.found[i].path.as_str());
            assert(overlapping(orig[k].path, path@) == (inside || around));
            assert(orig.skip(k).drop_first() =~= orig.skip(k + 1));
            if inside || around {
                proof {
                    lemma_total_remove(before, i as int);
                    lemma_total_nonnegative(before.remove(i as int));
                    assert(apart(orig.take(k + 1), path@) == apart(orig.take(k), path@));
                }
                let removed = self.found.remove(i);
                self.total_bytes = self.total_bytes - removed.public.size_bytes;
                assert(self.found_views() =~= before.remove(i as int));
                assert(self.found_views() =~= apart(orig.take(k + 1), path@) + orig.skip(k + 1));
            } else {
                i = i + 1;
                assert(self.found_views() =~= apart(orig.take(k + 1), path@) + orig.skip(k + 1));
            }
            proof {
                k = k + 1;
            }
        }
        assert(k == orig.len());
        assert(orig.take(k) =~= orig);
        assert(self.found_views() =~= apart(orig, path@));
    }

    /// Takes in a candidate that a rule found and that passed its checks, and tells
    /// how far the scan has come.
    pub fn absorb(&mut self, c: CandidateInternal, plugin_id: &str) -> (ev: ScanEvent)
        requires
            old(self).wf(),
            consistent(c@),
            total_size(absorbed(old(self).found_views(), c@)) <= u64::MAX,
        ensures
            final(self).wf(),
            final(self).found_views() == absorbed(old(self).found_views(), c@),
            final(self).warnings == old(self).warnings,
            match ev {
                ScanEvent::Progress { plugin, path, found, bytes } => {
                    &&& plugin@ == plugin_id@
                    &&& path@ == c.path@
                    &&& found == final(self).found.len()
                    &&& bytes == final(self).total_bytes
                },
                _ => false,
            },
    {
        let ghost orig = self.found_views();
        let path = c.path.clone();
        let (any, only_inside) = self.overlap_flags(&c);
        proof {
            lemma_total_nonnegative(orig);
        }
        if !any {
            proof {
                lemma_total_push(orig, c@);
                lemma_push_apart(orig, c@);
            }
            self.total_bytes = self.total_bytes + c.public.size_bytes;
            self.found.push(c);
            assert(self.found_views() =~= orig.push(c@));
        } else if only_inside {
            self.remove_overlapping(&path);
            proof {
                lemma_total_push(apart(orig, c.path@), c@);
                lemma_apart_keeps(orig, c.path@);
                lemma_push_apart(apart(orig, c.path@), c@);
            }
            let ghost kept = self.found_views();
            self.total_bytes = self.total_bytes + c.public.size_bytes;
            self.found.push(c);
            assert(self.found_views() =~= kept.push(c@));
        }
        ScanEvent::Progress {
            plugin: plugin_id.to_string(),
            path,
            found: self.found.len(),
            bytes: self.total_bytes,
        }
    }
}

proof fn lemma_total_nonnegative(s: Seq<CandidateInternalView>)
    ensures
        total_size(s) >= 0,
    decreases s.len(),
{
    if s.len() > 0 {
        lemma_total_nonnegative(s.drop_last());
    }
}

proof fn lemma_total_push(s: Seq<CandidateInternalView>, c: CandidateInternalView)
    ensures
        total_size(s.push(c)) == total_size(s) + c.public.size_bytes,
{
    assert(s.push(c).drop_last() =~= s);
}

proof fn lemma_total_concat(a: Seq<CandidateInternalView>, b: Seq<CandidateInternalView>)
    ensures
        total_size(a + b) == total_size(a) + total_size(b),
    decreases b.len(),
{
    if b.len() == 0 {
        assert(a + b =~= a);
    } else {
        lemma_total_concat(a, b.drop_last());
        assert((a + b).drop_last() =~= a + b.drop_last());
    }
}

proof fn lemma_total_remove(s: Seq<CandidateInternalView>, i: int)
    requires
        0 <= i < s.len(),
    ensures
        total_size(s.remove(i)) == total_size(s) - s[i].public.size_bytes,
{
    let a = s.take(i);
    let b = s.skip(i + 1);
    assert(s =~= (a + seq![s[i]]) + b);
    assert(s.remove(i) =~= a + b);
    lemma_total_concat(a + seq![s[i]], b);
    lemma_total_concat(a, b);
    lemma_total_push(a, s[i]);
    assert(a.push(s[i]) =~= a + seq![s[i]]);
}

/// What stays apart from `c` came from `found`, does not overlap `c`, and keeps
/// the candidates of `found` apart from each other and consistent.
proof fn lemma_apart_keeps(found: Seq<CandidateInternalView>, c: Seq<char>)
    ensures
        forall|k: int| 0 <= k < apart(found, c).len() ==> found.contains(#[trigger] apart(found, c)[k]),
        overlaps_none(apart(found, c), c),
        pairwise_apart(found) ==> pairwise_apart(apart(found, c)),
        (forall|i: int| 0 <= i < found.len() ==> consistent(#[trigger] found[i])) ==> (forall|i: int|
            0 <= i < apart(found, c).len() ==> consistent(#[trigger] apart(found, c)[i])),
    decreases found.len(),
{
    if found.len() > 0 {
        let rest = found.drop_last();
        lemma_apart_keeps(rest, c);
        let r = apart(rest, c);
        assert forall|k: int| 0 <= k < r.len() implies found.contains(#[trigger] r[k]) by {
            let j = choose|j: int| 0 <= j < rest.len() && rest[j] == r[k];
            assert(found[j] == r[k]);
        }
        if !overlapping(found.last().path, c) {
            let a = r.push(found.last());
            assert forall|k: int| 0 <= k < a.len() implies found.contains(#[trigger] a[k]) by {
                if k == r.len() {
                    assert(found[found.len() - 1] == a[k]);
                } else {
                    assert(a[k] == r[k]);
                }
            }
            if pairwise_apart(found) {
                assert(pairwise_apart(rest)) by {
                    assert forall|i: int, j: int|
                        0 <= i < rest.len() && 0 <= j < rest.len() && i != j implies !overlapping(
                        #[trigger] rest[i].path,
                        #[trigger] rest[j].path,
                    ) by {
                        assert(rest[i] == found[i] && rest[j] == found[j]);
                    }
                }
                assert forall|i: int, j: int|
                    0 <= i < a.len() && 0 <= j < a.len() && i != j implies !overlapping(
                    #[trigger] a[i].path,
                    #[trigger] a[j].path,
                ) by {
                    if i == r.len() || j == r.len() {
                        let other = if i == r.len() { j } else { i };
                        let m = choose|m: int| 0 <= m < rest.len() && rest[m] == r[other];
                        assert(found[m] == a[other]);
                        assert(found[found.len() - 1] == found.last());
                        assert(!overlapping(found[m].path, found[found.len() - 1].path));
                        assert(!overlapping(found[found.len() - 1].path, found[m].path));
                    } else {
                        assert(a[i] == r[i] && a[j] == r[j]);
                    }
                }
            }
            if forall|i: int| 0 <= i < found.len() ==> consistent(#[trigger] found[i]) {
                assert forall|i: int| 0 <= i < rest.len() implies consistent(#[trigger] rest[i]) by {
                    assert(rest[i] == found[i]);
                }
                assert forall|i: int| 0 <= i < a.len() implies consistent(#[trigger] a[i]) by {
                    if i == r.len() {
                        assert(found[found.len() - 1] == a[i]);
                    } else {
                        assert(a[i] == r[i]);
                    }
                }
            }
        } else {
            if pairwise_apart(found) {
                assert forall|i: int, j: int|
                    0 <= i < rest.len() && 0 <= j < rest.len() && i != j implies !overlapping(
                    #[trigger] rest[i].path,
                    #[trigger] rest[j].path,
                ) by {
                    assert(rest[i] == found[i] && rest[j] == found[j]);
                }
            }
            if forall|i: int| 0 <= i < found.len() ==> consistent(#[trigger] found[i]) {
                assert forall|i: int| 0 <= i < rest.len() implies consistent(#[trigger] rest[i]) by {
                    assert(rest[i] == found[i]);
                }
            }
        }
    }
}

/// Adding a consistent candidate that overlaps nothing keeps a scan's list in shape.
proof fn lemma_push_apart(found: Seq<CandidateInternalView>, c: CandidateInternalView)
    requires
        overlaps_none(found, c.path),
    ensures
        pairwise_apart(found) ==> pairwise_apart(found.push(c)),
        ((forall|i: int| 0 <= i < found.len() ==> consistent(#[trigger] found[i])) && consistent(c))
            ==> (forall|i: int| 0 <= i < found.push(c).len() ==> consistent(#[trigger] found.push(c)[i])),
{
    let a = found.push(c);
    if pairwise_apart(found) {
        assert forall|i: int, j: int|
            0 <= i < a.len() && 0 <= j < a.len() && i != j implies !overlapping(
            #[trigger] a[i].path,
            #[trigger] a[j].path,
        ) by {
            if i == found.len() {
                assert(!overlapping(found[j].path, c.path));
            } else if j == found.len() {
                assert(!overlapping(found[i].path, c.path));
            } else {
                assert(a[i] == found[i] && a[j] == found[j]);
            }
        }
    }
    if (forall|i: int| 0 <= i < found.len() ==> consistent(#[trigger] found[i])) && consistent(c) {
        assert forall|i: int| 0 <= i < a.len() implies consistent(#[trigger] a[i]) by {
            if i < found.len() {
                assert(a[i] == found[i]);
            }
        }
    }
}

/// The order of the report: lower risk first, then category order, then larger
/// size first, then the path's bytes.
pub open spec fn report_rank(a: CandidateInternalView, b: CandidateInternalView) -> Order {
    let ra = a.public.risk.rank();
    let rb = b.public.risk.rank();
    let ca = a.public.category.rank();
    let cb = b.public.category.rank();
    if ra < rb {
        Order::Less
    } else if ra > rb {
        Order::Greater
    } else if ca < cb {
        Order::Less
    } else if ca > cb {
        Order::Greater
    } else if a.public.size_bytes > b.public.size_bytes {
        Order::Less
    } else if a.public.size_bytes < b.public.size_bytes {
        Order::Greater
    } else {
        str_rank(a.public.path, b.public.path)
    }
}

impl Ranked for CandidateInternal {
    open spec fn ranked(self, other: Self) -> Order {
        report_rank(self@, other@)
    }

    proof fn lemma_ranked_flip(a: Self, b: Self) {
        lemma_lex_flip(encode_utf8(a.public.path@), encode_utf8(b.public.path@));
    }

    proof fn lemma_ranked_transitive(a: Self, b: Self, c: Self) {
        if a.public.risk.rank() == b.public.risk.rank() && b.public.risk.rank() == c.public.risk.rank()
            && a.public.category.rank() == b.public.category.rank() && b.public.category.rank()
            == c.public.category.rank() && a.public.size_bytes == b.public.size_bytes
            && b.public.size_bytes == c.public.size_bytes {
            lemma_lex_transitive(
            encode_utf8(a.public.path@),
            encode_utf8(b.public.path@),
            encode_utf8(c.public.path@),
            );
        }
    }

    fn compare(&self, other: &Self) -> (res: Order) {
        let ra = self.public.risk.rank_of();
        let rb = other.public.risk.rank_of();
        let ca = self.public.category.order();
        let cb = other.public.category.order();
        if ra < rb {
            Order::Less
        } else if ra > rb {
            Order::Greater
        } else if ca < cb {
            Order::Less
        } else if ca > cb {
            Order::Greater
        } else if self.public.size_bytes > other.public.size_bytes {
            Order::Less
        } else if self.public.size_bytes < other.public.size_bytes {
            Order::Greater
        } else {
            str_order(self.public.path.as_str(), other.public.path.as_str())
        }
    }
}

/// A path lies in itself.
pub proof fn lemma_starts_with_itself(a: Seq<char>)
    ensures
        path_starts_with(a, a),
        overlapping(a, a),
{
    assert(components(a) =~= components(a).subrange(0, components(a).len() as int));
}

/// The message that stops a scan that was cancelled.
pub open spec fn cancelled_message() -> Seq<char> {
    "__cancelled__"@
}

/// A scan stops as soon as it sees that it was cancelled.
pub fn check_cancelled(cancelled: bool) -> (res: Result<(), String>)
    ensures
        cancelled ==> res is Err && res->Err_0@ == cancelled_message(),
        !cancelled ==> res is Ok,
{
    if cancelled {
        Err("__cancelled__".to_string())
    } else {
        Ok(())
    }
}

impl ScanState {
    /// Notes that a rule failed: its id and its error, separated by `: `.
    pub fn record_failure(&mut self, plugin_id: &str, error: &str)
        requires
            old(self).wf(),
        ensures
            final(self).wf(),
            final(self).found == old(self).found,
            final(self).total_bytes == old(self).total_bytes,
            string_views(final(self).warnings@) == string_views(old(self).warnings@).push(
                plugin_id@ + ": "@ + error@,
            ),
    {
        let mut w = plugin_id.to_string();
        w.append(": ");
        w.append(error);
        let ghost before = self.warnings@;
        self.warnings.push(w);
        assert(string_views(self.warnings@) =~= string_views(before).push(plugin_id@ + ": "@ + error@));
    }

    /// Puts the candidates in the report's order and makes the report.
    pub fn finish(self, scan_id: String, generated_at: String, disk: DiskStats) -> (res: ScanSession)
        requires
            self.wf(),
        ensures
            res.candidates@.to_multiset() == self.found@.to_multiset(),
            sorted_by_rank(res.candidates@),
            forall|i: int, j: int|
                0 <= i < j < res.candidates@.len() ==> #[trigger] report_rank(
                    res.candidates@[i]@,
                    res.candidates@[j]@,
                ) == Order::Less,
            pairwise_apart(candidate_views(res.candidates@)),
            res.report.candidates@.map_values(|c: Candidate| c@) == public_views(
                candidate_views(res.candidates@),
            ),
            res.report.scan_id == scan_id,
            res.report.generated_at == generated_at,
            res.report.disk == disk,
            res.report.warnings == self.warnings,
    {
        let ghost found = self.found@;
        proof {
            self.lemma_found_distinct();
        }
        let sorted = sort_ranked(self.found);
        proof {
            lemma_same_elements_apart(found, sorted@);
        }
        let mut publics: Vec<Candidate> = Vec::new();
        let mut i: usize = 0;
        while i < sorted.len()
            invariant
                i <= sorted.len(),
                publics@.len() == i,
                forall|j: int| 0 <= j < i ==> #[trigger] publics@[j]@ == sorted@[j]@.public,
            decreases sorted.len() - i,
        {
            publics.push(sorted[i].public.duplicate());
            i = i + 1;
        }
        assert(publics@.map_values(|c: Candidate| c@) =~= public_views(candidate_views(sorted@)));
        let report = ScanReport { scan_id, generated_at, disk, candidates: publics, warnings: self.warnings };
        ScanSession { report, candidates: sorted }
    }

    /// The candidates found so far are distinct values.
    proof fn lemma_found_distinct(&self)
        requires
            self.wf(),
        ensures
            self.found@.no_duplicates(),
    {
        assert forall|i: int, j: int|
            0 <= i < self.found@.len() && 0 <= j < self.found@.len() && i != j implies self.found@[i]
            != self.found@[j] by {
            if self.found@[i] == self.found@[j] {
                assert(self.found_views()[i] == self.found@[i]@);
                assert(self.found_views()[j] == self.found@[j]@);
                lemma_starts_with_itself(self.found@[i]@.path);
                assert(!overlapping(self.found_views()[i].path, self.found_views()[j].path));
            }
        }
    }
}

/// A rearrangement of a scan's list keeps its candidates apart, and since their
/// paths differ, no two of them compare equal in the report's order.
proof fn lemma_same_elements_apart(found: Seq<CandidateInternal>, arranged: Seq<CandidateInternal>)
    requires
        arranged.to_multiset() == found.to_multiset(),
        found.no_duplicates(),
        pairwise_apart(candidate_views(found)),
        forall|i: int| 0 <= i < found.len() ==> consistent(#[trigger] candidate_views(found)[i]),
        sorted_by_rank(arranged),
    ensures
        pairwise_apart(candidate_views(arranged)),
        forall|i: int, j: int|
            0 <= i < j < arranged.len() ==> #[trigger] report_rank(arranged[i]@, arranged[j]@)
                == Order::Less,
{
    broadcast use vstd::seq_lib::group_to_multiset_ensures;

    found.lemma_multiset_has_no_duplicates();
    arranged.lemma_multiset_has_no_duplicates_conv();
    let av = candidate_views(arranged);
    let fv = candidate_views(found);
    assert forall|i: int, j: int|
        0 <= i < arranged.len() && 0 <= j < arranged.len() && i != j implies !overlapping(
        #[trigger] av[i].path,
        #[trigger] av[j].path,
    ) && av[i].public.path == av[i].path && av[j].public.path == av[j].path by {
        assert(arranged.to_multiset().count(arranged[i]) > 0);
        assert(arranged.to_multiset().count(arranged[j]) > 0);
        assert(found.contains(arranged[i]));
        assert(found.contains(arranged[j]));
        let m = choose|m: int| 0 <= m < found.len() && found[m] == arranged[i];
        let n = choose|n: int| 0 <= n < found.len() && found[n] == arranged[j];
        assert(arranged[i] != arranged[j]);
        assert(fv[m] == av[i] && fv[n] == av[j]);
        assert(consistent(fv[m]) && consistent(fv[n]));
    }
    assert forall|i: int, j: int| 0 <= i < j < arranged.len() implies #[trigger] report_rank(
        arranged[i]@,
        arranged[j]@,
    ) == Order::Less by {
        assert(arranged[i].ranked(arranged[j]) != Order::Greater);
        assert(av[i] == arranged[i]@ && av[j] == arranged[j]@);
        assert(!overlapping(av[i].path, av[j].path));
        if av[i].public.path == av[j].public.path {
            lemma_starts_with_itself(av[i].path);
        }
        lemma_encode_injective(av[i].public.path, av[j].public.path);
        lemma_lex_equal(encode_utf8(av[i].public.path), encode_utf8(av[j].public.path));
    }
}

} // verus!

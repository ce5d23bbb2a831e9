//! The decisions behind the application's commands: when a scan, a clean or a
//! settings change may start, which candidates a clean takes, and what is kept
//! of finished scans.
use vstd::prelude::*;
use crate::model::{CandidateInternal, CandidateInternalView, ScanEvent, ScanSession, SizeMeasurement};
use crate::scanner::cancelled_message;
use crate::text::str_is;

verus! {

/// What the application remembers between commands: the scan that runs, if any,
/// and the finished scans by id.
pub struct InnerState {
    pub active_scan: Option<String>,
    pub sessions: Vec<(String, ScanSession)>,
}

/// The ids under which finished scans are kept.
pub open spec fn session_ids(s: Seq<(String, ScanSession)>) -> Seq<Seq<char>> {
    s.map_values(|e: (String, ScanSession)| e.0@)
}

/// Whether a finished scan is kept under `id`.
pub open spec fn has_session(s: Seq<(String, ScanSession)>, id: Seq<char>) -> bool {
    session_ids(s).contains(id)
}

/// The message when settings change while a scan or a clean runs.
pub open spec fn busy_settings() -> Seq<char> {
    "扫描或清理期间不能修改设置"@
}

impl InnerState {
    /// The state of a freshly started application.
    pub fn new() -> (res: InnerState)
        ensures
            res.active_scan is None,
            res.sessions@.len() == 0,
            res.wf(),
    {
        InnerState { active_scan: None, sessions: Vec::new() }
    }

    /// Every finished scan is kept under one id only.
    pub open spec fn wf(self) -> bool {
        session_ids(self.sessions@).no_duplicates()
    }

    /// Settings may change only while no scan and no clean runs.
    pub fn settings_change_allowed(&self, cleaning: bool) -> (res: Result<(), String>)
        ensures
            (cleaning || self.active_scan is Some) ==> res is Err && res->Err_0@ == busy_settings(),
            !(cleaning || self.active_scan is Some) ==> res is Ok,
    {
        if cleaning || self.active_scan.is_some() {
            Err("扫描或清理期间不能修改设置".to_string())
        } else {
            Ok(())
        }
    }

    /// A scan may start only while no clean and no other scan runs.
    pub fn scan_allowed(&self, cleaning: bool) -> (res: Result<(), String>)
        ensures
            cleaning ==> res is Err && res->Err_0@ == "清理正在进行"@,
            !cleaning && self.active_scan is Some ==> res is Err && res->Err_0@ == "已有扫描正在进行"@,
            !cleaning && self.active_scan is None ==> res is Ok,
    {
        if cleaning {
            return Err("清理正在进行".to_string());
        }
        if self.active_scan.is_some() {
            return Err("已有扫描正在进行".to_string());
        }
        Ok(())
    }

    /// Starts a scan: earlier results are forgotten and `scan_id` becomes the running scan.
    pub fn start_scan(&mut self, scan_id: String)
        ensures
            final(self).active_scan == Some(scan_id),
            final(self).sessions@.len() == 0,
            final(self).wf(),
    {
        self.sessions = Vec::new();
        self.active_scan = Some(scan_id);
        assert(session_ids(self.sessions@) =~= Seq::<Seq<char>>::empty());
    }

    /// A scan may be cancelled only while it runs.
    pub fn cancel_allowed(&self, scan_id: &str) -> (res: Result<(), String>)
        ensures
            self.active_scan is None ==> res is Err && res->Err_0@ == "没有活动扫描"@,
            self.active_scan matches Some(a) && a@ != scan_id@ ==> res is Err && res->Err_0@ == "扫描会话不匹配"@,
            self.active_scan matches Some(a) && a@ == scan_id@ ==> res is Ok,
    {
        match &self.active_scan {
            None => Err("没有活动扫描".to_string()),
            Some(a) => {
                if !str_is(a.as_str(), scan_id) {
                    Err("扫描会话不匹配".to_string())
                } else {
                    Ok(())
                }
            },
        }
    }

    /// Keeps `session` under `id`, in place of what was kept under that id.
    pub fn keep_session(&mut self, id: String, session: ScanSession)
        requires
            old(self).wf(),
        ensures
            final(self).wf(),
            final(self).active_scan == old(self).active_scan,
            has_session(final(self).sessions@, id@),
            forall|k: Seq<char>| k != id@ ==> (has_session(final(self).sessions@, k) == has_session(old(self).sessions@, k)),
            final(self).session_at(id@) == Some(session),
            forall|k: Seq<char>| k != id@ ==> final(self).session_at(k) == old(self).session_at(k),
    {
        self.drop_session(id.as_str());
        let ghost before = self.sessions@;
        self.sessions.push((id, session));
        proof {
            let after = self.sessions@;
            assert(session_ids(after) =~= session_ids(before).push(after.last().0@));
            assert forall|i: int, j: int|
                0 <= i < session_ids(after).len() && 0 <= j < session_ids(after).len() && i != j implies session_ids(
                after,
            )[i] != session_ids(after)[j] by {
                if i < before.len() && j < before.len() {
                    assert(session_ids(before)[i] == session_ids(after)[i]);
                    assert(session_ids(before)[j] == session_ids(after)[j]);
                } else if i < before.len() {
                    assert(session_ids(before)[i] == session_ids(after)[i]);
                    assert(session_ids(before).contains(session_ids(after)[i]));
                } else {
                    assert(session_ids(before)[j] == session_ids(after)[j]);
                    assert(session_ids(before).contains(session_ids(after)[j]));
                }
            }
            assert forall|k: Seq<char>| k != id@ implies has_session(after, k) == has_session(before, k) by {
                if has_session(after, k) {
                    let i = choose|i: int| 0 <= i < session_ids(after).len() && session_ids(after)[i] == k;
                    assert(session_ids(before)[i] == k);
                }
                if has_session(before, k) {
                    let i = choose|i: int| 0 <= i < session_ids(before).len() && session_ids(before)[i] == k;
                    assert(session_ids(after)[i] == k);
                }
            }
            assert(session_ids(after)[after.len() - 1] == id@);
            lemma_session_at_unique(after, after.len() - 1);
            assert forall|k: Seq<char>| k != id@ implies #[trigger] session_of(after, k) == session_of(before, k) by {
                if has_session(before, k) {
                    let i = choose|i: int| 0 <= i < session_ids(before).len() && session_ids(before)[i] == k;
                    lemma_session_at_unique(before, i);
                    assert(session_ids(after)[i] == k);
                    lemma_session_at_unique(after, i);
                } else {
                    assert(!has_session(after, k));
                }
            }
        }
    }

    /// The finished scan kept under `id`, if any.
    pub open spec fn session_at(self, id: Seq<char>) -> Option<ScanSession> {
        session_of(self.sessions@, id)
    }

    /// Forgets the finished scan kept under `id`, if any.
    pub fn drop_session(&mut self, id: &str)
        requires
            old(self).wf(),
        ensures
            final(self).wf(),
            final(self).active_scan == old(self).active_scan,
            !has_session(final(self).sessions@, id@),
            forall|k: Seq<char>| k != id@ ==> (has_session(final(self).sessions@, k) == has_session(old(self).sessions@, k)),
            forall|k: Seq<char>| k != id@ ==> final(self).session_at(k) == old(self).session_at(k),
            final(self).session_at(id@) is None,
    {
        let ghost orig = self.sessions@;
        let mut i: usize = 0;
        while i < self.sessions.len()
            invariant
                i <= self.sessions.len(),
                session_ids(self.sessions@).no_duplicates(),
                self.active_scan == old(self).active_scan,
                self.sessions@ == orig,
                orig == old(self).sessions@,
                forall|j: int| 0 <= j < i ==> session_ids(self.sessions@)[j] != id@,
            decreases self.sessions.len() - i,
        {
            assert(session_ids(self.sessions@)[i as int] == self.sessions@[i as int].0@);
            if str_is(self.sessions[i].0.as_str(), id) {
                let ghost before = self.sessions@;
                self.sessions.remove(i);
                proof {
                    let after = self.sessions@;
                    assert(session_ids(after) =~= session_ids(before).remove(i as int));
                    assert forall|a: int, b: int|
                        0 <= a < session_ids(after).len() && 0 <= b < session_ids(after).len() && a != b implies session_ids(
                        after,
                    )[a] != session_ids(after)[b] by {
                        let a2 = if a < i { a } else { a + 1 };
                        let b2 = if b < i { b } else { b + 1 };
                        assert(session_ids(after)[a] == session_ids(before)[a2]);
                        assert(session_ids(after)[b] == session_ids(before)[b2]);
                    }
                    assert(!has_session(after, id@)) by {
                        if has_session(after, id@) {
                            let a = choose|a: int| 0 <= a < session_ids(after).len() && session_ids(after)[a] == id@;
                            let a2 = if a < i { a } else { a + 1 };
                            assert(session_ids(before)[a2] == id@);
                        }
                    }
                    assert forall|k: Seq<char>| k != id@ implies has_session(after, k) == has_session(before, k) by {
                        if has_session(after, k) {
                            let a = choose|a: int| 0 <= a < session_ids(after).len() && session_ids(after)[a] == k;
                            let a2 = if a < i { a } else { a + 1 };
                            assert(session_ids(before)[a2] == k);
                        }
                        if has_session(before, k) {
                            let b = choose|b: int| 0 <= b < session_ids(before).len() && session_ids(before)[b] == k;
                            assert(b != i);
                            let b2 = if b < i { b } else { b - 1 };
                            assert(session_ids(after)[b2] == k);
                        }
                    }
                    assert forall|k: Seq<char>| k != id@ implies #[trigger] session_of(after, k) == session_of(before, k) by {
                        if has_session(before, k) {
                            let b = choose|b: int| 0 <= b < session_ids(before).len() && session_ids(before)[b] == k;
                            lemma_session_at_unique(before, b);
                            assert(b != i);
                            let b2 = if b < i { b } else { b - 1 };
                            assert(session_ids(after)[b2] == k);
                            lemma_session_at_unique(after, b2);
                        }
                    }
                }
                return;
            }
            i = i + 1;
        }
        assert(!has_session(self.sessions@, id@)) by {
            if has_session(self.sessions@, id@) {
                let a = choose|a: int| 0 <= a < session_ids(self.sessions@).len() && session_ids(self.sessions@)[a] == id@;
            }
        }
    }

    /// Ends the running scan with its outcome, keeps a finished scan under its id,
    /// and tells how it ended: completed with its report, cancelled, or failed with
    /// the error.
    pub fn finish_scan(&mut self, id: String, outcome: Result<ScanSession, String>) -> (ev: ScanEvent)
        requires
            old(self).wf(),
        ensures
            final(self).wf(),
            final(self).active_scan is None,
            match outcome {
                Ok(session) => {
                    &&& final(self).session_at(id@) == Some(session)
                    &&& forall|k: Seq<char>| k != id@ ==> final(self).session_at(k) == old(self).session_at(k)
                    &&& ev matches ScanEvent::Completed { report } && report@ == session.report@
                },
                Err(e) => {
                    &&& final(self).sessions == old(self).sessions
                    &&& if e@ == cancelled_message() {
                        ev matches ScanEvent::Cancelled { scan_id } && scan_id@ == id@
                    } else {
                        ev matches ScanEvent::Failed { scan_id, message } && scan_id@ == id@ && message@ == e@
                    }
                },
            },
    {
        self.active_scan = None;
        match outcome {
            Ok(session) => {
                let report = session.report.duplicate();
                self.keep_session(id, session);
                ScanEvent::Completed { report }
            },
            Err(e) => {
                if str_is(e.as_str(), "__cancelled__") {
                    ScanEvent::Cancelled { scan_id: id }
                } else {
                    ScanEvent::Failed { scan_id: id, message: e }
                }
            },
        }
    }
}

/// The finished scan kept under `id` in a list of kept scans.
pub open spec fn session_of(s: Seq<(String, ScanSession)>, id: Seq<char>) -> Option<ScanSession> {
    if has_session(s, id) {
        Some(s[choose|i: int| 0 <= i < s.len() && #[trigger] s[i].0@ == id].1)
    } else {
        None
    }
}

proof fn lemma_session_at_unique(s: Seq<(String, ScanSession)>, i: int)
    requires
        session_ids(s).no_duplicates(),
        0 <= i < s.len(),
    ensures
        has_session(s, s[i].0@),
        session_of(s, s[i].0@) == Some(s[i].1),
{
    assert(session_ids(s)[i] == s[i].0@);
    let j = choose|j: int| 0 <= j < s.len() && #[trigger] s[j].0@ == s[i].0@;
    assert(session_ids(s)[j] == s[j].0@);
}

/// Index of the last candidate with the given id, or -1: a later candidate hides an
/// earlier one with the same id.
pub open spec fn last_with_id(s: Seq<CandidateInternal>, id: Seq<char>) -> int
    decreases s.len(),
{
    if s.len() == 0 {
        -1
    } else if s.last().public.id@ == id {
        s.len() - 1
    } else {
        last_with_id(s.drop_last(), id)
    }
}

/// The candidates picked by `ids` from a finished scan, in the order of `ids`, or the
/// first id that names no candidate.
pub open spec fn picked(s: Seq<CandidateInternal>, ids: Seq<Seq<char>>, n: int) -> Result<Seq<CandidateInternalView>, Seq<char>>
    decreases n,
{
    if n <= 0 {
        Ok(Seq::<CandidateInternalView>::empty())
    } else {
        match picked(s, ids, n - 1) {
            Err(e) => Err(e),
            Ok(v) => {
                let k = last_with_id(s, ids[n - 1]);
                if k < 0 {
                    Err("未知候选："@ + ids[n - 1])
                } else {
                    Ok(v.push(s[k]@))
                }
            },
        }
    }
}

/// The views of candidates.
pub open spec fn internal_views(s: Seq<CandidateInternal>) -> Seq<CandidateInternalView> {
    s.map_values(|c: CandidateInternal| c@)
}

/// The views of strings.
pub open spec fn id_views(s: Seq<String>) -> Seq<Seq<char>> {
    s.map_values(|x: String| x@)
}

/// The candidate of a finished scan with the given id.
fn candidate_with_id(s: &Vec<CandidateInternal>, id: &String) -> (res: Option<CandidateInternal>)
    ensures
        match res {
            Some(c) => last_with_id(s@, id@) >= 0 && c@ == s@[last_with_id(s@, id@)]@,
            None => last_with_id(s@, id@) < 0,
        },
{
    let mut i: usize = s.len();
    assert(s@.take(s.len() as int) =~= s@);
    while i > 0
        invariant
            i <= s.len(),
            last_with_id(s@, id@) == last_with_id(s@.take(i as int), id@),
        decreases i,
    {
        assert(s@.take(i as int).drop_last() =~= s@.take(i - 1));
        assert(s@.take(i as int).last() == s@[i - 1]);
        if s[i - 1].public.id == *id {
            return Some(s[i - 1].duplicate());
        }
        i = i - 1;
    }
    None
}

/// The message when a clean is asked for nothing.
pub open spec fn nothing_selected() -> Seq<char> {
    "请选择至少一个项目"@
}

impl InnerState {
    /// Starts a clean of the candidates `ids` of the finished scan `scan_id`, given
    /// whether a clean is already under way. Gives the candidates, or why the clean
    /// may not start, together with whether a clean is under way afterwards.
    pub fn begin_clean(&self, was_cleaning: bool, scan_id: &str, ids: &Vec<String>) -> (res: (
        Result<Vec<CandidateInternal>, String>,
        bool,
    ))
        requires
            self.wf(),
        ensures
            ids@.len() == 0 ==> res.0 is Err && res.0->Err_0@ == nothing_selected() && res.1 == was_cleaning,
            ids@.len() > 0 && self.active_scan is Some ==> res.0 is Err && res.0->Err_0@ == "扫描仍在进行"@
                && res.1 == was_cleaning,
            ids@.len() > 0 && self.active_scan is None && was_cleaning ==> res.0 is Err && res.0->Err_0@
                == "清理已在进行"@ && res.1,
            ids@.len() > 0 && self.active_scan is None && !was_cleaning && self.session_at(scan_id@) is None
                ==> res.0 is Err && res.0->Err_0@ == "扫描会话已失效，请重新扫描"@ && !res.1,
            ids@.len() > 0 && self.active_scan is None && !was_cleaning && self.session_at(scan_id@) is Some ==> match picked(
                self.session_at(scan_id@)->0.candidates@,
                id_views(ids@),
                ids@.len() as int,
            ) {
                Ok(v) => res.0 is Ok && internal_views(res.0->Ok_0@) == v && res.1,
                Err(e) => res.0 is Err && res.0->Err_0@ == e && !res.1,
            },
    {
        if ids.len() == 0 {
            return (Err("请选择至少一个项目".to_string()), was_cleaning);
        }
        if self.active_scan.is_some() {
            return (Err("扫描仍在进行".to_string()), was_cleaning);
        }
        if was_cleaning {
            return (Err("清理已在进行".to_string()), true);
        }
        let k = match self.session_index(scan_id) {
            Some(k) => k,
            None => return (Err("扫描会话已失效，请重新扫描".to_string()), false),
        };
        proof {
            lemma_session_at_unique(self.sessions@, k as int);
        }
        let session = &self.sessions[k].1;
        let ghost cs = session.candidates@;
        assert(self.session_at(scan_id@) == Some(*session));
        let mut out: Vec<CandidateInternal> = Vec::new();
        let mut i: usize = 0;
        assert(internal_views(out@) =~= Seq::<CandidateInternalView>::empty());
        while i < ids.len()
            invariant
                i <= ids.len(),
                cs == session.candidates@,
                self.session_at(scan_id@) == Some(*session),
                ids@.len() > 0,
                self.active_scan is None,
                !was_cleaning,
                picked(cs, id_views(ids@), i as int) == Ok::<Seq<CandidateInternalView>, Seq<char>>(internal_views(out@)),
            decreases ids.len() - i,
        {
            assert(id_views(ids@)[i as int] == ids@[i as int]@);
            match candidate_with_id(&session.candidates, &ids[i]) {
                Some(c) => {
                    let ghost before = out@;
                    out.push(c);
                    assert(internal_views(out@) =~= internal_views(before).push(c@));
                },
                None => {
                    let mut m = "未知候选：".to_string();
                    m.append(ids[i].as_str());
                    proof {
                        lemma_picked_error_sticks(cs, id_views(ids@), i + 1, ids@.len() as int);
                    }
                    return (Err(m), false);
                },
            }
            i = i + 1;
        }
        (Ok(out), true)
    }

    /// Where the finished scan `id` is kept.
    fn session_index(&self, id: &str) -> (res: Option<usize>)
        ensures
            match res {
                Some(k) => k < self.sessions@.len() && self.sessions@[k as int].0@ == id@,
                None => !has_session(self.sessions@, id@),
            },
    {
        let mut k: usize = 0;
        while k < self.sessions.len()
            invariant
                k <= self.sessions.len(),
                forall|j: int| 0 <= j < k ==> self.sessions@[j].0@ != id@,
            decreases self.sessions.len() - k,
        {
            if str_is(self.sessions[k].0.as_str(), id) {
                return Some(k);
            }
            k = k + 1;
        }
        assert(!has_session(self.sessions@, id@)) by {
            if has_session(self.sessions@, id@) {
                let a = choose|a: int| 0 <= a < session_ids(self.sessions@).len() && session_ids(self.sessions@)[a] == id@;
                assert(self.sessions@[a].0@ == id@);
            }
        }
        None
    }

    /// After a clean: the scan it came from is forgotten and the scan made afterwards
    /// is kept under its own id.
    pub fn complete_clean(&mut self, scan_id: &str, refreshed: ScanSession)
        requires
            old(self).wf(),
        ensures
            final(self).wf(),
            final(self).active_scan == old(self).active_scan,
            final(self).session_at(refreshed.report.scan_id@) == Some(refreshed),
            refreshed.report.scan_id@ != scan_id@ ==> final(self).session_at(scan_id@) is None,
            forall|k: Seq<char>| k != scan_id@ && k != refreshed.report.scan_id@ ==> final(self).session_at(k)
                == old(self).session_at(k),
    {
        self.drop_session(scan_id);
        let id = refreshed.report.scan_id.clone();
        self.keep_session(id, refreshed);
    }
}

proof fn lemma_picked_error_sticks(s: Seq<CandidateInternal>, ids: Seq<Seq<char>>, n: int, m: int)
    requires
        1 <= n <= m,
        picked(s, ids, n) is Err,
    ensures
        picked(s, ids, m) == picked(s, ids, n),
    decreases m - n,
{
    if n < m {
        lemma_picked_error_sticks(s, ids, n, m - 1);
    }
}

/// The message prefix when the size of the trash cannot be read.
pub open spec fn trash_unreadable() -> Seq<char> {
    "无法读取系统废纸篓："@
}

/// The size of the trash, or why it could not be read.
pub fn trash_size(measured: Result<u64, String>) -> (res: SizeMeasurement)
    ensures
        match measured {
            Ok(b) => res.bytes == Some(b) && res.error is None,
            Err(e) => res.bytes is None && res.error is Some && res.error->0@ == trash_unreadable() + e@,
        },
{
    match measured {
        Ok(bytes) => SizeMeasurement { bytes: Some(bytes), error: None },
        Err(error) => {
            let mut m = "无法读取系统废纸篓：".to_string();
            m.append(error.as_str());
            SizeMeasurement { bytes: None, error: Some(m) }
        },
    }
}

} // verus!

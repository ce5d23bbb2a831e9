//! The values that a scan and a clean produce and hand around.
use vstd::prelude::*;

verus! {

/// How much care a candidate needs before it is moved to the trash.
#[derive(Debug, Clone, Copy, PartialEq, Eq, Hash, PartialOrd, Ord, Structural)]
pub enum Risk {
    Low,
    Review,
}

impl Risk {
    /// The place of a risk in `Risk`'s order: `Low` before `Review`.
    pub open spec fn rank(self) -> nat {
        match self {
            Risk::Low => 0,
            Risk::Review => 1,
        }
    }

    /// The place of this risk in `Risk`'s order.
    pub fn rank_of(self) -> (res: u8)
        ensures
            res == self.rank(),
    {
        match self {
            Risk::Low => 0,
            Risk::Review => 1,
        }
    }
}

/// What kind of space a candidate takes.
#[derive(Debug, Clone, Copy, PartialEq, Eq, Hash, PartialOrd, Ord, Structural)]
pub enum Category {
    ApplicationCaches,
    DeveloperCaches,
    ProjectDependencies,
    Logs,
    CrashReports,
    DownloadLeftovers,
    Other,
}

impl Category {
    /// The position in which categories are listed.
    pub open spec fn rank(self) -> u8 {
        match self {
            Category::ApplicationCaches => 0,
            Category::DeveloperCaches => 1,
            Category::ProjectDependencies => 2,
            Category::Logs => 3,
            Category::CrashReports => 4,
            Category::DownloadLeftovers => 5,
            Category::Other => 6,
        }
    }

    /// The position in which categories are listed: application caches first,
    /// everything else last.
    pub fn order(self) -> (res: u8)
        ensures
            res == self.rank(),
            res <= 6,
    {
        match self {
            Category::ApplicationCaches => 0,
            Category::DeveloperCaches => 1,
            Category::ProjectDependencies => 2,
            Category::Logs => 3,
            Category::CrashReports => 4,
            Category::DownloadLeftovers => 5,
            Category::Other => 6,
        }
    }
}

/// A candidate as the user sees it.
#[derive(Debug, Clone, PartialEq)]
pub struct Candidate {
    pub id: String,
    pub plugin: String,
    pub category: Category,
    pub risk: Risk,
    pub path: String,
    pub size_bytes: u64,
    pub modified_at: i64,
    pub reason: String,
    pub action: String,
}

/// The contents of a `Candidate`, with its strings as character sequences.
pub struct CandidateView {
    pub id: Seq<char>,
    pub plugin: Seq<char>,
    pub category: Category,
    pub risk: Risk,
    pub path: Seq<char>,
    pub size_bytes: u64,
    pub modified_at: i64,
    pub reason: Seq<char>,
    pub action: Seq<char>,
}

impl View for Candidate {
    type V = CandidateView;

    open spec fn view(&self) -> CandidateView {
        CandidateView {
            id: self.id@,
            plugin: self.plugin@,
            category: self.category,
            risk: self.risk,
            path: self.path@,
            size_bytes: self.size_bytes,
            modified_at: self.modified_at,
            reason: self.reason@,
            action: self.action@,
        }
    }
}

impl Candidate {
    /// A copy with the same contents.
    pub fn duplicate(&self) -> (res: Candidate)
        ensures
            res@ == self@,
    {
        Candidate {
            id: self.id.clone(),
            plugin: self.plugin.clone(),
            category: self.category,
            risk: self.risk,
            path: self.path.clone(),
            size_bytes: self.size_bytes,
            modified_at: self.modified_at,
            reason: self.reason.clone(),
            action: self.action.clone(),
        }
    }
}

/// What a candidate looked like when it was found: the identity of its root and a
/// digest over the metadata of everything below it.
#[derive(Debug, Clone)]
pub struct Snapshot {
    pub device: u64,
    pub inode: u64,
    pub mode: u32,
    pub size: u64,
    pub digest: String,
}

/// The contents of a `Snapshot`.
pub struct SnapshotView {
    pub device: u64,
    pub inode: u64,
    pub mode: u32,
    pub size: u64,
    pub digest: Seq<char>,
}

impl View for Snapshot {
    type V = SnapshotView;

    open spec fn view(&self) -> SnapshotView {
        SnapshotView {
            device: self.device,
            inode: self.inode,
            mode: self.mode,
            size: self.size,
            digest: self.digest@,
        }
    }
}

impl Snapshot {
    /// A copy with the same contents.
    pub fn duplicate(&self) -> (res: Snapshot)
        ensures
            res@ == self@,
    {
        Snapshot {
            device: self.device,
            inode: self.inode,
            mode: self.mode,
            size: self.size,
            digest: self.digest.clone(),
        }
    }
}

/// A candidate together with what is needed to check it again before it is moved.
#[derive(Debug, Clone)]
pub struct CandidateInternal {
    pub public: Candidate,
    pub snapshot: Snapshot,
    pub path: String,
}

/// The contents of a `CandidateInternal`.
pub struct CandidateInternalView {
    pub public: CandidateView,
    pub snapshot: SnapshotView,
    pub path: Seq<char>,
}

impl View for CandidateInternal {
    type V = CandidateInternalView;

    open spec fn view(&self) -> CandidateInternalView {
        CandidateInternalView { public: self.public@, snapshot: self.snapshot@, path: self.path@ }
    }
}

impl CandidateInternal {
    /// A copy with the same contents.
    pub fn duplicate(&self) -> (res: CandidateInternal)
        ensures
            res@ == self@,
    {
        CandidateInternal {
            public: self.public.duplicate(),
            snapshot: self.snapshot.duplicate(),
            path: self.path.clone(),
        }
    }
}

/// Capacity and free space of a file system.
#[derive(Debug, Clone, PartialEq)]
pub struct DiskStats {
    pub total_bytes: u64,
    pub free_bytes: u64,
}

/// What a finished scan reports.
#[derive(Debug, Clone, PartialEq)]
pub struct ScanReport {
    pub scan_id: String,
    pub generated_at: String,
    pub disk: DiskStats,
    pub candidates: Vec<Candidate>,
    pub warnings: Vec<String>,
}

/// The contents of a `ScanReport`.
pub struct ScanReportView {
    pub scan_id: Seq<char>,
    pub generated_at: Seq<char>,
    pub total_bytes: u64,
    pub free_bytes: u64,
    pub candidates: Seq<CandidateView>,
    pub warnings: Seq<Seq<char>>,
}

impl View for ScanReport {
    type V = ScanReportView;

    open spec fn view(&self) -> ScanReportView {
        ScanReportView {
            scan_id: self.scan_id@,
            generated_at: self.generated_at@,
            total_bytes: self.disk.total_bytes,
            free_bytes: self.disk.free_bytes,
            candidates: self.candidates@.map_values(|c: Candidate| c@),
            warnings: self.warnings@.map_values(|w: String| w@),
        }
    }
}

impl ScanReport {
    /// A copy with the same contents.
    pub fn duplicate(&self) -> (res: ScanReport)
        ensures
            res@ == self@,
    {
        let mut candidates: Vec<Candidate> = Vec::new();
        let mut i: usize = 0;
        while i < self.candidates.len()
            invariant
                i <= self.candidates.len(),
                candidates@.len() == i,
                forall|k: int| 0 <= k < i ==> #[trigger] candidates@[k]@ == self.candidates@[k]@,
            decreases self.candidates.len() - i,
        {
            candidates.push(self.candidates[i].duplicate());
            i = i + 1;
        }
        assert(candidates@.map_values(|c: Candidate| c@) =~= self.candidates@.map_values(|c: Candidate| c@));
        let mut warnings: Vec<String> = Vec::new();
        let mut j: usize = 0;
        while j < self.warnings.len()
            invariant
                j <= self.warnings.len(),
                warnings@.len() == j,
                forall|k: int| 0 <= k < j ==> #[trigger] warnings@[k]@ == self.warnings@[k]@,
            decreases self.warnings.len() - j,
        {
            warnings.push(self.warnings[j].clone());
            j = j + 1;
        }
        assert(warnings@.map_values(|w: String| w@) =~= self.warnings@.map_values(|w: String| w@));
        ScanReport {
            scan_id: self.scan_id.clone(),
            generated_at: self.generated_at.clone(),
            disk: DiskStats { total_bytes: self.disk.total_bytes, free_bytes: self.disk.free_bytes },
            candidates,
            warnings,
        }
    }
}

/// A finished scan: its report and the candidates that may be cleaned, by id.
#[derive(Debug, Clone)]
pub struct ScanSession {
    pub report: ScanReport,
    pub candidates: Vec<CandidateInternal>,
}

/// What a scan tells its caller while it runs.
#[derive(Debug, Clone)]
pub enum ScanEvent {
    Started { scan_id: String },
    Progress { plugin: String, path: String, found: usize, bytes: u64 },
    Completed { report: ScanReport },
    Cancelled { scan_id: String },
    Failed { scan_id: String, message: String },
}

/// What a clean tells its caller while it runs.
#[derive(Debug, Clone)]
pub enum CleanEvent {
    Started { total: usize },
    ItemCompleted { id: String, success: bool, message: String },
    Rescanning,
    Completed,
}

/// A candidate that could not be moved, and why.
#[derive(Debug, Clone, PartialEq)]
pub struct CleanFailure {
    pub id: String,
    pub path: String,
    pub message: String,
    pub size_bytes: u64,
}

/// The contents of a `CleanFailure`.
pub struct CleanFailureView {
    pub id: Seq<char>,
    pub path: Seq<char>,
    pub message: Seq<char>,
    pub size_bytes: u64,
}

impl View for CleanFailure {
    type V = CleanFailureView;

    open spec fn view(&self) -> CleanFailureView {
        CleanFailureView {
            id: self.id@,
            path: self.path@,
            message: self.message@,
            size_bytes: self.size_bytes,
        }
    }
}

/// What a clean reports: what moved, what failed, and the space before and after.
#[derive(Debug, Clone, PartialEq)]
pub struct CleanReport {
    pub moved_count: usize,
    pub moved_bytes: u64,
    pub failed_bytes: u64,
    pub failures: Vec<CleanFailure>,
    pub free_before: u64,
    pub free_after: u64,
    pub trash_before: u64,
    pub trash_after: u64,
    pub refreshed_scan: ScanReport,
}

/// Options of a scan request: project roots that replace the saved ones.
#[derive(Debug, Clone, Default)]
pub struct ScanOptions {
    pub project_roots: Option<Vec<String>>,
}

/// The size of a directory, or why it could not be measured.
#[derive(Debug, Clone, PartialEq)]
pub struct SizeMeasurement {
    pub bytes: Option<u64>,
    pub error: Option<String>,
}

} // verus!

use cleandisk::model::{Candidate, CandidateInternal, Category, DiskStats, Risk, ScanEvent, Snapshot};
use cleandisk::plugins::raw;
use cleandisk::scanner::{
    admit_candidate_path, check_cancelled, make_candidate, revalidate, revalidate_contents,
    revalidate_location, ScanState,
};

fn snap(size: u64, digest: &str) -> Snapshot {
    Snapshot { device: 1, inode: 7, mode: 0o40755, size, digest: digest.to_string() }
}

fn candidate(path: &str, size: u64, risk: Risk, category: Category) -> CandidateInternal {
    CandidateInternal {
        public: Candidate {
            id: format!("id-{path}"),
            plugin: "fixed".into(),
            category,
            risk,
            path: path.into(),
            size_bytes: size,
            modified_at: 0,
            reason: "test".into(),
            action: "move_to_trash".into(),
        },
        snapshot: snap(size, "d"),
        path: path.into(),
    }
}

fn absorb(state: &mut ScanState, c: CandidateInternal) -> ScanEvent {
    assert!(state.can_absorb(&c));
    state.absorb(c, "fixed")
}

#[test]
fn cancelled_scan_stops_before_plugins() {
    assert_eq!(check_cancelled(true).unwrap_err(), "__cancelled__");
    assert!(check_cancelled(false).is_ok());
}

#[test]
fn plugin_failure_becomes_warning() {
    let mut state = ScanState::new();
    state.record_failure("broken", "boom");
    let session = state.finish("id".into(), "now".into(), DiskStats { total_bytes: 0, free_bytes: 0 });
    assert_eq!(session.report.warnings, vec!["broken: boom"]);
    assert!(session.report.candidates.is_empty());
}

#[test]
fn candidates_sort_by_risk_category_then_size_descending() {
    let mut state = ScanState::new();
    absorb(&mut state, candidate("/h/a", 10, Risk::Low, Category::Other));
    absorb(&mut state, candidate("/h/b", 20, Risk::Low, Category::Other));
    absorb(&mut state, candidate("/h/c", 99, Risk::Review, Category::ApplicationCaches));
    absorb(&mut state, candidate("/h/d", 5, Risk::Low, Category::Logs));
    absorb(&mut state, candidate("/h/e", 5, Risk::Low, Category::Logs));
    let session = state.finish("id".into(), "now".into(), DiskStats { total_bytes: 1, free_bytes: 2 });
    let order: Vec<&str> = session.report.candidates.iter().map(|c| c.path.as_str()).collect();
    assert_eq!(order, vec!["/h/d", "/h/e", "/h/b", "/h/a", "/h/c"]);
    let sizes: Vec<u64> = session.candidates.iter().map(|c| c.public.size_bytes).collect();
    assert_eq!(sizes, vec![5, 5, 20, 10, 99]);
}

#[test]
fn overlapping_candidates_are_merged() {
    let mut state = ScanState::new();
    absorb(&mut state, candidate("/h/cache/a", 10, Risk::Low, Category::Other));
    absorb(&mut state, candidate("/h/cache/b", 20, Risk::Low, Category::Other));
    assert_eq!(state.total_bytes, 30);
    // A parent of what was found replaces it.
    let ev = absorb(&mut state, candidate("/h/cache", 50, Risk::Low, Category::Other));
    match ev {
        ScanEvent::Progress { plugin, path, found, bytes } => {
            assert_eq!(plugin, "fixed");
            assert_eq!(path, "/h/cache");
            assert_eq!(found, 1);
            assert_eq!(bytes, 50);
        }
        _ => panic!("expected progress"),
    }
    // Something inside what was found is dropped.
    absorb(&mut state, candidate("/h/cache/c", 7, Risk::Low, Category::Other));
    assert_eq!(state.found.len(), 1);
    assert_eq!(state.total_bytes, 50);
    // The same path again is taken in its place.
    absorb(&mut state, candidate("/h/cache/", 60, Risk::Low, Category::Other));
    assert_eq!(state.found.len(), 1);
    assert_eq!(state.total_bytes, 60);
    // A sibling with a longer name does not overlap.
    absorb(&mut state, candidate("/h/cache2", 1, Risk::Low, Category::Other));
    assert_eq!(state.found.len(), 2);
    assert_eq!(state.total_bytes, 61);
}

#[test]
fn candidate_id_is_digest_prefix() {
    let r = raw("fixed", Category::Other, Risk::Low, "/home/u/a".into(), "test".into());
    let c = make_candidate(r, "/home/u/a".into(), Some(snap(3, "x")), Some(42)).unwrap();
    assert_eq!(c.public.id, "aab793c3c6b2");
    assert_eq!(c.public.path, "/home/u/a");
    assert_eq!(c.path, "/home/u/a");
    assert_eq!(c.public.size_bytes, 3);
    assert_eq!(c.public.modified_at, 42);
    assert_eq!(c.public.action, "move_to_trash");
    assert_eq!(c.public.reason, "test");
}

#[test]
fn empty_or_unmeasured_candidates_are_dropped() {
    let r = || raw("fixed", Category::Other, Risk::Low, "/h/a".into(), "t".into());
    assert!(make_candidate(r(), "/h/a".into(), Some(snap(0, "x")), Some(1)).is_none());
    assert!(make_candidate(r(), "/h/a".into(), None, Some(1)).is_none());
    assert!(make_candidate(r(), "/h/a".into(), Some(snap(1, "x")), None).is_none());
}

#[test]
fn admission_refuses_links_and_sensitive_paths() {
    let home = Some("/Users/me".to_string());
    assert_eq!(
        admit_candidate_path(false, Some("/Users/me/Library/Caches/x".into()), home.clone()),
        Some("/Users/me/Library/Caches/x".to_string())
    );
    assert_eq!(admit_candidate_path(true, Some("/Users/me/x".into()), home.clone()), None);
    assert_eq!(admit_candidate_path(false, Some("/Users/me/.gnupg/x".into()), home.clone()), None);
    assert_eq!(admit_candidate_path(false, Some("/private/tmp/x".into()), home.clone()), None);
    assert_eq!(admit_candidate_path(false, None, home), None);
}

#[test]
fn changed_candidate_is_refused() {
    let c = candidate("/Users/me/x", 6, Risk::Low, Category::Other);
    let ok = |s: &str| Ok::<String, String>(s.to_string());
    assert!(revalidate_location(&c, ok("/Users/me"), ok("/Users/me/x"), false).is_ok());
    assert_eq!(
        revalidate_location(&c, ok("/Users/me"), ok("/Users/me/x"), true).unwrap_err(),
        "路径越界、敏感或为符号链接"
    );
    assert_eq!(
        revalidate_location(&c, ok("/Users/me"), ok("/Users/me/y"), false).unwrap_err(),
        "路径越界、敏感或为符号链接"
    );
    assert_eq!(
        revalidate_location(&c, Err("no home".into()), ok("/Users/me/x"), false).unwrap_err(),
        "no home"
    );
    assert!(revalidate_contents(&c, Ok(snap(6, "d")), Ok(1)).is_ok());
    let mut moved = snap(6, "d");
    moved.inode = 8;
    let err = revalidate_contents(&c, Ok(moved), Ok(1)).unwrap_err();
    assert!(err.contains("变化"));
    assert_eq!(err, "文件身份在扫描后发生变化");
    let err = revalidate_contents(&c, Ok(snap(6, "other")), Ok(1)).unwrap_err();
    assert_eq!(err, "内容在扫描后发生变化");
    let err = revalidate_contents(&c, Ok(snap(6, "d")), Ok(2)).unwrap_err();
    assert_eq!(err, "候选与废纸篓不在同一文件系统");
    let err = revalidate_contents(&c, Err("gone".into()), Ok(1)).unwrap_err();
    assert_eq!(err, "gone");
}

#[test]
fn revalidation_checks_location_then_contents() {
    let c = candidate("/Users/me/x", 6, Risk::Low, Category::Other);
    let ok = |s: &str| Ok::<String, String>(s.to_string());
    assert!(revalidate(&c, ok("/Users/me"), ok("/Users/me/x"), false, Ok(snap(6, "d")), Ok(1)).is_ok());
    assert_eq!(
        revalidate(&c, ok("/Users/me"), ok("/Users/me/x"), true, Ok(snap(6, "other")), Ok(1)).unwrap_err(),
        "路径越界、敏感或为符号链接"
    );
    assert_eq!(
        revalidate(&c, ok("/Users/me"), ok("/Users/me/x"), false, Ok(snap(6, "other")), Ok(1)).unwrap_err(),
        "内容在扫描后发生变化"
    );
}

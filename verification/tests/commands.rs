use cleandisk::commands::{trash_size, InnerState};
use cleandisk::model::{Candidate, CandidateInternal, Category, DiskStats, Risk, ScanEvent, ScanReport, ScanSession, Snapshot};

fn candidate(id: &str) -> CandidateInternal {
    CandidateInternal {
        public: Candidate {
            id: id.into(),
            plugin: "p".into(),
            category: Category::Other,
            risk: Risk::Low,
            path: format!("/h/{id}"),
            size_bytes: 1,
            modified_at: 0,
            reason: "r".into(),
            action: "move_to_trash".into(),
        },
        snapshot: Snapshot { device: 1, inode: 1, mode: 0, size: 1, digest: "d".into() },
        path: format!("/h/{id}"),
    }
}

fn session(id: &str, ids: &[&str]) -> ScanSession {
    ScanSession {
        report: ScanReport {
            scan_id: id.into(),
            generated_at: "now".into(),
            disk: DiskStats { total_bytes: 0, free_bytes: 0 },
            candidates: vec![],
            warnings: vec![],
        },
        candidates: ids.iter().map(|i| candidate(i)).collect(),
    }
}

#[test]
fn one_scan_at_a_time() {
    let mut state = InnerState::new();
    assert!(state.scan_allowed(false).is_ok());
    assert_eq!(state.scan_allowed(true).unwrap_err(), "清理正在进行");
    state.start_scan("s1".into());
    assert_eq!(state.scan_allowed(false).unwrap_err(), "已有扫描正在进行");
    assert_eq!(state.settings_change_allowed(false).unwrap_err(), "扫描或清理期间不能修改设置");
    assert_eq!(state.cancel_allowed("s2").unwrap_err(), "扫描会话不匹配");
    assert!(state.cancel_allowed("s1").is_ok());
    match state.finish_scan("s1".into(), Err("__cancelled__".into())) {
        ScanEvent::Cancelled { scan_id } => assert_eq!(scan_id, "s1"),
        _ => panic!("expected cancelled"),
    }
    assert_eq!(state.cancel_allowed("s1").unwrap_err(), "没有活动扫描");
    assert!(state.settings_change_allowed(false).is_ok());
}

#[test]
fn scans_end_in_one_of_three_ways() {
    let mut state = InnerState::new();
    state.start_scan("s1".into());
    match state.finish_scan("s1".into(), Err("disk".into())) {
        ScanEvent::Failed { scan_id, message } => {
            assert_eq!(scan_id, "s1");
            assert_eq!(message, "disk");
        }
        _ => panic!("expected failed"),
    }
    state.start_scan("s2".into());
    match state.finish_scan("s2".into(), Ok(session("s2", &["a"]))) {
        ScanEvent::Completed { report } => assert_eq!(report.scan_id, "s2"),
        _ => panic!("expected completed"),
    }
    assert_eq!(state.sessions.len(), 1);
}

#[test]
fn cleans_take_only_known_candidates() {
    let mut state = InnerState::new();
    state.start_scan("s1".into());
    state.finish_scan("s1".into(), Ok(session("s1", &["a", "b"])));
    let (r, cleaning) = state.begin_clean(false, "s1", &vec![]);
    assert_eq!(r.unwrap_err(), "请选择至少一个项目");
    assert!(!cleaning);
    let (r, cleaning) = state.begin_clean(true, "s1", &vec!["a".into()]);
    assert_eq!(r.unwrap_err(), "清理已在进行");
    assert!(cleaning);
    let (r, cleaning) = state.begin_clean(false, "s9", &vec!["a".into()]);
    assert_eq!(r.unwrap_err(), "扫描会话已失效，请重新扫描");
    assert!(!cleaning);
    let (r, cleaning) = state.begin_clean(false, "s1", &vec!["b".into(), "zz".into()]);
    assert_eq!(r.unwrap_err(), "未知候选：zz");
    assert!(!cleaning);
    let (r, cleaning) = state.begin_clean(false, "s1", &vec!["b".into(), "a".into()]);
    let picked: Vec<String> = r.unwrap().iter().map(|c| c.public.id.clone()).collect();
    assert_eq!(picked, vec!["b", "a"]);
    assert!(cleaning);
    state.complete_clean("s1", session("s2", &["c"]));
    assert_eq!(state.sessions.len(), 1);
    assert_eq!(state.sessions[0].0, "s2");
    state.start_scan("s3".into());
    let (r, _) = state.begin_clean(false, "s2", &vec!["c".into()]);
    assert_eq!(r.unwrap_err(), "扫描仍在进行");
}

#[test]
fn trash_size_reports_errors() {
    let ok = trash_size(Ok(42));
    assert_eq!(ok.bytes, Some(42));
    assert_eq!(ok.error, None);
    let err = trash_size(Err("permission denied".into()));
    assert_eq!(err.bytes, None);
    assert_eq!(err.error.as_deref(), Some("无法读取系统废纸篓：permission denied"));
}

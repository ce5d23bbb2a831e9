use cleandisk::cleaner::{clean_action, CleanAction, CleanBatchOutcome};
use cleandisk::model::{Candidate, CandidateInternal, Category, CleanEvent, Risk, Snapshot};
use cleandisk::scanner::revalidate_contents;

fn candidate(id: &str, path: &str, size: u64) -> CandidateInternal {
    CandidateInternal {
        public: Candidate {
            id: id.into(),
            plugin: "test".into(),
            category: Category::Other,
            risk: Risk::Low,
            path: path.into(),
            size_bytes: size,
            modified_at: 0,
            reason: "test".into(),
            action: "move_to_trash".into(),
        },
        snapshot: Snapshot { device: 1, inode: 1, mode: 0o100644, size, digest: "d".into() },
        path: path.into(),
    }
}

fn record(o: &mut CleanBatchOutcome, c: &CandidateInternal, r: Result<(), String>) -> CleanEvent {
    assert!(o.can_record(c, &r));
    o.record(c, r)
}

#[test]
fn moves_only_selected_and_reports_partial_failure() {
    let first = candidate("a", "/t/first", 4);
    let second = candidate("b", "/t/second", 6);
    let mut outcome = CleanBatchOutcome::default();
    record(&mut outcome, &first, Ok(()));
    record(&mut outcome, &second, Err("模拟移动失败".into()));
    assert_eq!(outcome.moved_count, 1);
    assert_eq!(outcome.moved_bytes, 4);
    assert_eq!(outcome.failed_bytes, 6);
    assert_eq!(outcome.failures.len(), 1);
    assert_eq!(outcome.failures[0].id, "b");
    assert_eq!(outcome.failures[0].path, "/t/second");
    assert_eq!(outcome.failures[0].message, "模拟移动失败");
    assert_eq!(outcome.failures[0].size_bytes, 6);
}

#[test]
fn each_item_is_reported() {
    let c = candidate("x", "/t/x", 9);
    let mut outcome = CleanBatchOutcome::default();
    match record(&mut outcome, &c, Ok(())) {
        CleanEvent::ItemCompleted { id, success, message } => {
            assert_eq!(id, "x");
            assert!(success);
            assert_eq!(message, "已移入废纸篓");
        }
        _ => panic!("expected an item event"),
    }
    match record(&mut outcome, &c, Err("内容在扫描后发生变化".into())) {
        CleanEvent::ItemCompleted { id, success, message } => {
            assert_eq!(id, "x");
            assert!(!success);
            assert!(message.contains("变化"));
        }
        _ => panic!("expected an item event"),
    }
    assert_eq!(outcome.moved_count + outcome.failures.len(), 2);
    assert_eq!(outcome.moved_bytes + outcome.failed_bytes, 18);
}

#[test]
fn overflowing_counters_are_detected() {
    let c = candidate("x", "/t/x", u64::MAX);
    let mut outcome = CleanBatchOutcome::default();
    record(&mut outcome, &c, Ok(()));
    assert!(!outcome.can_record(&c, &Ok(())));
    assert!(outcome.can_record(&c, &Err("e".into())));
}

#[test]
fn changed_candidate_is_not_sent_to_backend() {
    let item = candidate("changed", "/t/changing", 6);
    let now = Snapshot { device: 1, inode: 1, mode: 0o100644, size: 13, digest: "after".into() };
    let checked = revalidate_contents(&item, Ok(now), Ok(1));
    assert!(checked.is_err());
    let mut outcome = CleanBatchOutcome::default();
    record(&mut outcome, &item, checked);
    assert_eq!(outcome.moved_count, 0);
    assert_eq!(outcome.failures.len(), 1);
    assert!(outcome.failures[0].message.contains("变化"));
    assert_eq!(outcome.moved_bytes, 0);
}

#[test]
fn only_checked_candidates_are_moved() {
    let item = candidate("a", "/t/a", 3);
    match clean_action(&item, Ok(())) {
        CleanAction::Move(path) => assert_eq!(path, "/t/a"),
        CleanAction::Skip(_) => panic!("a checked candidate moves"),
    }
    match clean_action(&item, Err("内容在扫描后发生变化".into())) {
        CleanAction::Skip(e) => assert_eq!(e, "内容在扫描后发生变化"),
        CleanAction::Move(_) => panic!("a changed candidate never moves"),
    }
}

use cleandisk::snapshot::{path_order, snapshot, EntryMeta, RootMeta, WalkEntry};
use cleandisk::text::Order;

fn meta(ino: u64, mode: u32, len: u64, ns: i64, is_file: bool) -> EntryMeta {
    EntryMeta { device: 1, inode: ino, mode, len, mtime_nsec: ns, is_file }
}

fn root() -> Result<RootMeta, String> {
    Ok(RootMeta { device: 1, inode: 2, mode: 0o40755, is_symlink: false })
}

fn listing() -> Vec<WalkEntry> {
    vec![
        WalkEntry { path: "/h/candidate/small".into(), meta: Ok(meta(3, 0o100644, 3, 7, true)) },
        WalkEntry { path: "/h/candidate".into(), meta: Ok(meta(2, 0o40755, 96, 5, false)) },
    ]
}

#[test]
fn snapshot_does_not_count_or_read_symlink_target() {
    let mut entries = listing();
    entries.push(WalkEntry { path: "/h/candidate/link".into(), meta: Ok(meta(4, 0o120755, 30, 0, false)) });
    let snap = snapshot("/h/candidate", root(), entries).unwrap();
    assert_eq!(snap.size, 3);
}

#[test]
fn snapshot_digest_covers_entries_in_path_order() {
    let snap = snapshot("/h/candidate", root(), listing()).unwrap();
    assert_eq!(snap.device, 1);
    assert_eq!(snap.inode, 2);
    assert_eq!(snap.mode, 0o40755);
    assert_eq!(snap.size, 3);
    assert_eq!(snap.digest, "12b7820b319b1998756baf2dc395f49e0a656570c6f5be85030f1bda89883b5b");
    let mut reversed = listing();
    reversed.reverse();
    assert_eq!(snapshot("/h/candidate", root(), reversed).unwrap().digest, snap.digest);
}

#[test]
fn snapshot_refuses_links_and_unreadable_entries() {
    let link = Ok(RootMeta { device: 1, inode: 2, mode: 0o120755, is_symlink: true });
    assert_eq!(snapshot("/h/c", link, vec![]).unwrap_err(), "候选根目录不能是符号链接");
    assert_eq!(snapshot("/h/c", Err("gone".into()), vec![]).unwrap_err(), "gone");
    let entries = vec![
        WalkEntry { path: "/h/c/b".into(), meta: Err("denied".into()) },
        WalkEntry { path: "/h/c/a".into(), meta: Err("busy".into()) },
    ];
    assert_eq!(snapshot("/h/c", root(), entries).unwrap_err(), "/h/c/a: busy");
}

#[test]
fn sizes_saturate() {
    let entries = vec![
        WalkEntry { path: "/h/c/a".into(), meta: Ok(meta(3, 0o100644, u64::MAX, 0, true)) },
        WalkEntry { path: "/h/c/b".into(), meta: Ok(meta(4, 0o100644, 5, 0, true)) },
    ];
    assert_eq!(snapshot("/h/c", root(), entries).unwrap().size, u64::MAX);
}

#[test]
fn paths_order_by_components() {
    assert_eq!(path_order("/a/b", "/a/b/c"), Order::Less);
    assert_eq!(path_order("/a-b", "/a/b"), Order::Greater);
    assert_eq!(path_order("/a/b", "/a-b"), Order::Less);
    assert_eq!(path_order("/a//b", "/a/b"), Order::Equal);
    assert_eq!(path_order("/a/..", "/a/b"), Order::Less);
}

use cleandisk::deps::{home_dependencies, home_dependency_paths, DependencyWalk, DirEntryInfo};
use cleandisk::model::{Category, Risk};
use cleandisk::paths::parent_of;
use cleandisk::plugins::{
    builtin_plugins, download_candidate, downloads_proposals, is_download_archive, newest_mtime,
    old_enough, ChildProbe, CleanerPlugin, DownloadProbe, ScanContext,
};
use cleandisk::vscode::{vscode_candidates, ExtensionDir};

fn ctx(now: i64) -> ScanContext {
    ScanContext { home: "/Users/me".into(), now, project_roots: vec![] }
}

#[test]
fn builtin_rules_in_order() {
    let ids: Vec<String> = builtin_plugins().iter().map(|p| p.id()).collect();
    assert_eq!(
        ids,
        vec![
            "user-caches",
            "developer-caches",
            "vscode-duplicates",
            "project-dependencies",
            "old-logs",
            "crash-reports",
            "download-archives"
        ]
    );
    match &builtin_plugins()[1] {
        CleanerPlugin::Simple(rule) => {
            assert_eq!(rule.roots.len(), 4);
            assert_eq!(rule.roots[3], ("Library/Developer/Xcode/DerivedData".to_string(), 14));
            assert_eq!(rule.category, Category::DeveloperCaches);
            assert!(rule.exclude.is_empty());
        }
        _ => panic!("expected a simple rule"),
    }
}

#[test]
fn cache_rule_leaves_browsers_and_secrets_alone() {
    let plugins = builtin_plugins();
    let CleanerPlugin::Simple(caches) = &plugins[0] else { panic!("expected a simple rule") };
    assert!(caches.skips("/Users/me/Library/Caches/com.apple.Safari"));
    assert!(caches.skips("/Users/me/Library/Caches/Google Chrome"));
    assert!(caches.skips("/Users/me/Library/Caches/com.1Password.x"));
    assert!(!caches.skips("/Users/me/Library/Caches/com.spotify.client"));
    let CleanerPlugin::Simple(logs) = &plugins[4] else { panic!("expected a simple rule") };
    assert!(logs.skips("/Users/me/Library/Logs/DiagnosticReports"));
    assert!(!logs.skips("/Users/me/Library/Logs/App"));
    let CleanerPlugin::Simple(crashes) = &plugins[5] else { panic!("expected a simple rule") };
    assert!(!crashes.skips("/Users/me/Library/Logs/DiagnosticReports"));
}

#[test]
fn simple_rule_reason_names_the_age() {
    let plugins = builtin_plugins();
    let CleanerPlugin::Simple(caches) = &plugins[0] else { panic!("expected a simple rule") };
    let r = caches.candidate("/Users/me/Library/Caches/x".into(), 30);
    assert_eq!(r.reason, "可由应用重新生成的用户缓存（超过 30 天未变化）");
    assert_eq!(r.plugin, "user-caches");
    assert_eq!(r.risk, Risk::Low);
    assert_eq!(r.category, Category::ApplicationCaches);
}

#[test]
fn age_is_measured_from_the_newest_entry() {
    assert_eq!(newest_mtime(Ok(10), &[Some(5), None, Some(30), Some(20)]), Ok(30));
    assert_eq!(newest_mtime(Ok(10), &[]), Ok(10));
    assert_eq!(newest_mtime(Err("gone".into()), &[Some(5)]), Err("gone".to_string()));
    let now = 100 * 86400;
    assert!(old_enough(&Ok(70 * 86400), &ctx(now), 30));
    assert!(!old_enough(&Ok(70 * 86400 + 1), &ctx(now), 30));
    assert!(!old_enough(&Err("x".into()), &ctx(now), 30));
}

#[test]
fn downloads_rule_takes_archives() {
    assert!(is_download_archive("/Users/me/Downloads/Setup.DMG"));
    assert!(is_download_archive("/Users/me/Downloads/a.tar.zip"));
    assert!(is_download_archive("/Users/me/Downloads/tool.pkg"));
    assert!(!is_download_archive("/Users/me/Downloads/notes.txt"));
    assert!(!is_download_archive("/Users/me/Downloads/.zip"));
    assert!(!is_download_archive("/Users/me/Downloads/zip"));
    let r = download_candidate("/Users/me/Downloads/a.zip".into());
    assert_eq!(r.risk, Risk::Review);
    assert_eq!(r.category, Category::DownloadLeftovers);
    assert_eq!(r.reason, "超过 30 天的安装包或压缩包，请确认不再需要");
}

fn ext(dir: &str, publisher: &str, version: &str, mtime: i64) -> ExtensionDir {
    ExtensionDir {
        path: format!("/Users/me/.vscode/extensions/{dir}"),
        manifest: Some(format!(
            r#"{{"publisher":"{publisher}","name":"tool","version":"{version}","__metadata":{{"targetPlatform":"darwin-arm64"}}}}"#
        )),
        mtime,
    }
}

#[test]
fn vscode_keeps_highest_and_marks_obsolete_old_version_low_risk() {
    let dirs = vec![ext("acme.tool-1.9.0", "acme", "1.9.0", 5), ext("acme.tool-1.10.0", "acme", "1.10.0", 1)];
    let found = vscode_candidates(&dirs, Some(r#"{"acme.tool-1.9.0":true}"#.into()));
    assert_eq!(found.len(), 1);
    assert!(found[0].path.ends_with("acme.tool-1.9.0"));
    assert_eq!(found[0].risk, Risk::Low);
    assert!(found[0].reason.contains("保留 1.10.0"));
    assert_eq!(
        found[0].reason,
        "VS Code 扩展 acme.tool 旧版本 1.9.0；保留 1.10.0（darwin-arm64），已标记 obsolete"
    );
}

#[test]
fn vscode_groups_by_case_insensitive_publisher_and_platform() {
    let dirs = vec![
        ext("a-1", "ACME", "1.0.0", 1),
        ext("a-2", "acme", "2.0.0", 1),
        ext("a-3", "acme", "2.0.0", 9),
        ExtensionDir { path: "/x/broken".into(), manifest: Some("not json".into()), mtime: 0 },
        ExtensionDir { path: "/x/none".into(), manifest: None, mtime: 0 },
        ExtensionDir {
            path: "/x/other".into(),
            manifest: Some(r#"{"publisher":"acme","name":"tool","version":"9.0.0"}"#.into()),
            mtime: 0,
        },
    ];
    let found = vscode_candidates(&dirs, None);
    let paths: Vec<&str> = found.iter().map(|r| r.path.as_str()).collect();
    assert_eq!(paths, vec!["/Users/me/.vscode/extensions/a-2", "/Users/me/.vscode/extensions/a-1"]);
    assert!(found.iter().all(|r| r.risk == Risk::Review));
    assert!(found[0].reason.ends_with("，请审查"));
    assert!(found[0].reason.contains("保留 2.0.0"));
}

#[test]
fn project_dependencies_are_review_only_and_do_not_follow_links() {
    let paths = home_dependency_paths("/Users/me");
    assert_eq!(paths, vec!["/Users/me/node_modules", "/Users/me/.venv", "/Users/me/venv"]);
    let home = home_dependencies("/Users/me", &[true, false, true]);
    assert_eq!(home.len(), 2);
    assert_eq!(home[1].reason, "用户目录直属依赖 venv，删除后需要重新安装");
    let mut walk = DependencyWalk::new("/p/Code");
    let (dir, depth) = walk.next().unwrap();
    assert!(DependencyWalk::should_read(depth, false));
    let entry = |name: &str, is_symlink: bool, is_dir: bool| DirEntryInfo {
        path: format!("{dir}/{name}"),
        name: name.into(),
        is_symlink,
        is_dir,
    };
    let found = walk.visit(
        depth,
        &[
            entry("app", false, true),
            entry(".venv", false, true),
            entry("linked", true, true),
            entry(".git", false, true),
            entry("node_modules", false, false),
        ],
    );
    assert_eq!(found.len(), 1);
    assert_eq!(found[0].path, "/p/Code/.venv");
    assert_eq!(found[0].reason, "项目 /p/Code 的 .venv，删除后需要重新安装依赖");
    assert!(found.iter().chain(home.iter()).all(|c| c.risk == Risk::Review));
    assert!(found.iter().all(|c| !c.path.contains("linked")));
    let (next, next_depth) = walk.next().unwrap();
    assert_eq!(next, "/p/Code/app");
    assert_eq!(next_depth, 1);
    assert!(walk.next().is_none());
    assert!(!DependencyWalk::should_read(8, false));
    assert!(!DependencyWalk::should_read(0, true));
}

#[test]
fn dependency_reason_names_the_parent_directory() {
    let mut walk = DependencyWalk::new("/p/Code/");
    let (dir, depth) = walk.next().unwrap();
    assert_eq!(dir, "/p/Code/");
    let found = walk.visit(
        depth,
        &[DirEntryInfo {
            path: "/p/Code/node_modules".into(),
            name: "node_modules".into(),
            is_symlink: false,
            is_dir: true,
        }],
    );
    assert_eq!(found[0].reason, "项目 /p/Code 的 node_modules，删除后需要重新安装依赖");
    assert_eq!(parent_of("/p/Code/./app/"), Some("/p/Code".to_string()));
    assert_eq!(parent_of("app"), Some(String::new()));
    assert_eq!(parent_of("/"), None);
}

fn child(path: &str, newest: Result<i64, String>, cancelled: bool) -> ChildProbe {
    ChildProbe { path: path.into(), newest, cancelled }
}

#[test]
fn simple_rule_proposes_old_entries_until_cancelled() {
    let plugins = builtin_plugins();
    let CleanerPlugin::Simple(caches) = &plugins[0] else { panic!("expected a simple rule") };
    let now = 100 * 86400;
    let listing = vec![
        child("/Users/me/Library/Caches/old", Ok(10 * 86400), false),
        child("/Users/me/Library/Caches/new", Ok(90 * 86400), false),
        child("/Users/me/Library/Caches/Google Chrome", Ok(0), false),
        child("/Users/me/Library/Caches/gone", Err("x".into()), false),
        child("/Users/me/Library/Caches/late", Ok(0), true),
        child("/Users/me/Library/Caches/later", Ok(0), false),
    ];
    let found = caches.propose(now, &[listing]);
    assert_eq!(found.len(), 1);
    assert_eq!(found[0].path, "/Users/me/Library/Caches/old");
    assert_eq!(found[0].reason, "可由应用重新生成的用户缓存（超过 30 天未变化）");
    let CleanerPlugin::Simple(dev) = &plugins[1] else { panic!("expected a simple rule") };
    let listings = vec![
        vec![child("/Users/me/.cache/a", Ok(0), false)],
        vec![],
        vec![],
        vec![child("/Users/me/Library/Developer/Xcode/DerivedData/b", Ok(80 * 86400), false)],
    ];
    let found = dev.propose(now, &listings);
    assert_eq!(found.len(), 2);
    assert!(found[1].reason.contains("超过 14 天"));
}

#[test]
fn downloads_rule_proposes_old_archive_files() {
    let now = 100 * 86400;
    let probe = |path: &str, is_file: bool, newest: Result<i64, String>| DownloadProbe {
        path: path.into(),
        is_file,
        newest,
    };
    let found = downloads_proposals(
        now,
        &[
            probe("/Users/me/Downloads/a.zip", true, Ok(0)),
            probe("/Users/me/Downloads/b.zip", true, Ok(99 * 86400)),
            probe("/Users/me/Downloads/c.txt", true, Ok(0)),
            probe("/Users/me/Downloads/d.dmg", false, Ok(0)),
            probe("/Users/me/Downloads/e.PKG", true, Ok(0)),
            probe("/Users/me/Downloads/f.pkg", true, Err("x".into())),
        ],
    );
    let paths: Vec<&str> = found.iter().map(|r| r.path.as_str()).collect();
    assert_eq!(paths, vec!["/Users/me/Downloads/a.zip", "/Users/me/Downloads/e.PKG"]);
    assert!(found.iter().all(|r| r.plugin == "download-archives" && r.risk == Risk::Review));
}

#[test]
fn vscode_lists_each_group_newest_first() {
    let other = |dir: &str, version: &str| ExtensionDir {
        path: format!("/Users/me/.vscode/extensions/{dir}"),
        manifest: Some(format!(r#"{{"publisher":"zed","name":"lint","version":"{version}"}}"#)),
        mtime: 0,
    };
    let dirs = vec![
        other("z-1", "1.0.0"),
        ext("a-1", "acme", "1.0.0", 1),
        ext("a-3", "acme", "3.0.0", 1),
        other("z-2", "2.0.0"),
        ext("a-2", "acme", "2.0.0", 1),
        ext("a-2b", "acme", "2.0.0", 1),
    ];
    let found = vscode_candidates(&dirs, None);
    let paths: Vec<&str> = found.iter().map(|r| r.path.rsplit('/').next().unwrap()).collect();
    assert_eq!(paths, vec!["z-1", "a-2", "a-2b", "a-1"]);
    assert!(found[1].reason.contains("保留 3.0.0"));
    assert!(found[0].reason.contains("保留 2.0.0（universal）"));
}

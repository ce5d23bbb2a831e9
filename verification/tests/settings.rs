use cleandisk::settings::{default_root_paths, defaults, validate_roots, RootProbe};

fn present(path: &str) -> RootProbe {
    RootProbe { is_symlink: Ok(false), canonical: Ok(path.into()), device: Ok(1) }
}

#[test]
fn validates_deduplicates_and_sorts_roots() {
    let result = validate_roots(
        Ok("/h".into()),
        Ok(1),
        vec!["/h/B".into(), "/h/A".into(), "/h/./A".into()],
        vec![present("/h/B"), present("/h/A"), present("/h/A")],
    )
    .unwrap();
    assert_eq!(result.project_roots, vec!["/h/A", "/h/B"]);
}

#[test]
fn rejects_symlink_and_sensitive_roots() {
    let linked = RootProbe { is_symlink: Ok(true), canonical: Ok("/h/Code".into()), device: Ok(1) };
    assert!(validate_roots(Ok("/h".into()), Ok(1), vec!["/h/linked".into()], vec![linked])
        .unwrap_err()
        .contains("符号链接"));
    assert!(validate_roots(
        Ok("/h".into()),
        Ok(1),
        vec!["/h/Library/project".into()],
        vec![present("/h/Library/project")]
    )
    .unwrap_err()
    .contains("敏感"));
}

#[test]
fn roots_must_lie_inside_home_on_its_file_system() {
    let err = validate_roots(Ok("/h".into()), Ok(1), vec!["/h".into()], vec![present("/h")]).unwrap_err();
    assert_eq!(err, "项目目录必须位于用户目录内：/h");
    let err = validate_roots(Ok("/h".into()), Ok(1), vec!["/other".into()], vec![present("/other")]).unwrap_err();
    assert_eq!(err, "项目目录必须位于用户目录内：/other");
    let far = RootProbe { is_symlink: Ok(false), canonical: Ok("/h/ext".into()), device: Ok(2) };
    let err = validate_roots(Ok("/h".into()), Ok(1), vec!["/h/ext".into()], vec![far]).unwrap_err();
    assert_eq!(err, "项目目录必须与用户目录位于同一文件系统：/h/ext");
    let missing = RootProbe { is_symlink: Err("No such file".into()), canonical: Err("x".into()), device: Err("x".into()) };
    let err = validate_roots(Ok("/h".into()), Ok(1), vec!["/h/gone".into()], vec![missing]).unwrap_err();
    assert_eq!(err, "/h/gone: No such file");
    let err = validate_roots(Err("no home".into()), Ok(1), vec![], vec![]).unwrap_err();
    assert_eq!(err, "no home");
}

#[test]
fn first_refusal_wins() {
    let err = validate_roots(
        Ok("/h".into()),
        Ok(1),
        vec!["/h/ok".into(), "/h/.ssh/x".into(), "/x".into()],
        vec![present("/h/ok"), present("/h/.ssh/x"), present("/x")],
    )
    .unwrap_err();
    assert_eq!(err, "不允许扫描敏感目录：/h/.ssh/x");
}

#[test]
fn defaults_are_the_existing_default_roots() {
    assert_eq!(
        default_root_paths("/h"),
        vec!["/h/Code", "/h/Developer", "/h/Projects", "/h/workspace", "/h/work"]
    );
    let s = defaults("/h", &[true, false, false, true, false]);
    assert_eq!(s.project_roots, vec!["/h/Code", "/h/workspace"]);
}

use cleandisk::paths::{components_of, extension_of, file_name_of, join, paths_equal, starts_with};
use cleandisk::scanner::{is_offerable, is_sensitive};

fn text(v: &[char]) -> String {
    v.iter().collect()
}

#[test]
fn components_follow_path_rules() {
    let c: Vec<String> = components_of("/Users//me/./Code/").iter().map(|c| text(c)).collect();
    assert_eq!(c, vec!["/", "Users", "me", "Code"]);
    let r: Vec<String> = components_of("./a/../b").iter().map(|c| text(c)).collect();
    assert_eq!(r, vec![".", "a", "..", "b"]);
    assert!(components_of("").is_empty());
}

#[test]
fn starts_with_is_component_wise() {
    assert!(starts_with("/Users/me/Code/app", "/Users/me"));
    assert!(starts_with("/Users/me/", "/Users/me"));
    assert!(!starts_with("/Users/meow", "/Users/me"));
    assert!(!starts_with("Users/me", "/Users/me"));
    assert!(paths_equal("/a//b/", "/a/b"));
    assert!(!paths_equal("/a/b", "/a/c"));
}

#[test]
fn join_puts_one_separator() {
    assert_eq!(join("/Users/me", "Code"), "/Users/me/Code");
    assert_eq!(join("/Users/me/", "Code"), "/Users/me/Code");
    assert_eq!(join("/Users/me", "/etc"), "/etc");
    assert_eq!(join("", "Code"), "Code");
}

#[test]
fn file_names_and_extensions() {
    assert_eq!(file_name_of("/a/b.zip").map(|n| text(&n)), Some("b.zip".to_string()));
    assert_eq!(file_name_of("/a/.."), None);
    assert_eq!(file_name_of("/"), None);
    assert_eq!(extension_of(&"b.tar.gz".chars().collect::<Vec<_>>()).map(|e| text(&e)), Some("gz".to_string()));
    assert_eq!(extension_of(&".bashrc".chars().collect::<Vec<_>>()), None);
    assert_eq!(extension_of(&"a.".chars().collect::<Vec<_>>()).map(|e| text(&e)), Some(String::new()));
    assert_eq!(extension_of(&"noext".chars().collect::<Vec<_>>()), None);
}

#[test]
fn sensitive_paths_are_never_offered() {
    let home = "/Users/me";
    assert!(is_sensitive("/Users/me/.ssh/id", home));
    assert!(is_sensitive("/Users/me/Library/Application Support/x", home));
    assert!(is_sensitive("/tmp/x", home));
    assert!(!is_sensitive("/Users/me/Library/Caches/x", home));
    assert!(is_offerable("/Users/me/Library/Caches/x", home));
    assert!(!is_offerable("/Users/other/x", home));
    assert!(!is_sensitive("/Users/me/.sshx", home));
}

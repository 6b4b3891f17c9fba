use typo_scan::naming;
use typo_scan::text;

#[test]
fn test_matches_naming() {
    assert!(naming::matches_naming("good_name"));
    assert!(naming::matches_naming("file_2"));
    assert!(naming::matches_naming("a"));
    assert!(!naming::matches_naming("BadName"));
    assert!(!naming::matches_naming("UPPER"));
    assert!(!naming::matches_naming("has space"));
    assert!(!naming::matches_naming("dashed-name"));
    assert!(!naming::matches_naming(""));
}

#[test]
fn test_scan_names() {
    let names = vec![
        String::from("BadName"),
        String::from("good_name"),
        String::from("UPPER"),
        String::from("fine_2"),
    ];
    let issues = naming::scan_names(&names);
    assert_eq!(issues.len(), 2);
    assert_eq!(issues[0], "BadName");
    assert_eq!(issues[1], "UPPER");
}

#[test]
fn test_should_ignore_paths() {
    assert!(naming::should_ignore("/home/user/project/target/debug"));
    assert!(naming::should_ignore("a/node_modules/b"));
    assert!(naming::should_ignore("repo/.git"));
    assert!(naming::should_ignore("ide/.idea"));
    assert!(naming::should_ignore("ide/.vscode"));
    assert!(naming::should_ignore("out/dist"));
    assert!(naming::should_ignore("out/build"));
    assert!(!naming::should_ignore("/home/user/project/lib.rs"));
}

#[test]
fn test_is_text_file() {
    assert!(naming::is_text_file("rs"));
    assert!(naming::is_text_file("txt"));
    assert!(naming::is_text_file("TXT"));
    assert!(naming::is_text_file("Md"));
    assert!(!naming::is_text_file("exe"));
    assert!(!naming::is_text_file(""));
    assert!(!naming::is_text_file("rsx"));
}

#[test]
fn test_text_contains() {
    assert!(text::text_contains("found teh typo", "teh"));
    assert!(!text::text_contains("all fine here", "teh"));
    assert!(text::text_contains("anything", ""));
}

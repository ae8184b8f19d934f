use chak::ignore::glob_match;
use chak::ignore::is_ignored;
use chak::ignore::parse_gitignore;

fn lines(ls: &[&str]) -> Vec<String> {
    ls.iter().map(|l| l.to_string()).collect()
}

#[test]
fn parse_sorts_patterns() {
    let rules = parse_gitignore(&lines(&[
        "# comment",
        "",
        "  node_modules  ",
        "!keep.txt",
        "/build",
        "**/tmp",
        "*.log",
    ]));
    assert_eq!(rules.global_ignore, vec!["/build", "**/tmp"]);
    assert_eq!(rules.local_ignore, vec!["node_modules", "/build", "**/tmp", "*.log"]);
    assert_eq!(rules.exceptions, vec!["keep.txt"]);
}

#[test]
fn literal_and_glob_patterns_ignore() {
    let rules = parse_gitignore(&lines(&["node_modules/package-lock.json", "*.log", "!keep.log"]));
    assert!(is_ignored("node_modules/package-lock.json", &rules));
    assert!(is_ignored("debug.log", &rules));
    assert!(!is_ignored("keep.log", &rules));
    assert!(!is_ignored("src/main.rs", &rules));
}

#[test]
fn exceptions_win_over_global_patterns() {
    let rules = parse_gitignore(&lines(&["**/build", "!**/build"]));
    assert!(!is_ignored("x/build", &rules));
}

#[test]
fn invalid_patterns_match_nothing() {
    let rules = parse_gitignore(&lines(&["a***", "[abc"]));
    assert!(!is_ignored("a***", &rules));
    assert!(!is_ignored("[abc", &rules));
}

#[test]
fn literal_glob_matches_only_its_own_text() {
    assert!(glob_match("target/debug", "target/debug"));
    assert!(!glob_match("target/debug", "target/debug2"));
    assert!(!glob_match("target", "Target"));
    assert!(glob_match("*.rs", "main.rs"));
    assert!(!glob_match("[abc", "[abc"));
}

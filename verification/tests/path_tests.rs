use chak::path::get_relative_path;
use chak::path::join_path;
use chak::path::path_components;
use chak::path::path_eq;
use chak::path::render_components;
use chak::path::resolve_path;
use chak::path::resolve_path_from;
use chak::path::sort_by_component_count;
use chak::path::Component;

fn names(cs: &[Component]) -> Vec<String> {
    cs.iter()
        .map(|c| match c {
            Component::RootDir => "/".to_string(),
            Component::CurDir => ".".to_string(),
            Component::ParentDir => "..".to_string(),
            Component::Normal(n) => n.clone(),
        })
        .collect()
}

#[test]
fn components_follow_unix_paths() {
    assert_eq!(names(&path_components("/a//b/./c/")), vec!["/", "a", "b", "c"]);
    assert_eq!(names(&path_components("./a/../b")), vec![".", "a", "..", "b"]);
    assert_eq!(names(&path_components("a/.")), vec!["a"]);
    assert_eq!(names(&path_components(".")), vec!["."]);
    assert_eq!(names(&path_components("")), Vec::<String>::new());
    assert_eq!(names(&path_components("/")), vec!["/"]);
}

#[test]
fn render_joins_components() {
    let cs = path_components("/x/y");
    assert_eq!(render_components(&cs), "/x/y");
    let rel = path_components("./a//b/");
    assert_eq!(render_components(&rel), "./a/b");
}

#[test]
fn join_path_pushes() {
    assert_eq!(join_path("a", "b"), "a/b");
    assert_eq!(join_path("a/", "b"), "a/b");
    assert_eq!(join_path("", "b"), "b");
    assert_eq!(join_path("a", "/b"), "/b");
}

#[test]
fn path_eq_compares_components() {
    assert!(path_eq("a/b", "a//b/"));
    assert!(path_eq("a/./b", "a/b"));
    assert!(!path_eq("./a", "a"));
    assert!(!path_eq("/a", "a"));
}

#[test]
fn resolve_path_works_out_dots() {
    assert_eq!(resolve_path("../x/./y/../z"), "./x/z");
    assert_eq!(resolve_path("/home/user/../docs"), "/home/docs");
    assert_eq!(resolve_path("/.."), "/");
    assert_eq!(resolve_path("/a/b/./../c/"), "/a/c");
    assert_eq!(resolve_path("a/b/../../.."), "./");
    assert_eq!(resolve_path("./file.txt"), "./file.txt");
}

#[test]
fn resolve_path_twice_is_once() {
    let once = resolve_path("a/../b/./c/../../d/e");
    assert_eq!(resolve_path(&once), once);
}

#[test]
fn relative_path_is_kept() {
    assert_eq!(get_relative_path("./example/chak.ignore", "/home/u"), Some("./example/chak.ignore".to_string()));
}

#[test]
fn absolute_path_loses_its_base() {
    assert_eq!(
        get_relative_path("/home/user/project/file.txt", "/home/user"),
        Some("project/file.txt".to_string())
    );
    assert_eq!(get_relative_path("/home/user", "/home/user/"), Some("".to_string()));
    assert_eq!(get_relative_path("/home/userx/a", "/home/user"), None);
    assert_eq!(get_relative_path("/a/b", "a"), None);
}

#[test]
fn sort_orders_by_component_count() {
    let paths = vec![
        "a/b/c".to_string(),
        "x".to_string(),
        "/p/q".to_string(),
        "y/z".to_string(),
    ];
    let sorted = sort_by_component_count(&paths);
    assert_eq!(sorted, vec!["x", "y/z", "a/b/c", "/p/q"]);
}

#[test]
fn stripped_path_joins_back_onto_its_base() {
    let path = "/srv/data//repo/./src/main.rs";
    let base = "/srv/data";
    let rel = get_relative_path(path, base).unwrap();
    assert_eq!(rel, "repo/src/main.rs");
    assert!(path_eq(&join_path(base, &rel), path));
}

#[test]
fn joining_drops_a_leading_dot_of_the_pushed_path() {
    assert_eq!(join_path("a/b", "./c/d"), "a/b/./c/d");
    assert!(path_eq(&join_path("a/b", "./c/d"), "a/b/c/d"));
    assert!(path_eq(&join_path("a/b/", "c"), "a/b/c"));
}

#[test]
fn test_resolve_path() {
    let working_root = "/home/user/project";
    assert_eq!(resolve_path_from("../subdir", working_root), "/home/user/subdir");
    assert_eq!(resolve_path_from("./file.txt", working_root), "/home/user/project/file.txt");
}

#[test]
fn absolute_path_resolves_twice_as_once() {
    let once = resolve_path("/x/../y/./z/..");
    assert_eq!(once, "/y");
    assert_eq!(resolve_path(&once), once);
    assert_eq!(resolve_path_from("/etc/./hosts", "/home"), "/etc/hosts");
}

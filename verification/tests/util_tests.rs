use chak::error::ChakError;
use chak::error::IoKind;
use chak::hash_pointer::HashPointer;
use chak::init::init_vcs;
use chak::text::split_lines;
use chak::text::trim_str;
use chak::util::check_vcs_presence_in_dir;
use chak::util::normalize_input;
use chak::util::read_directory_entries;
use chak::util::save_or_create_file;
use chak::util::string_content_to_string_vec;
use chak::util::was_it_registered;
use chak::util::SearchStep;

#[test]
fn test_save_or_create() {
    let first = save_or_create_file(false, Some("i am"), false, None).unwrap();
    assert!(first.truncate);
    assert_eq!(first.data, "i am");
    let second = save_or_create_file(false, Some("i am"), true, Some("\n")).unwrap();
    assert!(!second.truncate);
    assert_eq!(second.data, "i am\n");
}

#[test]
fn saving_to_a_directory_is_refused() {
    match save_or_create_file(true, Some("x"), false, None) {
        Err(ChakError::IoError(f)) => {
            assert_eq!(f.kind, IoKind::IsADirectory);
            assert_eq!(f.message, "path is a directory, not a file");
        }
        other => panic!("unexpected {:?}", other),
    }
    let empty = save_or_create_file(false, None, true, Some("\n")).unwrap();
    assert_eq!(empty.data, "");
}

#[test]
fn trim_removes_unicode_white_space() {
    assert_eq!(trim_str("  \t a b \u{3000}\n"), "a b");
    assert_eq!(trim_str("   "), "");
    assert_eq!(trim_str("x"), "x");
}

#[test]
fn split_lines_like_str_lines() {
    assert_eq!(split_lines("a\r\nb\n\nc"), vec!["a", "b", "", "c"]);
    assert_eq!(split_lines("a\n"), vec!["a"]);
    assert_eq!(split_lines(""), Vec::<String>::new());
    assert_eq!(split_lines("x\r"), vec!["x\r"]);
    for s in ["a\r\nb\n\nc", "\n\n", "q\rw\n", "tail"] {
        assert_eq!(split_lines(s), s.lines().collect::<Vec<_>>());
    }
}

#[test]
fn content_to_trimmed_lines() {
    assert_eq!(string_content_to_string_vec("  a \r\nb\n\n c"), vec!["a", "b", "", "c"]);
}

#[test]
fn registered_pointer_is_the_first_line() {
    let p = HashPointer::from_hash_pointer_string("abcdef".to_string()).unwrap();
    assert!(was_it_registered(&p, &vec!["  abcdef ".to_string(), "zzz".to_string()]));
    assert!(!was_it_registered(&p, &vec!["zzz".to_string(), "abcdef".to_string()]));
    assert!(!was_it_registered(&p, &Vec::new()));
}

#[test]
fn vcs_search_steps() {
    assert!(matches!(check_vcs_presence_in_dir(true, Some("x".to_string())), SearchStep::Found));
    match check_vcs_presence_in_dir(false, Some("sub".to_string())) {
        SearchStep::Descend(d) => assert_eq!(d, "sub"),
        other => panic!("unexpected {:?}", other),
    }
    assert!(matches!(check_vcs_presence_in_dir(false, None), SearchStep::NotFound));
}

#[test]
fn directory_entries_split() {
    let (dirs, files) = read_directory_entries(vec![
        ("a".to_string(), true),
        ("b.txt".to_string(), false),
        ("c".to_string(), true),
    ]);
    assert_eq!(dirs, vec!["a", "c"]);
    assert_eq!(files, vec!["b.txt"]);
}

#[test]
fn typed_answers_are_normalized() {
    assert_eq!(normalize_input("  YeS \n"), "yes");
}

#[test]
fn new_repository_layout() {
    let l = init_vcs("/repo/.chak");
    assert_eq!(
        l.directories,
        vec!["/repo/.chak/store/blobs", "/repo/.chak/store/trees", "/repo/.chak/store/commits", "/repo/.chak/staging_area"]
    );
    assert_eq!(l.files[0].0, "/repo/.chak/staging_area");
    assert_eq!(l.files[0].1, "/repo/.chak/staging_area/staged_files.json");
    assert_eq!(l.files[1].1, "/repo/.chak/history/commits.log");
}

#[test]
fn trimming_twice_is_trimming_once() {
    for s in ["  a b  ", "\u{2003}x\t", "", " \n "] {
        let once = trim_str(s);
        assert_eq!(trim_str(&once), once);
    }
}

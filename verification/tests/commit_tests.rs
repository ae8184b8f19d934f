use chak::commit_pointer::append_commit_hash_pointer_to_commit_log_file;
use chak::commit_pointer::create_commit;
use chak::commit_pointer::finish_clear_stage;
use chak::commit_pointer::handle_command_commit;
use chak::commit_pointer::CommitPointer;
use chak::commit_pointer::CommitStep;
use chak::commit_pointer::RootTreePointer;
use chak::error::ChakError;
use chak::hash_pointer::HashPointer;
use chak::hash_pointer::HashPointerTraits;
use chak::commit::commit_record;
use chak::add::create_dir_snapshot;
use chak::text::split_lines;

fn tree(h: &str) -> RootTreePointer {
    RootTreePointer::own(&HashPointer::from_hash_pointer_string(h.to_string()).unwrap())
}

#[test]
fn commit_without_author_is_by_unknown() {
    let c = create_commit("msg".to_string(), None, tree("abcdef"));
    assert_eq!(c.author, "unknown");
    assert_eq!(c.message, "msg");
    assert_eq!(c.root_tree_pointer.get_one_hash(), "abcdef");
    let d = create_commit("m".to_string(), Some("me".to_string()), tree("abc"));
    assert_eq!(d.author, "me");
}

#[test]
fn commit_command_commits_the_latest_tree() {
    match handle_command_commit("first".to_string(), Some(vec![tree("aaa1"), tree("bbb2")])) {
        Ok(CommitStep::SaveCommit(c)) => {
            assert_eq!(c.message, "first");
            assert_eq!(c.author, "inxeoz");
            assert_eq!(c.root_tree_pointer.get_one_hash(), "bbb2");
        }
        other => panic!("unexpected {:?}", other),
    }
}

#[test]
fn commit_command_with_empty_stage_clears_it() {
    assert!(matches!(handle_command_commit("m".to_string(), Some(Vec::new())), Ok(CommitStep::ClearStage)));
    assert!(finish_clear_stage(true).is_ok());
    match finish_clear_stage(false) {
        Err(ChakError::CustomError(m)) => assert_eq!(m, "Failed to clear stage "),
        other => panic!("unexpected {:?}", other),
    }
}

#[test]
fn commit_command_without_stage_file_fails() {
    match handle_command_commit("m".to_string(), None) {
        Err(ChakError::CustomError(m)) => assert_eq!(m, "No stage file"),
        other => panic!("unexpected {:?}", other),
    }
}

#[test]
fn commit_log_entry_is_hash_and_newline() {
    let p = CommitPointer::own(&HashPointer::from_hash_pointer_string("abcdef".to_string()).unwrap());
    assert_eq!(append_commit_hash_pointer_to_commit_log_file(&p), "abcdef\n");
    assert_eq!(p.get_path(), "ab/cdef");
}

#[test]
fn latest_commit_is_the_last_log_line() {
    let log = vec!["abc111".to_string(), "".to_string(), "def222".to_string()];
    let p = CommitPointer::get_latest_commit_hash_pointer(&log).unwrap();
    assert_eq!(p.get_one_hash(), "def222");
    assert!(CommitPointer::get_latest_commit_hash_pointer(&vec!["".to_string()]).is_err());
}

#[test]
fn quick_commit_record() {
    assert_eq!(commit_record("fix"), "abc123: fix\n");
    create_dir_snapshot("/tmp");
}

#[test]
fn appended_commit_is_the_latest() {
    let first = CommitPointer::own(&HashPointer::from_string("first"));
    let second = CommitPointer::own(&HashPointer::from_string("second"));
    let mut log = String::new();
    log.push_str(&append_commit_hash_pointer_to_commit_log_file(&first));
    log.push_str(&append_commit_hash_pointer_to_commit_log_file(&second));
    let latest = CommitPointer::get_latest_commit_hash_pointer(&split_lines(&log)).unwrap();
    assert_eq!(latest.get_one_hash(), second.get_one_hash());
    assert_eq!(latest.get_path(), second.get_path());
}

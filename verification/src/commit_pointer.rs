//! Commits: commit objects, pointers to them, the commit log and the steps
//! of the commit command.

use vstd::prelude::*;
use crate::error::{ChakError, IoKind, is_custom_error, is_io_error, custom_error};
use vstd::utf8::is_ascii_chars;
use crate::files::{lemma_line_scan_no_newline, no_newline};
use crate::hash_pointer::{
    HashPointer, HashPointerTraits, MIN_HASH_LENGTH, after_two, byte_len, head_two, join_hash,
    join_hash_path, lemma_ascii_cut, lemma_cut_rejoins, lines_ok, pointer_string_ok,
    pointers_of_lines,
};
use crate::text::{line_scan, lines, strip_cr, views};

verus! {

broadcast use vstd::string::group_string_axioms;

/// A pointer to a stored commit object.
#[derive(Debug)]
pub struct CommitPointer {
    fold_name: String,
    file_name: String,
}

/// A pointer to a stored root tree.
#[derive(Debug)]
pub struct RootTreePointer {
    fold_name: String,
    file_name: String,
}

impl HashPointerTraits for CommitPointer {
    closed spec fn fold_view(&self) -> Seq<char> {
        self.fold_name@
    }

    closed spec fn file_view(&self) -> Seq<char> {
        self.file_name@
    }

    fn get_one_hash(&self) -> (r: String) {
        join_hash(&self.fold_name, &self.file_name)
    }

    fn get_path(&self) -> (r: String) {
        join_hash_path(&self.fold_name, &self.file_name)
    }
}

impl HashPointerTraits for RootTreePointer {
    closed spec fn fold_view(&self) -> Seq<char> {
        self.fold_name@
    }

    closed spec fn file_view(&self) -> Seq<char> {
        self.file_name@
    }

    fn get_one_hash(&self) -> (r: String) {
        join_hash(&self.fold_name, &self.file_name)
    }

    fn get_path(&self) -> (r: String) {
        join_hash_path(&self.fold_name, &self.file_name)
    }
}

impl RootTreePointer {
    /// The root-tree pointer with the names of `pointer`.
    pub fn own(pointer: &HashPointer) -> (r: Self)
        ensures
            r.fold_view() == pointer.fold_name@,
            r.file_view() == pointer.file_name@,
    {
        RootTreePointer {
            fold_name: pointer.fold_name.clone(),
            file_name: pointer.file_name.clone(),
        }
    }

    /// A copy of this pointer.
    pub fn copy(&self) -> (r: Self)
        ensures
            r.fold_view() == self.fold_view(),
            r.file_view() == self.file_view(),
    {
        RootTreePointer { fold_name: self.fold_name.clone(), file_name: self.file_name.clone() }
    }
}

/// A commit: its message, the root tree it records, and its author.
#[derive(Debug)]
pub struct CommitObject {
    pub message: String,
    pub root_tree_pointer: RootTreePointer,
    pub author: String,
}

impl CommitPointer {
    /// The commit pointer with the names of `pointer`.
    pub fn own(pointer: &HashPointer) -> (r: Self)
        ensures
            r.fold_view() == pointer.fold_name@,
            r.file_view() == pointer.file_name@,
    {
        CommitPointer {
            fold_name: pointer.fold_name.clone(),
            file_name: pointer.file_name.clone(),
        }
    }

    /// The latest commit of the commit log, given the log's lines: its last
    /// pointer, or a `NotFound` error when the log holds none.
    pub fn get_latest_commit_hash_pointer(log_lines: &Vec<String>) -> (r: Result<
        CommitPointer,
        ChakError,
    >)
        requires
            lines_ok(views(log_lines@)),
        ensures
            r is Err <==> pointers_of_lines(views(log_lines@)).len() == 0,
            r matches Err(e) ==> is_io_error(
                e,
                IoKind::NotFound,
                "last hash pointer line not found in file"@,
            ),
            r matches Ok(p) ==> (p.fold_view(), p.file_view()) == pointers_of_lines(
                views(log_lines@),
            ).last(),
    {
        match HashPointer::get_latest_pointer_line_from_file(log_lines, true) {
            Ok(p) => Ok(Self::own(&p)),
            Err(e) => Err(e),
        }
    }
}

/// A commit with message `msg` of the tree `root_tree_pointer`, by `author`,
/// or by `unknown` when no author is given.
pub fn create_commit(msg: String, author: Option<String>, root_tree_pointer: RootTreePointer) -> (r:
    CommitObject)
    ensures
        r.message == msg,
        r.root_tree_pointer == root_tree_pointer,
        r.author@ == (match author {
            Some(a) => a@,
            None => "unknown"@,
        }),
{
    let author = match author {
        Some(a) => a,
        None => "unknown".to_owned(),
    };
    CommitObject { message: msg, root_tree_pointer, author }
}

/// The text that appending `commit_hash_pointer` to the commit log writes:
/// its hash and a line break.
pub fn append_commit_hash_pointer_to_commit_log_file(commit_hash_pointer: &CommitPointer) -> (r:
    String)
    ensures
        r@ == commit_hash_pointer.fold_view() + commit_hash_pointer.file_view() + seq!['\n'],
{
    let mut r = commit_hash_pointer.get_one_hash();
    r.append("\n");
    proof {
        reveal_strlit("\n");
    }
    r
}

/// What the commit command does next.
#[derive(Debug)]
pub enum CommitStep {
    /// Save this commit and append its pointer to the commit log.
    SaveCommit(CommitObject),
    /// Nothing is staged: empty the stage file.
    ClearStage,
}

/// The author recorded by the commit command.
pub open spec fn command_author() -> Seq<char> {
    "inxeoz"@
}

/// The step of the commit command with message `m`, given the pointers read
/// from the stage file (`None` when it could not be read): the latest staged
/// tree is committed; with nothing staged the stage is cleared.
pub fn handle_command_commit(m: String, stage: Option<Vec<RootTreePointer>>) -> (r: Result<
    CommitStep,
    ChakError,
>)
    ensures
        r is Err <==> stage is None,
        r matches Err(e) ==> is_custom_error(e, "No stage file"@),
        r matches Ok(CommitStep::ClearStage) <==> (stage matches Some(v) && v@.len() == 0),
        r matches Ok(CommitStep::SaveCommit(c)) ==> stage matches Some(v) && v@.len() > 0
            && c.message == m && c.author@ == command_author()
            && c.root_tree_pointer.fold_view() == v@.last().fold_view()
            && c.root_tree_pointer.file_view() == v@.last().file_view(),
{
    match stage {
        None => Err(custom_error("No stage file")),
        Some(pointers) => {
            if pointers.len() == 0 {
                Ok(CommitStep::ClearStage)
            } else {
                let latest = pointers[pointers.len() - 1].copy();
                let commit = create_commit(m, Some("inxeoz".to_owned()), latest);
                Ok(CommitStep::SaveCommit(commit))
            }
        },
    }
}

/// The outcome of clearing the stage file, given whether the write succeeded.
pub fn finish_clear_stage(write_ok: bool) -> (r: Result<(), ChakError>)
    ensures
        r is Ok <==> write_ok,
        r matches Err(e) ==> is_custom_error(e, "Failed to clear stage "@),
{
    if write_ok {
        Ok(())
    } else {
        Err(custom_error("Failed to clear stage "))
    }
}

/// After the text that `append_commit_hash_pointer_to_commit_log_file` gives
/// for a pointer with folder name `fold` and file name `file` is added to a
/// commit log that is empty or ends with a line break, the log's lines are
/// its old lines and then the pointer's hash, and the latest pointer that
/// `get_latest_commit_hash_pointer` reads from them is the appended one: its
/// hash cut after two bytes, which for a hex hash (ASCII) with a two-character
/// folder name is `(fold, file)` itself.
pub proof fn law_latest_commit_is_last_appended(log: Seq<char>, fold: Seq<char>, file: Seq<char>)
    requires
        log.len() == 0 || log.last() == '\n',
        lines_ok(lines(log)),
        no_newline(fold + file),
        !((fold + file).len() > 0 && (fold + file).last() == '\r'),
        pointer_string_ok(fold + file),
        byte_len(fold + file) >= MIN_HASH_LENGTH,
    ensures
        lines(log + fold + file + seq!['\n']) == lines(log).push(fold + file),
        lines_ok(lines(log + fold + file + seq!['\n'])),
        pointers_of_lines(lines(log + fold + file + seq!['\n'])).len() > 0,
        pointers_of_lines(lines(log + fold + file + seq!['\n'])).last() == (
            head_two(fold + file),
            after_two(fold + file),
        ),
        head_two(fold + file) + after_two(fold + file) == fold + file,
        is_ascii_chars(fold + file) && fold.len() == 2 ==> pointers_of_lines(
            lines(log + fold + file + seq!['\n']),
        ).last() == (fold, file),
{
    let h = fold + file;
    let s = log + fold + file + seq!['\n'];
    assert(s =~= log + h + seq!['\n']);
    assert(line_scan(log).1 =~= Seq::<char>::empty()) by {
        if log.len() > 0 {
            assert(log.last() == '\n');
        }
    }
    lemma_line_scan_no_newline(log, h);
    assert(line_scan(log).1 + h =~= h);
    assert(s.drop_last() =~= log + h);
    assert(s.last() == '\n');
    assert(strip_cr(h) == h);
    let old_lines = line_scan(log).0;
    assert(line_scan(s) == (old_lines.push(h), Seq::<char>::empty()));
    assert(lines(log) == old_lines);
    assert(lines(s) == old_lines.push(h));
    let ls = lines(s);
    assert forall|i: int| 0 <= i < ls.len() implies pointer_string_ok(#[trigger] ls[i]) by {
        if i < old_lines.len() {
            assert(ls[i] == old_lines[i]);
            assert(pointer_string_ok(lines(log)[i]));
        } else {
            assert(ls[i] == h);
        }
    }
    assert(ls.drop_last() =~= old_lines);
    assert(ls.last() == h);
    lemma_cut_rejoins(h);
    if is_ascii_chars(h) && fold.len() == 2 {
        lemma_ascii_cut(h);
        assert(h.take(2) =~= fold);
        assert(h.skip(2) =~= file);
    }
}

} // verus!

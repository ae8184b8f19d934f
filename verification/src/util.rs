//! Helpers around files and input: trimmed lines, save plans, the register
//! check, walking down to a repository, sorting directory entries, and
//! normalising a typed answer.

use vstd::prelude::*;
use crate::error::{ChakError, IoKind, is_io_error, io_error};
use crate::hash_pointer::HashPointerTraits;
use crate::text::{is_white, law_trim_edges, lines, split_lines, trim, trim_str, views};

verus! {

broadcast use vstd::string::group_string_axioms;

/// The name of the repository folder.
pub const VCS_FOLDER: &'static str = ".chak";

/// The lines of `content`, each trimmed.
pub fn string_content_to_string_vec(content: &str) -> (r: Vec<String>)
    ensures
        views(r@) == lines(content@).map_values(|l: Seq<char>| trim(l)),
{
    let ls = split_lines(content);
    let mut out: Vec<String> = Vec::new();
    let n = ls.len();
    let mut i: usize = 0;
    while i < n
        invariant
            n == ls@.len(),
            views(ls@) == lines(content@),
            i <= n,
            views(out@) == views(ls@).take(i as int).map_values(|l: Seq<char>| trim(l)),
        decreases n - i,
    {
        let ghost before = out@;
        let t = trim_str(ls[i].as_str());
        out.push(t);
        assert(views(ls@)[i as int] == ls@[i as int]@);
        assert(views(out@) =~= views(before).push(trim(views(ls@)[i as int])));
        assert(views(out@) =~= views(ls@).take(i + 1).map_values(|l: Seq<char>| trim(l)));
        i = i + 1;
    }
    assert(views(ls@).take(n as int) =~= views(ls@));
    out
}

/// What to write into a file: whether to empty it first, and the bytes to
/// write after that (or after its old content).
#[derive(Debug)]
pub struct SavePlan {
    pub truncate: bool,
    pub data: String,
}

/// The data written by a save: the content followed by the separator, or
/// nothing without content.
pub open spec fn save_data(content: Option<Seq<char>>, sep: Option<Seq<char>>) -> Seq<char> {
    match content {
        None => seq![],
        Some(c) => c + match sep {
            Some(s) => s,
            None => seq![],
        },
    }
}

/// The view of an optional string.
pub open spec fn opt_view(o: Option<&str>) -> Option<Seq<char>> {
    match o {
        Some(s) => Some(s@),
        None => None,
    }
}

/// Decides a save to a file: a path that is a directory is refused with an
/// `IsADirectory` error; otherwise the file is emptied first unless
/// appending, and the content, followed by the separator, is written.
pub fn save_or_create_file(
    path_is_dir: bool,
    content: Option<&str>,
    append: bool,
    append_with_separator: Option<&str>,
) -> (r: Result<SavePlan, ChakError>)
    ensures
        r is Err <==> path_is_dir,
        r matches Err(e) ==> is_io_error(e, IoKind::IsADirectory, "path is a directory, not a file"@),
        r matches Ok(p) ==> p.truncate == !append && p.data@ == save_data(
            opt_view(content),
            opt_view(append_with_separator),
        ),
{
    if path_is_dir {
        return Err(io_error(IoKind::IsADirectory, "path is a directory, not a file"));
    }
    let mut data = String::new();
    if let Some(c) = content {
        data.append(c);
        if let Some(sep) = append_with_separator {
            data.append(sep);
        }
    }
    Ok(SavePlan { truncate: !append, data })
}

/// Whether `pointer` is the one registered, given the register file's lines:
/// its first line, trimmed, is the pointer's hash.
pub fn was_it_registered<T: HashPointerTraits>(pointer: &T, register_lines: &Vec<String>) -> (r:
    bool)
    ensures
        r == (register_lines@.len() > 0 && trim(register_lines@[0]@) == pointer.fold_view()
            + pointer.file_view()),
{
    if register_lines.len() == 0 {
        return false;
    }
    let first = trim_str(register_lines[0].as_str());
    let hash = pointer.get_one_hash();
    first == hash
}

/// One step of looking for a repository below a folder.
#[derive(Debug)]
pub enum SearchStep {
    /// The folder holds the repository folder.
    Found,
    /// Look in this entry next.
    Descend(String),
    /// There is nothing more to look at.
    NotFound,
}

/// The next step of the search in a folder, given whether the folder holds
/// the repository folder and the first entry read from it, if any: found,
/// else go into that entry, else not found.
pub fn check_vcs_presence_in_dir(vcs_folder_exists: bool, first_entry: Option<String>) -> (r:
    SearchStep)
    ensures
        vcs_folder_exists ==> r is Found,
        !vcs_folder_exists ==> (first_entry matches Some(e) ==> r matches SearchStep::Descend(d)
            && d == e),
        !vcs_folder_exists && first_entry is None ==> r is NotFound,
{
    if vcs_folder_exists {
        SearchStep::Found
    } else {
        match first_entry {
            Some(e) => SearchStep::Descend(e),
            None => SearchStep::NotFound,
        }
    }
}

/// The paths of the entries that are directories, in order.
pub open spec fn dir_paths(entries: Seq<(String, bool)>) -> Seq<Seq<char>>
    decreases entries.len(),
{
    if entries.len() == 0 {
        seq![]
    } else if entries.last().1 {
        dir_paths(entries.drop_last()).push(entries.last().0@)
    } else {
        dir_paths(entries.drop_last())
    }
}

/// The paths of the entries that are not directories, in order.
pub open spec fn file_paths(entries: Seq<(String, bool)>) -> Seq<Seq<char>>
    decreases entries.len(),
{
    if entries.len() == 0 {
        seq![]
    } else if !entries.last().1 {
        file_paths(entries.drop_last()).push(entries.last().0@)
    } else {
        file_paths(entries.drop_last())
    }
}

/// Splits the entries of a directory, each a path and whether it is a
/// directory, into the directories and the other entries, in order.
pub fn read_directory_entries(entries: Vec<(String, bool)>) -> (r: (Vec<String>, Vec<String>))
    ensures
        views(r.0@) == dir_paths(entries@),
        views(r.1@) == file_paths(entries@),
{
    let mut dirs: Vec<String> = Vec::new();
    let mut files: Vec<String> = Vec::new();
    let n = entries.len();
    let mut i: usize = 0;
    assert(entries@.take(0) =~= seq![]);
    while i < n
        invariant
            n == entries@.len(),
            i <= n,
            views(dirs@) == dir_paths(entries@.take(i as int)),
            views(files@) == file_paths(entries@.take(i as int)),
        decreases n - i,
    {
        assert(entries@.take(i + 1).drop_last() =~= entries@.take(i as int));
        let ghost d0 = dirs@;
        let ghost f0 = files@;
        let path = entries[i].0.clone();
        if entries[i].1 {
            dirs.push(path);
            assert(views(dirs@) =~= views(d0).push(entries@[i as int].0@));
        } else {
            files.push(path);
            assert(views(files@) =~= views(f0).push(entries@[i as int].0@));
        }
        i = i + 1;
    }
    assert(entries@.take(n as int) =~= entries@);
    (dirs, files)
}

/// The lowercase form of `s` under `str::to_lowercase`.
pub uninterp spec fn lowercase(s: Seq<char>) -> Seq<char>;

/// Calls `str::to_lowercase`. Trusted: the result is the lowercase form of
/// `s` (named `lowercase`); the Unicode case mapping is not stated.
#[verifier::external_body]
fn to_lowercase(s: &str) -> (r: String)
    ensures
        r@ == lowercase(s@),
{
    s.to_lowercase()
}

/// A typed answer as the program compares it: trimmed, then lowercased.
pub fn normalize_input(input: &str) -> (r: String)
    ensures
        r@ == lowercase(trim(input@)),
{
    let t = trim_str(input);
    to_lowercase(t.as_str())
}

/// Every line that `string_content_to_string_vec` gives (the trimmed lines
/// of the content) neither starts nor ends with white space.
pub proof fn law_content_lines_trimmed(content: Seq<char>)
    ensures
        forall|i: int|
            0 <= i < lines(content).len() ==> (trim(#[trigger] lines(content)[i]).len() > 0
                ==> !is_white(trim(lines(content)[i])[0]) && !is_white(
                trim(lines(content)[i]).last(),
            )),
{
    assert forall|i: int|
        0 <= i < lines(content).len() && trim(#[trigger] lines(content)[i]).len() > 0 implies
        !is_white(trim(lines(content)[i])[0]) && !is_white(trim(lines(content)[i]).last()) by {
        law_trim_edges(lines(content)[i]);
    }
}

} // verus!

//! The layout of a new repository.

use vstd::prelude::*;
use crate::path::{comps_prefix, components, is_absolute, join, join_path, law_join_components};
use crate::text::views;

verus! {

broadcast use vstd::string::group_string_axioms;

/// The folders and files that a new repository under a base folder has;
/// each file comes with the folder that holds it.
#[derive(Debug)]
pub struct VcsLayout {
    pub directories: Vec<String>,
    pub files: Vec<(String, String)>,
}

/// The folders and files of a new repository under `base_dir`: the folders
/// `store/blobs`, `store/trees`, `store/commits` and `staging_area`, and the
/// files `staging_area/staged_files.json` and `history/commits.log`.
pub fn init_vcs(base_dir: &str) -> (r: VcsLayout)
    ensures
        views(r.directories@) == seq![
            join(base_dir@, "store/blobs"@),
            join(base_dir@, "store/trees"@),
            join(base_dir@, "store/commits"@),
            join(base_dir@, "staging_area"@),
        ],
        r.files@.len() == 2,
        r.files@[0].0@ == join(base_dir@, "staging_area"@),
        r.files@[0].1@ == join(base_dir@, "staging_area/staged_files.json"@),
        r.files@[1].0@ == join(base_dir@, "history"@),
        r.files@[1].1@ == join(base_dir@, "history/commits.log"@),
{
    let mut directories: Vec<String> = Vec::new();
    directories.push(join_path(base_dir, "store/blobs"));
    directories.push(join_path(base_dir, "store/trees"));
    directories.push(join_path(base_dir, "store/commits"));
    directories.push(join_path(base_dir, "staging_area"));
    assert(views(directories@) =~= seq![
        join(base_dir@, "store/blobs"@),
        join(base_dir@, "store/trees"@),
        join(base_dir@, "store/commits"@),
        join(base_dir@, "staging_area"@),
    ]);
    let mut files: Vec<(String, String)> = Vec::new();
    files.push(
        (join_path(base_dir, "staging_area"), join_path(base_dir, "staging_area/staged_files.json")),
    );
    files.push((join_path(base_dir, "history"), join_path(base_dir, "history/commits.log")));
    VcsLayout { directories, files }
}

/// Pushing a relative path onto a non-empty base stays below the base: the
/// base's components start the result's.
proof fn lemma_join_below(base: Seq<char>, p: Seq<char>)
    requires
        base.len() > 0,
        !is_absolute(p),
    ensures
        comps_prefix(components(base), components(join(base, p))),
{
    law_join_components(base, p);
    let cs = components(join(base, p));
    assert(cs.take(components(base).len() as int) =~= components(base));
}

/// Every folder and file of a new repository under a non-empty base folder
/// lies below that folder.
pub proof fn law_layout_below_base(base: Seq<char>)
    requires
        base.len() > 0,
    ensures
        comps_prefix(components(base), components(join(base, "store/blobs"@))),
        comps_prefix(components(base), components(join(base, "store/trees"@))),
        comps_prefix(components(base), components(join(base, "store/commits"@))),
        comps_prefix(components(base), components(join(base, "staging_area"@))),
        comps_prefix(components(base), components(join(base, "staging_area/staged_files.json"@))),
        comps_prefix(components(base), components(join(base, "history"@))),
        comps_prefix(components(base), components(join(base, "history/commits.log"@))),
{
    reveal_strlit("store/blobs");
    reveal_strlit("store/trees");
    reveal_strlit("store/commits");
    reveal_strlit("staging_area");
    reveal_strlit("staging_area/staged_files.json");
    reveal_strlit("history");
    reveal_strlit("history/commits.log");
    lemma_join_below(base, "store/blobs"@);
    lemma_join_below(base, "store/trees"@);
    lemma_join_below(base, "store/commits"@);
    lemma_join_below(base, "staging_area"@);
    lemma_join_below(base, "staging_area/staged_files.json"@);
    lemma_join_below(base, "history"@);
    lemma_join_below(base, "history/commits.log"@);
}

} // verus!

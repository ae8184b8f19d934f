//! Adding a folder to the repository.

use vstd::prelude::*;

verus! {

/// Takes a snapshot of a folder; it does nothing yet.
pub fn create_dir_snapshot(root_folder: &str) {
}

} // verus!

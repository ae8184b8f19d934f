//! The repository configuration record.

use vstd::prelude::*;

verus! {

/// The repository configuration.
#[derive(Debug)]
pub struct Config {
    pub repo_name: String,
    pub user_email: String,
}

} // verus!

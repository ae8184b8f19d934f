//! The record of a quick commit.

use vstd::prelude::*;

verus! {

broadcast use vstd::string::group_string_axioms;

/// The record that the quick commit command writes: the commit hash it uses,
/// `abc123`, a colon and a space, the message, and a line break.
pub fn commit_record(message: &str) -> (r: String)
    ensures
        r@ == "abc123: "@ + message@ + "\n"@,
{
    let mut r = "abc123: ".to_owned();
    r.append(message);
    r.append("\n");
    r
}

} // verus!

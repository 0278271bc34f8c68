//! Derivation of the sidecar file names.
//!
//! The download, state and temp files all live next to the final output,
//! named by appending a dot and an extension to its path.

use vstd::prelude::*;
use vstd::string::StringExecFns;

verus! {

/// Append `.` and the extension to a path.
pub fn add_extension(path: &str, ext: &str) -> (r: String)
    ensures
        r@ == path@ + "."@ + ext@,
{
    let mut s = path.to_owned();
    s.append(".");
    s.append(ext);
    proof {
        assert(s@ =~= path@ + "."@ + ext@);
    }
    s
}

} // verus!

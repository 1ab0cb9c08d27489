//! Paths a workspace derives from its directory.  Checking what the
//! filesystem holds at those paths is the application's work.

use crate::strutil::{chars_to_string, push_str_chars_pub};
use vstd::prelude::*;

verus! {

/// The lockfile path of a workspace directory.
pub fn lockfile_path_of(dir: &str) -> (r: String)
    ensures
        r@ == dir@ + "/npmpink.lock"@,
{
    let mut out: Vec<char> = Vec::new();
    push_str_chars_pub(&mut out, dir);
    push_str_chars_pub(&mut out, "/npmpink.lock");
    proof {
        assert(out@ =~= dir@ + "/npmpink.lock"@);
    }
    chars_to_string(&out)
}

/// The manifest path of a workspace directory.
pub fn manifest_path_of(dir: &str) -> (r: String)
    ensures
        r@ == dir@ + "/package.json"@,
{
    let mut out: Vec<char> = Vec::new();
    push_str_chars_pub(&mut out, dir);
    push_str_chars_pub(&mut out, "/package.json");
    proof {
        assert(out@ =~= dir@ + "/package.json"@);
    }
    chars_to_string(&out)
}

} // verus!

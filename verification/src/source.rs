//! Registered source roots and the derived source id.

use crate::strutil::{chars_to_string, dec_digits, push_str_chars_pub, spec_is_absolute_path, u64_to_dec_string};
use vstd::prelude::*;

verus! {

/// A registered filesystem root to search for packages.  The id is a
/// stable hash of the path string, so two sources agree on their id
/// whenever their paths are identical strings.
#[derive(Debug, PartialEq)]
pub struct Source {
    /// Absolute path of the root directory.
    pub path: String,
    /// Stable hash of the path string, in decimal.
    pub id: String,
}

/// Mathematical model of a source: the character sequences of its fields.
#[verifier::ext_equal]
pub ghost struct SourceView {
    pub path: Seq<char>,
    pub id: Seq<char>,
}

impl View for Source {
    type V = SourceView;

    open spec fn view(&self) -> SourceView {
        SourceView { path: self.path@, id: self.id@ }
    }
}

/// 64-bit FNV-1a over the scalar values of a character sequence.
pub open spec fn fnv64(s: Seq<char>, acc: u64) -> u64
    decreases s.len(),
{
    if s.len() == 0 {
        acc
    } else {
        fnv64(
            s.drop_first(),
            vstd::wrapping::u64_specs::wrapping_mul(acc ^ (s[0] as u64), 0x100000001b3u64),
        )
    }
}

/// The FNV-1a offset basis.
pub open spec fn fnv64_offset() -> u64 {
    0xcbf29ce484222325u64
}

/// The stable hash behind a source id: FNV-1a of the path string,
/// rendered in decimal.
pub open spec fn spec_hash_path_string(path: Seq<char>) -> Seq<char> {
    dec_digits(fnv64(path, fnv64_offset()) as nat)
}

/// Hashes a path string to the id string used for sources.
pub fn hash_path_string(path: String) -> (r: String)
    ensures
        r@ == spec_hash_path_string(path@),
{
    let chars = crate::strutil::string_to_chars(path.as_str());
    let mut acc: u64 = 0xcbf29ce484222325u64;
    let mut i: usize = 0;
    let ghost s = path@;
    proof {
        assert(s.skip(0) =~= s);
    }
    while i < chars.len()
        invariant
            i <= chars.len(),
            chars@ == s,
            fnv64(s, fnv64_offset()) == fnv64(s.skip(i as int), acc),
        decreases chars.len() - i,
    {
        let c = chars[i];
        assert(s.skip(i as int)[0] == s[i as int]);
        assert(s.skip(i as int).drop_first() =~= s.skip(i + 1 as int));
        acc = (acc ^ (c as u64)).wrapping_mul(0x100000001b3u64);
        i = i + 1;
    }
    assert(s.skip(i as int).len() == 0);
    u64_to_dec_string(acc)
}

impl Clone for Source {
    /// A clone is equal to the original, field by field.
    fn clone(&self) -> (r: Self)
        ensures
            r == *self,
    {
        Source { path: self.path.clone(), id: self.id.clone() }
    }
}

impl Source {
    /// Builds a source from an absolute root path; the id is derived
    /// from the path string.
    pub fn new(path: String) -> (s: Source)
        requires
            spec_is_absolute_path(path@),
        ensures
            s@.path == path@,
            s@.id == spec_hash_path_string(path@),
    {
        let id = hash_path_string(path.clone());
        Source { path, id }
    }
}

/// The line `source list` prints for one source: its id, a colon and a
/// space, and its path.
pub fn source_list_line(s: &Source) -> (r: String)
    ensures
        r@ == s@.id + ": "@ + s@.path,
{
    let mut out: Vec<char> = Vec::new();
    push_str_chars_pub(&mut out, s.id.as_str());
    push_str_chars_pub(&mut out, ": ");
    push_str_chars_pub(&mut out, s.path.as_str());
    proof {
        assert(out@ =~= s@.id + ": "@ + s@.path);
    }
    chars_to_string(&out)
}

} // verus!

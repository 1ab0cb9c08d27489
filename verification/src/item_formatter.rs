//! Turning a package and its owning source into a display record.

use crate::item_display::PackageItemDisplay;
use crate::package::Package;
use crate::source::Source;
use crate::strutil::{chars_to_string, string_to_chars};
use vstd::prelude::*;

verus! {

/// A package paired with the source it came from, ready to be rendered
/// for a picker.
#[derive(Debug)]
pub struct PackageItemFormatter {
    pub inner: Package,
    pub source: Source,
}

impl Clone for PackageItemFormatter {
    /// A clone is equal to the original, field by field.
    fn clone(&self) -> (r: Self)
        ensures
            r == *self,
    {
        PackageItemFormatter { inner: self.inner.clone(), source: self.source.clone() }
    }
}

impl PackageItemFormatter {
    /// Pairs a package with its source.
    pub fn new(package: Package, source: Source) -> (f: PackageItemFormatter)
        ensures
            f.inner == package,
            f.source == source,
    {
        PackageItemFormatter { inner: package, source }
    }
}

/// The position of the last occurrence of a character, or minus one.
pub open spec fn spec_last_index_of(s: Seq<char>, c: char) -> int
    decreases s.len(),
{
    if s.len() == 0 {
        -1
    } else if s.last() == c {
        s.len() - 1
    } else {
        spec_last_index_of(s.drop_last(), c)
    }
}

/// The file name of a path: everything after the last separator.
pub open spec fn spec_file_name(p: Seq<char>) -> Seq<char> {
    p.skip(spec_last_index_of(p, '/') + 1)
}

/// The stem of a path: the file name up to its last dot, the whole file
/// name when there is no dot or the only dot leads it, and nothing when
/// the file name is empty.
pub open spec fn spec_file_stem(p: Seq<char>) -> Option<Seq<char>> {
    let n = spec_file_name(p);
    if n.len() == 0 {
        None
    } else {
        let d = spec_last_index_of(n, '.');
        if d <= 0 {
            Some(n)
        } else {
            Some(n.take(d))
        }
    }
}

/// The last occurrence of a character never lies past the end.
proof fn lemma_last_index_bounds(s: Seq<char>, c: char)
    ensures
        -1 <= spec_last_index_of(s, c) < s.len(),
    decreases s.len(),
{
    if s.len() > 0 && s.last() != c {
        lemma_last_index_bounds(s.drop_last(), c);
    }
}

/// Finds the position after the last occurrence of a character.
fn find_after_last(chars: &Vec<char>, c: char) -> (r: usize)
    ensures
        r == spec_last_index_of(chars@, c) + 1,
        r <= chars@.len(),
{
    let mut i: usize = 0;
    let mut r: usize = 0;
    proof {
        assert(chars@.take(0) =~= Seq::<char>::empty());
    }
    while i < chars.len()
        invariant
            i <= chars.len(),
            r == spec_last_index_of(chars@.take(i as int), c) + 1,
            r <= i,
        decreases chars.len() - i,
    {
        if chars[i] == c {
            r = i + 1;
        }
        proof {
            assert(chars@.take(i + 1).drop_last() =~= chars@.take(i as int));
            assert(chars@.take(i + 1).last() == chars@[i as int]);
        }
        i = i + 1;
    }
    proof {
        assert(chars@.take(i as int) =~= chars@);
    }
    r
}

/// Copies a range of characters into a string.
fn chars_range_to_string(chars: &Vec<char>, a: usize, b: usize) -> (r: String)
    requires
        a <= b <= chars@.len(),
    ensures
        r@ == chars@.subrange(a as int, b as int),
{
    let mut out: Vec<char> = Vec::new();
    let mut k: usize = a;
    proof {
        assert(out@ =~= chars@.subrange(a as int, a as int));
    }
    while k < b
        invariant
            a <= k <= b <= chars@.len(),
            out@ == chars@.subrange(a as int, k as int),
        decreases b - k,
    {
        out.push(chars[k]);
        proof {
            assert(out@ =~= chars@.subrange(a as int, k + 1));
        }
        k = k + 1;
    }
    chars_to_string(&out)
}

/// The display label of a source: the stem of its path, when the path
/// has one.
pub fn source_label(source: &Source) -> (r: Option<String>)
    ensures
        match r {
            Some(l) => spec_file_stem(source@.path) == Some(l@),
            None => spec_file_stem(source@.path) is None,
        },
{
    let chars = string_to_chars(source.path.as_str());
    proof {
        lemma_last_index_bounds(chars@, '/');
    }
    let start = find_after_last(&chars, '/');
    let name = chars_range_to_string(&chars, start, chars.len());
    proof {
        assert(chars@.subrange(start as int, chars@.len() as int) =~= chars@.skip(
            spec_last_index_of(chars@, '/') + 1,
        ));
    }
    let name_chars = string_to_chars(name.as_str());
    if name_chars.len() == 0 {
        return None;
    }
    proof {
        lemma_last_index_bounds(name_chars@, '.');
    }
    let dot_after = find_after_last(&name_chars, '.');
    if dot_after <= 1 {
        Some(name)
    } else {
        Some(chars_range_to_string(&name_chars, 0, dot_after - 1))
    }
}

/// The display id of a source: its id.
pub fn source_id(source: &Source) -> (r: Option<String>)
    ensures
        r matches Some(v) && v@ == source@.id,
{
    Some(source.id.clone())
}

/// The display record of a formatter: the package's name as the title
/// and the source's stem and id as its labels; a source whose path has
/// no stem is shown by a placeholder.
pub fn display_for(f: &PackageItemFormatter) -> (r: PackageItemDisplay)
    ensures
        r.title@ == f.inner@.name,
        match spec_file_stem(f.source@.path) {
            Some(l) => r.source_label@ == l,
            None => r.source_label@ == "<unkown source>"@,
        },
        r.source_id@ == f.source@.id,
{
    let label = match source_label(&f.source) {
        Some(l) => l,
        None => String::from_str("<unkown source>"),
    };
    let id = match source_id(&f.source) {
        Some(v) => v,
        None => String::from_str("<unkown source id>"),
    };
    PackageItemDisplay { title: f.inner.name.clone(), source_label: label, source_id: id }
}

impl From<PackageItemFormatter> for PackageItemDisplay {
    /// The display record of a formatter; `display_for` carries the
    /// exact statement of the conversion.
    fn from(val: PackageItemFormatter) -> (r: Self) {
        display_for(&val)
    }
}

impl vstd::std_specs::convert::FromSpecImpl<PackageItemFormatter> for PackageItemDisplay {
    open spec fn obeys_from_spec() -> bool {
        false
    }

    open spec fn from_spec(v: PackageItemFormatter) -> Self {
        arbitrary()
    }
}

} // verus!

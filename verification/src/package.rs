//! The package record and its identity model.

use vstd::prelude::*;

verus! {

/// A discovered, eligible, named unit of code at a directory, identified
/// by its name and the source it came from.
#[derive(Debug, PartialEq, Eq, Default)]
pub struct Package {
    pub name: String,
    pub dir: String,
    pub source_id: String,
}

/// Mathematical model of a package: the character sequences of its fields.
#[verifier::ext_equal]
pub ghost struct PackageView {
    pub name: Seq<char>,
    pub dir: Seq<char>,
    pub source_id: Seq<char>,
}

impl View for Package {
    type V = PackageView;

    open spec fn view(&self) -> PackageView {
        PackageView { name: self.name@, dir: self.dir@, source_id: self.source_id@ }
    }
}

/// The views of a sequence of packages, element by element.
pub open spec fn views_of(ps: Seq<Package>) -> Seq<PackageView> {
    ps.map_values(|p: Package| p@)
}

/// Whether two package records denote the same package: they share a
/// name and originate from the same source.  The directory plays no
/// part in identity.
pub open spec fn same_identity(a: PackageView, b: PackageView) -> bool {
    a.name == b.name && a.source_id == b.source_id
}

/// Identity ignores the directory: records agreeing on name and source
/// id are the same package wherever their copies live.
pub proof fn lemma_identity_ignores_dir(a: PackageView, b: PackageView)
    requires
        a.name == b.name,
        a.source_id == b.source_id,
    ensures
        same_identity(a, b),
{
}

impl Clone for Package {
    /// A clone is equal to the original, field by field.
    fn clone(&self) -> (r: Self)
        ensures
            r == *self,
    {
        Package { name: self.name.clone(), dir: self.dir.clone(), source_id: self.source_id.clone() }
    }
}

impl Package {
    /// Builds a package record from its parts.
    pub fn new(name: String, dir: String, source_id: String) -> (p: Package)
        ensures
            p@.name == name@,
            p@.dir == dir@,
            p@.source_id == source_id@,
    {
        Package { name, dir, source_id }
    }
}

} // verus!

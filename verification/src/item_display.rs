//! Plain display records for pickers: a title line and, for packages,
//! the label and id of the owning source.

use vstd::prelude::*;

verus! {

/// What a picker shows for one package.
#[derive(Debug)]
pub struct PackageItemDisplay {
    pub title: String,
    pub source_label: String,
    pub source_id: String,
}

impl Clone for PackageItemDisplay {
    /// A clone is equal to the original, field by field.
    fn clone(&self) -> (r: Self)
        ensures
            r == *self,
    {
        PackageItemDisplay {
            title: self.title.clone(),
            source_label: self.source_label.clone(),
            source_id: self.source_id.clone(),
        }
    }
}

/// What a picker shows for one source.
#[derive(Debug)]
pub struct SourceItemDisplay {
    pub title: String,
}

impl Clone for SourceItemDisplay {
    /// A clone is equal to the original.
    fn clone(&self) -> (r: Self)
        ensures
            r == *self,
    {
        SourceItemDisplay { title: self.title.clone() }
    }
}

} // verus!

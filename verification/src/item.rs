//! The picker item shown for one package: the display record together
//! with the formatter it was made from, so that a picked item leads
//! back to its package.

use crate::item_formatter::{display_for, spec_file_stem, PackageItemFormatter};
use crate::strutil::{chars_to_string, push_str_chars_pub};
use vstd::prelude::*;

verus! {

/// A picker item: what is shown, and the raw pair it stands for.
#[derive(Debug)]
pub struct PackageItemDisplay {
    pub inner: crate::item_display::PackageItemDisplay,
    pub raw: PackageItemFormatter,
}

impl Clone for PackageItemDisplay {
    /// A clone is equal to the original, field by field.
    fn clone(&self) -> (r: Self)
        ensures
            r == *self,
    {
        PackageItemDisplay { inner: self.inner.clone(), raw: self.raw.clone() }
    }
}

impl PackageItemDisplay {
    /// Builds the item shown for a formatter, keeping the formatter.
    pub fn new(formatter: PackageItemFormatter) -> (r: PackageItemDisplay)
        ensures
            r.raw == formatter,
            r.inner.title@ == formatter.inner@.name,
            r.inner.source_id@ == formatter.source@.id,
    {
        let inner = display_for(&formatter);
        PackageItemDisplay { inner, raw: formatter }
    }

    /// The one-line rendering of the item: the title, two spaces, the
    /// source label.
    pub fn display_line(&self) -> (r: String)
        ensures
            r@ == self.inner.title@ + "  "@ + self.inner.source_label@,
    {
        let mut out: Vec<char> = Vec::new();
        push_str_chars_pub(&mut out, self.inner.title.as_str());
        push_str_chars_pub(&mut out, "  ");
        push_str_chars_pub(&mut out, self.inner.source_label.as_str());
        proof {
            assert(out@ =~= self.inner.title@ + "  "@ + self.inner.source_label@);
        }
        chars_to_string(&out)
    }
}

} // verus!

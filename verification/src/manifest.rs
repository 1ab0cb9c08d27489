//! The package manifest record: the fields discovery reads from a
//! `package.json` text, and the eligibility policy over them.

use crate::package::Package;
use vstd::prelude::*;

verus! {

/// A manifest's `private` marker, as the manifest schema models it: the
/// JSON strings `"true"` and `"false"`, or a plain boolean.
#[derive(Debug, Clone, Copy, PartialEq, Eq, Structural)]
pub enum Private {
    True,
    False,
    Bool(bool),
}

/// What the library reads from one manifest: the declared name, the
/// private marker and the workspace member patterns, each of which may
/// be absent.
#[derive(Debug, Clone, PartialEq)]
pub struct ManifestInfo {
    pub name: Option<String>,
    pub private: Option<Private>,
    pub workspaces: Option<Vec<String>>,
}

/// Mathematical model of a manifest record.
#[verifier::ext_equal]
pub ghost struct ManifestView {
    pub name: Option<Seq<char>>,
    pub private: Option<Private>,
    pub workspaces: Option<Seq<Seq<char>>>,
}

impl View for ManifestInfo {
    type V = ManifestView;

    open spec fn view(&self) -> ManifestView {
        ManifestView {
            name: match self.name {
                Some(n) => Some(n@),
                None => None,
            },
            private: self.private,
            workspaces: match self.workspaces {
                Some(ref w) => Some(w.deep_view()),
                None => None,
            },
        }
    }
}

/// What a manifest text parses to: named, since the manifest grammar's
/// semantics are the schema crate's own, and the outcome is a function
/// of the text alone.
pub uninterp spec fn manifest_of(text: Seq<char>) -> Option<ManifestView>;

/// Relies on `package_json_schema::PackageJson::try_from`: parses a
/// manifest text, failing on malformed JSON (duplicate keys among other
/// faults); the record's `name`, `private` and `workspaces` fields are
/// moved into the library's manifest record.  The result is the
/// function `manifest_of` of the text alone; nothing further is assumed
/// of it.
#[verifier::external_body]
pub fn parse_manifest(content: &str) -> (r: Option<ManifestInfo>)
    ensures
        match r {
            Some(m) => manifest_of(content@) == Some(m@),
            None => manifest_of(content@) is None,
        },
{
    let pj = package_json_schema::PackageJson::try_from(content).ok()?;
    let private = match pj.private {
        None => None,
        Some(package_json_schema::Private::True) => Some(Private::True),
        Some(package_json_schema::Private::False) => Some(Private::False),
        Some(package_json_schema::Private::Bool(b)) => Some(Private::Bool(b)),
    };
    let workspaces = match pj.workspaces {
        None => None,
        Some(package_json_schema::Workspaces::List(l)) => Some(l),
        Some(package_json_schema::Workspaces::Object { packages, .. }) => packages,
    };
    Some(ManifestInfo { name: pj.name, private, workspaces })
}

/// A private marker keeps a package eligible only when it is an
/// explicit boolean false.
pub open spec fn spec_private_not_falsy(v: Private) -> bool {
    match v {
        Private::False => true,
        Private::Bool(b) => !b,
        Private::True => false,
    }
}

/// Whether a private marker is an explicit boolean false.
pub fn package_private_is_not_falsy(v: &Private) -> (r: bool)
    ensures
        r == spec_private_not_falsy(*v),
{
    match v {
        Private::False => true,
        Private::Bool(b) => !*b,
        Private::True => false,
    }
}

/// The eligibility policy: a manifest yields a package exactly when it
/// parsed, declares a non-empty name, and carries a private marker that
/// is an explicit boolean false.  A manifest without a private marker
/// is not eligible.
pub open spec fn spec_eligible(m: ManifestView) -> bool {
    &&& m.name matches Some(n) && n.len() > 0
    &&& m.private matches Some(v) && spec_private_not_falsy(v)
}

/// The package a manifest found at `dir` contributes, if any: the
/// declared name, the candidate directory and the source's id.
pub fn eligible_package(m: &ManifestInfo, dir: String, source_id: String) -> (r: Option<Package>)
    ensures
        match r {
            Some(p) => spec_eligible(m@) && p@.name == m@.name->Some_0 && p@.dir == dir@
                && p@.source_id == source_id@,
            None => !spec_eligible(m@),
        },
{
    let name = match &m.name {
        Some(n) => n,
        None => {
            return None;
        },
    };
    if name.unicode_len() == 0 {
        return None;
    }
    let private = match &m.private {
        Some(v) => v,
        None => {
            return None;
        },
    };
    if !package_private_is_not_falsy(private) {
        return None;
    }
    Some(Package::new(name.clone(), dir, source_id))
}

/// Whether a manifest declares a non-empty workspace member list.
pub fn is_npm_workspaces_project(m: &ManifestInfo) -> (r: bool)
    ensures
        r == (m@.workspaces matches Some(w) && w.len() > 0),
{
    match &m.workspaces {
        Some(w) => w.len() > 0,
        None => false,
    }
}

} // verus!

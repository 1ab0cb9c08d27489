//! Discovery of packages under a source, and the set algebra used to
//! reconcile discovered packages against a lockfile.

use crate::manifest::{spec_eligible, ManifestInfo, ManifestView};
use crate::package::{same_identity, views_of, Package, PackageView};
use crate::source::Source;
use crate::strutil::str_eq;
use vstd::prelude::*;

verus! {

/// One candidate found by the walker: the directory holding a manifest
/// file, and the manifest record read from it, if it parsed at all.
#[derive(Debug, Clone, PartialEq)]
pub struct PackageCandidate {
    pub dir: String,
    pub manifest: Option<ManifestInfo>,
}

/// Mathematical model of a candidate.
#[verifier::ext_equal]
pub ghost struct CandidateView {
    pub dir: Seq<char>,
    pub manifest: Option<ManifestView>,
}

impl View for PackageCandidate {
    type V = CandidateView;

    open spec fn view(&self) -> CandidateView {
        CandidateView {
            dir: self.dir@,
            manifest: match self.manifest {
                Some(ref m) => Some(m@),
                None => None,
            },
        }
    }
}

/// The views of a sequence of candidates.
pub open spec fn cand_views(cs: Seq<PackageCandidate>) -> Seq<CandidateView> {
    cs.map_values(|c: PackageCandidate| c@)
}

/// The package one candidate contributes: none when its manifest failed
/// to parse or is not eligible.
pub open spec fn spec_candidate_package(c: CandidateView, source_id: Seq<char>) -> Option<
    PackageView,
> {
    match c.manifest {
        Some(m) => if spec_eligible(m) {
            Some((PackageView { name: m.name->Some_0, dir: c.dir, source_id }))
        } else {
            None
        },
        None => None,
    }
}

/// The packages a list of candidates contributes, in order.
pub open spec fn spec_discovered(cs: Seq<CandidateView>, source_id: Seq<char>) -> Seq<PackageView>
    decreases cs.len(),
{
    if cs.len() == 0 {
        Seq::empty()
    } else {
        (match spec_candidate_package(cs[0], source_id) {
            Some(p) => seq![p],
            None => Seq::empty(),
        }) + spec_discovered(cs.drop_first(), source_id)
    }
}

/// Discovered packages grow one candidate at a time.
proof fn lemma_discovered_snoc(cs: Seq<CandidateView>, c: CandidateView, source_id: Seq<char>)
    ensures
        spec_discovered(cs.push(c), source_id) == spec_discovered(cs, source_id) + (
        match spec_candidate_package(c, source_id) {
            Some(p) => seq![p],
            None => Seq::<PackageView>::empty(),
        }),
    decreases cs.len(),
{
    let tail = match spec_candidate_package(c, source_id) {
        Some(p) => seq![p],
        None => Seq::<PackageView>::empty(),
    };
    if cs.len() == 0 {
        assert(cs.push(c)[0] == c);
        assert(cs.push(c).drop_first() =~= Seq::<CandidateView>::empty());
        assert(spec_discovered(Seq::<CandidateView>::empty(), source_id) == Seq::<
            PackageView,
        >::empty());
        assert(spec_discovered(cs.push(c), source_id) == tail + Seq::<PackageView>::empty());
        assert(tail + Seq::<PackageView>::empty() =~= tail);
        assert(spec_discovered(cs, source_id) + tail =~= tail);
    } else {
        assert(cs.push(c)[0] == cs[0]);
        assert(cs.push(c).drop_first() =~= cs.drop_first().push(c));
        lemma_discovered_snoc(cs.drop_first(), c, source_id);
        let h = match spec_candidate_package(cs[0], source_id) {
            Some(p) => seq![p],
            None => Seq::<PackageView>::empty(),
        };
        assert(h + (spec_discovered(cs.drop_first(), source_id) + tail) =~= (h + spec_discovered(
            cs.drop_first(),
            source_id,
        )) + tail);
    }
}

/// All packages that can be discovered under one source, given the
/// candidates its walk turned up: for each candidate whose manifest is
/// eligible, a package named by the manifest, at the candidate's
/// directory, owned by the source.
pub fn packages_from_source(source: &Source, candidates: &Vec<PackageCandidate>) -> (r: Vec<
    Package,
>)
    ensures
        views_of(r@) == spec_discovered(cand_views(candidates@), source@.id),
{
    let mut r: Vec<Package> = Vec::new();
    let mut i: usize = 0;
    proof {
        assert(cand_views(candidates@).take(0) =~= Seq::<CandidateView>::empty());
        assert(views_of(r@) =~= spec_discovered(cand_views(candidates@).take(0), source@.id));
    }
    while i < candidates.len()
        invariant
            i <= candidates.len(),
            views_of(r@) == spec_discovered(cand_views(candidates@).take(i as int), source@.id),
        decreases candidates.len() - i,
    {
        let c = &candidates[i];
        let ghost r0 = r@;
        match &c.manifest {
            Some(m) => {
                match crate::manifest::eligible_package(m, c.dir.clone(), source.id.clone()) {
                    Some(p) => {
                        r.push(p);
                        proof {
                            assert(r@ == r0.push(r@[r@.len() - 1]));
                            assert(views_of(r@) =~= views_of(r0) + seq![r@[r@.len() - 1]@]);
                        }
                    },
                    None => {
                        proof {
                            assert(views_of(r@) =~= views_of(r0) + Seq::<PackageView>::empty());
                        }
                    },
                }
            },
            None => {
                proof {
                    assert(views_of(r@) =~= views_of(r0) + Seq::<PackageView>::empty());
                }
            },
        }
        proof {
            lemma_discovered_snoc(cand_views(candidates@).take(i as int), candidates@[i as int]@, source@.id);
            assert(cand_views(candidates@).take(i as int).push(candidates@[i as int]@) =~= cand_views(
                candidates@,
            ).take(i + 1));
        }
        i = i + 1;
    }
    proof {
        assert(cand_views(candidates@).take(i as int) =~= cand_views(candidates@));
    }
    r
}

/// Whether some package in the list shares the given package's
/// identity.
pub open spec fn in_set(ps: Seq<PackageView>, p: PackageView) -> bool {
    exists|j: int| 0 <= j < ps.len() && same_identity(ps[j], p)
}

/// The packages of the left list whose identity appears nowhere on the
/// right, keeping the left copies and their order.
pub open spec fn spec_difference(l: Seq<PackageView>, r: Seq<PackageView>) -> Seq<PackageView>
    decreases l.len(),
{
    if l.len() == 0 {
        Seq::empty()
    } else {
        (if !in_set(r, l[0]) {
            seq![l[0]]
        } else {
            Seq::empty()
        }) + spec_difference(l.drop_first(), r)
    }
}

/// The difference grows one left package at a time.
proof fn lemma_difference_snoc(l: Seq<PackageView>, p: PackageView, r: Seq<PackageView>)
    ensures
        spec_difference(l.push(p), r) == spec_difference(l, r) + (if !in_set(r, p) {
            seq![p]
        } else {
            Seq::<PackageView>::empty()
        }),
    decreases l.len(),
{
    let tail = if !in_set(r, p) {
        seq![p]
    } else {
        Seq::<PackageView>::empty()
    };
    if l.len() == 0 {
        assert(l.push(p)[0] == p);
        assert(l.push(p).drop_first() =~= Seq::<PackageView>::empty());
        assert(spec_difference(Seq::<PackageView>::empty(), r) == Seq::<PackageView>::empty());
        assert(spec_difference(l.push(p), r) == tail + Seq::<PackageView>::empty());
        assert(tail + Seq::<PackageView>::empty() =~= tail);
        assert(spec_difference(l, r) + tail =~= tail);
    } else {
        assert(l.push(p)[0] == l[0]);
        assert(l.push(p).drop_first() =~= l.drop_first().push(p));
        lemma_difference_snoc(l.drop_first(), p, r);
        let h = if !in_set(r, l[0]) {
            seq![l[0]]
        } else {
            Seq::<PackageView>::empty()
        };
        assert(h + (spec_difference(l.drop_first(), r) + tail) =~= (h + spec_difference(
            l.drop_first(),
            r,
        )) + tail);
    }
}

/// Whether the list holds a package with the same identity.
fn contains_identity(ps: &Vec<Package>, p: &Package) -> (r: bool)
    ensures
        r == in_set(views_of(ps@), p@),
{
    let mut j: usize = 0;
    while j < ps.len()
        invariant
            j <= ps.len(),
            forall|k: int| 0 <= k < j ==> !same_identity(views_of(ps@)[k], p@),
        decreases ps.len() - j,
    {
        if str_eq(ps[j].name.as_str(), p.name.as_str()) && str_eq(
            ps[j].source_id.as_str(),
            p.source_id.as_str(),
        ) {
            proof {
                assert(same_identity(views_of(ps@)[j as int], p@));
            }
            return true;
        }
        j = j + 1;
    }
    false
}

/// Every package of the left list whose identity (its name and source
/// id, compared field by field) appears nowhere on the right, in the
/// left list's order and with the left list's copies: the directory a
/// package carries plays no part in the comparison.  The lookup scans
/// the right list per left package, quadratic where a hash set keyed on
/// the identity would be linear: a hash set with string keys has no
/// usable specification here, and running time is not a statable
/// contract.
pub fn difference_packages(left: &Vec<Package>, right: &Vec<Package>) -> (r: Vec<Package>)
    ensures
        views_of(r@) == spec_difference(views_of(left@), views_of(right@)),
{
    let mut r: Vec<Package> = Vec::new();
    let mut i: usize = 0;
    proof {
        assert(views_of(left@).take(0) =~= Seq::<PackageView>::empty());
        assert(views_of(r@) =~= spec_difference(views_of(left@).take(0), views_of(right@)));
    }
    while i < left.len()
        invariant
            i <= left.len(),
            views_of(r@) == spec_difference(views_of(left@).take(i as int), views_of(right@)),
        decreases left.len() - i,
    {
        let ghost r0 = r@;
        if !contains_identity(right, &left[i]) {
            r.push(left[i].clone());
            proof {
                assert(r@ == r0.push(r@[r@.len() - 1]));
                assert(views_of(r@) =~= views_of(r0) + seq![views_of(left@)[i as int]]);
            }
        } else {
            proof {
                assert(views_of(r@) =~= views_of(r0) + Seq::<PackageView>::empty());
            }
        }
        proof {
            lemma_difference_snoc(views_of(left@).take(i as int), views_of(left@)[i as int], views_of(right@));
            assert(views_of(left@).take(i as int).push(views_of(left@)[i as int]) =~= views_of(
                left@,
            ).take(i + 1));
        }
        i = i + 1;
    }
    proof {
        assert(views_of(left@).take(i as int) =~= views_of(left@));
    }
    r
}

} // verus!

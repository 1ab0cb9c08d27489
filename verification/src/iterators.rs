//! Path-level iteration helpers over sources.

use crate::package::{views_of, Package, PackageView};
use crate::source::Source;
use vstd::prelude::*;

verus! {

/// The packages named by raw manifest paths under a source: one package
/// per path, carrying the path as both its name and its directory, and
/// the source's id.
pub open spec fn spec_path_packages(paths: Seq<String>, source_id: Seq<char>) -> Seq<PackageView>
    decreases paths.len(),
{
    if paths.len() == 0 {
        Seq::empty()
    } else {
        seq![(PackageView { name: paths[0]@, dir: paths[0]@, source_id })] + spec_path_packages(
            paths.drop_first(),
            source_id,
        )
    }
}

/// The path packages grow one path at a time.
proof fn lemma_path_packages_snoc(paths: Seq<String>, p: String, source_id: Seq<char>)
    ensures
        spec_path_packages(paths.push(p), source_id) == spec_path_packages(paths, source_id) + seq![
            (PackageView { name: p@, dir: p@, source_id }),
        ],
    decreases paths.len(),
{
    let tail = seq![(PackageView { name: p@, dir: p@, source_id })];
    if paths.len() == 0 {
        assert(paths.push(p)[0] == p);
        assert(paths.push(p).drop_first() =~= Seq::<String>::empty());
        assert(spec_path_packages(Seq::<String>::empty(), source_id) == Seq::<
            PackageView,
        >::empty());
        assert(spec_path_packages(paths.push(p), source_id) == tail + Seq::<PackageView>::empty());
        assert(tail + Seq::<PackageView>::empty() =~= tail);
        assert(spec_path_packages(paths, source_id) + tail =~= tail);
    } else {
        assert(paths.push(p)[0] == paths[0]);
        assert(paths.push(p).drop_first() =~= paths.drop_first().push(p));
        lemma_path_packages_snoc(paths.drop_first(), p, source_id);
        let h = seq![(PackageView { name: paths[0]@, dir: paths[0]@, source_id })];
        assert(h + (spec_path_packages(paths.drop_first(), source_id) + tail) =~= (h
            + spec_path_packages(paths.drop_first(), source_id)) + tail);
    }
}

/// Turns the manifest paths found under a source into package records,
/// one per path, named and located by the path itself.
pub fn packages_from_source(source: &Source, paths: &Vec<String>) -> (r: Vec<Package>)
    ensures
        views_of(r@) == spec_path_packages(paths@, source@.id),
{
    let mut r: Vec<Package> = Vec::new();
    let mut i: usize = 0;
    proof {
        assert(paths@.take(0) =~= Seq::<String>::empty());
        assert(views_of(r@) =~= spec_path_packages(paths@.take(0), source@.id));
    }
    while i < paths.len()
        invariant
            i <= paths.len(),
            views_of(r@) == spec_path_packages(paths@.take(i as int), source@.id),
        decreases paths.len() - i,
    {
        let ghost r0 = r@;
        let p = Package::new(paths[i].clone(), paths[i].clone(), source.id.clone());
        r.push(p);
        proof {
            assert(r@ == r0.push(r@[r@.len() - 1]));
            assert(views_of(r@) =~= views_of(r0) + seq![r@[r@.len() - 1]@]);
            lemma_path_packages_snoc(paths@.take(i as int), paths@[i as int], source@.id);
            assert(paths@.take(i as int).push(paths@[i as int]) =~= paths@.take(i + 1));
        }
        i = i + 1;
    }
    proof {
        assert(paths@.take(i as int) =~= paths@);
    }
    r
}

} // verus!

//! The selection flow's mutations: applying the packages a picker
//! returned to the lockfile, adding or removing them one by one.

use crate::lockfile::{spec_insert, spec_remove, LockfileContent, LockfileView};
use crate::package::{views_of, Package, PackageView};
use vstd::prelude::*;

verus! {

/// The entries after every picked package is upserted, first to last.
pub open spec fn spec_add_all(es: Seq<PackageView>, ps: Seq<PackageView>) -> Seq<PackageView>
    decreases ps.len(),
{
    if ps.len() == 0 {
        es
    } else {
        spec_add_all(spec_insert(es, ps[0]), ps.drop_first())
    }
}

/// The entries after every picked name is removed, first to last.
pub open spec fn spec_remove_all(es: Seq<PackageView>, names: Seq<Seq<char>>) -> Seq<PackageView>
    decreases names.len(),
{
    if names.len() == 0 {
        es
    } else {
        spec_remove_all(spec_remove(es, names[0]), names.drop_first())
    }
}

/// Upserts every picked package into the lockfile, each under its own
/// name.
pub fn add_picked_packages(lockfile: &mut LockfileContent, picked: &Vec<Package>)
    requires
        old(lockfile)@.wf(),
    ensures
        final(lockfile)@.wf(),
        final(lockfile)@.version == old(lockfile)@.version,
        final(lockfile)@.entries == spec_add_all(old(lockfile)@.entries, views_of(picked@)),
{
    let ghost ps = views_of(picked@);
    let mut i: usize = 0;
    proof {
        assert(ps.skip(0) =~= ps);
    }
    while i < picked.len()
        invariant
            lockfile@.wf(),
            lockfile@.version == old(lockfile)@.version,
            i <= picked.len(),
            ps == views_of(picked@),
            spec_add_all(old(lockfile)@.entries, ps) == spec_add_all(
                lockfile@.entries,
                ps.skip(i as int),
            ),
        decreases picked.len() - i,
    {
        let pkg = picked[i].clone();
        let name = pkg.name.clone();
        proof {
            assert(ps.skip(i as int)[0] == ps[i as int]);
            assert(ps.skip(i as int).drop_first() =~= ps.skip(i + 1));
        }
        lockfile.add_package(name, pkg);
        i = i + 1;
    }
    proof {
        assert(ps.skip(i as int).len() == 0);
    }
}

/// The names of a list of packages.
pub open spec fn names_of(ps: Seq<PackageView>) -> Seq<Seq<char>> {
    ps.map_values(|p: PackageView| p.name)
}

/// Removes every picked package's name from the lockfile.
pub fn remove_picked_packages(lockfile: &mut LockfileContent, picked: &Vec<Package>)
    requires
        old(lockfile)@.wf(),
    ensures
        final(lockfile)@.wf(),
        final(lockfile)@.version == old(lockfile)@.version,
        final(lockfile)@.entries == spec_remove_all(
            old(lockfile)@.entries,
            names_of(views_of(picked@)),
        ),
{
    let ghost ns = names_of(views_of(picked@));
    let mut i: usize = 0;
    proof {
        assert(ns.skip(0) =~= ns);
    }
    while i < picked.len()
        invariant
            lockfile@.wf(),
            lockfile@.version == old(lockfile)@.version,
            i <= picked.len(),
            ns == names_of(views_of(picked@)),
            ns.len() == picked@.len(),
            spec_remove_all(old(lockfile)@.entries, ns) == spec_remove_all(
                lockfile@.entries,
                ns.skip(i as int),
            ),
        decreases picked.len() - i,
    {
        let name = picked[i].name.clone();
        proof {
            assert(ns.skip(i as int)[0] == ns[i as int]);
            assert(ns[i as int] == picked@[i as int]@.name);
            assert(ns.skip(i as int).drop_first() =~= ns.skip(i + 1));
        }
        lockfile.remove_package(name);
        i = i + 1;
    }
    proof {
        assert(ns.skip(i as int).len() == 0);
    }
}

} // verus!

//! The sync orchestrator's decisions: which packages to link, in what
//! order, what to hand the external linker, and how the per-package
//! outcomes aggregate.  Running the linker itself is the application's
//! work; it reports one outcome per package back here.

use crate::lockfile::LockfileContent;
use crate::package::{views_of, Package};
use crate::strutil::{push_str_chars_pub, chars_to_string, string_to_chars};
use vstd::prelude::*;

verus! {

/// The packages one sync run attempts, in ascending name order: every
/// package of the lockfile, each exactly once.
pub fn sync_plan(lockfile: &LockfileContent) -> (r: Vec<Package>)
    ensures
        views_of(r@) == lockfile@.entries,
{
    lockfile.packages_iter()
}

/// The two arguments the external linker is invoked with for one
/// package: the link subcommand and the package's directory.
pub fn link_command_args(pkg: &Package) -> (r: Vec<String>)
    ensures
        r@.len() == 2,
        r@[0]@ == "link"@,
        r@[1]@ == pkg@.dir,
{
    let mut r: Vec<String> = Vec::new();
    r.push(String::from_str("link"));
    r.push(pkg.dir.clone());
    r
}

/// The message shown before one package is linked.
pub fn link_message(pkg: &Package) -> (r: String)
    ensures
        r@ == "> Link package "@ + pkg@.name + ": \n"@,
{
    let mut out: Vec<char> = Vec::new();
    push_str_chars_pub(&mut out, "> Link package ");
    push_str_chars_pub(&mut out, pkg.name.as_str());
    push_str_chars_pub(&mut out, ": \n");
    proof {
        assert(out@ =~= "> Link package "@ + pkg@.name + ": \n"@);
    }
    chars_to_string(&out)
}

/// How many of the per-package outcomes failed.
pub open spec fn spec_failure_count(results: Seq<bool>) -> nat
    decreases results.len(),
{
    if results.len() == 0 {
        0
    } else {
        (if results[0] {
            0nat
        } else {
            1nat
        }) + spec_failure_count(results.drop_first())
    }
}

/// The failure count grows by at most one per outcome.
proof fn lemma_failure_count_snoc(results: Seq<bool>, b: bool)
    ensures
        spec_failure_count(results.push(b)) == spec_failure_count(results) + (if b {
            0nat
        } else {
            1nat
        }),
    decreases results.len(),
{
    if results.len() == 0 {
        assert(results.push(b)[0] == b);
        assert(results.push(b).drop_first() =~= Seq::<bool>::empty());
        assert(spec_failure_count(Seq::<bool>::empty()) == 0);
        assert(spec_failure_count(results) == 0);
    } else {
        assert(results.push(b)[0] == results[0]);
        assert(results.push(b).drop_first() =~= results.drop_first().push(b));
        lemma_failure_count_snoc(results.drop_first(), b);
    }
}

/// Counts the failed outcomes of one sync run.
pub fn count_failures(results: &Vec<bool>) -> (n: usize)
    ensures
        n == spec_failure_count(results@),
        n <= results@.len(),
{
    let mut n: usize = 0;
    let mut i: usize = 0;
    proof {
        assert(results@.take(0) =~= Seq::<bool>::empty());
    }
    while i < results.len()
        invariant
            i <= results.len(),
            n <= i,
            n == spec_failure_count(results@.take(i as int)),
        decreases results.len() - i,
    {
        if !results[i] {
            n = n + 1;
        }
        proof {
            lemma_failure_count_snoc(results@.take(i as int), results@[i as int]);
            assert(results@.take(i as int).push(results@[i as int]) =~= results@.take(i + 1));
        }
        i = i + 1;
    }
    proof {
        assert(results@.take(i as int) =~= results@);
    }
    n
}

/// Whether a sync run as a whole succeeded: no attempted package
/// failed.  Sync is best effort — every package is attempted whatever
/// happened before it — so the aggregate is a count, never an early
/// stop.
pub fn sync_succeeded(results: &Vec<bool>) -> (r: bool)
    ensures
        r == (spec_failure_count(results@) == 0),
{
    let n = count_failures(results);
    n == 0
}

/// No outcome failed exactly when every outcome succeeded.
pub proof fn lemma_no_failures(results: Seq<bool>)
    ensures
        (spec_failure_count(results) == 0) <==> (forall|j: int|
            0 <= j < results.len() ==> results[j]),
    decreases results.len(),
{
    if results.len() > 0 {
        lemma_no_failures(results.drop_first());
        if spec_failure_count(results) == 0 {
            assert forall|j: int| 0 <= j < results.len() implies results[j] by {
                if j > 0 {
                    assert(results.drop_first()[j - 1] == results[j]);
                }
            }
        }
        if forall|j: int| 0 <= j < results.len() ==> results[j] {
            assert forall|j: int| 0 <= j < results.drop_first().len() implies results.drop_first()[j] by {
                assert(results.drop_first()[j] == results[j + 1]);
            }
        }
    }
}

} // verus!

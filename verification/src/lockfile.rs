//! The persisted selection of packages: an in-memory map from package
//! name to package record, kept as a vector sorted strictly by name so
//! that iteration and serialization are deterministic.

use crate::codec::{parse_lockfile, ser_lockfile};
use crate::package::{views_of, Package, PackageView};
use crate::strutil::{chars_to_string, lex_lt, str_lex_lt, string_to_chars};
use vstd::prelude::*;

verus! {

/// The version string a fresh lockfile carries.
pub open spec fn spec_default_version() -> Seq<char> {
    "0.0.1"@
}

/// Mathematical model of a lockfile: its version string and its entries,
/// in ascending name order.
#[verifier::ext_equal]
pub ghost struct LockfileView {
    pub version: Seq<char>,
    pub entries: Seq<PackageView>,
}

/// Entries are strictly ascending by name: names are unique and sorted.
pub open spec fn entries_sorted(es: Seq<PackageView>) -> bool {
    forall|i: int, j: int| 0 <= i < j < es.len() ==> lex_lt(es[i].name, es[j].name)
}

impl LockfileView {
    /// A lockfile is well formed when its entries are strictly sorted
    /// by name.
    pub open spec fn wf(self) -> bool {
        entries_sorted(self.entries)
    }
}

/// Where a package lands in a sorted entry list: entries with smaller
/// names stay in front, an entry with the same name is overwritten, the
/// rest follows.
pub open spec fn spec_insert(es: Seq<PackageView>, p: PackageView) -> Seq<PackageView>
    decreases es.len(),
{
    if es.len() == 0 {
        seq![p]
    } else if lex_lt(es[0].name, p.name) {
        seq![es[0]] + spec_insert(es.drop_first(), p)
    } else if es[0].name == p.name {
        seq![p] + es.drop_first()
    } else {
        seq![p] + es
    }
}

/// Removal from a sorted entry list: the entry with the given name, if
/// any, disappears; everything else stays.
pub open spec fn spec_remove(es: Seq<PackageView>, name: Seq<char>) -> Seq<PackageView>
    decreases es.len(),
{
    if es.len() == 0 {
        es
    } else if es[0].name == name {
        es.drop_first()
    } else {
        seq![es[0]] + spec_remove(es.drop_first(), name)
    }
}

/// The lockfile text could not be read as a lockfile.
#[derive(Debug, Clone, Copy, PartialEq, Eq)]
pub struct LockfileParseError;

/// The persisted set of packages a target has selected for linking.
#[derive(Debug, PartialEq)]
pub struct LockfileContent {
    /// Format version of the lockfile.
    pub version: String,
    packages: Vec<Package>,
}

impl View for LockfileContent {
    type V = LockfileView;

    closed spec fn view(&self) -> LockfileView {
        LockfileView {
            version: self.version@,
            entries: views_of(self.packages@),
        }
    }
}

impl LockfileContent {
    /// A fresh, empty lockfile with the default version.
    pub fn new() -> (l: LockfileContent)
        ensures
            l@.version == spec_default_version(),
            l@.entries.len() == 0,
            l@.wf(),
    {
        LockfileContent { version: String::from_str("0.0.1"), packages: Vec::new() }
    }

    /// Emptiness is reported as a constant.
    pub fn is_empty() -> (r: bool)
        ensures
            r,
    {
        true
    }

    /// Upserts a package under the given name, which must be the
    /// package's own name: the map key always equals the record's name.
    pub fn add_package(&mut self, pkg_name: String, pkg: Package)
        requires
            old(self)@.wf(),
            pkg_name@ == pkg@.name,
        ensures
            final(self)@.wf(),
            final(self)@.version == old(self)@.version,
            final(self)@.entries == spec_insert(old(self)@.entries, pkg@),
    {
        insert_sorted(&mut self.packages, pkg);
    }

    /// Removes the entry with the given name; absent names change
    /// nothing.
    pub fn remove_package(&mut self, pkg_name: String)
        requires
            old(self)@.wf(),
        ensures
            final(self)@.wf(),
            final(self)@.version == old(self)@.version,
            final(self)@.entries == spec_remove(old(self)@.entries, pkg_name@),
    {
        let ghost oldes = self@.entries;
        proof {
            assert(oldes.skip(0) =~= oldes);
            assert(oldes.take(0) + spec_remove(oldes.skip(0), pkg_name@) =~= spec_remove(
                oldes,
                pkg_name@,
            ));
        }
        let mut idx: usize = 0;
        loop
            invariant
                self@.wf(),
                self@ == old(self)@,
                oldes == self@.entries,
                idx <= self.packages.len(),
                spec_remove(oldes, pkg_name@) == oldes.take(idx as int) + spec_remove(
                    oldes.skip(idx as int),
                    pkg_name@,
                ),
            ensures
                self@ == old(self)@,
                oldes == self@.entries,
                idx <= self.packages.len(),
                spec_remove(oldes, pkg_name@) == oldes.take(idx as int) + spec_remove(
                    oldes.skip(idx as int),
                    pkg_name@,
                ),
                idx < self.packages.len() ==> oldes[idx as int].name == pkg_name@,
            decreases self.packages.len() - idx,
        {
            if idx == self.packages.len() {
                break;
            }
            assert(oldes.skip(idx as int)[0] == oldes[idx as int]);
            let same = self.packages[idx].name == pkg_name;
            if same {
                break;
            }
            proof {
                assert(oldes.skip(idx as int).drop_first() =~= oldes.skip(idx as int + 1));
                assert(spec_remove(oldes.skip(idx as int), pkg_name@) == seq![oldes[idx as int]]
                    + spec_remove(oldes.skip(idx as int + 1), pkg_name@));
                assert(oldes.take(idx as int) + (seq![oldes[idx as int]] + spec_remove(
                    oldes.skip(idx as int + 1),
                    pkg_name@,
                )) =~= oldes.take(idx as int + 1) + spec_remove(oldes.skip(idx as int + 1), pkg_name@));
            }
            idx = idx + 1;
        }
        if idx < self.packages.len() {
            assert(oldes.skip(idx as int)[0] == oldes[idx as int]);
            self.packages.remove(idx);
            proof {
                assert(spec_remove(oldes.skip(idx as int), pkg_name@) == oldes.skip(
                    idx as int,
                ).drop_first());
                assert(oldes.skip(idx as int).drop_first() =~= oldes.skip(idx as int + 1));
                assert(self@.entries =~= oldes.take(idx as int) + oldes.skip(idx as int + 1));
                lemma_remove_keeps_sorted(oldes, pkg_name@);
            }
            return;
        }
        proof {
            assert(oldes.skip(idx as int).len() == 0);
            assert(spec_remove(oldes.skip(idx as int), pkg_name@) == oldes.skip(idx as int));
            assert(self@.entries =~= oldes.take(idx as int) + oldes.skip(idx as int));
            lemma_remove_keeps_sorted(oldes, pkg_name@);
        }
    }

    /// The canonical on-disk text of this lockfile.
    pub fn to_json_string(&self) -> (r: String)
        requires
            self@.wf(),
        ensures
            r@ == ser_lockfile(self@),
    {
        let chars = crate::codec::ser_lockfile_chars(self.version.as_str(), &self.packages);
        chars_to_string(&chars)
    }

    /// Reads a lockfile from its on-disk text: any well-shaped JSON of
    /// the lockfile schema, whatever its whitespace and key order; any
    /// other text is an error.
    pub fn init_from_lockfile_string(content: String) -> (r: Result<
        LockfileContent,
        LockfileParseError,
    >)
        ensures
            match parse_lockfile(content@) {
                Some(lv) => r matches Ok(l) && l@ == lv && l@.wf(),
                None => r is Err,
            },
    {
        proof {
            crate::codec::lemma_parse_lockfile_wf(content@);
        }
        let chars = string_to_chars(content.as_str());
        match crate::codec::parse_lockfile_chars(&chars) {
            Some((version, packages)) => Ok(LockfileContent { version, packages }),
            None => Err(LockfileParseError),
        }
    }

    /// Reads a lockfile from the text found on disk, if any; a missing
    /// or unreadable file and text that does not parse all alike give a
    /// fresh default lockfile.
    pub fn load_or_default(content: Option<String>) -> (l: LockfileContent)
        ensures
            l@.wf(),
            match content {
                Some(c) => match parse_lockfile(c@) {
                    Some(lv) => l@ == lv,
                    None => l@.version == spec_default_version() && l@.entries.len() == 0,
                },
                None => l@.version == spec_default_version() && l@.entries.len() == 0,
            },
    {
        match content {
            Some(c) => match Self::init_from_lockfile_string(c) {
                Ok(l) => l,
                Err(_) => LockfileContent::new(),
            },
            None => LockfileContent::new(),
        }
    }

    /// The selected packages, in ascending name order.
    pub fn packages_iter(&self) -> (r: Vec<Package>)
        ensures
            views_of(r@) == self@.entries,
    {
        let mut r: Vec<Package> = Vec::new();
        let mut i: usize = 0;
        proof {
            assert(r@ =~= self.packages@.take(0));
        }
        while i < self.packages.len()
            invariant
                i <= self.packages.len(),
                r@ == self.packages@.take(i as int),
            decreases self.packages.len() - i,
        {
            let ghost r0 = r@;
            r.push(self.packages[i].clone());
            proof {
                assert(r@ == r0.push(self.packages@[i as int]));
                assert(r@ =~= self.packages@.take(i + 1));
            }
            i = i + 1;
        }
        proof {
            assert(self.packages@.take(i as int) =~= self.packages@);
        }
        r
    }
}

/// Upserts a package into a name-sorted package list: packages with
/// smaller names stay in front, one with the same name is overwritten,
/// the rest follows, and the list stays sorted.
pub fn insert_sorted(packages: &mut Vec<Package>, pkg: Package)
    requires
        entries_sorted(views_of(old(packages)@)),
    ensures
        entries_sorted(views_of(final(packages)@)),
        views_of(final(packages)@) == spec_insert(views_of(old(packages)@), pkg@),
{
    let ghost oldes = views_of(packages@);
    proof {
        assert(oldes.skip(0) =~= oldes);
        assert(oldes.take(0) + spec_insert(oldes.skip(0), pkg@) =~= spec_insert(oldes, pkg@));
    }
    let mut idx: usize = 0;
    loop
        invariant
            entries_sorted(views_of(packages@)),
            packages@ == old(packages)@,
            oldes == views_of(packages@),
            idx <= packages.len(),
            forall|k: int| 0 <= k < idx ==> lex_lt(#[trigger] oldes[k].name, pkg@.name),
            spec_insert(oldes, pkg@) == oldes.take(idx as int) + spec_insert(
                oldes.skip(idx as int),
                pkg@,
            ),
        ensures
            packages@ == old(packages)@,
            oldes == views_of(packages@),
            idx <= packages.len(),
            forall|k: int| 0 <= k < idx ==> lex_lt(#[trigger] oldes[k].name, pkg@.name),
            spec_insert(oldes, pkg@) == oldes.take(idx as int) + spec_insert(
                oldes.skip(idx as int),
                pkg@,
            ),
            idx < packages.len() ==> !lex_lt(oldes[idx as int].name, pkg@.name),
        decreases packages.len() - idx,
    {
        if idx == packages.len() {
            break;
        }
        assert(oldes.skip(idx as int)[0] == oldes[idx as int]);
        let go_right = str_lex_lt(packages[idx].name.as_str(), pkg.name.as_str());
        if !go_right {
            break;
        }
        proof {
            assert(oldes.skip(idx as int).drop_first() =~= oldes.skip(idx as int + 1));
            assert(spec_insert(oldes.skip(idx as int), pkg@) == seq![oldes[idx as int]]
                + spec_insert(oldes.skip(idx as int + 1), pkg@));
            assert(oldes.take(idx as int) + (seq![oldes[idx as int]] + spec_insert(
                oldes.skip(idx as int + 1),
                pkg@,
            )) =~= oldes.take(idx as int + 1) + spec_insert(oldes.skip(idx as int + 1), pkg@));
        }
        idx = idx + 1;
    }
    let ghost es = views_of(packages@);
    proof {
        lemma_lex_lt_props();
    }
    if idx < packages.len() {
        assert(es.skip(idx as int)[0] == es[idx as int]);
        let same = packages[idx].name == pkg.name;
        if same {
            packages.remove(idx);
            packages.insert(idx, pkg);
            proof {
                assert(spec_insert(es.skip(idx as int), pkg@) == seq![pkg@] + es.skip(
                    idx as int,
                ).drop_first());
                assert(views_of(packages@) =~= es.take(idx as int) + (seq![pkg@] + es.skip(
                    idx as int,
                ).drop_first()));
                lemma_insert_keeps_sorted(es, pkg@);
            }
            return;
        }
        packages.insert(idx, pkg);
        proof {
            assert(!lex_lt(es[idx as int].name, pkg@.name));
            assert(spec_insert(es.skip(idx as int), pkg@) == seq![pkg@] + es.skip(idx as int));
            assert(views_of(packages@) =~= es.take(idx as int) + (seq![pkg@] + es.skip(
                idx as int,
            )));
            lemma_insert_keeps_sorted(es, pkg@);
        }
        return;
    }
    packages.push(pkg);
    proof {
        assert(es.skip(idx as int).len() == 0);
        assert(spec_insert(es.skip(idx as int), pkg@) == seq![pkg@]);
        assert(views_of(packages@) =~= es.take(idx as int) + seq![pkg@]);
        lemma_insert_keeps_sorted(es, pkg@);
    }
}

impl Clone for LockfileContent {
    /// A clone is equal to the original.
    fn clone(&self) -> (r: Self)
        ensures
            r@ == self@,
    {
        let mut packages: Vec<Package> = Vec::new();
        let mut i: usize = 0;
        while i < self.packages.len()
            invariant
                i <= self.packages.len(),
                packages@ =~= self.packages@.take(i as int),
            decreases self.packages.len() - i,
        {
            packages.push(self.packages[i].clone());
            proof {
                assert(packages@ =~= self.packages@.take(i + 1 as int));
            }
            i = i + 1;
        }
        proof {
            assert(self.packages@.take(i as int) =~= self.packages@);
        }
        let r = LockfileContent { version: self.version.clone(), packages };
        proof {
            assert(r@ =~~= self@);
        }
        r
    }
}

impl Default for LockfileContent {
    /// A fresh, empty lockfile with the default version.
    fn default() -> (l: LockfileContent)
        ensures
            l@.version == spec_default_version(),
            l@.entries.len() == 0,
            l@.wf(),
    {
        LockfileContent::new()
    }
}

/// Dropping the first entry of a sorted list leaves a sorted list.
pub proof fn lemma_sorted_drop_first(es: Seq<PackageView>)
    requires
        entries_sorted(es),
        es.len() > 0,
    ensures
        entries_sorted(es.drop_first()),
{
    assert forall|i: int, j: int| 0 <= i < j < es.drop_first().len() implies lex_lt(
        es.drop_first()[i].name,
        es.drop_first()[j].name,
    ) by {
        assert(es.drop_first()[i] == es[i + 1]);
        assert(es.drop_first()[j] == es[j + 1]);
    }
}

/// Every entry of an insertion result is the inserted package or an
/// entry of the original list.
proof fn lemma_insert_names(es: Seq<PackageView>, p: PackageView)
    ensures
        forall|j: int|
            0 <= j < spec_insert(es, p).len() ==> #[trigger] spec_insert(es, p)[j] == p || exists|k: int|
                0 <= k < es.len() && es[k] == spec_insert(es, p)[j],
    decreases es.len(),
{
    if es.len() == 0 {
    } else if lex_lt(es[0].name, p.name) {
        lemma_insert_names(es.drop_first(), p);
        assert forall|j: int| 0 <= j < spec_insert(es, p).len() implies #[trigger] spec_insert(
            es,
            p,
        )[j] == p || exists|k: int| 0 <= k < es.len() && es[k] == spec_insert(es, p)[j] by {
            if j == 0 {
                assert(spec_insert(es, p)[0] == es[0]);
            } else {
                let q = spec_insert(es, p)[j];
                assert(spec_insert(es.drop_first(), p)[j - 1] == q);
                if q != p {
                    let k = choose|k: int|
                        0 <= k < es.drop_first().len() && es.drop_first()[k] == q;
                    assert(es[k + 1] == q);
                }
            }
        }
    } else if es[0].name == p.name {
        assert forall|j: int| 0 <= j < spec_insert(es, p).len() implies #[trigger] spec_insert(
            es,
            p,
        )[j] == p || exists|k: int| 0 <= k < es.len() && es[k] == spec_insert(es, p)[j] by {
            if j > 0 {
                assert(es.drop_first()[j - 1] == es[j]);
                assert(spec_insert(es, p)[j] == es[j]);
            }
        }
    } else {
        assert forall|j: int| 0 <= j < spec_insert(es, p).len() implies #[trigger] spec_insert(
            es,
            p,
        )[j] == p || exists|k: int| 0 <= k < es.len() && es[k] == spec_insert(es, p)[j] by {
            if j > 0 {
                assert(spec_insert(es, p)[j] == es[j - 1]);
            }
        }
    }
}

/// `spec_insert` keeps a sorted list sorted.
pub proof fn lemma_insert_keeps_sorted(es: Seq<PackageView>, p: PackageView)
    requires
        entries_sorted(es),
    ensures
        entries_sorted(spec_insert(es, p)),
    decreases es.len(),
{
    lemma_lex_lt_props();
    if es.len() == 0 {
    } else if lex_lt(es[0].name, p.name) {
        lemma_sorted_drop_first(es);
        lemma_insert_keeps_sorted(es.drop_first(), p);
        lemma_insert_names(es.drop_first(), p);
        let r = seq![es[0]] + spec_insert(es.drop_first(), p);
        assert forall|i: int, j: int| 0 <= i < j < r.len() implies lex_lt(r[i].name, r[j].name) by {
            if i == 0 {
                let q = spec_insert(es.drop_first(), p)[j - 1];
                assert(r[j] == q);
                if q == p {
                    assert(lex_lt(es[0].name, p.name));
                } else {
                    let k = choose|k: int|
                        0 <= k < es.drop_first().len() && es.drop_first()[k] == q;
                    assert(es[k + 1] == q);
                    assert(lex_lt(es[0].name, es[k + 1].name));
                }
            } else {
                assert(r[i] == spec_insert(es.drop_first(), p)[i - 1]);
                assert(r[j] == spec_insert(es.drop_first(), p)[j - 1]);
            }
        }
    } else if es[0].name == p.name {
        lemma_sorted_drop_first(es);
        let r = seq![p] + es.drop_first();
        assert forall|i: int, j: int| 0 <= i < j < r.len() implies lex_lt(r[i].name, r[j].name) by {
            if i == 0 {
                assert(es.drop_first()[j - 1] == es[j]);
                assert(lex_lt(es[0].name, es[j].name));
            } else {
                assert(r[i] == es[i]);
                assert(r[j] == es[j]);
            }
        }
    } else {
        assert(lex_lt(p.name, es[0].name));
        let r = seq![p] + es;
        assert forall|i: int, j: int| 0 <= i < j < r.len() implies lex_lt(r[i].name, r[j].name) by {
            if i == 0 {
                if j > 1 {
                    assert(lex_lt(es[0].name, es[j - 1].name));
                }
            } else {
                assert(r[i] == es[i - 1]);
                assert(r[j] == es[j - 1]);
            }
        }
    }
}

/// `spec_remove` keeps a sorted list sorted.
proof fn lemma_remove_keeps_sorted(es: Seq<PackageView>, name: Seq<char>)
    requires
        entries_sorted(es),
    ensures
        entries_sorted(spec_remove(es, name)),
    decreases es.len(),
{
    if es.len() == 0 {
    } else if es[0].name == name {
        lemma_sorted_drop_first(es);
    } else {
        lemma_sorted_drop_first(es);
        lemma_remove_keeps_sorted(es.drop_first(), name);
        let r = seq![es[0]] + spec_remove(es.drop_first(), name);
        assert forall|i: int, j: int| 0 <= i < j < r.len() implies lex_lt(r[i].name, r[j].name) by {
            lemma_remove_is_subset(es.drop_first(), name);
            if i == 0 {
                let p = r[j];
                let k = choose|k: int|
                    0 <= k < es.drop_first().len() && es.drop_first()[k] == p && #[trigger] spec_remove(
                        es.drop_first(),
                        name,
                    )[j - 1] == p;
                assert(es.drop_first()[k] == es[k + 1]);
                assert(lex_lt(es[0].name, es[k + 1].name));
            }
        }
    }
}

/// Every entry surviving a removal stood in the original list.
proof fn lemma_remove_is_subset(es: Seq<PackageView>, name: Seq<char>)
    requires
        entries_sorted(es),
    ensures
        forall|j: int|
            0 <= j < spec_remove(es, name).len() ==> exists|k: int|
                0 <= k < es.len() && es[k] == #[trigger] spec_remove(es, name)[j],
    decreases es.len(),
{
    if es.len() == 0 {
    } else if es[0].name == name {
        assert forall|j: int| 0 <= j < spec_remove(es, name).len() implies exists|k: int|
            0 <= k < es.len() && es[k] == #[trigger] spec_remove(es, name)[j] by {
            assert(es.drop_first()[j] == es[j + 1]);
            assert(es[j + 1] == spec_remove(es, name)[j]);
        }
    } else {
        lemma_sorted_drop_first(es);
        lemma_remove_is_subset(es.drop_first(), name);
        assert forall|j: int| 0 <= j < spec_remove(es, name).len() implies exists|k: int|
            0 <= k < es.len() && es[k] == #[trigger] spec_remove(es, name)[j] by {
            if j == 0 {
                assert(spec_remove(es, name)[0] == es[0]);
            } else {
                let p = spec_remove(es, name)[j];
                assert(spec_remove(es.drop_first(), name)[j - 1] == p);
                let k = choose|k: int|
                    0 <= k < es.drop_first().len() && es.drop_first()[k] == p;
                assert(es[k + 1] == p);
            }
        }
    }
}

/// `lex_lt` is a strict order: irreflexive and transitive; exactly one
/// of `a < b`, `a == b`, `b < a` holds.
pub proof fn lemma_lex_lt_props()
    ensures
        forall|a: Seq<char>| !lex_lt(a, a),
        forall|a: Seq<char>, b: Seq<char>, c: Seq<char>|
            #[trigger] lex_lt(a, b) && #[trigger] lex_lt(b, c) ==> lex_lt(a, c),
        forall|a: Seq<char>, b: Seq<char>| !lex_lt(a, b) && !lex_lt(b, a) ==> a == b,
{
    assert forall|a: Seq<char>| !lex_lt(a, a) by {
        lemma_lex_irrefl(a);
    }
    assert forall|a: Seq<char>, b: Seq<char>, c: Seq<char>|
        #[trigger] lex_lt(a, b) && #[trigger] lex_lt(b, c) implies lex_lt(a, c) by {
        lemma_lex_trans(a, b, c);
    }
    assert forall|a: Seq<char>, b: Seq<char>| !lex_lt(a, b) && !lex_lt(b, a) implies a == b by {
        lemma_lex_total(a, b);
    }
}

proof fn lemma_lex_irrefl(a: Seq<char>)
    ensures
        !lex_lt(a, a),
    decreases a.len(),
{
    if a.len() > 0 {
        lemma_lex_irrefl(a.drop_first());
    }
}

proof fn lemma_lex_trans(a: Seq<char>, b: Seq<char>, c: Seq<char>)
    requires
        lex_lt(a, b),
        lex_lt(b, c),
    ensures
        lex_lt(a, c),
    decreases a.len() + b.len() + c.len(),
{
    if b.len() == 0 {
    } else if a.len() == 0 {
    } else if c.len() == 0 {
    } else {
        if (a[0] as u32) < (b[0] as u32) {
            if (b[0] as u32) < (c[0] as u32) {
            } else {
                assert(b[0] == c[0]);
            }
        } else {
            assert(a[0] == b[0]);
            if (b[0] as u32) < (c[0] as u32) {
            } else {
                assert(b[0] == c[0]);
                lemma_lex_trans(a.drop_first(), b.drop_first(), c.drop_first());
            }
        }
    }
}

proof fn lemma_lex_total(a: Seq<char>, b: Seq<char>)
    requires
        !lex_lt(a, b),
        !lex_lt(b, a),
    ensures
        a == b,
    decreases a.len(),
{
    if b.len() == 0 {
        assert(a.len() == 0);
        assert(a =~= b);
    } else if a.len() == 0 {
        assert(false);
    } else {
        if (a[0] as u32) < (b[0] as u32) {
            assert(false);
        } else if (b[0] as u32) < (a[0] as u32) {
            assert(false);
        } else {
            assert(a[0] as u32 == b[0] as u32);
            vstd::utf8::char_u32_cast(a[0], a[0] as u32);
            vstd::utf8::char_u32_cast(b[0], b[0] as u32);
            assert(a[0] == b[0]);
            lemma_lex_total(a.drop_first(), b.drop_first());
            assert(a =~= seq![a[0]] + a.drop_first());
            assert(b =~= seq![b[0]] + b.drop_first());
        }
    }
}

/// The lockfile text round-trips: reading back the serialized text of
/// any well-formed lockfile yields that lockfile, structurally equal.
pub proof fn lemma_lockfile_round_trip(l: LockfileView)
    requires
        l.wf(),
    ensures
        parse_lockfile(ser_lockfile(l)) == Some(l),
{
    crate::codec::lemma_parse_ser_lockfile(l);
}

/// Adding the same package twice leaves exactly what adding it once
/// leaves: the upsert is idempotent.
pub proof fn lemma_add_idempotent(es: Seq<PackageView>, p: PackageView)
    requires
        entries_sorted(es),
    ensures
        spec_insert(spec_insert(es, p), p) == spec_insert(es, p),
    decreases es.len(),
{
    lemma_lex_lt_props();
    if es.len() == 0 {
        assert(spec_insert(seq![p], p) =~= seq![p] + seq![p].drop_first());
        assert(spec_insert(seq![p], p) =~= seq![p]);
    } else if lex_lt(es[0].name, p.name) {
        lemma_sorted_drop_first(es);
        lemma_add_idempotent(es.drop_first(), p);
        let once = seq![es[0]] + spec_insert(es.drop_first(), p);
        assert(once[0] == es[0]);
        assert(once.drop_first() =~= spec_insert(es.drop_first(), p));
        assert(spec_insert(once, p) == seq![es[0]] + spec_insert(once.drop_first(), p));
    } else if es[0].name == p.name {
        let once = seq![p] + es.drop_first();
        assert(once[0] == p);
        assert(once.drop_first() =~= es.drop_first());
        assert(spec_insert(once, p) == seq![p] + once.drop_first());
    } else {
        let once = seq![p] + es;
        assert(once[0] == p);
        assert(once.drop_first() =~= es);
        assert(spec_insert(once, p) == seq![p] + once.drop_first());
    }
}

/// Removing a name that no entry carries changes nothing.
pub proof fn lemma_remove_absent(es: Seq<PackageView>, name: Seq<char>)
    requires
        forall|i: int| 0 <= i < es.len() ==> (#[trigger] es[i].name) != name,
    ensures
        spec_remove(es, name) == es,
    decreases es.len(),
{
    if es.len() > 0 {
        assert(es[0].name != name);
        lemma_remove_absent(es.drop_first(), name);
        assert(seq![es[0]] + es.drop_first() =~= es);
    }
}

} // verus!

//! Concurrent directory traversal.
//!
//! The walk itself is done by the `ignore` crate behind a trusted
//! wrapper that hands back every visited entry's path and depth; what
//! the library guarantees is the filtering: which of those entries are
//! yielded, by depth bound and by the path patterns, is specified and
//! verified exactly.

use crate::strutil::str_views;
use vstd::prelude::*;

verus! {

/// How walk results are delivered to a consumer.
#[derive(Debug, Clone, Copy, PartialEq, Eq, Structural)]
pub enum ReceiveMode {
    Buffer,
    Stream,
}

/// Why a walk could not be set up at all.
#[derive(Debug, Clone, PartialEq, Eq, Structural)]
pub enum WalkError {
    /// The list of root paths was empty.
    EmptyRoots,
    /// A path pattern was rejected by the pattern engine.
    InvalidPattern,
}

impl WalkError {
    /// A human-readable description of the error.
    pub fn message(&self) -> (r: String)
        ensures
            *self == WalkError::EmptyRoots ==> r@ == "no root paths to walk"@,
            *self == WalkError::InvalidPattern ==> r@ == "invalid path pattern"@,
    {
        match self {
            WalkError::EmptyRoots => String::from_str("no root paths to walk"),
            WalkError::InvalidPattern => String::from_str("invalid path pattern"),
        }
    }
}

/// Options for a walk: how many worker threads, how deep to descend,
/// and the path patterns every yielded path must match.
#[derive(Debug, Clone, PartialEq)]
pub struct WalkOption {
    /// How many worker threads walk the roots.
    pub threads: usize,
    /// Greatest depth that is visited; the roots themselves are depth
    /// zero and are never yielded.
    pub max_depth: usize,
    /// Pattern texts, all of which must match a yielded path.
    pub patterns: Vec<String>,
}

impl WalkOption {
    /// Options with the given patterns and the default worker count and
    /// depth bound.
    pub fn new(patterns: Vec<String>) -> (o: WalkOption)
        ensures
            o.threads == 5,
            o.max_depth == 10,
            o.patterns == patterns,
    {
        WalkOption { threads: 5, max_depth: 10, patterns }
    }

    /// The same options with another depth bound.
    pub fn max_depth(self, size: usize) -> (o: WalkOption)
        ensures
            o.threads == self.threads,
            o.max_depth == size,
            o.patterns == self.patterns,
    {
        WalkOption { max_depth: size, ..self }
    }

    /// The same options with another worker count.
    pub fn threads(self, size: usize) -> (o: WalkOption)
        ensures
            o.threads == size,
            o.max_depth == self.max_depth,
            o.patterns == self.patterns,
    {
        WalkOption { threads: size, ..self }
    }
}

impl Default for WalkOption {
    /// Five workers, depth bound ten, no patterns.
    fn default() -> (o: WalkOption)
        ensures
            o.threads == 5,
            o.max_depth == 10,
            o.patterns@.len() == 0,
    {
        WalkOption { threads: 5, max_depth: 10, patterns: Vec::new() }
    }
}

#[verifier::external_type_specification]
#[verifier::external_body]
pub struct ExRegex(regex::bytes::Regex);

/// Whether a pattern matches a text, as the regex crate decides it on
/// the text's UTF-8 bytes.  Named rather than spelled out: the pattern
/// language's semantics are the regex crate's own, and the outcome is a
/// function of pattern and text alone.
pub uninterp spec fn regex_match(pattern: Seq<char>, text: Seq<char>) -> bool;

/// Whether a pattern text compiles, as the regex crate decides it: a
/// function of the text alone.
pub uninterp spec fn regex_ok(pattern: Seq<char>) -> bool;

/// A path pattern: the pattern text together with its compiled form.
#[derive(Debug)]
pub struct PathPattern {
    source: String,
    compiled: regex::bytes::Regex,
}

impl PathPattern {
    /// The pattern text this pattern was compiled from.
    pub closed spec fn src(&self) -> Seq<char> {
        self.source@
    }

    /// Relies on `regex::bytes::Regex::new`: compiles the pattern text;
    /// whether it compiles depends on the text alone, and exactly the
    /// texts the regex crate rejects give nothing back.
    #[verifier::external_body]
    pub fn new(source: String) -> (r: Option<PathPattern>)
        ensures
            r is Some <==> regex_ok(source@),
            r matches Some(p) ==> p.src() == source@,
    {
        match regex::bytes::Regex::new(source.as_str()) {
            Ok(compiled) => Some(PathPattern { source, compiled }),
            Err(_) => None,
        }
    }

    /// Relies on `regex::bytes::Regex::is_match`, applied to the text's
    /// UTF-8 bytes by the compiled form of this pattern's text.
    #[verifier::external_body]
    pub fn is_match(&self, text: &str) -> (r: bool)
        ensures
            r == regex_match(self.src(), text@),
    {
        self.compiled.is_match(text.as_bytes())
    }
}

/// The pattern texts of a list of compiled patterns.
pub open spec fn srcs_of(pats: Seq<PathPattern>) -> Seq<Seq<char>> {
    pats.map_values(|p: PathPattern| p.src())
}

/// Whether a text matches every pattern in the list.
pub open spec fn spec_all_match(pats: Seq<Seq<char>>, text: Seq<char>) -> bool {
    forall|k: int| 0 <= k < pats.len() ==> regex_match(#[trigger] pats[k], text)
}

/// Compiles every pattern text, in order.
pub fn compile_patterns(patterns: &Vec<String>) -> (r: Result<Vec<PathPattern>, WalkError>)
    ensures
        r matches Ok(v) ==> srcs_of(v@) == str_views(patterns@),
        r is Err <==> exists|k: int|
            0 <= k < patterns@.len() && !regex_ok(#[trigger] str_views(patterns@)[k]),
        r is Err ==> r == Err::<Vec<PathPattern>, WalkError>(WalkError::InvalidPattern),
{
    let mut v: Vec<PathPattern> = Vec::new();
    let mut i: usize = 0;
    proof {
        assert(srcs_of(v@) =~= str_views(patterns@).take(0));
    }
    while i < patterns.len()
        invariant
            i <= patterns.len(),
            srcs_of(v@) == str_views(patterns@).take(i as int),
            forall|k: int| 0 <= k < i ==> regex_ok(#[trigger] str_views(patterns@)[k]),
        decreases patterns.len() - i,
    {
        let ghost v0 = v@;
        match PathPattern::new(patterns[i].clone()) {
            Some(p) => {
                v.push(p);
                proof {
                    assert(v@ == v0.push(v@[v@.len() - 1]));
                    assert(srcs_of(v@) =~= srcs_of(v0) + seq![patterns@[i as int]@]);
                    assert(str_views(patterns@).take(i + 1) =~= str_views(patterns@).take(
                        i as int,
                    ) + seq![patterns@[i as int]@]);
                }
            },
            None => {
                proof {
                    assert(!regex_ok(str_views(patterns@)[i as int]));
                }
                return Err(WalkError::InvalidPattern);
            },
        }
        i = i + 1;
    }
    proof {
        assert(str_views(patterns@).take(i as int) =~= str_views(patterns@));
    }
    Ok(v)
}

/// Whether a path matches every compiled pattern.
pub fn is_match_pattern(path: &str, patterns: &Vec<PathPattern>) -> (r: bool)
    ensures
        r == spec_all_match(srcs_of(patterns@), path@),
{
    let mut k: usize = 0;
    while k < patterns.len()
        invariant
            k <= patterns.len(),
            forall|m: int| 0 <= m < k ==> regex_match(#[trigger] srcs_of(patterns@)[m], path@),
        decreases patterns.len() - k,
    {
        if !patterns[k].is_match(path) {
            proof {
                assert(srcs_of(patterns@)[k as int] == patterns@[k as int].src());
            }
            return false;
        }
        k = k + 1;
    }
    true
}

/// One text begins with another.
pub open spec fn spec_starts_with(s: Seq<char>, prefix: Seq<char>) -> bool {
    prefix.len() <= s.len() && s.subrange(0, prefix.len() as int) == prefix
}

/// Relies on `ignore::WalkBuilder` and `ignore::WalkParallel::run`: the
/// roots are walked concurrently by the given number of workers without
/// following symlinks, to at most the given depth (the roots are depth
/// zero), and every visited entry's path and depth are gathered over a
/// channel.  A failing entry is skipped.  What comes back depends on
/// the filesystem; of every outcome only this is assumed: each entry's
/// depth is within the documented bound, and each entry's path is one
/// of the roots or a path beneath it — the crate builds an entry's path
/// by appending the relative path under its root to the root as given.
#[verifier::external_body]
fn walk_collect(roots: &Vec<String>, max_depth: usize, threads: usize) -> (r: Vec<(String, usize)>)
    requires
        roots.len() >= 1,
    ensures
        forall|k: int| 0 <= k < r@.len() ==> (#[trigger] r@[k]).1 <= max_depth,
        forall|k: int|
            0 <= k < r@.len() ==> exists|m: int|
                0 <= m < roots@.len() && spec_starts_with(
                    (#[trigger] r@[k]).0@,
                    (#[trigger] roots@[m])@,
                ),
{
    let (tx, rx) = std::sync::mpsc::channel::<(String, usize)>();
    let mut builder = ignore::WalkBuilder::new(&roots[0]);
    for root in roots.iter().skip(1) {
        builder.add(root);
    }
    builder.follow_links(false).max_depth(Some(max_depth)).threads(threads);
    builder.build_parallel().run(|| {
        let tx = tx.clone();
        Box::new(move |entry| {
            if let Ok(e) = entry { let _ = tx.send((e.path().to_string_lossy().into_owned(), e.depth())); }
            ignore::WalkState::Continue
        })
    });
    drop(tx);
    rx.into_iter().collect()
}

/// Whether one walked entry is yielded: its depth lies between one and
/// the bound, and its path matches every pattern.
pub open spec fn spec_entry_keep(e: (String, usize), pats: Seq<Seq<char>>, max_depth: int) -> bool {
    1 <= e.1 <= max_depth && spec_all_match(pats, e.0@)
}

/// The paths of the entries that are yielded, in the entries' order.
pub open spec fn spec_walk_filter(es: Seq<(String, usize)>, pats: Seq<Seq<char>>, max_depth: int) -> Seq<
    String,
>
    decreases es.len(),
{
    if es.len() == 0 {
        Seq::empty()
    } else {
        (if spec_entry_keep(es[0], pats, max_depth) {
            seq![es[0].0]
        } else {
            Seq::empty()
        }) + spec_walk_filter(es.drop_first(), pats, max_depth)
    }
}

/// The filter grows one entry at a time.
proof fn lemma_walk_filter_snoc(
    es: Seq<(String, usize)>,
    e: (String, usize),
    pats: Seq<Seq<char>>,
    max_depth: int,
)
    ensures
        spec_walk_filter(es.push(e), pats, max_depth) == spec_walk_filter(es, pats, max_depth) + (
        if spec_entry_keep(e, pats, max_depth) {
            seq![e.0]
        } else {
            Seq::<String>::empty()
        }),
    decreases es.len(),
{
    let tail = if spec_entry_keep(e, pats, max_depth) {
        seq![e.0]
    } else {
        Seq::<String>::empty()
    };
    if es.len() == 0 {
        assert(es.push(e)[0] == e);
        assert(es.push(e).drop_first() =~= Seq::<(String, usize)>::empty());
        assert(spec_walk_filter(Seq::<(String, usize)>::empty(), pats, max_depth) == Seq::<
            String,
        >::empty());
        assert(spec_walk_filter(es.push(e), pats, max_depth) == tail + Seq::<String>::empty());
        assert(tail + Seq::<String>::empty() =~= tail);
        assert(spec_walk_filter(es, pats, max_depth) + tail =~= tail);
    } else {
        assert(es.push(e)[0] == es[0]);
        assert(es.push(e).drop_first() =~= es.drop_first().push(e));
        lemma_walk_filter_snoc(es.drop_first(), e, pats, max_depth);
        let h = if spec_entry_keep(es[0], pats, max_depth) {
            seq![es[0].0]
        } else {
            Seq::<String>::empty()
        };
        assert(h + (spec_walk_filter(es.drop_first(), pats, max_depth) + tail) =~= (h
            + spec_walk_filter(es.drop_first(), pats, max_depth)) + tail);
    }
}

/// Keeps exactly the entries within the depth bound whose paths match
/// every pattern, in order.
pub fn filter_walk_entries(entries: &Vec<(String, usize)>, patterns: &Vec<PathPattern>, max_depth: usize) -> (r:
    Vec<String>)
    ensures
        r@ == spec_walk_filter(entries@, srcs_of(patterns@), max_depth as int),
{
    let mut r: Vec<String> = Vec::new();
    let mut i: usize = 0;
    proof {
        assert(entries@.take(0) =~= Seq::<(String, usize)>::empty());
        assert(r@ =~= spec_walk_filter(entries@.take(0), srcs_of(patterns@), max_depth as int));
    }
    while i < entries.len()
        invariant
            i <= entries.len(),
            r@ == spec_walk_filter(entries@.take(i as int), srcs_of(patterns@), max_depth as int),
        decreases entries.len() - i,
    {
        let ghost r0 = r@;
        let depth = entries[i].1;
        if 1 <= depth && depth <= max_depth && is_match_pattern(entries[i].0.as_str(), patterns) {
            r.push(entries[i].0.clone());
            proof {
                assert(r@ =~= r0 + seq![entries@[i as int].0]);
            }
        } else {
            proof {
                assert(r@ =~= r0 + Seq::<String>::empty());
            }
        }
        proof {
            lemma_walk_filter_snoc(
                entries@.take(i as int),
                entries@[i as int],
                srcs_of(patterns@),
                max_depth as int,
            );
            assert(entries@.take(i as int).push(entries@[i as int]) =~= entries@.take(i + 1));
        }
        i = i + 1;
    }
    proof {
        assert(entries@.take(i as int) =~= entries@);
    }
    r
}

/// The patterns a walk runs with: those of the given options, or none.
pub open spec fn opt_patterns(option: Option<WalkOption>) -> Seq<Seq<char>> {
    match option {
        Some(o) => str_views(o.patterns@),
        None => Seq::empty(),
    }
}

/// The depth bound a walk runs with: that of the given options, or the
/// default.
pub open spec fn opt_depth(option: Option<WalkOption>) -> int {
    match option {
        Some(o) => o.max_depth as int,
        None => 10,
    }
}

/// Walks the roots and yields the paths of the entries, roots excluded,
/// whose depth is within the options' bound and whose path matches
/// every pattern.  An empty root list is the one setup error; a pattern
/// the engine rejects is the other.  Which entries the filesystem
/// offers is the walking crate's affair; what is yielded of them is
/// exact.
pub fn walk(paths: &Vec<String>, option: Option<WalkOption>) -> (r: Result<Vec<String>, WalkError>)
    ensures
        paths@.len() == 0 <==> r == Err::<Vec<String>, WalkError>(WalkError::EmptyRoots),
        paths@.len() > 0 ==> (r is Err <==> exists|k: int|
            0 <= k < opt_patterns(option).len() && !regex_ok(#[trigger] opt_patterns(option)[k])),
        r matches Ok(v) ==> forall|j: int|
            0 <= j < v@.len() ==> spec_all_match(opt_patterns(option), (#[trigger] v@[j])@),
        r matches Ok(v) ==> exists|entries: Seq<(String, usize)>|
            (forall|k: int|
                0 <= k < entries.len() ==> (#[trigger] entries[k]).1 <= opt_depth(option)) && v@
                == spec_walk_filter(entries, opt_patterns(option), opt_depth(option)),
        r matches Ok(v) ==> forall|j: int|
            0 <= j < v@.len() ==> exists|m: int|
                0 <= m < paths@.len() && spec_starts_with(
                    (#[trigger] v@[j])@,
                    (#[trigger] paths@[m])@,
                ),
{
    let opt = match option {
        Some(o) => o,
        None => WalkOption::default(),
    };
    if paths.len() == 0 {
        return Err(WalkError::EmptyRoots);
    }
    let ghost opt_pats_text = str_views(opt.patterns@);
    proof {
        assert(opt_pats_text =~= opt_patterns(option));
    }
    let pats = match compile_patterns(&opt.patterns) {
        Ok(v) => v,
        Err(e) => {
            return Err(e);
        },
    };
    let raw = walk_collect(paths, opt.max_depth, opt.threads);
    let v = filter_walk_entries(&raw, &pats, opt.max_depth);
    proof {
        assert(opt_patterns(option) =~= srcs_of(pats@));
        assert(opt_depth(option) == opt.max_depth as int);
        assert((forall|k: int|
            0 <= k < raw@.len() ==> (#[trigger] raw@[k]).1 <= opt_depth(option)) && v@
            == spec_walk_filter(raw@, opt_patterns(option), opt_depth(option)));
        lemma_walk_filter_members(raw@, srcs_of(pats@), opt.max_depth as int);
        assert forall|j: int| 0 <= j < v@.len() implies spec_all_match(
            opt_patterns(option),
            (#[trigger] v@[j])@,
        ) by {
            assert(spec_walk_filter(raw@, srcs_of(pats@), opt.max_depth as int).contains(
                v@[j],
            )) by {
                assert(v@[j] == spec_walk_filter(raw@, srcs_of(pats@), opt.max_depth as int)[j]);
            }
            let k = choose|k: int|
                0 <= k < raw@.len() && (#[trigger] raw@[k]).0 == v@[j] && spec_entry_keep(
                    raw@[k],
                    srcs_of(pats@),
                    opt.max_depth as int,
                );
            assert(spec_all_match(srcs_of(pats@), v@[j]@));
        }
        assert forall|j: int| 0 <= j < v@.len() implies exists|m: int|
            0 <= m < paths@.len() && spec_starts_with(
                (#[trigger] v@[j])@,
                (#[trigger] paths@[m])@,
            ) by {
            assert(spec_walk_filter(raw@, srcs_of(pats@), opt.max_depth as int).contains(
                v@[j],
            )) by {
                assert(v@[j] == spec_walk_filter(raw@, srcs_of(pats@), opt.max_depth as int)[j]);
            }
            let k = choose|k: int|
                0 <= k < raw@.len() && (#[trigger] raw@[k]).0 == v@[j] && spec_entry_keep(
                    raw@[k],
                    srcs_of(pats@),
                    opt.max_depth as int,
                );
            let m = choose|m: int|
                0 <= m < paths@.len() && spec_starts_with(
                    (#[trigger] raw@[k]).0@,
                    (#[trigger] paths@[m])@,
                );
            assert(0 <= m < paths@.len() && spec_starts_with(v@[j]@, paths@[m]@));
        }
    }
    Ok(v)
}

/// Completeness and uniqueness of the filter: a path is yielded exactly
/// when some entry carries it within the depth bound with every pattern
/// matching, and pairwise-distinct entry paths stay pairwise distinct —
/// each match is yielded exactly once.
pub proof fn lemma_walk_filter_members(es: Seq<(String, usize)>, pats: Seq<Seq<char>>, max_depth: int)
    ensures
        forall|p: String|
            #[trigger] spec_walk_filter(es, pats, max_depth).contains(p) <==> exists|k: int|
                0 <= k < es.len() && (#[trigger] es[k]).0 == p && spec_entry_keep(
                    es[k],
                    pats,
                    max_depth,
                ),
        (forall|k1: int, k2: int|
            0 <= k1 < k2 < es.len() ==> (#[trigger] es[k1]).0@ != (#[trigger] es[k2]).0@) ==> (
        forall|j1: int, j2: int|
            0 <= j1 < j2 < spec_walk_filter(es, pats, max_depth).len() ==> (#[trigger] spec_walk_filter(
                es,
                pats,
                max_depth,
            )[j1])@ != (#[trigger] spec_walk_filter(es, pats, max_depth)[j2])@),
    decreases es.len(),
{
    let r = spec_walk_filter(es, pats, max_depth);
    if es.len() == 0 {
        assert forall|p: String| #[trigger] r.contains(p) implies exists|k: int|
            0 <= k < es.len() && (#[trigger] es[k]).0 == p && spec_entry_keep(
                es[k],
                pats,
                max_depth,
            ) by {
            assert(false);
        }
    } else {
        let es2 = es.drop_first();
        lemma_walk_filter_members(es2, pats, max_depth);
        let r2 = spec_walk_filter(es2, pats, max_depth);
        let h = if spec_entry_keep(es[0], pats, max_depth) {
            seq![es[0].0]
        } else {
            Seq::<String>::empty()
        };
        assert(r == h + r2);
        assert forall|p: String| #[trigger] r.contains(p) implies exists|k: int|
            0 <= k < es.len() && (#[trigger] es[k]).0 == p && spec_entry_keep(
                es[k],
                pats,
                max_depth,
            ) by {
            let j = choose|j: int| 0 <= j < r.len() && r[j] == p;
            if j < h.len() {
                assert(es[0].0 == p && spec_entry_keep(es[0], pats, max_depth));
            } else {
                assert(r2[j - h.len()] == p);
                assert(r2.contains(p));
                let k = choose|k: int|
                    0 <= k < es2.len() && (#[trigger] es2[k]).0 == p && spec_entry_keep(
                        es2[k],
                        pats,
                        max_depth,
                    );
                assert(es2[k] == es[k + 1]);
            }
        }
        assert forall|p: String|
            (exists|k: int|
                0 <= k < es.len() && (#[trigger] es[k]).0 == p && spec_entry_keep(
                    es[k],
                    pats,
                    max_depth,
                )) implies #[trigger] r.contains(p) by {
            let k = choose|k: int|
                0 <= k < es.len() && (#[trigger] es[k]).0 == p && spec_entry_keep(
                    es[k],
                    pats,
                    max_depth,
                );
            if k == 0 {
                assert(r[0] == p);
            } else {
                assert(es2[k - 1] == es[k]);
                assert(r2.contains(p));
                let j = choose|j: int| 0 <= j < r2.len() && r2[j] == p;
                assert(r[h.len() + j] == p);
            }
        }
        if forall|k1: int, k2: int|
            0 <= k1 < k2 < es.len() ==> (#[trigger] es[k1]).0@ != (#[trigger] es[k2]).0@ {
            assert forall|k1: int, k2: int| 0 <= k1 < k2 < es2.len() implies (
            #[trigger] es2[k1]).0@ != (#[trigger] es2[k2]).0@ by {
                assert(es2[k1] == es[k1 + 1]);
                assert(es2[k2] == es[k2 + 1]);
            }
            assert forall|j1: int, j2: int| 0 <= j1 < j2 < r.len() implies (#[trigger] r[j1])@ != (
            #[trigger] r[j2])@ by {
                if j1 < h.len() {
                    assert(r[j1] == es[0].0);
                    assert(r2[j2 - 1] == r[j2]);
                    assert(r2.contains(r2[j2 - 1]));
                    let k = choose|k: int|
                        0 <= k < es2.len() && (#[trigger] es2[k]).0 == r2[j2 - 1]
                            && spec_entry_keep(es2[k], pats, max_depth);
                    assert(es2[k] == es[k + 1]);
                    assert(es[0].0@ != es[k + 1].0@);
                } else {
                    assert(r2[j1 - h.len()] == r[j1]);
                    assert(r2[j2 - h.len()] == r[j2]);
                }
            }
        }
    }
}

/// The depth limit: an entry one past the bound is never yielded — its
/// path appears only if some other entry within the bound carries it —
/// and an entry at the bound whose path matches every pattern is always
/// yielded.
pub proof fn lemma_depth_limit(es: Seq<(String, usize)>, pats: Seq<Seq<char>>, max_depth: int, k: int)
    requires
        0 <= k < es.len(),
    ensures
        es[k].1 > max_depth && spec_walk_filter(es, pats, max_depth).contains(es[k].0) ==> exists|
            m: int,
        |
            0 <= m < es.len() && m != k && (#[trigger] es[m]).0 == es[k].0 && spec_entry_keep(
                es[m],
                pats,
                max_depth,
            ),
        1 <= es[k].1 <= max_depth && spec_all_match(pats, es[k].0@) ==> spec_walk_filter(
            es,
            pats,
            max_depth,
        ).contains(es[k].0),
{
    lemma_walk_filter_members(es, pats, max_depth);
    if es[k].1 > max_depth && spec_walk_filter(es, pats, max_depth).contains(es[k].0) {
        let m = choose|m: int|
            0 <= m < es.len() && (#[trigger] es[m]).0 == es[k].0 && spec_entry_keep(
                es[m],
                pats,
                max_depth,
            );
        assert(m != k);
        assert(0 <= m < es.len() && m != k && es[m].0 == es[k].0 && spec_entry_keep(
            es[m],
            pats,
            max_depth,
        ));
    }
}

/// Walks one root for the manifest files beneath it.
pub fn walk_package_jsons_under_path(path: &str) -> (r: Result<Vec<String>, WalkError>)
    ensures
        r is Err <==> !regex_ok("package\\.json$"@),
        r is Err ==> r == Err::<Vec<String>, WalkError>(WalkError::InvalidPattern),
        r matches Ok(v) ==> exists|entries: Seq<(String, usize)>|
            (forall|k: int| 0 <= k < entries.len() ==> (#[trigger] entries[k]).1 <= 10) && v@
                == spec_walk_filter(entries, seq!["package\\.json$"@], 10),
        r matches Ok(v) ==> forall|j: int|
            0 <= j < v@.len() ==> regex_match("package\\.json$"@, (#[trigger] v@[j])@)
                && spec_starts_with((#[trigger] v@[j])@, path@),
{
    let mut roots: Vec<String> = Vec::new();
    roots.push(path.to_owned());
    let mut patterns: Vec<String> = Vec::new();
    patterns.push(String::from_str("package\\.json$"));
    let ghost pat = patterns@[0]@;
    let wo = WalkOption::new(patterns);
    let r = walk(&roots, Some(wo));
    proof {
        assert(opt_patterns(Some(wo)) =~= seq![pat]);
        assert(roots@.len() == 1);
        assert(roots@[0]@ == path@);
        match r {
            Ok(ref v) => {
                assert(regex_ok(pat)) by {
                    assert(!(exists|k: int|
                        0 <= k < opt_patterns(Some(wo)).len() && !regex_ok(
                            #[trigger] opt_patterns(Some(wo))[k],
                        )));
                    assert(opt_patterns(Some(wo))[0] == pat);
                }
                assert forall|j: int| 0 <= j < v@.len() implies regex_match(
                    "package\\.json$"@,
                    (#[trigger] v@[j])@,
                ) && spec_starts_with((#[trigger] v@[j])@, path@) by {
                    assert(opt_patterns(Some(wo))[0] == pat);
                    assert(spec_all_match(opt_patterns(Some(wo)), v@[j]@));
                    let m = choose|m: int|
                        0 <= m < roots@.len() && spec_starts_with(
                            v@[j]@,
                            (#[trigger] roots@[m])@,
                        );
                    assert(m == 0);
                }
                assert(exists|entries: Seq<(String, usize)>|
                    (forall|k: int| 0 <= k < entries.len() ==> (#[trigger] entries[k]).1 <= 10)
                        && v@ == spec_walk_filter(entries, seq!["package\\.json$"@], 10)) by {
                    let entries = choose|entries: Seq<(String, usize)>|
                        (forall|k: int|
                            0 <= k < entries.len() ==> (#[trigger] entries[k]).1 <= opt_depth(
                                Some(wo),
                            )) && v@ == spec_walk_filter(
                            entries,
                            opt_patterns(Some(wo)),
                            opt_depth(Some(wo)),
                        );
                    assert(opt_depth(Some(wo)) == 10);
                    assert(opt_patterns(Some(wo)) =~= seq!["package\\.json$"@]);
                    assert((forall|k: int|
                        0 <= k < entries.len() ==> (#[trigger] entries[k]).1 <= 10) && v@
                        == spec_walk_filter(entries, seq!["package\\.json$"@], 10));
                }
            },
            Err(ref e) => {
                let k = choose|k: int|
                    0 <= k < opt_patterns(Some(wo)).len() && !regex_ok(
                        #[trigger] opt_patterns(Some(wo))[k],
                    );
                assert(opt_patterns(Some(wo))[k] == pat);
                assert(!regex_ok(pat));
                match e {
                    WalkError::EmptyRoots => {
                        assert(false);
                    },
                    WalkError::InvalidPattern => {
                    },
                }
            },
        }
    }
    r
}

} // verus!

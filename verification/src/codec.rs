//! The on-disk text of a lockfile.
//!
//! `ser_lockfile` is the exact text written to disk: a pretty-printed
//! JSON object,
//!
//! ```text
//! {
//!   "version": "0.0.1",
//!   "packages": {
//!     "a": {
//!       "name": "a",
//!       "dir": "/some/dir/a",
//!       "source_id": "1"
//!     }
//!   }
//! }
//! ```
//!
//! with the package entries in ascending name order, each keyed by the
//! package's own name.  `parse_lockfile` reads any well-shaped JSON
//! text of this schema, not just the canonical layout: whitespace may
//! stand between any two tokens, the two top-level members and the
//! three record fields may come in any order, map entries may come
//! unsorted (of entries sharing a key the last wins), and the proved
//! round trip says the canonical text reads back as what was written.
//! What stays outside the accepted language is treated as corrupt:
//! unknown or repeated object keys, records missing a field, entries
//! whose key differs from the record's name, non-string values where
//! strings are due, and string escapes beyond those the writer emits
//! (the named escapes and `\u00XX` for control characters).

use crate::lockfile::{entries_sorted, LockfileView};
use crate::package::{views_of, Package, PackageView};
use crate::strutil::{chars_to_string, digit_char, lex_lt, string_to_chars};
use vstd::prelude::*;

verus! {

/// The lowercase hexadecimal digit for a value below sixteen.
pub open spec fn hex_digit(d: nat) -> char {
    if d < 10 {
        digit_char(d)
    } else if d == 10 {
        'a'
    } else if d == 11 {
        'b'
    } else if d == 12 {
        'c'
    } else if d == 13 {
        'd'
    } else if d == 14 {
        'e'
    } else {
        'f'
    }
}

/// How one character appears inside a JSON string literal: quote and
/// backslash are escaped, the common control characters take their
/// short escapes, the remaining control characters take `\u00XX`, and
/// everything else stands for itself.
pub open spec fn esc_char(c: char) -> Seq<char> {
    if c == '"' {
        seq!['\\', '"']
    } else if c == '\\' {
        seq!['\\', '\\']
    } else if c == '\n' {
        seq!['\\', 'n']
    } else if c == '\t' {
        seq!['\\', 't']
    } else if c == '\r' {
        seq!['\\', 'r']
    } else if c == '\u{8}' {
        seq!['\\', 'b']
    } else if c == '\u{c}' {
        seq!['\\', 'f']
    } else if (c as u32) < 0x20 {
        seq!['\\', 'u', '0', '0', hex_digit((c as u32 / 16) as nat), hex_digit(
            (c as u32 % 16) as nat,
        )]
    } else {
        seq![c]
    }
}

/// The escaped form of a whole string.
pub open spec fn esc(s: Seq<char>) -> Seq<char>
    decreases s.len(),
{
    if s.len() == 0 {
        Seq::empty()
    } else {
        esc_char(s[0]) + esc(s.drop_first())
    }
}

/// A JSON string literal: the escaped text between double quotes.
pub open spec fn ser_str(s: Seq<char>) -> Seq<char> {
    seq!['"'] + esc(s) + seq!['"']
}

/// The literal text fragments of the canonical layout.
pub open spec fn lit_head() -> Seq<char> {
    "{\n  \"version\": "@
}

pub open spec fn lit_mid() -> Seq<char> {
    ",\n  \"packages\": "@
}

pub open spec fn lit_tail() -> Seq<char> {
    "\n}"@
}

pub open spec fn lit_empty_map() -> Seq<char> {
    "{}"@
}

pub open spec fn lit_po() -> Seq<char> {
    "{\n"@
}

pub open spec fn lit_pc() -> Seq<char> {
    "\n  }"@
}

pub open spec fn lit_sep() -> Seq<char> {
    ",\n"@
}

pub open spec fn lit_e1() -> Seq<char> {
    "    "@
}

pub open spec fn lit_e2() -> Seq<char> {
    ": {\n      \"name\": "@
}

pub open spec fn lit_e3() -> Seq<char> {
    ",\n      \"dir\": "@
}

pub open spec fn lit_e4() -> Seq<char> {
    ",\n      \"source_id\": "@
}

pub open spec fn lit_e5() -> Seq<char> {
    "\n    }"@
}

/// One package entry: the name as key, then the record's three fields.
pub open spec fn ser_entry(p: PackageView) -> Seq<char> {
    lit_e1() + ser_str(p.name) + lit_e2() + ser_str(p.name) + lit_e3() + ser_str(p.dir) + lit_e4()
        + ser_str(p.source_id) + lit_e5()
}

/// The entries, separated by commas and newlines.
pub open spec fn ser_entries(es: Seq<PackageView>) -> Seq<char>
    decreases es.len(),
{
    if es.len() == 0 {
        Seq::empty()
    } else if es.len() == 1 {
        ser_entry(es[0])
    } else {
        ser_entry(es[0]) + lit_sep() + ser_entries(es.drop_first())
    }
}

/// The packages object: `{}` when empty, else the entries in braces.
pub open spec fn ser_packages(es: Seq<PackageView>) -> Seq<char> {
    if es.len() == 0 {
        lit_empty_map()
    } else {
        lit_po() + ser_entries(es) + lit_pc()
    }
}

/// The complete canonical text of a lockfile.
pub open spec fn ser_lockfile(l: LockfileView) -> Seq<char> {
    lit_head() + ser_str(l.version) + lit_mid() + ser_packages(l.entries) + lit_tail()
}

fn hex_digit_exec(d: u32) -> (c: char)
    requires
        d < 16,
    ensures
        c == hex_digit(d as nat),
{
    if d == 0 {
        '0'
    } else if d == 1 {
        '1'
    } else if d == 2 {
        '2'
    } else if d == 3 {
        '3'
    } else if d == 4 {
        '4'
    } else if d == 5 {
        '5'
    } else if d == 6 {
        '6'
    } else if d == 7 {
        '7'
    } else if d == 8 {
        '8'
    } else if d == 9 {
        '9'
    } else if d == 10 {
        'a'
    } else if d == 11 {
        'b'
    } else if d == 12 {
        'c'
    } else if d == 13 {
        'd'
    } else if d == 14 {
        'e'
    } else {
        'f'
    }
}

/// Appends the characters of a literal fragment.
fn push_lit(out: &mut Vec<char>, lit: &str)
    ensures
        final(out)@ == old(out)@ + lit@,
{
    let len = lit.unicode_len();
    let mut i: usize = 0;
    while i < len
        invariant
            i <= len,
            len == lit@.len(),
            out@ == old(out)@ + lit@.take(i as int),
        decreases len - i,
    {
        out.push(lit.get_char(i));
        proof {
            assert(old(out)@ + lit@.take(i as int) + seq![lit@[i as int]] =~= old(out)@
                + lit@.take(i + 1));
        }
        i = i + 1;
    }
    proof {
        assert(old(out)@ + lit@.take(i as int) =~= old(out)@ + lit@);
    }
}

/// Appends the escaped form of one character.
fn push_esc_char(out: &mut Vec<char>, c: char)
    ensures
        final(out)@ == old(out)@ + esc_char(c),
{
    if c == '"' {
        out.push('\\');
        out.push('"');
        proof {
            assert(out@ =~= old(out)@ + esc_char(c));
        }
    } else if c == '\\' {
        out.push('\\');
        out.push('\\');
        proof {
            assert(out@ =~= old(out)@ + esc_char(c));
        }
    } else if c == '\n' {
        out.push('\\');
        out.push('n');
        proof {
            assert(out@ =~= old(out)@ + esc_char(c));
        }
    } else if c == '\t' {
        out.push('\\');
        out.push('t');
        proof {
            assert(out@ =~= old(out)@ + esc_char(c));
        }
    } else if c == '\r' {
        out.push('\\');
        out.push('r');
        proof {
            assert(out@ =~= old(out)@ + esc_char(c));
        }
    } else if c == '\u{8}' {
        out.push('\\');
        out.push('b');
        proof {
            assert(out@ =~= old(out)@ + esc_char(c));
        }
    } else if c == '\u{c}' {
        out.push('\\');
        out.push('f');
        proof {
            assert(out@ =~= old(out)@ + esc_char(c));
        }
    } else {
        let v = c as u32;
        if v < 0x20 {
            out.push('\\');
            out.push('u');
            out.push('0');
            out.push('0');
            out.push(hex_digit_exec(v / 16));
            out.push(hex_digit_exec(v % 16));
            proof {
                assert(out@ =~= old(out)@ + esc_char(c));
            }
        } else {
            out.push(c);
            proof {
                assert(out@ =~= old(out)@ + esc_char(c));
            }
        }
    }
}

/// Escaping distributes over taking one more character.
proof fn lemma_esc_step(s: Seq<char>, k: int)
    requires
        0 <= k < s.len(),
    ensures
        esc(s.take(k + 1)) == esc(s.take(k)) + esc_char(s[k]),
    decreases k,
{
    if k == 0 {
        assert(s.take(1) =~= seq![s[0]]);
        assert(esc(seq![s[0]]) == esc_char(s[0]) + esc(seq![s[0]].drop_first()));
        assert(seq![s[0]].drop_first() =~= Seq::<char>::empty());
        assert(esc(s.take(0)) =~= Seq::<char>::empty());
        assert(esc(s.take(0)) + esc_char(s[0]) =~= esc_char(s[0]) + Seq::<char>::empty());
    } else {
        let t = s.drop_first();
        lemma_esc_step(t, k - 1);
        assert(s.take(k + 1).drop_first() =~= t.take(k));
        assert(s.take(k).drop_first() =~= t.take(k - 1));
        assert(s.take(k + 1)[0] == s[0]);
        assert(s.take(k)[0] == s[0]);
        assert(esc(s.take(k + 1)) == esc_char(s[0]) + esc(t.take(k)));
        assert(esc(s.take(k)) == esc_char(s[0]) + esc(t.take(k - 1)));
        assert(t[k - 1] == s[k]);
        assert(esc_char(s[0]) + (esc(t.take(k - 1)) + esc_char(s[k])) =~= (esc_char(s[0]) + esc(
            t.take(k - 1),
        )) + esc_char(s[k]));
    }
}

/// Appends a JSON string literal for the given string.
fn push_ser_str(out: &mut Vec<char>, s: &str)
    ensures
        final(out)@ == old(out)@ + ser_str(s@),
{
    out.push('"');
    let ghost mid = out@;
    let len = s.unicode_len();
    let mut i: usize = 0;
    proof {
        assert(esc(s@.take(0)) =~= Seq::<char>::empty());
        assert(mid + esc(s@.take(0)) =~= mid);
    }
    while i < len
        invariant
            i <= len,
            len == s@.len(),
            out@ == mid + esc(s@.take(i as int)),
        decreases len - i,
    {
        push_esc_char(out, s.get_char(i));
        proof {
            lemma_esc_step(s@, i as int);
            assert(mid + esc(s@.take(i as int)) + esc_char(s@[i as int]) =~= mid + esc(
                s@.take(i + 1),
            ));
        }
        i = i + 1;
    }
    out.push('"');
    proof {
        assert(s@.take(i as int) =~= s@);
        assert(out@ =~= old(out)@ + ser_str(s@));
    }
}

/// Appends one package entry.
fn push_entry(out: &mut Vec<char>, p: &Package)
    ensures
        final(out)@ == old(out)@ + ser_entry(p@),
{
    push_lit(out, "    ");
    push_ser_str(out, p.name.as_str());
    push_lit(out, ": {\n      \"name\": ");
    push_ser_str(out, p.name.as_str());
    push_lit(out, ",\n      \"dir\": ");
    push_ser_str(out, p.dir.as_str());
    push_lit(out, ",\n      \"source_id\": ");
    push_ser_str(out, p.source_id.as_str());
    push_lit(out, "\n    }");
    proof {
        assert(out@ =~= old(out)@ + ser_entry(p@));
    }
}

/// Appending one more entry extends the serialized entries by a
/// separator and that entry.
proof fn lemma_ser_entries_snoc(es: Seq<PackageView>, p: PackageView)
    requires
        es.len() >= 1,
    ensures
        ser_entries(es.push(p)) == ser_entries(es) + lit_sep() + ser_entry(p),
    decreases es.len(),
{
    if es.len() == 1 {
        assert(es.push(p)[0] == es[0]);
        assert(es.push(p).drop_first() =~= seq![p]);
        assert(ser_entries(seq![p]) == ser_entry(p));
        assert(ser_entries(es.push(p)) == ser_entry(es[0]) + lit_sep() + ser_entry(p));
        assert(ser_entries(es) == ser_entry(es[0]));
    } else {
        lemma_ser_entries_snoc(es.drop_first(), p);
        assert(es.push(p).drop_first() =~= es.drop_first().push(p));
        assert(es.push(p)[0] == es[0]);
        assert(ser_entries(es.push(p)) == ser_entry(es[0]) + lit_sep() + ser_entries(
            es.drop_first().push(p),
        ));
        assert(ser_entry(es[0]) + lit_sep() + (ser_entries(es.drop_first()) + lit_sep() + ser_entry(
            p,
        )) =~= (ser_entry(es[0]) + lit_sep() + ser_entries(es.drop_first())) + lit_sep() + ser_entry(
            p,
        ));
    }
}

/// Appends the packages object.
fn push_packages(out: &mut Vec<char>, packages: &Vec<Package>)
    ensures
        final(out)@ == old(out)@ + ser_packages(views_of(packages@)),
{
    if packages.len() == 0 {
        push_lit(out, "{}");
        return;
    }
    push_lit(out, "{\n");
    let ghost mid = out@;
    let mut i: usize = 0;
    push_entry(out, &packages[0]);
    proof {
        assert(views_of(packages@).take(1) =~= seq![packages@[0]@]);
        assert(ser_entries(seq![packages@[0]@]) == ser_entry(packages@[0]@));
    }
    i = 1;
    while i < packages.len()
        invariant
            1 <= i <= packages.len(),
            out@ == mid + ser_entries(views_of(packages@).take(i as int)),
        decreases packages.len() - i,
    {
        push_lit(out, ",\n");
        push_entry(out, &packages[i]);
        proof {
            lemma_ser_entries_snoc(views_of(packages@).take(i as int), packages@[i as int]@);
            assert(views_of(packages@).take(i as int).push(packages@[i as int]@) =~= views_of(
                packages@,
            ).take(i + 1));
            assert(mid + ser_entries(views_of(packages@).take(i as int)) + lit_sep() + ser_entry(
                packages@[i as int]@,
            ) =~= mid + (ser_entries(views_of(packages@).take(i as int)) + lit_sep() + ser_entry(
                packages@[i as int]@,
            )));
        }
        i = i + 1;
    }
    push_lit(out, "\n  }");
    proof {
        assert(views_of(packages@).take(i as int) =~= views_of(packages@));
        assert(out@ =~= old(out)@ + ser_packages(views_of(packages@)));
    }
}

/// Builds the canonical lockfile text for the given version string and
/// sorted package list.
pub fn ser_lockfile_chars(version: &str, packages: &Vec<Package>) -> (out: Vec<char>)
    ensures
        out@ == ser_lockfile(
            (LockfileView { version: version@, entries: views_of(packages@) }),
        ),
{
    let mut out: Vec<char> = Vec::new();
    push_lit(&mut out, "{\n  \"version\": ");
    push_ser_str(&mut out, version);
    push_lit(&mut out, ",\n  \"packages\": ");
    push_packages(&mut out, packages);
    push_lit(&mut out, "\n}");
    proof {
        assert(out@ =~= ser_lockfile(
            (LockfileView { version: version@, entries: views_of(packages@) }),
        ));
    }
    out
}

// ---------------------------------------------------------------------
// Parsing.  The functions below read any well-shaped JSON text of the
// lockfile schema: whitespace may stand between tokens, object members
// may come in any order, and map entries may come unsorted; anything
// outside that language is rejected.
// ---------------------------------------------------------------------

/// Whether a character is a hexadecimal digit.
pub open spec fn is_hex(c: char) -> bool {
    ('0' <= c && c <= '9') || ('a' <= c && c <= 'f') || ('A' <= c && c <= 'F')
}

/// The value of a hexadecimal digit.
pub open spec fn hex_val(c: char) -> nat {
    if '0' <= c && c <= '9' {
        ((c as nat) - ('0' as nat)) as nat
    } else if 'a' <= c && c <= 'f' {
        (((c as nat) - ('a' as nat)) + 10) as nat
    } else if 'A' <= c && c <= 'F' {
        (((c as nat) - ('A' as nat)) + 10) as nat
    } else {
        0
    }
}

/// The character a two-character escape stands for.
pub open spec fn unesc_char(e: char) -> Option<char> {
    if e == '"' {
        Some('"')
    } else if e == '\\' {
        Some('\\')
    } else if e == '/' {
        Some('/')
    } else if e == 'n' {
        Some('\n')
    } else if e == 't' {
        Some('\t')
    } else if e == 'r' {
        Some('\r')
    } else if e == 'b' {
        Some('\u{8}')
    } else if e == 'f' {
        Some('\u{c}')
    } else {
        None
    }
}

/// Reads the rest of a JSON string literal after the opening quote:
/// the decoded characters and the position after the closing quote.
/// Raw control characters, unknown escapes, `\u` escapes outside the
/// control range and unterminated literals are rejected.
pub open spec fn parse_str_body(s: Seq<char>, i: int) -> Option<(Seq<char>, int)>
    decreases s.len() - i,
    when 0 <= i <= s.len()
{
    if i >= s.len() {
        None
    } else {
        let c = s[i];
        if c == '"' {
            Some((Seq::empty(), i + 1))
        } else if c == '\\' {
            if i + 2 > s.len() {
                None
            } else {
                let e = s[i + 1];
                if e == 'u' {
                    if i + 6 <= s.len() && is_hex(s[i + 2]) && is_hex(s[i + 3]) && is_hex(s[i + 4])
                        && is_hex(s[i + 5]) {
                        let v = ((hex_val(s[i + 2]) * 16 + hex_val(s[i + 3])) * 16 + hex_val(
                            s[i + 4],
                        )) * 16 + hex_val(s[i + 5]);
                        if v < 0x20 {
                            match parse_str_body(s, i + 6) {
                                Some((t, j)) => Some((seq![((v as u32) as char)] + t, j)),
                                None => None,
                            }
                        } else {
                            None
                        }
                    } else {
                        None
                    }
                } else {
                    match unesc_char(e) {
                        Some(c2) => match parse_str_body(s, i + 2) {
                            Some((t, j)) => Some((seq![c2] + t, j)),
                            None => None,
                        },
                        None => None,
                    }
                }
            }
        } else if (c as u32) < 0x20 {
            None
        } else {
            match parse_str_body(s, i + 1) {
                Some((t, j)) => Some((seq![c] + t, j)),
                None => None,
            }
        }
    }
}

/// Reads a JSON string literal starting at its opening quote.
pub open spec fn parse_string(s: Seq<char>, i: int) -> Option<(Seq<char>, int)> {
    if 0 <= i < s.len() && s[i] == '"' {
        parse_str_body(s, i + 1)
    } else {
        None
    }
}

/// JSON whitespace.
pub open spec fn is_json_ws(c: char) -> bool {
    c == ' ' || c == '\t' || c == '\n' || c == '\r'
}

/// The position of the first non-whitespace character at or after a
/// point.
pub open spec fn ws(s: Seq<char>, i: int) -> int
    decreases s.len() - i,
    when 0 <= i <= s.len()
{
    if i < s.len() && is_json_ws(s[i]) {
        ws(s, i + 1)
    } else {
        i
    }
}

/// Reads one expected character.
pub open spec fn parse_char(s: Seq<char>, i: int, c: char) -> Option<int> {
    if 0 <= i < s.len() && s[i] == c {
        Some(i + 1)
    } else {
        None
    }
}

/// The fields of a package record gathered so far.
#[verifier::ext_equal]
pub ghost struct FieldState {
    pub name: Option<Seq<char>>,
    pub dir: Option<Seq<char>>,
    pub source_id: Option<Seq<char>>,
}

/// Stores a field's value under its key; an unknown key and a key seen
/// twice are both rejected.
pub open spec fn assign_field(st: FieldState, key: Seq<char>, val: Seq<char>) -> Option<
    FieldState,
> {
    if key == "name"@ {
        if st.name is Some {
            None
        } else {
            Some((FieldState { name: Some(val), dir: st.dir, source_id: st.source_id }))
        }
    } else if key == "dir"@ {
        if st.dir is Some {
            None
        } else {
            Some((FieldState { name: st.name, dir: Some(val), source_id: st.source_id }))
        }
    } else if key == "source_id"@ {
        if st.source_id is Some {
            None
        } else {
            Some((FieldState { name: st.name, dir: st.dir, source_id: Some(val) }))
        }
    } else {
        None
    }
}

/// Reads one `"key": "value"` field, whitespace allowed around the
/// tokens.
pub open spec fn parse_field(s: Seq<char>, i: int) -> Option<((Seq<char>, Seq<char>), int)> {
    match parse_string(s, ws(s, i)) {
        None => None,
        Some((key, j)) => match parse_char(s, ws(s, j), ':') {
            None => None,
            Some(k) => match parse_string(s, ws(s, k)) {
                None => None,
                Some((val, m)) => Some(((key, val), m)),
            },
        },
    }
}

/// Reads the fields after the first one: either a comma and another
/// field, or the closing brace of the record.
pub open spec fn parse_fields_rest(s: Seq<char>, i: int, st: FieldState) -> Option<
    (FieldState, int),
>
    decreases s.len() - i,
    when 0 <= i <= s.len()
    via parse_fields_rest_dec
{
    match parse_char(s, ws(s, i), ',') {
        None => match parse_char(s, ws(s, i), '}') {
            None => None,
            Some(j) => Some((st, j)),
        },
        Some(j) => match parse_field(s, j) {
            None => None,
            Some(((key, val), k)) => match assign_field(st, key, val) {
                None => None,
                Some(st2) => parse_fields_rest(s, k, st2),
            },
        },
    }
}

#[via_fn]
proof fn parse_fields_rest_dec(s: Seq<char>, i: int, st: FieldState) {
    lemma_ws_bounds(s, i);
    match parse_char(s, ws(s, i), ',') {
        None => {
        },
        Some(j) => {
            lemma_parse_field_bounds(s, j);
        },
    }
}

/// Reads a package record: an object carrying exactly the fields
/// `name`, `dir` and `source_id`, each once, in any order.
#[verifier::opaque]
pub open spec fn parse_record(s: Seq<char>, i: int) -> Option<(PackageView, int)> {
    match parse_char(s, ws(s, i), '{') {
        None => None,
        Some(j) => match parse_field(s, j) {
            None => None,
            Some(((key, val), k)) => match assign_field(
                (FieldState { name: None, dir: None, source_id: None }),
                key,
                val,
            ) {
                None => None,
                Some(st1) => match parse_fields_rest(s, k, st1) {
                    None => None,
                    Some((st, m)) => match (st.name, st.dir, st.source_id) {
                        (Some(n), Some(d), Some(sd)) => Some(
                            ((PackageView { name: n, dir: d, source_id: sd }), m),
                        ),
                        _ => None,
                    },
                },
            },
        },
    }
}

/// Reads one entry of the packages map: the key, a colon, and a record
/// whose name must equal the key — the map key always equals the
/// record's name.
pub open spec fn parse_map_entry(s: Seq<char>, i: int) -> Option<(PackageView, int)> {
    match parse_string(s, ws(s, i)) {
        None => None,
        Some((key, j)) => match parse_char(s, ws(s, j), ':') {
            None => None,
            Some(k) => match parse_record(s, k) {
                None => None,
                Some((p, m)) => if p.name == key {
                    Some((p, m))
                } else {
                    None
                },
            },
        },
    }
}

/// Reads the entries after the first one, upserting each into the
/// gathered list: entries may come in any order, and of entries sharing
/// a key the last one wins, as a JSON map read into a sorted map would
/// have it.
pub open spec fn parse_map_rest(s: Seq<char>, i: int, acc: Seq<PackageView>) -> Option<
    (Seq<PackageView>, int),
>
    decreases s.len() - i,
    when 0 <= i <= s.len()
    via parse_map_rest_dec
{
    match parse_char(s, ws(s, i), ',') {
        None => match parse_char(s, ws(s, i), '}') {
            None => None,
            Some(j) => Some((acc, j)),
        },
        Some(j) => match parse_map_entry(s, j) {
            None => None,
            Some((p, k)) => parse_map_rest(s, k, crate::lockfile::spec_insert(acc, p)),
        },
    }
}

#[via_fn]
proof fn parse_map_rest_dec(s: Seq<char>, i: int, acc: Seq<PackageView>) {
    lemma_ws_bounds(s, i);
    match parse_char(s, ws(s, i), ',') {
        None => {
        },
        Some(j) => {
            lemma_parse_map_entry_bounds(s, j);
        },
    }
}

/// Reads the packages map.
pub open spec fn parse_map(s: Seq<char>, i: int) -> Option<(Seq<PackageView>, int)> {
    match parse_char(s, ws(s, i), '{') {
        None => None,
        Some(j) => match parse_char(s, ws(s, j), '}') {
            Some(k) => Some((Seq::empty(), k)),
            None => match parse_map_entry(s, j) {
                None => None,
                Some((p, k)) => parse_map_rest(
                    s,
                    k,
                    crate::lockfile::spec_insert(Seq::empty(), p),
                ),
            },
        },
    }
}

/// The members of the top-level object gathered so far.
#[verifier::ext_equal]
pub ghost struct TopState {
    pub version: Option<Seq<char>>,
    pub entries: Option<Seq<PackageView>>,
}

/// Reads one top-level member: `"version"` carries a string,
/// `"packages"` carries the map; an unknown key and a key seen twice
/// are both rejected.
pub open spec fn parse_top_member(s: Seq<char>, i: int, st: TopState) -> Option<(TopState, int)> {
    match parse_string(s, ws(s, i)) {
        None => None,
        Some((key, j)) => match parse_char(s, ws(s, j), ':') {
            None => None,
            Some(k) => if key == "version"@ {
                if st.version is Some {
                    None
                } else {
                    match parse_string(s, ws(s, k)) {
                        None => None,
                        Some((v, m)) => Some(
                            ((TopState { version: Some(v), entries: st.entries }), m),
                        ),
                    }
                }
            } else if key == "packages"@ {
                if st.entries is Some {
                    None
                } else {
                    match parse_map(s, k) {
                        None => None,
                        Some((es, m)) => Some(
                            ((TopState { version: st.version, entries: Some(es) }), m),
                        ),
                    }
                }
            } else {
                None
            },
        },
    }
}

/// Reads the members after the first one.
pub open spec fn parse_top_rest(s: Seq<char>, i: int, st: TopState) -> Option<(TopState, int)>
    decreases s.len() - i,
    when 0 <= i <= s.len()
    via parse_top_rest_dec
{
    match parse_char(s, ws(s, i), ',') {
        None => match parse_char(s, ws(s, i), '}') {
            None => None,
            Some(j) => Some((st, j)),
        },
        Some(j) => match parse_top_member(s, j, st) {
            None => None,
            Some((st2, k)) => parse_top_rest(s, k, st2),
        },
    }
}

#[via_fn]
proof fn parse_top_rest_dec(s: Seq<char>, i: int, st: TopState) {
    lemma_ws_bounds(s, i);
    match parse_char(s, ws(s, i), ',') {
        None => {
        },
        Some(j) => {
            lemma_parse_top_member_bounds(s, j, st);
        },
    }
}

/// Reads a whole lockfile: a JSON object with exactly the members
/// `version` (a string) and `packages` (a map from a package's name to
/// its record), each once, in either order, with whitespace allowed
/// between all tokens, and nothing but whitespace after it.
pub open spec fn parse_lockfile(s: Seq<char>) -> Option<LockfileView> {
    match parse_char(s, ws(s, 0), '{') {
        None => None,
        Some(i1) => match parse_top_member(s, i1, (TopState { version: None, entries: None })) {
            None => None,
            Some((st1, i2)) => match parse_top_rest(s, i2, st1) {
                None => None,
                Some((st, i3)) => if ws(s, i3) == s.len() {
                    match (st.version, st.entries) {
                        (Some(v), Some(es)) => Some((LockfileView { version: v, entries: es })),
                        _ => None,
                    }
                } else {
                    None
                },
            },
        },
    }
}


/// A successful string-body parse lands strictly past its start and
/// within the input.
pub proof fn lemma_parse_str_body_bounds(s: Seq<char>, i: int)
    requires
        0 <= i <= s.len(),
    ensures
        parse_str_body(s, i) matches Some((t, j)) ==> i < j <= s.len(),
    decreases s.len() - i,
{
    if i < s.len() {
        let c = s[i];
        if c == '\\' {
            if i + 2 <= s.len() {
                if s[i + 1] == 'u' {
                    if i + 6 <= s.len() {
                        lemma_parse_str_body_bounds(s, i + 6);
                    }
                } else {
                    lemma_parse_str_body_bounds(s, i + 2);
                }
            }
        } else if c != '"' {
            lemma_parse_str_body_bounds(s, i + 1);
        }
    }
}

/// A successful string parse lands strictly past its start and within
/// the input.
pub proof fn lemma_parse_string_bounds(s: Seq<char>, i: int)
    ensures
        parse_string(s, i) matches Some((t, j)) ==> 0 <= i < j <= s.len(),
{
    if 0 <= i < s.len() && s[i] == '"' {
        lemma_parse_str_body_bounds(s, i + 1);
    }
}

/// The whitespace scan stays between its start and the end.
pub proof fn lemma_ws_bounds(s: Seq<char>, i: int)
    requires
        0 <= i <= s.len(),
    ensures
        i <= ws(s, i) <= s.len(),
    decreases s.len() - i,
{
    if i < s.len() && is_json_ws(s[i]) {
        lemma_ws_bounds(s, i + 1);
    }
}

/// A successful field parse lands strictly past its start and within
/// the input.
pub proof fn lemma_parse_field_bounds(s: Seq<char>, i: int)
    requires
        0 <= i <= s.len(),
    ensures
        parse_field(s, i) matches Some(f) ==> i < f.1 <= s.len(),
{
    lemma_ws_bounds(s, i);
    match parse_string(s, ws(s, i)) {
        None => {
        },
        Some((key, j)) => {
            lemma_parse_string_bounds(s, ws(s, i));
            lemma_ws_bounds(s, j);
            match parse_char(s, ws(s, j), ':') {
                None => {
                },
                Some(k) => {
                    lemma_ws_bounds(s, k);
                    lemma_parse_string_bounds(s, ws(s, k));
                },
            }
        },
    }
}

/// A successful rest-of-fields parse lands strictly past its start and
/// within the input.
pub proof fn lemma_parse_fields_rest_bounds(s: Seq<char>, i: int, st: FieldState)
    requires
        0 <= i <= s.len(),
    ensures
        parse_fields_rest(s, i, st) matches Some(f) ==> i < f.1 <= s.len(),
    decreases s.len() - i,
{
    lemma_ws_bounds(s, i);
    match parse_char(s, ws(s, i), ',') {
        None => {
        },
        Some(j) => {
            lemma_parse_field_bounds(s, j);
            match parse_field(s, j) {
                None => {
                },
                Some(((key, val), k)) => {
                    match assign_field(st, key, val) {
                        None => {
                        },
                        Some(st2) => {
                            lemma_parse_fields_rest_bounds(s, k, st2);
                        },
                    }
                },
            }
        },
    }
}

/// A successful record parse lands strictly past its start and within
/// the input.
pub proof fn lemma_parse_record_bounds(s: Seq<char>, i: int)
    requires
        0 <= i <= s.len(),
    ensures
        parse_record(s, i) matches Some(f) ==> i < f.1 <= s.len(),
{
    reveal(parse_record);
    lemma_ws_bounds(s, i);
    match parse_char(s, ws(s, i), '{') {
        None => {
        },
        Some(j) => {
            lemma_parse_field_bounds(s, j);
            match parse_field(s, j) {
                None => {
                },
                Some(((key, val), k)) => {
                    match assign_field(
                        (FieldState { name: None, dir: None, source_id: None }),
                        key,
                        val,
                    ) {
                        None => {
                        },
                        Some(st1) => {
                            lemma_parse_fields_rest_bounds(s, k, st1);
                        },
                    }
                },
            }
        },
    }
}

/// A successful map-entry parse lands strictly past its start and
/// within the input.
pub proof fn lemma_parse_map_entry_bounds(s: Seq<char>, i: int)
    requires
        0 <= i <= s.len(),
    ensures
        parse_map_entry(s, i) matches Some(f) ==> i < f.1 <= s.len(),
{
    lemma_ws_bounds(s, i);
    match parse_string(s, ws(s, i)) {
        None => {
        },
        Some((key, j)) => {
            lemma_parse_string_bounds(s, ws(s, i));
            lemma_ws_bounds(s, j);
            match parse_char(s, ws(s, j), ':') {
                None => {
                },
                Some(k) => {
                    lemma_parse_record_bounds(s, k);
                },
            }
        },
    }
}

/// A successful rest-of-map parse lands within the input, never before
/// its start.
pub proof fn lemma_parse_map_rest_bounds(s: Seq<char>, i: int, acc: Seq<PackageView>)
    requires
        0 <= i <= s.len(),
    ensures
        parse_map_rest(s, i, acc) matches Some(f) ==> i < f.1 <= s.len(),
    decreases s.len() - i,
{
    lemma_ws_bounds(s, i);
    match parse_char(s, ws(s, i), ',') {
        None => {
        },
        Some(j) => {
            lemma_parse_map_entry_bounds(s, j);
            match parse_map_entry(s, j) {
                None => {
                },
                Some((p, k)) => {
                    lemma_parse_map_rest_bounds(s, k, crate::lockfile::spec_insert(acc, p));
                },
            }
        },
    }
}

/// A successful map parse lands strictly past its start and within the
/// input.
pub proof fn lemma_parse_map_bounds(s: Seq<char>, i: int)
    requires
        0 <= i <= s.len(),
    ensures
        parse_map(s, i) matches Some(f) ==> i < f.1 <= s.len(),
{
    lemma_ws_bounds(s, i);
    match parse_char(s, ws(s, i), '{') {
        None => {
        },
        Some(j) => {
            lemma_ws_bounds(s, j);
            match parse_char(s, ws(s, j), '}') {
                Some(_) => {
                },
                None => {
                    lemma_parse_map_entry_bounds(s, j);
                    match parse_map_entry(s, j) {
                        None => {
                        },
                        Some((p, k)) => {
                            lemma_parse_map_rest_bounds(
                                s,
                                k,
                                crate::lockfile::spec_insert(Seq::empty(), p),
                            );
                        },
                    }
                },
            }
        },
    }
}

/// A successful member parse lands strictly past its start and within
/// the input.
pub proof fn lemma_parse_top_member_bounds(s: Seq<char>, i: int, st: TopState)
    requires
        0 <= i <= s.len(),
    ensures
        parse_top_member(s, i, st) matches Some(f) ==> i < f.1 <= s.len(),
{
    lemma_ws_bounds(s, i);
    match parse_string(s, ws(s, i)) {
        None => {
        },
        Some((key, j)) => {
            lemma_parse_string_bounds(s, ws(s, i));
            lemma_ws_bounds(s, j);
            match parse_char(s, ws(s, j), ':') {
                None => {
                },
                Some(k) => {
                    lemma_ws_bounds(s, k);
                    lemma_parse_string_bounds(s, ws(s, k));
                    lemma_parse_map_bounds(s, k);
                },
            }
        },
    }
}

/// Every list a rest-of-map parse hands back is sorted, provided the
/// gathered list was.
pub proof fn lemma_parse_map_rest_sorted(s: Seq<char>, i: int, acc: Seq<PackageView>)
    requires
        0 <= i <= s.len(),
        entries_sorted(acc),
    ensures
        parse_map_rest(s, i, acc) matches Some(f) ==> entries_sorted(f.0),
    decreases s.len() - i,
{
    lemma_ws_bounds(s, i);
    match parse_char(s, ws(s, i), ',') {
        None => {
        },
        Some(j) => {
            lemma_parse_map_entry_bounds(s, j);
            match parse_map_entry(s, j) {
                None => {
                },
                Some((p, k)) => {
                    crate::lockfile::lemma_insert_keeps_sorted(acc, p);
                    lemma_parse_map_rest_sorted(s, k, crate::lockfile::spec_insert(acc, p));
                },
            }
        },
    }
}

/// Every entry list a map parse hands back is sorted.
pub proof fn lemma_parse_map_sorted(s: Seq<char>, i: int)
    requires
        0 <= i <= s.len(),
    ensures
        parse_map(s, i) matches Some(f) ==> entries_sorted(f.0),
{
    lemma_ws_bounds(s, i);
    match parse_char(s, ws(s, i), '{') {
        None => {
        },
        Some(j) => {
            lemma_ws_bounds(s, j);
            match parse_char(s, ws(s, j), '}') {
                Some(_) => {
                },
                None => {
                    lemma_parse_map_entry_bounds(s, j);
                    match parse_map_entry(s, j) {
                        None => {
                        },
                        Some((p, k)) => {
                            let acc = crate::lockfile::spec_insert(Seq::empty(), p);
                            crate::lockfile::lemma_insert_keeps_sorted(Seq::empty(), p);
                            lemma_parse_map_rest_sorted(s, k, acc);
                        },
                    }
                },
            }
        },
    }
}

/// The entries of whatever state a member parse hands back are sorted,
/// provided the state's entries so far were.
pub proof fn lemma_parse_top_member_sorted(s: Seq<char>, i: int, st: TopState)
    requires
        0 <= i <= s.len(),
        st.entries matches Some(es) ==> entries_sorted(es),
    ensures
        parse_top_member(s, i, st) matches Some(f) ==> (f.0.entries matches Some(es2)
            ==> entries_sorted(es2)),
{
    lemma_ws_bounds(s, i);
    match parse_string(s, ws(s, i)) {
        None => {
        },
        Some((key, j)) => {
            lemma_parse_string_bounds(s, ws(s, i));
            lemma_ws_bounds(s, j);
            match parse_char(s, ws(s, j), ':') {
                None => {
                },
                Some(k) => {
                    lemma_parse_map_sorted(s, k);
                },
            }
        },
    }
}

/// The entries of whatever state a rest-of-members parse hands back are
/// sorted, provided the state's entries so far were.
pub proof fn lemma_parse_top_rest_sorted(s: Seq<char>, i: int, st: TopState)
    requires
        0 <= i <= s.len(),
        st.entries matches Some(es) ==> entries_sorted(es),
    ensures
        parse_top_rest(s, i, st) matches Some(f) ==> (f.0.entries matches Some(es2)
            ==> entries_sorted(es2)),
    decreases s.len() - i,
{
    lemma_ws_bounds(s, i);
    match parse_char(s, ws(s, i), ',') {
        None => {
        },
        Some(j) => {
            lemma_parse_top_member_bounds(s, j, st);
            lemma_parse_top_member_sorted(s, j, st);
            match parse_top_member(s, j, st) {
                None => {
                },
                Some((st2, k)) => {
                    lemma_parse_top_rest_sorted(s, k, st2);
                },
            }
        },
    }
}

/// Whatever the lockfile parse returns is well formed.
pub proof fn lemma_parse_lockfile_wf(s: Seq<char>)
    ensures
        parse_lockfile(s) matches Some(lv) ==> lv.wf(),
{
    lemma_ws_bounds(s, 0);
    let st0 = TopState { version: None, entries: None };
    match parse_char(s, ws(s, 0), '{') {
        None => {
        },
        Some(i1) => {
            lemma_parse_top_member_bounds(s, i1, st0);
            lemma_parse_top_member_sorted(s, i1, st0);
            match parse_top_member(s, i1, st0) {
                None => {
                },
                Some((st1, i2)) => {
                    lemma_parse_top_rest_sorted(s, i2, st1);
                },
            }
        },
    }
}


/// Whether a character is a hexadecimal digit.
fn is_hex_exec(c: char) -> (r: bool)
    ensures
        r == is_hex(c),
{
    let v = c as u32;
    let r = (('0' as u32) <= v && v <= ('9' as u32)) || (('a' as u32) <= v && v <= ('f' as u32))
        || (('A' as u32) <= v && v <= ('F' as u32));
    proof {
        vstd::utf8::char_u32_cast(c, c as u32);
    }
    r
}

/// The value of a hexadecimal digit.
fn hex_val_exec(c: char) -> (v: u32)
    ensures
        v == hex_val(c),
        is_hex(c) ==> v < 16,
{
    let x = c as u32;
    if ('0' as u32) <= x && x <= ('9' as u32) {
        x - ('0' as u32)
    } else if ('a' as u32) <= x && x <= ('f' as u32) {
        x - ('a' as u32) + 10
    } else if ('A' as u32) <= x && x <= ('F' as u32) {
        x - ('A' as u32) + 10
    } else {
        0
    }
}

/// The control character with the given scalar value.
fn ctrl_char_exec(v: u32) -> (c: char)
    requires
        v < 0x20,
    ensures
        c == ((v as u32) as char),
{
    let b = v as u8;
    let c = b as char;
    proof {
        assert(c == ((v as u32) as char));
    }
    c
}

/// Whether two character vectors hold the same characters.
fn eq_chars(a: &Vec<char>, b: &Vec<char>) -> (r: bool)
    ensures
        r == (a@ == b@),
{
    if a.len() != b.len() {
        proof {
            assert(a@ != b@);
        }
        return false;
    }
    let mut k: usize = 0;
    while k < a.len()
        invariant
            k <= a.len(),
            a@.len() == b@.len(),
            forall|m: int| 0 <= m < k ==> a@[m] == b@[m],
        decreases a.len() - k,
    {
        if a[k] != b[k] {
            return false;
        }
        k = k + 1;
    }
    proof {
        assert(a@ =~= b@);
    }
    true
}

/// Reads a JSON string literal starting at its opening quote.
fn parse_string_exec(s: &Vec<char>, i: usize) -> (r: Option<(Vec<char>, usize)>)
    requires
        i <= s@.len(),
    ensures
        match r {
            Some(v) => parse_string(s@, i as int) == Some((v.0@, v.1 as int)) && i < v.1 <= s@.len(),
            None => parse_string(s@, i as int) is None,
        },
{
    if i == s.len() {
        return None;
    }
    if s[i] != '"' {
        return None;
    }
    let mut j: usize = i + 1;
    let mut acc: Vec<char> = Vec::new();
    proof {
        lemma_parse_str_body_bounds(s@, i + 1);
        if parse_str_body(s@, i + 1) is Some {
            let (t, k) = parse_str_body(s@, i + 1).unwrap();
            assert(Seq::<char>::empty() + t =~= t);
        }
    }
    loop
        invariant
            i < s@.len(),
            s@[i as int] == '"',
            i + 1 <= j <= s@.len(),
            match parse_str_body(s@, j as int) {
                Some((t, k)) => parse_str_body(s@, i + 1) == Some((acc@ + t, k)) && k <= s@.len(),
                None => parse_str_body(s@, i + 1) is None,
            },
        decreases s@.len() - j,
    {
        proof {
            lemma_parse_str_body_bounds(s@, j as int);
        }
        if j == s.len() {
            return None;
        }
        let c = s[j];
        if c == '"' {
            proof {
                assert(parse_str_body(s@, j as int) == Some((Seq::<char>::empty(), j + 1)));
                assert(acc@ + Seq::<char>::empty() =~= acc@);
                assert(parse_str_body(s@, i + 1) == Some((acc@, j + 1)));
            }
            return Some((acc, j + 1));
        }
        if c == '\\' {
            if j + 1 == s.len() {
                return None;
            }
            let e = s[j + 1];
            if e == 'u' {
                if s.len() - j < 6 {
                    return None;
                }
                if !(is_hex_exec(s[j + 2]) && is_hex_exec(s[j + 3]) && is_hex_exec(s[j + 4])
                    && is_hex_exec(s[j + 5])) {
                    return None;
                }
                let v = ((hex_val_exec(s[j + 2]) * 16 + hex_val_exec(s[j + 3])) * 16 + hex_val_exec(
                    s[j + 4],
                )) * 16 + hex_val_exec(s[j + 5]);
                if v >= 0x20 {
                    return None;
                }
                let ghost j0 = j as int;
                let ghost acc0 = acc@;
                acc.push(ctrl_char_exec(v));
                j = j + 6;
                proof {
                    if parse_str_body(s@, j as int) is Some {
                        let (t, k) = parse_str_body(s@, j as int).unwrap();
                        assert(parse_str_body(s@, j0) == Some((seq![((v as u32) as char)] + t, k)));
                        assert(acc0 + (seq![((v as u32) as char)] + t) =~= acc@ + t);
                    }
                }
            } else {
                let c2 = match unesc_char_exec(e) {
                    Some(c2) => c2,
                    None => {
                        return None;
                    },
                };
                let ghost j0 = j as int;
                let ghost acc0 = acc@;
                acc.push(c2);
                j = j + 2;
                proof {
                    if parse_str_body(s@, j as int) is Some {
                        let (t, k) = parse_str_body(s@, j as int).unwrap();
                        assert(parse_str_body(s@, j0) == Some((seq![c2] + t, k)));
                        assert(acc0 + (seq![c2] + t) =~= acc@ + t);
                    }
                }
            }
        } else {
            if (c as u32) < 0x20 {
                return None;
            }
            let ghost j0 = j as int;
            let ghost acc0 = acc@;
            acc.push(c);
            j = j + 1;
            proof {
                if parse_str_body(s@, j as int) is Some {
                    let (t, k) = parse_str_body(s@, j as int).unwrap();
                    assert(parse_str_body(s@, j0) == Some((seq![c] + t, k)));
                    assert(acc0 + (seq![c] + t) =~= acc@ + t);
                }
            }
        }
    }
}

/// The character a two-character escape stands for.
fn unesc_char_exec(e: char) -> (r: Option<char>)
    ensures
        r == unesc_char(e),
{
    if e == '"' {
        Some('"')
    } else if e == '\\' {
        Some('\\')
    } else if e == '/' {
        Some('/')
    } else if e == 'n' {
        Some('\n')
    } else if e == 't' {
        Some('\t')
    } else if e == 'r' {
        Some('\r')
    } else if e == 'b' {
        Some('\u{8}')
    } else if e == 'f' {
        Some('\u{c}')
    } else {
        None
    }
}

/// Finds the first non-whitespace position at or after a point.
fn ws_exec(s: &Vec<char>, i: usize) -> (r: usize)
    requires
        i <= s@.len(),
    ensures
        r == ws(s@, i as int),
        i <= r <= s@.len(),
{
    let mut k = i;
    while k < s.len() && (s[k] == ' ' || s[k] == '\t' || s[k] == '\n' || s[k] == '\r')
        invariant
            i <= k <= s@.len(),
            ws(s@, i as int) == ws(s@, k as int),
        decreases s@.len() - k,
    {
        k = k + 1;
    }
    k
}

/// Reads one expected character.
fn expect_char(s: &Vec<char>, i: usize, c: char) -> (r: Option<usize>)
    requires
        i <= s@.len(),
    ensures
        match r {
            Some(j) => parse_char(s@, i as int, c) == Some(j as int) && i < j <= s@.len(),
            None => parse_char(s@, i as int, c) is None,
        },
{
    if i < s.len() && s[i] == c {
        Some(i + 1)
    } else {
        None
    }
}

/// Reads one `"key": "value"` field.
fn parse_field_exec(s: &Vec<char>, i: usize) -> (r: Option<((Vec<char>, Vec<char>), usize)>)
    requires
        i <= s@.len(),
    ensures
        match r {
            Some(v) => parse_field(s@, i as int) == Some(((((v.0).0)@, ((v.0).1)@), v.1 as int))
                && i < v.1 <= s@.len(),
            None => parse_field(s@, i as int) is None,
        },
{
    let a = ws_exec(s, i);
    let (key, j) = match parse_string_exec(s, a) {
        Some(x) => x,
        None => {
            return None;
        },
    };
    let b = ws_exec(s, j);
    let k = match expect_char(s, b, ':') {
        Some(x) => x,
        None => {
            return None;
        },
    };
    let c = ws_exec(s, k);
    let (val, m) = match parse_string_exec(s, c) {
        Some(x) => x,
        None => {
            return None;
        },
    };
    Some(((key, val), m))
}

/// The model of a partially gathered record.
pub open spec fn view_str_opt(o: Option<String>) -> Option<Seq<char>> {
    match o {
        Some(x) => Some(x@),
        None => None,
    }
}

/// The model of the three gathered record fields.
pub open spec fn field_view(st: (Option<String>, Option<String>, Option<String>)) -> FieldState {
    FieldState { name: view_str_opt(st.0), dir: view_str_opt(st.1), source_id: view_str_opt(st.2) }
}

/// Stores a field's value under its key.
fn assign_field_exec(
    st: (Option<String>, Option<String>, Option<String>),
    key: &Vec<char>,
    val: &Vec<char>,
) -> (r: Option<(Option<String>, Option<String>, Option<String>)>)
    ensures
        match r {
            Some(st2) => assign_field(field_view(st), key@, val@) == Some(field_view(st2)),
            None => assign_field(field_view(st), key@, val@) is None,
        },
{
    let name_lit = string_to_chars("name");
    let dir_lit = string_to_chars("dir");
    let sid_lit = string_to_chars("source_id");
    if eq_chars(key, &name_lit) {
        if st.0.is_some() {
            None
        } else {
            Some((Some(chars_to_string(val)), st.1, st.2))
        }
    } else if eq_chars(key, &dir_lit) {
        if st.1.is_some() {
            None
        } else {
            Some((st.0, Some(chars_to_string(val)), st.2))
        }
    } else if eq_chars(key, &sid_lit) {
        if st.2.is_some() {
            None
        } else {
            Some((st.0, st.1, Some(chars_to_string(val))))
        }
    } else {
        None
    }
}

/// Reads a package record.
#[verifier::rlimit(100)]
fn parse_record_exec(s: &Vec<char>, i: usize) -> (r: Option<(Package, usize)>)
    requires
        i <= s@.len(),
    ensures
        match r {
            Some(v) => parse_record(s@, i as int) == Some(((v.0)@, v.1 as int)) && i < v.1
                <= s@.len(),
            None => parse_record(s@, i as int) is None,
        },
{
    proof {
        reveal(parse_record);
    }
    let a = ws_exec(s, i);
    let j = match expect_char(s, a, '{') {
        Some(x) => x,
        None => {
            return None;
        },
    };
    let ((key, val), k1) = match parse_field_exec(s, j) {
        Some(x) => x,
        None => {
            return None;
        },
    };
    let st0: (Option<String>, Option<String>, Option<String>) = (None, None, None);
    proof {
        assert(field_view(st0) =~~= (FieldState { name: None, dir: None, source_id: None }));
    }
    let mut st = match assign_field_exec(st0, &key, &val) {
        Some(x) => x,
        None => {
            return None;
        },
    };
    let mut k = k1;
    loop
        invariant
            i <= s@.len(),
            i < k <= s@.len(),
            parse_record(s@, i as int) == (match parse_fields_rest(s@, k as int, field_view(st)) {
                Some((stf, m)) => match (stf.name, stf.dir, stf.source_id) {
                    (Some(n), Some(d), Some(sd)) => Some(
                        ((PackageView { name: n, dir: d, source_id: sd }), m),
                    ),
                    _ => None,
                },
                None => None,
            }),
        decreases s@.len() - k,
    {
        proof {
            lemma_ws_bounds(s@, k as int);
        }
        let a2 = ws_exec(s, k);
        let j2 = match expect_char(s, a2, ',') {
            Some(x) => x,
            None => {
                let end = match expect_char(s, a2, '}') {
                    Some(x) => x,
                    None => {
                        return None;
                    },
                };
                let (n, d, sd) = st;
                let name = match n {
                    Some(x) => x,
                    None => {
                        return None;
                    },
                };
                let dir = match d {
                    Some(x) => x,
                    None => {
                        return None;
                    },
                };
                let sid = match sd {
                    Some(x) => x,
                    None => {
                        return None;
                    },
                };
                let p = Package::new(name, dir, sid);
                proof {
                    assert(i < end);
                }
                return Some((p, end));
            },
        };
        let ((key2, val2), k2) = match parse_field_exec(s, j2) {
            Some(x) => x,
            None => {
                return None;
            },
        };
        st = match assign_field_exec(st, &key2, &val2) {
            Some(x) => x,
            None => {
                return None;
            },
        };
        k = k2;
    }
}

/// Reads one entry of the packages map.
fn parse_map_entry_exec(s: &Vec<char>, i: usize) -> (r: Option<(Package, usize)>)
    requires
        i <= s@.len(),
    ensures
        match r {
            Some(v) => parse_map_entry(s@, i as int) == Some(((v.0)@, v.1 as int)) && i < v.1
                <= s@.len(),
            None => parse_map_entry(s@, i as int) is None,
        },
{
    let a = ws_exec(s, i);
    let (key, j) = match parse_string_exec(s, a) {
        Some(x) => x,
        None => {
            return None;
        },
    };
    let b = ws_exec(s, j);
    let k = match expect_char(s, b, ':') {
        Some(x) => x,
        None => {
            return None;
        },
    };
    let (p, m) = match parse_record_exec(s, k) {
        Some(x) => x,
        None => {
            return None;
        },
    };
    let name_chars = string_to_chars(p.name.as_str());
    if !eq_chars(&name_chars, &key) {
        return None;
    }
    Some((p, m))
}

/// Reads the packages map into a name-sorted list: of entries sharing a
/// key the last one wins.
fn parse_map_exec(s: &Vec<char>, i: usize) -> (r: Option<(Vec<Package>, usize)>)
    requires
        i <= s@.len(),
    ensures
        match r {
            Some(v) => parse_map(s@, i as int) == Some((views_of((v.0)@), v.1 as int))
                && entries_sorted(views_of((v.0)@)) && i < v.1 <= s@.len(),
            None => parse_map(s@, i as int) is None,
        },
{
    let a = ws_exec(s, i);
    let j = match expect_char(s, a, '{') {
        Some(x) => x,
        None => {
            return None;
        },
    };
    let b = ws_exec(s, j);
    if let Some(k) = expect_char(s, b, '}') {
        let empty: Vec<Package> = Vec::new();
        proof {
            assert(views_of(empty@) =~= Seq::<PackageView>::empty());
        }
        return Some((empty, k));
    }
    let (p0, k0) = match parse_map_entry_exec(s, j) {
        Some(x) => x,
        None => {
            return None;
        },
    };
    let ghost p0v = p0@;
    let mut acc: Vec<Package> = Vec::new();
    crate::lockfile::insert_sorted(&mut acc, p0);
    let mut k = k0;
    proof {
        assert(views_of(acc@) == crate::lockfile::spec_insert(Seq::empty(), p0v)) by {
            assert(views_of(Seq::<Package>::empty()) =~= Seq::<PackageView>::empty());
        }
    }
    loop
        invariant
            i <= s@.len(),
            i < k <= s@.len(),
            entries_sorted(views_of(acc@)),
            parse_map(s@, i as int) == parse_map_rest(s@, k as int, views_of(acc@)),
        decreases s@.len() - k,
    {
        let a2 = ws_exec(s, k);
        let j2 = match expect_char(s, a2, ',') {
            Some(x) => x,
            None => {
                let end = match expect_char(s, a2, '}') {
                    Some(x) => x,
                    None => {
                        return None;
                    },
                };
                proof {
                    assert(i < end);
                }
                return Some((acc, end));
            },
        };
        let (p, k2) = match parse_map_entry_exec(s, j2) {
            Some(x) => x,
            None => {
                return None;
            },
        };
        crate::lockfile::insert_sorted(&mut acc, p);
        k = k2;
    }
}

/// The model of the partially gathered top-level members.
pub open spec fn top_view(v: Option<String>, e: Option<Vec<Package>>) -> TopState {
    TopState {
        version: view_str_opt(v),
        entries: match e {
            Some(x) => Some(views_of(x@)),
            None => None,
        },
    }
}

/// Reads one top-level member into the gathered state.
fn parse_top_member_exec(
    s: &Vec<char>,
    i: usize,
    version: Option<String>,
    entries: Option<Vec<Package>>,
) -> (r: Option<(Option<String>, Option<Vec<Package>>, usize)>)
    requires
        i <= s@.len(),
    ensures
        match r {
            Some(v) => parse_top_member(s@, i as int, top_view(version, entries)) == Some(
                (top_view(v.0, v.1), v.2 as int),
            ) && i < v.2 <= s@.len(),
            None => parse_top_member(s@, i as int, top_view(version, entries)) is None,
        },
{
    let a = ws_exec(s, i);
    let (key, j) = match parse_string_exec(s, a) {
        Some(x) => x,
        None => {
            return None;
        },
    };
    let b = ws_exec(s, j);
    let k = match expect_char(s, b, ':') {
        Some(x) => x,
        None => {
            return None;
        },
    };
    let version_lit = string_to_chars("version");
    let packages_lit = string_to_chars("packages");
    if eq_chars(&key, &version_lit) {
        if version.is_some() {
            return None;
        }
        let c = ws_exec(s, k);
        let (v, m) = match parse_string_exec(s, c) {
            Some(x) => x,
            None => {
                return None;
            },
        };
        Some((Some(chars_to_string(&v)), entries, m))
    } else if eq_chars(&key, &packages_lit) {
        if entries.is_some() {
            return None;
        }
        let (es, m) = match parse_map_exec(s, k) {
            Some(x) => x,
            None => {
                return None;
            },
        };
        Some((version, Some(es), m))
    } else {
        None
    }
}

/// Reads a whole lockfile text: its version string and its packages,
/// name-sorted.
pub fn parse_lockfile_chars(s: &Vec<char>) -> (r: Option<(String, Vec<Package>)>)
    ensures
        match r {
            Some(v) => parse_lockfile(s@) == Some(
                (LockfileView { version: ((v.0)@), entries: views_of((v.1)@) }),
            ),
            None => parse_lockfile(s@) is None,
        },
{
    let a = ws_exec(s, 0);
    let i1 = match expect_char(s, a, '{') {
        Some(x) => x,
        None => {
            return None;
        },
    };
    proof {
        assert(top_view(None, None) =~~= (TopState { version: None, entries: None }));
    }
    let (mut ver, mut ents, i2) = match parse_top_member_exec(s, i1, None, None) {
        Some(x) => x,
        None => {
            return None;
        },
    };
    let mut k = i2;
    loop
        invariant
            k <= s@.len(),
            parse_lockfile(s@) == (match parse_top_rest(s@, k as int, top_view(ver, ents)) {
                Some((st, i3)) => if ws(s@, i3) == s@.len() {
                    match (st.version, st.entries) {
                        (Some(v), Some(es)) => Some((LockfileView { version: v, entries: es })),
                        _ => None,
                    }
                } else {
                    None
                },
                None => None,
            }),
        decreases s@.len() - k,
    {
        let a2 = ws_exec(s, k);
        let j2 = match expect_char(s, a2, ',') {
            Some(x) => x,
            None => {
                let end = match expect_char(s, a2, '}') {
                    Some(x) => x,
                    None => {
                        return None;
                    },
                };
                let e = ws_exec(s, end);
                if e != s.len() {
                    return None;
                }
                let version = match ver {
                    Some(x) => x,
                    None => {
                        return None;
                    },
                };
                let packages = match ents {
                    Some(x) => x,
                    None => {
                        return None;
                    },
                };
                return Some((version, packages));
            },
        };
        let (ver2, ents2, k2) = match parse_top_member_exec(s, j2, ver, ents) {
            Some(x) => x,
            None => {
                return None;
            },
        };
        ver = ver2;
        ents = ents2;
        k = k2;
    }
}


// ---------------------------------------------------------------------
// Round trip: parsing the canonical text of a well-formed lockfile
// gives that lockfile back.
// ---------------------------------------------------------------------

/// The word `w` stands in `s` at position `i`.
pub open spec fn at(s: Seq<char>, i: int, w: Seq<char>) -> bool {
    0 <= i && i + w.len() <= s.len() && s.subrange(i, i + w.len()) == w
}

/// A word made of two parts stands at a position exactly when the parts
/// stand there one after the other.
proof fn lemma_at_split(s: Seq<char>, i: int, w1: Seq<char>, w2: Seq<char>)
    requires
        at(s, i, w1 + w2),
    ensures
        at(s, i, w1),
        at(s, i + w1.len(), w2),
{
    let w = w1 + w2;
    assert forall|k: int| 0 <= k < w1.len() implies s.subrange(i, i + w1.len())[k] == w1[k] by {
        assert(s.subrange(i, i + w.len())[k] == s[i + k]);
        assert(w[k] == w1[k]);
    }
    assert(s.subrange(i, i + w1.len()) =~= w1);
    assert forall|k: int| 0 <= k < w2.len() implies s.subrange(
        i + w1.len(),
        i + w1.len() + w2.len(),
    )[k] == w2[k] by {
        assert(s.subrange(i, i + w.len())[w1.len() + k] == s[i + w1.len() + k]);
        assert(w[w1.len() + k] == w2[k]);
    }
    assert(s.subrange(i + w1.len(), i + w1.len() + w2.len()) =~= w2);
}

/// A word standing at a position pins down the characters there.
proof fn lemma_at_index(s: Seq<char>, i: int, w: Seq<char>, k: int)
    requires
        at(s, i, w),
        0 <= k < w.len(),
    ensures
        s[i + k] == w[k],
{
    assert(s.subrange(i, i + w.len())[k] == s[i + k]);
}

/// A hexadecimal digit character reads back as its value.
proof fn lemma_hex_digit_val(d: nat)
    requires
        d < 16,
    ensures
        is_hex(hex_digit(d)),
        hex_val(hex_digit(d)) == d,
{
}

/// Reading a string body where an escaped string stands, followed by
/// its closing quote, yields the original string.
proof fn lemma_parse_str_body_ser(s: Seq<char>, i: int, t: Seq<char>)
    requires
        at(s, i, esc(t) + seq!['"']),
    ensures
        parse_str_body(s, i) == Some((t, i + esc(t).len() + 1)),
    decreases t.len(),
{
    if t.len() == 0 {
        assert(esc(t) + seq!['"'] =~= seq!['"']);
        lemma_at_index(s, i, seq!['"'], 0);
        assert(s[i] == '"');
    } else {
        let c = t[0];
        let t2 = t.drop_first();
        assert(esc(t) == esc_char(c) + esc(t2));
        assert((esc_char(c) + esc(t2)) + seq!['"'] =~= esc_char(c) + (esc(t2) + seq!['"']));
        lemma_at_split(s, i, esc_char(c), esc(t2) + seq!['"']);
        let el = esc_char(c).len();
        lemma_parse_str_body_ser(s, i + el, t2);
        if c == '"' || c == '\\' || c == '\n' || c == '\t' || c == '\r' || c == '\u{8}' || c
            == '\u{c}' {
            lemma_at_index(s, i, esc_char(c), 0);
            lemma_at_index(s, i, esc_char(c), 1);
            assert(s[i] == '\\');
            assert(seq![c] + t2 =~= t);
        } else if (c as u32) < 0x20 {
            lemma_at_index(s, i, esc_char(c), 0);
            lemma_at_index(s, i, esc_char(c), 1);
            lemma_at_index(s, i, esc_char(c), 2);
            lemma_at_index(s, i, esc_char(c), 3);
            lemma_at_index(s, i, esc_char(c), 4);
            lemma_at_index(s, i, esc_char(c), 5);
            let v = c as u32;
            lemma_hex_digit_val((v / 16) as nat);
            lemma_hex_digit_val((v % 16) as nat);
            assert(hex_val(s[i + 2]) == 0 && hex_val(s[i + 3]) == 0);
            assert(((hex_val(s[i + 2]) * 16 + hex_val(s[i + 3])) * 16 + hex_val(s[i + 4])) * 16
                + hex_val(s[i + 5]) == v);
            vstd::utf8::char_u32_cast(c, v);
            assert(((v as u32) as char) == c);
            assert(seq![c] + t2 =~= t);
        } else {
            lemma_at_index(s, i, esc_char(c), 0);
            assert(s[i] == c);
            assert(seq![c] + t2 =~= t);
        }
    }
}

/// Reading a string literal where a serialized string stands yields the
/// original string.
proof fn lemma_parse_string_ser(s: Seq<char>, i: int, t: Seq<char>)
    requires
        at(s, i, ser_str(t)),
    ensures
        parse_string(s, i) == Some((t, i + ser_str(t).len())),
{
    assert(ser_str(t) =~= seq!['"'] + (esc(t) + seq!['"']));
    lemma_at_split(s, i, seq!['"'], esc(t) + seq!['"']);
    lemma_at_index(s, i, seq!['"'], 0);
    assert(s[i] == '"');
    lemma_parse_str_body_ser(s, i + 1, t);
}

/// The text of the entries after the first: each is preceded by the
/// separator.
pub open spec fn ser_rest(es: Seq<PackageView>) -> Seq<char>
    decreases es.len(),
{
    if es.len() == 0 {
        Seq::empty()
    } else {
        lit_sep() + ser_entry(es[0]) + ser_rest(es.drop_first())
    }
}

/// The serialized entries are the first entry followed by the rest.
proof fn lemma_ser_entries_rest(es: Seq<PackageView>)
    requires
        es.len() >= 1,
    ensures
        ser_entries(es) == ser_entry(es[0]) + ser_rest(es.drop_first()),
    decreases es.len(),
{
    if es.len() == 1 {
        assert(ser_rest(es.drop_first()) =~= Seq::<char>::empty());
        assert(ser_entry(es[0]) + Seq::<char>::empty() =~= ser_entry(es[0]));
    } else {
        let es2 = es.drop_first();
        lemma_ser_entries_rest(es2);
        assert(ser_entries(es) == ser_entry(es[0]) + lit_sep() + ser_entries(es2));
        assert(ser_rest(es2) == lit_sep() + ser_entry(es2[0]) + ser_rest(es2.drop_first()));
        assert((ser_entry(es[0]) + lit_sep()) + (ser_entry(es2[0]) + ser_rest(es2.drop_first()))
            =~= ser_entry(es[0]) + (lit_sep() + ser_entry(es2[0]) + ser_rest(es2.drop_first())));
        assert(ser_entry(es[0]) + lit_sep() + ser_entries(es2) =~= ser_entry(es[0]) + (lit_sep()
            + ser_entry(es2[0]) + ser_rest(es2.drop_first())));
    }
}

/// A character that stands for itself inside a string literal.
pub open spec fn raw_char(c: char) -> bool {
    c != '"' && c != '\\' && (c as u32) >= 0x20
}

/// A string of raw characters escapes to itself.
proof fn lemma_esc_raw(t: Seq<char>)
    requires
        forall|k: int| 0 <= k < t.len() ==> raw_char(#[trigger] t[k]),
    ensures
        esc(t) == t,
    decreases t.len(),
{
    if t.len() > 0 {
        assert(raw_char(t[0]));
        assert(esc_char(t[0]) =~= seq![t[0]]);
        lemma_esc_raw(t.drop_first());
        assert(seq![t[0]] + t.drop_first() =~= t);
    }
}

/// A newline followed by an indentation: nothing but whitespace.
pub open spec fn nl_indent(k: nat) -> Seq<char> {
    seq!['\n'] + Seq::new(k, |j: int| ' ')
}

proof fn lemma_nl_indent_ws(k: nat)
    ensures
        nl_indent(k).len() == k + 1,
        forall|m: int| 0 <= m < nl_indent(k).len() ==> is_json_ws(#[trigger] nl_indent(k)[m]),
{
    assert forall|m: int| 0 <= m < nl_indent(k).len() implies is_json_ws(
        #[trigger] nl_indent(k)[m],
    ) by {
        if m == 0 {
            assert(nl_indent(k)[0] == '\n');
        } else {
            assert(nl_indent(k)[m] == ' ');
        }
    }
}

/// Whitespace scanning runs to the first non-whitespace position.
proof fn lemma_ws_over(s: Seq<char>, i: int, j: int)
    requires
        0 <= i <= j <= s.len(),
        forall|k: int| i <= k < j ==> is_json_ws(#[trigger] s[k]),
        j == s.len() || !is_json_ws(s[j]),
    ensures
        ws(s, i) == j,
    decreases j - i,
{
    if i < j {
        lemma_ws_over(s, i + 1, j);
    }
}

/// Whitespace scanning consumes exactly a whitespace run standing at a
/// position.
proof fn lemma_ws_at_run(s: Seq<char>, i: int, run: Seq<char>)
    requires
        at(s, i, run),
        forall|k: int| 0 <= k < run.len() ==> is_json_ws(#[trigger] run[k]),
        i + run.len() == s.len() || !is_json_ws(s[i + run.len()]),
    ensures
        ws(s, i) == i + run.len(),
{
    assert forall|k: int| i <= k < i + run.len() implies is_json_ws(#[trigger] s[k]) by {
        lemma_at_index(s, i, run, k - i);
        assert(is_json_ws(run[k - i]));
    }
    lemma_ws_over(s, i, i + run.len());
}

/// The keys of the canonical layout are raw and escape to themselves.
proof fn lemma_keys_raw()
    ensures
        esc("version"@) == "version"@,
        esc("packages"@) == "packages"@,
        esc("name"@) == "name"@,
        esc("dir"@) == "dir"@,
        esc("source_id"@) == "source_id"@,
{
    reveal_strlit("version");
    reveal_strlit("packages");
    reveal_strlit("name");
    reveal_strlit("dir");
    reveal_strlit("source_id");
    assert forall|k: int| 0 <= k < "version"@.len() implies raw_char(#[trigger] "version"@[k]) by {
        if k == 0 {
        } else if k == 1 {
        } else if k == 2 {
        } else if k == 3 {
        } else if k == 4 {
        } else if k == 5 {
        } else {
        }
    }
    lemma_esc_raw("version"@);
    assert forall|k: int| 0 <= k < "packages"@.len() implies raw_char(
        #[trigger] "packages"@[k],
    ) by {
        if k == 0 {
        } else if k == 1 {
        } else if k == 2 {
        } else if k == 3 {
        } else if k == 4 {
        } else if k == 5 {
        } else if k == 6 {
        } else {
        }
    }
    lemma_esc_raw("packages"@);
    assert forall|k: int| 0 <= k < "name"@.len() implies raw_char(#[trigger] "name"@[k]) by {
        if k == 0 {
        } else if k == 1 {
        } else if k == 2 {
        } else {
        }
    }
    lemma_esc_raw("name"@);
    assert forall|k: int| 0 <= k < "dir"@.len() implies raw_char(#[trigger] "dir"@[k]) by {
        if k == 0 {
        } else if k == 1 {
        } else {
        }
    }
    lemma_esc_raw("dir"@);
    assert forall|k: int| 0 <= k < "source_id"@.len() implies raw_char(
        #[trigger] "source_id"@[k],
    ) by {
        if k == 0 {
        } else if k == 1 {
        } else if k == 2 {
        } else if k == 3 {
        } else if k == 4 {
        } else if k == 5 {
        } else if k == 6 {
        } else if k == 7 {
        } else {
        }
    }
    lemma_esc_raw("source_id"@);
}

/// The canonical fragments, decomposed into tokens and whitespace runs.
proof fn lemma_blob_decomp()
    ensures
        lit_head() == seq!['{'] + nl_indent(2) + ser_str("version"@) + seq![':', ' '],
        lit_mid() == seq![','] + nl_indent(2) + ser_str("packages"@) + seq![':', ' '],
        lit_tail() == seq!['\n'] + seq!['}'],
        lit_empty_map() == seq!['{', '}'],
        lit_po() == seq!['{', '\n'],
        lit_pc() == nl_indent(2) + seq!['}'],
        lit_sep() == seq![',', '\n'],
        lit_e1() == Seq::new(4, |j: int| ' '),
        lit_e2() == seq![':', ' ', '{'] + nl_indent(6) + ser_str("name"@) + seq![':', ' '],
        lit_e3() == seq![','] + nl_indent(6) + ser_str("dir"@) + seq![':', ' '],
        lit_e4() == seq![','] + nl_indent(6) + ser_str("source_id"@) + seq![':', ' '],
        lit_e5() == nl_indent(4) + seq!['}'],
{
    lemma_keys_raw();
    reveal_strlit("{\n  \"version\": ");
    reveal_strlit(",\n  \"packages\": ");
    reveal_strlit("\n}");
    reveal_strlit("{}");
    reveal_strlit("{\n");
    reveal_strlit("\n  }");
    reveal_strlit(",\n");
    reveal_strlit("    ");
    reveal_strlit(": {\n      \"name\": ");
    reveal_strlit(",\n      \"dir\": ");
    reveal_strlit(",\n      \"source_id\": ");
    reveal_strlit("\n    }");
    reveal_strlit("version");
    reveal_strlit("packages");
    reveal_strlit("name");
    reveal_strlit("dir");
    reveal_strlit("source_id");
    assert(lit_head() =~= seq!['{'] + nl_indent(2) + ser_str("version"@) + seq![':', ' ']);
    assert(lit_mid() =~= seq![','] + nl_indent(2) + ser_str("packages"@) + seq![':', ' ']);
    assert(lit_tail() =~= seq!['\n'] + seq!['}']);
    assert(lit_empty_map() =~= seq!['{', '}']);
    assert(lit_po() =~= seq!['{', '\n']);
    assert(lit_pc() =~= nl_indent(2) + seq!['}']);
    assert(lit_sep() =~= seq![',', '\n']);
    assert(lit_e1() =~= Seq::new(4, |j: int| ' '));
    assert(lit_e2() =~= seq![':', ' ', '{'] + nl_indent(6) + ser_str("name"@) + seq![':', ' ']);
    assert(lit_e3() =~= seq![','] + nl_indent(6) + ser_str("dir"@) + seq![':', ' ']);
    assert(lit_e4() =~= seq![','] + nl_indent(6) + ser_str("source_id"@) + seq![':', ' ']);
    assert(lit_e5() =~= nl_indent(4) + seq!['}']);
}

/// Inserting a package larger than everything in a sorted list appends
/// it.
proof fn lemma_insert_at_end(acc: Seq<PackageView>, p: PackageView)
    requires
        forall|k: int| 0 <= k < acc.len() ==> lex_lt((#[trigger] acc[k]).name, p.name),
    ensures
        crate::lockfile::spec_insert(acc, p) == acc.push(p),
    decreases acc.len(),
{
    if acc.len() == 0 {
        assert(crate::lockfile::spec_insert(acc, p) =~= acc.push(p));
    } else {
        assert(lex_lt(acc[0].name, p.name));
        assert forall|k: int| 0 <= k < acc.drop_first().len() implies lex_lt(
            (#[trigger] acc.drop_first()[k]).name,
            p.name,
        ) by {
            assert(acc.drop_first()[k] == acc[k + 1]);
        }
        lemma_insert_at_end(acc.drop_first(), p);
        assert(seq![acc[0]] + acc.drop_first().push(p) =~= acc.push(p));
    }
}

/// Reading a field where a canonical `"key": "value"` stands, after any
/// whitespace, yields that pair.
proof fn lemma_parse_field_ser(s: Seq<char>, i: int, key: Seq<char>, val: Seq<char>)
    requires
        0 <= i <= s.len(),
        at(s, ws(s, i), field_text(key, val)),
    ensures
        parse_field(s, i) == Some(((key, val), ws(s, i) + field_text(key, val).len())),
{
    assert(field_text(key, val) =~= ser_str(key) + (seq![':', ' '] + ser_str(val)));
    lemma_ws_bounds(s, i);
    let q = ws(s, i);
    lemma_at_split(s, q, ser_str(key), seq![':', ' '] + ser_str(val));
    let q1 = q + ser_str(key).len();
    lemma_at_split(s, q1, seq![':', ' '], ser_str(val));
    lemma_parse_string_ser(s, q, key);
    lemma_at_index(s, q1, seq![':', ' '], 0);
    lemma_at_index(s, q1, seq![':', ' '], 1);
    assert(s[q1] == ':');
    assert(s[q1 + 1] == ' ');
    assert(ws(s, q1) == q1);
    assert(parse_char(s, ws(s, q1), ':') == Some(q1 + 1));
    lemma_at_index(s, q1 + 2, ser_str(val), 0);
    assert(s[q1 + 2] == '"');
    assert(ws(s, q1 + 1) == ws(s, q1 + 2));
    assert(ws(s, q1 + 2) == q1 + 2);
    lemma_parse_string_ser(s, q1 + 2, val);
}

/// The part of an entry after its leading indentation.
pub open spec fn ser_entry_tail(p: PackageView) -> Seq<char> {
    ser_str(p.name) + lit_e2() + ser_str(p.name) + lit_e3() + ser_str(p.dir) + lit_e4() + ser_str(
        p.source_id,
    ) + lit_e5()
}

/// The canonical text of one record field.
pub open spec fn field_text(key: Seq<char>, val: Seq<char>) -> Seq<char> {
    ser_str(key) + seq![':', ' '] + ser_str(val)
}

/// The canonical text of a record alone: the object from its opening
/// brace to its closing brace.
pub open spec fn record_text(p: PackageView) -> Seq<char> {
    seq!['{'] + nl_indent(6) + field_text("name"@, p.name) + seq![','] + nl_indent(6) + field_text(
        "dir"@,
        p.dir,
    ) + seq![','] + nl_indent(6) + field_text("source_id"@, p.source_id) + nl_indent(4) + seq!['}']
}

/// Reading a record where its canonical text stands, after any
/// whitespace, yields that package.
#[verifier::rlimit(100)]
proof fn lemma_parse_record_ser(s: Seq<char>, i: int, p: PackageView)
    requires
        0 <= i <= s.len(),
        at(s, ws(s, i), record_text(p)),
    ensures
        parse_record(s, i) == Some((p, ws(s, i) + record_text(p).len())),
{
    reveal(parse_record);
    lemma_blob_decomp();
    lemma_ws_bounds(s, i);
    lemma_nl_indent_ws(6);
    lemma_nl_indent_ws(4);
    reveal_strlit("name");
    reveal_strlit("dir");
    reveal_strlit("source_id");
    let w_colon = seq![':', ' '];
    let w_comma = seq![','];
    let w_cbrace = seq!['}'];
    let f1 = field_text("name"@, p.name);
    let f2 = field_text("dir"@, p.dir);
    let f3 = field_text("source_id"@, p.source_id);
    let t9 = nl_indent(4) + w_cbrace;
    let t8 = f3 + t9;
    let t7 = nl_indent(6) + t8;
    let t6 = w_comma + t7;
    let t5 = f2 + t6;
    let t4 = nl_indent(6) + t5;
    let t3 = w_comma + t4;
    let t2 = f1 + t3;
    let t1 = nl_indent(6) + t2;
    let q = ws(s, i);
    assert(record_text(p) =~= seq!['{'] + t1);
    lemma_at_split(s, q, seq!['{'], t1);
    let a3 = q + 1;
    lemma_at_split(s, a3, nl_indent(6), t2);
    let a4 = a3 + 7;
    lemma_at_split(s, a4, f1, t3);
    let a5 = a4 + f1.len();
    lemma_at_split(s, a5, w_comma, t4);
    let a6 = a5 + 1;
    lemma_at_split(s, a6, nl_indent(6), t5);
    let a7 = a6 + 7;
    lemma_at_split(s, a7, f2, t6);
    let a8 = a7 + f2.len();
    lemma_at_split(s, a8, w_comma, t7);
    let a9 = a8 + 1;
    lemma_at_split(s, a9, nl_indent(6), t8);
    let a10 = a9 + 7;
    lemma_at_split(s, a10, f3, t9);
    let a11 = a10 + f3.len();
    lemma_at_split(s, a11, nl_indent(4), w_cbrace);
    let a12 = a11 + 5;
    lemma_at_index(s, a12, w_cbrace, 0);
    assert(s[a12] == '}');
    // walk the parser down the tokens
    lemma_at_index(s, q, seq!['{'], 0);
    assert(s[q] == '{');
    assert(parse_char(s, q, '{') == Some(a3));
    assert(f1 =~= ser_str("name"@) + (w_colon + ser_str(p.name)));
    assert(f2 =~= ser_str("dir"@) + (w_colon + ser_str(p.dir)));
    assert(f3 =~= ser_str("source_id"@) + (w_colon + ser_str(p.source_id)));
    assert(ws(s, a3) == a4) by {
        lemma_at_index(s, a4, f1, 0);
        assert(f1[0] == '"');
        assert(s[a4] == '"');
        lemma_ws_at_run(s, a3, nl_indent(6));
    }
    lemma_parse_field_ser(s, a3, "name"@, p.name);
    assert(parse_field(s, a3) == Some((("name"@, p.name), a5)));
    let st1 = FieldState { name: Some(p.name), dir: None, source_id: None };
    assert(assign_field((FieldState { name: None, dir: None, source_id: None }), "name"@, p.name)
        == Some(st1));
    lemma_at_index(s, a5, w_comma, 0);
    assert(s[a5] == ',');
    assert(ws(s, a5) == a5);
    assert(ws(s, a6) == a7) by {
        lemma_at_index(s, a7, f2, 0);
        assert(f2[0] == '"');
        assert(s[a7] == '"');
        lemma_ws_at_run(s, a6, nl_indent(6));
    }
    lemma_parse_field_ser(s, a6, "dir"@, p.dir);
    assert(parse_field(s, a6) == Some((("dir"@, p.dir), a8)));
    let st2 = FieldState { name: Some(p.name), dir: Some(p.dir), source_id: None };
    assert(assign_field(st1, "dir"@, p.dir) == Some(st2));
    lemma_at_index(s, a8, w_comma, 0);
    assert(s[a8] == ',');
    assert(ws(s, a8) == a8);
    assert(ws(s, a9) == a10) by {
        lemma_at_index(s, a10, f3, 0);
        assert(f3[0] == '"');
        assert(s[a10] == '"');
        lemma_ws_at_run(s, a9, nl_indent(6));
    }
    lemma_parse_field_ser(s, a9, "source_id"@, p.source_id);
    assert(parse_field(s, a9) == Some((("source_id"@, p.source_id), a11)));
    let st3 = FieldState { name: Some(p.name), dir: Some(p.dir), source_id: Some(p.source_id) };
    assert(assign_field(st2, "source_id"@, p.source_id) == Some(st3));
    assert(ws(s, a11) == a12) by {
        lemma_ws_at_run(s, a11, nl_indent(4));
    }
    assert(parse_char(s, ws(s, a11), ',') is None);
    assert(parse_char(s, ws(s, a11), '}') == Some(a12 + 1));
    assert(parse_fields_rest(s, a11, st3) == Some((st3, a12 + 1)));
    assert(parse_fields_rest(s, a8, st2) == Some((st3, a12 + 1)));
    assert(parse_fields_rest(s, a5, st1) == Some((st3, a12 + 1)));
    assert(parse_record(s, i) == Some((p, a12 + 1)));
    assert(a12 + 1 == q + record_text(p).len());
}

/// Reading a map entry where a canonical entry tail stands, after any
/// whitespace, yields that package.
#[verifier::rlimit(100)]
proof fn lemma_parse_map_entry_ser(s: Seq<char>, i: int, p: PackageView)
    requires
        0 <= i <= s.len(),
        at(s, ws(s, i), ser_entry_tail(p)),
    ensures
        parse_map_entry(s, i) == Some((p, ws(s, i) + ser_entry_tail(p).len())),
{
    lemma_blob_decomp();
    lemma_ws_bounds(s, i);
    let w_colon = seq![':', ' '];
    let q = ws(s, i);
    assert(ser_entry_tail(p) =~= ser_str(p.name) + (w_colon + record_text(p))) by {
        lemma_nl_indent_ws(6);
        lemma_nl_indent_ws(4);
    }
    lemma_at_split(s, q, ser_str(p.name), w_colon + record_text(p));
    let a1 = q + ser_str(p.name).len();
    lemma_at_split(s, a1, w_colon, record_text(p));
    let a2 = a1 + 2;
    lemma_parse_string_ser(s, q, p.name);
    lemma_at_index(s, a1, w_colon, 0);
    lemma_at_index(s, a1, w_colon, 1);
    assert(s[a1] == ':' && s[a1 + 1] == ' ');
    assert(ws(s, a1) == a1);
    assert(parse_char(s, ws(s, a1), ':') == Some(a1 + 1));
    assert(ws(s, a1 + 1) == a2) by {
        lemma_at_index(s, a2, record_text(p), 0);
        assert(s[a2] == '{');
        assert(ws(s, a2) == a2);
    }
    assert(at(s, ws(s, a1 + 1), record_text(p)));
    lemma_parse_record_ser(s, a1 + 1, p);
    assert(parse_record(s, a1 + 1) == Some((p, a2 + record_text(p).len())));
    assert(parse_map_entry(s, i) == Some((p, a2 + record_text(p).len())));
    assert(a2 + record_text(p).len() == q + ser_entry_tail(p).len());
}

/// Reading the rest of a canonical map yields the remaining entries,
/// appended in order.
#[verifier::rlimit(100)]
proof fn lemma_parse_map_rest_ser(
    s: Seq<char>,
    i: int,
    acc: Seq<PackageView>,
    es: Seq<PackageView>,
)
    requires
        0 <= i <= s.len(),
        at(s, i, ser_rest(es) + lit_pc()),
        entries_sorted(acc + es),
    ensures
        parse_map_rest(s, i, acc) == Some((acc + es, i + ser_rest(es).len() + lit_pc().len())),
    decreases es.len(),
{
    lemma_blob_decomp();
    lemma_nl_indent_ws(2);
    lemma_nl_indent_ws(4);
    if es.len() == 0 {
        assert(ser_rest(es) + lit_pc() =~= lit_pc());
        assert(at(s, i, nl_indent(2) + seq!['}']));
        lemma_at_split(s, i, nl_indent(2), seq!['}']);
        lemma_at_index(s, i + 3, seq!['}'], 0);
        assert(s[i + 3] == '}');
        lemma_ws_at_run(s, i, nl_indent(2));
        assert(ws(s, i) == i + 3);
        assert(parse_char(s, i + 3, ',') is None);
        assert(parse_char(s, i + 3, '}') == Some(i + 4));
        assert(acc + es =~= acc);
    } else {
        let p = es[0];
        let es2 = es.drop_first();
        assert(ser_rest(es) == lit_sep() + ser_entry(p) + ser_rest(es2));
        assert(lit_e1() + ser_entry_tail(p) =~= ser_entry(p));
        assert(ser_rest(es) + lit_pc() =~= seq![','] + (nl_indent(4) + (ser_entry_tail(p) + (
        ser_rest(es2) + lit_pc())))) by {
            assert(lit_sep() + (lit_e1() + ser_entry_tail(p)) + ser_rest(es2) + lit_pc() =~= seq![
                ',',
            ] + (nl_indent(4) + (ser_entry_tail(p) + (ser_rest(es2) + lit_pc()))));
        }
        lemma_at_split(s, i, seq![','], nl_indent(4) + (ser_entry_tail(p) + (ser_rest(es2)
            + lit_pc())));
        let j = i + 1;
        lemma_at_split(s, j, nl_indent(4), ser_entry_tail(p) + (ser_rest(es2) + lit_pc()));
        let j2 = j + 5;
        lemma_at_split(s, j2, ser_entry_tail(p), ser_rest(es2) + lit_pc());
        let j3 = j2 + ser_entry_tail(p).len();
        lemma_at_index(s, i, seq![','], 0);
        assert(s[i] == ',');
        assert(ws(s, i) == i);
        assert(parse_char(s, i, ',') == Some(j));
        assert(ws(s, j) == j2) by {
            lemma_at_index(s, j2, ser_entry_tail(p), 0);
            assert(s[j2] == '"');
            lemma_ws_at_run(s, j, nl_indent(4));
        }
        lemma_parse_map_entry_ser(s, j, p);
        assert(parse_map_entry(s, j) == Some((p, j3)));
        assert forall|k: int| 0 <= k < acc.len() implies lex_lt(
            (#[trigger] acc[k]).name,
            p.name,
        ) by {
            assert((acc + es)[k] == acc[k]);
            assert((acc + es)[acc.len() as int] == p);
        }
        lemma_insert_at_end(acc, p);
        assert(crate::lockfile::spec_insert(acc, p) == acc.push(p));
        assert(acc.push(p) + es2 =~= acc + es);
        assert(entries_sorted(acc.push(p) + es2));
        lemma_parse_map_rest_ser(s, j3, acc.push(p), es2);
        assert(parse_map_rest(s, i, acc) == parse_map_rest(s, j3, acc.push(p)));
    }
}

/// Reading the packages object where its canonical text stands, after
/// any whitespace, yields exactly the serialized entries.
#[verifier::rlimit(100)]
proof fn lemma_parse_map_ser(s: Seq<char>, i: int, es: Seq<PackageView>)
    requires
        0 <= i <= s.len(),
        at(s, ws(s, i), ser_packages(es)),
        entries_sorted(es),
    ensures
        parse_map(s, i) == Some((es, ws(s, i) + ser_packages(es).len())),
{
    lemma_blob_decomp();
    lemma_ws_bounds(s, i);
    lemma_nl_indent_ws(4);
    let q = ws(s, i);
    if es.len() == 0 {
        assert(at(s, q, seq!['{', '}']));
        lemma_at_index(s, q, seq!['{', '}'], 0);
        lemma_at_index(s, q, seq!['{', '}'], 1);
        assert(s[q] == '{' && s[q + 1] == '}');
        assert(parse_char(s, q, '{') == Some(q + 1));
        assert(ws(s, q + 1) == q + 1);
        assert(parse_char(s, q + 1, '}') == Some(q + 2));
        assert(es =~= Seq::<PackageView>::empty());
    } else {
        let p = es[0];
        let es2 = es.drop_first();
        lemma_ser_entries_rest(es);
        assert(lit_e1() + ser_entry_tail(p) =~= ser_entry(p));
        assert(ser_packages(es) =~= seq!['{'] + (nl_indent(4) + (ser_entry_tail(p) + (ser_rest(es2)
            + lit_pc())))) by {
            assert(lit_po() + (ser_entry(p) + ser_rest(es2)) + lit_pc() =~= seq!['{'] + (nl_indent(
                4,
            ) + (ser_entry_tail(p) + (ser_rest(es2) + lit_pc()))));
        }
        lemma_at_split(s, q, seq!['{'], nl_indent(4) + (ser_entry_tail(p) + (ser_rest(es2)
            + lit_pc())));
        let j = q + 1;
        lemma_at_split(s, j, nl_indent(4), ser_entry_tail(p) + (ser_rest(es2) + lit_pc()));
        let j2 = j + 5;
        lemma_at_split(s, j2, ser_entry_tail(p), ser_rest(es2) + lit_pc());
        let j3 = j2 + ser_entry_tail(p).len();
        lemma_at_index(s, q, seq!['{'], 0);
        assert(s[q] == '{');
        assert(parse_char(s, q, '{') == Some(j));
        assert(ws(s, j) == j2) by {
            lemma_at_index(s, j2, ser_entry_tail(p), 0);
            assert(s[j2] == '"');
            lemma_ws_at_run(s, j, nl_indent(4));
        }
        assert(s[j2] == '"') by {
            lemma_at_index(s, j2, ser_entry_tail(p), 0);
        }
        assert(parse_char(s, ws(s, j), '}') is None);
        lemma_parse_map_entry_ser(s, j, p);
        assert(parse_map_entry(s, j) == Some((p, j3)));
        assert(crate::lockfile::spec_insert(Seq::empty(), p) =~= seq![p]);
        assert(seq![p] + es2 =~= es);
        assert(entries_sorted(seq![p] + es2));
        lemma_parse_map_rest_ser(s, j3, seq![p], es2);
        assert(parse_map_rest(s, j3, seq![p]) == Some((es, j3 + ser_rest(es2).len()
            + lit_pc().len())));
    }
}

/// Reading the version member where its canonical text stands, after
/// any whitespace, stores the version string.
#[verifier::rlimit(100)]
proof fn lemma_parse_version_member_ser(s: Seq<char>, i: int, v: Seq<char>, st: TopState)
    requires
        0 <= i <= s.len(),
        st.version is None,
        at(s, ws(s, i), ser_str("version"@) + (seq![':', ' '] + ser_str(v))),
    ensures
        parse_top_member(s, i, st) == Some(
            ((TopState { version: Some(v), entries: st.entries }), ws(s, i) + ser_str(
                "version"@,
            ).len() + 2 + ser_str(v).len()),
        ),
{
    lemma_blob_decomp();
    lemma_ws_bounds(s, i);
    reveal_strlit("version");
    reveal_strlit("packages");
    let w_colon = seq![':', ' '];
    let q = ws(s, i);
    lemma_at_split(s, q, ser_str("version"@), w_colon + ser_str(v));
    let c1 = q + ser_str("version"@).len();
    lemma_at_split(s, c1, w_colon, ser_str(v));
    lemma_parse_string_ser(s, q, "version"@);
    lemma_at_index(s, c1, w_colon, 0);
    lemma_at_index(s, c1, w_colon, 1);
    assert(s[c1] == ':' && s[c1 + 1] == ' ');
    assert(ws(s, c1) == c1);
    lemma_at_index(s, c1 + 2, ser_str(v), 0);
    assert(s[c1 + 2] == '"');
    assert(ws(s, c1 + 1) == ws(s, c1 + 2));
    assert(ws(s, c1 + 2) == c1 + 2);
    lemma_parse_string_ser(s, c1 + 2, v);
}

/// Reading the packages member where its canonical text stands, after
/// any whitespace, stores the entries.
#[verifier::rlimit(100)]
proof fn lemma_parse_packages_member_ser(s: Seq<char>, i: int, es: Seq<PackageView>, st: TopState)
    requires
        0 <= i <= s.len(),
        st.entries is None,
        entries_sorted(es),
        at(s, ws(s, i), ser_str("packages"@) + (seq![':', ' '] + ser_packages(es))),
    ensures
        parse_top_member(s, i, st) == Some(
            ((TopState { version: st.version, entries: Some(es) }), ws(s, i) + ser_str(
                "packages"@,
            ).len() + 2 + ser_packages(es).len()),
        ),
{
    lemma_blob_decomp();
    lemma_ws_bounds(s, i);
    reveal_strlit("version");
    reveal_strlit("packages");
    let w_colon = seq![':', ' '];
    let q = ws(s, i);
    lemma_at_split(s, q, ser_str("packages"@), w_colon + ser_packages(es));
    let c1 = q + ser_str("packages"@).len();
    lemma_at_split(s, c1, w_colon, ser_packages(es));
    lemma_parse_string_ser(s, q, "packages"@);
    lemma_at_index(s, c1, w_colon, 0);
    lemma_at_index(s, c1, w_colon, 1);
    assert(s[c1] == ':' && s[c1 + 1] == ' ');
    assert(ws(s, c1) == c1);
    assert("packages"@ != "version"@);
    assert(ws(s, c1 + 2) == c1 + 2) by {
        lemma_at_index(s, c1 + 2, ser_packages(es), 0);
        assert(ser_packages(es)[0] == '{') by {
            if es.len() == 0 {
                assert(lit_empty_map()[0] == '{');
            } else {
                assert(ser_packages(es)[0] == lit_po()[0]);
            }
        }
        assert(s[c1 + 2] == '{');
    }
    assert(ws(s, c1 + 1) == ws(s, c1 + 2));
    lemma_parse_map_ser(s, c1 + 1, es);
    assert(parse_map(s, c1 + 1) == Some((es, c1 + 2 + ser_packages(es).len())));
}

/// Parsing the canonical text of a well-formed lockfile gives that
/// lockfile back: the store's serialization round-trips, and a file the
/// canonical writer wrote is never mistaken for a corrupt one.
#[verifier::rlimit(100)]
pub proof fn lemma_parse_ser_lockfile(l: LockfileView)
    requires
        l.wf(),
    ensures
        parse_lockfile(ser_lockfile(l)) == Some(l),
{
    lemma_blob_decomp();
    lemma_nl_indent_ws(2);
    let s = ser_lockfile(l);
    let w_colon = seq![':', ' '];
    assert(s =~= seq!['{'] + (nl_indent(2) + ((ser_str("version"@) + (w_colon + ser_str(l.version)))
        + (seq![','] + (nl_indent(2) + ((ser_str("packages"@) + (w_colon + ser_packages(l.entries)))
        + (seq!['\n'] + seq!['}'])))))));
    assert(at(s, 0, s)) by {
        assert(s.subrange(0, s.len() as int) =~= s);
    }
    lemma_at_split(s, 0, seq!['{'], nl_indent(2) + ((ser_str("version"@) + (w_colon + ser_str(
        l.version,
    ))) + (seq![','] + (nl_indent(2) + ((ser_str("packages"@) + (w_colon + ser_packages(l.entries)))
        + (seq!['\n'] + seq!['}']))))));
    let b1 = 1int;
    lemma_at_split(s, b1, nl_indent(2), (ser_str("version"@) + (w_colon + ser_str(l.version))) + (
    seq![','] + (nl_indent(2) + ((ser_str("packages"@) + (w_colon + ser_packages(l.entries))) + (
    seq!['\n'] + seq!['}'])))));
    let b2 = b1 + 3;
    lemma_at_split(s, b2, ser_str("version"@) + (w_colon + ser_str(l.version)), seq![','] + (
    nl_indent(2) + ((ser_str("packages"@) + (w_colon + ser_packages(l.entries))) + (seq!['\n']
        + seq!['}']))));
    let b3 = b2 + ser_str("version"@).len() + 2 + ser_str(l.version).len();
    lemma_at_split(s, b3, seq![','], nl_indent(2) + ((ser_str("packages"@) + (w_colon
        + ser_packages(l.entries))) + (seq!['\n'] + seq!['}'])));
    let b4 = b3 + 1;
    lemma_at_split(s, b4, nl_indent(2), (ser_str("packages"@) + (w_colon + ser_packages(l.entries)))
        + (seq!['\n'] + seq!['}']));
    let b5 = b4 + 3;
    lemma_at_split(s, b5, ser_str("packages"@) + (w_colon + ser_packages(l.entries)), seq!['\n']
        + seq!['}']);
    let b8 = b5 + ser_str("packages"@).len() + 2 + ser_packages(l.entries).len();
    lemma_at_split(s, b8, seq!['\n'], seq!['}']);
    let b9 = b8 + 1;
    lemma_at_index(s, 0, seq!['{'], 0);
    assert(s[0] == '{');
    assert(ws(s, 0) == 0);
    assert(parse_char(s, 0, '{') == Some(b1));
    // first member: the version
    assert(ws(s, b1) == b2) by {
        lemma_at_index(s, b2, ser_str("version"@) + (w_colon + ser_str(l.version)), 0);
        assert(s[b2] == '"');
        lemma_ws_at_run(s, b1, nl_indent(2));
    }
    let st0 = TopState { version: None, entries: None };
    let st1 = TopState { version: Some(l.version), entries: None };
    lemma_parse_version_member_ser(s, b1, l.version, st0);
    assert(parse_top_member(s, b1, st0) == Some((st1, b3)));
    // second member: the packages
    lemma_at_index(s, b3, seq![','], 0);
    assert(s[b3] == ',');
    assert(ws(s, b3) == b3);
    assert(parse_char(s, b3, ',') == Some(b4));
    assert(ws(s, b4) == b5) by {
        lemma_at_index(s, b5, ser_str("packages"@) + (w_colon + ser_packages(l.entries)), 0);
        assert(s[b5] == '"');
        lemma_ws_at_run(s, b4, nl_indent(2));
    }
    let st2 = TopState { version: Some(l.version), entries: Some(l.entries) };
    lemma_parse_packages_member_ser(s, b4, l.entries, st1);
    assert(parse_top_member(s, b4, st1) == Some((st2, b8)));
    // the closing brace and the end of the text
    lemma_at_index(s, b8, seq!['\n'], 0);
    lemma_at_index(s, b9, seq!['}'], 0);
    assert(s[b8] == '\n' && s[b9] == '}');
    assert(ws(s, b8) == ws(s, b9));
    assert(ws(s, b9) == b9);
    assert(parse_char(s, ws(s, b8), ',') is None);
    assert(parse_char(s, ws(s, b8), '}') == Some(b9 + 1));
    assert(b9 + 1 == s.len());
    assert(ws(s, b9 + 1) == s.len());
    assert(parse_top_rest(s, b8, st2) == Some((st2, b9 + 1)));
    assert(parse_top_rest(s, b3, st1) == Some((st2, b9 + 1)));
    assert(parse_lockfile(s) == Some((LockfileView { version: l.version, entries: l.entries })));
    assert((LockfileView { version: l.version, entries: l.entries }) =~~= l);
}

} // verus!

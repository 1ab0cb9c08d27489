//! Picker plumbing: which picker runs, the indexed lines fed to it, and
//! reading the picked indices back.  Running the interactive picker is
//! the application's work.

use crate::item::PackageItemDisplay;
use crate::strutil::{chars_to_string, dec_digits, digit_char, push_str_chars_pub, string_to_chars};
use vstd::prelude::*;

verus! {

/// The list pickers the library knows of.
#[derive(Debug, Default, Clone, Copy, PartialEq, Eq, Structural)]
pub enum PickerMode {
    Inquire,
    #[default]
    Fzf,
}

/// Settings of the external fuzzy finder picker.
#[derive(Debug, Clone, Copy, PartialEq, Eq, Structural, Default)]
pub struct FzfPickerConfig {}

/// Settings of the in-process picker.
#[derive(Debug, Clone, Copy, PartialEq, Eq, Structural, Default)]
pub struct InquirePickerConfig {}

/// Which picker to run, with its settings.
#[derive(Debug, Clone, Copy, Default)]
pub struct PickConfig {
    pub mode: PickerMode,
    pub fzf: Option<FzfPickerConfig>,
    pub inquire: Option<InquirePickerConfig>,
}

/// The external fuzzy finder picker.
#[derive(Debug, Clone, Copy, Default)]
pub struct FzfPicker {
    pub config: FzfPickerConfig,
}

impl FzfPicker {
    /// A picker with the given settings, or the default ones.
    pub fn new(config: Option<FzfPickerConfig>) -> (p: FzfPicker)
        ensures
            match config {
                Some(c) => p.config == c,
                None => true,
            },
    {
        FzfPicker {
            config: match config {
                Some(c) => c,
                None => FzfPickerConfig {  },
            },
        }
    }
}

fn push_usize_dec(n: usize, out: &mut Vec<char>)
    ensures
        final(out)@ == old(out)@ + dec_digits(n as nat),
    decreases n,
{
    if n < 10 {
        out.push(digit_char_usize(n));
    } else {
        push_usize_dec(n / 10, out);
        out.push(digit_char_usize(n % 10));
    }
}

fn digit_char_usize(d: usize) -> (c: char)
    requires
        d < 10,
    ensures
        c == digit_char(d as nat),
{
    if d == 0 {
        '0'
    } else if d == 1 {
        '1'
    } else if d == 2 {
        '2'
    } else if d == 3 {
        '3'
    } else if d == 4 {
        '4'
    } else if d == 5 {
        '5'
    } else if d == 6 {
        '6'
    } else if d == 7 {
        '7'
    } else if d == 8 {
        '8'
    } else {
        '9'
    }
}

/// One line fed to the picker: the item's index in decimal, one space,
/// the item's label.  The picker echoes picked lines back, and the index
/// leads to the original item.
pub open spec fn spec_picker_line(index: nat, label: Seq<char>) -> Seq<char> {
    dec_digits(index) + seq![' '] + label
}

/// The lines fed to the picker, one per label, in order.
pub fn format_picker_lines(labels: &Vec<String>) -> (r: Vec<String>)
    ensures
        r@.len() == labels@.len(),
        forall|j: int|
            0 <= j < r@.len() ==> (#[trigger] r@[j])@ == spec_picker_line(
                j as nat,
                labels@[j]@,
            ),
{
    let mut r: Vec<String> = Vec::new();
    let mut i: usize = 0;
    while i < labels.len()
        invariant
            i <= labels.len(),
            r@.len() == i,
            forall|j: int|
                0 <= j < i ==> (#[trigger] r@[j])@ == spec_picker_line(j as nat, labels@[j]@),
        decreases labels.len() - i,
    {
        let mut out: Vec<char> = Vec::new();
        push_usize_dec(i, &mut out);
        out.push(' ');
        push_str_chars_pub(&mut out, labels[i].as_str());
        proof {
            assert(out@ =~= spec_picker_line(i as nat, labels@[i as int]@));
        }
        r.push(chars_to_string(&out));
        i = i + 1;
    }
    r
}

/// Whether a character is a decimal digit.
pub open spec fn is_digit(c: char) -> bool {
    '0' <= c && c <= '9'
}

/// The value of a decimal digit.
pub open spec fn digit_val(c: char) -> nat {
    ((c as nat) - ('0' as nat)) as nat
}

/// The value of a digit run, read left to right onto an accumulator.
pub open spec fn dec_val_fwd(s: Seq<char>, a: int, b: int, acc: nat) -> nat
    decreases b - a,
{
    if a >= b {
        acc
    } else {
        dec_val_fwd(s, a + 1, b, acc * 10 + digit_val(s[a]))
    }
}

/// The value never falls below its accumulator.
proof fn lemma_dec_val_fwd_ge(s: Seq<char>, a: int, b: int, acc: nat)
    ensures
        dec_val_fwd(s, a, b, acc) >= acc,
    decreases b - a,
{
    if a < b {
        lemma_dec_val_fwd_ge(s, a + 1, b, acc * 10 + digit_val(s[a]));
    }
}

/// The position of the first non-blank character at or after a point.
pub open spec fn skip_blanks(s: Seq<char>, i: int) -> int
    decreases s.len() - i,
    when 0 <= i <= s.len()
{
    if i < s.len() && (s[i] == ' ' || s[i] == '\t') {
        skip_blanks(s, i + 1)
    } else {
        i
    }
}

/// The position after the digit run starting at a point.
pub open spec fn digits_end(s: Seq<char>, i: int) -> int
    decreases s.len() - i,
    when 0 <= i <= s.len()
{
    if i < s.len() && is_digit(s[i]) {
        digits_end(s, i + 1)
    } else {
        i
    }
}

/// The position of the line break at or after a point, or the end.
pub open spec fn line_end(s: Seq<char>, i: int) -> int
    decreases s.len() - i,
    when 0 <= i <= s.len()
{
    if i < s.len() && s[i] != '\n' {
        line_end(s, i + 1)
    } else {
        i
    }
}

/// The scans stay between their start and the end of the input.
proof fn lemma_scan_bounds(s: Seq<char>, i: int)
    requires
        0 <= i <= s.len(),
    ensures
        i <= skip_blanks(s, i) <= s.len(),
        i <= digits_end(s, i) <= s.len(),
        i <= line_end(s, i) <= s.len(),
    decreases s.len() - i,
{
    if i < s.len() {
        lemma_scan_bounds(s, i + 1);
    }
}

/// The picked indices of a picker's output, line by line: each line
/// holds, after any leading blanks, the item's index in decimal; the
/// rest of the line is the echoed label and is ignored.  A line without
/// a leading number, or with one too large for the machine, reads as
/// nothing.
pub open spec fn spec_parse_indices(s: Seq<char>, i: int) -> Option<Seq<int>>
    decreases s.len() - i,
    when 0 <= i <= s.len()
    via spec_parse_indices_dec
{
    if i >= s.len() {
        Some(Seq::empty())
    } else {
        let a = skip_blanks(s, i);
        let b = digits_end(s, a);
        if b == a {
            None
        } else if dec_val_fwd(s, a, b, 0) > usize::MAX as nat {
            None
        } else {
            let e = line_end(s, b);
            if e >= s.len() {
                Some(seq![dec_val_fwd(s, a, b, 0) as int])
            } else {
                match spec_parse_indices(s, e + 1) {
                    Some(rest) => Some(seq![dec_val_fwd(s, a, b, 0) as int] + rest),
                    None => None,
                }
            }
        }
    }
}

#[via_fn]
proof fn spec_parse_indices_dec(s: Seq<char>, i: int) {
    if 0 <= i && i < s.len() {
        lemma_scan_bounds(s, i);
        let a = skip_blanks(s, i);
        lemma_scan_bounds(s, a);
        let b = digits_end(s, a);
        lemma_scan_bounds(s, b);
    }
}

/// The values of a list of machine numbers.
pub open spec fn usize_views(v: Seq<usize>) -> Seq<int> {
    v.map_values(|x: usize| x as int)
}

/// Finds the first non-blank position at or after a point.
fn skip_blanks_exec(s: &Vec<char>, i: usize) -> (r: usize)
    requires
        i <= s@.len(),
    ensures
        r == skip_blanks(s@, i as int),
        i <= r <= s@.len(),
{
    let mut k = i;
    while k < s.len() && (s[k] == ' ' || s[k] == '\t')
        invariant
            i <= k <= s@.len(),
            skip_blanks(s@, i as int) == skip_blanks(s@, k as int),
        decreases s@.len() - k,
    {
        k = k + 1;
    }
    k
}

/// Finds the end of the digit run starting at a point.
fn digits_end_exec(s: &Vec<char>, i: usize) -> (r: usize)
    requires
        i <= s@.len(),
    ensures
        r == digits_end(s@, i as int),
        i <= r <= s@.len(),
{
    let mut k = i;
    while k < s.len() && '0' <= s[k] && s[k] <= '9'
        invariant
            i <= k <= s@.len(),
            digits_end(s@, i as int) == digits_end(s@, k as int),
        decreases s@.len() - k,
    {
        k = k + 1;
    }
    k
}

/// Finds the line break at or after a point, or the end.
fn line_end_exec(s: &Vec<char>, i: usize) -> (r: usize)
    requires
        i <= s@.len(),
    ensures
        r == line_end(s@, i as int),
        i <= r <= s@.len(),
{
    let mut k = i;
    while k < s.len() && s[k] != '\n'
        invariant
            i <= k <= s@.len(),
            line_end(s@, i as int) == line_end(s@, k as int),
        decreases s@.len() - k,
    {
        k = k + 1;
    }
    k
}

/// Reads the value of a digit run, or nothing when it does not fit the
/// machine.
fn dec_val_exec(s: &Vec<char>, a: usize, b: usize) -> (r: Option<usize>)
    requires
        a <= b <= s@.len(),
        forall|k: int| a <= k < b ==> is_digit(#[trigger] s@[k]),
    ensures
        match r {
            Some(v) => v as nat == dec_val_fwd(s@, a as int, b as int, 0) && dec_val_fwd(
                s@,
                a as int,
                b as int,
                0,
            ) <= usize::MAX as nat,
            None => dec_val_fwd(s@, a as int, b as int, 0) > usize::MAX as nat,
        },
{
    let mut acc: u128 = 0;
    let mut k = a;
    while k < b
        invariant
            a <= k <= b <= s@.len(),
            forall|m: int| a <= m < b ==> is_digit(#[trigger] s@[m]),
            acc <= usize::MAX as u128,
            dec_val_fwd(s@, a as int, b as int, 0) == dec_val_fwd(s@, k as int, b as int, acc as nat),
        decreases b - k,
    {
        let c = s[k];
        let d = (c as u32) - ('0' as u32);
        proof {
            assert(is_digit(s@[k as int]));
            assert(d == digit_val(s@[k as int]));
        }
        let acc2: u128 = acc * 10 + (d as u128);
        proof {
            assert(dec_val_fwd(s@, k as int, b as int, acc as nat) == dec_val_fwd(
                s@,
                k + 1,
                b as int,
                (acc * 10 + d) as nat,
            ));
        }
        if acc2 > usize::MAX as u128 {
            proof {
                lemma_dec_val_fwd_ge(s@, k + 1, b as int, acc2 as nat);
            }
            return None;
        }
        acc = acc2;
        k = k + 1;
    }
    Some(acc as usize)
}

/// Reads the picked indices from a picker's output; output in any other
/// shape gives nothing.
pub fn try_parse_selected_index(input: &str) -> (r: Option<Vec<usize>>)
    ensures
        match r {
            Some(v) => spec_parse_indices(input@, 0) == Some(usize_views(v@)),
            None => spec_parse_indices(input@, 0) is None,
        },
{
    let s = string_to_chars(input);
    let mut acc: Vec<usize> = Vec::new();
    let mut i: usize = 0;
    proof {
        assert(usize_views(acc@) =~= Seq::<int>::empty());
        if spec_parse_indices(s@, 0) is Some {
            let rest = spec_parse_indices(s@, 0).unwrap();
            assert(Seq::<int>::empty() + rest =~= rest);
        }
    }
    loop
        invariant
            i <= s@.len(),
            s@ == input@,
            match spec_parse_indices(s@, i as int) {
                Some(rest) => spec_parse_indices(s@, 0) == Some(usize_views(acc@) + rest),
                None => spec_parse_indices(s@, 0) is None,
            },
        decreases s@.len() - i,
    {
        if i >= s.len() {
            proof {
                assert(usize_views(acc@) + Seq::<int>::empty() =~= usize_views(acc@));
            }
            return Some(acc);
        }
        let a = skip_blanks_exec(&s, i);
        let b = digits_end_exec(&s, a);
        if b == a {
            return None;
        }
        proof {
            lemma_digits_run(s@, a as int, b as int);
        }
        let v = match dec_val_exec(&s, a, b) {
            Some(v) => v,
            None => {
                return None;
            },
        };
        let e = line_end_exec(&s, b);
        let ghost acc0 = acc@;
        acc.push(v);
        proof {
            assert(usize_views(acc@) =~= usize_views(acc0) + seq![v as int]);
        }
        if e >= s.len() {
            proof {
                assert(spec_parse_indices(s@, i as int) == Some(seq![v as int]));
                assert(usize_views(acc0) + seq![v as int] =~= usize_views(acc@)
                    + Seq::<int>::empty());
            }
            return Some(acc);
        }
        proof {
            if spec_parse_indices(s@, e + 1) is Some {
                let rest = spec_parse_indices(s@, e + 1).unwrap();
                assert(spec_parse_indices(s@, i as int) == Some(seq![v as int] + rest));
                assert(usize_views(acc0) + (seq![v as int] + rest) =~= usize_views(acc@) + rest);
            }
        }
        i = e + 1;
    }
}

/// Between the start and the end of a digit run stand only digits.
proof fn lemma_digits_run(s: Seq<char>, a: int, b: int)
    requires
        0 <= a <= s.len(),
        b == digits_end(s, a),
    ensures
        forall|k: int| a <= k < b ==> is_digit(#[trigger] s[k]),
    decreases s.len() - a,
{
    lemma_scan_bounds(s, a);
    if a < s.len() && is_digit(s[a]) {
        lemma_digits_run(s, a + 1, b);
    }
}

/// Reads the picked indices from a picker's output, which must parse.
pub fn parse_selected_index(input: String) -> (r: Vec<usize>)
    requires
        spec_parse_indices(input@, 0) is Some,
    ensures
        Some(usize_views(r@)) == spec_parse_indices(input@, 0),
{
    match try_parse_selected_index(input.as_str()) {
        Some(v) => v,
        None => {
            proof {
                assert(false);
            }
            Vec::new()
        },
    }
}

/// The items at the picked indices, in pick order; an index outside
/// the item list contributes nothing.
pub open spec fn spec_select(items: Seq<PackageItemDisplay>, idxs: Seq<usize>) -> Seq<
    PackageItemDisplay,
>
    decreases idxs.len(),
{
    if idxs.len() == 0 {
        Seq::empty()
    } else {
        (if (idxs[0] as int) < items.len() {
            seq![items[idxs[0] as int]]
        } else {
            Seq::empty()
        }) + spec_select(items, idxs.drop_first())
    }
}

/// The selection grows one index at a time.
proof fn lemma_select_snoc(items: Seq<PackageItemDisplay>, idxs: Seq<usize>, x: usize)
    ensures
        spec_select(items, idxs.push(x)) == spec_select(items, idxs) + (if (x as int)
            < items.len() {
            seq![items[x as int]]
        } else {
            Seq::<PackageItemDisplay>::empty()
        }),
    decreases idxs.len(),
{
    let tail = if (x as int) < items.len() {
        seq![items[x as int]]
    } else {
        Seq::<PackageItemDisplay>::empty()
    };
    if idxs.len() == 0 {
        assert(idxs.push(x)[0] == x);
        assert(idxs.push(x).drop_first() =~= Seq::<usize>::empty());
        assert(spec_select(items, Seq::<usize>::empty()) == Seq::<PackageItemDisplay>::empty());
        assert(spec_select(items, idxs.push(x)) == tail + Seq::<PackageItemDisplay>::empty());
        assert(tail + Seq::<PackageItemDisplay>::empty() =~= tail);
        assert(spec_select(items, idxs) + tail =~= tail);
    } else {
        assert(idxs.push(x)[0] == idxs[0]);
        assert(idxs.push(x).drop_first() =~= idxs.drop_first().push(x));
        lemma_select_snoc(items, idxs.drop_first(), x);
        let h = if (idxs[0] as int) < items.len() {
            seq![items[idxs[0] as int]]
        } else {
            Seq::<PackageItemDisplay>::empty()
        };
        assert(h + (spec_select(items, idxs.drop_first()) + tail) =~= (h + spec_select(
            items,
            idxs.drop_first(),
        )) + tail);
    }
}

/// The items at the picked indices, in pick order; indices outside the
/// item list are ignored.
pub fn select_by_indices(items: &Vec<PackageItemDisplay>, indices: &Vec<usize>) -> (r: Vec<
    PackageItemDisplay,
>)
    ensures
        r@ == spec_select(items@, indices@),
{
    let mut r: Vec<PackageItemDisplay> = Vec::new();
    let mut k: usize = 0;
    proof {
        assert(indices@.take(0) =~= Seq::<usize>::empty());
        assert(r@ =~= spec_select(items@, indices@.take(0)));
    }
    while k < indices.len()
        invariant
            k <= indices@.len(),
            r@ == spec_select(items@, indices@.take(k as int)),
        decreases indices.len() - k,
    {
        let idx = indices[k];
        let ghost r0 = r@;
        if idx < items.len() {
            r.push(items[idx].clone());
            proof {
                assert(r@ =~= r0 + seq![items@[idx as int]]);
            }
        } else {
            proof {
                assert(r@ =~= r0 + Seq::<PackageItemDisplay>::empty());
            }
        }
        proof {
            lemma_select_snoc(items@, indices@.take(k as int), indices@[k as int]);
            assert(indices@.take(k as int).push(indices@[k as int]) =~= indices@.take(k + 1));
        }
        k = k + 1;
    }
    proof {
        assert(indices@.take(k as int) =~= indices@);
    }
    r
}

} // verus!

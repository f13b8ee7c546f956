//! Character classes and scanning primitives shared by the parsers:
//! maximal runs of a class, line bounds, literal matching, and the
//! numeric value of a digit run.

use vstd::prelude::*;
use vstd::string::*;

verus! {

/// A decimal digit.
pub open spec fn is_digit_c(c: char) -> bool {
    '0' <= c && c <= '9'
}

/// A character of a dependency name: ASCII letter, digit, underscore
/// or dash.
pub open spec fn is_name_c(c: char) -> bool {
    ('a' <= c && c <= 'z') || ('A' <= c && c <= 'Z') || is_digit_c(c) || c == '_' || c == '-'
}

/// A character of a dotted version: digit or dot.
pub open spec fn is_ver_c(c: char) -> bool {
    is_digit_c(c) || c == '.'
}

/// A character allowed in a distribution package identifier: a name
/// character, colon or dot.
pub open spec fn is_pkg_c(c: char) -> bool {
    is_name_c(c) || c == ':' || c == '.'
}

/// End of the maximal digit run starting at `i`.
pub open spec fn digit_end(s: Seq<char>, i: int) -> int
    decreases s.len() - i,
{
    if 0 <= i && i < s.len() && is_digit_c(s[i]) {
        digit_end(s, i + 1)
    } else {
        i
    }
}

/// End of the maximal name-character run starting at `i`.
pub open spec fn name_end(s: Seq<char>, i: int) -> int
    decreases s.len() - i,
{
    if 0 <= i && i < s.len() && is_name_c(s[i]) {
        name_end(s, i + 1)
    } else {
        i
    }
}

/// End of the maximal version-character run starting at `i`.
pub open spec fn ver_end(s: Seq<char>, i: int) -> int
    decreases s.len() - i,
{
    if 0 <= i && i < s.len() && is_ver_c(s[i]) {
        ver_end(s, i + 1)
    } else {
        i
    }
}

/// Position of the next newline at or after `i`, or the text's end.
pub open spec fn line_end(s: Seq<char>, i: int) -> int
    decreases s.len() - i,
{
    if 0 <= i && i < s.len() && s[i] != '\n' {
        line_end(s, i + 1)
    } else {
        i
    }
}

/// The run bounds: between `i` and the run's end every character is in
/// the class, and the run is maximal.
pub proof fn lemma_digit_end(s: Seq<char>, i: int)
    requires
        0 <= i <= s.len(),
    ensures
        i <= digit_end(s, i) <= s.len(),
        forall|k: int| i <= k < digit_end(s, i) ==> is_digit_c(s[k]),
        digit_end(s, i) < s.len() ==> !is_digit_c(s[digit_end(s, i)]),
    decreases s.len() - i,
{
    if i < s.len() && is_digit_c(s[i]) {
        lemma_digit_end(s, i + 1);
    }
}

/// The run bounds for `name_end`; see `lemma_digit_end`.
pub proof fn lemma_name_end(s: Seq<char>, i: int)
    requires
        0 <= i <= s.len(),
    ensures
        i <= name_end(s, i) <= s.len(),
        forall|k: int| i <= k < name_end(s, i) ==> is_name_c(s[k]),
        name_end(s, i) < s.len() ==> !is_name_c(s[name_end(s, i)]),
    decreases s.len() - i,
{
    if i < s.len() && is_name_c(s[i]) {
        lemma_name_end(s, i + 1);
    }
}

/// The run bounds for `ver_end`; see `lemma_digit_end`.
pub proof fn lemma_ver_end(s: Seq<char>, i: int)
    requires
        0 <= i <= s.len(),
    ensures
        i <= ver_end(s, i) <= s.len(),
        forall|k: int| i <= k < ver_end(s, i) ==> is_ver_c(s[k]),
        ver_end(s, i) < s.len() ==> !is_ver_c(s[ver_end(s, i)]),
    decreases s.len() - i,
{
    if i < s.len() && is_ver_c(s[i]) {
        lemma_ver_end(s, i + 1);
    }
}

/// The run bounds for `line_end`: no newline before it, a newline or the
/// text's end at it.
pub proof fn lemma_line_end(s: Seq<char>, i: int)
    requires
        0 <= i <= s.len(),
    ensures
        i <= line_end(s, i) <= s.len(),
        forall|k: int| i <= k < line_end(s, i) ==> s[k] != '\n',
        line_end(s, i) < s.len() ==> s[line_end(s, i)] == '\n',
    decreases s.len() - i,
{
    if i < s.len() && s[i] != '\n' {
        lemma_line_end(s, i + 1);
    }
}

/// Whether `p` occurs in `s` starting at position `i`.
pub open spec fn matches_at(s: Seq<char>, i: int, p: Seq<char>) -> bool {
    &&& 0 <= i
    &&& i + p.len() <= s.len()
    &&& forall|k: int| 0 <= k < p.len() ==> s[i + k] == p[k]
}

fn is_digit_x(c: char) -> (b: bool)
    ensures
        b == is_digit_c(c),
{
    '0' <= c && c <= '9'
}

fn is_name_x(c: char) -> (b: bool)
    ensures
        b == is_name_c(c),
{
    ('a' <= c && c <= 'z') || ('A' <= c && c <= 'Z') || ('0' <= c && c <= '9') || c == '_'
        || c == '-'
}

fn is_ver_x(c: char) -> (b: bool)
    ensures
        b == is_ver_c(c),
{
    ('0' <= c && c <= '9') || c == '.'
}

fn is_pkg_x(c: char) -> (b: bool)
    ensures
        b == is_pkg_c(c),
{
    is_name_x(c) || c == ':' || c == '.'
}

/// Computes `digit_end(s@, i)`.
pub fn digit_end_x(s: &str, i: usize) -> (r: usize)
    requires
        i <= s@.len(),
    ensures
        r == digit_end(s@, i as int),
        i <= r <= s@.len(),
{
    let len = s.unicode_len();
    let mut j = i;
    while j < len && is_digit_x(s.get_char(j))
        invariant
            i <= j <= len,
            len == s@.len(),
            digit_end(s@, i as int) == digit_end(s@, j as int),
        decreases len - j,
    {
        j += 1;
    }
    j
}

/// Computes `name_end(s@, i)`.
pub fn name_end_x(s: &str, i: usize) -> (r: usize)
    requires
        i <= s@.len(),
    ensures
        r == name_end(s@, i as int),
        i <= r <= s@.len(),
{
    let len = s.unicode_len();
    let mut j = i;
    while j < len && is_name_x(s.get_char(j))
        invariant
            i <= j <= len,
            len == s@.len(),
            name_end(s@, i as int) == name_end(s@, j as int),
        decreases len - j,
    {
        j += 1;
    }
    j
}

/// Computes `ver_end(s@, i)`.
pub fn ver_end_x(s: &str, i: usize) -> (r: usize)
    requires
        i <= s@.len(),
    ensures
        r == ver_end(s@, i as int),
        i <= r <= s@.len(),
{
    let len = s.unicode_len();
    let mut j = i;
    while j < len && is_ver_x(s.get_char(j))
        invariant
            i <= j <= len,
            len == s@.len(),
            ver_end(s@, i as int) == ver_end(s@, j as int),
        decreases len - j,
    {
        j += 1;
    }
    j
}

/// Computes `line_end(s@, i)`.
pub fn line_end_x(s: &str, i: usize) -> (r: usize)
    requires
        i <= s@.len(),
    ensures
        r == line_end(s@, i as int),
        i <= r <= s@.len(),
{
    let len = s.unicode_len();
    let mut j = i;
    while j < len && s.get_char(j) != '\n'
        invariant
            i <= j <= len,
            len == s@.len(),
            line_end(s@, i as int) == line_end(s@, j as int),
        decreases len - j,
    {
        j += 1;
    }
    j
}

/// Whether every character of `s` in `[from, to)` is a package
/// identifier character.
pub fn all_pkg_x(s: &str, from: usize, to: usize) -> (b: bool)
    requires
        from <= to <= s@.len(),
    ensures
        b == forall|k: int| from <= k < to ==> is_pkg_c(s@[k]),
{
    let mut j = from;
    while j < to
        invariant
            from <= j <= to <= s@.len(),
            forall|k: int| from <= k < j ==> is_pkg_c(s@[k]),
        decreases to - j,
    {
        if !is_pkg_x(s.get_char(j)) {
            return false;
        }
        j += 1;
    }
    true
}

/// Computes `matches_at(s@, i, p@)`.
pub fn matches_at_x(s: &str, i: usize, p: &str) -> (b: bool)
    requires
        i <= s@.len(),
    ensures
        b == matches_at(s@, i as int, p@),
{
    let slen = s.unicode_len();
    let plen = p.unicode_len();
    if plen > slen - i {
        return false;
    }
    let mut k: usize = 0;
    while k < plen
        invariant
            0 <= k <= plen,
            plen == p@.len(),
            slen == s@.len(),
            i + plen <= slen,
            forall|t: int| 0 <= t < k ==> s@[i + t] == p@[t],
        decreases plen - k,
    {
        if s.get_char(i + k) != p.get_char(k) {
            return false;
        }
        k += 1;
    }
    true
}

/// The number denoted by a run of decimal digits, most significant first.
pub open spec fn digits_val(ds: Seq<char>) -> nat
    decreases ds.len(),
{
    if ds.len() == 0 {
        0
    } else {
        digits_val(ds.drop_last()) * 10 + digit_val(ds.last())
    }
}

/// The value of one digit character.
pub open spec fn digit_val(c: char) -> nat {
    if '0' <= c && c <= '9' {
        (c as u32 - '0' as u32) as nat
    } else {
        0
    }
}

/// A longer digit run never denotes a smaller number.
pub proof fn lemma_digits_val_mono(ds: Seq<char>, k: int)
    requires
        0 <= k <= ds.len(),
    ensures
        digits_val(ds) >= digits_val(ds.take(k)),
    decreases ds.len() - k,
{
    if k < ds.len() {
        lemma_digits_val_mono(ds, k + 1);
        assert(ds.take(k + 1).drop_last() =~= ds.take(k));
        assert(digits_val(ds.take(k + 1)) >= digits_val(ds.take(k)));
    } else {
        assert(ds.take(k) =~= ds);
    }
}

/// Parses a digit run into a machine word; `None` exactly when the
/// denoted number does not fit.
pub fn parse_depth(ds: &str) -> (r: Option<u64>)
    requires
        forall|k: int| 0 <= k < ds@.len() ==> is_digit_c(ds@[k]),
    ensures
        match r {
            Some(v) => v == digits_val(ds@) && digits_val(ds@) <= u64::MAX,
            None => digits_val(ds@) > u64::MAX,
        },
{
    let len = ds.unicode_len();
    let mut v: u64 = 0;
    let mut k: usize = 0;
    while k < len
        invariant
            0 <= k <= len,
            len == ds@.len(),
            forall|t: int| 0 <= t < len ==> is_digit_c(ds@[t]),
            v == digits_val(ds@.take(k as int)),
        decreases len - k,
    {
        let c = ds.get_char(k);
        assert(is_digit_c(ds@[k as int]));
        let d: u64 = (c as u32 - '0' as u32) as u64;
        assert(d == digit_val(c) && d <= 9);
        if v > (u64::MAX - d) / 10 {
            proof {
                assert(ds@.take(k as int + 1).drop_last() =~= ds@.take(k as int));
                assert(digits_val(ds@.take(k as int + 1)) == v * 10 + d);
                assert(v * 10 + d > u64::MAX) by (nonlinear_arith)
                    requires
                        v > (u64::MAX - d) / 10,
                        d <= 9,
                ;
                lemma_digits_val_mono(ds@, k as int + 1);
            }
            return None;
        }
        proof {
            assert(v * 10 + d <= u64::MAX) by (nonlinear_arith)
                requires
                    v <= (u64::MAX - d) / 10,
                    d <= 9,
            ;
            assert(ds@.take(k as int + 1).drop_last() =~= ds@.take(k as int));
        }
        v = v * 10 + d;
        k += 1;
    }
    proof {
        assert(ds@.take(len as int) =~= ds@);
    }
    Some(v)
}

} // verus!

//! The dependency lister's logic: parsing the graph inspector's
//! depth-annotated output, suppressing duplicate markers and repeated
//! names, dropping dependencies the distribution already provides, and
//! ordering the survivors by descending depth.

use vstd::prelude::*;
use vstd::string::*;
use crate::chars::{
    digit_end, digit_end_x, digits_val, is_digit_c, lemma_digit_end, lemma_line_end,
    lemma_name_end, lemma_ver_end, line_end, line_end_x, name_end, name_end_x, parse_depth,
    ver_end, ver_end_x,
};
use crate::PipelineError;

verus! {

/// One dependency of the project's tree.
#[derive(Debug, PartialEq, Eq)]
pub struct Dependency {
    /// Distance from the root project; 0 is the root itself.
    pub depth: u64,
    pub name: String,
    pub version: String,
}

/// Mathematical model of a dependency.
#[verifier::ext_equal]
pub ghost struct DepModel {
    pub depth: int,
    pub name: Seq<char>,
    pub version: Seq<char>,
}

impl View for Dependency {
    type V = DepModel;

    open spec fn view(&self) -> DepModel {
        DepModel { depth: self.depth as int, name: self.name@, version: self.version@ }
    }
}

/// The models of a sequence of dependencies.
pub open spec fn deps_model(v: Seq<Dependency>) -> Seq<DepModel> {
    v.map_values(|d: Dependency| d@)
}

/// The models of a sequence of raw matches.
pub open spec fn matches_model(v: Seq<DepMatch>) -> Seq<DepMatchModel> {
    v.map_values(|m: DepMatch| m@)
}

/// The candidates a sequence of raw matches denotes.
pub open spec fn cands_of(ms: Seq<DepMatchModel>) -> Seq<DepModel> {
    ms.map_values(|m: DepMatchModel| cand_of(m))
}

/// One raw match of a dependency line: `<depth><name> v<version>`,
/// optionally followed by a parenthesized annotation.
pub struct DepMatch {
    pub depth_digits: String,
    pub name: String,
    pub version: String,
    pub annot: Option<String>,
    /// Position in the scanned text just after this match.
    pub end: usize,
}

/// Mathematical model of a raw match.
#[verifier::ext_equal]
pub ghost struct DepMatchModel {
    pub depth_digits: Seq<char>,
    pub name: Seq<char>,
    pub version: Seq<char>,
    pub annot: Option<Seq<char>>,
    pub end: int,
}

impl View for DepMatch {
    type V = DepMatchModel;

    open spec fn view(&self) -> DepMatchModel {
        DepMatchModel {
            depth_digits: self.depth_digits@,
            name: self.name@,
            version: self.version@,
            annot: match self.annot {
                Some(a) => Some(a@),
                None => None,
            },
            end: self.end as int,
        }
    }
}

/// Index of the last `)` in `[lo, hi)`, or -1 if there is none.
pub open spec fn last_rparen(s: Seq<char>, lo: int, hi: int) -> int
    decreases hi - lo,
{
    if hi <= lo {
        -1
    } else if 0 <= hi - 1 < s.len() && s[hi - 1] == ')' {
        hi - 1
    } else {
        last_rparen(s, lo, hi - 1)
    }
}

/// Bounds of `last_rparen`, and that the found position holds a `)`.
pub proof fn lemma_last_rparen(s: Seq<char>, lo: int, hi: int)
    ensures
        last_rparen(s, lo, hi) == -1 || (lo <= last_rparen(s, lo, hi) && last_rparen(s, lo, hi)
            < hi && 0 <= last_rparen(s, lo, hi) < s.len() && s[last_rparen(s, lo, hi)] == ')'),
    decreases hi - lo,
{
    if hi > lo && !(0 <= hi - 1 < s.len() && s[hi - 1] == ')') {
        lemma_last_rparen(s, lo, hi - 1);
    }
}

/// The dependency-line pattern, matched at position `i`: a run of name
/// characters that starts with a digit, split into a depth prefix and a
/// nonempty name, then ` v` and a nonempty dotted version, optionally
/// followed on the same line by ` (…)` whose content runs to the last
/// `)` of the line. When the whole run is digits, its last digit serves
/// as the name.
pub open spec fn dep_match_at(s: Seq<char>, i: int) -> Option<DepMatchModel> {
    let de = digit_end(s, i);
    let ne = name_end(s, i);
    if !(0 <= i < s.len() && is_digit_c(s[i])) {
        None
    } else if de == ne && de - i < 2 {
        None
    } else {
        let split = if de == ne {
            de - 1
        } else {
            de
        };
        if !(ne + 2 <= s.len() && s[ne] == ' ' && s[ne + 1] == 'v') {
            None
        } else {
            let ve = ver_end(s, ne + 2);
            if ve == ne + 2 {
                None
            } else {
                let le = line_end(s, ve);
                let rp = last_rparen(s, ve + 3, le);
                if ve + 1 < le && s[ve] == ' ' && s[ve + 1] == '(' && rp >= 0 {
                    Some(
                        DepMatchModel {
                            depth_digits: s.subrange(i, split),
                            name: s.subrange(split, ne),
                            version: s.subrange(ne + 2, ve),
                            annot: Some(s.subrange(ve + 2, rp)),
                            end: rp + 1,
                        },
                    )
                } else {
                    Some(
                        DepMatchModel {
                            depth_digits: s.subrange(i, split),
                            name: s.subrange(split, ne),
                            version: s.subrange(ne + 2, ve),
                            annot: None,
                            end: ve,
                        },
                    )
                }
            }
        }
    }
}

/// A raw match's fields have the right shapes: nonempty digits for the
/// depth, a nonempty name and version.
pub open spec fn match_wf(m: DepMatchModel) -> bool {
    &&& m.depth_digits.len() >= 1
    &&& forall|k: int| 0 <= k < m.depth_digits.len() ==> is_digit_c(m.depth_digits[k])
    &&& m.name.len() >= 1
    &&& m.version.len() >= 1
}

/// A successful match is well formed and ends past `i`.
pub proof fn lemma_dep_match_wf(s: Seq<char>, i: int)
    requires
        0 <= i < s.len(),
    ensures
        match dep_match_at(s, i) {
            Some(m) => match_wf(m) && i < m.end <= s.len(),
            None => true,
        },
{
    lemma_digit_end(s, i);
    lemma_name_end(s, i);
    let de = digit_end(s, i);
    let ne = name_end(s, i);
    if dep_match_at(s, i) is Some {
        if ne < de {
            assert(is_digit_c(s[ne]));
            assert(false);
        }
        if de == i {
            assert(!is_digit_c(s[i]));
            assert(false);
        }
        let ve = ver_end(s, ne + 2);
        lemma_ver_end(s, ne + 2);
        let le = line_end(s, ve);
        lemma_line_end(s, ve);
        lemma_last_rparen(s, ve + 3, le);
    }
}

/// Every match the scan yields is well formed.
pub proof fn lemma_dep_matches_wf(s: Seq<char>, i: int)
    ensures
        forall|j: int|
            0 <= j < dep_matches_from(s, i).len() ==> match_wf(#[trigger] dep_matches_from(s, i)[j]),
    decreases s.len() - i,
{
    if 0 <= i < s.len() {
        match dep_match_at(s, i) {
            Some(m) => {
                lemma_dep_match_wf(s, i);
                let next = if m.end <= i {
                    i + 1
                } else if m.end >= s.len() {
                    s.len() as int
                } else {
                    m.end
                };
                lemma_dep_matches_wf(s, next);
                assert forall|j: int|
                    0 <= j < dep_matches_from(s, i).len() implies match_wf(
                    #[trigger] dep_matches_from(s, i)[j]) by {
                    if j == 0 {
                        assert(dep_matches_from(s, i)[0] == m);
                    } else {
                        assert(dep_matches_from(s, i)[j] == dep_matches_from(s, next)[j - 1]);
                    }
                }
            },
            None => {
                lemma_dep_matches_wf(s, i + 1);
                assert(dep_matches_from(s, i) == dep_matches_from(s, i + 1));
                assert forall|j: int|
                    0 <= j < dep_matches_from(s, i).len() implies match_wf(
                    #[trigger] dep_matches_from(s, i)[j]) by {
                    assert(dep_matches_from(s, i)[j] == dep_matches_from(s, i + 1)[j]);
                }
            },
        }
    } else {
        assert(dep_matches_from(s, i) =~= Seq::<DepMatchModel>::empty());
    }
}

/// All matches of the dependency-line pattern, scanning left to right
/// and resuming after each match.
pub open spec fn dep_matches_from(s: Seq<char>, i: int) -> Seq<DepMatchModel>
    decreases s.len() - i,
{
    if i < 0 || i >= s.len() {
        Seq::empty()
    } else {
        match dep_match_at(s, i) {
            Some(m) => {
                let next = if m.end <= i {
                    i + 1
                } else if m.end >= s.len() {
                    s.len() as int
                } else {
                    m.end
                };
                seq![m] + dep_matches_from(s, next)
            },
            None => dep_matches_from(s, i + 1),
        }
    }
}

/// Index of the last `)` in `[lo, hi)` of `s`, if any.
pub fn last_rparen_x(s: &str, lo: usize, hi: usize) -> (r: Option<usize>)
    requires
        hi <= s@.len(),
    ensures
        match r {
            Some(k) => last_rparen(s@, lo as int, hi as int) == k as int,
            None => last_rparen(s@, lo as int, hi as int) == -1,
        },
{
    let mut h = hi;
    while h > lo
        invariant
            h <= hi <= s@.len(),
            last_rparen(s@, lo as int, hi as int) == last_rparen(s@, lo as int, h as int),
        decreases h,
    {
        if s.get_char(h - 1) == ')' {
            return Some(h - 1);
        }
        h -= 1;
    }
    None
}

/// Matches the dependency-line pattern at position `i`.
pub fn try_dep_match(s: &str, i: usize) -> (r: Option<DepMatch>)
    requires
        i < s@.len(),
    ensures
        match r {
            Some(m) => dep_match_at(s@, i as int) == Some(m@),
            None => dep_match_at(s@, i as int) is None,
        },
{
    proof {
        lemma_digit_end(s@, i as int);
        lemma_name_end(s@, i as int);
    }
    let len = s.unicode_len();
    let c0 = s.get_char(i);
    if !('0' <= c0 && c0 <= '9') {
        return None;
    }
    let de = digit_end_x(s, i);
    let ne = name_end_x(s, i);
    proof {
        if ne < de {
            assert(is_digit_c(s@[ne as int]));
            assert(false);
        }
        if de == i {
            assert(!is_digit_c(s@[i as int]));
            assert(false);
        }
    }
    if de == ne && de - i < 2 {
        return None;
    }
    let split = if de == ne {
        de - 1
    } else {
        de
    };
    if len < 2 || ne > len - 2 {
        return None;
    }
    if !(s.get_char(ne) == ' ' && s.get_char(ne + 1) == 'v') {
        return None;
    }
    let ve = ver_end_x(s, ne + 2);
    proof {
        lemma_ver_end(s@, ne as int + 2);
    }
    if ve == ne + 2 {
        return None;
    }
    let depth_digits = String::from_str(s.substring_char(i, split));
    let name = String::from_str(s.substring_char(split, ne));
    let version = String::from_str(s.substring_char(ne + 2, ve));
    let le = line_end_x(s, ve);
    proof {
        lemma_line_end(s@, ve as int);
    }
    let mut annot: Option<String> = None;
    let mut endpos: usize = ve;
    if le >= 2 && ve < le - 1 && s.get_char(ve) == ' ' && s.get_char(ve + 1) == '(' {
        if le >= 3 && ve <= le - 3 {
            if let Some(rp) = last_rparen_x(s, ve + 3, le) {
                proof {
                    lemma_last_rparen(s@, ve as int + 3, le as int);
                }
                annot = Some(String::from_str(s.substring_char(ve + 2, rp)));
                endpos = rp + 1;
            }
        }
    }
    let m = DepMatch { depth_digits, name, version, annot, end: endpos };
    proof {
        let sm = dep_match_at(s@, i as int);
        assert(match sm {
            Some(x) => m@ =~~= x,
            None => false,
        });
    }
    Some(m)
}

/// All matches of the dependency-line pattern in `s`.
pub fn scan_dep_matches(s: &str) -> (r: Vec<DepMatch>)
    ensures
        matches_model(r@) == dep_matches_from(s@, 0),
{
    let len = s.unicode_len();
    let mut out: Vec<DepMatch> = Vec::new();
    let mut p: usize = 0;
    while p < len
        invariant
            p <= len,
            len == s@.len(),
            dep_matches_from(s@, 0) == matches_model(out@) + dep_matches_from(s@, p as int),
        decreases len - p,
    {
        let ghost prefix = matches_model(out@);
        match try_dep_match(s, p) {
            Some(mm) => {
                let next = if mm.end <= p {
                    p + 1
                } else if mm.end >= len {
                    len
                } else {
                    mm.end
                };
                proof {
                    assert(dep_matches_from(s@, p as int) == seq![mm@] + dep_matches_from(
                        s@,
                        next as int,
                    ));
                }
                out.push(mm);
                proof {
                    assert(matches_model(out@) =~= prefix.push(mm@));
                    assert(prefix.push(mm@) + dep_matches_from(s@, next as int) =~= prefix + (
                    seq![mm@] + dep_matches_from(s@, next as int)));
                }
                p = next;
            },
            None => {
                p += 1;
            },
        }
    }
    proof {
        assert(dep_matches_from(s@, p as int) =~= Seq::<DepMatchModel>::empty());
        assert(matches_model(out@) + Seq::<DepMatchModel>::empty() =~= matches_model(out@));
    }
    out
}

/// A match is kept unless its annotation is the duplicate marker `*`.
pub open spec fn keep_match(m: DepMatchModel) -> bool {
    m.annot != Some("*"@)
}

/// The matches that survive duplicate-marker suppression, in order.
pub open spec fn suppressed(ms: Seq<DepMatchModel>) -> Seq<DepMatchModel>
    decreases ms.len(),
{
    if ms.len() == 0 {
        Seq::empty()
    } else {
        let rest = suppressed(ms.drop_last());
        if keep_match(ms.last()) {
            rest.push(ms.last())
        } else {
            rest
        }
    }
}

/// A kept match appears among the suppressed matches.
pub proof fn lemma_suppressed_contains(ms: Seq<DepMatchModel>, i: int)
    requires
        0 <= i < ms.len(),
        keep_match(ms[i]),
    ensures
        exists|j: int| 0 <= j < suppressed(ms).len() && suppressed(ms)[j] == ms[i],
    decreases ms.len(),
{
    if i == ms.len() - 1 {
        assert(suppressed(ms)[suppressed(ms).len() - 1] == ms[i]);
    } else {
        lemma_suppressed_contains(ms.drop_last(), i);
        let j = choose|j: int|
            0 <= j < suppressed(ms.drop_last()).len() && suppressed(ms.drop_last())[j]
                == ms.drop_last()[i];
        assert(suppressed(ms)[j] == ms[i]);
    }
}

/// The candidate a raw match denotes: its depth digits read as a number.
pub open spec fn cand_of(m: DepMatchModel) -> DepModel {
    DepModel { depth: digits_val(m.depth_digits) as int, name: m.name, version: m.version }
}

/// The candidate dependencies of the graph inspector's output: every
/// pattern match, minus those annotated with the duplicate marker, each
/// with its depth read as a number.
pub open spec fn spec_candidates(text: Seq<char>) -> Seq<DepModel> {
    cands_of(suppressed(dep_matches_from(text, 0)))
}

/// Whether the annotation string is exactly the duplicate marker.
fn is_dup_marker(a: &String) -> (b: bool)
    ensures
        b == (a@ == "*"@),
{
    proof {
        reveal_strlit("*");
    }
    let r = a.as_str().unicode_len() == 1 && a.as_str().get_char(0) == '*';
    proof {
        if r {
            assert(a@ =~= "*"@);
        }
    }
    r
}

/// Parses the graph inspector's output into the candidate list.
///
/// Fails with `NoDependencies` exactly when the output contains no
/// dependency line at all, and with `DepthTooLarge` exactly when some
/// kept line's depth does not fit a `u64`.
#[verifier::loop_isolation(false)]
pub fn parse_dep_tree(text: &str) -> (r: Result<Vec<Dependency>, PipelineError>)
    ensures
        match r {
            Ok(v) => {
                &&& dep_matches_from(text@, 0).len() > 0
                &&& deps_model(v@) == spec_candidates(text@)
                &&& forall|k: int|
                    0 <= k < spec_candidates(text@).len() ==> (
                    #[trigger] spec_candidates(text@)[k]).depth <= u64::MAX
            },
            Err(PipelineError::NoDependencies) => dep_matches_from(text@, 0).len() == 0,
            Err(PipelineError::DepthTooLarge) => {
                &&& dep_matches_from(text@, 0).len() > 0
                &&& exists|k: int|
                    0 <= k < spec_candidates(text@).len() && (#[trigger] spec_candidates(
                        text@,
                    )[k]).depth > u64::MAX
            },
            Err(PipelineError::NoSpecsGenerated) => false,
        },
{
    let ms = scan_dep_matches(text);
    let ghost all = matches_model(ms@);
    if ms.len() == 0 {
        proof {
            assert(all.len() == 0);
        }
        return Err(PipelineError::NoDependencies);
    }
    let n = ms.len();
    proof {
        assert(all.skip(0) =~= all);
        assert(all.take(0) =~= Seq::<DepMatchModel>::empty());
        assert(deps_model(Seq::<Dependency>::empty()) =~= cands_of(suppressed(all.take(0))));
    }
    let mut rest = ms;
    let mut out: Vec<Dependency> = Vec::new();
    let mut i: usize = 0;
    while i < n
        invariant
            0 <= i <= n,
            n == all.len(),
            matches_model(rest@) == all.skip(i as int),
            deps_model(out@) == cands_of(suppressed(all.take(i as int))),
            forall|j: int|
                0 <= j < suppressed(all.take(i as int)).len() ==> digits_val(
                    (#[trigger] suppressed(all.take(i as int))[j]).depth_digits,
                ) <= u64::MAX,
            rest.len() == n - i,
        decreases n - i,
    {
        let ghost rest0 = rest@;
        let m = rest.remove(0);
        proof {
            assert(matches_model(rest0)[0] == rest0[0]@);
            assert(all.skip(i as int)[0] == all[i as int]);
            assert(m@ == all[i as int]);
            assert forall|k: int| 0 <= k < rest@.len() implies matches_model(rest@)[k] == all.skip(
                i as int + 1,
            )[k] by {
                assert(rest@[k] == rest0[k + 1]);
                assert(matches_model(rest@)[k] == rest@[k]@);
                assert(matches_model(rest0)[k + 1] == rest0[k + 1]@);
                assert(all.skip(i as int)[k + 1] == all[(i as int) + 1 + k]);
                assert(all.skip(i as int + 1)[k] == all[(i as int) + 1 + k]);
            }
            assert(matches_model(rest@) =~= all.skip(i as int + 1));
            assert(all.take(i as int + 1).drop_last() =~= all.take(i as int));
            assert(all.take(i as int + 1).last() == all[i as int]);
            lemma_dep_matches_wf(text@, 0);
            assert(match_wf(all[i as int]));
        }
        let keep = match &m.annot {
            Some(a) => !is_dup_marker(a),
            None => true,
        };
        proof {
            assert(keep == keep_match(m@));
        }
        if keep {
            let ghost out0 = out@;
            match parse_depth(m.depth_digits.as_str()) {
                Some(d) => {
                    let dep = Dependency { depth: d, name: m.name, version: m.version };
                    let ghost dm = dep@;
                    out.push(dep);
                    proof {
                        let sup = suppressed(all.take(i as int + 1));
                        assert(sup == suppressed(all.take(i as int)).push(all[i as int]));
                        assert(dm == cand_of(all[i as int]));
                        assert forall|k: int| 0 <= k < out@.len() implies deps_model(out@)[k]
                            == cands_of(sup)[k] by {
                            assert(deps_model(out@)[k] == out@[k]@);
                            assert(cands_of(sup)[k] == cand_of(sup[k]));
                            if k < out0.len() {
                                assert(out@[k] == out0[k]);
                                assert(deps_model(out0)[k] == out0[k]@);
                                assert(cands_of(suppressed(all.take(i as int)))[k] == cand_of(
                                    suppressed(all.take(i as int))[k],
                                ));
                            }
                        }
                        assert(deps_model(out@) =~= cands_of(sup));
                        assert forall|j: int| 0 <= j < sup.len() implies digits_val(
                            (#[trigger] sup[j]).depth_digits,
                        ) <= u64::MAX by {
                            if j < sup.len() - 1 {
                                assert(sup[j] == suppressed(all.take(i as int))[j]);
                            }
                        }
                    }
                },
                None => {
                    proof {
                        lemma_suppressed_contains(all, i as int);
                        let j = choose|j: int|
                            0 <= j < suppressed(all).len() && suppressed(all)[j] == all[i as int];
                        assert(suppressed(all).len() == spec_candidates(text@).len());
                        assert(spec_candidates(text@)[j] == cand_of(suppressed(all)[j]));
                        assert(spec_candidates(text@)[j].depth > u64::MAX);
                    }
                    return Err(PipelineError::DepthTooLarge);
                },
            }
        } else {
            proof {
                assert(suppressed(all.take(i as int + 1)) =~= suppressed(all.take(i as int)));
            }
        }
        i += 1;
    }
    proof {
        assert(all.take(n as int) =~= all);
        assert(suppressed(all.take(n as int)) == suppressed(all));
        assert forall|k: int| 0 <= k < spec_candidates(text@).len() implies (
        #[trigger] spec_candidates(text@)[k]).depth <= u64::MAX by {
            assert(suppressed(all.take(n as int))[k] == suppressed(all)[k]);
            assert(spec_candidates(text@)[k] == cand_of(suppressed(all)[k]));
        }
    }
    Ok(out)
}

/// Whether some dependency in `s` bears the name `n`.
pub open spec fn has_name(s: Seq<DepModel>, n: Seq<char>) -> bool {
    exists|i: int| 0 <= i < s.len() && s[i].name == n
}

/// No two dependencies share a name.
pub open spec fn unique_names(s: Seq<DepModel>) -> bool {
    forall|i: int, j: int| 0 <= i < j < s.len() ==> (#[trigger] s[i]).name != (#[trigger] s[j]).name
}

/// The dependencies kept by the lister: walking the candidates in
/// order, a candidate is dropped when a dependency of the same name was
/// already kept, or when the distribution probe found it packaged.
pub open spec fn select_rec(cands: Seq<DepModel>, ex: Seq<bool>, i: int, acc: Seq<DepModel>) -> Seq<
    DepModel,
>
    decreases cands.len() - i,
{
    if i < 0 || i >= cands.len() {
        acc
    } else {
        let acc2 = if !has_name(acc, cands[i].name) && !(i < ex.len() && ex[i]) {
            acc.push(cands[i])
        } else {
            acc
        };
        select_rec(cands, ex, i + 1, acc2)
    }
}

/// The selected dependencies, before ordering.
pub open spec fn spec_selected(cands: Seq<DepModel>, ex: Seq<bool>) -> Seq<DepModel> {
    select_rec(cands, ex, 0, Seq::empty())
}

/// Whether `v` contains a dependency named `n`.
pub fn contains_name(v: &Vec<Dependency>, n: &String) -> (b: bool)
    ensures
        b == has_name(deps_model(v@), n@),
{
    let mut i: usize = 0;
    while i < v.len()
        invariant
            0 <= i <= v.len(),
            forall|k: int| 0 <= k < i ==> deps_model(v@)[k].name != n@,
        decreases v.len() - i,
    {
        if v[i].name == *n {
            proof {
                assert(deps_model(v@)[i as int].name == n@);
            }
            return true;
        }
        i += 1;
    }
    false
}

} // verus!

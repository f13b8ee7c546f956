//! The spec generator driver's decision logic: pulling the generated
//! specification filename out of the generator's combined output, and
//! recording the dependency's build descriptor.

use vstd::prelude::*;
use vstd::string::*;
use crate::chars::{lemma_line_end, line_end, line_end_x, matches_at, matches_at_x};
use crate::config::{entry_model, upsert, AndaConfig};
use crate::deps::Dependency;
use crate::PipelineError;

verus! {

/// Index of the last occurrence of `q` starting in `[lo, hi]`, or -1.
pub open spec fn last_at(s: Seq<char>, q: Seq<char>, lo: int, hi: int) -> int
    decreases hi - lo,
{
    if hi < lo {
        -1
    } else if matches_at(s, hi, q) {
        hi
    } else if hi == lo {
        -1
    } else {
        last_at(s, q, lo, hi - 1)
    }
}

/// The generator's announcement, matched at position `i`: the literal
/// `Generated: `, then a filename that runs to the last `.spec` on the
/// same line, with at least one character before it. The capture is the
/// filename including its `.spec` suffix.
pub open spec fn gen_match_at(s: Seq<char>, i: int) -> Option<Seq<char>> {
    let p = "Generated: "@;
    let q = ".spec"@;
    if !matches_at(s, i, p) {
        None
    } else {
        let j = i + p.len();
        let le = line_end(s, j);
        let k = last_at(s, q, j + 1, le - q.len());
        if k >= 0 {
            Some(s.subrange(j, k + q.len()))
        } else {
            None
        }
    }
}

/// The first position where the announcement matches, scanning left to
/// right, and its capture.
pub open spec fn gen_spec_from(s: Seq<char>, i: int) -> Option<Seq<char>>
    decreases s.len() - i,
{
    if i < 0 || i >= s.len() {
        None
    } else {
        match gen_match_at(s, i) {
            Some(c) => Some(c),
            None => gen_spec_from(s, i + 1),
        }
    }
}

/// The specification filename announced in the generator's output, if
/// any.
pub open spec fn spec_generated(text: Seq<char>) -> Option<Seq<char>> {
    gen_spec_from(text, 0)
}

/// Index of the last occurrence of `q` starting in `[lo, hi]` of `s`.
fn last_at_x(s: &str, q: &str, lo: usize, hi: usize) -> (r: Option<usize>)
    requires
        hi <= s@.len(),
    ensures
        match r {
            Some(k) => last_at(s@, q@, lo as int, hi as int) == k as int && lo <= k <= hi,
            None => last_at(s@, q@, lo as int, hi as int) == -1,
        },
{
    if hi < lo {
        return None;
    }
    let mut h = hi;
    loop
        invariant
            lo <= h <= hi <= s@.len(),
            last_at(s@, q@, lo as int, hi as int) == last_at(s@, q@, lo as int, h as int),
        decreases h,
    {
        if matches_at_x(s, h, q) {
            return Some(h);
        }
        if h == lo {
            return None;
        }
        h -= 1;
    }
}

/// Extracts the generated specification filename from the generator's
/// combined output, if it announced one.
#[verifier::loop_isolation(false)]
pub fn parse_generated(output: &str) -> (r: Option<String>)
    ensures
        match r {
            Some(c) => spec_generated(output@) == Some(c@),
            None => spec_generated(output@) is None,
        },
{
    proof {
        reveal_strlit("Generated: ");
        reveal_strlit(".spec");
    }
    let len = output.unicode_len();
    let mut p: usize = 0;
    while p < len
        invariant
            0 <= p <= len,
            len == output@.len(),
            gen_spec_from(output@, 0) == gen_spec_from(output@, p as int),
        decreases len - p,
    {
        if matches_at_x(output, p, "Generated: ") {
            let j = p + 11;
            let le = line_end_x(output, j);
            proof {
                lemma_line_end(output@, j as int);
            }
            if le - j >= 6 {
                match last_at_x(output, ".spec", j + 1, le - 5) {
                    Some(k) => {
                        let cap = String::from_str(output.substring_char(j, k + 5));
                        proof {
                            assert(gen_match_at(output@, p as int) == Some(cap@));
                        }
                        return Some(cap);
                    },
                    None => {
                        proof {
                            assert(gen_match_at(output@, p as int) is None);
                        }
                    },
                }
            } else {
                proof {
                    assert(last_at(output@, ".spec"@, j as int + 1, le as int - 5) == -1);
                    assert(gen_match_at(output@, p as int) is None);
                }
            }
        }
        p += 1;
    }
    None
}

/// Handles one generator run for `dep`: reads the announced
/// specification filename out of `output` and records the dependency's
/// descriptor — spec path `<name>/<specfile>`, package `rust-<name>`,
/// no build dependencies. When the generator announced nothing, the
/// configuration is left untouched and the run fails.
pub fn gen_spec(conf: &mut AndaConfig, dep: &Dependency, output: String) -> (r: Result<
    (),
    PipelineError,
>)
    ensures
        match r {
            Ok(()) => {
                &&& match spec_generated(output@) {
                    Some(c) => final(conf)@ == upsert(
                        old(conf)@,
                        dep.name@,
                        entry_model(dep.name@, c, Seq::empty()),
                    ),
                    None => false,
                }
                &&& old(conf).wf() ==> final(conf).wf()
            },
            Err(PipelineError::NoSpecsGenerated) => spec_generated(output@) is None && *final(conf)
                == *old(conf),
            Err(_) => false,
        },
{
    match parse_generated(output.as_str()) {
        Some(specfile) => {
            let none: Vec<String> = Vec::new();
            proof {
                assert(none.deep_view() =~= Seq::<Seq<char>>::empty());
            }
            conf.add(&dep.name, specfile, none);
            Ok(())
        },
        None => Err(PipelineError::NoSpecsGenerated),
    }
}

} // verus!

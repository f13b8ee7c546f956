//! The distribution probe's decision: whether the package query's
//! output names a providing package.

use vstd::prelude::*;
use vstd::string::*;
use crate::chars::{all_pkg_x, is_pkg_c, lemma_line_end, line_end, line_end_x};

verus! {

/// `i` starts a line of `s`: the very beginning, or just after a
/// newline.
pub open spec fn is_line_start(s: Seq<char>, i: int) -> bool {
    i == 0 || (0 < i <= s.len() && s[i - 1] == '\n')
}

/// The line starting at `i` is nonempty and consists only of package
/// identifier characters.
pub open spec fn good_line_at(s: Seq<char>, i: int) -> bool {
    &&& is_line_start(s, i)
    &&& line_end(s, i) > i
    &&& forall|k: int| i <= k < line_end(s, i) ==> is_pkg_c(s[k])
}

/// Some line of `s` is a bare package identifier.
pub open spec fn has_pkg_line(s: Seq<char>) -> bool {
    exists|i: int| #[trigger] good_line_at(s, i)
}

/// Decides whether the query output reports a providing package: true
/// exactly when some line consists entirely of package identifier
/// characters and is nonempty. Diagnostic lines, which carry spaces or
/// other punctuation, never qualify.
#[verifier::loop_isolation(false)]
pub fn repoquery_has_package(s: &str) -> (b: bool)
    ensures
        b == has_pkg_line(s@),
{
    let len = s.unicode_len();
    let mut p: usize = 0;
    loop
        invariant
            0 <= p <= len,
            len == s@.len(),
            is_line_start(s@, p as int),
            forall|i: int| 0 <= i < p ==> !good_line_at(s@, i),
        decreases len - p,
    {
        let le = line_end_x(s, p);
        proof {
            lemma_line_end(s@, p as int);
        }
        if le > p && all_pkg_x(s, p, le) {
            proof {
                assert(good_line_at(s@, p as int));
            }
            return true;
        }
        proof {
            assert(!good_line_at(s@, p as int));
            assert forall|i: int| 0 <= i < le + 1 implies !good_line_at(s@, i) by {
                if p < i && i <= le as int {
                    assert(s@[i - 1] != '\n');
                    assert(!is_line_start(s@, i));
                }
            }
        }
        if le >= len {
            proof {
                assert forall|i: int| !good_line_at(s@, i) by {
                    if i <= le as int {
                    } else {
                        assert(line_end(s@, i) == i);
                    }
                }
            }
            return false;
        }
        p = le + 1;
    }
}

} // verus!

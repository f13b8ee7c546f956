//! The orchestrator's decisions: how many entries of the sorted
//! dependency list are driven through the generator — everything up to
//! and including the root, which terminates the run — and what the
//! aggregate configuration holds after such a run.

use vstd::prelude::*;
use crate::config::{entry_model, upsert, ProjectModel};
use crate::deps::{deps_model, DepModel, Dependency};

verus! {

/// How many entries of the list are processed: everything up to and
/// including the first entry of depth 0, or the whole list when no
/// entry is the root.
pub open spec fn spec_process_count(deps: Seq<DepModel>) -> int
    decreases deps.len(),
{
    if deps.len() == 0 {
        0
    } else if deps[0].depth == 0 {
        1
    } else {
        1 + spec_process_count(deps.drop_first())
    }
}

/// Bounds and meaning of `spec_process_count`.
pub proof fn lemma_process_count(deps: Seq<DepModel>)
    ensures
        0 <= spec_process_count(deps) <= deps.len(),
        forall|j: int| 0 <= j < spec_process_count(deps) - 1 ==> (#[trigger] deps[j]).depth != 0,
        spec_process_count(deps) < deps.len() ==> deps[spec_process_count(deps) - 1].depth == 0,
    decreases deps.len(),
{
    if deps.len() > 0 && deps[0].depth != 0 {
        let t = deps.drop_first();
        lemma_process_count(t);
        assert forall|j: int| 0 <= j < spec_process_count(deps) - 1 implies (
        #[trigger] deps[j]).depth != 0 by {
            if j > 0 {
                assert(t[j - 1] == deps[j]);
            }
        }
        if spec_process_count(deps) < deps.len() {
            assert(t.len() > 0);
            lemma_process_count(t.drop_first());
            assert(spec_process_count(t) >= 1);
            assert(t[spec_process_count(t) - 1] == deps[spec_process_count(deps) - 1]);
        }
    }
}

/// If the list holds a root entry (depth 0), the first such entry is
/// the last one processed, and nothing after it is processed.
pub proof fn lemma_root_processed_last(deps: Seq<DepModel>)
    requires
        exists|j: int| 0 <= j < deps.len() && (#[trigger] deps[j]).depth == 0,
    ensures
        spec_process_count(deps) <= deps.len(),
        deps[spec_process_count(deps) - 1].depth == 0,
        forall|j: int| 0 <= j < spec_process_count(deps) - 1 ==> (#[trigger] deps[j]).depth != 0,
    decreases deps.len(),
{
    lemma_process_count(deps);
    if spec_process_count(deps) == deps.len() {
        let j = choose|j: int| 0 <= j < deps.len() && (#[trigger] deps[j]).depth == 0;
        assert(deps[spec_process_count(deps) - 1].depth == 0) by {
            if j < deps.len() - 1 {
                assert(deps[j].depth != 0);
            }
        }
    }
}

/// Number of entries of `deps` the generator loop processes.
#[verifier::loop_isolation(false)]
pub fn process_count(deps: &Vec<Dependency>) -> (r: usize)
    ensures
        r == spec_process_count(deps_model(deps@)),
        r <= deps.len(),
{
    let ghost dm = deps_model(deps@);
    let n = deps.len();
    proof {
        assert(dm.skip(0) =~= dm);
    }
    let mut i: usize = 0;
    while i < n
        invariant
            0 <= i <= n,
            n == dm.len(),
            spec_process_count(dm) == i + spec_process_count(dm.skip(i as int)),
            forall|j: int| 0 <= j < i ==> (#[trigger] dm[j]).depth != 0,
        decreases n - i,
    {
        proof {
            assert(dm.skip(i as int)[0] == dm[i as int]);
            assert(dm[i as int] == deps@[i as int]@);
        }
        if deps[i].depth == 0 {
            proof {
                assert(spec_process_count(dm.skip(i as int)) == 1);
            }
            return i + 1;
        }
        proof {
            assert(dm.skip(i as int).drop_first() =~= dm.skip(i as int + 1));
        }
        i += 1;
    }
    proof {
        assert(dm.skip(n as int) =~= Seq::<DepModel>::empty());
    }
    n
}

/// The configuration after the first `n` dependencies have been driven
/// through the generator, `caps[i]` being the specification filename
/// the generator announced for `deps[i]`.
pub open spec fn config_after(
    deps: Seq<DepModel>,
    caps: Seq<Seq<char>>,
    n: int,
) -> Seq<(Seq<char>, ProjectModel)>
    decreases n,
{
    if n <= 0 {
        Seq::empty()
    } else {
        upsert(
            config_after(deps, caps, n - 1),
            deps[n - 1].name,
            entry_model(deps[n - 1].name, caps[n - 1], Seq::empty()),
        )
    }
}

/// Over a dependency list without repeated names — which the lister
/// guarantees — the aggregate configuration holds exactly one entry per
/// processed dependency, keyed by its name, in processing order, with
/// the descriptor derived from that dependency's generator run. Two
/// runs over the same list and the same generator announcements
/// therefore emit the same entries.
pub proof fn lemma_config_mirrors_run(deps: Seq<DepModel>, caps: Seq<Seq<char>>, n: int)
    requires
        crate::deps::unique_names(deps),
        0 <= n <= deps.len(),
        n <= caps.len(),
    ensures
        config_after(deps, caps, n).len() == n,
        forall|i: int|
            0 <= i < n ==> (#[trigger] config_after(deps, caps, n)[i]).0 == deps[i].name
                && config_after(deps, caps, n)[i].1 == entry_model(
                deps[i].name,
                caps[i],
                Seq::empty(),
            ),
    decreases n,
{
    if n > 0 {
        lemma_config_mirrors_run(deps, caps, n - 1);
        let prev = config_after(deps, caps, n - 1);
        assert(!crate::config::has_key(prev, deps[n - 1].name)) by {
            if crate::config::has_key(prev, deps[n - 1].name) {
                let i = choose|i: int| 0 <= i < prev.len() && prev[i].0 == deps[n - 1].name;
                assert(deps[i].name == deps[n - 1].name);
            }
        }
        assert(config_after(deps, caps, n) == prev.push(
            (deps[n - 1].name, entry_model(deps[n - 1].name, caps[n - 1], Seq::empty())),
        ));
    }
}

} // verus!

//! Selection and ordering of the dependency list: dropping repeated
//! names and already-packaged dependencies, then a stable sort by
//! descending depth, so that the deepest dependencies are built first
//! and the root comes last.

use vstd::prelude::*;
use crate::deps::{
    contains_name, deps_model, has_name, select_rec, spec_selected, unique_names, DepModel,
    Dependency,
};

verus! {

/// Sorted by descending depth.
pub open spec fn sorted_desc(s: Seq<DepModel>) -> bool {
    forall|i: int, j: int| 0 <= i < j < s.len() ==> (#[trigger] s[i]).depth >= (#[trigger] s[j]).depth
}

/// Inserts `x` after every element whose depth is at least `x.depth`:
/// the insertion step of a stable insertion sort.
pub open spec fn stable_insert(s: Seq<DepModel>, x: DepModel) -> Seq<DepModel>
    decreases s.len(),
{
    if s.len() == 0 {
        seq![x]
    } else if s[0].depth >= x.depth {
        seq![s[0]] + stable_insert(s.drop_first(), x)
    } else {
        seq![x] + s
    }
}

/// Stable insertion sort by descending depth: equal depths keep their
/// original order.
pub open spec fn stable_sort(s: Seq<DepModel>) -> Seq<DepModel>
    decreases s.len(),
{
    if s.len() == 0 {
        Seq::empty()
    } else {
        stable_insert(stable_sort(s.drop_last()), s.last())
    }
}

/// The dependency list handed to the generator: the selected
/// candidates, sorted by descending depth.
pub open spec fn spec_dep_list(cands: Seq<DepModel>, packaged: Seq<bool>) -> Seq<DepModel> {
    stable_sort(spec_selected(cands, packaged))
}

/// `stable_insert` keeps order, length, membership and names.
pub proof fn lemma_stable_insert_props(s: Seq<DepModel>, x: DepModel)
    requires
        sorted_desc(s),
    ensures
        stable_insert(s, x).len() == s.len() + 1,
        sorted_desc(stable_insert(s, x)),
        forall|d: DepModel| #[trigger] stable_insert(s, x).contains(d) <==> s.contains(d) || d == x,
        forall|n: Seq<char>|
            #[trigger] has_name(stable_insert(s, x), n) <==> has_name(s, n) || x.name == n,
    decreases s.len(),
{
    let r = stable_insert(s, x);
    if s.len() == 0 {
        assert(r[0] == x);
        assert forall|d: DepModel| #[trigger] r.contains(d) implies s.contains(d) || d == x by {
            let k = choose|k: int| 0 <= k < r.len() && r[k] == d;
            assert(r[k] == x);
        }
        assert forall|n: Seq<char>| #[trigger] has_name(r, n) implies has_name(s, n) || x.name
            == n by {
            let k = choose|k: int| 0 <= k < r.len() && r[k].name == n;
            assert(r[k] == x);
        }
    } else if s[0].depth >= x.depth {
        let t = s.drop_first();
        assert forall|i: int, j: int| 0 <= i < j < t.len() implies (#[trigger] t[i]).depth >= (
        #[trigger] t[j]).depth by {
            assert(t[i] == s[i + 1]);
            assert(t[j] == s[j + 1]);
        }
        lemma_stable_insert_props(t, x);
        let inner = stable_insert(t, x);
        assert(forall|k: int| 1 <= k < r.len() ==> #[trigger] r[k] == inner[k - 1]);
        assert(r[0] == s[0]);
        assert forall|i: int, j: int| 0 <= i < j < r.len() implies (#[trigger] r[i]).depth >= (
        #[trigger] r[j]).depth by {
            if i == 0 {
                assert(inner.contains(inner[j - 1]));
                let d = inner[j - 1];
                if d == x {
                    assert(r[i].depth >= r[j].depth);
                } else {
                    assert(t.contains(d));
                    let k = choose|k: int| 0 <= k < t.len() && t[k] == d;
                    assert(t[k] == s[k + 1]);
                }
            } else {
                assert(inner[i - 1].depth >= inner[j - 1].depth);
            }
        }
        assert forall|d: DepModel| #[trigger] r.contains(d) implies s.contains(d) || d == x by {
            let k = choose|k: int| 0 <= k < r.len() && r[k] == d;
            if k == 0 {
                assert(s[0] == d);
            } else {
                assert(inner.contains(inner[k - 1]));
                if inner[k - 1] != x {
                    let u = choose|u: int| 0 <= u < t.len() && t[u] == d;
                    assert(s[u + 1] == d);
                }
            }
        }
        assert forall|d: DepModel| s.contains(d) || d == x implies #[trigger] r.contains(d) by {
            if d == x {
                assert(inner.contains(x));
                let u = choose|u: int| 0 <= u < inner.len() && inner[u] == x;
                assert(r[u + 1] == x);
            } else {
                let k = choose|k: int| 0 <= k < s.len() && s[k] == d;
                if k == 0 {
                    assert(r[0] == d);
                } else {
                    assert(t[k - 1] == d);
                    assert(t.contains(d));
                    assert(inner.contains(d));
                    let u = choose|u: int| 0 <= u < inner.len() && inner[u] == d;
                    assert(r[u + 1] == d);
                }
            }
        }
        assert forall|n: Seq<char>| #[trigger] has_name(r, n) implies has_name(s, n) || x.name
            == n by {
            let k = choose|k: int| 0 <= k < r.len() && r[k].name == n;
            if k == 0 {
                assert(s[0].name == n);
            } else {
                assert(has_name(inner, n));
                if !(x.name == n) {
                    let u = choose|u: int| 0 <= u < t.len() && t[u].name == n;
                    assert(s[u + 1].name == n);
                }
            }
        }
        assert forall|n: Seq<char>| has_name(s, n) || x.name == n implies #[trigger] has_name(
            r,
            n,
        ) by {
            if x.name == n {
                assert(has_name(inner, n));
                let u = choose|u: int| 0 <= u < inner.len() && inner[u].name == n;
                assert(r[u + 1].name == n);
            } else {
                let k = choose|k: int| 0 <= k < s.len() && s[k].name == n;
                if k == 0 {
                    assert(r[0].name == n);
                } else {
                    assert(t[k - 1].name == n);
                    assert(has_name(t, n));
                    assert(has_name(inner, n));
                    let u = choose|u: int| 0 <= u < inner.len() && inner[u].name == n;
                    assert(r[u + 1].name == n);
                }
            }
        }
    } else {
        assert(r == seq![x] + s);
        assert(forall|k: int| 1 <= k < r.len() ==> #[trigger] r[k] == s[k - 1]);
        assert(r[0] == x);
        assert forall|i: int, j: int| 0 <= i < j < r.len() implies (#[trigger] r[i]).depth >= (
        #[trigger] r[j]).depth by {
            if i > 0 {
                assert(s[i - 1].depth >= s[j - 1].depth);
            } else {
                assert(x.depth > s[0].depth);
                if j > 1 {
                    assert(s[0].depth >= s[j - 1].depth);
                }
            }
        }
        assert forall|d: DepModel| #[trigger] r.contains(d) implies s.contains(d) || d == x by {
            let k = choose|k: int| 0 <= k < r.len() && r[k] == d;
            if k > 0 {
                assert(s[k - 1] == d);
            }
        }
        assert forall|d: DepModel| s.contains(d) || d == x implies #[trigger] r.contains(d) by {
            if d == x {
                assert(r[0] == d);
            } else {
                let k = choose|k: int| 0 <= k < s.len() && s[k] == d;
                assert(r[k + 1] == d);
            }
        }
        assert forall|n: Seq<char>| #[trigger] has_name(r, n) implies has_name(s, n) || x.name
            == n by {
            let k = choose|k: int| 0 <= k < r.len() && r[k].name == n;
            if k > 0 {
                assert(s[k - 1].name == n);
            }
        }
        assert forall|n: Seq<char>| has_name(s, n) || x.name == n implies #[trigger] has_name(
            r,
            n,
        ) by {
            if x.name == n {
                assert(r[0].name == n);
            } else {
                let k = choose|k: int| 0 <= k < s.len() && s[k].name == n;
                assert(r[k + 1].name == n);
            }
        }
    }
}

/// The first position whose depth is below `x.depth`.
proof fn find_split(s: Seq<DepModel>, x: DepModel) -> (j: int)
    ensures
        0 <= j <= s.len(),
        forall|t: int| 0 <= t < j ==> (#[trigger] s[t]).depth >= x.depth,
        j < s.len() ==> s[j].depth < x.depth,
    decreases s.len(),
{
    if s.len() == 0 {
        0
    } else if s[0].depth < x.depth {
        0
    } else {
        let j1 = find_split(s.drop_first(), x);
        assert forall|t: int| 0 <= t < j1 + 1 implies (#[trigger] s[t]).depth >= x.depth by {
            if t > 0 {
                assert(s.drop_first()[t - 1] == s[t]);
            }
        }
        if j1 + 1 < s.len() {
            assert(s[j1 + 1] == s.drop_first()[j1]);
        }
        j1 + 1
    }
}

/// Inserting a fresh name keeps names unique.
pub proof fn lemma_stable_insert_unique(s: Seq<DepModel>, x: DepModel)
    requires
        sorted_desc(s),
        unique_names(s),
        !has_name(s, x.name),
    ensures
        unique_names(stable_insert(s, x)),
{
    let j = find_split(s, x);
    lemma_stable_insert_at(s, x, j);
    let r = s.insert(j, x);
    assert forall|a: int, b: int| 0 <= a < b < r.len() implies (#[trigger] r[a]).name != (
    #[trigger] r[b]).name by {
        let a0 = if a < j {
            a
        } else {
            a - 1
        };
        let b0 = if b < j {
            b
        } else {
            b - 1
        };
        if a < j {
            assert(r[a] == s[a]);
        } else if a > j {
            assert(r[a] == s[a - 1]);
        } else {
            assert(r[a] == x);
        }
        if b < j {
            assert(r[b] == s[b]);
        } else if b > j {
            assert(r[b] == s[b - 1]);
        } else {
            assert(r[b] == x);
        }
        if a == j {
            assert(r[b] == s[b0]);
            if r[a].name == r[b].name {
                assert(has_name(s, x.name));
            }
        } else if b == j {
            assert(r[a] == s[a0]);
            if r[a].name == r[b].name {
                assert(has_name(s, x.name));
            }
        } else {
            assert(r[a] == s[a0] && r[b] == s[b0]);
            assert(a0 < b0);
        }
    }
}

/// `stable_sort` sorts, permutes, and keeps names; unique names stay
/// unique.
pub proof fn lemma_stable_sort_props(s: Seq<DepModel>)
    ensures
        stable_sort(s).len() == s.len(),
        sorted_desc(stable_sort(s)),
        forall|d: DepModel| #[trigger] stable_sort(s).contains(d) <==> s.contains(d),
        forall|n: Seq<char>| #[trigger] has_name(stable_sort(s), n) <==> has_name(s, n),
        unique_names(s) ==> unique_names(stable_sort(s)),
    decreases s.len(),
{
    let r = stable_sort(s);
    if s.len() == 0 {
        assert forall|d: DepModel| s.contains(d) implies #[trigger] r.contains(d) by {
            let k = choose|k: int| 0 <= k < s.len() && s[k] == d;
        }
    } else {
        let t = s.drop_last();
        let x = s.last();
        lemma_stable_sort_props(t);
        lemma_stable_insert_props(stable_sort(t), x);
        assert forall|d: DepModel| #[trigger] r.contains(d) implies s.contains(d) by {
            if d == x {
                assert(s[s.len() - 1] == d);
            } else {
                assert(stable_sort(t).contains(d));
                assert(t.contains(d));
                let k = choose|k: int| 0 <= k < t.len() && t[k] == d;
                assert(s[k] == d);
            }
        }
        assert forall|d: DepModel| s.contains(d) implies #[trigger] r.contains(d) by {
            let k = choose|k: int| 0 <= k < s.len() && s[k] == d;
            if k == s.len() - 1 {
                assert(d == x);
            } else {
                assert(t[k] == d);
                assert(t.contains(d));
            }
        }
        assert forall|n: Seq<char>| #[trigger] has_name(r, n) implies has_name(s, n) by {
            if x.name == n {
                assert(s[s.len() - 1].name == n);
            } else if has_name(stable_sort(t), n) {
                assert(has_name(t, n));
                let k = choose|k: int| 0 <= k < t.len() && t[k].name == n;
                assert(s[k].name == n);
            }
        }
        assert forall|n: Seq<char>| has_name(s, n) implies #[trigger] has_name(r, n) by {
            let k = choose|k: int| 0 <= k < s.len() && s[k].name == n;
            if k == s.len() - 1 {
                assert(x.name == n);
            } else {
                assert(t[k].name == n);
                assert(has_name(t, n));
            }
        }
        if unique_names(s) {
            assert forall|a: int, b: int| 0 <= a < b < t.len() implies (#[trigger] t[a]).name != (
            #[trigger] t[b]).name by {
                assert(t[a] == s[a]);
                assert(t[b] == s[b]);
            }
            assert(!has_name(t, x.name)) by {
                if has_name(t, x.name) {
                    let k = choose|k: int| 0 <= k < t.len() && t[k].name == x.name;
                    assert(s[k].name == s[s.len() - 1].name);
                }
            }
            lemma_stable_insert_unique(stable_sort(t), x);
        }
    }
}

/// Where a stable insertion lands: before the first element of smaller
/// depth.
pub proof fn lemma_stable_insert_at(s: Seq<DepModel>, x: DepModel, j: int)
    requires
        sorted_desc(s),
        0 <= j <= s.len(),
        forall|t: int| 0 <= t < j ==> (#[trigger] s[t]).depth >= x.depth,
        j < s.len() ==> s[j].depth < x.depth,
    ensures
        stable_insert(s, x) == s.insert(j, x),
    decreases s.len(),
{
    if s.len() == 0 {
        assert(stable_insert(s, x) =~= s.insert(0, x));
    } else if j == 0 {
        assert(s[0].depth < x.depth);
        assert(stable_insert(s, x) =~= s.insert(0, x));
    } else {
        let t = s.drop_first();
        assert forall|a: int, b: int| 0 <= a < b < t.len() implies (#[trigger] t[a]).depth >= (
        #[trigger] t[b]).depth by {
            assert(t[a] == s[a + 1]);
            assert(t[b] == s[b + 1]);
        }
        assert forall|u: int| 0 <= u < j - 1 implies (#[trigger] t[u]).depth >= x.depth by {
            assert(t[u] == s[u + 1]);
        }
        assert(j - 1 < t.len() ==> t[j - 1].depth < x.depth);
        lemma_stable_insert_at(t, x, j - 1);
        assert(stable_insert(s, x) =~= s.insert(j, x)) by {
            assert(stable_insert(s, x) == seq![s[0]] + t.insert(j - 1, x));
        }
    }
}

/// `d` is one of the candidates, and its probe came back negative.
pub open spec fn from_unpackaged(cands: Seq<DepModel>, ex: Seq<bool>, d: DepModel) -> bool {
    exists|t: int| 0 <= t < cands.len() && #[trigger] cands[t] == d && !ex[t]
}

/// Selected elements come from the candidates, with a negative probe.
proof fn lemma_select_rec_sound(cands: Seq<DepModel>, ex: Seq<bool>, i: int, acc: Seq<DepModel>)
    requires
        ex.len() == cands.len(),
        forall|k: int| 0 <= k < acc.len() ==> from_unpackaged(cands, ex, #[trigger] acc[k]),
    ensures
        forall|k: int|
            0 <= k < select_rec(cands, ex, i, acc).len() ==> from_unpackaged(
                cands,
                ex,
                #[trigger] select_rec(cands, ex, i, acc)[k],
            ),
    decreases cands.len() - i,
{
    if 0 <= i < cands.len() {
        let acc2 = if !has_name(acc, cands[i].name) && !(i < ex.len() && ex[i]) {
            acc.push(cands[i])
        } else {
            acc
        };
        assert forall|k: int| 0 <= k < acc2.len() implies from_unpackaged(
            cands,
            ex,
            #[trigger] acc2[k],
        ) by {
            if k < acc.len() {
                assert(acc2[k] == acc[k]);
            } else {
                assert(acc2[k] == cands[i]);
                assert(cands[i] == acc2[k] && !ex[i]);
            }
        }
        lemma_select_rec_sound(cands, ex, i + 1, acc2);
        assert forall|k: int| 0 <= k < select_rec(cands, ex, i, acc).len() implies from_unpackaged(
            cands,
            ex,
            #[trigger] select_rec(cands, ex, i, acc)[k],
        ) by {
            assert(select_rec(cands, ex, i, acc)[k] == select_rec(cands, ex, i + 1, acc2)[k]);
        }
    } else {
        assert(select_rec(cands, ex, i, acc) == acc);
        assert forall|k: int| 0 <= k < select_rec(cands, ex, i, acc).len() implies from_unpackaged(
            cands,
            ex,
            #[trigger] select_rec(cands, ex, i, acc)[k],
        ) by {
            assert(select_rec(cands, ex, i, acc)[k] == acc[k]);
        }
    }
}

/// Selection never records a name twice.
proof fn lemma_select_rec_unique(cands: Seq<DepModel>, ex: Seq<bool>, i: int, acc: Seq<DepModel>)
    requires
        unique_names(acc),
    ensures
        unique_names(select_rec(cands, ex, i, acc)),
    decreases cands.len() - i,
{
    if 0 <= i < cands.len() {
        let acc2 = if !has_name(acc, cands[i].name) && !(i < ex.len() && ex[i]) {
            acc.push(cands[i])
        } else {
            acc
        };
        assert forall|a: int, b: int| 0 <= a < b < acc2.len() implies (#[trigger] acc2[a]).name
            != (#[trigger] acc2[b]).name by {
            if b < acc.len() {
                assert(acc2[a] == acc[a]);
                assert(acc2[b] == acc[b]);
            } else if acc2.len() > acc.len() {
                assert(acc2[a] == acc[a]);
                assert(acc2[b] == cands[i]);
                assert(!has_name(acc, cands[i].name));
                if acc[a].name == cands[i].name {
                    assert(has_name(acc, cands[i].name));
                }
            }
        }
        lemma_select_rec_unique(cands, ex, i + 1, acc2);
    }
}

/// Every dependency handed to the generator was probed and found
/// missing from the distribution: it equals some candidate whose probe
/// result was false.
pub proof fn lemma_dep_list_probe_negative(cands: Seq<DepModel>, packaged: Seq<bool>)
    requires
        packaged.len() == cands.len(),
    ensures
        forall|k: int|
            0 <= k < spec_dep_list(cands, packaged).len() ==> from_unpackaged(
                cands,
                packaged,
                #[trigger] spec_dep_list(cands, packaged)[k],
            ),
{
    let sel = spec_selected(cands, packaged);
    lemma_select_rec_sound(cands, packaged, 0, Seq::empty());
    lemma_stable_sort_props(sel);
    assert forall|k: int| 0 <= k < spec_dep_list(cands, packaged).len() implies from_unpackaged(
        cands,
        packaged,
        #[trigger] spec_dep_list(cands, packaged)[k],
    ) by {
        let d = spec_dep_list(cands, packaged)[k];
        assert(spec_dep_list(cands, packaged).contains(d));
        assert(sel.contains(d));
        let u = choose|u: int| 0 <= u < sel.len() && sel[u] == d;
        assert(from_unpackaged(cands, packaged, sel[u]));
    }
}

/// No two dependencies handed to the generator share a name.
pub proof fn lemma_dep_list_unique_names(cands: Seq<DepModel>, packaged: Seq<bool>)
    ensures
        unique_names(spec_dep_list(cands, packaged)),
{
    lemma_select_rec_unique(cands, packaged, 0, Seq::empty());
    lemma_stable_sort_props(spec_selected(cands, packaged));
}

/// The list handed to the generator is sorted by descending depth.
pub proof fn lemma_dep_list_sorted(cands: Seq<DepModel>, packaged: Seq<bool>)
    ensures
        sorted_desc(spec_dep_list(cands, packaged)),
{
    lemma_stable_sort_props(spec_selected(cands, packaged));
}

/// Keeps each candidate not yet seen by name and not already packaged.
#[verifier::loop_isolation(false)]
fn select_deps(cands: Vec<Dependency>, packaged: &Vec<bool>) -> (r: Vec<Dependency>)
    requires
        packaged.len() == cands.len(),
    ensures
        deps_model(r@) == spec_selected(deps_model(cands@), packaged@),
{
    let ghost cm = deps_model(cands@);
    let n = cands.len();
    proof {
        assert(deps_model(Seq::<Dependency>::empty()) =~= Seq::<DepModel>::empty());
    }
    let mut rest = cands;
    let mut out: Vec<Dependency> = Vec::new();
    let mut i: usize = 0;
    while i < n
        invariant
            0 <= i <= n,
            n == cm.len(),
            rest.len() == n - i,
            forall|k: int| 0 <= k < rest@.len() ==> (#[trigger] rest@[k])@ == cm[i + k],
            spec_selected(cm, packaged@) == select_rec(cm, packaged@, i as int, deps_model(out@)),
        decreases n - i,
    {
        let ghost out0 = out@;
        let ghost rest0 = rest@;
        let m = rest.remove(0);
        proof {
            assert(m@ == cm[i as int]);
            assert forall|k: int| 0 <= k < rest@.len() implies (#[trigger] rest@[k])@ == cm[
                i as int + 1 + k
            ] by {
                assert(rest@[k] == rest0[k + 1]);
            }
        }
        let fresh = !contains_name(&out, &m.name);
        let already = packaged[i];
        if fresh && !already {
            out.push(m);
            proof {
                assert forall|k: int| 0 <= k < out@.len() implies deps_model(out@)[k]
                    == deps_model(out0).push(cm[i as int])[k] by {
                    assert(deps_model(out@)[k] == out@[k]@);
                    if k < out0.len() {
                        assert(out@[k] == out0[k]);
                        assert(deps_model(out0)[k] == out0[k]@);
                    }
                }
                assert(deps_model(out@) =~= deps_model(out0).push(cm[i as int]));
            }
        }
        i += 1;
    }
    proof {
        assert(select_rec(cm, packaged@, n as int, deps_model(out@)) == deps_model(out@));
    }
    out
}

/// Sorts by descending depth; ties keep their order.
#[verifier::loop_isolation(false)]
fn sort_deps(deps: Vec<Dependency>) -> (r: Vec<Dependency>)
    ensures
        deps_model(r@) == stable_sort(deps_model(deps@)),
{
    let ghost dm = deps_model(deps@);
    let n = deps.len();
    proof {
        assert(dm.take(0) =~= Seq::<DepModel>::empty());
        assert(deps_model(Seq::<Dependency>::empty()) =~= stable_sort(dm.take(0)));
    }
    let mut rest = deps;
    let mut out: Vec<Dependency> = Vec::new();
    let mut i: usize = 0;
    while i < n
        invariant
            0 <= i <= n,
            n == dm.len(),
            rest.len() == n - i,
            forall|k: int| 0 <= k < rest@.len() ==> (#[trigger] rest@[k])@ == dm[i + k],
            deps_model(out@) == stable_sort(dm.take(i as int)),
        decreases n - i,
    {
        let ghost out0 = out@;
        let ghost rest0 = rest@;
        let m = rest.remove(0);
        proof {
            assert(m@ == dm[i as int]);
            assert forall|k: int| 0 <= k < rest@.len() implies (#[trigger] rest@[k])@ == dm[
                i as int + 1 + k
            ] by {
                assert(rest@[k] == rest0[k + 1]);
            }
            lemma_stable_sort_props(dm.take(i as int));
        }
        let mut j: usize = 0;
        while j < out.len() && out[j].depth >= m.depth
            invariant
                0 <= j <= out.len(),
                forall|t: int| 0 <= t < j ==> (#[trigger] deps_model(out@)[t]).depth >= m@.depth,
            decreases out.len() - j,
        {
            proof {
                assert(deps_model(out@)[j as int] == out@[j as int]@);
            }
            j += 1;
        }
        proof {
            if j < out.len() {
                assert(deps_model(out@)[j as int] == out@[j as int]@);
                assert(deps_model(out@)[j as int].depth < m@.depth);
            }
            lemma_stable_insert_at(deps_model(out0), m@, j as int);
        }
        out.insert(j, m);
        proof {
            assert forall|k: int| 0 <= k < out@.len() implies deps_model(out@)[k] == deps_model(
                out0,
            ).insert(j as int, m@)[k] by {
                assert(deps_model(out@)[k] == out@[k]@);
                if k < j {
                    assert(out@[k] == out0[k]);
                    assert(deps_model(out0)[k] == out0[k]@);
                } else if k > j {
                    assert(out@[k] == out0[k - 1]);
                    assert(deps_model(out0)[k - 1] == out0[k - 1]@);
                } else {
                    assert(out@[k] == m);
                }
            }
            assert(deps_model(out@) =~= deps_model(out0).insert(j as int, m@));
            assert(dm.take(i as int + 1).drop_last() =~= dm.take(i as int));
            assert(dm.take(i as int + 1).last() == dm[i as int]);
            assert(stable_sort(dm.take(i as int + 1)) == stable_insert(
                stable_sort(dm.take(i as int)),
                dm[i as int],
            ));
        }
        i += 1;
    }
    proof {
        assert(dm.take(n as int) =~= dm);
    }
    out
}

/// Builds the dependency list handed to the generator: candidates with
/// a repeated name or a positive probe are dropped, the rest sorted by
/// descending depth, deepest first.
pub fn build_dep_list(cands: Vec<Dependency>, packaged: &Vec<bool>) -> (r: Vec<Dependency>)
    requires
        packaged.len() == cands.len(),
    ensures
        deps_model(r@) == spec_dep_list(deps_model(cands@), packaged@),
{
    let selected = select_deps(cands, packaged);
    sort_deps(selected)
}

} // verus!

//! The aggregate configuration model: one build descriptor per packaged
//! dependency, keyed by the dependency's name.

use vstd::prelude::*;
use vstd::string::*;

verus! {

/// How one generated specification is to be built.
pub struct RpmBuild {
    /// Relative path of the generated specification file,
    /// always `<name>/<specfile>`.
    pub spec_path: String,
    /// Target package name, always `rust-<name>`.
    pub package: String,
    /// Build-time dependencies of the specification.
    pub build_deps: Vec<String>,
}

/// One top-level entry of the aggregate configuration.
pub struct Project {
    pub rpmbuild: RpmBuild,
}

/// The aggregate configuration: a map from dependency name to its
/// build descriptor. Keys are unique; insertion order is kept.
pub struct AndaConfig {
    pub project: Vec<(String, Project)>,
}

/// Mathematical model of a build descriptor.
#[verifier::ext_equal]
pub ghost struct RpmBuildModel {
    pub spec_path: Seq<char>,
    pub package: Seq<char>,
    pub build_deps: Seq<Seq<char>>,
}

/// Mathematical model of one configuration entry.
#[verifier::ext_equal]
pub ghost struct ProjectModel {
    pub rpmbuild: RpmBuildModel,
}

impl View for RpmBuild {
    type V = RpmBuildModel;

    open spec fn view(&self) -> RpmBuildModel {
        RpmBuildModel {
            spec_path: self.spec_path@,
            package: self.package@,
            build_deps: self.build_deps.deep_view(),
        }
    }
}

impl View for Project {
    type V = ProjectModel;

    open spec fn view(&self) -> ProjectModel {
        ProjectModel { rpmbuild: self.rpmbuild@ }
    }
}

impl View for AndaConfig {
    type V = Seq<(Seq<char>, ProjectModel)>;

    open spec fn view(&self) -> Seq<(Seq<char>, ProjectModel)> {
        self.project@.map(|i: int, e: (String, Project)| (e.0@, e.1@))
    }
}

/// The descriptor that `add` records for a dependency `name` whose
/// generated specification file is `specfile`.
pub open spec fn entry_model(
    name: Seq<char>,
    specfile: Seq<char>,
    build_deps: Seq<Seq<char>>,
) -> ProjectModel {
    ProjectModel {
        rpmbuild: RpmBuildModel {
            spec_path: name + "/"@ + specfile,
            package: "rust-"@ + name,
            build_deps: build_deps,
        },
    }
}

/// Whether some entry of `m` is keyed by `name`.
pub open spec fn has_key(m: Seq<(Seq<char>, ProjectModel)>, name: Seq<char>) -> bool {
    exists|i: int| 0 <= i < m.len() && m[i].0 == name
}

/// Index of the first entry keyed by `name`, or -1 if there is none.
pub open spec fn key_index(m: Seq<(Seq<char>, ProjectModel)>, name: Seq<char>) -> int
    decreases m.len(),
{
    if m.len() == 0 {
        -1
    } else if m[0].0 == name {
        0
    } else if key_index(m.drop_first(), name) >= 0 {
        key_index(m.drop_first(), name) + 1
    } else {
        -1
    }
}

/// Inserting under an existing key replaces that entry in place;
/// a new key is appended.
pub open spec fn upsert(
    m: Seq<(Seq<char>, ProjectModel)>,
    name: Seq<char>,
    p: ProjectModel,
) -> Seq<(Seq<char>, ProjectModel)> {
    if has_key(m, name) {
        m.update(key_index(m, name), (name, p))
    } else {
        m.push((name, p))
    }
}

/// Every entry's descriptor is derived from its own key — the package is
/// `rust-<name>` and the spec path starts with `<name>/` — and no two
/// entries share a key.
pub open spec fn wf_entries(m: Seq<(Seq<char>, ProjectModel)>) -> bool {
    &&& forall|i: int|
        0 <= i < m.len() ==> (#[trigger] m[i]).1.rpmbuild.package == "rust-"@ + m[i].0
    &&& forall|i: int|
        0 <= i < m.len() ==> (#[trigger] m[i]).1.rpmbuild.spec_path.len() >= m[i].0.len() + 1
            && m[i].1.rpmbuild.spec_path.subrange(0, m[i].0.len() as int + 1) == m[i].0 + "/"@
    &&& forall|i: int, j: int|
        0 <= i < j < m.len() ==> (#[trigger] m[i]).0 != (#[trigger] m[j]).0
}

/// `key_index` finds the first matching key and agrees with `has_key`.
pub proof fn lemma_key_index(m: Seq<(Seq<char>, ProjectModel)>, name: Seq<char>)
    ensures
        -1 <= key_index(m, name) < m.len(),
        has_key(m, name) <==> 0 <= key_index(m, name),
        has_key(m, name) ==> m[key_index(m, name)].0 == name,
        forall|i: int| 0 <= i < key_index(m, name) ==> m[i].0 != name,
    decreases m.len(),
{
    if m.len() > 0 && m[0].0 != name {
        lemma_key_index(m.drop_first(), name);
        if has_key(m, name) {
            let j = choose|j: int| 0 <= j < m.len() && m[j].0 == name;
            assert(m.drop_first()[j - 1].0 == name);
        }
        if has_key(m.drop_first(), name) {
            let j = choose|j: int|
                0 <= j < m.drop_first().len() && m.drop_first()[j].0 == name;
            assert(m[j + 1].0 == name);
        }
        assert forall|i: int| 0 <= i < key_index(m, name) implies m[i].0 != name by {
            if i > 0 {
                assert(m.drop_first()[i - 1] == m[i]);
            }
        }
    }
}

/// Recording a descriptor of the shape `entry_model` derives from its key
/// keeps the configuration well formed.
pub proof fn lemma_upsert_wf(
    m: Seq<(Seq<char>, ProjectModel)>,
    name: Seq<char>,
    specfile: Seq<char>,
    build_deps: Seq<Seq<char>>,
)
    requires
        wf_entries(m),
    ensures
        wf_entries(upsert(m, name, entry_model(name, specfile, build_deps))),
{
    reveal_strlit("/");
    let p = entry_model(name, specfile, build_deps);
    assert(p.rpmbuild.spec_path.subrange(0, name.len() as int + 1) =~= name + "/"@);
    let u = upsert(m, name, p);
    lemma_key_index(m, name);
    if has_key(m, name) {
        let k = key_index(m, name);
        assert(forall|i: int| 0 <= i < u.len() && i != k ==> u[i] == m[i]);
        assert(u[k].0 == m[k].0);
        assert forall|i: int, j: int| 0 <= i < j < u.len() implies (#[trigger] u[i]).0
            != (#[trigger] u[j]).0 by {
            assert(u[i].0 == m[i].0);
            assert(u[j].0 == m[j].0);
        }
    } else {
        assert(forall|i: int| 0 <= i < m.len() ==> (#[trigger] m[i]).0 != name);
        assert forall|i: int, j: int| 0 <= i < j < u.len() implies (#[trigger] u[i]).0
            != (#[trigger] u[j]).0 by {
            if j < m.len() {
                assert(u[i].0 == m[i].0);
                assert(u[j].0 == m[j].0);
            } else {
                assert(u[i].0 == m[i].0);
                assert(u[j].0 == name);
            }
        }
    }
}

impl AndaConfig {
    /// See `wf_entries`.
    pub open spec fn wf(&self) -> bool {
        wf_entries(self@)
    }

    /// An empty configuration.
    pub fn new() -> (r: Self)
        ensures
            r@ == Seq::<(Seq<char>, ProjectModel)>::empty(),
            r.wf(),
    {
        let r = Self { project: Vec::new() };
        proof {
            assert(r@ =~= Seq::<(Seq<char>, ProjectModel)>::empty());
        }
        r
    }

    /// Records the descriptor for `name`: spec path `<name>/<specfile>`,
    /// package `rust-<name>`, and the given build dependencies. An entry
    /// already keyed by `name` is replaced, a new key is appended.
    #[verifier::loop_isolation(false)]
    pub fn add(&mut self, name: &String, specfile: String, build_deps: Vec<String>)
        ensures
            final(self)@ == upsert(
                old(self)@,
                name@,
                entry_model(name@, specfile@, build_deps.deep_view()),
            ),
            old(self).wf() ==> final(self).wf(),
    {
        let ghost bd = build_deps.deep_view();
        let ghost entry = entry_model(name@, specfile@, bd);
        let mut spec_path = String::new();
        spec_path.append(name.as_str());
        spec_path.append("/");
        spec_path.append(specfile.as_str());
        proof {
            assert(spec_path@ =~= name@ + "/"@ + specfile@);
        }
        let mut package = String::from_str("rust-");
        package.append(name.as_str());
        let key = String::from_str(name.as_str());
        let item = (key, Project { rpmbuild: RpmBuild { spec_path, package, build_deps } });
        assert(item.1@ =~~= entry);

        let n = self.project.len();
        let mut j: usize = 0;
        while j < n
            invariant
                0 <= j <= n,
                n == self.project.len(),
                forall|i: int| 0 <= i < j ==> self@[i].0 != name@,
                *self == *old(self),
                item.1@ == entry,
                item.0@ == name@,
            decreases n - j,
        {
            if self.project[j].0 == *name {
                proof {
                    lemma_key_index(old(self)@, name@);
                    assert(old(self)@[j as int].0 == name@);
                    assert(key_index(old(self)@, name@) == j as int);
                }
                self.project.remove(j);
                self.project.insert(j, item);
                proof {
                    assert(self@ =~~= upsert(old(self)@, name@, entry));
                    if old(self).wf() {
                        lemma_upsert_wf(old(self)@, name@, specfile@, bd);
                    }
                }
                return ;
            }
            j += 1;
        }
        proof {
            assert(!has_key(old(self)@, name@));
        }
        self.project.push(item);
        proof {
            assert(self@ =~~= upsert(old(self)@, name@, entry));
            if old(self).wf() {
                lemma_upsert_wf(old(self)@, name@, specfile@, bd);
            }
        }
    }
}


/// The text of one quoted list item after the first: `, "<item>"`.
pub open spec fn list_tail_text(items: Seq<Seq<char>>, i: int) -> Seq<char>
    decreases items.len() - i,
{
    if i < 0 || i >= items.len() {
        Seq::empty()
    } else {
        ", \""@ + items[i] + "\""@ + list_tail_text(items, i + 1)
    }
}

/// The text of a quoted list: `[]`, or `["a", "b", …]`.
pub open spec fn list_text(items: Seq<Seq<char>>) -> Seq<char> {
    if items.len() == 0 {
        "[]"@
    } else {
        "[\""@ + items[0] + "\""@ + list_tail_text(items, 1) + "]"@
    }
}

/// The text of one configuration block.
pub open spec fn block_text(name: Seq<char>, p: ProjectModel) -> Seq<char> {
    "project \""@ + name + "\" {\n  rpmbuild {\n    spec       = \""@ + p.rpmbuild.spec_path
        + "\"\n    package    = \""@ + p.rpmbuild.package + "\"\n    build_deps = "@ + list_text(
        p.rpmbuild.build_deps,
    ) + "\n  }\n}\n"@
}

/// The text of the whole aggregate configuration: one block per entry,
/// in order.
pub open spec fn hcl_text(m: Seq<(Seq<char>, ProjectModel)>) -> Seq<char>
    decreases m.len(),
{
    if m.len() == 0 {
        Seq::empty()
    } else {
        hcl_text(m.drop_last()) + block_text(m.last().0, m.last().1)
    }
}

/// Appends the quoted list of `items` to `out`.
#[verifier::loop_isolation(false)]
fn append_list(out: &mut String, items: &Vec<String>)
    ensures
        final(out)@ == old(out)@ + list_text(items.deep_view()),
{
    let ghost dv = items.deep_view();
    proof {
        assert(dv.len() == items@.len());
    }
    if items.len() == 0 {
        out.append("[]");
        return ;
    }
    out.append("[\"");
    out.append(items[0].as_str());
    proof {
        assert(dv[0] == items@[0]@);
    }
    out.append("\"");
    let n = items.len();
    let mut k: usize = 1;
    while k < n
        invariant
            1 <= k <= n,
            out@ + list_tail_text(dv, k as int) + "]"@ == old(out)@ + list_text(dv),
        decreases n - k,
    {
        let ghost before = out@;
        out.append(", \"");
        out.append(items[k].as_str());
        out.append("\"");
        proof {
            assert(dv[k as int] == items@[k as int]@);
            assert(out@ =~= before + (", \""@ + dv[k as int] + "\""@));
            assert(out@ + list_tail_text(dv, k as int + 1) + "]"@ =~= before + list_tail_text(
                dv,
                k as int,
            ) + "]"@);
        }
        k += 1;
    }
    proof {
        assert(list_tail_text(dv, n as int) =~= Seq::<char>::empty());
        assert(out@ + list_tail_text(dv, n as int) =~= out@);
    }
    out.append("]");
    proof {
        assert(out@ =~= old(out)@ + list_text(dv));
    }
}

impl AndaConfig {
    /// Serializes the configuration: for each entry, in order, one
    /// `project "<name>"` block holding an `rpmbuild` block with the
    /// spec path, the package name and the build dependencies.
    #[verifier::loop_isolation(false)]
    pub fn to_hcl(&self) -> (r: String)
        ensures
            r@ == hcl_text(self@),
    {
        let mut out = String::new();
        let n = self.project.len();
        proof {
            assert(self@.take(0) =~= Seq::<(Seq<char>, ProjectModel)>::empty());
            assert(out@ =~= hcl_text(self@.take(0)));
        }
        let mut i: usize = 0;
        while i < n
            invariant
                0 <= i <= n,
                n == self@.len(),
                out@ == hcl_text(self@.take(i as int)),
            decreases n - i,
        {
            let ghost before = out@;
            let ghost entry = self@[i as int];
            out.append("project \"");
            out.append(self.project[i].0.as_str());
            out.append("\" {\n  rpmbuild {\n    spec       = \"");
            out.append(self.project[i].1.rpmbuild.spec_path.as_str());
            out.append("\"\n    package    = \"");
            out.append(self.project[i].1.rpmbuild.package.as_str());
            out.append("\"\n    build_deps = ");
            append_list(&mut out, &self.project[i].1.rpmbuild.build_deps);
            out.append("\n  }\n}\n");
            proof {
                assert(entry.0 == self.project@[i as int].0@);
                assert(entry.1 == self.project@[i as int].1@);
                assert(out@ =~= before + block_text(entry.0, entry.1));
                assert(self@.take(i as int + 1).drop_last() =~= self@.take(i as int));
                assert(self@.take(i as int + 1).last() == entry);
                assert(hcl_text(self@.take(i as int + 1)) == hcl_text(self@.take(i as int))
                    + block_text(entry.0, entry.1));
            }
            i += 1;
        }
        proof {
            assert(self@.take(n as int) =~= self@);
        }
        out
    }
}

/// Every entry of a well-formed configuration carries a descriptor
/// derived from its own key: the package is `rust-` followed by the
/// key, and the spec path starts with the key and a slash.
pub proof fn lemma_entries_follow_key(m: Seq<(Seq<char>, ProjectModel)>)
    requires
        wf_entries(m),
    ensures
        forall|i: int|
            0 <= i < m.len() ==> (#[trigger] m[i]).1.rpmbuild.package == "rust-"@ + m[i].0,
        forall|i: int|
            0 <= i < m.len() ==> (#[trigger] m[i]).1.rpmbuild.spec_path.len() >= m[i].0.len() + 1
                && m[i].1.rpmbuild.spec_path.subrange(0, m[i].0.len() as int + 1) == m[i].0 + "/"@,
{
}

} // verus!

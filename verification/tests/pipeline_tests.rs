use anda_gen::config::AndaConfig;
use anda_gen::deps::{parse_dep_tree, Dependency};
use anda_gen::genspec::{gen_spec, parse_generated};
use anda_gen::order::build_dep_list;
use anda_gen::pipeline::process_count;
use anda_gen::probe::repoquery_has_package;
use anda_gen::PipelineError;

#[test]
fn a() {
    // build(
    //     &mut AndaConfig::new(),
    //     &"reqwest".to_string(),
    //     &"0.11.11".to_string(),
    // )
    // .unwrap();
}

fn names(deps: &[Dependency]) -> Vec<&str> {
    deps.iter().map(|d| d.name.as_str()).collect()
}

#[test]
fn duplicate_marker_suppressed() {
    let text = "0root v0.1.0\n1libA v1.0.0\n2libB v2.0.0\n1libA v1.0.0 (*)\n";
    let cands = parse_dep_tree(text).unwrap();
    assert_eq!(names(&cands), vec!["root", "libA", "libB"]);
    let packaged = vec![false, false, false];
    let deps = build_dep_list(cands, &packaged);
    assert_eq!(names(&deps), vec!["libB", "libA", "root"]);
    assert_eq!(deps[0].depth, 2);
    assert_eq!(deps[2].depth, 0);
    assert_eq!(process_count(&deps), 3);
}

#[test]
fn distribution_filter_drops_packaged() {
    let text = "0root v0.1.0\n1libA v1.0.0\n";
    let cands = parse_dep_tree(text).unwrap();
    assert_eq!(names(&cands), vec!["root", "libA"]);
    let packaged = vec![false, true];
    let deps = build_dep_list(cands, &packaged);
    assert_eq!(names(&deps), vec!["root"]);
    assert_eq!(deps[0].version, "0.1.0");
}

#[test]
fn ordering_deepest_first_root_last() {
    let text = "0root v0.1.0\n1midA v1.0.0\n2leafA v1.0.0\n1midB v1.0.0\n";
    let cands = parse_dep_tree(text).unwrap();
    let packaged = vec![false; 4];
    let deps = build_dep_list(cands, &packaged);
    assert_eq!(names(&deps), vec!["leafA", "midA", "midB", "root"]);
    assert_eq!(process_count(&deps), 4);
}

#[test]
fn root_terminates_processing() {
    // a root in the middle stops the loop right after it
    let deps = vec![
        Dependency { depth: 2, name: "a".to_string(), version: "1".to_string() },
        Dependency { depth: 0, name: "r".to_string(), version: "1".to_string() },
        Dependency { depth: 1, name: "b".to_string(), version: "1".to_string() },
    ];
    assert_eq!(process_count(&deps), 2);
}

#[test]
fn name_level_dedup_keeps_first_version() {
    let text = "0root v0.1.0\n1libA v1.0.0\n2libA v2.0.0\n";
    let cands = parse_dep_tree(text).unwrap();
    let packaged = vec![false, false, false];
    let deps = build_dep_list(cands, &packaged);
    assert_eq!(names(&deps), vec!["libA", "root"]);
    assert_eq!(deps[0].version, "1.0.0");
    assert_eq!(deps[0].depth, 1);
}

#[test]
fn no_dependency_lines_is_fatal() {
    assert_eq!(
        parse_dep_tree("nothing that looks like a dependency"),
        Err(PipelineError::NoDependencies)
    );
    assert_eq!(parse_dep_tree(""), Err(PipelineError::NoDependencies));
}

#[test]
fn huge_depth_is_fatal() {
    let text = "99999999999999999999999root v0.1.0\n";
    assert_eq!(parse_dep_tree(text), Err(PipelineError::DepthTooLarge));
}

#[test]
fn dep_line_shapes() {
    // an all-digit run lends its last digit to the name
    let cands = parse_dep_tree("12 v1.0\n0root v0.1.0\n").unwrap();
    assert_eq!(names(&cands), vec!["2", "root"]);
    assert_eq!(cands[0].depth, 1);
    // a single digit alone cannot split into depth and name
    assert_eq!(parse_dep_tree("1 v1.0\n"), Err(PipelineError::NoDependencies));
    // depth digits split from a name that starts with digits
    let cands = parse_dep_tree("123abc v4.5 (extra note)\n").unwrap();
    assert_eq!(cands[0].depth, 123);
    assert_eq!(cands[0].name, "abc");
    assert_eq!(cands[0].version, "4.5");
    // an annotation other than the duplicate marker is kept
    let cands = parse_dep_tree("1libA v1.0.0 (/home/build/libA)\n").unwrap();
    assert_eq!(names(&cands), vec!["libA"]);
}

#[test]
fn probe_output_discrimination() {
    assert!(!repoquery_has_package("Last metadata expiration check: 0:00:42 ago.\n"));
    assert!(repoquery_has_package("rust-libA-devel-1.0.0-1.fc38.noarch\n"));
    assert!(repoquery_has_package(
        "Last metadata expiration check: 0:00:42 ago.\nrust-libA-devel-1.0.0-1.fc38.noarch\n"
    ));
    assert!(!repoquery_has_package(""));
    assert!(!repoquery_has_package("\n\n"));
    assert!(!repoquery_has_package("two words\n"));
}

#[test]
fn generated_spec_extraction() {
    assert_eq!(
        parse_generated("some noise\nGenerated: rust-libA.spec\nmore noise\n"),
        Some("rust-libA.spec".to_string())
    );
    // the filename runs to the last `.spec` of the line
    assert_eq!(
        parse_generated("Generated: a.spec b.spec\n"),
        Some("a.spec b.spec".to_string())
    );
    assert_eq!(parse_generated("no announcement here\n"), None);
    assert_eq!(parse_generated("Generated: nothing useful\n"), None);
}

#[test]
fn gen_spec_records_descriptor() {
    let mut conf = AndaConfig::new();
    let dep = Dependency { depth: 1, name: "libA".to_string(), version: "1.0.0".to_string() };
    let out = "Generated: rust-libA.spec\n".to_string();
    gen_spec(&mut conf, &dep, out).unwrap();
    assert_eq!(conf.project.len(), 1);
    assert_eq!(conf.project[0].0, "libA");
    assert_eq!(conf.project[0].1.rpmbuild.spec_path, "libA/rust-libA.spec");
    assert_eq!(conf.project[0].1.rpmbuild.package, "rust-libA");
    assert!(conf.project[0].1.rpmbuild.build_deps.is_empty());
}

#[test]
fn gen_spec_failure_leaves_config_untouched() {
    let mut conf = AndaConfig::new();
    let dep = Dependency { depth: 1, name: "libA".to_string(), version: "1.0.0".to_string() };
    let r = gen_spec(&mut conf, &dep, "rust2rpm said nothing useful\n".to_string());
    assert_eq!(r, Err(PipelineError::NoSpecsGenerated));
    assert_eq!(conf.project.len(), 0);
}

#[test]
fn add_replaces_existing_key() {
    let mut conf = AndaConfig::new();
    conf.add(&"libA".to_string(), "one.spec".to_string(), vec![]);
    conf.add(&"libB".to_string(), "two.spec".to_string(), vec![]);
    conf.add(&"libA".to_string(), "three.spec".to_string(), vec![]);
    assert_eq!(conf.project.len(), 2);
    assert_eq!(conf.project[0].0, "libA");
    assert_eq!(conf.project[0].1.rpmbuild.spec_path, "libA/three.spec");
    assert_eq!(conf.project[1].0, "libB");
}

#[test]
fn hcl_exact_text_one_entry() {
    let mut conf = AndaConfig::new();
    conf.add(&"foo".to_string(), "foo.spec".to_string(), vec![]);
    let expected = "project \"foo\" {\n  rpmbuild {\n    spec       = \"foo/foo.spec\"\n    package    = \"rust-foo\"\n    build_deps = []\n  }\n}\n";
    assert_eq!(conf.to_hcl(), expected);
}

#[test]
fn hcl_lists_build_deps() {
    let mut conf = AndaConfig::new();
    conf.add(
        &"foo".to_string(),
        "foo.spec".to_string(),
        vec!["a".to_string(), "b".to_string()],
    );
    let text = conf.to_hcl();
    assert!(text.contains("build_deps = [\"a\", \"b\"]"));
}

#[test]
fn entries_follow_their_key() {
    // every emitted entry derives its descriptor from its own key
    let mut conf = AndaConfig::new();
    conf.add(&"libA".to_string(), "a.spec".to_string(), vec![]);
    conf.add(&"libB".to_string(), "b.spec".to_string(), vec![]);
    for (name, project) in &conf.project {
        assert_eq!(project.rpmbuild.package, format!("rust-{}", name));
        assert!(project.rpmbuild.spec_path.starts_with(&format!("{}/", name)));
    }
}

fn run_pipeline(text: &str, packaged: Vec<bool>, gen_outputs: &[&str]) -> Result<String, PipelineError> {
    let cands = parse_dep_tree(text)?;
    let deps = build_dep_list(cands, &packaged);
    let mut conf = AndaConfig::new();
    let n = process_count(&deps);
    for i in 0..n {
        gen_spec(&mut conf, &deps[i], gen_outputs[i].to_string())?;
    }
    Ok(conf.to_hcl())
}

#[test]
fn pipeline_twice_same_output() {
    let text = "0root v0.1.0\n1libA v1.0.0\n2libB v2.0.0\n";
    let packaged = vec![false, false, false];
    let outs = [
        "Generated: rust-libB.spec\n",
        "Generated: rust-libA.spec\n",
        "Generated: rust-root.spec\n",
    ];
    let one = run_pipeline(text, packaged.clone(), &outs).unwrap();
    let two = run_pipeline(text, packaged, &outs).unwrap();
    assert_eq!(one, two);
    assert!(!one.is_empty());
}

#[test]
fn root_only_tree() {
    let text = "0root v0.1.0\n";
    let cands = parse_dep_tree(text).unwrap();
    assert_eq!(cands.len(), 1);
    let deps = build_dep_list(cands, &vec![false]);
    assert_eq!(process_count(&deps), 1);
    let hcl = run_pipeline(text, vec![false], &["Generated: rust-root.spec\n"]).unwrap();
    assert!(hcl.contains("project \"root\""));
    assert_eq!(hcl.matches("project ").count(), 1);
}

#[test]
fn everything_packaged_leaves_only_root() {
    let text = "0root v0.1.0\n1libA v1.0.0\n2libB v2.0.0\n";
    // the probe finds every transitive dependency packaged; the root is kept
    let packaged = vec![false, true, true];
    let hcl = run_pipeline(text, packaged, &["Generated: rust-root.spec\n"]).unwrap();
    assert!(hcl.contains("project \"root\""));
    assert_eq!(hcl.matches("project ").count(), 1);
}

#[test]
fn error_messages() {
    assert_eq!(PipelineError::NoSpecsGenerated.message(), "No specs generated");
    assert_eq!(PipelineError::NoDependencies.message(), "No dependencies found");
    assert_eq!(PipelineError::DepthTooLarge.message(), "Dependency depth too large");
}

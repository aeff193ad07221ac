use spec_diff::parse::registry::{all_frameworks, FrameworkDef};
use spec_diff::scanning::{inheritance_globs, listing_globs, registry_from, scan_frameworks, scan_targets};

fn framework(name: &str) -> FrameworkDef {
    all_frameworks().into_iter().find(|f| f.name == name).expect("framework")
}

fn pair(path: &str, name: &str) -> (String, String) {
    (path.to_string(), name.to_string())
}

#[test]
fn forced_framework_alone_takes_part() {
    let fws = scan_frameworks(all_frameworks(), Some("rspec"));
    assert_eq!(fws.len(), 1);
    assert_eq!(fws[0].name, "rspec");
    assert!(scan_frameworks(all_frameworks(), Some("no_such_framework")).is_empty());
}

#[test]
fn frameworks_without_shared_or_inheritance_stay_out() {
    let names: Vec<String> = scan_frameworks(all_frameworks(), None).into_iter().map(|f| f.name).collect();
    assert!(names.contains(&"rspec".to_string()));
    assert!(names.contains(&"pytest".to_string()));
    for fw in all_frameworks() {
        let takes_part = fw.shared.as_ref().is_some_and(|s| !s.definition.is_empty())
            || fw.inheritance.as_ref().is_some_and(|i| i.enabled);
        assert_eq!(names.contains(&fw.name), takes_part, "{}", fw.name);
    }
}

#[test]
fn rspec_lists_its_definition_globs() {
    let fw = framework("rspec");
    let expected: Vec<String> = fw.shared.as_ref().expect("shared").definition_globs.clone();
    assert_eq!(listing_globs(&fw), expected);
    assert!(inheritance_globs(&vec![framework("rspec")]).is_empty());
}

#[test]
fn scan_targets_are_sorted_and_unique() {
    let requests = vec![(framework("rspec"), vec!["spec/support/b.rb".to_string(), "spec/support/a.rb".to_string()])];
    let paths = vec![
        "spec/models/user_spec.rb".to_string(),
        "spec/support/a.rb".to_string(),
        "lib/tool.py".to_string(),
        "spec/support/a.rb".to_string(),
    ];
    let targets = scan_targets(&requests, &paths);
    assert_eq!(
        targets,
        vec![pair("spec/models/user_spec.rb", "rspec"), pair("spec/support/a.rb", "rspec"), pair("spec/support/b.rb", "rspec")]
    );
}

#[test]
fn scan_targets_order_paths_before_framework_names() {
    let requests = vec![(framework("rspec"), vec!["x.rb".to_string()]), (framework("minitest"), vec!["x.rb".to_string(), "a.rb".to_string()])];
    let targets = scan_targets(&requests, &vec![]);
    assert_eq!(targets, vec![pair("a.rb", "minitest"), pair("x.rb", "minitest"), pair("x.rb", "rspec")]);
}

#[test]
fn registry_from_scans_readable_targets() {
    let requests = vec![(framework("rspec"), vec![])];
    let targets = vec![pair("spec/support/shared.rb", "rspec"), pair("spec/support/gone.rb", "rspec")];
    let contents = vec![Some("RSpec.shared_examples \"a thing\" do\n  it \"works\" do\n  end\nend\n".to_string()), None];
    let registry = registry_from(&requests, &targets, &contents);
    assert_eq!(registry.len(), 1);
    assert_eq!(registry.get("a thing").expect("found").len(), 1);
}

#[test]
fn path_union_sorts_and_merges() {
    let a = vec!["spec/b_spec.rb".to_string(), "spec/a_spec.rb".to_string(), "spec/b_spec.rb".to_string()];
    let b = vec!["lib/z.rb".to_string(), "spec/a_spec.rb".to_string()];
    assert_eq!(
        spec_diff::scanning::path_union(&a, &b),
        vec!["lib/z.rb".to_string(), "spec/a_spec.rb".to_string(), "spec/b_spec.rb".to_string()]
    );
    assert_eq!(
        spec_diff::scanning::path_union(&vec!["ab".to_string(), "a".to_string(), "B".to_string()], &vec![]),
        vec!["B".to_string(), "a".to_string(), "ab".to_string()]
    );
}

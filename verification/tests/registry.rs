use spec_diff::parse::registry::{all_frameworks, frameworks_for_file};


    #[test]
    fn all_framework_tomls_deserialize() {
        let frameworks = all_frameworks();
        assert!(!frameworks.is_empty(), "no frameworks loaded");
        for fw in frameworks {
            assert!(!fw.name.is_empty(), "framework has empty name");
            assert!(!fw.language.is_empty(), "framework {} has empty language", fw.name);
        }
    }

    #[test]
    fn rspec_framework_loads() {
        let fw = all_frameworks().into_iter().find(|f| f.name == "rspec");
        assert!(fw.is_some(), "rspec framework not found");
        let fw = fw.expect("checked above");
        assert_eq!(fw.language, "ruby");
        assert!(!fw.group.is_empty());
        assert!(!fw.spec.is_empty());
        assert!(fw.shared.is_some());
    }

    #[test]
    fn rust_builtin_framework_loads() {
        let fw = all_frameworks().into_iter().find(|f| f.name == "rust_builtin");
        assert!(fw.is_some(), "rust_builtin framework not found");
        let fw = fw.expect("checked above");
        assert_eq!(fw.language, "rust");
        assert!(!fw.marker.is_empty());
    }

    #[test]
    fn frameworks_for_ruby_file() {
        let matches = frameworks_for_file("spec/models/user_spec.rb");
        assert!(matches.iter().any(|f| f.name == "rspec"));
    }

    #[test]
    fn frameworks_for_rust_file() {
        let matches = frameworks_for_file("src/lib.rs");
        assert!(matches.iter().any(|f| f.name == "rust_builtin"));
    }

#[test]
fn rspec_table_holds_its_groups_specs_and_shared_forms() {
    let fw = all_frameworks().into_iter().find(|f| f.name == "rspec").expect("rspec");
    assert_eq!(fw.group.len(), 2);
    assert_eq!(fw.group[0].method_names, vec!["describe", "context", "feature"]);
    assert_eq!(fw.group[1].name_source_type.as_deref(), Some("constant"));
    assert_eq!(fw.spec.len(), 2);
    assert_eq!(fw.spec[0].method_names, vec!["it", "specify", "example"]);
    assert!(fw.spec[0].allow_anonymous);
    assert_eq!(fw.spec[1].method_names, vec!["scenario"]);
    let shared = fw.shared.expect("shared");
    assert_eq!(shared.definition[0].method_names, vec!["shared_examples", "shared_examples_for", "shared_context"]);
    assert_eq!(shared.inclusion[1].nested_name_template.as_deref(), Some("behaves like {name}"));
    let pg = fw.path_grouping.expect("path grouping");
    assert_eq!(pg.strip_prefixes, vec!["spec/"]);
    assert_eq!(pg.strip_suffixes, vec!["_spec"]);
}

#[test]
fn php_files_go_to_phpunit_then_pest_in_full() {
    let fws = frameworks_for_file("tests/UserTest.php");
    assert_eq!(fws.len(), 2);
    assert_eq!(fws[0].name, "phpunit");
    assert_eq!(fws[0].marker[0].pattern.as_deref(), Some("Test$"));
    assert_eq!(fws[0].marker[1].pattern.as_deref(), Some("^test"));
    assert_eq!(fws[1].name, "pest");
    assert_eq!(fws[1].spec[0].method_names, vec!["test", "it"]);
    assert_eq!(fws[1].parameterized[0].method_names, vec!["with"]);
}

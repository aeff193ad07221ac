use spec_diff::diff::types::{DiffKind, DiffNode, FileDiff, Stats};
use spec_diff::diff::{diff_spec_nodes, filter_file_diffs};
use spec_diff::output::truncate::truncate_unchanged_runs;
use spec_diff::output::{format_compact, format_tree, TreeOptions};
use spec_diff::parse::engine::{matches_pattern, normalize_name, parse_file};
use spec_diff::parse::registry::{all_frameworks, frameworks_for_file, normalize_file_path};
use spec_diff::parse::shared::{type_registration_names, SharedExampleRegistry};
use spec_diff::parse::{SpecKind, SpecNode};
use spec_diff::pipeline::{changed_files_need_shared_scan, diff_contents, file_diff_of, select_framework, FileContents};
use spec_diff::tui::{build_tui_lines, layout, next_section, prev_section, Key, RenderOptions, ViewState};
use spec_diff::vcs::{StubVcs, Vcs};

fn node(name: &str, kind: DiffKind, children: Vec<DiffNode>) -> DiffNode {
    DiffNode { name: name.into(), kind, old_name: None, param_cases: None, old_param_cases: None, children }
}

fn framework(name: &str) -> spec_diff::parse::registry::FrameworkDef {
    all_frameworks().into_iter().find(|f| f.name == name).expect("framework")
}

#[test]
fn filter_keeps_only_matching_descendants() {
    let diffs = vec![FileDiff {
        path: "models::user".into(),
        nodes: vec![node(
            "validations",
            DiffKind::Modified,
            vec![node("validates Email", DiffKind::Added, vec![]), node("requires password", DiffKind::Unchanged, vec![])],
        )],
    }];
    let kept = filter_file_diffs(diffs, "EMAIL");
    assert_eq!(kept.len(), 1);
    assert_eq!(kept[0].nodes.len(), 1);
    assert_eq!(kept[0].nodes[0].name, "validations");
    assert_eq!(kept[0].nodes[0].children.len(), 1);
    assert_eq!(kept[0].nodes[0].children[0].name, "validates Email");
}

#[test]
fn filter_drops_files_without_match() {
    let diffs = vec![FileDiff { path: "a".into(), nodes: vec![node("x", DiffKind::Added, vec![])] }];
    assert!(filter_file_diffs(diffs, "nothing").is_empty());
}

#[test]
fn truncation_keeps_every_changed_line() {
    let mut lines: Vec<(bool, u32)> = (0..30).map(|i| (i % 9 == 0, i)).collect();
    let changed: Vec<u32> = lines.iter().filter(|l| l.0).map(|l| l.1).collect();
    truncate_unchanged_runs(&mut lines, 3, 2, |l| !l.0, |h| (false, 1000 + h as u32));
    for c in changed {
        assert!(lines.iter().any(|l| l.0 && l.1 == c), "changed line {c} kept");
    }
    assert_eq!(lines.iter().filter(|l| l.1 == 1003).count(), 3, "each run of eight hides three lines");
}

#[test]
fn deleted_group_counts_each_leaf_removed() {
    let base = vec![SpecNode::group("g", 1, vec![SpecNode::spec("a", 2), SpecNode::group("h", 3, vec![SpecNode::spec("b", 4)])])];
    let diff = diff_spec_nodes(&base, &vec![]);
    let stats = Stats::from_file_diffs(&[FileDiff { path: "p".into(), nodes: diff }]);
    assert_eq!(stats.removed, 2);
    assert_eq!(stats.added, 0);
    assert!(!stats.is_empty());
    assert!(Stats::default().is_empty());
}

#[test]
fn identical_forests_diff_unchanged() {
    let nodes = vec![SpecNode::group("g", 1, vec![SpecNode::spec("a", 2)])];
    let diff = diff_spec_nodes(&nodes, &nodes);
    assert_eq!(diff.len(), 1);
    assert_eq!(diff[0].kind, DiffKind::Unchanged);
    assert!(!diff[0].has_changes());
}

#[test]
fn tree_format_exact_text() {
    let diffs = vec![FileDiff { path: "models::user".into(), nodes: vec![node("creates", DiffKind::Added, vec![])] }];
    let out = format_tree(&diffs, TreeOptions { changed_only: false, color: false, full_context: true });
    assert_eq!(out, "specdiff  +1 \n\n  models::user\n+    creates\n");
    let colored = format_tree(&diffs, TreeOptions { changed_only: false, color: true, full_context: true });
    assert!(colored.contains("\x1b[32m+1\x1b[0m"));
}

#[test]
fn tree_format_param_suffix_and_rename() {
    let mut n = node("new name", DiffKind::Renamed, vec![]);
    n.old_name = Some("old name".into());
    n.param_cases = Some(3);
    n.old_param_cases = Some(12);
    let diffs = vec![FileDiff { path: "p".into(), nodes: vec![n] }];
    let out = format_tree(&diffs, TreeOptions { changed_only: false, color: false, full_context: true });
    assert!(out.contains("->   new name (was old name) [3 cases, was 12]"), "{out}");
}

#[test]
fn compact_format_exact_text() {
    let mut renamed = node("b2", DiffKind::Renamed, vec![]);
    renamed.old_name = Some("b1".into());
    let diffs = vec![FileDiff {
        path: "f".into(),
        nodes: vec![node("g", DiffKind::Modified, vec![node("a", DiffKind::Added, vec![]), renamed, node("c", DiffKind::Unchanged, vec![])])],
    }];
    assert_eq!(format_compact(&diffs), "+ f > g > a\n-> f > g > b2 (was b1)\n");
}

#[test]
fn sections_move_forward_and_back() {
    let offsets = [0usize, 5, 12];
    assert_eq!(next_section(0, &offsets), 5);
    assert_eq!(next_section(5, &offsets), 12);
    assert_eq!(next_section(12, &offsets), 12);
    assert_eq!(prev_section(12, &offsets), 5);
    assert_eq!(prev_section(3, &offsets), 0);
    assert_eq!(prev_section(0, &offsets), 0);
}

#[test]
fn keys_drive_the_view() {
    let mut v = ViewState { scroll: 0, section_offsets: vec![0, 4, 9], changed_only: false, quit: false, needs_redraw: false, max_scroll: 6 };
    v.handle_key(Key::Char('j'), false);
    assert_eq!(v.scroll, 4);
    assert!(v.needs_redraw);
    v.handle_key(Key::End, false);
    assert_eq!(v.scroll, 6, "End clamps to the last scroll position");
    v.handle_key(Key::PageUp, false);
    assert_eq!(v.scroll, 0);
    v.handle_key(Key::Char('c'), false);
    assert!(v.changed_only);
    assert!(!v.quit);
    v.handle_key(Key::Char('c'), true);
    assert!(v.quit, "Ctrl-C quits");
    assert!(v.changed_only, "Ctrl-C does not toggle");
}

#[test]
fn tui_lines_and_layout() {
    let diffs = vec![
        FileDiff { path: "a".into(), nodes: vec![node("x", DiffKind::Added, vec![])] },
        FileDiff { path: "b".into(), nodes: vec![node("y", DiffKind::Removed, vec![])] },
    ];
    let lines = build_tui_lines(&diffs, RenderOptions { changed_only: false, full_context: true });
    let texts: Vec<&str> = lines.iter().map(|l| l.text.as_str()).collect();
    assert_eq!(texts, vec!["  a", "+    x", "", "  b", "-    y", ""]);
    let r = layout(&lines, 4);
    assert_eq!(r.section_offsets, vec![0, 3]);
    assert_eq!(r.max_scroll, 2);
}

#[test]
fn register_then_get_gives_back_specs() {
    let mut reg = SharedExampleRegistry::default();
    assert!(reg.is_empty());
    reg.register("timestamps".into(), vec![SpecNode::spec("has created_at", 2)]);
    reg.register("timestamps".into(), vec![SpecNode::spec("has updated_at", 3)]);
    assert_eq!(reg.len(), 1);
    let specs = reg.get("timestamps").expect("registered");
    assert_eq!(specs.len(), 1);
    assert_eq!(specs[0].name, "has updated_at");
    assert!(reg.get("other").is_none());
}

#[test]
fn first_type_registration_wins() {
    let mut reg = SharedExampleRegistry::default();
    reg.register_type("Base".into(), vec![SpecNode::spec("first", 1)]);
    reg.register_type("Base".into(), vec![SpecNode::spec("second", 1)]);
    assert_eq!(reg.get_type("Base").expect("type")[0].name, "first");
    let resolved = reg.resolve_type("Base");
    assert_eq!(resolved.len(), 1);
    assert_eq!(resolved[0].name, "first");
    assert!(reg.resolve_type("Missing").is_empty());
    assert!(!reg.is_empty());
    assert_eq!(reg.len(), 0);
}

#[test]
fn resolve_type_follows_refs_without_looping() {
    let mut reg = SharedExampleRegistry::default();
    reg.register_type("A".into(), vec![SpecNode::spec("a", 1)]);
    reg.register_type("B".into(), vec![SpecNode::spec("b", 1)]);
    reg.set_type_refs("A".into(), vec!["B".into()]);
    reg.set_type_refs("B".into(), vec!["A".into()]);
    let names: Vec<String> = reg.resolve_type("A").into_iter().map(|n| n.name).collect();
    assert_eq!(names, vec!["b".to_string(), "a".to_string()]);
}

#[test]
fn registration_names_include_leaf() {
    assert_eq!(type_registration_names("Foo::Bar"), vec!["Foo::Bar".to_string(), "Bar".to_string()]);
    assert_eq!(type_registration_names("Plain"), vec!["Plain".to_string()]);
}

#[test]
fn stub_vcs_reports_missing_files() {
    let mut vcs = StubVcs::new();
    vcs.files.push(("spec/a_spec.rb".into(), "base".into(), "content".into()));
    vcs.changed.push("spec/a_spec.rb".into());
    assert_eq!(vcs.file_at_revision("spec/a_spec.rb", "base"), Ok("content".to_string()));
    assert_eq!(vcs.file_at_revision("spec/a_spec.rb", "HEAD"), Err("file not found: spec/a_spec.rb@HEAD".to_string()));
    assert_eq!(vcs.changed_files("x", "y"), Ok(vec!["spec/a_spec.rb".to_string()]));
    assert_eq!(vcs.merge_base("x", "y"), Ok("base".to_string()));
    assert_eq!(vcs.current_branch(), Ok("feature".to_string()));
    assert_eq!(vcs.files_matching("*"), Ok(vec![]));
    assert_eq!(vcs.default_head_rev(), "HEAD");
}

#[test]
fn file_paths_are_grouped() {
    assert_eq!(normalize_file_path("spec/models/user_spec.rb", &framework("rspec")), "models::user");
    assert_eq!(normalize_file_path("__tests__/user.test.js", &framework("jest")), "user");
    assert_eq!(normalize_file_path("src/parse/mod.rs", &framework("rust_builtin")), "parse::mod");
}

#[test]
fn camel_test_prefix_needs_upper_case_letter() {
    let py = framework("pytest");
    assert_eq!(normalize_name("TestUser", &py), "User");
    assert_eq!(normalize_name("Testuser", &py), "Testuser");
    assert_eq!(normalize_name("test_user_login", &py), "user login");
    assert_eq!(normalize_name("anything_goes", &framework("rspec")), "anything_goes");
}

#[test]
fn marker_patterns() {
    assert!(matches_pattern("TestUser", "^Test"));
    assert!(!matches_pattern("UserTest", "^Test"));
    assert!(matches_pattern("UserTest", "Test$"));
    assert!(matches_pattern("my_test_helper", "test"));
}

#[test]
fn frameworks_by_extension() {
    assert!(frameworks_for_file("README").is_empty());
    assert!(frameworks_for_file("src/lib.RS").is_empty());
    let php: Vec<String> = frameworks_for_file("tests/UserTest.php").into_iter().map(|f| f.name).collect();
    assert_eq!(php, vec!["phpunit".to_string(), "pest".to_string()]);
}

#[test]
fn forced_framework_is_chosen() {
    let chosen = select_framework(frameworks_for_file("tests/run.php"), Some("pest")).expect("pest");
    assert_eq!(chosen.name, "pest");
    assert!(select_framework(frameworks_for_file("tests/run.php"), Some("rspec")).is_none());
    assert_eq!(select_framework(frameworks_for_file("tests/run.php"), None).expect("first").name, "phpunit");
}

#[test]
fn pipeline_diffs_changed_files_only() {
    let same = "RSpec.describe User do\n  it \"works\" do\n  end\nend\n".to_string();
    let files = vec![
        FileContents { rel_path: "spec/models/user_spec.rb".into(), base: Some(same.clone()), head: Some(same) },
        FileContents {
            rel_path: "spec/models/post_spec.rb".into(),
            base: None,
            head: Some("RSpec.describe Post do\n  it \"saves\" do\n  end\nend\n".into()),
        },
    ];
    assert!(!changed_files_need_shared_scan(&files, None));
    let empty = SharedExampleRegistry::default();
    let diffs = diff_contents(&files, None, &empty, &empty);
    assert_eq!(diffs.len(), 1);
    assert_eq!(diffs[0].path, "models::post");
    assert_eq!(diffs[0].nodes[0].kind, DiffKind::Added);
}

#[test]
fn parse_lines_are_one_based() {
    let tree = parse_file("describe('A', () => {\n  it('b', () => {});\n});\n", "a.test.js", &framework("jest")).expect("parsed");
    assert_eq!(tree.root[0].line, 1);
    assert_eq!(tree.root[0].children[0].line, 2);
    assert_eq!(tree.root[0].children[0].kind, SpecKind::Spec);
    assert_eq!(tree.file_path, "a.test.js");
}

#[test]
fn unknown_language_parses_nothing() {
    let mut fw = framework("rspec");
    fw.language = "cobol".into();
    assert!(parse_file("describe 'x' do\nend\n", "x_spec.rb", &fw).is_none());
}

fn assert_well_formed(nodes: &[SpecNode]) {
    for n in nodes {
        assert!(n.line >= 1, "line of {}", n.name);
        if n.kind != SpecKind::Group {
            assert!(n.children.is_empty(), "children of {}", n.name);
        }
        if let Some(p) = &n.parameterized {
            assert!(p.case_count > 0, "cases of {}", n.name);
        }
        assert_well_formed(&n.children);
    }
}

#[test]
fn parsed_outline_is_well_formed() {
    let source = "describe User do\n  context 'when active' do\n    it 'is valid' do\n    end\n    [:a, :b].each do |x|\n      it \"handles #{x}\" do\n      end\n    end\n  end\n  describe 'empty' do\n  end\nend\n";
    let tree = parse_file(source, "spec/models/user_spec.rb", &framework("rspec")).expect("parsed");
    assert_well_formed(&tree.root);
    assert_eq!(tree.root[0].line, 1);
    assert_eq!(tree.root[0].children[0].line, 2);
    assert_eq!(tree.root[0].children[1].kind, SpecKind::Group);
    assert!(tree.root[0].children[1].children.is_empty());
}

#[test]
fn shared_scan_needs_a_marker_word() {
    let plain = FileContents { rel_path: "spec/a_spec.rb".into(), base: None, head: Some("describe A do\nend\n".into()) };
    assert!(!changed_files_need_shared_scan(&vec![plain], None));
    let marked = FileContents {
        rel_path: "spec/a_spec.rb".into(),
        base: None,
        head: Some("describe A do\n  it_behaves_like 'x'\nend\n".into()),
    };
    assert!(changed_files_need_shared_scan(&vec![marked], None));
}

#[test]
fn resolve_type_visits_shared_ancestor_once() {
    let mut reg = SharedExampleRegistry::default();
    for (name, spec) in [("A", "a"), ("B", "b"), ("C", "c"), ("D", "d")] {
        reg.register_type(name.into(), vec![SpecNode::spec(spec, 1)]);
    }
    reg.set_type_refs("A".into(), vec!["B".into(), "C".into()]);
    reg.set_type_refs("B".into(), vec!["D".into()]);
    reg.set_type_refs("C".into(), vec!["D".into()]);
    let names: Vec<String> = reg.resolve_type("A").into_iter().map(|n| n.name).collect();
    assert_eq!(names, vec!["d".to_string(), "b".to_string(), "c".to_string(), "a".to_string()]);
}

#[test]
fn file_diff_of_names_the_display_path() {
    let fw = framework("rspec");
    let base = vec![SpecNode::group("User", 1, vec![SpecNode::spec("is valid", 2)])];
    let head = vec![SpecNode::group("User", 1, vec![SpecNode::spec("is valid", 2), SpecNode::spec("has a name", 3)])];
    let d = file_diff_of("spec/models/user_spec.rb", &fw, &base, &head).expect("changed");
    assert_eq!(d.path, normalize_file_path("spec/models/user_spec.rb", &fw));
    assert_eq!(d.nodes.len(), 1);
    assert_eq!(d.nodes[0].kind, DiffKind::Modified);
    assert!(file_diff_of("spec/models/user_spec.rb", &fw, &base, &base).is_none());
    assert!(file_diff_of("spec/models/user_spec.rb", &fw, &vec![], &vec![]).is_none());
}

#[test]
fn close_leaf_names_are_renamed_not_removed_and_added() {
    let base = vec![SpecNode::spec("creates a new user", 1)];
    let head = vec![SpecNode::spec("creates a new admin user", 1)];
    let r = diff_spec_nodes(&base, &head);
    assert_eq!(r.len(), 1);
    assert_eq!(r[0].kind, DiffKind::Renamed);
    let far = vec![SpecNode::spec("deletes the account", 1)];
    let r = diff_spec_nodes(&base, &far);
    assert_eq!(r.len(), 2);
    assert_eq!(r[0].kind, DiffKind::Removed);
    assert_eq!(r[1].kind, DiffKind::Added);
}

#[test]
fn frameworks_for_file_by_extension() {
    let names = |p: &str| frameworks_for_file(p).into_iter().map(|f| f.name).collect::<Vec<String>>();
    assert_eq!(names("tests/FooTest.php"), vec!["phpunit".to_string(), "pest".to_string()]);
    assert_eq!(names("spec/a_spec.rb"), vec!["rspec".to_string(), "minitest".to_string()]);
    assert_eq!(names("src/App.test.tsx"), vec!["jest".to_string()]);
    assert!(names("Makefile").is_empty());
    assert!(names("notes.txt").is_empty());
}

#[test]
fn shared_scan_follows_the_chosen_framework() {
    let file = || FileContents {
        rel_path: "test/models/user_test.rb".into(),
        base: None,
        head: Some("class UserTest < Minitest::Test\n  include Helpers\nend\n".into()),
    };
    assert!(!changed_files_need_shared_scan(&vec![file()], None));
    assert!(changed_files_need_shared_scan(&vec![file()], Some("minitest")));
    assert!(!changed_files_need_shared_scan(&vec![file()], Some("pytest")));
}

#[test]
fn registration_names_split_at_the_last_separator() {
    assert_eq!(type_registration_names("Foo:::Bar"), vec!["Foo:::Bar".to_string(), "Bar".to_string()]);
    assert_eq!(type_registration_names("A::B::C"), vec!["A::B::C".to_string(), "C".to_string()]);
    assert_eq!(type_registration_names("Trailing::"), vec!["Trailing::".to_string(), "".to_string()]);
}

#[test]
fn empty_pattern_keeps_every_file_diff() {
    let diffs = vec![
        FileDiff { path: "spec/a_spec.rb".into(), nodes: vec![node("A", DiffKind::Added, vec![])] },
        FileDiff { path: "spec/b_spec.rb".into(), nodes: vec![node("B", DiffKind::Removed, vec![node("c", DiffKind::Removed, vec![])])] },
    ];
    let filtered = filter_file_diffs(diffs, "");
    assert_eq!(filtered.len(), 2);
    assert_eq!(filtered[0].path, "spec/a_spec.rb");
    assert_eq!(filtered[1].nodes[0].children[0].name, "c");
}

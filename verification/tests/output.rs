use spec_diff::diff::types::{DiffKind, DiffNode, FileDiff};
use spec_diff::output::{format_compact, format_tree, TreeOptions};


    fn opts_plain(changed_only: bool) -> TreeOptions {
        TreeOptions { changed_only, color: false, full_context: true }
    }

    fn opts_truncating() -> TreeOptions {
        TreeOptions { changed_only: false, color: false, full_context: false }
    }

    fn unchanged(name: &str) -> DiffNode {
        DiffNode {
            name: name.into(),
            kind: DiffKind::Unchanged,
            old_name: None,
            param_cases: None,
            old_param_cases: None,
            children: vec![],
        }
    }

    fn added(name: &str) -> DiffNode {
        DiffNode {
            name: name.into(),
            kind: DiffKind::Added,
            old_name: None,
            param_cases: None,
            old_param_cases: None,
            children: vec![],
        }
    }

    fn sample_file_diffs() -> Vec<FileDiff> {
        vec![FileDiff {
            path: "models::user".into(),
            nodes: vec![
                DiffNode {
                    name: "validations".into(),
                    kind: DiffKind::Modified,
                    old_name: None,
                    param_cases: None,
                    old_param_cases: None,
                    children: vec![
                        unchanged("validates email"),
                        added("validates uniqueness"),
                    ],
                },
                DiffNode {
                    name: "associations".into(),
                    kind: DiffKind::Unchanged,
                    old_name: None,
                    param_cases: None,
                    old_param_cases: None,
                    children: vec![unchanged("has many posts")],
                },
            ],
        }]
    }

    #[test]
    fn tree_format_shows_file_path() {
        let output = format_tree(&sample_file_diffs(), opts_plain(false));
        assert!(output.contains("models::user"), "should show file path header");
        assert!(output.contains("validations"), "should show group");
        assert!(output.contains("validates uniqueness"), "should show added spec");
    }

    #[test]
    fn tree_format_shows_stats_header() {
        let output = format_tree(&sample_file_diffs(), opts_plain(false));
        assert!(output.contains("specdiff"), "should show header");
        assert!(output.contains("+1"), "should show added count (leaf specs only)");
    }

    #[test]
    fn tree_format_changed_only() {
        let output = format_tree(&sample_file_diffs(), opts_plain(true));
        assert!(output.contains("models::user"));
        assert!(output.contains("validations"));
        assert!(output.contains("validates uniqueness"));
        assert!(!output.contains("associations"));
    }

    #[test]
    fn compact_format_includes_file_path() {
        let output = format_compact(&sample_file_diffs());
        assert!(output.contains("models::user > validations > validates uniqueness"));
    }

        #[test]
    fn tree_format_no_color_has_no_escape_codes() {
        let output = format_tree(&sample_file_diffs(), opts_plain(false));
        assert!(!output.contains("\x1b["), "no-color output should not contain ANSI codes");
    }

    #[test]
    fn tree_format_empty_diffs_no_stats() {
        let output = format_tree(&[], opts_plain(false));
        assert!(!output.contains("+0"), "empty diffs should not show +0");
        assert!(!output.contains("-0"), "empty diffs should not show -0");
    }

    #[test]
    fn renamed_spec_with_param_delta_never_has_two_arrows_on_one_line() {
        let diffs = vec![FileDiff {
            path: "m::u".into(),
            nodes: vec![DiffNode {
                name: "validates shape".into(),
                kind: DiffKind::Renamed,
                old_name: Some("validates".into()),
                param_cases: Some(5),
                old_param_cases: Some(3),
                children: vec![],
            }],
        }];
        let output = format_tree(&diffs, opts_plain(false));
        let rename_line = output
            .lines()
            .find(|l| l.contains("validates shape"))
            .expect("rename line");
        assert_eq!(
            rename_line.matches("->").count(),
            1,
            "rename line must contain exactly one `->` (from the rename prefix), got: {rename_line}"
        );
        assert!(rename_line.contains("[5 cases, was 3]"));
    }

    #[test]
    fn param_suffix_prose_was_only() {
        let diffs = vec![FileDiff {
            path: "m::u".into(),
            nodes: vec![DiffNode {
                name: "lost parameters".into(),
                kind: DiffKind::Modified,
                old_name: None,
                param_cases: None,
                old_param_cases: Some(4),
                children: vec![],
            }],
        }];
        let output = format_tree(&diffs, opts_plain(false));
        assert!(output.contains("[was 4 cases]"), "unparameterized spec should show prior count");
    }

    #[test]
    fn tree_format_no_changes_shows_message() {
        let diffs = vec![FileDiff {
            path: "models::user".into(),
            nodes: vec![DiffNode {
                name: "works".into(),
                kind: DiffKind::Unchanged,
                old_name: None,
                param_cases: None,
                old_param_cases: None,
                children: vec![],
            }],
        }];
        let output = format_tree(&diffs, opts_plain(false));
        assert!(!output.contains("+0"), "all-unchanged should not show +0");
    }

    fn diffs_with_long_unchanged_run() -> Vec<FileDiff> {
        let mut children: Vec<DiffNode> = (0..10).map(|i| unchanged(&format!("ctx {i}"))).collect();
        children.push(added("new spec"));
        vec![FileDiff {
            path: "m::u".into(),
            nodes: vec![DiffNode {
                name: "group".into(),
                kind: DiffKind::Modified,
                old_name: None,
                param_cases: None,
                old_param_cases: None,
                children,
            }],
        }]
    }

    #[test]
    fn truncation_default_collapses_long_unchanged_run() {
        let output = format_tree(&diffs_with_long_unchanged_run(), opts_truncating());
        assert!(output.contains("ctx 0"), "first head line kept");
        assert!(output.contains("ctx 1"));
        assert!(output.contains("ctx 2"));
        assert!(!output.contains("ctx 3"), "middle of run dropped");
        assert!(!output.contains("ctx 4"));
        assert!(!output.contains("ctx 5"));
        assert!(!output.contains("ctx 6"));
        assert!(!output.contains("ctx 7"));
        assert!(output.contains("ctx 8"), "tail line kept");
        assert!(output.contains("ctx 9"));
        assert!(output.contains("... (5 hidden lines)"), "ellipsis line with count");
        assert!(output.contains("new spec"), "changed line still present");
        let new_spec_line = output
            .lines()
            .find(|l| l.contains("new spec"))
            .expect("new spec line");
        assert!(new_spec_line.trim_start().starts_with('+'), "new spec rendered as Added");
    }

    #[test]
    fn truncation_full_context_flag_disables_truncation() {
        let opts = TreeOptions { changed_only: false, color: false, full_context: true };
        let output = format_tree(&diffs_with_long_unchanged_run(), opts);
        for i in 0..10 {
            assert!(output.contains(&format!("ctx {i}")), "--full-context shows ctx {i}");
        }
        assert!(!output.contains("hidden line"), "no ellipsis with --full-context");
    }

    #[test]
    fn truncation_changed_only_drops_all_unchanged() {
        let opts = TreeOptions { changed_only: true, color: false, full_context: false };
        let output = format_tree(&diffs_with_long_unchanged_run(), opts);
        for i in 0..10 {
            assert!(!output.contains(&format!("ctx {i}")), "--changed-only drops ctx {i}");
        }
        assert!(!output.contains("hidden line"), "no ellipsis under --changed-only");
        assert!(output.contains("new spec"));
    }

    #[test]
    fn truncation_short_run_stays_intact() {
        let mut children: Vec<DiffNode> = (0..5).map(|i| unchanged(&format!("ctx {i}"))).collect();
        children.push(added("new"));
        let diffs = vec![FileDiff {
            path: "m::u".into(),
            nodes: vec![DiffNode {
                name: "group".into(),
                kind: DiffKind::Modified,
                old_name: None,
                param_cases: None,
                old_param_cases: None,
                children,
            }],
        }];
        let output = format_tree(&diffs, opts_truncating());
        for i in 0..5 {
            assert!(output.contains(&format!("ctx {i}")), "short run keeps ctx {i}");
        }
        assert!(!output.contains("hidden line"), "no ellipsis below threshold");
    }

    #[test]
    fn truncation_ellipsis_smallest_run_hides_two() {
        let mut children: Vec<DiffNode> = (0..7).map(|i| unchanged(&format!("ctx {i}"))).collect();
        children.push(added("new"));
        let diffs = vec![FileDiff {
            path: "m::u".into(),
            nodes: vec![DiffNode {
                name: "group".into(),
                kind: DiffKind::Modified,
                old_name: None,
                param_cases: None,
                old_param_cases: None,
                children,
            }],
        }];
        let output = format_tree(&diffs, opts_truncating());
        assert!(output.contains("... (2 hidden lines)"), "plural label for 2");
    }

    #[test]
    fn truncation_preserves_file_headers_across_files() {
        let make_file = |path: &str| FileDiff {
            path: path.into(),
            nodes: vec![DiffNode {
                name: "group".into(),
                kind: DiffKind::Modified,
                old_name: None,
                param_cases: None,
                old_param_cases: None,
                children: {
                    let mut c: Vec<DiffNode> = (0..8).map(|i| unchanged(&format!("ctx {i}"))).collect();
                    c.push(added("new"));
                    c
                },
            }],
        };
        let diffs = vec![make_file("file_a"), make_file("file_b")];
        let output = format_tree(&diffs, opts_truncating());
        assert!(output.contains("file_a"), "first file header preserved");
        assert!(output.contains("file_b"), "second file header preserved");
        assert_eq!(
            output.matches("hidden line").count(),
            2,
            "one ellipsis per file run"
        );
    }

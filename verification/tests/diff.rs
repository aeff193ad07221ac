use spec_diff::diff::types::{DiffKind, DiffNode, FileDiff, Stats};
use spec_diff::diff::{diff_spec_nodes, filter_file_diffs, name_similarity};
use spec_diff::parse::{SpecKind, SpecNode};

fn similarity(a: &str, b: &str) -> f64 {
    let (n, d) = name_similarity(&a.to_string(), &b.to_string());
    n as f64 / d as f64
}


    #[test]
    fn diff_identical_trees() {
        let nodes = vec![
            SpecNode::spec("validates email", 1),
            SpecNode::spec("requires password", 2),
        ];
        let diff = diff_spec_nodes(&nodes, &nodes);
        assert_eq!(diff.len(), 2);
        assert!(diff.iter().all(|d| d.kind == DiffKind::Unchanged));
    }

    #[test]
    fn diff_added_spec() {
        let base = vec![SpecNode::spec("validates email", 1)];
        let head = vec![
            SpecNode::spec("validates email", 1),
            SpecNode::spec("validates uniqueness", 2),
        ];
        let diff = diff_spec_nodes(&base, &head);
        assert_eq!(diff.len(), 2);
        assert_eq!(diff[0].kind, DiffKind::Unchanged);
        assert_eq!(diff[1].kind, DiffKind::Added);
        assert_eq!(diff[1].name, "validates uniqueness");
    }

    #[test]
    fn diff_removed_spec() {
        let base = vec![
            SpecNode::spec("validates email", 1),
            SpecNode::spec("requires password", 2),
        ];
        let head = vec![SpecNode::spec("validates email", 1)];
        let diff = diff_spec_nodes(&base, &head);
        assert_eq!(diff.len(), 2);
        assert_eq!(diff[0].kind, DiffKind::Unchanged);
        assert_eq!(diff[1].kind, DiffKind::Removed);
        assert_eq!(diff[1].name, "requires password");
    }

    #[test]
    fn diff_renamed_spec() {
        let base = vec![SpecNode::spec("validates password presence", 1)];
        let head = vec![SpecNode::spec("validates password length", 1)];
        let diff = diff_spec_nodes(&base, &head);
        assert_eq!(diff.len(), 1);
        assert_eq!(diff[0].kind, DiffKind::Renamed);
        assert_eq!(diff[0].name, "validates password length");
        assert_eq!(diff[0].old_name.as_deref(), Some("validates password presence"));
    }

    #[test]
    fn diff_modified_group() {
        let base = vec![SpecNode::group(
            "validations",
            1,
            vec![SpecNode::spec("validates email", 2)],
        )];
        let head = vec![SpecNode::group(
            "validations",
            1,
            vec![
                SpecNode::spec("validates email", 2),
                SpecNode::spec("validates uniqueness", 3),
            ],
        )];
        let diff = diff_spec_nodes(&base, &head);
        assert_eq!(diff.len(), 1);
        assert_eq!(diff[0].kind, DiffKind::Modified);
        assert_eq!(diff[0].name, "validations");
        assert_eq!(diff[0].children.len(), 2);
        assert_eq!(diff[0].children[0].kind, DiffKind::Unchanged);
        assert_eq!(diff[0].children[1].kind, DiffKind::Added);
    }

    #[test]
    fn diff_added_group() {
        let base: Vec<SpecNode> = vec![];
        let head = vec![SpecNode::group(
            "admin requests",
            1,
            vec![SpecNode::spec("returns 403", 2)],
        )];
        let diff = diff_spec_nodes(&base, &head);
        assert_eq!(diff.len(), 1);
        assert_eq!(diff[0].kind, DiffKind::Added);
        assert_eq!(diff[0].children.len(), 1);
        assert_eq!(diff[0].children[0].kind, DiffKind::Added);
    }

        #[test]
    fn name_similarity_identical() {
        assert_eq!(similarity("foo bar", "foo bar"), 1.0);
    }

    #[test]
    fn name_similarity_partial() {
        let sim = similarity("requires password", "validates password length");
        assert!(sim > 0.0);
        assert!(sim < 1.0);
    }

    #[test]
    fn name_similarity_empty() {
        assert_eq!(similarity("", "foo"), 0.0);
        assert_eq!(similarity("foo", ""), 0.0);
    }

    #[test]
    fn diff_all_new_specs() {
        let base: Vec<SpecNode> = vec![];
        let head = vec![
            SpecNode::spec("test one", 1),
            SpecNode::spec("test two", 2),
        ];
        let diff = diff_spec_nodes(&base, &head);
        assert_eq!(diff.len(), 2);
        assert!(diff.iter().all(|d| d.kind == DiffKind::Added));
    }

    #[test]
    fn diff_all_deleted_specs() {
        let base = vec![
            SpecNode::spec("test one", 1),
            SpecNode::spec("test two", 2),
        ];
        let head: Vec<SpecNode> = vec![];
        let diff = diff_spec_nodes(&base, &head);
        assert_eq!(diff.len(), 2);
        assert!(diff.iter().all(|d| d.kind == DiffKind::Removed));
    }

    #[test]
    fn diff_class_rename_preserved_children_detected_by_child_overlap() {
        // S5: group rename with zero name overlap but identical children.
        // With child_sim = 1.0, composite = 0.7 ≥ 0.5 → rename.
        let base = vec![SpecNode::group(
            "User",
            1,
            vec![
                SpecNode::spec("has email", 2),
                SpecNode::spec("has name", 3),
            ],
        )];
        let head = vec![SpecNode::group(
            "Account",
            1,
            vec![
                SpecNode::spec("has email", 2),
                SpecNode::spec("has name", 3),
            ],
        )];
        let diff = diff_spec_nodes(&base, &head);
        assert_eq!(diff.len(), 1, "class rename with identical children should match");
        assert_eq!(diff[0].kind, DiffKind::Renamed);
        assert_eq!(diff[0].name, "Account");
        assert_eq!(diff[0].old_name.as_deref(), Some("User"));
    }

    #[test]
    fn diff_elaborated_single_child_context_matches_as_rename() {
        // S1: the PR case — elaborated context name, 1 child each.
        // name_sim = 5/13 ≈ 0.385, child_sim = 1.0, score ≈ 0.77.
        let base = vec![SpecNode::group(
            "when user is an employee",
            1,
            vec![SpecNode::spec("permits access", 2)],
        )];
        let head = vec![SpecNode::group(
            "when user is an employee and flag is on for the record's agency",
            1,
            vec![SpecNode::spec("permits access", 2)],
        )];
        let diff = diff_spec_nodes(&base, &head);
        assert_eq!(diff.len(), 1);
        assert_eq!(diff[0].kind, DiffKind::Renamed);
        assert!(diff[0].old_name.as_deref().unwrap().starts_with("when user is an employee"));
    }

    #[test]
    fn diff_synonym_rename_multi_child() {
        // S2: different words, identical children.
        let base = vec![SpecNode::group(
            "when logged in",
            1,
            vec![
                SpecNode::spec("shows dashboard", 2),
                SpecNode::spec("allows edit", 3),
            ],
        )];
        let head = vec![SpecNode::group(
            "when authenticated",
            1,
            vec![
                SpecNode::spec("shows dashboard", 2),
                SpecNode::spec("allows edit", 3),
            ],
        )];
        let diff = diff_spec_nodes(&base, &head);
        assert_eq!(diff.len(), 1);
        assert_eq!(diff[0].kind, DiffKind::Renamed);
        assert_eq!(diff[0].name, "when authenticated");
        assert_eq!(diff[0].old_name.as_deref(), Some("when logged in"));
        assert_eq!(diff[0].children.len(), 2);
        assert!(diff[0].children.iter().all(|d| d.kind == DiffKind::Unchanged));
    }

    #[test]
    fn diff_rename_with_partial_child_retention() {
        // S6: one child retained, one replaced — borderline score of exactly 0.5.
        let base = vec![SpecNode::group(
            "when X",
            1,
            vec![
                SpecNode::spec("alpha", 2),
                SpecNode::spec("beta", 3),
            ],
        )];
        let head = vec![SpecNode::group(
            "when Y",
            1,
            vec![
                SpecNode::spec("alpha", 2),
                SpecNode::spec("gamma", 4),
            ],
        )];
        let diff = diff_spec_nodes(&base, &head);
        assert_eq!(diff.len(), 1);
        assert_eq!(diff[0].kind, DiffKind::Renamed);
    }

    #[test]
    fn diff_no_child_overlap_does_not_match_as_rename() {
        // S7: shared "when" in names but zero child overlap → remove+add.
        let base = vec![SpecNode::group(
            "when X",
            1,
            vec![
                SpecNode::spec("alpha", 2),
                SpecNode::spec("beta", 3),
            ],
        )];
        let head = vec![SpecNode::group(
            "when Y",
            1,
            vec![
                SpecNode::spec("phi", 2),
                SpecNode::spec("psi", 3),
            ],
        )];
        let diff = diff_spec_nodes(&base, &head);
        assert_eq!(diff.len(), 2, "disjoint children and weak name must not match");
        assert!(diff.iter().any(|d| d.kind == DiffKind::Removed));
        assert!(diff.iter().any(|d| d.kind == DiffKind::Added));
    }

    #[test]
    fn diff_ambiguous_rename_picks_highest_scoring() {
        // S9: two candidates score close; sort-by-score picks the higher one
        // (typo fix beats synonym), the other becomes Added.
        let base = vec![SpecNode::group(
            "when validating email",
            1,
            vec![SpecNode::spec("rejects invalid", 2)],
        )];
        let head = vec![
            SpecNode::group(
                "when verifying email",
                1,
                vec![SpecNode::spec("rejects invalid", 2)],
            ),
            SpecNode::group(
                "when validating the email",
                2,
                vec![SpecNode::spec("rejects invalid", 3)],
            ),
        ];
        let diff = diff_spec_nodes(&base, &head);
        let renamed = diff.iter().find(|d| d.kind == DiffKind::Renamed).expect("rename");
        assert_eq!(renamed.name, "when validating the email");
        assert_eq!(renamed.old_name.as_deref(), Some("when validating email"));
        let added = diff.iter().find(|d| d.kind == DiffKind::Added).expect("add");
        assert_eq!(added.name, "when verifying email");
    }

    #[test]
    fn diff_positional_tiebreak_pairs_by_index() {
        // S11: all four pairs score identically; positional proximity pairs
        // base[0]→head[0] and base[1]→head[1] rather than crossing.
        let base = vec![
            SpecNode::group("GET /foo", 1, vec![SpecNode::spec("returns 200", 2)]),
            SpecNode::group("GET /bar", 3, vec![SpecNode::spec("returns 200", 4)]),
        ];
        let head = vec![
            SpecNode::group("GET /foos", 1, vec![SpecNode::spec("returns 200", 2)]),
            SpecNode::group("GET /bars", 3, vec![SpecNode::spec("returns 200", 4)]),
        ];
        let diff = diff_spec_nodes(&base, &head);
        assert_eq!(diff.len(), 2);
        assert_eq!(diff[0].kind, DiffKind::Renamed);
        assert_eq!(diff[0].name, "GET /foos");
        assert_eq!(diff[0].old_name.as_deref(), Some("GET /foo"));
        assert_eq!(diff[1].kind, DiffKind::Renamed);
        assert_eq!(diff[1].name, "GET /bars");
        assert_eq!(diff[1].old_name.as_deref(), Some("GET /bar"));
    }

    #[test]
    fn diff_empty_groups_match_when_names_are_highly_similar() {
        // S12: both sides have no children; fall back to name_sim with the
        // higher empty-group threshold (0.7) to avoid stub-placeholder FPs.
        // "when the user is active" vs "when user is active" → sim = 4/5 = 0.8.
        let base = vec![SpecNode::group("when the user is active", 1, vec![])];
        let head = vec![SpecNode::group("when user is active", 1, vec![])];
        let diff = diff_spec_nodes(&base, &head);
        assert_eq!(diff.len(), 1);
        assert_eq!(diff[0].kind, DiffKind::Renamed);
        assert_eq!(diff[0].old_name.as_deref(), Some("when the user is active"));
    }

    #[test]
    fn budgeted_scoring_handles_large_fully_renamed_tree_without_hang() {
        // OPT-D+E smoke test. Build a shallow-but-wide tree (50 groups per
        // side, nothing matches by name, all children identical in name) and
        // verify it completes quickly and produces correct rename pairs. The
        // raw-Dice pre-filter short-circuits because child_sim = 1 clears
        // threshold without recursion.
        let make_tree = |prefix: &str| -> Vec<SpecNode> {
            (0..50)
                .map(|i| {
                    SpecNode::group(
                        &format!("{prefix}_{i}"),
                        i,
                        vec![
                            SpecNode::spec("common child one", i * 2),
                            SpecNode::spec("common child two", i * 2 + 1),
                        ],
                    )
                })
                .collect()
        };
        let base = make_tree("before");
        let head = make_tree("after");
        let start = std::time::Instant::now();
        let diff = diff_spec_nodes(&base, &head);
        let elapsed = start.elapsed();
        assert!(elapsed.as_millis() < 500, "50-wide diff should be fast, took {elapsed:?}");
        assert_eq!(diff.len(), 50, "all 50 pairs should match as rename");
        assert!(diff.iter().all(|d| d.kind == DiffKind::Renamed));
    }

    #[test]
    fn stats_count_removed_leaves_after_group_expansion() {
        // OBS-1: worst-case stats delta after #6. Deleting a describe with a
        // deeply-nested subtree of 5 leaf specs should now show removed=5
        // (was removed=1 before #6 collapsed Removed groups to single lines).
        let base = vec![SpecNode::group(
            "validations",
            1,
            vec![
                SpecNode::group(
                    "email",
                    2,
                    vec![
                        SpecNode::spec("rejects blank", 3),
                        SpecNode::spec("rejects malformed", 4),
                    ],
                ),
                SpecNode::group(
                    "password",
                    5,
                    vec![
                        SpecNode::spec("requires minimum length", 6),
                        SpecNode::spec("rejects common passwords", 7),
                        SpecNode::spec("must contain special char", 8),
                    ],
                ),
            ],
        )];
        let head: Vec<SpecNode> = vec![];
        let diff = diff_spec_nodes(&base, &head);
        let file_diff = FileDiff { path: "spec/models/user_spec.rb".into(), nodes: diff };
        let stats = Stats::from_file_diffs(&[file_diff]);
        assert_eq!(stats.removed, 5, "each leaf under a removed group counts individually");
        assert_eq!(stats.added, 0);
        assert_eq!(stats.renamed, 0);
    }

    #[test]
    fn diff_removed_group_expands_children_symmetric_with_added() {
        // #6: Removed groups now mirror Added — their full subtree is carried
        // as Removed children, so a deletion of `describe "X" { it "a"; it "b" }`
        // shows two leaf removals rather than collapsing to a single line.
        let base = vec![SpecNode::group(
            "X",
            1,
            vec![
                SpecNode::spec("a", 2),
                SpecNode::spec("b", 3),
            ],
        )];
        let head: Vec<SpecNode> = vec![];
        let diff = diff_spec_nodes(&base, &head);
        assert_eq!(diff.len(), 1);
        assert_eq!(diff[0].kind, DiffKind::Removed);
        assert_eq!(diff[0].children.len(), 2, "removed group should expand its children");
        assert!(diff[0].children.iter().all(|d| d.kind == DiffKind::Removed));
    }

    #[test]
    fn diff_empty_group_vs_populated_group_does_not_match() {
        // OBS-2: one side has children, other is empty. Even with maximum
        // name_sim, score = 0.3·name_sim + 0.7·0 = 0.3 — below the 0.5
        // threshold. Must render as remove+add.
        let base = vec![SpecNode::group("describe foo bar baz", 1, vec![])];
        let head = vec![SpecNode::group(
            "describe foo bar baz",
            1,
            vec![SpecNode::spec("a", 2), SpecNode::spec("b", 3)],
        )];
        // Differing names too, so exact match can't fire either.
        let head_renamed = vec![SpecNode::group(
            "describe foo bar qux",
            1,
            vec![SpecNode::spec("a", 2), SpecNode::spec("b", 3)],
        )];
        let diff = diff_spec_nodes(&base, &head_renamed);
        assert_eq!(diff.len(), 2, "empty-vs-full must not rename-match");
        assert!(diff.iter().any(|d| d.kind == DiffKind::Removed));
        assert!(diff.iter().any(|d| d.kind == DiffKind::Added));
        // Same-name case still hits find_match first (exact), making it Modified.
        let same_diff = diff_spec_nodes(&base, &head);
        assert_eq!(same_diff.len(), 1);
        assert_eq!(same_diff[0].kind, DiffKind::Modified);
    }

    #[test]
    fn diff_empty_groups_with_only_stop_word_overlap_do_not_match() {
        // Empty-group FP guard: "when foo bar" vs "when foo baz" scores 2/3
        // ≈ 0.667, below the 0.7 empty-group threshold.
        let base = vec![SpecNode::group("when foo bar", 1, vec![])];
        let head = vec![SpecNode::group("when foo baz", 1, vec![])];
        let diff = diff_spec_nodes(&base, &head);
        assert_eq!(diff.len(), 2);
        assert!(diff.iter().any(|d| d.kind == DiffKind::Removed));
        assert!(diff.iter().any(|d| d.kind == DiffKind::Added));
    }

    #[test]
    fn diff_bottom_up_parent_rename_with_mixed_children() {
        // Parent is renamed AND its children are a mix of exact-matched and
        // renamed specs. Bottom-up must count both kinds toward child overlap
        // so the parent itself matches.
        let base = vec![SpecNode::group(
            "X",
            1,
            vec![
                SpecNode::spec("validates email", 2),
                SpecNode::spec("validates password", 3),
            ],
        )];
        let head = vec![SpecNode::group(
            "Y",
            1,
            vec![
                SpecNode::spec("validates email", 2),            // exact match
                SpecNode::spec("validates password presence", 3), // renamed
            ],
        )];
        let diff = diff_spec_nodes(&base, &head);
        assert_eq!(diff.len(), 1);
        assert_eq!(diff[0].kind, DiffKind::Renamed);
        assert_eq!(diff[0].old_name.as_deref(), Some("X"));
        assert_eq!(diff[0].children.len(), 2);
        assert!(diff[0].children.iter().any(|d| d.kind == DiffKind::Unchanged && d.name == "validates email"));
        assert!(diff[0].children.iter().any(|d| {
            d.kind == DiffKind::Renamed
                && d.old_name.as_deref() == Some("validates password")
                && d.name == "validates password presence"
        }));
    }

    #[test]
    fn diff_bottom_up_matches_when_children_also_renamed() {
        // S13: inner spec renamed AND outer group renamed. Bottom-up recursion
        // matches the spec first, then parent child_sim sees the renamed pair
        // as overlap and the parent itself matches.
        let base = vec![SpecNode::group(
            "inner",
            1,
            vec![SpecNode::spec("a test", 2)],
        )];
        let head = vec![SpecNode::group(
            "renamed_inner",
            1,
            vec![SpecNode::spec("an elaborated a test", 2)],
        )];
        let diff = diff_spec_nodes(&base, &head);
        assert_eq!(diff.len(), 1);
        assert_eq!(diff[0].kind, DiffKind::Renamed);
        assert_eq!(diff[0].name, "renamed_inner");
        assert_eq!(diff[0].children.len(), 1);
        assert_eq!(diff[0].children[0].kind, DiffKind::Renamed);
        assert_eq!(diff[0].children[0].name, "an elaborated a test");
    }

    #[test]
    fn diff_exact_match_flags_param_case_count_change() {
        // Same name and kind but different dataset size should now surface as
        // Modified with old_param_cases populated, not silently Unchanged.
        let base = vec![SpecNode {
            name: "validates email".into(),
            line: 1,
            kind: SpecKind::Spec,
            children: vec![],
            parameterized: Some(spec_diff::parse::ParamInfo { case_count: 3, labels: vec![] }),
            name_is_dynamic: false,
        }];
        let head = vec![SpecNode {
            name: "validates email".into(),
            line: 1,
            kind: SpecKind::Spec,
            children: vec![],
            parameterized: Some(spec_diff::parse::ParamInfo { case_count: 5, labels: vec![] }),
            name_is_dynamic: false,
        }];
        let diff = diff_spec_nodes(&base, &head);
        assert_eq!(diff.len(), 1);
        assert_eq!(diff[0].kind, DiffKind::Modified);
        assert_eq!(diff[0].param_cases, Some(5));
        assert_eq!(diff[0].old_param_cases, Some(3));
    }

    #[test]
    fn diff_renamed_spec_tracks_param_case_change() {
        let base = vec![SpecNode {
            name: "validates password presence".into(),
            line: 1,
            kind: SpecKind::Spec,
            children: vec![],
            parameterized: Some(spec_diff::parse::ParamInfo { case_count: 2, labels: vec![] }),
            name_is_dynamic: false,
        }];
        let head = vec![SpecNode {
            name: "validates password length".into(),
            line: 1,
            kind: SpecKind::Spec,
            children: vec![],
            parameterized: Some(spec_diff::parse::ParamInfo { case_count: 4, labels: vec![] }),
            name_is_dynamic: false,
        }];
        let diff = diff_spec_nodes(&base, &head);
        assert_eq!(diff.len(), 1);
        assert_eq!(diff[0].kind, DiffKind::Renamed);
        assert_eq!(diff[0].param_cases, Some(4));
        assert_eq!(diff[0].old_param_cases, Some(2));
    }

    #[test]
    fn diff_unrelated_groups_with_identical_children_match_as_rename() {
        // S8-flavor: aggressive-stance acceptance. Unrelated names but identical
        // single child → matches as rename. Documented intentional tradeoff.
        let base = vec![SpecNode::group(
            "when the user is doing things that should be allowed",
            1,
            vec![SpecNode::spec("permits access", 2)],
        )];
        let head = vec![SpecNode::group(
            "when the thing is in the right state",
            1,
            vec![SpecNode::spec("permits access", 2)],
        )];
        let diff = diff_spec_nodes(&base, &head);
        assert_eq!(diff.len(), 1);
        assert_eq!(diff[0].kind, DiffKind::Renamed);
    }

    #[test]
    fn diff_empty_trees() {
        let base: Vec<SpecNode> = vec![];
        let head: Vec<SpecNode> = vec![];
        let diff = diff_spec_nodes(&base, &head);
        assert!(diff.is_empty());
    }

    #[test]
    fn filter_file_diffs_by_name() {
        let diffs = vec![
            FileDiff {
                path: "models::user".into(),
                nodes: vec![
                    DiffNode { name: "validates email".into(), kind: DiffKind::Added, old_name: None, param_cases: None, old_param_cases: None, children: vec![] },
                    DiffNode { name: "has many posts".into(), kind: DiffKind::Added, old_name: None, param_cases: None, old_param_cases: None, children: vec![] },
                ],
            },
            FileDiff {
                path: "models::post".into(),
                nodes: vec![
                    DiffNode { name: "belongs to user".into(), kind: DiffKind::Added, old_name: None, param_cases: None, old_param_cases: None, children: vec![] },
                ],
            },
        ];

        let filtered = filter_file_diffs(diffs, "email");
        assert_eq!(filtered.len(), 1);
        assert_eq!(filtered[0].path, "models::user");
        assert_eq!(filtered[0].nodes.len(), 1);
        assert_eq!(filtered[0].nodes[0].name, "validates email");
    }

    #[test]
    fn filter_file_diffs_by_path() {
        let diffs = vec![
            FileDiff {
                path: "models::user".into(),
                nodes: vec![
                    DiffNode { name: "test".into(), kind: DiffKind::Added, old_name: None, param_cases: None, old_param_cases: None, children: vec![] },
                ],
            },
            FileDiff {
                path: "models::post".into(),
                nodes: vec![
                    DiffNode { name: "test".into(), kind: DiffKind::Added, old_name: None, param_cases: None, old_param_cases: None, children: vec![] },
                ],
            },
        ];

        let filtered = filter_file_diffs(diffs, "post");
        assert_eq!(filtered.len(), 1);
        assert_eq!(filtered[0].path, "models::post");
    }

    #[test]
    fn filter_is_case_insensitive() {
        let diffs = vec![FileDiff {
            path: "models::user".into(),
            nodes: vec![
                DiffNode { name: "Validates Email".into(), kind: DiffKind::Added, old_name: None, param_cases: None, old_param_cases: None, children: vec![] },
            ],
        }];

        let filtered = filter_file_diffs(diffs, "email");
        assert_eq!(filtered.len(), 1);
    }

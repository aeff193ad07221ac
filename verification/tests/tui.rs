use spec_diff::diff::types::{DiffKind, DiffNode, FileDiff};
use spec_diff::tui::{build_tui_lines, RenderOptions};


    fn opts_truncating() -> RenderOptions {
        RenderOptions { changed_only: false, full_context: false }
    }

    fn unchanged(name: &str) -> DiffNode {
        DiffNode {
            name: name.into(),
            kind: DiffKind::Unchanged,
            old_name: None,
            param_cases: None,
            old_param_cases: None,
            children: vec![],
        }
    }

    fn added(name: &str) -> DiffNode {
        DiffNode {
            name: name.into(),
            kind: DiffKind::Added,
            old_name: None,
            param_cases: None,
            old_param_cases: None,
            children: vec![],
        }
    }

    fn diffs_with_long_run() -> Vec<FileDiff> {
        let mut children: Vec<DiffNode> = (0..10).map(|i| unchanged(&format!("ctx {i}"))).collect();
        children.push(added("new spec"));
        vec![FileDiff {
            path: "m::u".into(),
            nodes: vec![DiffNode {
                name: "group".into(),
                kind: DiffKind::Modified,
                old_name: None,
                param_cases: None,
                old_param_cases: None,
                children,
            }],
        }]
    }


    #[test]
    fn tui_truncates_long_unchanged_run() {
        let lines = build_tui_lines(&diffs_with_long_run(), opts_truncating());
        let rendered: Vec<String> = lines.iter().map(|l| l.text.clone()).collect();
        let joined = rendered.join("\n");
        assert!(joined.contains("ctx 0"));
        assert!(joined.contains("ctx 1"));
        assert!(joined.contains("ctx 2"));
        assert!(!joined.contains("ctx 4"), "middle of run is dropped");
        assert!(joined.contains("ctx 8"));
        assert!(joined.contains("ctx 9"));
        assert!(joined.contains("... (5 hidden lines)"));
        assert!(joined.contains("new spec"));
    }

    #[test]
    fn tui_full_context_preserves_all_lines() {
        let opts = RenderOptions { changed_only: false, full_context: true };
        let lines = build_tui_lines(&diffs_with_long_run(), opts);
        let joined: String = lines.iter().map(|l| l.text.clone()).collect::<Vec<_>>().join("\n");
        for i in 0..10 {
            assert!(joined.contains(&format!("ctx {i}")), "full-context keeps ctx {i}");
        }
        assert!(!joined.contains("hidden line"));
    }

    #[test]
    fn tui_changed_only_drops_unchanged_no_ellipsis() {
        let opts = RenderOptions { changed_only: true, full_context: false };
        let lines = build_tui_lines(&diffs_with_long_run(), opts);
        let joined: String = lines.iter().map(|l| l.text.clone()).collect::<Vec<_>>().join("\n");
        for i in 0..10 {
            assert!(!joined.contains(&format!("ctx {i}")));
        }
        assert!(!joined.contains("hidden line"));
        assert!(joined.contains("new spec"));
    }

    #[test]
    fn tui_file_headers_marked_as_section_starts() {
        let diffs = vec![
            FileDiff {
                path: "file_a".into(),
                nodes: vec![added("spec_a")],
            },
            FileDiff {
                path: "file_b".into(),
                nodes: vec![added("spec_b")],
            },
        ];
        let lines = build_tui_lines(&diffs, opts_truncating());
        let starts: Vec<String> = lines
            .iter()
            .filter(|l| l.is_section_start)
            .map(|l| l.text.clone())
            .collect();
        assert_eq!(starts.len(), 2);
        assert!(starts[0].contains("file_a"));
        assert!(starts[1].contains("file_b"));
    }

#[test]
fn watched_paths_are_test_sources() {
    assert!(spec_diff::tui::is_watched_path("spec/models/user_spec.rb"));
    assert!(spec_diff::tui::is_watched_path("src/lib.rs"));
    assert!(spec_diff::tui::is_watched_path("test/app_test.exs"));
    assert!(!spec_diff::tui::is_watched_path("README.md"));
    assert!(!spec_diff::tui::is_watched_path("Makefile"));
}

#[test]
fn apply_render_clamps_scroll() {
    let mut view = spec_diff::tui::ViewState {
        scroll: 50,
        section_offsets: vec![],
        changed_only: false,
        quit: false,
        needs_redraw: true,
        max_scroll: 100,
    };
    view.apply_render(spec_diff::tui::RenderResult { section_offsets: vec![0, 10], max_scroll: 30 });
    assert_eq!(view.scroll, 30);
    assert_eq!(view.max_scroll, 30);
    assert_eq!(view.section_offsets, vec![0, 10]);
    assert!(!view.needs_redraw);
}

#[test]
fn header_pieces_show_counts() {
    let empty = spec_diff::diff::types::Stats { added: 0, removed: 0, renamed: 0, modified: 0 };
    let pieces = spec_diff::tui::header_pieces(&empty);
    assert_eq!(pieces.len(), 2);
    assert_eq!(pieces[1].0, "  No test outline changes");
    assert_eq!(pieces[1].1, spec_diff::tui::LineStyle::DarkGray);
    let some = spec_diff::diff::types::Stats { added: 12, removed: 3, renamed: 0, modified: 0 };
    let texts: Vec<String> = spec_diff::tui::header_pieces(&some).into_iter().map(|p| p.0).collect();
    assert_eq!(texts, vec!["specdiff", "  ", "+12", " ", "-3"]);
    let renamed = spec_diff::diff::types::Stats { added: 0, removed: 0, renamed: 7, modified: 0 };
    let pieces = spec_diff::tui::header_pieces(&renamed);
    assert_eq!(pieces.last().unwrap().0, " ~>7");
    assert_eq!(pieces.last().unwrap().1, spec_diff::tui::LineStyle::Yellow);
}

use spec_diff::diff::types::FileDiff;
use spec_diff::parse::shared::SharedExampleRegistry;
use spec_diff::pipeline::{diff_contents, FileContents};

type Result<T> = std::result::Result<T, String>;

trait FileSource {
    fn list_files(&self) -> Result<Vec<String>>;
    fn read_base(&self, rel_path: &str) -> Option<String>;
    fn read_head(&self, rel_path: &str) -> Option<String>;
}

struct Cli {
    framework: Option<String>,
}

fn default_cli() -> Cli {
    Cli { framework: None }
}

struct MockSource {
    files: Vec<(String, String)>,
}

impl FileSource for MockSource {
    fn list_files(&self) -> Result<Vec<String>> {
        Ok(self.files.iter().map(|(name, _)| name.clone()).collect())
    }
    fn read_base(&self, _rel_path: &str) -> Option<String> {
        None
    }
    fn read_head(&self, rel_path: &str) -> Option<String> {
        self.files.iter().find(|(n, _)| n == rel_path).map(|(_, c)| c.clone())
    }
}

fn contents(paths: &[String], source: &dyn FileSource) -> Vec<FileContents> {
    paths
        .iter()
        .map(|p| FileContents { rel_path: p.clone(), base: source.read_base(p), head: source.read_head(p) })
        .collect()
}

fn changed_files_need_shared_scan(paths: &[String], source: &dyn FileSource, cli: &Cli) -> bool {
    spec_diff::pipeline::changed_files_need_shared_scan(&contents(paths, source), cli.framework.as_deref())
}

fn diff_files_fast(source: &dyn FileSource, cli: &Cli) -> Result<Vec<FileDiff>> {
    let paths = source.list_files()?;
    let empty = SharedExampleRegistry::default();
    Ok(diff_contents(&contents(&paths, source), cli.framework.as_deref(), &empty, &empty))
}

fn diff_files(source: &dyn FileSource, cli: &Cli) -> Result<Vec<FileDiff>> {
    let paths = source.list_files()?;
    assert!(!changed_files_need_shared_scan(&paths, source, cli));
    diff_files_fast(source, cli)
}


    

    

    

    #[test]
    fn skip_shared_scan_when_no_keywords() {
        let source = MockSource {
            files: vec![(
                "spec/models/user_spec.rb".into(),
                "RSpec.describe User do\n  it \"works\" do\n  end\nend\n".into(),
            )],
        };
        let cli = default_cli();
        let paths = source.list_files().expect("list");
        assert!(
            !changed_files_need_shared_scan(&paths, &source, &cli),
            "plain rspec file without shared keywords should skip scan"
        );
    }

    #[test]
    fn trigger_shared_scan_for_it_behaves_like() {
        let source = MockSource {
            files: vec![(
                "spec/models/user_spec.rb".into(),
                "RSpec.describe User do\n  it_behaves_like \"timestamped\"\nend\n".into(),
            )],
        };
        let cli = default_cli();
        let paths = source.list_files().expect("list");
        assert!(
            changed_files_need_shared_scan(&paths, &source, &cli),
            "it_behaves_like should trigger shared scan"
        );
    }

    #[test]
    fn trigger_shared_scan_for_include_examples() {
        let source = MockSource {
            files: vec![(
                "spec/models/user_spec.rb".into(),
                "RSpec.describe User do\n  include_examples \"soft delete\"\nend\n".into(),
            )],
        };
        let cli = default_cli();
        let paths = source.list_files().expect("list");
        assert!(
            changed_files_need_shared_scan(&paths, &source, &cli),
        );
    }

    #[test]
    fn trigger_shared_scan_for_python_inheritance() {
        let source = MockSource {
            files: vec![(
                "tests/test_user.py".into(),
                "class TestUser(BaseTest):\n    def test_foo(self):\n        pass\n".into(),
            )],
        };
        let cli = default_cli();
        let paths = source.list_files().expect("list");
        assert!(
            changed_files_need_shared_scan(&paths, &source, &cli),
            "(BaseTest should trigger inheritance scan"
        );
    }

    #[test]
    fn skip_shared_scan_for_plain_python() {
        let source = MockSource {
            files: vec![(
                "tests/test_user.py".into(),
                "class TestUser:\n    def test_foo(self):\n        pass\n".into(),
            )],
        };
        let cli = default_cli();
        let paths = source.list_files().expect("list");
        assert!(
            !changed_files_need_shared_scan(&paths, &source, &cli),
            "plain python class without inheritance should skip scan"
        );
    }

    #[test]
    fn skip_shared_scan_for_rust_files() {
        let source = MockSource {
            files: vec![(
                "src/lib.rs".into(),
                "#[cfg(test)]\nmod tests {\n    #[test]\n    fn test_foo() {}\n}\n".into(),
            )],
        };
        let cli = default_cli();
        let paths = source.list_files().expect("list");
        assert!(
            !changed_files_need_shared_scan(&paths, &source, &cli),
            "rust files have no shared/inheritance, should skip"
        );
    }

    #[test]
    fn diff_files_produces_output_without_shared_scan() {
        let source = MockSource {
            files: vec![(
                "spec/models/user_spec.rb".into(),
                "RSpec.describe User do\n  it \"works\" do\n  end\nend\n".into(),
            )],
        };
        let cli = default_cli();
        let diffs = diff_files(&source, &cli).expect("diff_files");
        assert!(!diffs.is_empty(), "should produce diffs even without shared scan");
    }

    #[test]
    fn parallel_diff_produces_same_results_as_serial() {
        let source = MockSource {
            files: vec![
                ("spec/models/user_spec.rb".into(), "RSpec.describe User do\n  it \"a\" do\n  end\nend\n".into()),
                ("spec/models/post_spec.rb".into(), "RSpec.describe Post do\n  it \"b\" do\n  end\nend\n".into()),
                ("spec/models/tag_spec.rb".into(), "RSpec.describe Tag do\n  it \"c\" do\n  end\nend\n".into()),
                ("spec/models/comment_spec.rb".into(), "RSpec.describe Comment do\n  it \"d\" do\n  end\nend\n".into()),
                ("spec/models/like_spec.rb".into(), "RSpec.describe Like do\n  it \"e\" do\n  end\nend\n".into()),
            ],
        };
        let cli = default_cli();
        let diffs = diff_files(&source, &cli).expect("diff_files");
        assert_eq!(diffs.len(), 5, "should diff all 5 files");
        let names: Vec<&str> = diffs.iter().map(|d| d.path.as_str()).collect();
        assert!(names.contains(&"models::user"));
        assert!(names.contains(&"models::post"));
        assert!(names.contains(&"models::tag"));
        assert!(names.contains(&"models::comment"));
        assert!(names.contains(&"models::like"));
    }

    #[test]
    fn diff_files_fast_skips_shared_resolution() {
        let source = MockSource {
            files: vec![(
                "spec/models/user_spec.rb".into(),
                "RSpec.describe User do\n  it_behaves_like \"timestamped\"\n  it \"works\" do\n  end\nend\n".into(),
            )],
        };
        let cli = default_cli();
        let diffs = diff_files_fast(&source, &cli).expect("fast");
        assert_eq!(diffs.len(), 1);
        let user = &diffs[0];
        let has_placeholder = user.nodes.iter().any(|n| {
            n.children.iter().any(|c| c.name.contains('\u{2026}'))
        });
        assert!(has_placeholder, "fast path should produce placeholder for shared inclusion");
    }

    #[test]
    fn unchanged_files_excluded_from_output() {
        let source = MockSource {
            files: vec![
                (
                    "spec/models/user_spec.rb".into(),
                    "RSpec.describe User do\n  it \"works\" do\n  end\nend\n".into(),
                ),
                (
                    "spec/models/post_spec.rb".into(),
                    "RSpec.describe Post do\n  it \"works\" do\n  end\nend\n".into(),
                ),
            ],
        };
        let cli = default_cli();
        let diffs = diff_files(&source, &cli).expect("diff_files");
        assert_eq!(
            diffs.len(), 2,
            "both files are head-only (no base), so both should appear as added"
        );

        for d in &diffs {
            assert!(
                d.nodes.iter().any(|n| n.has_changes()),
                "every file in output should have at least one change: {}",
                d.path
            );
        }
    }

    #[test]
    fn identical_base_and_head_produces_no_output() {
        let content = "RSpec.describe User do\n  it \"works\" do\n  end\nend\n".to_string();

        struct IdenticalSource(String);
        impl FileSource for IdenticalSource {
            fn list_files(&self) -> Result<Vec<String>> {
                Ok(vec!["spec/models/user_spec.rb".into()])
            }
            fn read_base(&self, _: &str) -> Option<String> {
                Some(self.0.clone())
            }
            fn read_head(&self, _: &str) -> Option<String> {
                Some(self.0.clone())
            }
        }

        let source = IdenticalSource(content);
        let cli = default_cli();
        let diffs = diff_files(&source, &cli).expect("diff_files");
        assert!(
            diffs.is_empty(),
            "identical base and head should produce no file diffs"
        );
    }

    #[test]
    fn file_with_code_changes_but_no_spec_changes_excluded() {
        let base = "RSpec.describe User do\n  it \"works\" do\n    x = 1\n  end\nend\n";
        let head = "RSpec.describe User do\n  it \"works\" do\n    x = 2\n  end\nend\n";

        struct DiffSource { base: String, head: String }
        impl FileSource for DiffSource {
            fn list_files(&self) -> Result<Vec<String>> {
                Ok(vec!["spec/models/user_spec.rb".into()])
            }
            fn read_base(&self, _: &str) -> Option<String> {
                Some(self.base.clone())
            }
            fn read_head(&self, _: &str) -> Option<String> {
                Some(self.head.clone())
            }
        }

        let source = DiffSource { base: base.into(), head: head.into() };
        let cli = default_cli();
        let diffs = diff_files(&source, &cli).expect("diff_files");
        assert!(
            diffs.is_empty(),
            "file where spec names are identical should not appear in output"
        );
    }

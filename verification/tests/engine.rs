use spec_diff::parse::engine::{normalize_name, parse_file, parse_file_with_shared};
use spec_diff::parse::registry::{all_frameworks, FrameworkDef};
use spec_diff::parse::shared::{scan_for_definitions, SharedExampleRegistry};
use spec_diff::parse::SpecKind;


    fn rspec_framework() -> FrameworkDef {
        all_frameworks().into_iter().find(|f| f.name == "rspec").expect("rspec framework")
    }

    fn rust_framework() -> FrameworkDef {
        all_frameworks().into_iter().find(|f| f.name == "rust_builtin").expect("rust_builtin framework")
    }

    #[test]
    fn parse_rspec_basic() {
        let source = r#"
RSpec.describe User do
  describe "validations" do
    it "validates email format" do
      expect(true).to be true
    end

    it "requires password" do
      expect(true).to be true
    end
  end

  describe "associations" do
    it "has many posts" do
      expect(true).to be true
    end
  end
end
"#;
        let tree = parse_file(source, "spec/models/user_spec.rb", &rspec_framework());
        assert!(tree.is_some());
        let tree = tree.expect("parsed");
        assert_eq!(tree.framework, "rspec");

        assert_eq!(tree.root.len(), 1);
        let user = &tree.root[0];
        assert_eq!(user.kind, SpecKind::Group);

        assert_eq!(user.children.len(), 2);
        let validations = &user.children[0];
        assert_eq!(validations.name, "validations");
        assert_eq!(validations.children.len(), 2);
        assert_eq!(validations.children[0].name, "validates email format");
        assert_eq!(validations.children[1].name, "requires password");

        let associations = &user.children[1];
        assert_eq!(associations.name, "associations");
        assert_eq!(associations.children.len(), 1);
        assert_eq!(associations.children[0].name, "has many posts");
    }

    #[test]
    fn parse_rspec_interpolated_name_preserves_placeholder_when_expansion_skipped() {
        // B1: interpolation is preserved verbatim when loop expansion can't
        // substitute (non-literal receiver). Ensures we don't collapse
        // "##{action}" to just "#".
        let source = r###"
RSpec.describe User do
  ACTIONS.each do |action|
    describe "##{action}" do
      it "does something" do
      end
    end
  end
end
"###;
        let tree = parse_file(source, "spec/models/user_spec.rb", &rspec_framework()).expect("parsed");
        let user = &tree.root[0];
        assert_eq!(user.children.len(), 1);
        assert_eq!(
            user.children[0].name, "##{action}",
            "non-literal receiver should leave placeholder untouched"
        );
    }

    #[test]
    fn parse_rspec_loop_expansion_symbol_array() {
        let source = r###"
RSpec.describe User do
  %i[create update].each do |action|
    describe "##{action}" do
      it "permits access" do
      end
    end
  end
end
"###;
        let tree = parse_file(source, "spec/models/user_spec.rb", &rspec_framework()).expect("parsed");
        let user = &tree.root[0];
        let names: Vec<&str> = user.children.iter().map(|c| c.name.as_str()).collect();
        assert_eq!(names, vec!["#create", "#update"]);
        for child in &user.children {
            assert_eq!(child.kind, SpecKind::Group);
            assert_eq!(child.children.len(), 1);
            assert_eq!(child.children[0].name, "permits access");
        }
    }

    #[test]
    fn parse_rspec_loop_expansion_string_array() {
        let source = r###"
RSpec.describe Fruit do
  %w[apple banana].each do |fruit|
    context "when fruit is #{fruit}" do
      it "tastes good" do
      end
    end
  end
end
"###;
        let tree = parse_file(source, "spec/models/fruit_spec.rb", &rspec_framework()).expect("parsed");
        let user = &tree.root[0];
        let names: Vec<&str> = user.children.iter().map(|c| c.name.as_str()).collect();
        assert_eq!(names, vec!["when fruit is apple", "when fruit is banana"]);
    }

    #[test]
    fn parse_rspec_loop_expansion_plain_array_of_symbols() {
        let source = r###"
RSpec.describe Role do
  [:admin, :user, :guest].each do |role|
    describe "as #{role}" do
      it "behaves correctly" do
      end
    end
  end
end
"###;
        let tree = parse_file(source, "spec/models/role_spec.rb", &rspec_framework()).expect("parsed");
        let user = &tree.root[0];
        let names: Vec<&str> = user.children.iter().map(|c| c.name.as_str()).collect();
        assert_eq!(names, vec!["as admin", "as user", "as guest"]);
    }

    #[test]
    fn parse_rspec_loop_expansion_integer_array() {
        let source = r###"
RSpec.describe Counter do
  [1, 2, 3].each do |n|
    it "handles #{n}" do
    end
  end
end
"###;
        let tree = parse_file(source, "spec/models/counter_spec.rb", &rspec_framework()).expect("parsed");
        let user = &tree.root[0];
        let names: Vec<&str> = user.children.iter().map(|c| c.name.as_str()).collect();
        assert_eq!(names, vec!["handles 1", "handles 2", "handles 3"]);
    }

    #[test]
    fn parse_rspec_loop_expansion_skipped_for_complex_interpolation() {
        // Complex interpolation #{action.to_sym} can't be statically resolved.
        // Substitution leaves the expression untouched; we still emit one spec
        // per loop iteration with the placeholder partially substituted only
        // where it's an exact #{var} match.
        let source = r###"
RSpec.describe X do
  %i[a b].each do |action|
    describe "for #{action.to_sym}" do
      it "tests" do
      end
    end
  end
end
"###;
        let tree = parse_file(source, "spec/x_spec.rb", &rspec_framework()).expect("parsed");
        let user = &tree.root[0];
        // Both iterations emit; the placeholder doesn't match the complex
        // expression so the source text survives unchanged.
        assert_eq!(user.children.len(), 2);
        for child in &user.children {
            assert_eq!(child.name, "for #{action.to_sym}");
        }
    }

    #[test]
    fn parse_rspec_loop_expansion_nested_each_produces_cartesian_product() {
        // M2: nested .each loops compose. Outer expansion calls
        // parse_children_with_shared on the body, which re-enters
        // try_expand_loop for the inner. Substitutions stack: inner first
        // (its own var), then outer rewrites the remaining placeholder.
        let source = r###"
RSpec.describe Combo do
  %i[a b].each do |x|
    %i[c d].each do |y|
      describe "#{x}-#{y}" do
        it "tests" do
        end
      end
    end
  end
end
"###;
        let tree = parse_file(source, "spec/combo_spec.rb", &rspec_framework()).expect("parsed");
        let combo = &tree.root[0];
        let names: Vec<&str> = combo.children.iter().map(|c| c.name.as_str()).collect();
        assert_eq!(names, vec!["a-c", "a-d", "b-c", "b-d"]);
        for child in &combo.children {
            assert_eq!(child.kind, SpecKind::Group);
            assert_eq!(child.children.len(), 1);
            assert_eq!(child.children[0].name, "tests");
        }
    }

    #[test]
    fn parse_rspec_loop_expansion_curly_brace_block() {
        // M3: brace-block syntax `{ |x| ... }` should expand the same as
        // do-end. Block kind differs (`block` vs `do_block`) but the
        // `parameters` and `body` fields are present on both.
        let source = r###"
RSpec.describe Brace do
  %i[one two].each { |n|
    describe "##{n}" do
      it "works" do
      end
    end
  }
end
"###;
        let tree = parse_file(source, "spec/brace_spec.rb", &rspec_framework()).expect("parsed");
        let brace = &tree.root[0];
        let names: Vec<&str> = brace.children.iter().map(|c| c.name.as_str()).collect();
        assert_eq!(names, vec!["#one", "#two"]);
    }

    #[test]
    fn parse_rspec_loop_expansion_empty_literal_emits_zero_specs() {
        // m5: empty literal collection means zero runtime iterations.
        // We must not fall through to the recursion fallback (which
        // would emit one phantom describe with the unsubstituted
        // placeholder).
        let source = r###"
RSpec.describe Empty do
  %i[].each do |x|
    describe "##{x}" do
      it "tests" do
      end
    end
  end

  it "still has a real spec" do
  end
end
"###;
        let tree = parse_file(source, "spec/empty_spec.rb", &rspec_framework()).expect("parsed");
        let empty = &tree.root[0];
        let names: Vec<&str> = empty.children.iter().map(|c| c.name.as_str()).collect();
        assert_eq!(names, vec!["still has a real spec"], "empty .each must produce no phantom describe");
    }

    #[test]
    fn parse_rspec_loop_expansion_hash_with_two_block_params() {
        // M1: |k, v| over a hash literal substitutes both placeholders.
        let source = r###"
RSpec.describe Mapping do
  {alpha: 1, beta: 2}.each do |key, value|
    describe "#{key} maps to #{value}" do
      it "tests" do
      end
    end
  end
end
"###;
        let tree = parse_file(source, "spec/mapping_spec.rb", &rspec_framework()).expect("parsed");
        let mapping = &tree.root[0];
        let names: Vec<&str> = mapping.children.iter().map(|c| c.name.as_str()).collect();
        assert_eq!(names, vec!["alpha maps to 1", "beta maps to 2"]);
    }

    #[test]
    fn parse_rspec_loop_expansion_paired_array_with_two_block_params() {
        // M1: nested arrays feeding |a, b| substitute both placeholders.
        let source = r###"
RSpec.describe Pairs do
  [[1, "x"], [2, "y"]].each do |n, s|
    describe "n=#{n} s=#{s}" do
      it "tests" do
      end
    end
  end
end
"###;
        let tree = parse_file(source, "spec/pairs_spec.rb", &rspec_framework()).expect("parsed");
        let pairs = &tree.root[0];
        let names: Vec<&str> = pairs.children.iter().map(|c| c.name.as_str()).collect();
        assert_eq!(names, vec!["n=1 s=x", "n=2 s=y"]);
    }

    #[test]
    fn parse_rspec_loop_expansion_no_block_parameters_emits_n_copies() {
        // M4: parameter-less block still expands. The body has no
        // placeholders to substitute, so we get N identical groups.
        let source = r###"
RSpec.describe Counter do
  [1, 2, 3].each do
    describe "static block" do
      it "runs" do
      end
    end
  end
end
"###;
        let tree = parse_file(source, "spec/counter_spec.rb", &rspec_framework()).expect("parsed");
        let counter = &tree.root[0];
        assert_eq!(counter.children.len(), 3, "param-less .each over a 3-element literal must emit 3 copies");
        for child in &counter.children {
            assert_eq!(child.name, "static block");
        }
    }

    #[test]
    fn parse_rspec_loop_substitution_skips_single_quoted_literal() {
        // m6: single-quoted strings don't actually interpolate, so #{x}
        // appearing inside one is literal text. Substitution must NOT
        // touch it. The describe (double-quoted) IS substituted; the
        // inner it (single-quoted) is left alone.
        let source = r###"
RSpec.describe Quoting do
  %i[a b].each do |x|
    describe "##{x}" do
      it 'literal #{x} text' do
      end
    end
  end
end
"###;
        let tree = parse_file(source, "spec/quoting_spec.rb", &rspec_framework()).expect("parsed");
        let quoting = &tree.root[0];
        let group_names: Vec<&str> = quoting.children.iter().map(|c| c.name.as_str()).collect();
        assert_eq!(group_names, vec!["#a", "#b"]);
        for group in &quoting.children {
            assert_eq!(group.children[0].name, "literal #{x} text", "single-quoted literal must not be substituted");
        }
    }

    #[test]
    fn parse_rspec_loop_expansion_substitutes_outer_scope_constant() {
        // m7: a constant assigned in the enclosing scope is collected by
        // the scope-walk and substituted into expanded names alongside
        // the loop variable.
        let source = r###"
RSpec.describe Scoped do
  PREFIX = "p"
  %i[a b].each do |x|
    describe "#{PREFIX}-#{x}" do
      it "tests" do
      end
    end
  end
end
"###;
        let tree = parse_file(source, "spec/scoped_spec.rb", &rspec_framework()).expect("parsed");
        let scoped = &tree.root[0];
        let names: Vec<&str> = scoped.children.iter().map(|c| c.name.as_str()).collect();
        assert_eq!(names, vec!["p-a", "p-b"]);
    }

    #[test]
    fn parse_rspec_loop_expansion_nested_each_with_outer_scope_constant() {
        // Nested loops AND an outer-scope constant. Inner expansion must
        // substitute its own loop var plus the outer scope's PREFIX;
        // outer expansion substitutes its own loop var over what remains.
        let source = r###"
RSpec.describe Combo do
  PREFIX = "p"
  %i[a b].each do |x|
    %i[c d].each do |y|
      describe "#{PREFIX}-#{x}-#{y}" do
        it "tests" do
        end
      end
    end
  end
end
"###;
        let tree = parse_file(source, "spec/combo_spec.rb", &rspec_framework()).expect("parsed");
        let combo = &tree.root[0];
        let names: Vec<&str> = combo.children.iter().map(|c| c.name.as_str()).collect();
        assert_eq!(names, vec!["p-a-c", "p-a-d", "p-b-c", "p-b-d"]);
    }

    #[test]
    fn parse_rspec_loop_expansion_reassigned_constant_uses_closest() {
        // When a constant is assigned twice, the closer assignment (the
        // one nearest to the each-loop in textual order) wins, matching
        // Ruby runtime semantics.
        let source = r###"
RSpec.describe Reassigned do
  PREFIX = "old"
  PREFIX = "new"
  %i[a b].each do |x|
    describe "#{PREFIX}-#{x}" do
      it "tests" do
      end
    end
  end
end
"###;
        let tree = parse_file(source, "spec/reassigned_spec.rb", &rspec_framework()).expect("parsed");
        let re = &tree.root[0];
        let names: Vec<&str> = re.children.iter().map(|c| c.name.as_str()).collect();
        assert_eq!(names, vec!["new-a", "new-b"]);
    }

    #[test]
    fn parse_rspec_loop_expansion_paired_array_arity_mismatch() {
        // Ruby destructures by zip-truncation: when the tuple has more
        // values than block params, extras are discarded; when fewer,
        // missing placeholders survive unsubstituted.
        let source = r###"
RSpec.describe Mismatch do
  [[1, "x", true], [2, "y", false]].each do |n, s|
    describe "n=#{n} s=#{s}" do
      it "tests" do
      end
    end
  end

  [[42]].each do |a, b|
    describe "a=#{a} b=#{b}" do
      it "tests" do
      end
    end
  end
end
"###;
        let tree = parse_file(source, "spec/mismatch_spec.rb", &rspec_framework()).expect("parsed");
        let mis = &tree.root[0];
        let names: Vec<&str> = mis.children.iter().map(|c| c.name.as_str()).collect();
        assert_eq!(names, vec![
            "n=1 s=x",
            "n=2 s=y",
            "a=42 b=#{b}",
        ]);
    }

    #[test]
    fn parse_rspec_loop_expansion_splat_block_parameter_no_substitution() {
        // `|*args|` splat parameters aren't plain identifiers, so we
        // treat it as the no-parameter path: emit N copies without
        // substitution. Matches M4 behavior.
        let source = r###"
RSpec.describe Splat do
  %i[a b].each do |*args|
    describe "static" do
      it "tests" do
      end
    end
  end
end
"###;
        let tree = parse_file(source, "spec/splat_spec.rb", &rspec_framework()).expect("parsed");
        let splat = &tree.root[0];
        assert_eq!(splat.children.len(), 2);
        for child in &splat.children {
            assert_eq!(child.name, "static");
        }
    }

    #[test]
    fn parse_minitest_loop_expansion_symbol_array() {
        let minitest = all_frameworks().into_iter().find(|f| f.name == "minitest").expect("minitest");
        let source = r###"
class TestFoo < Minitest::Test
  %i[one two].each do |n|
    describe "##{n}" do
      it "works" do
      end
    end
  end
end
"###;
        let tree = parse_file(source, "test/test_foo.rb", &minitest).expect("parsed");
        let foo_test = &tree.root[0];
        assert_eq!(foo_test.kind, SpecKind::Group);
        let names: Vec<&str> = foo_test.children.iter().map(|c| c.name.as_str()).collect();
        assert_eq!(names, vec!["#one", "#two"]);
    }

    #[test]
    fn parse_rspec_escape_in_name_returns_full_raw_text() {
        let source = r#"
RSpec.describe User do
  it "handles a \n newline in the name" do
    expect(true).to be true
  end
end
"#;
        let tree = parse_file(source, "spec/models/user_spec.rb", &rspec_framework()).expect("parsed");
        let user = &tree.root[0];
        assert_eq!(user.children.len(), 1);
        assert_eq!(
            user.children[0].name,
            r#"handles a \n newline in the name"#,
            "multi-chunk Ruby strings must return the full raw text, not just the first string_content child"
        );
    }

    #[test]
    fn parse_rspec_with_context() {
        let source = r#"
RSpec.describe "API" do
  context "when authenticated" do
    it "returns 200" do
    end
  end

  context "when unauthenticated" do
    it "returns 401" do
    end
  end
end
"#;
        let tree = parse_file(source, "spec/requests/api_spec.rb", &rspec_framework());
        let tree = tree.expect("parsed");
        let api = &tree.root[0];
        assert_eq!(api.name, "API");
        assert_eq!(api.children.len(), 2);
        assert_eq!(api.children[0].name, "when authenticated");
        assert_eq!(api.children[1].name, "when unauthenticated");
    }

    #[test]
    fn parse_rust_test_functions() {
        let source = r#"
#[cfg(test)]
mod tests {
    #[test]
    fn test_addition() {
        assert_eq!(2 + 2, 4);
    }

    #[test]
    fn test_subtraction() {
        assert_eq!(5 - 3, 2);
    }
}
"#;
        let tree = parse_file(source, "src/lib.rs", &rust_framework());
        assert!(tree.is_some());
        let tree = tree.expect("parsed");
        assert_eq!(tree.framework, "rust_builtin");

        assert_eq!(tree.root.len(), 1);
        let tests_mod = &tree.root[0];
        assert_eq!(tests_mod.name, "tests");
        assert_eq!(tests_mod.kind, SpecKind::Group);

        assert_eq!(tests_mod.children.len(), 2);
        assert_eq!(tests_mod.children[0].name, "addition");
        assert_eq!(tests_mod.children[0].kind, SpecKind::Spec);
        assert_eq!(tests_mod.children[1].name, "subtraction");
    }

    #[test]
    fn parse_rust_without_module() {
        let source = r#"
#[test]
fn test_standalone() {
    assert!(true);
}
"#;
        let tree = parse_file(source, "tests/basic.rs", &rust_framework());
        assert!(tree.is_some());
        let tree = tree.expect("parsed");
        assert_eq!(tree.root.len(), 1);
        assert_eq!(tree.root[0].name, "standalone");
        assert_eq!(tree.root[0].kind, SpecKind::Spec);
    }

            #[test]
    fn normalize_rust_test_names() {
        let fw = &rust_framework();
        assert_eq!(normalize_name("test_addition", fw), "addition");
        assert_eq!(normalize_name("test_my_func", fw), "my func");
        assert_eq!(normalize_name("helper_func", fw), "helper func");
    }

    #[test]
    fn rust_attribute_no_false_positives() {
        let source = r#"
#[testing_helper]
fn setup_testing() {}

#[test]
fn test_real() {
    assert!(true);
}
"#;
        let tree = parse_file(source, "tests/basic.rs", &rust_framework());
        let tree = tree.expect("parsed");
        assert_eq!(tree.root.len(), 1, "should only find #[test], not #[testing_helper]");
        assert_eq!(tree.root[0].name, "real");
    }

    fn minitest_framework() -> FrameworkDef {
        all_frameworks().into_iter().find(|f| f.name == "minitest").expect("minitest framework")
    }

    #[test]
    fn parse_minitest_class_and_methods() {
        let source = r#"
require "test_helper"

class TestUser < Minitest::Test
  def test_valid_user
    assert true
  end

  def test_invalid_without_name
    refute false
  end
end
"#;
        let tree = parse_file(source, "test/models/user_test.rb", &minitest_framework());
        assert!(tree.is_some());
        let tree = tree.expect("parsed");
        assert_eq!(tree.framework, "minitest");

        assert_eq!(tree.root.len(), 1);
        let user_class = &tree.root[0];
        assert_eq!(user_class.name, "User");
        assert_eq!(user_class.kind, SpecKind::Group);
        assert_eq!(user_class.children.len(), 2);
        assert_eq!(user_class.children[0].name, "valid user");
        assert_eq!(user_class.children[1].name, "invalid without name");
    }

        #[test]
    fn parse_empty_source_returns_none() {
        assert!(parse_file("", "spec/empty_spec.rb", &rspec_framework()).is_none());
        assert!(parse_file("", "src/lib.rs", &rust_framework()).is_none());
    }

    #[test]
    fn parse_source_with_no_tests_returns_none() {
        let source = "class User\n  def name\n    @name\n  end\nend\n";
        assert!(parse_file(source, "spec/models/user_spec.rb", &rspec_framework()).is_none());
    }

    fn pytest_framework() -> FrameworkDef {
        all_frameworks().into_iter().find(|f| f.name == "pytest").expect("pytest framework")
    }

    fn jest_framework() -> FrameworkDef {
        all_frameworks().into_iter().find(|f| f.name == "jest").expect("jest framework")
    }

    fn go_framework() -> FrameworkDef {
        all_frameworks().into_iter().find(|f| f.name == "go_testing").expect("go_testing framework")
    }

    #[test]
    fn parse_pytest_class_and_functions() {
        let source = "class TestUser:\n    def test_create(self):\n        assert True\n\n    def test_delete(self):\n        assert True\n\ndef test_standalone():\n    assert True\n";
        let tree = parse_file(source, "tests/test_user.py", &pytest_framework());
        assert!(tree.is_some(), "should parse pytest");
        let tree = tree.expect("parsed");
        assert_eq!(tree.framework, "pytest");

        assert!(tree.root.len() >= 2, "should find class + standalone fn, got {}", tree.root.len());

        let class = tree.root.iter().find(|n| n.kind == SpecKind::Group);
        assert!(class.is_some(), "should find TestUser group");
        let class = class.expect("found");
        assert_eq!(class.name, "User");
        assert_eq!(class.children.len(), 2);
        assert_eq!(class.children[0].name, "create");
        assert_eq!(class.children[1].name, "delete");

        let standalone = tree.root.iter().find(|n| n.name == "standalone");
        assert!(standalone.is_some(), "should find test_standalone");
    }

        #[test]
    fn parse_jest_describe_it() {
        let source = "describe('User', () => {\n  it('creates a user', () => {\n    expect(true).toBe(true);\n  });\n\n  it('deletes a user', () => {\n    expect(true).toBe(true);\n  });\n});\n";
        let tree = parse_file(source, "user.test.js", &jest_framework());
        assert!(tree.is_some(), "should parse jest");
        let tree = tree.expect("parsed");
        assert_eq!(tree.framework, "jest");
        assert_eq!(tree.root.len(), 1);

        let describe = &tree.root[0];
        assert_eq!(describe.name, "User");
        assert_eq!(describe.kind, SpecKind::Group);
        assert_eq!(describe.children.len(), 2);
        assert_eq!(describe.children[0].name, "creates a user");
        assert_eq!(describe.children[1].name, "deletes a user");
    }

        #[test]
    fn parse_go_test_functions() {
        let source = "package user\n\nimport \"testing\"\n\nfunc TestCreate(t *testing.T) {\n}\n\nfunc TestDelete(t *testing.T) {\n}\n";
        let tree = parse_file(source, "user_test.go", &go_framework());
        assert!(tree.is_some(), "should parse go tests");
        let tree = tree.expect("parsed");
        assert_eq!(tree.framework, "go_testing");
        assert_eq!(tree.root.len(), 2);
        assert_eq!(tree.root[0].name, "Create");
        assert_eq!(tree.root[1].name, "Delete");
    }

    #[test]
    fn parse_go_t_run_subtests() {
        let source = "package user\n\nimport \"testing\"\n\nfunc TestCreate(t *testing.T) {\n\tt.Run(\"with valid name\", func(t *testing.T) {})\n\tt.Run(\"with valid email\", func(t *testing.T) {})\n}\n";
        let tree = parse_file(source, "user_test.go", &go_framework());
        let tree = tree.expect("parsed");
        assert_eq!(tree.root.len(), 1);

        let create = &tree.root[0];
        assert_eq!(create.name, "Create");
        assert_eq!(create.kind, SpecKind::Group);
        assert_eq!(create.children.len(), 2);
        assert_eq!(create.children[0].name, "with valid name");
        assert_eq!(create.children[1].name, "with valid email");
    }

        fn exunit_framework() -> FrameworkDef {
        all_frameworks().into_iter().find(|f| f.name == "exunit").expect("exunit")
    }

    #[test]
    fn parse_exunit_describe_test() {
        let source = r#"defmodule UserTest do
  use ExUnit.Case

  describe "validations" do
    test "validates email" do
      assert true
    end

    test "requires name" do
      assert true
    end
  end

  test "standalone test" do
    assert true
  end
end
"#;
        let tree = parse_file(source, "test/user_test.exs", &exunit_framework());
        let tree = tree.expect("parsed");
        assert_eq!(tree.framework, "exunit");

        let validations = tree.root.iter().find(|n| n.name == "validations").expect("validations");
        assert_eq!(validations.kind, SpecKind::Group);
        assert_eq!(validations.children.len(), 2);
        assert_eq!(validations.children[0].name, "validates email");
        assert_eq!(validations.children[1].name, "requires name");

        assert!(tree.root.iter().any(|n| n.name == "standalone test" && n.kind == SpecKind::Spec));
    }

        #[test]
    fn pytest_class_inheritance_inlines_parent_methods() {
        let source = r#"
class BaseTest:
    def test_shared_one(self):
        pass

    def test_shared_two(self):
        pass

class TestUser(BaseTest):
    def test_own(self):
        pass
"#;

        let mut registry = SharedExampleRegistry::default();
        scan_for_definitions(source, &pytest_framework(), &mut registry);

        let tree = parse_file_with_shared(source, "tests/test_user.py", &pytest_framework(), Some(&registry));
        let tree = tree.expect("parsed");

        let test_user = tree.root.iter().find(|n| n.name == "User").expect("TestUser -> User");
        let names: Vec<&str> = test_user.children.iter().map(|c| c.name.as_str()).collect();
        assert!(names.contains(&"shared one"), "inherited test_shared_one should appear, got {names:?}");
        assert!(names.contains(&"shared two"));
        assert!(names.contains(&"own"));
    }

    #[test]
    fn parse_rstest_case_count() {
        let source = r#"
#[cfg(test)]
mod tests {
    #[rstest]
    #[case(1, 2)]
    #[case(3, 4)]
    #[case(5, 6)]
    fn test_cases(#[case] a: i32, #[case] b: i32) {
    }
}
"#;
        let tree = parse_file(source, "src/lib.rs", &rust_framework()).expect("parsed");
        let tests = &tree.root[0];
        let cases = tests.children.iter().find(|n| n.name == "cases").expect("cases");
        let param = cases.parameterized.as_ref().expect("has parameterization");
        assert_eq!(param.case_count, 3);
    }

    #[test]
    fn parse_pytest_parametrize_count() {
        let source = r#"
import pytest

@pytest.mark.parametrize("a,b", [(1, 2), (3, 4), (5, 6), (7, 8)])
def test_add(a, b):
    assert a + b > 0
"#;
        let tree = parse_file(source, "tests/test_math.py", &pytest_framework()).expect("parsed");
        let add = tree.root.iter().find(|n| n.name == "add").expect("add");
        let param = add.parameterized.as_ref().expect("has parameterization");
        assert_eq!(param.case_count, 4);
    }

    #[test]
    fn parse_go_table_driven() {
        let source = r#"package user
import "testing"

func TestAdd(t *testing.T) {
    cases := []struct{
        name string
        a int
    }{
        {"zero", 0},
        {"one", 1},
        {"two", 2},
        {"three", 3},
    }
    for _, tc := range cases {
        t.Run(tc.name, func(t *testing.T) {})
    }
}
"#;
        let tree = parse_file(source, "user_test.go", &go_framework()).expect("parsed");
        let add = tree.root.iter().find(|n| n.name == "Add").expect("Add");
        let param = add.parameterized.as_ref().expect("table-driven detected");
        assert_eq!(param.case_count, 4);
    }

    #[test]
    fn parse_jest_each_count() {
        let source = "it.each([[1,2],[3,4],[5,6]])('adds %i + %i', (a,b) => {});\n";
        let tree = parse_file(source, "user.test.js", &jest_framework()).expect("parsed");
        assert_eq!(tree.root.len(), 1);
        let each = &tree.root[0];
        let param = each.parameterized.as_ref().expect("has parameterization");
        assert_eq!(param.case_count, 3);
    }

    #[test]
    fn minitest_module_include_inlines_methods() {
        let source = r#"
module SharedBehavior
  def test_shared_one
    assert true
  end

  def test_shared_two
    assert true
  end
end

class TestUser < Minitest::Test
  include SharedBehavior

  def test_own
    assert true
  end
end
"#;

        let mut registry = SharedExampleRegistry::default();
        scan_for_definitions(source, &minitest_framework(), &mut registry);

        let tree = parse_file_with_shared(source, "test/user_test.rb", &minitest_framework(), Some(&registry));
        let tree = tree.expect("parsed");

        let test_user = tree.root.iter().find(|n| n.name == "User").expect("TestUser -> User");
        let names: Vec<&str> = test_user.children.iter().map(|c| c.name.as_str()).collect();
        assert!(names.contains(&"shared one"), "included test_shared_one should appear, got {names:?}");
        assert!(names.contains(&"shared two"));
        assert!(names.contains(&"own"));
    }

    #[test]
    fn pytest_inheritance_resolves_dotted_base() {
        let parent = r#"
class TestPersistable:
    def test_has_id(self):
        pass
"#;
        let child = r#"
import mixins

class TestUser(mixins.TestPersistable):
    def test_own(self):
        pass
"#;
        let mut registry = SharedExampleRegistry::default();
        scan_for_definitions(parent, &pytest_framework(), &mut registry);

        let tree = parse_file_with_shared(child, "tests/test_user.py", &pytest_framework(), Some(&registry));
        let tree = tree.expect("parsed");
        let user = tree.root.iter().find(|n| n.name == "User").expect("User");
        let names: Vec<&str> = user.children.iter().map(|c| c.name.as_str()).collect();
        assert!(names.contains(&"has id"), "mixins.TestPersistable base should resolve, got {names:?}");
        assert!(names.contains(&"own"));
    }

    #[test]
    fn ruby_scope_resolution_module_name() {
        let support = r#"
module Foo
  module SharedBehavior
    def test_shared
      assert true
    end
  end
end
"#;
        let test = r#"
class TestUser < Minitest::Test
  include Foo::SharedBehavior
  def test_own
    assert true
  end
end
"#;
        let mut registry = SharedExampleRegistry::default();
        scan_for_definitions(support, &minitest_framework(), &mut registry);

        let tree = parse_file_with_shared(test, "test/user_test.rb", &minitest_framework(), Some(&registry));
        let tree = tree.expect("parsed");
        let user = tree.root.iter().find(|n| n.name == "User").expect("User");
        let names: Vec<&str> = user.children.iter().map(|c| c.name.as_str()).collect();
        assert!(names.contains(&"shared"), "Foo::SharedBehavior should resolve, got {names:?}");
        assert!(names.contains(&"own"));
    }

    #[test]
    fn ruby_leaf_name_include_resolves() {
        let support = r#"
module Support
  module Persistable
    def test_has_id
      assert true
    end
  end
end
"#;
        let test = r#"
class TestUser < Minitest::Test
  include Persistable
  def test_own
    assert true
  end
end
"#;
        let mut registry = SharedExampleRegistry::default();
        scan_for_definitions(support, &minitest_framework(), &mut registry);

        let tree = parse_file_with_shared(test, "test/user_test.rb", &minitest_framework(), Some(&registry));
        let tree = tree.expect("parsed");
        let user = tree.root.iter().find(|n| n.name == "User").expect("User");
        let names: Vec<&str> = user.children.iter().map(|c| c.name.as_str()).collect();
        assert!(names.contains(&"has id"), "bare leaf include Persistable should resolve, got {names:?}");
    }

    #[test]
    fn ruby_transitive_module_include() {
        let source = r#"
module Inner
  def test_deep
    assert true
  end
end

module Outer
  include Inner

  def test_outer
    assert true
  end
end

class TestUser < Minitest::Test
  include Outer

  def test_own
    assert true
  end
end
"#;
        let mut registry = SharedExampleRegistry::default();
        scan_for_definitions(source, &minitest_framework(), &mut registry);

        let tree = parse_file_with_shared(source, "test/user_test.rb", &minitest_framework(), Some(&registry));
        let tree = tree.expect("parsed");
        let user = tree.root.iter().find(|n| n.name == "User").expect("User");
        let names: Vec<&str> = user.children.iter().map(|c| c.name.as_str()).collect();
        assert!(names.contains(&"deep"), "transitive include should surface Inner's test, got {names:?}");
        assert!(names.contains(&"outer"));
        assert!(names.contains(&"own"));
    }

    #[test]
    fn go_table_driven_multiple_slices_sums_counts() {
        let source = r#"package user
import "testing"

func TestValidate(t *testing.T) {
    emails := []struct{ name, input string }{
        {"valid", "a@b"},
        {"empty", ""},
    }
    for _, tc := range emails {
        t.Run(tc.name, func(t *testing.T) { _ = tc.input })
    }

    numbers := []struct{ name string; n int }{
        {"zero", 0},
        {"one", 1},
        {"two", 2},
    }
    for _, tc := range numbers {
        t.Run(tc.name, func(t *testing.T) { _ = tc.n })
    }
}
"#;
        let tree = parse_file(source, "user_test.go", &go_framework()).expect("parsed");
        let v = tree.root.iter().find(|n| n.name == "Validate").expect("Validate");
        let param = v.parameterized.as_ref().expect("has parameterization");
        assert_eq!(param.case_count, 5, "should sum both slices: 2 + 3");
    }

    fn phpunit_framework() -> FrameworkDef {
        all_frameworks().into_iter().find(|f| f.name == "phpunit").expect("phpunit")
    }

    #[test]
    fn parse_phpunit_class_and_methods() {
        let source = "<?php\nclass UserTest extends TestCase {\n    public function testCreate(): void {\n        $this->assertTrue(true);\n    }\n    public function testDelete(): void {\n        $this->assertTrue(true);\n    }\n    public function helperMethod(): void {\n    }\n}\n";
        let tree = parse_file(source, "tests/UserTest.php", &phpunit_framework());
        let tree = tree.expect("parsed");
        assert_eq!(tree.framework, "phpunit");
        assert_eq!(tree.root.len(), 1);

        let user = &tree.root[0];
        assert_eq!(user.name, "User");
        assert_eq!(user.kind, SpecKind::Group);
        assert_eq!(user.children.len(), 2, "should find testCreate + testDelete, not helperMethod");
        assert_eq!(user.children[0].name, "Create");
        assert_eq!(user.children[1].name, "Delete");
    }

    #[test]
    fn parse_phpunit_class_inheritance() {
        let source = "<?php\nclass BaseTestCase extends TestCase {\n    public function testShared(): void {\n        $this->assertTrue(true);\n    }\n}\n\nclass UserTest extends BaseTestCase {\n    public function testOwn(): void {\n        $this->assertTrue(true);\n    }\n}\n";
        let mut registry = SharedExampleRegistry::default();
        scan_for_definitions(source, &phpunit_framework(), &mut registry);

        let tree = parse_file_with_shared(source, "tests/UserTest.php", &phpunit_framework(), Some(&registry));
        let tree = tree.expect("parsed");

        let user = tree.root.iter().find(|n| n.name == "User").expect("UserTest -> User");
        let names: Vec<&str> = user.children.iter().map(|c| c.name.as_str()).collect();
        assert!(names.contains(&"Shared"), "inherited testShared should appear, got {names:?}");
        assert!(names.contains(&"Own"));
    }

    fn junit_framework() -> FrameworkDef {
        all_frameworks().into_iter().find(|f| f.name == "junit").expect("junit")
    }

    #[test]
    fn parse_junit_annotated_methods() {
        let source = "class UserTest {\n    @Test\n    void testCreate() {\n    }\n    @Test\n    void testDelete() {\n    }\n    void helperMethod() {\n    }\n}\n";
        let tree = parse_file(source, "tests/UserTest.java", &junit_framework());
        let tree = tree.expect("parsed");
        assert_eq!(tree.framework, "junit");
        assert_eq!(tree.root.len(), 1);

        let user = &tree.root[0];
        assert_eq!(user.name, "User");
        assert_eq!(user.kind, SpecKind::Group);
        assert_eq!(user.children.len(), 2, "should find @Test methods only, not helperMethod");
        assert_eq!(user.children[0].name, "Create");
        assert_eq!(user.children[1].name, "Delete");
    }

    #[test]
    fn parse_junit_class_inheritance() {
        let source = "class BaseTest {\n    @Test\n    void testShared() {\n    }\n}\n\nclass UserTest extends BaseTest {\n    @Test\n    void testOwn() {\n    }\n}\n";
        let mut registry = SharedExampleRegistry::default();
        scan_for_definitions(source, &junit_framework(), &mut registry);

        let tree = parse_file_with_shared(source, "tests/UserTest.java", &junit_framework(), Some(&registry));
        let tree = tree.expect("parsed");

        let user = tree.root.iter().find(|n| n.name == "User").expect("UserTest -> User");
        let names: Vec<&str> = user.children.iter().map(|c| c.name.as_str()).collect();
        assert!(names.contains(&"Shared"), "inherited testShared should appear, got {names:?}");
        assert!(names.contains(&"Own"));
    }

    #[test]
    fn parse_junit_nested_class() {
        let source = "class UserTest {\n    @Test\n    void testCreate() {\n    }\n\n    @Nested\n    class AdminTest {\n        @Test\n        void testAdmin() {\n        }\n    }\n}\n";
        let tree = parse_file(source, "tests/UserTest.java", &junit_framework());
        let tree = tree.expect("parsed");

        let user = &tree.root[0];
        assert_eq!(user.name, "User");
        assert_eq!(user.children.len(), 2);

        let create = &user.children[0];
        assert_eq!(create.name, "Create");
        assert_eq!(create.kind, SpecKind::Spec);

        let admin = &user.children[1];
        assert_eq!(admin.name, "Admin");
        assert_eq!(admin.kind, SpecKind::Group);
        assert_eq!(admin.children.len(), 1);
        assert_eq!(admin.children[0].name, "Admin");
    }

    fn pest_framework() -> FrameworkDef {
        all_frameworks().into_iter().find(|f| f.name == "pest").expect("pest")
    }

    #[test]
    fn parse_pest_top_level_test_calls() {
        let source = "<?php\n\ntest('software config loads', function () {\n    assert_true(true);\n});\n\nit('handles empty body', function () {\n    assert_eq(0, 0);\n});\n\nhelperFunction();\n";
        let tree = parse_file(source, "tests/run.php", &pest_framework()).expect("parsed");
        assert_eq!(tree.framework, "pest");
        let names: Vec<&str> = tree.root.iter().map(|n| n.name.as_str()).collect();
        assert_eq!(names, vec!["software config loads", "handles empty body"]);
        for node in &tree.root {
            assert_eq!(node.kind, SpecKind::Spec);
        }
    }

    #[test]
    fn parse_pest_double_quoted_names() {
        let source = "<?php\n\ntest(\"double quoted spec\", function () {});\n";
        let tree = parse_file(source, "tests/run.php", &pest_framework()).expect("parsed");
        assert_eq!(tree.root.len(), 1);
        assert_eq!(tree.root[0].name, "double quoted spec");
    }

    #[test]
    fn parse_pest_describe_groups_nested_tests() {
        let source = "<?php\n\ndescribe('User', function () {\n    test('is created', function () {});\n    it('can be deleted', function () {});\n});\n";
        let tree = parse_file(source, "tests/run.php", &pest_framework()).expect("parsed");
        assert_eq!(tree.root.len(), 1);
        let user = &tree.root[0];
        assert_eq!(user.name, "User");
        assert_eq!(user.kind, SpecKind::Group);
        let child_names: Vec<&str> = user.children.iter().map(|n| n.name.as_str()).collect();
        assert_eq!(child_names, vec!["is created", "can be deleted"]);
    }

    #[test]
    fn parse_pest_ignores_non_test_function_calls() {
        let source = "<?php\n\nrequire_once 'helpers.php';\nsome_helper('not a test');\ntest('real test', function () {});\n";
        let tree = parse_file(source, "tests/run.php", &pest_framework()).expect("parsed");
        assert_eq!(tree.root.len(), 1);
        assert_eq!(tree.root[0].name, "real test");
    }

    #[test]
    fn parse_pest_ignores_lifecycle_hooks_and_uses() {
        let source = "<?php\n\nuses(TestCase::class)->in('Feature');\nbeforeEach(function () {});\nafterEach(function () {});\nbeforeAll(function () {});\nafterAll(function () {});\ntest('only real spec', function () {});\n";
        let tree = parse_file(source, "tests/run.php", &pest_framework()).expect("parsed");
        let names: Vec<&str> = tree.root.iter().map(|n| n.name.as_str()).collect();
        assert_eq!(names, vec!["only real spec"], "hooks and uses must not become specs");
    }

    #[test]
    fn parse_pest_preserves_interpolated_test_name() {
        let source = "<?php\n\ntest(\"user $name is created\", function () {});\n";
        let tree = parse_file(source, "tests/run.php", &pest_framework()).expect("parsed");
        assert_eq!(tree.root.len(), 1);
        assert_eq!(tree.root[0].name, "user $name is created");
    }

    #[test]
    fn parse_pest_chained_modifier_still_yields_spec() {
        let source = "<?php\n\ntest('x', function () {})->skip();\ntest('y', function () {})->throws(Exception::class);\ntest('z', function () {})->group('api')->skip();\n";
        let tree = parse_file(source, "tests/run.php", &pest_framework()).expect("parsed");
        let names: Vec<&str> = tree.root.iter().map(|n| n.name.as_str()).collect();
        assert_eq!(names, vec!["x", "y", "z"]);
    }

    #[test]
    fn parse_pest_with_dataset_counts_cases() {
        let source = "<?php\n\ntest('validates email', function ($email) {})->with(['a@b.com', 'c@d.com', 'e@f.com']);\n";
        let tree = parse_file(source, "tests/run.php", &pest_framework()).expect("parsed");
        assert_eq!(tree.root.len(), 1);
        let spec = &tree.root[0];
        assert_eq!(spec.name, "validates email");
        let param = spec.parameterized.as_ref().expect("parameterized info");
        assert_eq!(param.case_count, 3);
    }

    #[test]
    fn parse_pest_with_dataset_survives_chained_skip() {
        let source = "<?php\n\ntest('validates email', fn ($e) => $e)->with(['a@b.com', 'c@d.com'])->skip();\n";
        let tree = parse_file(source, "tests/run.php", &pest_framework()).expect("parsed");
        let param = tree.root[0].parameterized.as_ref().expect("parameterized info");
        assert_eq!(param.case_count, 2);
    }

//! The built-in framework descriptions.
use super::registry::{
    has_inclusions, inheritance_on, AstKindsDef, FileDef, FrameworkDef, GroupDef, InheritanceDef, LoopExpansionDef, MarkerDef,
    NestedDiscoveryDef, NormalizationDef, ParameterizedDef, PathGroupingDef, RefDetectionDef,
    SharedDef, SharedDefinitionDef, SharedInclusionDef, SpecDef, TableDrivenDef,
};
use crate::parse::engine::{opt_str, views};
use crate::parse::registry::opt_view;
use crate::text::owned;
use vstd::prelude::*;

verus! {

/// The texts of a list of string slices.
pub open spec fn str_views(xs: Seq<&str>) -> Seq<Seq<char>> {
    Seq::new(xs.len(), |i: int| xs[i]@)
}

fn strings(xs: &[&str]) -> (r: Vec<String>)
    ensures
        views(r@) == str_views(xs@),
        r@.len() == xs@.len(),
        forall|k: int| 0 <= k < xs@.len() ==> (#[trigger] r@[k])@ == xs@[k]@,
{
    let mut r: Vec<String> = Vec::new();
    let mut i: usize = 0;
    while i < xs.len()
        invariant
            i <= xs@.len(),
            r@.len() == i,
            forall|k: int| 0 <= k < i ==> (#[trigger] r@[k])@ == xs@[k]@,
        decreases xs@.len() - i,
    {
        r.push(owned(xs[i]));
        i += 1;
    }
    assert(views(r@) =~= str_views(xs@));
    r
}

fn some(x: &str) -> (r: Option<String>)
    ensures
        r is Some && r.unwrap()@ == x@,
{
    Some(owned(x))
}

/// `r` is named `name`, reads `language` with the grammar crate `grammar`,
/// owns the files with the extensions `extensions` and matching `globs`,
/// and extends nothing.
pub open spec fn base_is(
    r: FrameworkDef,
    name: Seq<char>,
    language: Seq<char>,
    grammar: Seq<char>,
    description: Seq<char>,
    extensions: Seq<Seq<char>>,
    globs: Seq<Seq<char>>,
) -> bool {
    &&& r.name@ == name
    &&& r.language@ == language
    &&& r.tree_sitter_crate@ == grammar
    &&& r.description@ == description
    &&& r.extends is None
    &&& r.additional_languages@.len() == 0
    &&& r.additional_crates@.len() == 0
    &&& r.files matches Some(f) && views(f.extensions@) =~= extensions && views(f.include_globs@) =~= globs
        && f.exclude_globs@.len() == 0 && !f.require_ast_confirmation
    &&& r.property_based@.len() == 0
    &&& r.handler is None
}

/// `r` has none of the optional parts but those listed as set.
pub open spec fn unset_but(r: FrameworkDef, markers: bool, groups: bool, params: bool, nested: bool, table: bool, inh: bool, ast: bool, loops: bool, shared: bool) -> bool {
    &&& (!groups ==> r.group@.len() == 0 && r.spec@.len() == 0)
    &&& (!markers ==> r.marker@.len() == 0)
    &&& (!params ==> r.parameterized@.len() == 0)
    &&& (!nested ==> r.nested_discovery@.len() == 0)
    &&& (!table ==> r.table_driven is None)
    &&& (!inh ==> r.inheritance is None)
    &&& (!ast ==> r.ast_kinds is None)
    &&& (!loops ==> r.loop_expansion is None)
    &&& (!shared ==> r.shared is None)
}

fn base(name: &str, language: &str, grammar: &str, description: &str, extensions: &[&str], globs: &[&str]) -> (r: FrameworkDef)
    ensures
        base_is(r, name@, language@, grammar@, description@, str_views(extensions@), str_views(globs@)),
        unset_but(r, false, false, false, false, false, false, false, false, false),
        r.normalization is None,
        r.path_grouping is None,
{
    FrameworkDef {
        name: owned(name),
        language: owned(language),
        tree_sitter_crate: owned(grammar),
        description: owned(description),
        extends: None,
        additional_languages: Vec::new(),
        additional_crates: Vec::new(),
        files: Some(FileDef {
            extensions: strings(extensions),
            include_globs: strings(globs),
            exclude_globs: Vec::new(),
            require_ast_confirmation: false,
        }),
        group: Vec::new(),
        spec: Vec::new(),
        marker: Vec::new(),
        normalization: None,
        path_grouping: None,
        shared: None,
        parameterized: Vec::new(),
        property_based: Vec::new(),
        nested_discovery: Vec::new(),
        table_driven: None,
        inheritance: None,
        loop_expansion: None,
        ast_kinds: None,
        handler: None,
    }
}

/// `g` groups the calls of kind `ast` to one of `methods`, named by their
/// first argument of kind `source_type`.
pub open spec fn group_is(g: GroupDef, ast: Seq<char>, methods: Seq<Seq<char>>, source_type: Seq<char>) -> bool {
    &&& g.ast_type@ == ast
    &&& views(g.method_names@) =~= methods
    &&& g.name_source@ == "first_argument"@
    &&& opt_view(g.name_source_type) == Some(source_type)
}

fn group(ast: &str, methods: &[&str], source_type: &str) -> (r: GroupDef)
    ensures
        group_is(r, ast@, str_views(methods@), source_type@),
{
    GroupDef {
        ast_type: owned(ast),
        method_names: strings(methods),
        name_source: owned("first_argument"),
        name_source_type: some(source_type),
    }
}

/// `s` makes a spec of each call of kind `ast` to one of `methods`, named
/// by its first argument, a string literal; `anonymous` if it may have none.
pub open spec fn spec_is(s: SpecDef, ast: Seq<char>, methods: Seq<Seq<char>>, anonymous: bool) -> bool {
    &&& s.ast_type@ == ast
    &&& views(s.method_names@) =~= methods
    &&& s.name_source@ == "first_argument"@
    &&& opt_view(s.name_source_type) == Some("string_literal"@)
    &&& s.allow_anonymous == anonymous
}

fn spec(ast: &str, methods: &[&str], anonymous: bool) -> (r: SpecDef)
    ensures
        spec_is(r, ast@, str_views(methods@), anonymous),
{
    SpecDef {
        ast_type: owned(ast),
        method_names: strings(methods),
        name_source: owned("first_argument"),
        name_source_type: some("string_literal"),
        allow_anonymous: anonymous,
    }
}

/// `m` makes a `creates` of each `applies_to` whose name matches `pattern`.
pub open spec fn name_marker_is(m: MarkerDef, pattern: Seq<char>, applies_to: Seq<char>, creates: Seq<char>) -> bool {
    &&& m.marker_type@ == "name_pattern"@
    &&& m.marker_name is None
    &&& m.marker_argument is None
    &&& opt_view(m.pattern) == Some(pattern)
    &&& m.applies_to@ == applies_to
    &&& m.creates@ == creates
    &&& m.required_param_type is None
}

fn name_marker(pattern: &str, applies_to: &str, creates: &str) -> (r: MarkerDef)
    ensures
        name_marker_is(r, pattern@, applies_to@, creates@),
{
    MarkerDef {
        marker_type: owned("name_pattern"),
        marker_name: None,
        marker_argument: None,
        pattern: some(pattern),
        applies_to: owned(applies_to),
        creates: owned(creates),
        required_param_type: None,
    }
}

/// `m` makes a `creates` of each `applies_to` that carries the
/// `marker_type` named `name` (with `argument`, when one is given).
pub open spec fn named_marker_is(
    m: MarkerDef,
    marker_type: Seq<char>,
    name: Seq<char>,
    argument: Option<Seq<char>>,
    applies_to: Seq<char>,
    creates: Seq<char>,
) -> bool {
    &&& m.marker_type@ == marker_type
    &&& opt_view(m.marker_name) == Some(name)
    &&& opt_view(m.marker_argument) == argument
    &&& m.pattern is None
    &&& m.applies_to@ == applies_to
    &&& m.creates@ == creates
    &&& m.required_param_type is None
}

fn named_marker(marker_type: &str, name: &str, argument: Option<&str>, applies_to: &str, creates: &str) -> (r: MarkerDef)
    ensures
        named_marker_is(r, marker_type@, name@, opt_str(argument), applies_to@, creates@),
{
    MarkerDef {
        marker_type: owned(marker_type),
        marker_name: some(name),
        marker_argument: match argument {
            Some(a) => some(a),
            None => None,
        },
        pattern: None,
        applies_to: owned(applies_to),
        creates: owned(creates),
        required_param_type: None,
    }
}

/// `n` strips the first of `prefixes` and of `suffixes` that matches,
/// with the three switches as given.
pub open spec fn normalization_is(n: NormalizationDef, prefixes: Seq<Seq<char>>, suffixes: Seq<Seq<char>>, underscore: bool, camel: bool, raw: bool) -> bool {
    &&& views(n.strip_prefixes@) =~= prefixes
    &&& views(n.strip_suffixes@) =~= suffixes
    &&& n.underscore_to_space == underscore
    &&& n.strip_camel_test_prefix == camel
    &&& n.raw == raw
}

fn normalization(prefixes: &[&str], suffixes: &[&str], underscore: bool, camel: bool, raw: bool) -> (r: NormalizationDef)
    ensures
        normalization_is(r, str_views(prefixes@), str_views(suffixes@), underscore, camel, raw),
{
    NormalizationDef {
        strip_prefixes: strings(prefixes),
        strip_suffixes: strings(suffixes),
        underscore_to_space: underscore,
        strip_camel_test_prefix: camel,
        raw,
    }
}

/// `p` shows a path without the first of `prefixes` and of `suffixes`
/// that matches and without its extension, with `::` between segments.
pub open spec fn path_grouping_is(p: PathGroupingDef, prefixes: Seq<Seq<char>>, suffixes: Seq<Seq<char>>) -> bool {
    &&& views(p.strip_prefixes@) =~= prefixes
    &&& views(p.strip_suffixes@) =~= suffixes
    &&& p.separator@ == "::"@
    &&& p.strip_extension
}

fn path_grouping(prefixes: &[&str], suffixes: &[&str]) -> (r: PathGroupingDef)
    ensures
        path_grouping_is(r, str_views(prefixes@), str_views(suffixes@)),
{
    PathGroupingDef {
        strip_prefixes: strings(prefixes),
        strip_suffixes: strings(suffixes),
        separator: owned("::"),
        strip_extension: true,
    }
}

/// `a` names the node kinds of functions, methods and classes, which are
/// named by their `name` field and hold their body in `body_field`.
pub open spec fn ast_kinds_is(a: AstKindsDef, function: Option<Seq<char>>, method: Option<Seq<char>>, class: Option<Seq<char>>, body_field: Seq<char>) -> bool {
    &&& opt_view(a.function) == function
    &&& opt_view(a.method) == method
    &&& opt_view(a.class) == class
    &&& opt_view(a.name_field) == Some("name"@)
    &&& a.name_child is None
    &&& a.name_child_alt is None
    &&& opt_view(a.body_field) == Some(body_field)
    &&& a.body_child is None
}

fn ast_kinds(function: Option<&str>, method: Option<&str>, class: Option<&str>, body_field: &str) -> (r: AstKindsDef)
    ensures
        ast_kinds_is(r, opt_str(function), opt_str(method), opt_str(class), body_field@),
{
    AstKindsDef {
        function: match function {
            Some(f) => some(f),
            None => None,
        },
        method: match method {
            Some(m) => some(m),
            None => None,
        },
        class: match class {
            Some(c) => some(c),
            None => None,
        },
        name_field: some("name"),
        name_child: None,
        name_child_alt: None,
        body_field: some(body_field),
        body_child: None,
    }
}

/// `i` resolves the inherited types of nodes of `type_kinds`, with one
/// way of detecting references, and no inert containers or scan globs.
pub open spec fn inheritance_is(i: InheritanceDef, type_kinds: Seq<Seq<char>>, strategy: Seq<char>, containers: Seq<Seq<char>>, args: Seq<Seq<char>>, methods: Seq<Seq<char>>) -> bool {
    &&& i.enabled
    &&& views(i.type_node_kinds@) =~= type_kinds
    &&& i.inert_containers@.len() == 0
    &&& i.scan_globs@.len() == 0
    &&& i.ref_detection@.len() == 1
    &&& ref_detection_is(i.ref_detection@[0], strategy, containers, args, methods)
}

fn inheritance(type_kinds: &[&str], detection: Vec<RefDetectionDef>) -> (r: InheritanceDef)
    ensures
        r.enabled,
        views(r.type_node_kinds@) == str_views(type_kinds@),
        r.inert_containers@.len() == 0,
        r.scan_globs@.len() == 0,
        r.ref_detection@ == detection@,
{
    InheritanceDef {
        enabled: true,
        type_node_kinds: strings(type_kinds),
        inert_containers: Vec::new(),
        scan_globs: Vec::new(),
        ref_detection: detection,
    }
}

/// `d` detects references with `strategy` over the given node kinds and
/// method names.
pub open spec fn ref_detection_is(d: RefDetectionDef, strategy: Seq<char>, containers: Seq<Seq<char>>, args: Seq<Seq<char>>, methods: Seq<Seq<char>>) -> bool {
    &&& d.strategy@ == strategy
    &&& views(d.container_kinds@) =~= containers
    &&& views(d.arg_kinds@) =~= args
    &&& views(d.method_names@) =~= methods
}

fn ref_detection(strategy: &str, containers: &[&str], args: &[&str], methods: &[&str]) -> (r: RefDetectionDef)
    ensures
        ref_detection_is(r, strategy@, str_views(containers@), str_views(args@), str_views(methods@)),
{
    RefDetectionDef {
        strategy: owned(strategy),
        container_kinds: strings(containers),
        arg_kinds: strings(args),
        method_names: strings(methods),
    }
}

/// `l` expands `each` loops over literal symbol arrays, string arrays,
/// arrays and hashes.
pub open spec fn ruby_loops_is(l: LoopExpansionDef) -> bool {
    &&& l.enabled
    &&& l.each_method@ == "each"@
    &&& views(l.literal_receiver_kinds@) =~= seq!["symbol_array"@, "string_array"@, "array"@, "hash"@]
}

fn ruby_loops() -> (r: LoopExpansionDef)
    ensures
        ruby_loops_is(r),
{
    LoopExpansionDef {
        enabled: true,
        each_method: owned("each"),
        literal_receiver_kinds: {
            let k = strings(&["symbol_array", "string_array", "array", "hash"]);
            assert(views(k@) =~= seq!["symbol_array"@, "string_array"@, "array"@, "hash"@]);
            k
        },
    }
}

/// `p` counts the cases of a parameterized spec: detected by `detection`,
/// through the decorator, attribute or methods given, counting
/// `count_type` of `source`; no labels.
pub open spec fn param_is(
    p: ParameterizedDef,
    detection: Seq<char>,
    decorator: Option<Seq<char>>,
    attribute: Option<Seq<char>>,
    methods: Seq<Seq<char>>,
    source: Option<Seq<char>>,
    count_type: Option<Seq<char>>,
) -> bool {
    &&& p.detection@ == detection
    &&& opt_view(p.decorator_name) == decorator
    &&& opt_view(p.attribute_name) == attribute
    &&& views(p.method_names@) =~= methods
    &&& opt_view(p.case_count_source) == source
    &&& opt_view(p.case_count_type) == count_type
    &&& p.label_source is None
    &&& p.label_fallback is None
}

/// The RSpec table.
pub open spec fn rspec_def(r: FrameworkDef) -> bool {
    &&& base_is(r, "rspec"@, "ruby"@, "tree-sitter-ruby"@, "RSpec: behaviour-driven testing for Ruby"@, seq![".rb"@], seq!["spec/**/*_spec.rb"@])
    &&& unset_but(r, false, true, false, false, false, false, false, true, true)
    &&& r.group@.len() == 2
    &&& group_is(r.group@[0], "call"@, seq!["describe"@, "context"@, "feature"@], "string_literal"@)
    &&& group_is(r.group@[1], "call"@, seq!["describe"@], "constant"@)
    &&& r.spec@.len() == 2
    &&& spec_is(r.spec@[0], "call"@, seq!["it"@, "specify"@, "example"@], true)
    &&& spec_is(r.spec@[1], "call"@, seq!["scenario"@], false)
    &&& r.normalization matches Some(n) && normalization_is(n, seq![], seq![], false, false, true)
    &&& r.path_grouping matches Some(p) && path_grouping_is(p, seq!["spec/"@], seq!["_spec"@])
    &&& r.loop_expansion matches Some(l) && ruby_loops_is(l)
    &&& r.shared matches Some(sh) && {
        &&& views(sh.definition_globs@) =~= seq!["spec/support/**/*.rb"@, "spec/shared_examples/**/*.rb"@, "spec/shared_contexts/**/*.rb"@]
        &&& sh.scan_spec_files_for_definitions
        &&& sh.definition@.len() == 1
        &&& sh.definition@[0].ast_type@ == "call"@
        &&& views(sh.definition@[0].method_names@) =~= seq!["shared_examples"@, "shared_examples_for"@, "shared_context"@]
        &&& sh.definition@[0].name_source@ == "first_argument"@
        &&& opt_view(sh.definition@[0].name_source_type) == Some("string_literal"@)
        &&& opt_view(sh.definition@[0].body) == Some("block"@)
        &&& sh.definition@[0].detection_strategy is None
        &&& sh.definition@[0].handler is None
        &&& sh.inclusion@.len() == 2
        &&& sh.inclusion@[0].ast_type@ == "call"@
        &&& views(sh.inclusion@[0].method_names@) =~= seq!["include_examples"@, "include_context"@]
        &&& sh.inclusion@[0].name_source@ == "first_argument"@
        &&& opt_view(sh.inclusion@[0].name_source_type) == Some("string_literal"@)
        &&& opt_view(sh.inclusion@[0].nesting) == Some("inline"@)
        &&& sh.inclusion@[0].nested_name_template is None
        &&& sh.inclusion@[1].ast_type@ == "call"@
        &&& views(sh.inclusion@[1].method_names@) =~= seq!["it_behaves_like"@, "it_should_behave_like"@]
        &&& sh.inclusion@[1].name_source@ == "first_argument"@
        &&& opt_view(sh.inclusion@[1].name_source_type) == Some("string_literal"@)
        &&& opt_view(sh.inclusion@[1].nesting) == Some("nested"@)
        &&& opt_view(sh.inclusion@[1].nested_name_template) == Some("behaves like {name}"@)
    }
}

/// The Minitest table.
pub open spec fn minitest_def(r: FrameworkDef) -> bool {
    &&& base_is(r, "minitest"@, "ruby"@, "tree-sitter-ruby"@, "Minitest: the Ruby standard test library"@, seq![".rb"@], seq!["test/**/*_test.rb"@, "test/**/test_*.rb"@])
    &&& unset_but(r, true, true, false, false, false, true, true, true, false)
    &&& r.group@.len() == 2
    &&& group_is(r.group@[0], "call"@, seq!["describe"@], "string_literal"@)
    &&& group_is(r.group@[1], "call"@, seq!["describe"@], "constant"@)
    &&& r.spec@.len() == 1
    &&& spec_is(r.spec@[0], "call"@, seq!["it"@], false)
    &&& r.marker@.len() == 2
    &&& name_marker_is(r.marker@[0], "^Test"@, "class"@, "group"@)
    &&& name_marker_is(r.marker@[1], "^test_"@, "method"@, "spec"@)
    &&& r.normalization matches Some(n) && normalization_is(n, seq!["test_"@], seq![], true, true, false)
    &&& r.path_grouping matches Some(p) && path_grouping_is(p, seq!["test/"@], seq!["_test"@])
    &&& r.ast_kinds matches Some(a) && ast_kinds_is(a, None, Some("method"@), Some("class"@), "body"@)
    &&& r.inheritance matches Some(i) && inheritance_is(i, seq!["class"@, "module"@], "method_call"@, seq![], seq!["constant"@, "scope_resolution"@], seq!["include"@])
    &&& r.loop_expansion matches Some(l) && ruby_loops_is(l)
}

/// The Rust built-in table.
pub open spec fn rust_builtin_def(r: FrameworkDef) -> bool {
    &&& base_is(r, "rust_builtin"@, "rust"@, "tree-sitter-rust"@, "Rust built-in #[test] and #[cfg(test)]"@, seq![".rs"@], seq!["src/**/*.rs"@, "tests/**/*.rs"@])
    &&& unset_but(r, true, false, true, false, false, false, false, false, false)
    &&& r.marker@.len() == 3
    &&& named_marker_is(r.marker@[0], "attribute"@, "test"@, None, "function"@, "spec"@)
    &&& named_marker_is(r.marker@[1], "attribute"@, "cfg"@, Some("test"@), "module"@, "group"@)
    &&& named_marker_is(r.marker@[2], "attribute"@, "rstest"@, None, "function"@, "spec"@)
    &&& r.parameterized@.len() == 1
    &&& param_is(r.parameterized@[0], "attribute"@, None, Some("case"@), seq![], None, Some("attribute_count"@))
    &&& r.normalization matches Some(n) && normalization_is(n, seq!["test_"@], seq![], true, false, false)
    &&& r.path_grouping matches Some(p) && path_grouping_is(p, seq!["src/"@, "tests/"@], seq![])
}

/// The pytest table.
pub open spec fn pytest_def(r: FrameworkDef) -> bool {
    &&& base_is(r, "pytest"@, "python"@, "tree-sitter-python"@, "pytest: the Python testing framework"@, seq![".py"@], seq!["tests/**/test_*.py"@, "tests/**/*_test.py"@, "test_*.py"@, "*_test.py"@])
    &&& unset_but(r, true, false, true, false, false, true, true, false, false)
    &&& r.marker@.len() == 2
    &&& name_marker_is(r.marker@[0], "^Test"@, "class"@, "group"@)
    &&& name_marker_is(r.marker@[1], "^test_"@, "function"@, "spec"@)
    &&& r.parameterized@.len() == 1
    &&& param_is(r.parameterized@[0], "decorator"@, Some("pytest.mark.parametrize"@), None, seq![], Some("second_argument"@), Some("list_length"@))
    &&& r.normalization matches Some(n) && normalization_is(n, seq!["test_"@], seq![], true, true, false)
    &&& r.path_grouping matches Some(p) && path_grouping_is(p, seq!["tests/"@, "test/"@], seq!["_test"@])
    &&& r.ast_kinds matches Some(a) && ast_kinds_is(a, Some("function_definition"@), None, Some("class_definition"@), "body"@)
    &&& r.inheritance matches Some(i) && inheritance_is(i, seq!["class_definition"@], "superclass_args"@, seq![], seq!["identifier"@, "attribute"@], seq![])
}

/// The Jest table.
pub open spec fn jest_def(r: FrameworkDef) -> bool {
    &&& base_is(r, "jest"@, "javascript"@, "tree-sitter-javascript"@, "Jest, Vitest and Mocha: JavaScript testing"@, seq![".js"@, ".jsx"@, ".ts"@, ".tsx"@], seq!["**/*.test.js"@, "**/*.spec.js"@, "**/__tests__/**/*.js"@])
    &&& unset_but(r, false, true, true, false, false, false, false, false, false)
    &&& r.group@.len() == 1
    &&& group_is(r.group@[0], "call_expression"@, seq!["describe"@], "string_literal"@)
    &&& r.spec@.len() == 1
    &&& spec_is(r.spec@[0], "call_expression"@, seq!["it"@, "test"@], false)
    &&& r.parameterized@.len() == 1
    &&& param_is(r.parameterized@[0], "method_call"@, None, None, seq!["describe.each"@, "it.each"@, "test.each"@], Some("first_argument"@), Some("array_length"@))
    &&& r.normalization matches Some(n) && normalization_is(n, seq![], seq![], false, false, true)
    &&& r.path_grouping matches Some(p) && path_grouping_is(p, seq!["__tests__/"@, "test/"@, "tests/"@], seq![".test"@, ".spec"@])
}

/// The Go `testing` table.
pub open spec fn go_testing_def(r: FrameworkDef) -> bool {
    &&& base_is(r, "go_testing"@, "go"@, "tree-sitter-go"@, "Go testing: func Test and t.Run"@, seq![".go"@], seq!["**/*_test.go"@])
    &&& unset_but(r, true, false, false, true, true, false, true, false, false)
    &&& r.marker@.len() == 1
    &&& name_marker_is(r.marker@[0], "^Test"@, "function"@, "spec"@)
    &&& r.nested_discovery@.len() == 1
    &&& r.nested_discovery@[0].parent@ == "marker"@
    &&& r.nested_discovery@[0].ast_type@ == "call_expression"@
    &&& opt_view(r.nested_discovery@[0].receiver) == Some("t"@)
    &&& opt_view(r.nested_discovery@[0].method_name) == Some("Run"@)
    &&& r.nested_discovery@[0].name_source@ == "first_argument"@
    &&& opt_view(r.nested_discovery@[0].name_source_type) == Some("string_literal"@)
    &&& r.nested_discovery@[0].creates@ == "spec"@
    &&& r.table_driven matches Some(t) && t.enabled && opt_view(t.slice_pattern) == Some("composite_literal"@)
        && opt_view(t.loop_pattern) == Some("for_statement"@) && opt_view(t.run_call) == Some("t.Run"@)
    &&& r.normalization matches Some(n) && normalization_is(n, seq![], seq![], false, true, false)
    &&& r.path_grouping matches Some(p) && path_grouping_is(p, seq![], seq!["_test"@])
    &&& r.ast_kinds matches Some(a) && ast_kinds_is(a, Some("function_declaration"@), None, None, "body"@)
}

/// The ExUnit table.
pub open spec fn exunit_def(r: FrameworkDef) -> bool {
    &&& base_is(r, "exunit"@, "elixir"@, "tree-sitter-elixir"@, "ExUnit: the Elixir test framework"@, seq![".exs"@], seq!["test/**/*_test.exs"@])
    &&& unset_but(r, false, true, false, false, false, false, false, false, false)
    &&& r.group@.len() == 1
    &&& group_is(r.group@[0], "call"@, seq!["describe"@], "string_literal"@)
    &&& r.spec@.len() == 1
    &&& spec_is(r.spec@[0], "call"@, seq!["test"@], false)
    &&& r.normalization matches Some(n) && normalization_is(n, seq![], seq![], false, false, true)
    &&& r.path_grouping matches Some(p) && path_grouping_is(p, seq!["test/"@], seq!["_test"@])
}

/// The PHPUnit table.
pub open spec fn phpunit_def(r: FrameworkDef) -> bool {
    &&& base_is(r, "phpunit"@, "php"@, "tree-sitter-php"@, "PHPUnit: xUnit testing for PHP"@, seq![".php"@], seq!["tests/**/*Test.php"@])
    &&& unset_but(r, true, false, false, false, false, true, true, false, false)
    &&& r.marker@.len() == 2
    &&& name_marker_is(r.marker@[0], "Test$"@, "class"@, "group"@)
    &&& name_marker_is(r.marker@[1], "^test"@, "method"@, "spec"@)
    &&& r.normalization matches Some(n) && normalization_is(n, seq!["test"@], seq!["Test"@], false, false, false)
    &&& r.path_grouping matches Some(p) && path_grouping_is(p, seq!["tests/"@], seq!["Test"@])
    &&& r.ast_kinds matches Some(a) && ast_kinds_is(a, None, Some("method_declaration"@), Some("class_declaration"@), "body"@)
    &&& r.inheritance matches Some(i) && inheritance_is(i, seq!["class_declaration"@], "superclass_args"@, seq!["base_clause"@], seq!["name"@, "qualified_name"@], seq![])
}

/// The JUnit table.
pub open spec fn junit_def(r: FrameworkDef) -> bool {
    &&& base_is(r, "junit"@, "java"@, "tree-sitter-java"@, "JUnit: testing for Java"@, seq![".java"@], seq!["src/test/**/*.java"@, "tests/**/*.java"@])
    &&& unset_but(r, true, false, false, false, false, true, true, false, false)
    &&& r.marker@.len() == 3
    &&& named_marker_is(r.marker@[0], "annotation"@, "Test"@, None, "method"@, "spec"@)
    &&& named_marker_is(r.marker@[1], "annotation"@, "Nested"@, None, "class"@, "group"@)
    &&& name_marker_is(r.marker@[2], "Test$"@, "class"@, "group"@)
    &&& r.normalization matches Some(n) && normalization_is(n, seq!["test"@], seq!["Test"@], false, false, false)
    &&& r.path_grouping matches Some(p) && path_grouping_is(p, seq!["src/test/java/"@, "tests/"@], seq!["Test"@])
    &&& r.ast_kinds matches Some(a) && ast_kinds_is(a, None, Some("method_declaration"@), Some("class_declaration"@), "body"@)
    &&& r.inheritance matches Some(i) && inheritance_is(i, seq!["class_declaration"@], "superclass_args"@, seq!["superclass"@], seq!["type_identifier"@, "scoped_type_identifier"@], seq![])
}

/// The Pest table.
pub open spec fn pest_def(r: FrameworkDef) -> bool {
    &&& base_is(r, "pest"@, "php"@, "tree-sitter-php"@, "Pest: elegant testing for PHP"@, seq![".php"@], seq!["tests/**/*.php"@])
    &&& unset_but(r, false, true, true, false, false, false, false, false, false)
    &&& r.group@.len() == 1
    &&& group_is(r.group@[0], "function_call_expression"@, seq!["describe"@], "string_literal"@)
    &&& r.spec@.len() == 1
    &&& spec_is(r.spec@[0], "function_call_expression"@, seq!["test"@, "it"@], false)
    &&& r.parameterized@.len() == 1
    &&& param_is(r.parameterized@[0], "chained_method"@, None, None, seq!["with"@], Some("first_argument"@), Some("array_length"@))
    &&& r.normalization matches Some(n) && normalization_is(n, seq![], seq![], false, false, true)
    &&& r.path_grouping matches Some(p) && path_grouping_is(p, seq!["tests/"@], seq!["Test"@])
}

/// `fw` is the built-in framework of row `j` of the table, in full.
pub open spec fn builtin_def(j: int, fw: FrameworkDef) -> bool {
    if j == 0 {
        rspec_def(fw)
    } else if j == 1 {
        minitest_def(fw)
    } else if j == 2 {
        rust_builtin_def(fw)
    } else if j == 3 {
        pytest_def(fw)
    } else if j == 4 {
        jest_def(fw)
    } else if j == 5 {
        go_testing_def(fw)
    } else if j == 6 {
        exunit_def(fw)
    } else if j == 7 {
        phpunit_def(fw)
    } else if j == 8 {
        junit_def(fw)
    } else if j == 9 {
        pest_def(fw)
    } else {
        false
    }
}

/// RSpec: `describe` / `context` groups, `it` specs, shared examples.
pub fn rspec() -> (r: FrameworkDef)
    ensures
        rspec_def(r),
        r.name@ == "rspec"@,
        r.language@ == "ruby"@,
        r.files is Some,
        has_inclusions(r) == true,
        inheritance_on(r) == false,
        views(r.files.unwrap().extensions@) == seq![".rb"@],
{
    let mut fw = base("rspec", "ruby", "tree-sitter-ruby", "RSpec: behaviour-driven testing for Ruby", &[".rb"], &["spec/**/*_spec.rb"]);
    assert(views(fw.files.unwrap().extensions@) =~= seq![".rb"@]);
    fw.group.push(group("call", &["describe", "context", "feature"], "string_literal"));
    fw.group.push(group("call", &["describe"], "constant"));
    fw.spec.push(spec("call", &["it", "specify", "example"], true));
    fw.spec.push(spec("call", &["scenario"], false));
    fw.normalization = Some(normalization(&[], &[], false, false, true));
    fw.path_grouping = Some(path_grouping(&["spec/"], &["_spec"]));
    let mut shared = SharedDef {
        definition_globs: strings(&["spec/support/**/*.rb", "spec/shared_examples/**/*.rb", "spec/shared_contexts/**/*.rb"]),
        scan_spec_files_for_definitions: true,
        definition: Vec::new(),
        inclusion: Vec::new(),
    };
    shared.definition.push(SharedDefinitionDef {
        ast_type: owned("call"),
        method_names: strings(&["shared_examples", "shared_examples_for", "shared_context"]),
        name_source: owned("first_argument"),
        name_source_type: some("string_literal"),
        body: some("block"),
        detection_strategy: None,
        handler: None,
    });
    shared.inclusion.push(SharedInclusionDef {
        ast_type: owned("call"),
        method_names: strings(&["include_examples", "include_context"]),
        name_source: owned("first_argument"),
        name_source_type: some("string_literal"),
        nesting: some("inline"),
        nested_name_template: None,
    });
    shared.inclusion.push(SharedInclusionDef {
        ast_type: owned("call"),
        method_names: strings(&["it_behaves_like", "it_should_behave_like"]),
        name_source: owned("first_argument"),
        name_source_type: some("string_literal"),
        nesting: some("nested"),
        nested_name_template: some("behaves like {name}"),
    });
    fw.shared = Some(shared);
    fw.loop_expansion = Some(ruby_loops());
    fw
}

/// Minitest: `Test*` classes with `test_*` methods, the spec DSL, and
/// modules mixed in with `include`.
pub fn minitest() -> (r: FrameworkDef)
    ensures
        minitest_def(r),
        r.name@ == "minitest"@,
        r.language@ == "ruby"@,
        r.files is Some,
        has_inclusions(r) == false,
        inheritance_on(r) == true,
        views(r.files.unwrap().extensions@) == seq![".rb"@],
{
    let mut fw = base("minitest", "ruby", "tree-sitter-ruby", "Minitest: the Ruby standard test library", &[".rb"], &["test/**/*_test.rb", "test/**/test_*.rb"]);
    assert(views(fw.files.unwrap().extensions@) =~= seq![".rb"@]);
    fw.group.push(group("call", &["describe"], "string_literal"));
    fw.group.push(group("call", &["describe"], "constant"));
    fw.spec.push(spec("call", &["it"], false));
    fw.marker.push(name_marker("^Test", "class", "group"));
    fw.marker.push(name_marker("^test_", "method", "spec"));
    fw.normalization = Some(normalization(&["test_"], &[], true, true, false));
    fw.path_grouping = Some(path_grouping(&["test/"], &["_test"]));
    fw.ast_kinds = Some(ast_kinds(None, Some("method"), Some("class"), "body"));
    let mut detection: Vec<RefDetectionDef> = Vec::new();
    detection.push(ref_detection("method_call", &[], &["constant", "scope_resolution"], &["include"]));
    fw.inheritance = Some(inheritance(&["class", "module"], detection));
    fw.loop_expansion = Some(ruby_loops());
    fw
}

/// The Rust built-in harness: `#[test]` functions, `#[cfg(test)]`
/// modules, and `#[rstest]` functions with `#[case]` rows.
pub fn rust_builtin() -> (r: FrameworkDef)
    ensures
        rust_builtin_def(r),
        r.name@ == "rust_builtin"@,
        r.language@ == "rust"@,
        r.files is Some,
        has_inclusions(r) == false,
        inheritance_on(r) == false,
        views(r.files.unwrap().extensions@) == seq![".rs"@],
        r.normalization matches Some(n) && views(n.strip_prefixes@) == seq!["test_"@] && n.strip_suffixes@.len() == 0
            && n.underscore_to_space && !n.strip_camel_test_prefix && !n.raw,
{
    let mut fw = base("rust_builtin", "rust", "tree-sitter-rust", "Rust built-in #[test] and #[cfg(test)]", &[".rs"], &["src/**/*.rs", "tests/**/*.rs"]);
    assert(views(fw.files.unwrap().extensions@) =~= seq![".rs"@]);
    fw.marker.push(named_marker("attribute", "test", None, "function", "spec"));
    fw.marker.push(named_marker("attribute", "cfg", Some("test"), "module", "group"));
    fw.marker.push(named_marker("attribute", "rstest", None, "function", "spec"));
    fw.parameterized.push(ParameterizedDef {
        detection: owned("attribute"),
        decorator_name: None,
        attribute_name: some("case"),
        method_names: Vec::new(),
        case_count_source: None,
        case_count_type: some("attribute_count"),
        label_source: None,
        label_fallback: None,
    });
    let norm = normalization(&["test_"], &[], true, false, false);
    assert(views(norm.strip_prefixes@) =~= seq!["test_"@]);
    assert(views(norm.strip_suffixes@).len() == 0);
    assert(norm.strip_suffixes@.len() == 0);
    fw.normalization = Some(norm);
    fw.path_grouping = Some(path_grouping(&["src/", "tests/"], &[]));
    fw
}

/// pytest: `Test*` classes, `test_*` functions, `parametrize` rows and
/// inherited test methods.
pub fn pytest() -> (r: FrameworkDef)
    ensures
        pytest_def(r),
        r.name@ == "pytest"@,
        r.language@ == "python"@,
        r.files is Some,
        has_inclusions(r) == false,
        inheritance_on(r) == true,
        views(r.files.unwrap().extensions@) == seq![".py"@],
{
    let mut fw = base("pytest", "python", "tree-sitter-python", "pytest: the Python testing framework", &[".py"], &["tests/**/test_*.py", "tests/**/*_test.py", "test_*.py", "*_test.py"]);
    assert(views(fw.files.unwrap().extensions@) =~= seq![".py"@]);
    fw.marker.push(name_marker("^Test", "class", "group"));
    fw.marker.push(name_marker("^test_", "function", "spec"));
    fw.parameterized.push(ParameterizedDef {
        detection: owned("decorator"),
        decorator_name: some("pytest.mark.parametrize"),
        attribute_name: None,
        method_names: Vec::new(),
        case_count_source: some("second_argument"),
        case_count_type: some("list_length"),
        label_source: None,
        label_fallback: None,
    });
    fw.normalization = Some(normalization(&["test_"], &[], true, true, false));
    fw.path_grouping = Some(path_grouping(&["tests/", "test/"], &["_test"]));
    fw.ast_kinds = Some(ast_kinds(Some("function_definition"), None, Some("class_definition"), "body"));
    let mut detection: Vec<RefDetectionDef> = Vec::new();
    detection.push(ref_detection("superclass_args", &[], &["identifier", "attribute"], &[]));
    fw.inheritance = Some(inheritance(&["class_definition"], detection));
    fw
}

/// Jest, Vitest and Mocha: `describe` groups, `it` / `test` specs and
/// `.each` tables.
pub fn jest() -> (r: FrameworkDef)
    ensures
        jest_def(r),
        r.name@ == "jest"@,
        r.language@ == "javascript"@,
        r.files is Some,
        has_inclusions(r) == false,
        inheritance_on(r) == false,
        views(r.files.unwrap().extensions@) == seq![".js"@, ".jsx"@, ".ts"@, ".tsx"@],
{
    let mut fw = base("jest", "javascript", "tree-sitter-javascript", "Jest, Vitest and Mocha: JavaScript testing", &[".js", ".jsx", ".ts", ".tsx"], &["**/*.test.js", "**/*.spec.js", "**/__tests__/**/*.js"]);
    assert(views(fw.files.unwrap().extensions@) =~= seq![".js"@, ".jsx"@, ".ts"@, ".tsx"@]);
    fw.group.push(group("call_expression", &["describe"], "string_literal"));
    fw.spec.push(spec("call_expression", &["it", "test"], false));
    fw.parameterized.push(ParameterizedDef {
        detection: owned("method_call"),
        decorator_name: None,
        attribute_name: None,
        method_names: strings(&["describe.each", "it.each", "test.each"]),
        case_count_source: some("first_argument"),
        case_count_type: some("array_length"),
        label_source: None,
        label_fallback: None,
    });
    fw.normalization = Some(normalization(&[], &[], false, false, true));
    fw.path_grouping = Some(path_grouping(&["__tests__/", "test/", "tests/"], &[".test", ".spec"]));
    fw
}

/// Go's `testing` package: `Test*` functions, `t.Run` sub-tests and
/// table-driven cases.
pub fn go_testing() -> (r: FrameworkDef)
    ensures
        go_testing_def(r),
        r.name@ == "go_testing"@,
        r.language@ == "go"@,
        r.files is Some,
        has_inclusions(r) == false,
        inheritance_on(r) == false,
        views(r.files.unwrap().extensions@) == seq![".go"@],
{
    let mut fw = base("go_testing", "go", "tree-sitter-go", "Go testing: func Test and t.Run", &[".go"], &["**/*_test.go"]);
    assert(views(fw.files.unwrap().extensions@) =~= seq![".go"@]);
    fw.marker.push(name_marker("^Test", "function", "spec"));
    fw.nested_discovery.push(NestedDiscoveryDef {
        parent: owned("marker"),
        ast_type: owned("call_expression"),
        receiver: some("t"),
        method_name: some("Run"),
        name_source: owned("first_argument"),
        name_source_type: some("string_literal"),
        creates: owned("spec"),
    });
    fw.table_driven = Some(TableDrivenDef {
        enabled: true,
        slice_pattern: some("composite_literal"),
        loop_pattern: some("for_statement"),
        run_call: some("t.Run"),
    });
    fw.normalization = Some(normalization(&[], &[], false, true, false));
    fw.path_grouping = Some(path_grouping(&[], &["_test"]));
    fw.ast_kinds = Some(ast_kinds(Some("function_declaration"), None, None, "body"));
    fw
}

/// ExUnit: `describe` groups and `test` specs.
pub fn exunit() -> (r: FrameworkDef)
    ensures
        exunit_def(r),
        r.name@ == "exunit"@,
        r.language@ == "elixir"@,
        r.files is Some,
        has_inclusions(r) == false,
        inheritance_on(r) == false,
        views(r.files.unwrap().extensions@) == seq![".exs"@],
{
    let mut fw = base("exunit", "elixir", "tree-sitter-elixir", "ExUnit: the Elixir test framework", &[".exs"], &["test/**/*_test.exs"]);
    assert(views(fw.files.unwrap().extensions@) =~= seq![".exs"@]);
    fw.group.push(group("call", &["describe"], "string_literal"));
    fw.spec.push(spec("call", &["test"], false));
    fw.normalization = Some(normalization(&[], &[], false, false, true));
    fw.path_grouping = Some(path_grouping(&["test/"], &["_test"]));
    fw
}

/// PHPUnit: `*Test` classes with `test*` methods and inherited methods.
pub fn phpunit() -> (r: FrameworkDef)
    ensures
        phpunit_def(r),
        r.name@ == "phpunit"@,
        r.language@ == "php"@,
        r.files is Some,
        has_inclusions(r) == false,
        inheritance_on(r) == true,
        views(r.files.unwrap().extensions@) == seq![".php"@],
{
    let mut fw = base("phpunit", "php", "tree-sitter-php", "PHPUnit: xUnit testing for PHP", &[".php"], &["tests/**/*Test.php"]);
    assert(views(fw.files.unwrap().extensions@) =~= seq![".php"@]);
    fw.marker.push(name_marker("Test$", "class", "group"));
    fw.marker.push(name_marker("^test", "method", "spec"));
    fw.normalization = Some(normalization(&["test"], &["Test"], false, false, false));
    fw.path_grouping = Some(path_grouping(&["tests/"], &["Test"]));
    fw.ast_kinds = Some(ast_kinds(None, Some("method_declaration"), Some("class_declaration"), "body"));
    let mut detection: Vec<RefDetectionDef> = Vec::new();
    detection.push(ref_detection("superclass_args", &["base_clause"], &["name", "qualified_name"], &[]));
    fw.inheritance = Some(inheritance(&["class_declaration"], detection));
    fw
}

/// JUnit: `@Test` methods, `*Test` and `@Nested` classes, inherited
/// methods.
pub fn junit() -> (r: FrameworkDef)
    ensures
        junit_def(r),
        r.name@ == "junit"@,
        r.language@ == "java"@,
        r.files is Some,
        has_inclusions(r) == false,
        inheritance_on(r) == true,
        views(r.files.unwrap().extensions@) == seq![".java"@],
{
    let mut fw = base("junit", "java", "tree-sitter-java", "JUnit: testing for Java", &[".java"], &["src/test/**/*.java", "tests/**/*.java"]);
    assert(views(fw.files.unwrap().extensions@) =~= seq![".java"@]);
    fw.marker.push(named_marker("annotation", "Test", None, "method", "spec"));
    fw.marker.push(named_marker("annotation", "Nested", None, "class", "group"));
    fw.marker.push(name_marker("Test$", "class", "group"));
    fw.normalization = Some(normalization(&["test"], &["Test"], false, false, false));
    fw.path_grouping = Some(path_grouping(&["src/test/java/", "tests/"], &["Test"]));
    fw.ast_kinds = Some(ast_kinds(None, Some("method_declaration"), Some("class_declaration"), "body"));
    let mut detection: Vec<RefDetectionDef> = Vec::new();
    detection.push(ref_detection("superclass_args", &["superclass"], &["type_identifier", "scoped_type_identifier"], &[]));
    fw.inheritance = Some(inheritance(&["class_declaration"], detection));
    fw
}

/// Pest: `describe` groups, `test` / `it` specs and `->with(...)`
/// datasets.
pub fn pest() -> (r: FrameworkDef)
    ensures
        pest_def(r),
        r.name@ == "pest"@,
        r.language@ == "php"@,
        r.files is Some,
        has_inclusions(r) == false,
        inheritance_on(r) == false,
        views(r.files.unwrap().extensions@) == seq![".php"@],
{
    let mut fw = base("pest", "php", "tree-sitter-php", "Pest: elegant testing for PHP", &[".php"], &["tests/**/*.php"]);
    assert(views(fw.files.unwrap().extensions@) =~= seq![".php"@]);
    fw.group.push(group("function_call_expression", &["describe"], "string_literal"));
    fw.spec.push(spec("function_call_expression", &["test", "it"], false));
    fw.parameterized.push(ParameterizedDef {
        detection: owned("chained_method"),
        decorator_name: None,
        attribute_name: None,
        method_names: strings(&["with"]),
        case_count_source: some("first_argument"),
        case_count_type: some("array_length"),
        label_source: None,
        label_fallback: None,
    });
    fw.normalization = Some(normalization(&[], &[], false, false, true));
    fw.path_grouping = Some(path_grouping(&["tests/"], &["Test"]));
    fw
}

} // verus!

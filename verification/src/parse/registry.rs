//! Declarative descriptions of test frameworks: which files they own and
//! which syntax-tree shapes are groups, specs, markers and shared examples.
use vstd::prelude::*;

verus! {

/// A file of framework descriptions.
#[derive(Debug)]
pub struct TomlFile {
    pub framework: Vec<FrameworkDef>,
}

/// Everything the parsing engine needs to know about one framework.
#[derive(Debug)]
pub struct FrameworkDef {
    pub name: String,
    pub language: String,
    pub tree_sitter_crate: String,
    pub description: String,
    pub extends: Option<String>,
    pub additional_languages: Vec<String>,
    pub additional_crates: Vec<String>,
    pub files: Option<FileDef>,
    pub group: Vec<GroupDef>,
    pub spec: Vec<SpecDef>,
    pub marker: Vec<MarkerDef>,
    pub normalization: Option<NormalizationDef>,
    pub path_grouping: Option<PathGroupingDef>,
    pub shared: Option<SharedDef>,
    pub parameterized: Vec<ParameterizedDef>,
    pub property_based: Vec<PropertyBasedDef>,
    pub nested_discovery: Vec<NestedDiscoveryDef>,
    pub table_driven: Option<TableDrivenDef>,
    pub inheritance: Option<InheritanceDef>,
    pub loop_expansion: Option<LoopExpansionDef>,
    pub ast_kinds: Option<AstKindsDef>,
    pub handler: Option<String>,
}

/// Which files a framework owns.
#[derive(Debug)]
pub struct FileDef {
    pub extensions: Vec<String>,
    pub include_globs: Vec<String>,
    pub exclude_globs: Vec<String>,
    pub require_ast_confirmation: bool,
}

/// A call that opens a group (`describe`, `context`, ...).
#[derive(Debug)]
pub struct GroupDef {
    pub ast_type: String,
    pub method_names: Vec<String>,
    pub name_source: String,
    pub name_source_type: Option<String>,
}

/// A call that declares a spec (`it`, `test`, ...).
#[derive(Debug)]
pub struct SpecDef {
    pub ast_type: String,
    pub method_names: Vec<String>,
    pub name_source: String,
    pub name_source_type: Option<String>,
    pub allow_anonymous: bool,
}

/// A declaration recognised by an attribute, an annotation or its name.
#[derive(Debug)]
pub struct MarkerDef {
    pub marker_type: String,
    pub marker_name: Option<String>,
    pub marker_argument: Option<String>,
    pub pattern: Option<String>,
    pub applies_to: String,
    pub creates: String,
    pub required_param_type: Option<String>,
}

/// How declaration names become display names.
#[derive(Debug)]
pub struct NormalizationDef {
    pub strip_prefixes: Vec<String>,
    pub strip_suffixes: Vec<String>,
    pub underscore_to_space: bool,
    pub strip_camel_test_prefix: bool,
    pub raw: bool,
}

/// How file paths become module-like names.
#[derive(Debug)]
pub struct PathGroupingDef {
    pub strip_prefixes: Vec<String>,
    pub strip_suffixes: Vec<String>,
    pub separator: String,
    pub strip_extension: bool,
}

/// Shared examples: where they are defined and how they are included.
#[derive(Debug)]
pub struct SharedDef {
    pub definition_globs: Vec<String>,
    pub scan_spec_files_for_definitions: bool,
    pub definition: Vec<SharedDefinitionDef>,
    pub inclusion: Vec<SharedInclusionDef>,
}

/// A call that defines a shared example group.
#[derive(Debug)]
pub struct SharedDefinitionDef {
    pub ast_type: String,
    pub method_names: Vec<String>,
    pub name_source: String,
    pub name_source_type: Option<String>,
    pub body: Option<String>,
    pub detection_strategy: Option<String>,
    pub handler: Option<String>,
}

/// A call that includes a shared example group.
#[derive(Debug)]
pub struct SharedInclusionDef {
    pub ast_type: String,
    pub method_names: Vec<String>,
    pub name_source: String,
    pub name_source_type: Option<String>,
    pub nesting: Option<String>,
    pub nested_name_template: Option<String>,
}

/// One way a framework declares parameterized cases.
#[derive(Debug)]
pub struct ParameterizedDef {
    pub detection: String,
    pub decorator_name: Option<String>,
    pub attribute_name: Option<String>,
    pub method_names: Vec<String>,
    pub case_count_source: Option<String>,
    pub case_count_type: Option<String>,
    pub label_source: Option<String>,
    pub label_fallback: Option<String>,
}

/// One way a framework declares property-based tests.
#[derive(Debug)]
pub struct PropertyBasedDef {
    pub detection: String,
    pub macro_name: Option<String>,
    pub decorator_name: Option<String>,
    pub decorator_module: Option<String>,
}

/// Sub-tests discovered inside a spec's body (`t.Run`).
#[derive(Debug)]
pub struct NestedDiscoveryDef {
    pub parent: String,
    pub ast_type: String,
    pub receiver: Option<String>,
    pub method_name: Option<String>,
    pub name_source: String,
    pub name_source_type: Option<String>,
    pub creates: String,
}

/// Table-driven tests: a literal table iterated by a loop that runs
/// sub-tests.
#[derive(Debug)]
pub struct TableDrivenDef {
    pub enabled: bool,
    pub slice_pattern: Option<String>,
    pub loop_pattern: Option<String>,
    pub run_call: Option<String>,
}

/// Specs inherited from base classes or included modules.
#[derive(Debug)]
pub struct InheritanceDef {
    pub enabled: bool,
    pub type_node_kinds: Vec<String>,
    pub inert_containers: Vec<String>,
    pub scan_globs: Vec<String>,
    pub ref_detection: Vec<RefDetectionDef>,
}

/// One way a type names the types it inherits from.
#[derive(Debug)]
pub struct RefDetectionDef {
    pub strategy: String,
    pub container_kinds: Vec<String>,
    pub arg_kinds: Vec<String>,
    pub method_names: Vec<String>,
}

/// Expansion of `.each` loops over literal collections.
#[derive(Debug)]
pub struct LoopExpansionDef {
    pub enabled: bool,
    pub each_method: String,
    pub literal_receiver_kinds: Vec<String>,
}

/// The syntax-tree kinds and fields of a language's declarations.
#[derive(Debug)]
pub struct AstKindsDef {
    pub function: Option<String>,
    pub method: Option<String>,
    pub class: Option<String>,
    pub name_field: Option<String>,
    pub name_child: Option<String>,
    pub name_child_alt: Option<String>,
    pub body_field: Option<String>,
    pub body_child: Option<String>,
}

/// `ext` (with its leading dot) is one of the framework's extensions.
pub open spec fn owns_extension(fw: FrameworkDef, ext: Seq<char>) -> bool {
    match fw.files {
        Some(f) => exists|k: int| 0 <= k < f.extensions@.len() && (#[trigger] f.extensions@[k])@ == ext,
        None => false,
    }
}

/// Whether one of the strings equals `s`.
pub fn contains_str(v: &Vec<String>, s: &str) -> (r: bool)
    ensures
        r == exists|k: int| 0 <= k < v@.len() && (#[trigger] v@[k])@ == s@,
{
    let mut i: usize = 0;
    while i < v.len()
        invariant
            i <= v.len(),
            forall|k: int| 0 <= k < i ==> (#[trigger] v@[k])@ != s@,
        decreases v.len() - i,
    {
        if crate::text::str_eq(v[i].as_str(), s) {
            return true;
        }
        i += 1;
    }
    false
}

/// The view of an optional string.
pub open spec fn opt_view(o: Option<String>) -> Option<Seq<char>> {
    match o {
        Some(s) => Some(s@),
        None => None,
    }
}

/// `r` holds, in order, the frameworks of `all` that own `ext`.
pub open spec fn selected(all: Seq<FrameworkDef>, ext: Option<Seq<char>>, r: Seq<FrameworkDef>) -> bool
    decreases all.len(),
{
    if all.len() == 0 {
        r.len() == 0
    } else if ext is Some && owns_extension(all.last(), ext.unwrap()) {
        r.len() > 0 && r.last() == all.last() && selected(all.drop_last(), ext, r.drop_last())
    } else {
        selected(all.drop_last(), ext, r)
    }
}

/// Keeps, in order, the frameworks that own the extension `ext` (written
/// with its leading dot); none when there is no extension.
pub fn select_by_extension(all: Vec<FrameworkDef>, ext: Option<String>) -> (r: Vec<FrameworkDef>)
    ensures
        selected(all@, opt_view(ext), r@),
{
    let ghost orig = all@;
    let ghost e = opt_view(ext);
    let mut rest = all;
    let mut out: Vec<FrameworkDef> = Vec::new();
    let mut done: usize = 0;
    assert(orig.len() == rest.len());
    while rest.len() > 0
        invariant
            e == opt_view(ext),
            orig.len() <= usize::MAX,
            done + rest@.len() == orig.len(),
            rest@ == orig.subrange(done as int, orig.len() as int),
            selected(orig.subrange(0, done as int), e, out@),
        decreases rest@.len(),
    {
        let fw = rest.remove(0);
        let ghost next = orig.subrange(0, done + 1);
        assert(next.drop_last() =~= orig.subrange(0, done as int));
        assert(fw == orig[done as int]);
        let ghost out0 = out@;
        let keep = match (&fw.files, &ext) {
            (Some(f), Some(x)) => contains_str(&f.extensions, x.as_str()),
            _ => false,
        };
        if keep {
            out.push(fw);
            assert(out@.drop_last() =~= out0);
        }
        done += 1;
        assert(rest@ =~= orig.subrange(done as int, orig.len() as int));
    }
    assert(orig.subrange(0, done as int) =~= orig);
    out
}

/// The framework says how shared examples are included.
pub open spec fn has_inclusions(fw: FrameworkDef) -> bool {
    fw.shared matches Some(s) && s.inclusion@.len() > 0
}

/// The framework resolves inherited test types.
pub open spec fn inheritance_on(fw: FrameworkDef) -> bool {
    fw.inheritance matches Some(i) && i.enabled
}

/// The built-in frameworks, in order: name, the file extensions (dot
/// included) each owns, whether it says how shared examples are included,
/// and whether it resolves inherited test types.
pub open spec fn builtin_table() -> Seq<(Seq<char>, Seq<Seq<char>>, bool, bool)> {
    seq![
        ("rspec"@, seq![".rb"@], true, false),
        ("minitest"@, seq![".rb"@], false, true),
        ("rust_builtin"@, seq![".rs"@], false, false),
        ("pytest"@, seq![".py"@], false, true),
        ("jest"@, seq![".js"@, ".jsx"@, ".ts"@, ".tsx"@], false, false),
        ("go_testing"@, seq![".go"@], false, false),
        ("exunit"@, seq![".exs"@], false, false),
        ("phpunit"@, seq![".php"@], false, true),
        ("junit"@, seq![".java"@], false, true),
        ("pest"@, seq![".php"@], false, false),
    ]
}

/// `fw` is described by a row of the table.
pub open spec fn row_fits(fw: FrameworkDef, row: (Seq<char>, Seq<Seq<char>>, bool, bool)) -> bool {
    &&& fw.name@ == row.0
    &&& fw.files is Some
    &&& crate::parse::engine::views(fw.files.unwrap().extensions@) == row.1
    &&& has_inclusions(fw) == row.2
    &&& inheritance_on(fw) == row.3
}

/// `fws` are described by `table`, row for row.
pub open spec fn described_by(fws: Seq<FrameworkDef>, table: Seq<(Seq<char>, Seq<Seq<char>>, bool, bool)>) -> bool {
    &&& fws.len() == table.len()
    &&& forall|k: int| 0 <= k < fws.len() ==> row_fits(#[trigger] fws[k], table[k])
}

/// The rows, in order, of the frameworks of `table` that own `ext`.
pub open spec fn owner_rows(table: Seq<(Seq<char>, Seq<Seq<char>>, bool, bool)>, ext: Option<Seq<char>>) -> Seq<int>
    decreases table.len(),
{
    if table.len() == 0 {
        seq![]
    } else if ext is Some && table.last().1.contains(ext.unwrap()) {
        owner_rows(table.drop_last(), ext).push(table.len() - 1)
    } else {
        owner_rows(table.drop_last(), ext)
    }
}

/// Rows found by `owner_rows` lie within the table.
pub proof fn lemma_owner_rows_bounded(table: Seq<(Seq<char>, Seq<Seq<char>>, bool, bool)>, ext: Option<Seq<char>>)
    ensures
        forall|k: int| 0 <= k < owner_rows(table, ext).len() ==> 0 <= #[trigger] owner_rows(table, ext)[k] < table.len(),
    decreases table.len(),
{
    if table.len() > 0 {
        lemma_owner_rows_bounded(table.drop_last(), ext);
        let prev = owner_rows(table.drop_last(), ext);
        let rows = owner_rows(table, ext);
        assert forall|k: int| 0 <= k < rows.len() implies 0 <= #[trigger] rows[k] < table.len() by {
            if k < prev.len() {
                assert(rows[k] == prev[k]);
            }
        }
    }
}

/// Selecting by extension among frameworks described by a table keeps,
/// in order, the frameworks of the table's rows that own the extension.
pub proof fn lemma_selected_rows(all: Seq<FrameworkDef>, table: Seq<(Seq<char>, Seq<Seq<char>>, bool, bool)>, ext: Option<Seq<char>>, r: Seq<FrameworkDef>)
    requires
        described_by(all, table),
        selected(all, ext, r),
    ensures
        r.len() == owner_rows(table, ext).len(),
        forall|k: int| 0 <= k < r.len() ==> row_fits(#[trigger] r[k], table[owner_rows(table, ext)[k]]),
        forall|k: int| 0 <= k < r.len() ==> #[trigger] r[k] == all[owner_rows(table, ext)[k]],
    decreases all.len(),
{
    lemma_owner_rows_bounded(table, ext);
    if all.len() > 0 {
        let n = all.len() - 1;
        assert(described_by(all.drop_last(), table.drop_last())) by {
            assert forall|k: int| 0 <= k < all.drop_last().len() implies row_fits(#[trigger] all.drop_last()[k], table.drop_last()[k]) by {
                assert(all.drop_last()[k] == all[k]);
            }
        }
        let last = all[n];
        assert(row_fits(last, table[n]));
        let exts = last.files.unwrap().extensions@;
        if ext is Some {
            let x = ext.unwrap();
            if owns_extension(last, x) {
                let k = choose|k: int| 0 <= k < exts.len() && (#[trigger] exts[k])@ == x;
                assert(crate::parse::engine::views(exts)[k] == x);
                assert(table.last().1.contains(x));
            }
            if table.last().1.contains(x) {
                let k = choose|k: int| 0 <= k < table.last().1.len() && table.last().1[k] == x;
                assert(crate::parse::engine::views(exts)[k] == exts[k]@);
                assert(owns_extension(last, x));
            }
        }
        let rows = owner_rows(table, ext);
        let prev = owner_rows(table.drop_last(), ext);
        lemma_owner_rows_bounded(table.drop_last(), ext);
        if ext is Some && owns_extension(all.last(), ext.unwrap()) {
            lemma_selected_rows(all.drop_last(), table.drop_last(), ext, r.drop_last());
            assert forall|k: int| 0 <= k < r.len() implies row_fits(#[trigger] r[k], table[rows[k]]) && r[k] == all[rows[k]] by {
                if k < r.len() - 1 {
                    assert(r[k] == r.drop_last()[k]);
                    assert(rows[k] == prev[k]);
                    assert(table.drop_last()[prev[k]] == table[prev[k]]);
                    assert(all.drop_last()[prev[k]] == all[prev[k]]);
                }
            }
        } else {
            lemma_selected_rows(all.drop_last(), table.drop_last(), ext, r);
            assert forall|k: int| 0 <= k < r.len() implies row_fits(#[trigger] r[k], table[rows[k]]) && r[k] == all[rows[k]] by {
                assert(table.drop_last()[prev[k]] == table[prev[k]]);
                assert(all.drop_last()[prev[k]] == all[prev[k]]);
            }
        }
    }
}

/// The built-in frameworks, in a fixed order.
pub fn all_frameworks() -> (r: Vec<FrameworkDef>)
    ensures
        described_by(r@, builtin_table()),
        r@[2].normalization matches Some(n) && crate::parse::engine::views(n.strip_prefixes@) == seq!["test_"@]
            && n.strip_suffixes@.len() == 0 && n.underscore_to_space && !n.strip_camel_test_prefix && !n.raw,
        r@.len() == 10,
        r@[0].name@ == "rspec"@ && r@[0].language@ == "ruby"@,
        r@[1].name@ == "minitest"@ && r@[1].language@ == "ruby"@,
        r@[2].name@ == "rust_builtin"@ && r@[2].language@ == "rust"@,
        r@[3].name@ == "pytest"@ && r@[3].language@ == "python"@,
        r@[4].name@ == "jest"@ && r@[4].language@ == "javascript"@,
        r@[5].name@ == "go_testing"@ && r@[5].language@ == "go"@,
        r@[6].name@ == "exunit"@ && r@[6].language@ == "elixir"@,
        r@[7].name@ == "phpunit"@ && r@[7].language@ == "php"@,
        r@[8].name@ == "junit"@ && r@[8].language@ == "java"@,
        r@[9].name@ == "pest"@ && r@[9].language@ == "php"@,
        forall|k: int| 0 <= k < r@.len() ==> (#[trigger] r@[k]).name@.len() > 0 && r@[k].language@.len() > 0,
        forall|k: int| 0 <= k < r@.len() ==> super::frameworks::builtin_def(k, #[trigger] r@[k]),
{
    let mut r: Vec<FrameworkDef> = Vec::new();
    r.push(super::frameworks::rspec());
    r.push(super::frameworks::minitest());
    r.push(super::frameworks::rust_builtin());
    r.push(super::frameworks::pytest());
    r.push(super::frameworks::jest());
    r.push(super::frameworks::go_testing());
    r.push(super::frameworks::exunit());
    r.push(super::frameworks::phpunit());
    r.push(super::frameworks::junit());
    r.push(super::frameworks::pest());
    proof {
        reveal_strlit("rspec");
        reveal_strlit("ruby");
        reveal_strlit("minitest");
        reveal_strlit("rust_builtin");
        reveal_strlit("rust");
        reveal_strlit("pytest");
        reveal_strlit("python");
        reveal_strlit("jest");
        reveal_strlit("javascript");
        reveal_strlit("go_testing");
        reveal_strlit("go");
        reveal_strlit("exunit");
        reveal_strlit("elixir");
        reveal_strlit("phpunit");
        reveal_strlit("php");
        reveal_strlit("junit");
        reveal_strlit("java");
        reveal_strlit("pest");
        assert forall|k: int| 0 <= k < r@.len() implies (#[trigger] r@[k]).name@.len() > 0 && r@[k].language@.len() > 0 by {
            if k == 0 {} else if k == 1 {} else if k == 2 {} else if k == 3 {} else if k == 4 {}
            else if k == 5 {} else if k == 6 {} else if k == 7 {} else if k == 8 {} else {}
        }
        assert forall|k: int| 0 <= k < r@.len() implies super::frameworks::builtin_def(k, #[trigger] r@[k]) by {
            if k == 0 {} else if k == 1 {} else if k == 2 {} else if k == 3 {} else if k == 4 {}
            else if k == 5 {} else if k == 6 {} else if k == 7 {} else if k == 8 {} else {}
        }
        let t = builtin_table();
        assert forall|k: int| 0 <= k < r@.len() implies row_fits(#[trigger] r@[k], t[k]) by {
            if k == 0 {} else if k == 1 {} else if k == 2 {} else if k == 3 {} else if k == 4 {}
            else if k == 5 {} else if k == 6 {} else if k == 7 {} else if k == 8 {} else {}
        }
    }
    r
}

/// The extension of a path's file name, as `std::path::Path::extension`
/// gives it (without the dot).
pub uninterp spec fn path_extension_of(path: Seq<char>) -> Option<Seq<char>>;

/// Calls `std::path::Path::extension` on `path`; the result depends on the
/// path alone.
#[verifier::external_body]
pub(crate) fn path_extension(path: &str) -> (r: Option<String>)
    ensures
        opt_view(r) == path_extension_of(path@),
{
    match std::path::Path::new(path).extension() {
        Some(e) => match e.to_str() {
            Some(x) => Some(x.to_string()),
            None => None,
        },
        None => None,
    }
}

/// The extension with a leading dot, as the frameworks list them.
pub open spec fn dotted(ext: Option<Seq<char>>) -> Option<Seq<char>> {
    match ext {
        Some(e) => Some(seq!['.'] + e),
        None => None,
    }
}

/// The frameworks that own the file at `path`, by its extension.
pub fn frameworks_for_file(path: &str) -> (r: Vec<FrameworkDef>)
    ensures
        r@.len() == owner_rows(builtin_table(), dotted(path_extension_of(path@))).len(),
        forall|k: int|
            0 <= k < r@.len() ==> row_fits(
                #[trigger] r@[k],
                builtin_table()[owner_rows(builtin_table(), dotted(path_extension_of(path@)))[k]],
            ),
        forall|k: int|
            0 <= k < r@.len() ==> super::frameworks::builtin_def(owner_rows(builtin_table(), dotted(path_extension_of(path@)))[k], #[trigger] r@[k]),
{
    let all = all_frameworks();
    let ghost all0 = all@;
    let ext = match path_extension(path) {
        Some(e) => {
            let mut d: Vec<char> = Vec::new();
            d.push('.');
            let ev = crate::text::chars_of(e.as_str());
            crate::text::push_chars(&mut d, &ev);
            Some(crate::text::string_of(&d))
        },
        None => None,
    };
    assert(opt_view(ext) == dotted(path_extension_of(path@)));
    let r = select_by_extension(all, ext);
    assert(selected(all0, dotted(path_extension_of(path@)), r@));
    proof {
        lemma_selected_rows(all0, builtin_table(), dotted(path_extension_of(path@)), r@);
        let rows = owner_rows(builtin_table(), dotted(path_extension_of(path@)));
        lemma_owner_rows_bounded(builtin_table(), dotted(path_extension_of(path@)));
        assert forall|k: int| 0 <= k < r@.len() implies super::frameworks::builtin_def(rows[k], #[trigger] r@[k]) by {
            assert(r@[k] == all0[rows[k]]);
        }
    }
    r
}

/// `s` without the text from the last `.` of its last path segment on.
pub open spec fn without_extension(s: Seq<char>) -> Seq<char> {
    if exists|i: int| 0 <= i < s.len() && s[i] == '.' && forall|j: int| i < j < s.len() ==> s[j] != '.' && s[j] != '/' {
        let i = choose|i: int| 0 <= i < s.len() && s[i] == '.' && forall|j: int| i < j < s.len() ==> s[j] != '.' && s[j] != '/';
        s.subrange(0, i)
    } else {
        s
    }
}

/// Removes the extension of the last path segment.
fn strip_extension(v: Vec<char>) -> (r: Vec<char>)
    ensures
        r@ == without_extension(v@),
{
    let mut i: usize = v.len();
    while i > 0
        invariant
            i <= v@.len(),
            forall|j: int| i <= j < v@.len() ==> v@[j] != '.' && v@[j] != '/',
        decreases i,
    {
        if v[i - 1] == '/' {
            return v;
        }
        if v[i - 1] == '.' {
            let r = crate::text::slice_chars(&v, 0, i - 1);
            proof {
                let k = choose|k: int| 0 <= k < v@.len() && v@[k] == '.' && forall|j: int| k < j < v@.len() ==> v@[j] != '.' && v@[j] != '/';
                if k < i - 1 {
                    assert(v@[i - 1] == '.');
                } else if k > i - 1 {
                    assert(v@[k] != '.');
                }
            }
            return r;
        }
        i -= 1;
    }
    v
}

/// The display name of a path under a path grouping.
pub open spec fn grouped_path(p: Seq<char>, pg: PathGroupingDef) -> Seq<char> {
    let a = crate::parse::engine::strip_first_prefix(p, crate::parse::engine::views(pg.strip_prefixes@));
    let b = if pg.strip_extension { without_extension(a) } else { a };
    let c = crate::parse::engine::strip_first_suffix(b, crate::parse::engine::views(pg.strip_suffixes@));
    crate::text::replace_seq(c, "/"@, pg.separator@)
}

/// The display name of a test file under a framework.
pub open spec fn display_path(rel_path: Seq<char>, framework: FrameworkDef) -> Seq<char> {
    match framework.path_grouping {
        Some(pg) => grouped_path(rel_path, pg),
        None => rel_path,
    }
}

/// The display name of a test file: the framework's first matching path
/// prefix removed, the extension removed if asked, the first matching
/// suffix removed, and `/` replaced by the separator.
pub fn normalize_file_path(rel_path: &str, framework: &FrameworkDef) -> (r: String)
    ensures
        r@ == display_path(rel_path@, *framework),
{
    let pg = match &framework.path_grouping {
        Some(p) => p,
        None => return crate::text::owned(rel_path),
    };
    let v = crate::text::chars_of(rel_path);
    let mut v = crate::parse::engine::strip_first(v, &pg.strip_prefixes, false);
    if pg.strip_extension {
        v = strip_extension(v);
    }
    let v = crate::parse::engine::strip_first(v, &pg.strip_suffixes, true);
    let slash = crate::text::chars_of("/");
    let sep = crate::text::chars_of(pg.separator.as_str());
    let out = crate::text::replace_chars(&v, &slash, &sep);
    crate::text::string_of(&out)
}

} // verus!

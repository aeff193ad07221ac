//! From file contents to file diffs: choosing a framework per file,
//! parsing both revisions, diffing, and deciding whether shared examples
//! must be scanned first.
use crate::diff::types::{any_changes, any_has_changes, DiffNode, FileDiff};
use crate::diff::{diff_spec_nodes, small_forest, small_node, valid_diff, SIZE_BOUND};
use crate::parse::frameworks::builtin_def;
use crate::parse::engine::{parse_file_with_shared, parsed_with, forest_rel, Ctx};
use crate::parse::registry::{
    builtin_table, display_path, dotted, frameworks_for_file, normalize_file_path, owner_rows, path_extension_of,
    row_fits, FrameworkDef,
};
use crate::parse::shared::SharedExampleRegistry;
use crate::parse::syntax::{grammar_of, grammar_loads, SyntaxTree};
use crate::parse::{well_formed_forest, SpecNode};
use crate::text::{chars_of, contains_chars, contains_seq, owned, str_eq};
use vstd::prelude::*;

verus! {

/// A test file as read from both revisions.
pub struct FileContents {
    pub rel_path: String,
    pub base: Option<String>,
    pub head: Option<String>,
}

/// The framework a file is parsed with: the forced one if it owns the
/// file, else the first that owns it.
pub open spec fn chosen(fws: Seq<FrameworkDef>, forced: Option<Seq<char>>) -> Option<FrameworkDef>
    decreases fws.len(),
{
    if fws.len() == 0 {
        None
    } else {
        match forced {
            None => Some(fws[0]),
            Some(f) => if fws[0].name@ == f {
                Some(fws[0])
            } else {
                chosen(fws.subrange(1, fws.len() as int), forced)
            },
        }
    }
}

/// The row chosen among `rows`: the first whose name is the forced one,
/// or the first when none is forced.
pub open spec fn chosen_row(rows: Seq<int>, table: Seq<(Seq<char>, Seq<Seq<char>>, bool, bool)>, forced: Option<Seq<char>>) -> Option<int>
    decreases rows.len(),
{
    if rows.len() == 0 {
        None
    } else {
        match forced {
            None => Some(rows[0]),
            Some(f) => if table[rows[0]].0 == f {
                Some(rows[0])
            } else {
                chosen_row(rows.subrange(1, rows.len() as int), table, forced)
            },
        }
    }
}

/// Choosing among frameworks described by rows chooses the framework of
/// the chosen row.
pub proof fn lemma_chosen_row(fws: Seq<FrameworkDef>, rows: Seq<int>, table: Seq<(Seq<char>, Seq<Seq<char>>, bool, bool)>, forced: Option<Seq<char>>)
    requires
        fws.len() == rows.len(),
        forall|k: int| 0 <= k < rows.len() ==> 0 <= #[trigger] rows[k] < table.len(),
        forall|k: int| 0 <= k < fws.len() ==> row_fits(#[trigger] fws[k], table[rows[k]]),
        forall|k: int| 0 <= k < fws.len() ==> builtin_def(rows[k], #[trigger] fws[k]),
    ensures
        match chosen(fws, forced) {
            Some(fw) => chosen_row(rows, table, forced) matches Some(j) && 0 <= j < table.len() && row_fits(fw, table[j])
                && builtin_def(j, fw),
            None => chosen_row(rows, table, forced) is None,
        },
    decreases fws.len(),
{
    if fws.len() > 0 {
        assert(row_fits(fws[0], table[rows[0]]));
        let fr = fws.subrange(1, fws.len() as int);
        let rr = rows.subrange(1, rows.len() as int);
        assert forall|k: int| 0 <= k < rr.len() implies 0 <= #[trigger] rr[k] < table.len() by {
            assert(rr[k] == rows[k + 1]);
        }
        assert forall|k: int| 0 <= k < fr.len() implies row_fits(#[trigger] fr[k], table[rr[k]]) && builtin_def(rr[k], fr[k]) by {
            assert(fr[k] == fws[k + 1]);
            assert(rr[k] == rows[k + 1]);
        }
        lemma_chosen_row(fr, rr, table, forced);
    }
}

/// Picks the framework to parse a file with.
pub fn select_framework(frameworks: Vec<FrameworkDef>, forced: Option<&str>) -> (r: Option<FrameworkDef>)
    ensures
        r == chosen(frameworks@, match forced {
            Some(f) => Some(f@),
            None => None,
        }),
{
    let ghost f = match forced {
        Some(x) => Some(x@),
        None => None,
    };
    let ghost all = frameworks@;
    let mut rest = frameworks;
    let mut done: usize = 0;
    assert(all.subrange(0, all.len() as int) =~= all);
    assert(all.len() == rest.len());
    while rest.len() > 0
        invariant
            all == frameworks@,
            all.len() <= usize::MAX,
            done + rest@.len() == all.len(),
            rest@ == all.subrange(done as int, all.len() as int),
            chosen(all, f) == chosen(rest@, f),
            f == match forced {
                Some(x) => Some(x@),
                None => None,
            },
        decreases rest@.len(),
    {
        let ghost r0 = rest@;
        let fw = rest.remove(0);
        assert(fw == r0[0]);
        assert(rest@ =~= r0.subrange(1, r0.len() as int));
        let take = match forced {
            Some(name) => str_eq(fw.name.as_str(), name),
            None => true,
        };
        if take {
            assert(chosen(r0, f) == Some(r0[0]));
            return Some(fw);
        }
        assert(rest@ =~= all.subrange(done + 1, all.len() as int));
        done += 1;
    }
    None
}

/// Whether every name and child list of a tree is shorter than
/// `SIZE_BOUND` (always so for real test files).
pub fn is_small_node(n: &SpecNode) -> (r: bool)
    ensures
        r == small_node(*n),
    decreases n,
{
    if n.name.as_str().unicode_len() >= SIZE_BOUND || n.children.len() >= SIZE_BOUND {
        return false;
    }
    let mut i: usize = 0;
    while i < n.children.len()
        invariant
            i <= n.children@.len(),
            forall|k: int| 0 <= k < i ==> small_node(#[trigger] n.children@[k]),
        decreases n.children@.len() - i,
    {
        if !is_small_node(&n.children[i]) {
            return false;
        }
        i += 1;
    }
    true
}

/// Whether a forest is small enough to be diffed exactly.
pub fn is_small_forest(v: &Vec<SpecNode>) -> (r: bool)
    ensures
        r == small_forest(v@),
{
    if v.len() >= SIZE_BOUND {
        return false;
    }
    let mut i: usize = 0;
    while i < v.len()
        invariant
            i <= v@.len(),
            forall|k: int| 0 <= k < i ==> small_node(#[trigger] v@[k]),
        decreases v@.len() - i,
    {
        if !is_small_node(&v[i]) {
            return false;
        }
        i += 1;
    }
    true
}

/// `r` is what the text reads as with `fw`: the spec trees of its parse,
/// or none when the framework's grammar is missing or refused.
pub open spec fn reads_as(text: Seq<char>, fw: &FrameworkDef, shared: Option<&SharedExampleRegistry>, r: Seq<SpecNode>) -> bool {
    ||| r.len() == 0 && (grammar_of(fw.language@) is None || !grammar_loads(grammar_of(fw.language@)->Some_0))
    ||| exists|t: SyntaxTree, src: &str|
        src@ == text && #[trigger] parsed_with(t, fw, src) && forest_rel(
            (Ctx { tree: &t, source: src, framework: fw, shared }),
            0,
            t.nodes@.len() as nat,
            r,
        )
}

/// `r` is what one revision of a file reads as: nothing when the file
/// does not exist in it.
pub open spec fn revision_reads(content: Option<String>, fw: &FrameworkDef, shared: Option<&SharedExampleRegistry>, r: Seq<SpecNode>) -> bool {
    match content {
        Some(s) => reads_as(s@, fw, shared, r),
        None => r.len() == 0,
    }
}

/// The spec trees of one revision of a file, or none.
fn parse_revision(content: &Option<String>, rel_path: &str, framework: &FrameworkDef, shared: Option<&SharedExampleRegistry>) -> (r: Vec<SpecNode>)
    requires
        shared matches Some(r) ==> r.wf(),
    ensures
        content is None ==> r@.len() == 0,
        grammar_of(framework.language@) is None ==> r@.len() == 0,
        crate::parse::engine::shared_well_formed(shared) ==> well_formed_forest(r@),
        revision_reads(*content, framework, shared, r@),
{
    match content {
        Some(s) => {
            let src = s.as_str();
            match parse_file_with_shared(src, rel_path, framework, shared) {
                Some(t) => t.root,
                None => {
                    let r: Vec<SpecNode> = Vec::new();
                    assert(r@ =~= seq![]);
                    r
                },
            }
        },
        None => Vec::new(),
    }
}

/// `d` diffs the spec trees `base` and `head` of the file at `path`, has
/// changes, and is shown under the display path that `fw` gives.
pub open spec fn diffs_trees(d: FileDiff, path: Seq<char>, fw: FrameworkDef, base: Seq<SpecNode>, head: Seq<SpecNode>) -> bool {
    &&& valid_diff(base, head, d.nodes@)
    &&& d.nodes@.len() > 0 && any_has_changes(d.nodes@)
    &&& d.path@ == display_path(path, fw)
}

/// `fw` is the built-in framework chosen for the file at `path`.
pub open spec fn chosen_for(path: Seq<char>, forced: Option<Seq<char>>, fw: FrameworkDef) -> bool {
    let t = builtin_table();
    chosen_row(owner_rows(t, dotted(path_extension_of(path))), t, forced) matches Some(j) && 0 <= j < t.len() && row_fits(fw, t[j])
        && builtin_def(j, fw)
}

/// `d` diffs the spec trees of one of the `files`, read with the framework
/// chosen for it.
pub open spec fn diffs_one_of(d: FileDiff, files: Seq<FileContents>, forced: Option<Seq<char>>) -> bool {
    exists|j: int, fw: FrameworkDef, b: Seq<SpecNode>, h: Seq<SpecNode>|
        0 <= j < files.len() && #[trigger] diffs_trees(d, files[j].rel_path@, fw, b, h) && chosen_for(files[j].rel_path@, forced, fw)
}

/// The diff of one file from the spec trees of its two revisions, when it
/// has changes, shown under the framework's display path. Trees too large
/// to be diffed exactly give none.
pub fn file_diff_of(rel_path: &str, framework: &FrameworkDef, base_nodes: &Vec<SpecNode>, head_nodes: &Vec<SpecNode>) -> (r: Option<FileDiff>)
    ensures
        r matches Some(d) ==> small_forest(base_nodes@) && small_forest(head_nodes@) && diffs_trees(
            d,
            rel_path@,
            *framework,
            base_nodes@,
            head_nodes@,
        ),
        r is None ==> !small_forest(base_nodes@) || !small_forest(head_nodes@) || exists|res: Seq<DiffNode>|
            valid_diff(base_nodes@, head_nodes@, res) && (res.len() == 0 || !any_has_changes(res)),
{
    if !is_small_forest(base_nodes) || !is_small_forest(head_nodes) {
        return None;
    }
    let nodes = diff_spec_nodes(base_nodes, head_nodes);
    if nodes.len() == 0 || !any_changes(&nodes) {
        assert(valid_diff(base_nodes@, head_nodes@, nodes@) && (nodes@.len() == 0 || !any_has_changes(nodes@)));
        return None;
    }
    let path = normalize_file_path(rel_path, framework);
    Some(FileDiff { path, nodes })
}

/// The diff of one file, when it has changes: both revisions parsed with
/// the file's framework (the forced one, else the first that owns it),
/// diffed, and shown under the framework's display path.
pub fn diff_file(
    file: &FileContents,
    forced: Option<&str>,
    base_shared: Option<&SharedExampleRegistry>,
    head_shared: Option<&SharedExampleRegistry>,
) -> (r: Option<FileDiff>)
    requires
        base_shared matches Some(b) ==> b.wf(),
        head_shared matches Some(h) ==> h.wf(),
    ensures
        file_outcome(*file, crate::parse::engine::opt_str(forced), base_shared, head_shared, r),
{
    let frameworks = frameworks_for_file(file.rel_path.as_str());
    proof {
        let t = builtin_table();
        crate::parse::registry::lemma_owner_rows_bounded(t, dotted(path_extension_of(file.rel_path@)));
        lemma_chosen_row(frameworks@, owner_rows(t, dotted(path_extension_of(file.rel_path@))), t, crate::parse::engine::opt_str(forced));
    }
    let framework = select_framework(frameworks, forced)?;
    let base_nodes = parse_revision(&file.base, file.rel_path.as_str(), &framework, base_shared);
    let head_nodes = parse_revision(&file.head, file.rel_path.as_str(), &framework, head_shared);
    let r = file_diff_of(file.rel_path.as_str(), &framework, &base_nodes, &head_nodes);
    assert(reads_both(*file, framework, base_shared, head_shared, base_nodes@, head_nodes@));
    r
}

/// `b` and `h` are what the two revisions of the file read as with `fw`.
pub open spec fn reads_both(
    file: FileContents,
    fw: FrameworkDef,
    base_shared: Option<&SharedExampleRegistry>,
    head_shared: Option<&SharedExampleRegistry>,
    b: Seq<SpecNode>,
    h: Seq<SpecNode>,
) -> bool {
    revision_reads(file.base, &fw, base_shared, b) && revision_reads(file.head, &fw, head_shared, h)
}

/// What `diff_file` gives for `file`: with the framework chosen for it,
/// the diff of what its two revisions read as when that diff has changes,
/// and nothing when no framework owns the file, when the diff has none,
/// or when the trees are too large to be diffed exactly.
pub open spec fn file_outcome(
    file: FileContents,
    forced: Option<Seq<char>>,
    base_shared: Option<&SharedExampleRegistry>,
    head_shared: Option<&SharedExampleRegistry>,
    o: Option<FileDiff>,
) -> bool {
    match o {
        Some(d) => exists|fw: FrameworkDef, b: Seq<SpecNode>, h: Seq<SpecNode>|
            #[trigger] diffs_trees(d, file.rel_path@, fw, b, h) && chosen_for(file.rel_path@, forced, fw)
                && reads_both(file, fw, base_shared, head_shared, b, h),
        None => chosen_row(owner_rows(builtin_table(), dotted(path_extension_of(file.rel_path@))), builtin_table(), forced) is None
            || exists|fw: FrameworkDef, b: Seq<SpecNode>, h: Seq<SpecNode>|
            #[trigger] reads_both(file, fw, base_shared, head_shared, b, h) && chosen_for(file.rel_path@, forced, fw) && (
                !small_forest(b) || !small_forest(h) || exists|res: Seq<DiffNode>|
                    valid_diff(b, h, res) && (res.len() == 0 || !any_has_changes(res))),
    }
}

/// The registry a parse consults: none when it is empty.
pub open spec fn used_registry(reg: &SharedExampleRegistry) -> Option<&SharedExampleRegistry> {
    if reg.definitions_map().dom().len() == 0 && reg.types_map().dom().len() == 0 {
        None
    } else {
        Some(reg)
    }
}

/// The diffs among `outs`, in order.
pub open spec fn somes(outs: Seq<Option<FileDiff>>) -> Seq<FileDiff>
    decreases outs.len(),
{
    if outs.len() == 0 {
        seq![]
    } else {
        match outs.last() {
            Some(d) => somes(outs.drop_last()).push(d),
            None => somes(outs.drop_last()),
        }
    }
}

/// The diffs of all files that have changes, in order.
pub fn diff_contents(
    files: &Vec<FileContents>,
    forced: Option<&str>,
    base_registry: &SharedExampleRegistry,
    head_registry: &SharedExampleRegistry,
) -> (r: Vec<FileDiff>)
    requires
        base_registry.wf(),
        head_registry.wf(),
    ensures
        r@.len() <= files@.len(),
        forall|k: int| 0 <= k < r@.len() ==> #[trigger] r@[k].nodes@.len() > 0 && any_has_changes(r@[k].nodes@),
        forall|k: int| 0 <= k < r@.len() ==> diffs_one_of(#[trigger] r@[k], files@, crate::parse::engine::opt_str(forced)),
        exists|outs: Seq<Option<FileDiff>>|
            outs.len() == files@.len() && (forall|k: int| 0 <= k < outs.len() ==> file_outcome(files@[k], crate::parse::engine::opt_str(forced), used_registry(base_registry), used_registry(head_registry), #[trigger] outs[k]))
                && #[trigger] somes(outs) == r@,
{
    let ghost mut outs: Seq<Option<FileDiff>> = seq![];
    let base_shared = if base_registry.is_empty() { None } else { Some(base_registry) };
    let head_shared = if head_registry.is_empty() { None } else { Some(head_registry) };
    let mut out: Vec<FileDiff> = Vec::new();
    let mut i: usize = 0;
    while i < files.len()
        invariant
            i <= files@.len(),
            out@.len() <= i,
            base_registry.wf(),
            head_registry.wf(),
            base_shared matches Some(b) ==> b.wf(),
            head_shared matches Some(h) ==> h.wf(),
            forall|k: int| 0 <= k < out@.len() ==> #[trigger] out@[k].nodes@.len() > 0 && any_has_changes(out@[k].nodes@),
            forall|k: int| 0 <= k < out@.len() ==> diffs_one_of(#[trigger] out@[k], files@, crate::parse::engine::opt_str(forced)),
            outs.len() == i,
            base_shared == used_registry(base_registry),
            head_shared == used_registry(head_registry),
            forall|k: int| 0 <= k < outs.len() ==> file_outcome(files@[k], crate::parse::engine::opt_str(forced), base_shared, head_shared, #[trigger] outs[k]),
            somes(outs) == out@,
        decreases files@.len() - i,
    {
        let res = diff_file(&files[i], forced, base_shared, head_shared);
        let ghost o_prev = outs;
        proof {
            outs = outs.push(res);
            assert(outs.drop_last() =~= o_prev);
        }
        match res {
            Some(d) => {
                let ghost o0 = out@;
                out.push(d);
                assert forall|k: int| 0 <= k < out@.len() implies #[trigger] out@[k].nodes@.len() > 0 && any_has_changes(out@[k].nodes@) by {
                    if k < o0.len() {
                        assert(out@[k] == o0[k]);
                    }
                }
                assert forall|k: int| 0 <= k < out@.len() implies diffs_one_of(#[trigger] out@[k], files@, crate::parse::engine::opt_str(forced)) by {
                    if k < o0.len() {
                        assert(out@[k] == o0[k]);
                    } else {
                        assert(out@[k] == d);
                        let (fw, b, h) = choose|fw: FrameworkDef, b: Seq<SpecNode>, h: Seq<SpecNode>|
                            #[trigger] diffs_trees(d, files@[i as int].rel_path@, fw, b, h) && chosen_for(files@[i as int].rel_path@, crate::parse::engine::opt_str(forced), fw);
                        assert(diffs_trees(out@[k], files@[i as int].rel_path@, fw, b, h));
                    }
                }
            },
            None => {},
        }
        i += 1;
    }
    assert(somes(outs) == out@);
    out
}

/// Whether `content` contains one of the words.
fn contains_any(content: &str, words: &[&str]) -> (r: bool)
    ensures
        r == exists|k: int| 0 <= k < words@.len() && contains_seq(content@, (#[trigger] words@[k])@),
{
    let c = chars_of(content);
    let mut i: usize = 0;
    while i < words.len()
        invariant
            c@ == content@,
            i <= words@.len(),
            forall|k: int| 0 <= k < i ==> !contains_seq(content@, (#[trigger] words@[k])@),
        decreases words@.len() - i,
    {
        let w = chars_of(words[i]);
        if contains_chars(&c, &w) {
            return true;
        }
        i += 1;
    }
    false
}

/// The words that mark an inclusion of shared examples.
pub open spec fn shared_words() -> Seq<Seq<char>> {
    seq![
        "include_examples"@,
        "include_context"@,
        "it_behaves_like"@,
        "it_should_behave_like"@,
        "shared_examples"@,
        "shared_context"@,
    ]
}

/// The words that mark an inherited test type.
pub open spec fn inheritance_words() -> Seq<Seq<char>> {
    seq!["extends"@, "include "@, "extend "@, "(Base"@, "(Test"@]
}

/// `content` contains one of `words`.
pub open spec fn mentions_any(content: Seq<char>, words: Seq<Seq<char>>) -> bool {
    exists|k: int| 0 <= k < words.len() && contains_seq(content, #[trigger] words[k])
}

/// A revision's content asks for a scan: it mentions an inclusion where the
/// framework has shared examples, or an inherited type where it has
/// inheritance.
pub open spec fn revision_asks(content: Option<String>, has_shared: bool, has_inheritance: bool) -> bool {
    match content {
        Some(c) => (has_shared && mentions_any(c@, shared_words())) || (has_inheritance && mentions_any(c@, inheritance_words())),
        None => false,
    }
}

/// A file asks for a scan: a revision of it, read with the built-in
/// framework chosen for its extension, mentions an inclusion or an
/// inherited type that the framework resolves.
pub open spec fn file_needs_scan(file: FileContents, forced: Option<Seq<char>>) -> bool {
    let t = builtin_table();
    match chosen_row(owner_rows(t, dotted(path_extension_of(file.rel_path@))), t, forced) {
        Some(j) => revision_asks(file.head, t[j].2, t[j].3) || revision_asks(file.base, t[j].2, t[j].3),
        None => false,
    }
}

/// A file whose framework includes shared examples asks for a scan
/// whenever one of its revisions mentions one of that framework's own
/// inclusion methods: the words looked for cover every inclusion method the
/// built-in tables declare, so no inclusion goes unresolved for want of a
/// scan.
pub proof fn lemma_inclusion_calls_ask_for_scan(
    file: FileContents,
    forced: Option<Seq<char>>,
    j: int,
    fw: FrameworkDef,
    i: int,
    k: int,
    content: String,
)
    requires
        chosen_row(owner_rows(builtin_table(), dotted(path_extension_of(file.rel_path@))), builtin_table(), forced) == Some(j),
        builtin_def(j, fw),
        fw.shared matches Some(sh) && 0 <= i < sh.inclusion@.len() && 0 <= k < sh.inclusion@[i].method_names@.len()
            && contains_seq(content@, sh.inclusion@[i].method_names@[k]@),
        file.head == Some(content) || file.base == Some(content),
    ensures
        file_needs_scan(file, forced),
{
    let sh = fw.shared->Some_0;
    let m = sh.inclusion@[i].method_names@[k]@;
    assert(j == 0);
    assert(crate::parse::frameworks::rspec_def(fw));
    assert(crate::parse::engine::views(sh.inclusion@[i].method_names@)[k] == m);
    let w = shared_words();
    if i == 0 {
        if k == 0 {
            assert(w[0] == m);
        } else {
            assert(w[1] == m);
        }
    } else {
        if k == 0 {
            assert(w[2] == m);
        } else {
            assert(w[3] == m);
        }
    }
    assert(mentions_any(content@, w));
    assert(revision_asks(Some(content), builtin_table()[j].2, builtin_table()[j].3));
}

/// A text that contains a word contains every part of that word.
proof fn lemma_contains_part(c: Seq<char>, x: Seq<char>, y: Seq<char>, at: int)
    requires
        contains_seq(c, x),
        0 <= at && at + y.len() <= x.len() && x.subrange(at, at + y.len()) == y,
    ensures
        contains_seq(c, y),
{
    let i = choose|i: int| #[trigger] crate::text::occurs_at(c, x, i);
    assert(c.subrange(i + at, i + at + y.len()) =~= x.subrange(at, at + y.len()));
    assert(crate::text::occurs_at(c, y, i + at));
}

/// A file whose framework defines shared examples asks for a scan
/// whenever one of its revisions mentions one of that framework's own
/// definition methods, so that a file defining them is read too.
pub proof fn lemma_definition_calls_ask_for_scan(
    file: FileContents,
    forced: Option<Seq<char>>,
    j: int,
    fw: FrameworkDef,
    i: int,
    k: int,
    content: String,
)
    requires
        chosen_row(owner_rows(builtin_table(), dotted(path_extension_of(file.rel_path@))), builtin_table(), forced) == Some(j),
        builtin_def(j, fw),
        fw.shared matches Some(sh) && 0 <= i < sh.definition@.len() && 0 <= k < sh.definition@[i].method_names@.len()
            && contains_seq(content@, sh.definition@[i].method_names@[k]@),
        file.head == Some(content) || file.base == Some(content),
    ensures
        file_needs_scan(file, forced),
{
    let sh = fw.shared->Some_0;
    let m = sh.definition@[i].method_names@[k]@;
    assert(j == 0);
    assert(crate::parse::frameworks::rspec_def(fw));
    assert(crate::parse::engine::views(sh.definition@[i].method_names@)[k] == m);
    let w = shared_words();
    if k == 0 {
        assert(w[4] == m);
    } else if k == 1 {
        reveal_strlit("shared_examples_for");
        reveal_strlit("shared_examples");
        assert(m == "shared_examples_for"@);
        assert(w[4] == "shared_examples"@);
        assert(m.subrange(0, w[4].len() as int) =~= w[4]);
        lemma_contains_part(content@, m, w[4], 0);
    } else {
        assert(w[5] == m);
    }
    assert(mentions_any(content@, w));
    assert(revision_asks(Some(content), builtin_table()[j].2, builtin_table()[j].3));
}

/// Whether a revision's content asks for shared examples or inherited
/// types to be resolved.
fn content_needs_scan(content: &Option<String>, has_shared: bool, has_inheritance: bool) -> (r: bool)
    ensures
        r == revision_asks(*content, has_shared, has_inheritance),
{
    match content {
        Some(c) => {
            (has_shared && contains_any(c.as_str(), &["include_examples", "include_context", "it_behaves_like", "it_should_behave_like", "shared_examples", "shared_context"]))
                || (has_inheritance && contains_any(c.as_str(), &["extends", "include ", "extend ", "(Base", "(Test"]))
        },
        None => false,
    }
}

/// Whether any file, read with its framework, includes shared examples or
/// inherits from other test types, so that definitions must be scanned
/// before diffing.
pub fn changed_files_need_shared_scan(files: &Vec<FileContents>, forced: Option<&str>) -> (r: bool)
    ensures
        r == exists|k: int| 0 <= k < files@.len() && file_needs_scan(#[trigger] files@[k], crate::parse::engine::opt_str(forced)),
{
    let ghost fv = crate::parse::engine::opt_str(forced);
    let mut i: usize = 0;
    while i < files.len()
        invariant
            i <= files@.len(),
            fv == crate::parse::engine::opt_str(forced),
            forall|k: int| 0 <= k < i ==> !file_needs_scan(#[trigger] files@[k], fv),
        decreases files@.len() - i,
    {
        let file = &files[i];
        i += 1;
        let frameworks = frameworks_for_file(file.rel_path.as_str());
        let ghost t = builtin_table();
        let ghost rows = owner_rows(t, dotted(path_extension_of(file.rel_path@)));
        proof {
            crate::parse::registry::lemma_owner_rows_bounded(t, dotted(path_extension_of(file.rel_path@)));
            lemma_chosen_row(frameworks@, rows, t, fv);
        }
        let fw = match select_framework(frameworks, forced) {
            Some(f) => f,
            None => continue,
        };
        let has_shared = match &fw.shared {
            Some(s) => s.inclusion.len() > 0,
            None => false,
        };
        let has_inheritance = match &fw.inheritance {
            Some(inh) => inh.enabled,
            None => false,
        };
        if !has_shared && !has_inheritance {
            continue;
        }
        if content_needs_scan(&file.head, has_shared, has_inheritance) || content_needs_scan(&file.base, has_shared, has_inheritance) {
            assert(file_needs_scan(files@[i - 1], fv));
            return true;
        }
    }
    false
}

} // verus!

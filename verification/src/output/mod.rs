//! Text renderings of a diff: the tree view and the compact one-line view.
pub mod truncate;

use crate::diff::types::{
    any_changes, any_has_changes, files_added, files_removed, files_renamed, files_size,
    forest_size, lemma_forest_size_prefix, node_has_changes, DiffKind, DiffNode, FileDiff, Stats,
};
use crate::text::{chars_of, decimal, push_chars, push_decimal, push_str, string_of};
use truncate::{plan_from, realizes, truncate_unchanged_runs, CONTEXT_HEAD, CONTEXT_TAIL};
use vstd::prelude::*;

verus! {

/// The parts of `s` joined by `sep`.
pub open spec fn join(s: Seq<Seq<char>>, sep: Seq<char>) -> Seq<char>
    decreases s.len(),
{
    if s.len() == 0 {
        seq![]
    } else if s.len() == 1 {
        s[0]
    } else {
        join(s.drop_last(), sep) + sep + s.last()
    }
}

/// The compact line of one node under the name path `names` (which ends
/// with the node's own name); modified and unchanged nodes have none.
pub open spec fn compact_line(n: DiffNode, names: Seq<Seq<char>>) -> Seq<char> {
    let full = join(names, " > "@);
    match n.kind {
        DiffKind::Added => "+ "@ + full + "\n"@,
        DiffKind::Removed => "- "@ + full + "\n"@,
        DiffKind::Renamed => "-> "@ + full + " (was "@ + (match n.old_name {
            Some(o) => o@,
            None => "?"@,
        }) + ")\n"@,
        _ => seq![],
    }
}

/// The compact listing of a forest under the name path `path`: for each
/// node with changes, its line, then the listing of its children.
pub open spec fn compact_text(s: Seq<DiffNode>, path: Seq<Seq<char>>) -> Seq<char>
    decreases s,
{
    if s.len() == 0 {
        seq![]
    } else {
        let n = s.last();
        compact_text(s.drop_last(), path) + if n.kind == DiffKind::Unchanged && !node_has_changes(
            n,
        ) {
            seq![]
        } else {
            compact_line(n, path.push(n.name@)) + compact_text(n.children@, path.push(n.name@))
        }
    }
}

/// The nodes of a forest, at any depth, that are added, removed or renamed.
pub open spec fn changed_nodes(s: Seq<DiffNode>) -> nat
    decreases s,
{
    if s.len() == 0 {
        0
    } else {
        let n = s.last();
        changed_nodes(s.drop_last()) + (if n.kind == DiffKind::Added || n.kind == DiffKind::Removed || n.kind
            == DiffKind::Renamed {
            1nat
        } else {
            0nat
        }) + changed_nodes(n.children@)
    }
}

/// The number of line breaks in a text.
pub open spec fn line_breaks(t: Seq<char>) -> nat
    decreases t.len(),
{
    if t.len() == 0 {
        0
    } else {
        line_breaks(t.drop_last()) + if t.last() == '\n' {
            1nat
        } else {
            0nat
        }
    }
}

/// No name of the forest, at any depth, nor any former name, holds a line
/// break.
pub open spec fn one_line_names(s: Seq<DiffNode>) -> bool
    decreases s,
{
    if s.len() == 0 {
        true
    } else {
        let n = s.last();
        &&& one_line_names(s.drop_last())
        &&& !n.name@.contains('\n')
        &&& (n.old_name matches Some(o) ==> !o@.contains('\n'))
        &&& one_line_names(n.children@)
    }
}

/// No part of a name path holds a line break.
pub open spec fn one_line_path(path: Seq<Seq<char>>) -> bool {
    forall|i: int| 0 <= i < path.len() ==> !(#[trigger] path[i]).contains('\n')
}

/// Line breaks add up over a concatenation.
proof fn lemma_line_breaks_concat(a: Seq<char>, b: Seq<char>)
    ensures
        line_breaks(a + b) == line_breaks(a) + line_breaks(b),
    decreases b.len(),
{
    if b.len() > 0 {
        lemma_line_breaks_concat(a, b.drop_last());
        assert((a + b).drop_last() =~= a + b.drop_last());
    } else {
        assert(a + b =~= a);
    }
}

/// A text without the character `'\n'` has no line break.
proof fn lemma_no_line_breaks(t: Seq<char>)
    requires
        !t.contains('\n'),
    ensures
        line_breaks(t) == 0,
    decreases t.len(),
{
    if t.len() > 0 {
        assert(!t.drop_last().contains('\n')) by {
            if t.drop_last().contains('\n') {
                let i = choose|i: int| 0 <= i < t.drop_last().len() && t.drop_last()[i] == '\n';
                assert(t[i] == '\n');
            }
        }
        lemma_no_line_breaks(t.drop_last());
        assert(t[t.len() - 1] != '\n');
    }
}

/// Joining one-line parts with a one-line separator gives one line.
proof fn lemma_join_one_line(parts: Seq<Seq<char>>, sep: Seq<char>)
    requires
        one_line_path(parts),
        line_breaks(sep) == 0,
    ensures
        line_breaks(join(parts, sep)) == 0,
    decreases parts.len(),
{
    if parts.len() == 1 {
        lemma_no_line_breaks(parts[0]);
    } else if parts.len() > 1 {
        assert(one_line_path(parts.drop_last())) by {
            assert forall|i: int| 0 <= i < parts.drop_last().len() implies !(#[trigger] parts.drop_last()[i]).contains('\n') by {
                assert(parts.drop_last()[i] == parts[i]);
            }
        }
        lemma_join_one_line(parts.drop_last(), sep);
        assert(!parts[parts.len() - 1].contains('\n'));
        lemma_no_line_breaks(parts.last());
        lemma_line_breaks_concat(join(parts.drop_last(), sep), sep);
        lemma_line_breaks_concat(join(parts.drop_last(), sep) + sep, parts.last());
    }
}

/// The compact line of a node is one line for an added, removed or renamed
/// node, and nothing otherwise.
proof fn lemma_compact_line_breaks(n: DiffNode, names: Seq<Seq<char>>)
    requires
        one_line_path(names),
        n.old_name matches Some(o) ==> !o@.contains('\n'),
    ensures
        line_breaks(compact_line(n, names)) == if n.kind == DiffKind::Added || n.kind == DiffKind::Removed || n.kind
            == DiffKind::Renamed {
            1nat
        } else {
            0nat
        },
{
    reveal_strlit(" > ");
    reveal_strlit("+ ");
    reveal_strlit("- ");
    reveal_strlit("-> ");
    reveal_strlit("\n");
    reveal_strlit(" (was ");
    reveal_strlit("?");
    reveal_strlit(")\n");
    assert(line_breaks(" > "@) == 0) by {
        reveal_with_fuel(line_breaks, 4);
    }
    lemma_join_one_line(names, " > "@);
    let full = join(names, " > "@);
    assert(line_breaks("+ "@) == 0 && line_breaks("- "@) == 0 && line_breaks("-> "@) == 0 && line_breaks(" (was "@) == 0
        && line_breaks("?"@) == 0) by {
        reveal_with_fuel(line_breaks, 7);
    }
    assert(line_breaks("\n"@) == 1 && line_breaks(")\n"@) == 1) by {
        reveal_with_fuel(line_breaks, 3);
    }
    match n.kind {
        DiffKind::Added => {
            lemma_line_breaks_concat("+ "@, full);
            lemma_line_breaks_concat("+ "@ + full, "\n"@);
        },
        DiffKind::Removed => {
            lemma_line_breaks_concat("- "@, full);
            lemma_line_breaks_concat("- "@ + full, "\n"@);
        },
        DiffKind::Renamed => {
            let o = match n.old_name {
                Some(o) => o@,
                None => "?"@,
            };
            if n.old_name is Some {
                lemma_no_line_breaks(o);
            }
            lemma_line_breaks_concat("-> "@, full);
            lemma_line_breaks_concat("-> "@ + full, " (was "@);
            lemma_line_breaks_concat("-> "@ + full + " (was "@, o);
            lemma_line_breaks_concat("-> "@ + full + " (was "@ + o, ")\n"@);
        },
        _ => {
            assert(compact_line(n, names) =~= Seq::<char>::empty());
        },
    }
}

/// A node without changes has none below it either.
proof fn lemma_unchanged_below(s: Seq<DiffNode>)
    requires
        forall|k: int| 0 <= k < s.len() ==> !node_has_changes(#[trigger] s[k]),
    ensures
        changed_nodes(s) == 0,
    decreases s,
{
    if s.len() > 0 {
        let n = s.last();
        assert(!node_has_changes(s[s.len() - 1]));
        assert forall|k: int| 0 <= k < s.drop_last().len() implies !node_has_changes(#[trigger] s.drop_last()[k]) by {
            assert(s.drop_last()[k] == s[k]);
        }
        lemma_unchanged_below(s.drop_last());
        assert forall|k: int| 0 <= k < n.children@.len() implies !node_has_changes(#[trigger] n.children@[k]) by {}
        lemma_unchanged_below(n.children@);
    }
}

/// The compact listing has one line for every added, removed or renamed
/// node of the forest, at any depth (names being one line each): nothing
/// under an added, removed or renamed group is left out, and nothing else
/// gets a line.
pub proof fn lemma_compact_lines_count(s: Seq<DiffNode>, path: Seq<Seq<char>>)
    requires
        one_line_names(s),
        one_line_path(path),
    ensures
        line_breaks(compact_text(s, path)) == changed_nodes(s),
    decreases s,
{
    if s.len() > 0 {
        let n = s.last();
        lemma_compact_lines_count(s.drop_last(), path);
        let p2 = path.push(n.name@);
        assert(one_line_path(p2)) by {
            assert forall|i: int| 0 <= i < p2.len() implies !(#[trigger] p2[i]).contains('\n') by {
                if i < path.len() {
                    assert(p2[i] == path[i]);
                }
            }
        }
        let rest = if n.kind == DiffKind::Unchanged && !node_has_changes(n) {
            seq![]
        } else {
            compact_line(n, p2) + compact_text(n.children@, p2)
        };
        assert(compact_text(s, path) == compact_text(s.drop_last(), path) + rest);
        lemma_line_breaks_concat(compact_text(s.drop_last(), path), rest);
        if n.kind == DiffKind::Unchanged && !node_has_changes(n) {
            assert forall|k: int| 0 <= k < n.children@.len() implies !node_has_changes(#[trigger] n.children@[k]) by {}
            lemma_unchanged_below(n.children@);
            assert(line_breaks(rest) == 0) by {
                assert(rest =~= Seq::<char>::empty());
            }
        } else {
            lemma_compact_line_breaks(n, p2);
            lemma_compact_lines_count(n.children@, p2);
            lemma_line_breaks_concat(compact_line(n, p2), compact_text(n.children@, p2));
        }
    }
}

/// The compact listing of all file diffs, each under its path.
pub open spec fn compact_files(fds: Seq<FileDiff>) -> Seq<char>
    decreases fds.len(),
{
    if fds.len() == 0 {
        seq![]
    } else {
        compact_files(fds.drop_last()) + compact_text(fds.last().nodes@, seq![fds.last().path@])
    }
}

/// Appends `join(parts, " > ")`.
fn push_joined(buf: &mut Vec<char>, parts: &Vec<Vec<char>>)
    ensures
        final(buf)@ == old(buf)@ + join(crate::text::char_rows(parts@), " > "@),
{
    let ghost b0 = buf@;
    let ghost rows = crate::text::char_rows(parts@);
    let mut i: usize = 0;
    while i < parts.len()
        invariant
            i <= parts.len(),
            rows == crate::text::char_rows(parts@),
            buf@ == b0 + join(rows.subrange(0, i as int), " > "@),
        decreases parts.len() - i,
    {
        let ghost pre = rows.subrange(0, i as int);
        let ghost next = rows.subrange(0, i + 1);
        assert(next.drop_last() =~= pre);
        if i > 0 {
            push_str(buf, " > ");
        }
        push_chars(buf, &parts[i]);
        i += 1;
        if i == 1 {
            assert(join(next, " > "@) == next[0]);
            assert(buf@ =~= b0 + join(next, " > "@));
        } else {
            assert(buf@ =~= b0 + join(next, " > "@));
        }
    }
    assert(rows.subrange(0, parts@.len() as int) =~= rows);
}

/// Appends the compact listing of `nodes` under the name path `path`.
fn collect_compact_lines(nodes: &Vec<DiffNode>, path: &Vec<Vec<char>>, output: &mut Vec<char>)
    ensures
        final(output)@ == old(output)@ + compact_text(nodes@, crate::text::char_rows(path@)),
    decreases nodes@,
{
    let ghost o0 = output@;
    let ghost p = crate::text::char_rows(path@);
    let mut i: usize = 0;
    while i < nodes.len()
        invariant
            i <= nodes.len(),
            p == crate::text::char_rows(path@),
            output@ == o0 + compact_text(nodes@.subrange(0, i as int), p),
        decreases nodes.len() - i,
    {
        let ghost pre = nodes@.subrange(0, i as int);
        let ghost next = nodes@.subrange(0, i + 1);
        assert(next.drop_last() =~= pre);
        assert(next.last() == nodes@[i as int]);
        let node = &nodes[i];
        if node.kind == DiffKind::Unchanged && !node.has_changes() {
            assert(output@ =~= o0 + compact_text(next, p));
        } else {
            let ghost o1 = output@;
            let mut current: Vec<Vec<char>> = Vec::new();
            let mut k: usize = 0;
            while k < path.len()
                invariant
                    k <= path.len(),
                    current@.len() == k,
                    forall|j: int| 0 <= j < k ==> (#[trigger] current@[j])@ == path@[j]@,
                decreases path.len() - k,
            {
                let seg = crate::text::slice_chars(&path[k], 0, path[k].len());
                assert(path@[k as int]@.subrange(0, path@[k as int]@.len() as int) =~= path@[k as int]@);
                current.push(seg);
                k += 1;
            }
            current.push(chars_of(node.name.as_str()));
            let ghost cp = crate::text::char_rows(current@);
            assert(cp =~= p.push(node.name@));
            match node.kind {
                DiffKind::Added => {
                    push_str(output, "+ ");
                    push_joined(output, &current);
                    push_str(output, "\n");
                },
                DiffKind::Removed => {
                    push_str(output, "- ");
                    push_joined(output, &current);
                    push_str(output, "\n");
                },
                DiffKind::Renamed => {
                    push_str(output, "-> ");
                    push_joined(output, &current);
                    push_str(output, " (was ");
                    match &node.old_name {
                        Some(o) => push_str(output, o.as_str()),
                        None => push_str(output, "?"),
                    }
                    push_str(output, ")\n");
                },
                _ => {},
            }
            assert(output@ =~= o1 + compact_line(*node, cp));
            let ghost o2 = output@;
            collect_compact_lines(&node.children, &current, output);
            assert(output@ =~= o0 + compact_text(next, p));
        }
        i += 1;
    }
    assert(nodes@.subrange(0, nodes@.len() as int) =~= nodes@);
}

/// One line `+ path > group > spec` per added node, `- ...` per removed
/// node and `-> ... (was old)` per renamed node, in tree order.
pub fn format_compact(file_diffs: &[FileDiff]) -> (r: String)
    ensures
        r@ == compact_files(file_diffs@),
{
    let mut output: Vec<char> = Vec::new();
    let mut i: usize = 0;
    while i < file_diffs.len()
        invariant
            i <= file_diffs@.len(),
            output@ == compact_files(file_diffs@.subrange(0, i as int)),
        decreases file_diffs@.len() - i,
    {
        let ghost pre = file_diffs@.subrange(0, i as int);
        let ghost next = file_diffs@.subrange(0, i + 1);
        assert(next.drop_last() =~= pre);
        let fd = &file_diffs[i];
        let mut path: Vec<Vec<char>> = Vec::new();
        path.push(chars_of(fd.path.as_str()));
        assert(crate::text::char_rows(path@) =~= seq![fd.path@]);
        collect_compact_lines(&fd.nodes, &path, &mut output);
        i += 1;
    }
    assert(file_diffs@.subrange(0, file_diffs@.len() as int) =~= file_diffs@);
    string_of(&output)
}

/// How the tree view is drawn.
#[derive(Clone, Copy, Default)]
pub struct TreeOptions {
    /// Leave out unchanged specs and files without changes.
    pub changed_only: bool,
    /// Use ANSI colours.
    pub color: bool,
    /// Keep long runs of unchanged lines instead of collapsing them.
    pub full_context: bool,
}

/// What a line of the tree view shows.
#[derive(Clone, Copy, PartialEq, Eq, Structural)]
pub enum LineKind {
    Spec(DiffKind),
    Other,
    Ellipsis(usize),
}

/// One line of the tree view, before it is written out.
pub struct RenderedLine {
    pub kind: LineKind,
    pub text: String,
}

/// The kind and text of each line.
pub open spec fn line_views(s: Seq<RenderedLine>) -> Seq<(LineKind, Seq<char>)> {
    Seq::new(s.len(), |i: int| (s[i].kind, s[i].text@))
}

/// `s` coloured with the escape code `code` when `color` is set.
pub open spec fn paint(code: Seq<char>, s: Seq<char>, color: bool) -> Seq<char> {
    if color {
        code + s + "\x1b[0m"@
    } else {
        s
    }
}

/// The glyph column of a node line.
pub open spec fn kind_prefix(k: DiffKind) -> Seq<char> {
    match k {
        DiffKind::Added => "+ "@,
        DiffKind::Removed => "- "@,
        DiffKind::Renamed => "->"@,
        DiffKind::Modified => "~ "@,
        DiffKind::Unchanged => "  "@,
    }
}

/// The colour of a node line.
pub open spec fn kind_color(k: DiffKind) -> Seq<char> {
    match k {
        DiffKind::Added => "\x1b[32m"@,
        DiffKind::Removed => "\x1b[31m"@,
        DiffKind::Renamed => "\x1b[33m"@,
        DiffKind::Modified => "\x1b[36m"@,
        DiffKind::Unchanged => "\x1b[2m"@,
    }
}

/// Two spaces per level of depth.
pub open spec fn indent(depth: nat) -> Seq<char> {
    Seq::new(2 * depth, |i: int| ' ')
}

/// The parameterized-case note after a node's name.
pub open spec fn param_suffix(old: Option<usize>, new: Option<usize>) -> Seq<char> {
    match (old, new) {
        (Some(o), Some(n)) => " ["@ + decimal(n as nat) + " cases, was "@ + decimal(o as nat) + "]"@,
        (Some(o), None) => " [was "@ + decimal(o as nat) + " cases]"@,
        (None, Some(n)) => " ["@ + decimal(n as nat) + " cases]"@,
        (None, None) => seq![],
    }
}

/// The text of a node's line at `depth`.
pub open spec fn node_text(n: DiffNode, depth: nat, color: bool) -> Seq<char> {
    let body = kind_prefix(n.kind) + " "@ + indent(depth) + n.name@ + (match (n.kind, n.old_name) {
        (DiffKind::Renamed, Some(o)) => " (was "@ + o@ + ")"@,
        _ => seq![],
    }) + param_suffix(n.old_param_cases, n.param_cases);
    if color {
        kind_color(n.kind) + body + "\x1b[0m"@
    } else {
        body
    }
}

/// The lines of a forest at `depth`: each shown node's line, then its
/// children's lines one level deeper. With `changed_only`, unchanged
/// subtrees are not shown.
pub open spec fn forest_lines(s: Seq<DiffNode>, depth: nat, changed_only: bool, color: bool) -> Seq<
    (LineKind, Seq<char>),
>
    decreases s,
{
    if s.len() == 0 {
        seq![]
    } else {
        let n = s.last();
        forest_lines(s.drop_last(), depth, changed_only, color) + if changed_only && n.kind
            == DiffKind::Unchanged && !node_has_changes(n) {
            seq![]
        } else {
            seq![(LineKind::Spec(n.kind), node_text(n, depth, color))] + forest_lines(
                n.children@,
                depth + 1,
                changed_only,
                color,
            )
        }
    }
}

/// One counter of the header, e.g. `+3 `.
pub open spec fn stat_text(code: Seq<char>, glyph: Seq<char>, count: nat, color: bool) -> Seq<char> {
    paint(code, glyph + decimal(count), color) + " "@
}

/// The header line: the tool's name, then the non-zero counters.
pub open spec fn header_text(a: nat, r: nat, n: nat, color: bool) -> Seq<char> {
    paint("\x1b[1m"@, "specdiff"@, color) + "  "@ + (if a > 0 {
        stat_text("\x1b[32m"@, "+"@, a, color)
    } else {
        seq![]
    }) + (if r > 0 {
        stat_text("\x1b[31m"@, "-"@, r, color)
    } else {
        seq![]
    }) + (if n > 0 {
        stat_text("\x1b[33m"@, "~>"@, n, color)
    } else {
        seq![]
    })
}

/// The header and a blank line, unless nothing was added, removed or
/// renamed.
pub open spec fn header_lines(fds: Seq<FileDiff>, color: bool) -> Seq<(LineKind, Seq<char>)> {
    let a = files_added(fds);
    let r = files_removed(fds);
    let n = files_renamed(fds);
    if a == 0 && r == 0 && n == 0 {
        seq![]
    } else {
        seq![(LineKind::Other, header_text(a, r, n, color)), (LineKind::Other, seq![])]
    }
}

/// The lines of the files: for each file shown, its path line and its
/// nodes at depth one. With `changed_only`, files without changes are
/// left out.
pub open spec fn file_lines(fds: Seq<FileDiff>, changed_only: bool, color: bool) -> Seq<
    (LineKind, Seq<char>),
>
    decreases fds.len(),
{
    if fds.len() == 0 {
        seq![]
    } else {
        let f = fds.last();
        file_lines(fds.drop_last(), changed_only, color) + if changed_only && !any_has_changes(
            f.nodes@,
        ) {
            seq![]
        } else {
            seq![(LineKind::Other, paint("\x1b[1m"@, "  "@ + f.path@, color))] + forest_lines(
                f.nodes@,
                1,
                changed_only,
                color,
            )
        }
    }
}

/// The text of the ellipsis line for `hidden` hidden lines.
pub open spec fn ellipsis_text(hidden: nat, color: bool) -> Seq<char> {
    paint(
        "\x1b[2m"@,
        "    ... ("@ + decimal(hidden) + " hidden line"@ + (if hidden == 1 {
            seq![]
        } else {
            "s"@
        }) + ")"@,
        color,
    )
}

/// Which lines are unchanged specs.
pub open spec fn unchanged_marks(l: Seq<(LineKind, Seq<char>)>) -> Seq<bool> {
    Seq::new(l.len(), |i: int| l[i].0 == LineKind::Spec(DiffKind::Unchanged))
}

/// The lines made from truncation pieces: kept lines, and ellipsis lines.
pub open spec fn apply_plan(pl: Seq<(bool, int)>, l: Seq<(LineKind, Seq<char>)>, color: bool) -> Seq<
    (LineKind, Seq<char>),
> {
    Seq::new(
        pl.len(),
        |k: int|
            if pl[k].0 {
                l[pl[k].1]
            } else {
                (LineKind::Ellipsis(pl[k].1 as usize), ellipsis_text(pl[k].1 as nat, color))
            },
    )
}

/// All lines of the tree view, after collapsing long unchanged runs unless
/// `changed_only` or `full_context` is set.
pub open spec fn tree_lines(fds: Seq<FileDiff>, opts: TreeOptions) -> Seq<(LineKind, Seq<char>)> {
    let l = header_lines(fds, opts.color) + file_lines(fds, opts.changed_only, opts.color);
    if !opts.changed_only && !opts.full_context {
        apply_plan(
            plan_from(unchanged_marks(l), 0, CONTEXT_HEAD as int, CONTEXT_TAIL as int),
            l,
            opts.color,
        )
    } else {
        l
    }
}

/// Each line followed by a newline.
pub open spec fn lines_text(l: Seq<(LineKind, Seq<char>)>) -> Seq<char>
    decreases l.len(),
{
    if l.len() == 0 {
        seq![]
    } else {
        lines_text(l.drop_last()) + l.last().1 + "\n"@
    }
}

/// Appends `s`, coloured with `code` when `color` is set.
fn push_painted(buf: &mut Vec<char>, code: &str, s: &Vec<char>, color: bool)
    ensures
        final(buf)@ == old(buf)@ + paint(code@, s@, color),
{
    if color {
        push_str(buf, code);
        push_chars(buf, s);
        push_str(buf, "\x1b[0m");
    } else {
        push_chars(buf, s);
    }
}

fn push_stat(text: &mut Vec<char>, code: &str, glyph: &str, count: usize, color: bool)
    ensures
        final(text)@ == old(text)@ + stat_text(code@, glyph@, count as nat, color),
{
    let mut body: Vec<char> = Vec::new();
    push_str(&mut body, glyph);
    push_decimal(&mut body, count);
    push_painted(text, code, &body, color);
    push_str(text, " ");
}

fn push_line(lines: &mut Vec<RenderedLine>, kind: LineKind, text: &Vec<char>)
    ensures
        line_views(final(lines)@) == line_views(old(lines)@).push((kind, text@)),
{
    lines.push(RenderedLine { kind, text: string_of(text) });
    assert(line_views(lines@) =~= line_views(old(lines)@).push((kind, text@)));
}

fn push_stats_header(lines: &mut Vec<RenderedLine>, file_diffs: &[FileDiff], color: bool)
    requires
        files_size(file_diffs@) <= usize::MAX,
    ensures
        line_views(final(lines)@) == line_views(old(lines)@) + header_lines(file_diffs@, color),
{
    let stats = Stats::from_file_diffs(file_diffs);
    if stats.is_empty() {
        assert(line_views(lines@) =~= line_views(lines@) + header_lines(file_diffs@, color));
        return;
    }
    let mut text: Vec<char> = Vec::new();
    let name = chars_of("specdiff");
    push_painted(&mut text, "\x1b[1m", &name, color);
    push_str(&mut text, "  ");
    if stats.added > 0 {
        push_stat(&mut text, "\x1b[32m", "+", stats.added, color);
    }
    if stats.removed > 0 {
        push_stat(&mut text, "\x1b[31m", "-", stats.removed, color);
    }
    if stats.renamed > 0 {
        push_stat(&mut text, "\x1b[33m", "~>", stats.renamed, color);
    }
    assert(text@ =~= header_text(stats.added as nat, stats.removed as nat, stats.renamed as nat, color));
    let ghost l0 = line_views(lines@);
    push_line(lines, LineKind::Other, &text);
    let empty: Vec<char> = Vec::new();
    push_line(lines, LineKind::Other, &empty);
    assert(line_views(lines@) =~= l0 + header_lines(file_diffs@, color));
}

fn make_ellipsis_line(hidden: usize, color: bool) -> (r: RenderedLine)
    ensures
        r.kind == LineKind::Ellipsis(hidden),
        r.text@ == ellipsis_text(hidden as nat, color),
{
    let mut body: Vec<char> = Vec::new();
    push_str(&mut body, "    ... (");
    push_decimal(&mut body, hidden);
    push_str(&mut body, " hidden line");
    if hidden != 1 {
        push_str(&mut body, "s");
    }
    push_str(&mut body, ")");
    let mut text: Vec<char> = Vec::new();
    push_painted(&mut text, "\x1b[2m", &body, color);
    assert(text@ =~= ellipsis_text(hidden as nat, color));
    RenderedLine { kind: LineKind::Ellipsis(hidden), text: string_of(&text) }
}

fn prefix_of(k: DiffKind) -> (r: &'static str)
    ensures
        r@ == kind_prefix(k),
{
    match k {
        DiffKind::Added => "+ ",
        DiffKind::Removed => "- ",
        DiffKind::Renamed => "->",
        DiffKind::Modified => "~ ",
        DiffKind::Unchanged => "  ",
    }
}

fn color_of(k: DiffKind) -> (r: &'static str)
    ensures
        r@ == kind_color(k),
{
    match k {
        DiffKind::Added => "\x1b[32m",
        DiffKind::Removed => "\x1b[31m",
        DiffKind::Renamed => "\x1b[33m",
        DiffKind::Modified => "\x1b[36m",
        DiffKind::Unchanged => "\x1b[2m",
    }
}

fn push_param_suffix(buf: &mut Vec<char>, was: Option<usize>, now: Option<usize>)
    ensures
        final(buf)@ == old(buf)@ + param_suffix(was, now),
{
    match (was, now) {
        (Some(o), Some(n)) => {
            push_str(buf, " [");
            push_decimal(buf, n);
            push_str(buf, " cases, was ");
            push_decimal(buf, o);
            push_str(buf, "]");
        },
        (Some(o), None) => {
            push_str(buf, " [was ");
            push_decimal(buf, o);
            push_str(buf, " cases]");
        },
        (None, Some(n)) => {
            push_str(buf, " [");
            push_decimal(buf, n);
            push_str(buf, " cases]");
        },
        (None, None) => {},
    }
}

fn node_line(node: &DiffNode, depth: usize, color: bool) -> (r: Vec<char>)
    ensures
        r@ == node_text(*node, depth as nat, color),
{
    let mut body: Vec<char> = Vec::new();
    push_str(&mut body, prefix_of(node.kind));
    push_str(&mut body, " ");
    let mut d: usize = 0;
    while d < depth
        invariant
            d <= depth,
            body@ == kind_prefix(node.kind) + " "@ + Seq::new(2 * d as nat, |i: int| ' '),
        decreases depth - d,
    {
        body.push(' ');
        body.push(' ');
        d += 1;
        assert(body@ =~= kind_prefix(node.kind) + " "@ + Seq::new(2 * d as nat, |i: int| ' '));
    }
    push_str(&mut body, node.name.as_str());
    match (node.kind, &node.old_name) {
        (DiffKind::Renamed, Some(o)) => {
            push_str(&mut body, " (was ");
            push_str(&mut body, o.as_str());
            push_str(&mut body, ")");
        },
        _ => {},
    }
    push_param_suffix(&mut body, node.old_param_cases, node.param_cases);
    let mut text: Vec<char> = Vec::new();
    if color {
        push_str(&mut text, color_of(node.kind));
        push_chars(&mut text, &body);
        push_str(&mut text, "\x1b[0m");
    } else {
        push_chars(&mut text, &body);
    }
    assert(text@ =~= node_text(*node, depth as nat, color));
    text
}

fn push_tree_nodes(
    nodes: &Vec<DiffNode>,
    lines: &mut Vec<RenderedLine>,
    depth: usize,
    changed_only: bool,
    color: bool,
)
    requires
        depth + forest_size(nodes@) <= usize::MAX,
    ensures
        line_views(final(lines)@) == line_views(old(lines)@) + forest_lines(
            nodes@,
            depth as nat,
            changed_only,
            color,
        ),
    decreases nodes@,
{
    let ghost l0 = line_views(lines@);
    let mut i: usize = 0;
    while i < nodes.len()
        invariant
            i <= nodes.len(),
            depth + forest_size(nodes@) <= usize::MAX,
            forest_size(nodes@.subrange(0, i as int)) <= forest_size(nodes@),
            line_views(lines@) == l0 + forest_lines(
                nodes@.subrange(0, i as int),
                depth as nat,
                changed_only,
                color,
            ),
        decreases nodes.len() - i,
    {
        let ghost pre = nodes@.subrange(0, i as int);
        let ghost next = nodes@.subrange(0, i + 1);
        assert(next.drop_last() =~= pre);
        assert(next.last() == nodes@[i as int]);
        proof {
            lemma_forest_size_prefix(nodes@, i + 1);
        }
        let node = &nodes[i];
        if changed_only && node.kind == DiffKind::Unchanged && !node.has_changes() {
            assert(line_views(lines@) =~= l0 + forest_lines(next, depth as nat, changed_only, color));
        } else {
            let text = node_line(node, depth, color);
            let ghost l1 = line_views(lines@);
            push_line(lines, LineKind::Spec(node.kind), &text);
            push_tree_nodes(&node.children, lines, depth + 1, changed_only, color);
            assert(line_views(lines@) =~= l0 + forest_lines(next, depth as nat, changed_only, color));
        }
        i += 1;
    }
    assert(nodes@.subrange(0, nodes@.len() as int) =~= nodes@);
}

/// The tree view: a header with the counts of added, removed and renamed
/// specs, then each file's path and its outline with one glyph per change
/// (`+`, `-`, `->`, `~`). Long runs of unchanged lines are collapsed into
/// an ellipsis line unless `changed_only` or `full_context` is set. Colours
/// are used when `opts.color` is set.
pub fn format_tree(file_diffs: &[FileDiff], opts: TreeOptions) -> (r: String)
    requires
        files_size(file_diffs@) < usize::MAX,
    ensures
        r@ == lines_text(tree_lines(file_diffs@, opts)),
{
    let color = opts.color;
    let mut lines: Vec<RenderedLine> = Vec::new();
    push_stats_header(&mut lines, file_diffs, color);
    let ghost hl = line_views(lines@);
    let mut i: usize = 0;
    while i < file_diffs.len()
        invariant
            i <= file_diffs@.len(),
            color == opts.color,
            files_size(file_diffs@) < usize::MAX,
            hl == header_lines(file_diffs@, color),
            line_views(lines@) == hl + file_lines(file_diffs@.subrange(0, i as int), opts.changed_only, color),
        decreases file_diffs@.len() - i,
    {
        let ghost pre = file_diffs@.subrange(0, i as int);
        let ghost next = file_diffs@.subrange(0, i + 1);
        assert(next.drop_last() =~= pre);
        let fd = &file_diffs[i];
        proof {
            crate::diff::types::lemma_files_size_prefix(file_diffs@, i + 1);
        }
        let file_has_changes = any_changes(&fd.nodes);
        if opts.changed_only && !file_has_changes {
            assert(line_views(lines@) =~= hl + file_lines(next, opts.changed_only, color));
        } else {
            let mut text: Vec<char> = Vec::new();
            push_str(&mut text, "  ");
            push_str(&mut text, fd.path.as_str());
            let mut painted: Vec<char> = Vec::new();
            push_painted(&mut painted, "\x1b[1m", &text, color);
            push_line(&mut lines, LineKind::Other, &painted);
            push_tree_nodes(&fd.nodes, &mut lines, 1, opts.changed_only, color);
            assert(line_views(lines@) =~= hl + file_lines(next, opts.changed_only, color));
        }
        i += 1;
    }
    assert(file_diffs@.subrange(0, file_diffs@.len() as int) =~= file_diffs@);
    let ghost l = line_views(lines@);
    if !opts.changed_only && !opts.full_context {
        let ghost before = lines@;
        let is_unchanged = |line: &RenderedLine| -> (u: bool)
            ensures
                u == (line.kind == LineKind::Spec(DiffKind::Unchanged)),
            {
                match line.kind {
                    LineKind::Spec(DiffKind::Unchanged) => true,
                    _ => false,
                }
            };
        let make = |hidden: usize| -> (e: RenderedLine)
            ensures
                e.kind == LineKind::Ellipsis(hidden),
                e.text@ == ellipsis_text(hidden as nat, color),
            { make_ellipsis_line(hidden, color) };
        truncate_unchanged_runs(&mut lines, CONTEXT_HEAD, CONTEXT_TAIL, is_unchanged, make);
        proof {
            let m = choose|m: Seq<bool>|
                {
                    &&& m.len() == before.len()
                    &&& forall|k: int|
                        0 <= k < m.len() ==> call_ensures(is_unchanged, (&before[k],), #[trigger] m[k])
                    &&& realizes(plan_from(m, 0, CONTEXT_HEAD as int, CONTEXT_TAIL as int), before, lines@, make)
                };
            assert(m =~= unchanged_marks(l)) by {
                assert forall|k: int| 0 <= k < m.len() implies m[k] == unchanged_marks(l)[k] by {
                    assert(call_ensures(is_unchanged, (&before[k],), m[k]));
                    assert(l[k] == (before[k].kind, before[k].text@));
                }
            }
            let pl = plan_from(m, 0, CONTEXT_HEAD as int, CONTEXT_TAIL as int);
            assert(line_views(lines@) =~= apply_plan(pl, l, color)) by {
                assert forall|k: int| 0 <= k < pl.len() implies line_views(lines@)[k] == apply_plan(pl, l, color)[k] by {
                    let _p = pl[k];
                    if pl[k].0 {
                        assert(lines@[k] == before[pl[k].1]);
                    } else {
                        assert(call_ensures(make, (pl[k].1 as usize,), lines@[k]));
                    }
                }
            }
        }
    }
    let mut output: Vec<char> = Vec::new();
    let ghost fl = line_views(lines@);
    let mut k: usize = 0;
    while k < lines.len()
        invariant
            k <= lines@.len(),
            fl == line_views(lines@),
            output@ == lines_text(fl.subrange(0, k as int)),
        decreases lines@.len() - k,
    {
        let ghost next = fl.subrange(0, k + 1);
        assert(next.drop_last() =~= fl.subrange(0, k as int));
        push_str(&mut output, lines[k].text.as_str());
        push_str(&mut output, "\n");
        k += 1;
    }
    assert(fl.subrange(0, fl.len() as int) =~= fl);
    string_of(&output)
}

} // verus!

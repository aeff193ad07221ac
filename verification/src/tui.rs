//! The decisions of the watch-mode view: the lines it shows, where files
//! start, and how keys move the view.
use crate::diff::types::{any_changes, any_has_changes, forest_size, lemma_forest_size_prefix, node_has_changes, DiffKind, DiffNode, FileDiff, Stats};
use crate::output::truncate::{plan_from, realizes, truncate_unchanged_runs, CONTEXT_HEAD, CONTEXT_TAIL};
use crate::output::{indent, kind_prefix, LineKind};
use crate::parse::registry::{path_extension, path_extension_of};
use crate::text::{decimal, push_decimal, push_str, str_eq, string_of};
use vstd::prelude::*;

verus! {

/// How the view is drawn.
#[derive(Clone, Copy, Default)]
pub struct RenderOptions {
    pub changed_only: bool,
    pub full_context: bool,
}

/// What drawing tells the event loop: where each file's section starts,
/// and how far the body can scroll.
pub struct RenderResult {
    pub section_offsets: Vec<usize>,
    pub max_scroll: usize,
}

/// The style of a line of the view.
#[derive(Clone, Copy, Debug, PartialEq, Eq, Structural)]
pub enum LineStyle {
    Plain,
    Bold,
    Green,
    Red,
    Yellow,
    Cyan,
    DarkGray,
}

/// One line of the view body.
pub struct TuiLine {
    pub kind: LineKind,
    pub text: String,
    pub style: LineStyle,
    pub is_section_start: bool,
}

/// The kind, text, style and section flag of each line.
pub open spec fn tui_views(s: Seq<TuiLine>) -> Seq<(LineKind, Seq<char>, LineStyle, bool)> {
    Seq::new(s.len(), |i: int| (s[i].kind, s[i].text@, s[i].style, s[i].is_section_start))
}

/// The style of a node line.
pub open spec fn kind_style(k: DiffKind) -> LineStyle {
    match k {
        DiffKind::Added => LineStyle::Green,
        DiffKind::Removed => LineStyle::Red,
        DiffKind::Renamed => LineStyle::Yellow,
        DiffKind::Modified => LineStyle::Cyan,
        DiffKind::Unchanged => LineStyle::DarkGray,
    }
}

/// The text of a node line: the glyph, the indentation, the name (a
/// rename shows `old -> new`) and the case count.
pub open spec fn tui_node_text(n: DiffNode, depth: nat) -> Seq<char> {
    kind_prefix(n.kind) + " "@ + indent(depth) + (match (n.kind, n.old_name) {
        (DiffKind::Renamed, Some(o)) => o@ + " -> "@,
        _ => seq![],
    }) + n.name@ + (match n.param_cases {
        Some(c) => " ["@ + decimal(c as nat) + " cases]"@,
        None => seq![],
    })
}

/// The lines of a forest at `depth`.
pub open spec fn tui_forest(s: Seq<DiffNode>, depth: nat, changed_only: bool) -> Seq<(LineKind, Seq<char>, LineStyle, bool)>
    decreases s,
{
    if s.len() == 0 {
        seq![]
    } else {
        let n = s.last();
        tui_forest(s.drop_last(), depth, changed_only) + if changed_only && n.kind == DiffKind::Unchanged
            && !node_has_changes(n) {
            seq![]
        } else {
            seq![(LineKind::Spec(n.kind), tui_node_text(n, depth), kind_style(n.kind), false)] + tui_forest(
                n.children@,
                depth + 1,
                changed_only,
            )
        }
    }
}

/// The lines of all files: for each file shown, its path line (a section
/// start), its nodes, and a blank line.
pub open spec fn tui_files(fds: Seq<FileDiff>, changed_only: bool) -> Seq<(LineKind, Seq<char>, LineStyle, bool)>
    decreases fds.len(),
{
    if fds.len() == 0 {
        seq![]
    } else {
        let f = fds.last();
        tui_files(fds.drop_last(), changed_only) + if changed_only && !any_has_changes(f.nodes@) {
            seq![]
        } else {
            seq![(LineKind::Other, "  "@ + f.path@, LineStyle::Bold, true)] + tui_forest(f.nodes@, 1, changed_only)
                + seq![(LineKind::Other, seq![], LineStyle::Plain, false)]
        }
    }
}

/// The ellipsis line for `hidden` hidden lines.
pub open spec fn tui_ellipsis(hidden: nat) -> (LineKind, Seq<char>, LineStyle, bool) {
    (
        LineKind::Ellipsis(hidden as usize),
        "    ... ("@ + decimal(hidden) + " hidden line"@ + (if hidden == 1 {
            seq![]
        } else {
            "s"@
        }) + ")"@,
        LineStyle::DarkGray,
        false,
    )
}

/// The lines made from truncation pieces.
pub open spec fn tui_apply(pl: Seq<(bool, int)>, l: Seq<(LineKind, Seq<char>, LineStyle, bool)>) -> Seq<
    (LineKind, Seq<char>, LineStyle, bool),
> {
    Seq::new(pl.len(), |k: int| if pl[k].0 { l[pl[k].1] } else { tui_ellipsis(pl[k].1 as nat) })
}

/// Which lines are unchanged specs.
pub open spec fn tui_marks(l: Seq<(LineKind, Seq<char>, LineStyle, bool)>) -> Seq<bool> {
    Seq::new(l.len(), |i: int| l[i].0 == LineKind::Spec(DiffKind::Unchanged))
}

/// The body lines of the view, long unchanged runs collapsed unless
/// `changed_only` or `full_context` is set.
pub open spec fn tui_lines(fds: Seq<FileDiff>, opts: RenderOptions) -> Seq<(LineKind, Seq<char>, LineStyle, bool)> {
    let l = tui_files(fds, opts.changed_only);
    if !opts.changed_only && !opts.full_context {
        tui_apply(plan_from(tui_marks(l), 0, CONTEXT_HEAD as int, CONTEXT_TAIL as int), l)
    } else {
        l
    }
}

fn push_tui(lines: &mut Vec<TuiLine>, kind: LineKind, text: &Vec<char>, style: LineStyle, start: bool)
    ensures
        tui_views(final(lines)@) == tui_views(old(lines)@).push((kind, text@, style, start)),
{
    lines.push(TuiLine { kind, text: string_of(text), style, is_section_start: start });
    assert(tui_views(lines@) =~= tui_views(old(lines)@).push((kind, text@, style, start)));
}

fn style_of(k: DiffKind) -> (r: LineStyle)
    ensures
        r == kind_style(k),
{
    match k {
        DiffKind::Added => LineStyle::Green,
        DiffKind::Removed => LineStyle::Red,
        DiffKind::Renamed => LineStyle::Yellow,
        DiffKind::Modified => LineStyle::Cyan,
        DiffKind::Unchanged => LineStyle::DarkGray,
    }
}

fn prefix_text(k: DiffKind) -> (r: &'static str)
    ensures
        r@ == kind_prefix(k),
{
    match k {
        DiffKind::Added => "+ ",
        DiffKind::Removed => "- ",
        DiffKind::Renamed => "->",
        DiffKind::Modified => "~ ",
        DiffKind::Unchanged => "  ",
    }
}

fn node_line_text(node: &DiffNode, depth: usize) -> (r: Vec<char>)
    ensures
        r@ == tui_node_text(*node, depth as nat),
{
    let mut t: Vec<char> = Vec::new();
    push_str(&mut t, prefix_text(node.kind));
    push_str(&mut t, " ");
    let mut d: usize = 0;
    while d < depth
        invariant
            d <= depth,
            t@ == kind_prefix(node.kind) + " "@ + Seq::new(2 * d as nat, |i: int| ' '),
        decreases depth - d,
    {
        t.push(' ');
        t.push(' ');
        d += 1;
        assert(t@ =~= kind_prefix(node.kind) + " "@ + Seq::new(2 * d as nat, |i: int| ' '));
    }
    match (node.kind, &node.old_name) {
        (DiffKind::Renamed, Some(o)) => {
            push_str(&mut t, o.as_str());
            push_str(&mut t, " -> ");
        },
        _ => {},
    }
    push_str(&mut t, node.name.as_str());
    match node.param_cases {
        Some(c) => {
            push_str(&mut t, " [");
            push_decimal(&mut t, c);
            push_str(&mut t, " cases]");
        },
        None => {},
    }
    assert(t@ =~= tui_node_text(*node, depth as nat));
    t
}

fn collect_lines(nodes: &Vec<DiffNode>, lines: &mut Vec<TuiLine>, depth: usize, changed_only: bool)
    requires
        depth + forest_size(nodes@) <= usize::MAX,
    ensures
        tui_views(final(lines)@) == tui_views(old(lines)@) + tui_forest(nodes@, depth as nat, changed_only),
    decreases nodes@,
{
    let ghost l0 = tui_views(lines@);
    let mut i: usize = 0;
    while i < nodes.len()
        invariant
            i <= nodes.len(),
            depth + forest_size(nodes@) <= usize::MAX,
            forest_size(nodes@.subrange(0, i as int)) <= forest_size(nodes@),
            tui_views(lines@) == l0 + tui_forest(nodes@.subrange(0, i as int), depth as nat, changed_only),
        decreases nodes.len() - i,
    {
        let ghost pre = nodes@.subrange(0, i as int);
        let ghost next = nodes@.subrange(0, i + 1);
        assert(next.drop_last() =~= pre);
        assert(next.last() == nodes@[i as int]);
        proof {
            lemma_forest_size_prefix(nodes@, i + 1);
        }
        let node = &nodes[i];
        if changed_only && node.kind == DiffKind::Unchanged && !node.has_changes() {
            assert(tui_views(lines@) =~= l0 + tui_forest(next, depth as nat, changed_only));
        } else {
            let text = node_line_text(node, depth);
            push_tui(lines, LineKind::Spec(node.kind), &text, style_of(node.kind), false);
            collect_lines(&node.children, lines, depth + 1, changed_only);
            assert(tui_views(lines@) =~= l0 + tui_forest(next, depth as nat, changed_only));
        }
        i += 1;
    }
    assert(nodes@.subrange(0, nodes@.len() as int) =~= nodes@);
}

fn make_ellipsis_tui_line(hidden: usize) -> (r: TuiLine)
    ensures
        (r.kind, r.text@, r.style, r.is_section_start) == tui_ellipsis(hidden as nat),
{
    let mut t: Vec<char> = Vec::new();
    push_str(&mut t, "    ... (");
    push_decimal(&mut t, hidden);
    push_str(&mut t, " hidden line");
    if hidden != 1 {
        push_str(&mut t, "s");
    }
    push_str(&mut t, ")");
    assert(t@ =~= tui_ellipsis(hidden as nat).1);
    TuiLine { kind: LineKind::Ellipsis(hidden), text: string_of(&t), style: LineStyle::DarkGray, is_section_start: false }
}

/// The body lines of the view: each file's path (starting a section), its
/// outline, a blank line; long unchanged runs collapsed into an ellipsis
/// unless `changed_only` or `full_context` is set.
pub fn build_tui_lines(file_diffs: &[FileDiff], opts: RenderOptions) -> (r: Vec<TuiLine>)
    requires
        crate::diff::types::files_size(file_diffs@) < usize::MAX,
    ensures
        tui_views(r@) == tui_lines(file_diffs@, opts),
{
    let mut lines: Vec<TuiLine> = Vec::new();
    let mut i: usize = 0;
    while i < file_diffs.len()
        invariant
            i <= file_diffs@.len(),
            crate::diff::types::files_size(file_diffs@) < usize::MAX,
            tui_views(lines@) == tui_files(file_diffs@.subrange(0, i as int), opts.changed_only),
        decreases file_diffs@.len() - i,
    {
        let ghost pre = file_diffs@.subrange(0, i as int);
        let ghost next = file_diffs@.subrange(0, i + 1);
        assert(next.drop_last() =~= pre);
        let fd = &file_diffs[i];
        proof {
            crate::diff::types::lemma_files_size_prefix(file_diffs@, i + 1);
        }
        if opts.changed_only && !any_changes(&fd.nodes) {
            assert(tui_views(lines@) =~= tui_files(next, opts.changed_only));
        } else {
            let mut header: Vec<char> = Vec::new();
            push_str(&mut header, "  ");
            push_str(&mut header, fd.path.as_str());
            push_tui(&mut lines, LineKind::Other, &header, LineStyle::Bold, true);
            collect_lines(&fd.nodes, &mut lines, 1, opts.changed_only);
            let blank: Vec<char> = Vec::new();
            push_tui(&mut lines, LineKind::Other, &blank, LineStyle::Plain, false);
            assert(tui_views(lines@) =~= tui_files(next, opts.changed_only));
        }
        i += 1;
    }
    assert(file_diffs@.subrange(0, file_diffs@.len() as int) =~= file_diffs@);
    let ghost l = tui_views(lines@);
    if !opts.changed_only && !opts.full_context {
        let ghost before = lines@;
        let is_unchanged = |line: &TuiLine| -> (u: bool)
            ensures
                u == (line.kind == LineKind::Spec(DiffKind::Unchanged)),
            {
                match line.kind {
                    LineKind::Spec(DiffKind::Unchanged) => true,
                    _ => false,
                }
            };
        let make = |hidden: usize| -> (e: TuiLine)
            ensures
                (e.kind, e.text@, e.style, e.is_section_start) == tui_ellipsis(hidden as nat),
            { make_ellipsis_tui_line(hidden) };
        truncate_unchanged_runs(&mut lines, CONTEXT_HEAD, CONTEXT_TAIL, is_unchanged, make);
        proof {
            let m = choose|m: Seq<bool>|
                {
                    &&& m.len() == before.len()
                    &&& forall|k: int|
                        0 <= k < m.len() ==> call_ensures(is_unchanged, (&before[k],), #[trigger] m[k])
                    &&& realizes(plan_from(m, 0, CONTEXT_HEAD as int, CONTEXT_TAIL as int), before, lines@, make)
                };
            assert(m =~= tui_marks(l)) by {
                assert forall|k: int| 0 <= k < m.len() implies m[k] == tui_marks(l)[k] by {
                    assert(call_ensures(is_unchanged, (&before[k],), m[k]));
                    assert(l[k] == (before[k].kind, before[k].text@, before[k].style, before[k].is_section_start));
                }
            }
            let pl = plan_from(m, 0, CONTEXT_HEAD as int, CONTEXT_TAIL as int);
            assert(tui_views(lines@) =~= tui_apply(pl, l)) by {
                assert forall|k: int| 0 <= k < pl.len() implies tui_views(lines@)[k] == tui_apply(pl, l)[k] by {
                    let _p = pl[k];
                    if pl[k].0 {
                        assert(lines@[k] == before[pl[k].1]);
                    } else {
                        assert(call_ensures(make, (pl[k].1 as usize,), lines@[k]));
                    }
                }
            }
        }
    }
    lines
}

/// The positions of the section-start lines, in order.
pub open spec fn section_starts(l: Seq<(LineKind, Seq<char>, LineStyle, bool)>) -> Seq<usize>
    decreases l.len(),
{
    if l.len() == 0 {
        seq![]
    } else if l.last().3 {
        section_starts(l.drop_last()).push((l.len() - 1) as usize)
    } else {
        section_starts(l.drop_last())
    }
}

/// Where each section starts, and how far the body can scroll when
/// `height` lines are visible.
pub fn layout(lines: &Vec<TuiLine>, height: usize) -> (r: RenderResult)
    ensures
        r.section_offsets@ == section_starts(tui_views(lines@)),
        r.max_scroll == if lines@.len() > height { lines@.len() - height } else { 0 },
{
    let ghost v = tui_views(lines@);
    let mut offsets: Vec<usize> = Vec::new();
    let mut i: usize = 0;
    while i < lines.len()
        invariant
            i <= lines@.len(),
            v == tui_views(lines@),
            offsets@ == section_starts(v.subrange(0, i as int)),
        decreases lines@.len() - i,
    {
        let ghost next = v.subrange(0, i + 1);
        assert(next.drop_last() =~= v.subrange(0, i as int));
        if lines[i].is_section_start {
            offsets.push(i);
        }
        i += 1;
    }
    assert(v.subrange(0, v.len() as int) =~= v);
    let max_scroll = if lines.len() > height { lines.len() - height } else { 0 };
    RenderResult { section_offsets: offsets, max_scroll }
}

/// The first offset after `current`, if any.
pub open spec fn next_offset(offsets: Seq<usize>, current: usize) -> Option<usize>
    decreases offsets.len(),
{
    if offsets.len() == 0 {
        None
    } else if offsets[0] > current {
        Some(offsets[0])
    } else {
        next_offset(offsets.subrange(1, offsets.len() as int), current)
    }
}

/// The last offset before `current`, if any.
pub open spec fn prev_offset(offsets: Seq<usize>, current: usize) -> Option<usize>
    decreases offsets.len(),
{
    if offsets.len() == 0 {
        None
    } else if offsets.last() < current {
        Some(offsets.last())
    } else {
        prev_offset(offsets.drop_last(), current)
    }
}

/// The first section offset after `current`; `current` when there is none.
pub fn next_section(current: usize, offsets: &[usize]) -> (r: usize)
    ensures
        r == match next_offset(offsets@, current) {
            Some(o) => o,
            None => current,
        },
{
    let mut i: usize = 0;
    assert(offsets@.subrange(0, offsets@.len() as int) =~= offsets@);
    while i < offsets.len()
        invariant
            i <= offsets@.len(),
            next_offset(offsets@, current) == next_offset(offsets@.subrange(i as int, offsets@.len() as int), current),
        decreases offsets@.len() - i,
    {
        let ghost rest = offsets@.subrange(i as int, offsets@.len() as int);
        assert(rest.subrange(1, rest.len() as int) =~= offsets@.subrange(i + 1, offsets@.len() as int));
        if offsets[i] > current {
            return offsets[i];
        }
        i += 1;
    }
    current
}

/// The last section offset before `current`; 0 when there is none.
pub fn prev_section(current: usize, offsets: &[usize]) -> (r: usize)
    ensures
        r == match prev_offset(offsets@, current) {
            Some(o) => o,
            None => 0,
        },
{
    let mut i: usize = offsets.len();
    assert(offsets@.subrange(0, offsets@.len() as int) =~= offsets@);
    while i > 0
        invariant
            i <= offsets@.len(),
            prev_offset(offsets@, current) == prev_offset(offsets@.subrange(0, i as int), current),
        decreases i,
    {
        let ghost pre = offsets@.subrange(0, i as int);
        assert(pre.drop_last() =~= offsets@.subrange(0, i - 1));
        if offsets[i - 1] < current {
            return offsets[i - 1];
        }
        i -= 1;
    }
    0
}

/// `j` moves forward and `k` moves backward: the next section offset lies
/// after the current position, the previous one before it.
pub proof fn lemma_section_jumps(offsets: Seq<usize>, current: usize)
    ensures
        next_offset(offsets, current) matches Some(o) ==> o > current,
        prev_offset(offsets, current) matches Some(o) ==> o < current,
    decreases offsets.len(),
{
    if offsets.len() > 0 {
        lemma_section_jumps(offsets.subrange(1, offsets.len() as int), current);
        lemma_section_jumps(offsets.drop_last(), current);
    }
}

/// A key press of the view, as far as the view distinguishes keys.
#[derive(Clone, Copy, Debug, PartialEq, Eq, Structural)]
pub enum Key {
    Char(char),
    Esc,
    Down,
    Up,
    PageDown,
    PageUp,
    Home,
    End,
    Other,
}

/// The state of the view that keys change.
pub struct ViewState {
    pub scroll: usize,
    pub section_offsets: Vec<usize>,
    pub changed_only: bool,
    pub quit: bool,
    pub needs_redraw: bool,
    pub max_scroll: usize,
}

/// `a - b`, or 0 when `b > a`.
pub open spec fn sat_sub(a: usize, b: usize) -> usize {
    if a >= b { (a - b) as usize } else { 0 }
}

/// `a + b`, or `usize::MAX` when it overflows.
pub open spec fn sat_add(a: usize, b: usize) -> usize {
    if a + b <= usize::MAX { (a + b) as usize } else { usize::MAX }
}

/// The scroll position a key asks for, before clamping.
pub open spec fn key_scroll(s: ViewState, key: Key, ctrl: bool) -> usize {
    match key {
        Key::Char('j') => match next_offset(s.section_offsets@, s.scroll) {
            Some(o) => o,
            None => s.scroll,
        },
        Key::Char('k') => match prev_offset(s.section_offsets@, s.scroll) {
            Some(o) => o,
            None => 0,
        },
        Key::Down => sat_add(s.scroll, 1),
        Key::Up => sat_sub(s.scroll, 1),
        Key::PageDown => sat_add(s.scroll, 20),
        Key::PageUp => sat_sub(s.scroll, 20),
        Key::Home | Key::Char('g') => 0,
        Key::End | Key::Char('G') => usize::MAX,
        _ => s.scroll,
    }
}

/// Whether a key quits: `q`, Esc, or Ctrl-C.
pub open spec fn key_quits(key: Key, ctrl: bool) -> bool {
    key == Key::Char('q') || key == Key::Esc || (key == Key::Char('c') && ctrl)
}

/// Whether a key moves or redraws the view.
pub open spec fn key_redraws(key: Key, ctrl: bool) -> bool {
    !key_quits(key, ctrl) && match key {
        Key::Char('j') | Key::Char('k') | Key::Char('g') | Key::Char('G') | Key::Char('c') => true,
        Key::Down | Key::Up | Key::PageDown | Key::PageUp | Key::Home | Key::End => true,
        _ => false,
    }
}

/// The pieces of the view's header line, with their styles: the title,
/// then either a note that nothing changed or the added and removed
/// counts, and the renamed count when there are renames.
pub open spec fn header_view(s: Stats) -> Seq<(Seq<char>, LineStyle)> {
    if s.added == 0 && s.removed == 0 && s.renamed == 0 && s.modified == 0 {
        seq![("specdiff"@, LineStyle::Bold), ("  No test outline changes"@, LineStyle::DarkGray)]
    } else {
        let counts = seq![
            ("specdiff"@, LineStyle::Bold),
            ("  "@, LineStyle::Plain),
            ("+"@ + decimal(s.added as nat), LineStyle::Green),
            (" "@, LineStyle::Plain),
            ("-"@ + decimal(s.removed as nat), LineStyle::Red),
        ];
        if s.renamed > 0 {
            counts.push((" ~>"@ + decimal(s.renamed as nat), LineStyle::Yellow))
        } else {
            counts
        }
    }
}

/// The text of a header piece.
pub open spec fn piece_views(v: Seq<(String, LineStyle)>) -> Seq<(Seq<char>, LineStyle)> {
    Seq::new(v.len(), |i: int| (v[i].0@, v[i].1))
}

/// A piece of text: `prefix` followed by the decimal digits of `n`.
fn counted(prefix: &str, n: usize) -> (r: String)
    ensures
        r@ == prefix@ + decimal(n as nat),
{
    let mut v: Vec<char> = Vec::new();
    push_str(&mut v, prefix);
    push_decimal(&mut v, n);
    string_of(&v)
}

/// The pieces of the view's header line for the given counts.
pub fn header_pieces(stats: &Stats) -> (r: Vec<(String, LineStyle)>)
    ensures
        piece_views(r@) == header_view(*stats),
{
    let mut out: Vec<(String, LineStyle)> = Vec::new();
    out.push((crate::text::owned("specdiff"), LineStyle::Bold));
    if stats.is_empty() {
        out.push((crate::text::owned("  No test outline changes"), LineStyle::DarkGray));
        assert(piece_views(out@) =~= header_view(*stats));
        return out;
    }
    out.push((crate::text::owned("  "), LineStyle::Plain));
    out.push((counted("+", stats.added), LineStyle::Green));
    out.push((crate::text::owned(" "), LineStyle::Plain));
    out.push((counted("-", stats.removed), LineStyle::Red));
    if stats.renamed > 0 {
        out.push((counted(" ~>", stats.renamed), LineStyle::Yellow));
    }
    assert(piece_views(out@) =~= header_view(*stats));
    out
}

/// The extensions of the source files whose change the view reacts to.
pub open spec fn watched_extension(e: Seq<char>) -> bool {
    e == "rb"@ || e == "rs"@ || e == "py"@ || e == "js"@ || e == "jsx"@ || e == "ts"@ || e == "tsx"@ || e == "go"@
        || e == "exs"@
}

/// Whether a change of the file at `path` is one the view reacts to: its
/// extension is that of a Ruby, Rust, Python, JavaScript, TypeScript, Go
/// or Elixir test file.
pub fn is_watched_path(path: &str) -> (r: bool)
    ensures
        r == match path_extension_of(path@) {
            Some(e) => watched_extension(e),
            None => false,
        },
{
    match path_extension(path) {
        Some(e) => {
            let x = e.as_str();
            str_eq(x, "rb") || str_eq(x, "rs") || str_eq(x, "py") || str_eq(x, "js") || str_eq(x, "jsx")
                || str_eq(x, "ts") || str_eq(x, "tsx") || str_eq(x, "go") || str_eq(x, "exs")
        },
        None => false,
    }
}

impl ViewState {
    /// Takes in what drawing found: the section starts and the scroll
    /// limit, with the scroll position brought within it; nothing is left
    /// to redraw.
    pub fn apply_render(&mut self, result: RenderResult)
        ensures
            final(self).section_offsets@ == result.section_offsets@,
            final(self).max_scroll == result.max_scroll,
            final(self).scroll == if old(self).scroll <= result.max_scroll {
                old(self).scroll
            } else {
                result.max_scroll
            },
            !final(self).needs_redraw,
            final(self).quit == old(self).quit,
            final(self).changed_only == old(self).changed_only,
    {
        self.section_offsets = result.section_offsets;
        self.max_scroll = result.max_scroll;
        if self.scroll > self.max_scroll {
            self.scroll = self.max_scroll;
        }
        self.needs_redraw = false;
    }

    /// Applies a key: `q`, Esc and Ctrl-C quit; `j` / `k` jump to the
    /// next / previous file; arrows and page keys scroll by 1 / 20; Home
    /// and `g` go to the top, End and `G` to the bottom; `c` toggles
    /// changed-only. The scroll position always stays within
    /// `max_scroll`.
    pub fn handle_key(&mut self, key: Key, ctrl: bool)
        ensures
            final(self).quit == (old(self).quit || key_quits(key, ctrl)),
            final(self).changed_only == if !key_quits(key, ctrl) && key == Key::Char('c') {
                !old(self).changed_only
            } else {
                old(self).changed_only
            },
            final(self).needs_redraw == (old(self).needs_redraw || key_redraws(key, ctrl)),
            final(self).scroll == if key_quits(key, ctrl) {
                if old(self).scroll <= old(self).max_scroll { old(self).scroll } else { old(self).max_scroll }
            } else {
                let s = key_scroll(*old(self), key, ctrl);
                if s <= old(self).max_scroll { s } else { old(self).max_scroll }
            },
            final(self).section_offsets@ == old(self).section_offsets@,
            final(self).max_scroll == old(self).max_scroll,
    {
        match key {
            Key::Char('q') | Key::Esc => {
                self.quit = true;
            },
            Key::Char('c') if ctrl => {
                self.quit = true;
            },
            Key::Char('j') => {
                self.scroll = next_section(self.scroll, self.section_offsets.as_slice());
                self.needs_redraw = true;
            },
            Key::Char('k') => {
                self.scroll = prev_section(self.scroll, self.section_offsets.as_slice());
                self.needs_redraw = true;
            },
            Key::Down => {
                self.scroll = self.scroll.saturating_add(1);
                self.needs_redraw = true;
            },
            Key::Up => {
                self.scroll = self.scroll.saturating_sub(1);
                self.needs_redraw = true;
            },
            Key::PageDown => {
                self.scroll = self.scroll.saturating_add(20);
                self.needs_redraw = true;
            },
            Key::PageUp => {
                self.scroll = self.scroll.saturating_sub(20);
                self.needs_redraw = true;
            },
            Key::Home | Key::Char('g') => {
                self.scroll = 0;
                self.needs_redraw = true;
            },
            Key::End | Key::Char('G') => {
                self.scroll = usize::MAX;
                self.needs_redraw = true;
            },
            Key::Char('c') => {
                self.changed_only = !self.changed_only;
                self.needs_redraw = true;
            },
            _ => {},
        }
        if self.scroll > self.max_scroll {
            self.scroll = self.max_scroll;
        }
    }
}

} // verus!

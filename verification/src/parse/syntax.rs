//! Syntax trees as plain data: every node of a tree-sitter parse copied
//! into an arena of kinds, field names, positions and links.
use crate::text::str_eq;
use vstd::prelude::*;

verus! {

#[verifier::external_type_specification]
#[verifier::external_body]
pub struct ExTree(tree_sitter::Tree);

#[verifier::external_type_specification]
#[verifier::external_body]
pub struct ExLanguage(tree_sitter::Language);

/// The grammars the frameworks are written in.
#[derive(Clone, Copy, Debug, PartialEq, Eq, Structural)]
pub enum Grammar {
    Ruby,
    Rust,
    Python,
    JavaScript,
    Go,
    Elixir,
    Java,
    Php,
}

/// The grammar for a framework's language name, if it is one we parse.
pub open spec fn grammar_of(language: Seq<char>) -> Option<Grammar> {
    if language == "ruby"@ {
        Some(Grammar::Ruby)
    } else if language == "rust"@ {
        Some(Grammar::Rust)
    } else if language == "python"@ {
        Some(Grammar::Python)
    } else if language == "javascript"@ {
        Some(Grammar::JavaScript)
    } else if language == "go"@ {
        Some(Grammar::Go)
    } else if language == "elixir"@ {
        Some(Grammar::Elixir)
    } else if language == "java"@ {
        Some(Grammar::Java)
    } else if language == "php"@ {
        Some(Grammar::Php)
    } else {
        None
    }
}

/// The grammar for a language name.
pub fn grammar_for(language: &str) -> (r: Option<Grammar>)
    ensures
        r == grammar_of(language@),
{
    if str_eq(language, "ruby") {
        Some(Grammar::Ruby)
    } else if str_eq(language, "rust") {
        Some(Grammar::Rust)
    } else if str_eq(language, "python") {
        Some(Grammar::Python)
    } else if str_eq(language, "javascript") {
        Some(Grammar::JavaScript)
    } else if str_eq(language, "go") {
        Some(Grammar::Go)
    } else if str_eq(language, "elixir") {
        Some(Grammar::Elixir)
    } else if str_eq(language, "java") {
        Some(Grammar::Java)
    } else if str_eq(language, "php") {
        Some(Grammar::Php)
    } else {
        None
    }
}

/// The tree-sitter language of a grammar: `LANGUAGE` of the grammar's
/// crate (`LANGUAGE_PHP` for PHP, the grammar with its HTML wrapper).
#[verifier::external_body]
fn language_of(g: Grammar) -> tree_sitter::Language {
    match g {
        Grammar::Ruby => tree_sitter_ruby::LANGUAGE.into(),
        Grammar::Rust => tree_sitter_rust::LANGUAGE.into(),
        Grammar::Python => tree_sitter_python::LANGUAGE.into(),
        Grammar::JavaScript => tree_sitter_javascript::LANGUAGE.into(),
        Grammar::Go => tree_sitter_go::LANGUAGE.into(),
        Grammar::Elixir => tree_sitter_elixir::LANGUAGE.into(),
        Grammar::Java => tree_sitter_java::LANGUAGE.into(),
        Grammar::Php => tree_sitter_php::LANGUAGE_PHP.into(),
    }
}

/// Whether `tree_sitter::Parser::set_language` accepts the grammar's
/// language (it refuses one built for an ABI version it does not support).
pub uninterp spec fn grammar_loads(g: Grammar) -> bool;

/// `Node::descendant_count` of the root of the parse of `text`: how many
/// nodes the tree has, anonymous ones included.
pub uninterp spec fn ts_count(g: Grammar, text: Seq<char>) -> usize;

/// `Node::kind` of node `i`, counting nodes in pre-order from the root.
pub uninterp spec fn ts_kind(g: Grammar, text: Seq<char>, i: usize) -> Seq<char>;

/// `TreeCursor::field_name` of node `i`: the field under which it hangs
/// from its parent.
pub uninterp spec fn ts_field(g: Grammar, text: Seq<char>, i: usize) -> Option<Seq<char>>;

/// `Node::is_named` of node `i`.
pub uninterp spec fn ts_named(g: Grammar, text: Seq<char>, i: usize) -> bool;

/// `Node::start_byte` of node `i`.
pub uninterp spec fn ts_start(g: Grammar, text: Seq<char>, i: usize) -> usize;

/// `Node::end_byte` of node `i`.
pub uninterp spec fn ts_end(g: Grammar, text: Seq<char>, i: usize) -> usize;

/// The row of `Node::start_position` of node `i` (zero-based).
pub uninterp spec fn ts_row(g: Grammar, text: Seq<char>, i: usize) -> usize;

/// `TreeCursor::depth` of node `i`: how far below the root it lies.
pub uninterp spec fn ts_depth(g: Grammar, text: Seq<char>, i: usize) -> usize;

/// A tree-sitter parse, kept with the grammar and the text it was made
/// from. Only `parse_with` makes one, so the tree is the parse of the text.
struct ParsedSource {
    grammar: Grammar,
    text: String,
    tree: tree_sitter::Tree,
}

impl ParsedSource {
    spec fn grammar(&self) -> Grammar {
        self.grammar
    }

    spec fn text(&self) -> Seq<char> {
        self.text@
    }
}

/// Makes a `tree_sitter::Parser`, gives it the grammar's language with
/// `set_language` and parses the whole text with `Parser::parse` (no old
/// tree). `parse` gives a tree whenever a language is set, and a parse
/// depends on the language and the text alone.
#[verifier::external_body]
fn parse_with(grammar: Grammar, text: &str) -> (r: Option<ParsedSource>)
    ensures
        r is Some == grammar_loads(grammar),
        r matches Some(p) ==> p.grammar() == grammar && p.text() == text@,
{
    let mut parser = tree_sitter::Parser::new();
    parser.set_language(&language_of(grammar)).ok()?;
    let tree = parser.parse(text, None)?;
    Some(ParsedSource { grammar, text: text.to_string(), tree })
}

/// `Node::descendant_count` of the parse's root node.
#[verifier::external_body]
fn node_count(p: &ParsedSource) -> (r: usize)
    ensures
        r == ts_count(p.grammar(), p.text()),
{
    p.tree.root_node().descendant_count()
}

/// What tree-sitter reports of one node.
struct NodeFacts {
    kind: String,
    field: Option<String>,
    named: bool,
    start: usize,
    end: usize,
    row: usize,
    depth: usize,
}

/// Moves a fresh cursor of the parse to node `i` with
/// `TreeCursor::goto_descendant` and reads the node's kind, field name,
/// namedness, byte range, start row and depth, each copied as it is.
#[verifier::external_body]
fn node_facts(p: &ParsedSource, i: usize) -> (r: NodeFacts)
    requires
        i < ts_count(p.grammar(), p.text()),
    ensures
        r.kind@ == ts_kind(p.grammar(), p.text(), i),
        (match r.field {
            Some(f) => Some(f@),
            None => None,
        }) == ts_field(p.grammar(), p.text(), i),
        r.named == ts_named(p.grammar(), p.text(), i),
        r.start == ts_start(p.grammar(), p.text(), i),
        r.end == ts_end(p.grammar(), p.text(), i),
        r.row == ts_row(p.grammar(), p.text(), i),
        r.depth == ts_depth(p.grammar(), p.text(), i),
{
    let mut cursor = p.tree.walk();
    cursor.goto_descendant(i);
    let node = cursor.node();
    NodeFacts {
        kind: node.kind().to_string(),
        field: cursor.field_name().map(String::from),
        named: node.is_named(),
        start: node.start_byte(),
        end: node.end_byte(),
        row: node.start_position().row,
        depth: cursor.depth() as usize,
    }
}

/// The text of the bytes `start .. end` of `source`, when that range lies
/// on character boundaries inside the text.
pub uninterp spec fn byte_range_text(source: Seq<char>, start: usize, end: usize) -> Option<Seq<char>>;

/// Calls `str::get` with the byte range `start .. end`; the result depends
/// on the text and the range alone.
#[verifier::external_body]
fn slice_bytes(source: &str, start: usize, end: usize) -> (r: Option<String>)
    ensures
        match r {
            Some(s) => byte_range_text(source@, start, end) == Some(s@),
            None => byte_range_text(source@, start, end) is None,
        },
{
    match source.get(start..end) {
        Some(s) => Some(s.to_string()),
        None => None,
    }
}

/// One node of a syntax tree.
pub struct SyntaxNode {
    pub kind: String,
    /// The field name under which the node hangs from its parent.
    pub field: Option<String>,
    pub named: bool,
    pub start: usize,
    pub end: usize,
    /// Zero-based row of the node's first character.
    pub row: usize,
    pub parent: Option<usize>,
    /// The sibling just before this node.
    pub prev: Option<usize>,
    pub children: Vec<usize>,
}

/// A syntax tree whose nodes are numbered in pre-order; the root is 0.
pub struct SyntaxTree {
    pub nodes: Vec<SyntaxNode>,
}

/// Links only point to existing nodes: parents and previous siblings
/// come earlier in pre-order, children later.
pub open spec fn wf_tree(nodes: Seq<SyntaxNode>) -> bool {
    forall|i: int|
        0 <= i < nodes.len() ==> {
            &&& (#[trigger] nodes[i]).parent matches Some(p) ==> 0 <= p < i
            &&& nodes[i].prev matches Some(q) ==> 0 <= q < i
            &&& forall|k: int|
                0 <= k < nodes[i].children@.len() ==> i < #[trigger] nodes[i].children@[k] < nodes.len()
        }
}

/// The depths of the nodes of a parse, in pre-order.
pub open spec fn depths_of(g: Grammar, text: Seq<char>) -> Seq<usize> {
    Seq::new(ts_count(g, text) as nat, |i: int| ts_depth(g, text, i as usize))
}

/// The last node before `i` whose depth is `d`.
pub open spec fn last_at(ds: Seq<usize>, i: int, d: usize) -> Option<usize>
    decreases i,
{
    if i <= 0 {
        None
    } else if ds[i - 1] == d {
        Some((i - 1) as usize)
    } else {
        last_at(ds, i - 1, d)
    }
}

/// In a pre-order listing with depths, the parent of node `i` is the last
/// node before it one level up; a node at depth 0 has none.
pub open spec fn parent_at(ds: Seq<usize>, i: int) -> Option<usize> {
    if ds[i] == 0 {
        None
    } else {
        last_at(ds, i, (ds[i] - 1) as usize)
    }
}

/// The nodes before `m` whose parent is `p`, in order.
pub open spec fn kids_before(ds: Seq<usize>, p: usize, m: int) -> Seq<usize>
    decreases m,
{
    if m <= 0 {
        seq![]
    } else if parent_at(ds, m - 1) == Some(p) {
        kids_before(ds, p, m - 1).push((m - 1) as usize)
    } else {
        kids_before(ds, p, m - 1)
    }
}

/// The sibling just before node `i`: the last child of its parent that
/// comes before it.
pub open spec fn prev_at(ds: Seq<usize>, i: int) -> Option<usize> {
    match parent_at(ds, i) {
        Some(p) => {
            let k = kids_before(ds, p, i);
            if k.len() > 0 {
                Some(k.last())
            } else {
                None
            }
        },
        None => None,
    }
}

/// Node `i` of the arena is node `i` of the parse: the facts tree-sitter
/// reports of it, and the links its depth gives.
pub open spec fn node_copied(nodes: Seq<SyntaxNode>, g: Grammar, text: Seq<char>, i: int) -> bool {
    let ds = depths_of(g, text);
    let n = nodes[i];
    &&& n.kind@ == ts_kind(g, text, i as usize)
    &&& (match n.field {
        Some(f) => Some(f@),
        None => None,
    }) == ts_field(g, text, i as usize)
    &&& n.named == ts_named(g, text, i as usize)
    &&& n.start == ts_start(g, text, i as usize)
    &&& n.end == ts_end(g, text, i as usize)
    &&& n.row == ts_row(g, text, i as usize)
    &&& n.parent == parent_at(ds, i)
    &&& n.prev == prev_at(ds, i)
    &&& n.children@ == kids_before(ds, i as usize, ds.len() as int)
}

/// The arena holds the parse of `text` with `g`, node for node in pre-order.
pub open spec fn copied_from(nodes: Seq<SyntaxNode>, g: Grammar, text: Seq<char>) -> bool {
    &&& nodes.len() == ts_count(g, text)
    &&& forall|i: int| 0 <= i < nodes.len() ==> #[trigger] node_copied(nodes, g, text, i)
}

/// The last node at a depth lies before the bound.
proof fn lemma_last_at_below(ds: Seq<usize>, i: int, d: usize)
    requires
        i <= usize::MAX,
    ensures
        last_at(ds, i, d) matches Some(k) ==> 0 <= k < i && ds[k as int] == d,
    decreases i,
{
    if i > 0 && ds[i - 1] != d {
        lemma_last_at_below(ds, i - 1, d);
    }
}

/// The children of `p` found before `m` lie strictly between `p` and `m`.
proof fn lemma_kids_between(ds: Seq<usize>, p: usize, m: int)
    requires
        m <= ds.len(),
        m <= usize::MAX,
    ensures
        forall|k: int| 0 <= k < kids_before(ds, p, m).len() ==> p < #[trigger] kids_before(ds, p, m)[k] < m,
    decreases m,
{
    if m > 0 {
        lemma_kids_between(ds, p, m - 1);
        let before = kids_before(ds, p, m - 1);
        if parent_at(ds, m - 1) == Some(p) {
            lemma_last_at_below(ds, m - 1, (ds[m - 1] - 1) as usize);
            assert forall|k: int| 0 <= k < kids_before(ds, p, m).len() implies p < #[trigger] kids_before(ds, p, m)[k] < m by {
                if k < before.len() {
                    assert(kids_before(ds, p, m)[k] == before[k]);
                }
            }
        }
    }
}

/// Copies the parse into an arena, node by node in pre-order, linking each
/// node to the last node one level up before it.
fn copy_parse(p: &ParsedSource) -> (r: SyntaxTree)
    ensures
        wf_tree(r.nodes@),
        copied_from(r.nodes@, p.grammar(), p.text()),
{
    let n = node_count(p);
    let ghost g = p.grammar();
    let ghost text = p.text();
    let ghost ds = depths_of(g, text);
    let mut nodes: Vec<SyntaxNode> = Vec::new();
    // The last node seen at each depth.
    let mut last: Vec<Option<usize>> = Vec::new();
    let mut i: usize = 0;
    while i < n
        invariant
            n == ts_count(g, text),
            ds == depths_of(g, text),
            g == p.grammar(),
            text == p.text(),
            i <= n,
            nodes@.len() == i,
            forall|d: int| 0 <= d < last@.len() ==> #[trigger] last@[d] == last_at(ds, i as int, d as usize),
            forall|d: usize| d >= last@.len() ==> #[trigger] last_at(ds, i as int, d) is None,
            forall|j: int| 0 <= j < i ==> {
                let m = #[trigger] nodes@[j];
                &&& m.kind@ == ts_kind(g, text, j as usize)
                &&& (match m.field {
                    Some(f) => Some(f@),
                    None => None,
                }) == ts_field(g, text, j as usize)
                &&& m.named == ts_named(g, text, j as usize)
                &&& m.start == ts_start(g, text, j as usize)
                &&& m.end == ts_end(g, text, j as usize)
                &&& m.row == ts_row(g, text, j as usize)
                &&& m.parent == parent_at(ds, j)
                &&& m.prev == prev_at(ds, j)
                &&& m.children@ == kids_before(ds, j as usize, i as int)
            },
        decreases n - i,
    {
        let f = node_facts(p, i);
        let d = f.depth;
        assert(ds[i as int] == d);
        let parent: Option<usize> = if d == 0 {
            None
        } else if d - 1 < last.len() {
            last[d - 1]
        } else {
            None
        };
        assert(parent == parent_at(ds, i as int));
        proof {
            if d != 0 {
                lemma_last_at_below(ds, i as int, (d - 1) as usize);
            }
        }
        let prev = match parent {
            Some(q) => {
                let c = nodes[q].children.len();
                if c > 0 {
                    Some(nodes[q].children[c - 1])
                } else {
                    None
                }
            },
            None => None,
        };
        assert(prev == prev_at(ds, i as int));
        let ghost before = nodes@;
        nodes.push(
            SyntaxNode {
                kind: f.kind,
                field: f.field,
                named: f.named,
                start: f.start,
                end: f.end,
                row: f.row,
                parent,
                prev,
                children: Vec::new(),
            },
        );
        assert(kids_before(ds, i, i as int + 1) =~= seq![]) by {
            lemma_kids_between(ds, i, i as int);
            if kids_before(ds, i, i as int).len() > 0 {
                assert(i < kids_before(ds, i, i as int)[0]);
            }
            assert(kids_before(ds, i, i as int) =~= seq![]);
        }
        match parent {
            Some(q) => {
                let ghost mid = nodes@;
                nodes[q].children.push(i);
                assert forall|j: int| 0 <= j <= i implies #[trigger] nodes@[j].children@ == kids_before(ds, j as usize, i as int + 1) by {
                    if j != q {
                        assert(nodes@[j] == mid[j]);
                    }
                }
                assert forall|j: int| 0 <= j <= i implies #[trigger] nodes@[j].kind == mid[j].kind
                    && nodes@[j].field == mid[j].field && nodes@[j].parent == mid[j].parent && nodes@[j].prev == mid[j].prev by {
                }
            },
            None => {
                assert forall|j: int| 0 <= j <= i implies #[trigger] nodes@[j].children@ == kids_before(ds, j as usize, i as int + 1) by {
                    if j < i {
                        assert(nodes@[j] == before[j]);
                    }
                }
            },
        }
        // Record the node as the last one seen at its depth.
        if d < last.len() {
            last.set(d, Some(i));
        } else {
            while last.len() < d
                invariant
                    last@.len() <= d,
                    forall|e: int| 0 <= e < last@.len() ==> #[trigger] last@[e] == last_at(ds, i as int, e as usize),
                    forall|e: usize| e >= last@.len() ==> #[trigger] last_at(ds, i as int, e) is None,
                decreases d - last@.len(),
            {
                let ghost k = last@.len();
                assert(last_at(ds, i as int, k as usize) is None);
                last.push(None);
            }
            last.push(Some(i));
        }
        assert forall|e: int| 0 <= e < last@.len() implies #[trigger] last@[e] == last_at(ds, i as int + 1, e as usize) by {}
        assert forall|e: usize| e >= last@.len() implies #[trigger] last_at(ds, i as int + 1, e) is None by {
            assert(last_at(ds, i as int, e) is None);
        }
        i = i + 1;
    }
    proof {
        assert forall|j: int| 0 <= j < nodes@.len() implies #[trigger] node_copied(nodes@, g, text, j) by {}
        assert forall|j: int| 0 <= j < nodes@.len() implies {
            &&& (#[trigger] nodes@[j]).parent matches Some(q) ==> 0 <= q < j
            &&& nodes@[j].prev matches Some(q) ==> 0 <= q < j
            &&& forall|k: int|
                0 <= k < nodes@[j].children@.len() ==> j < #[trigger] nodes@[j].children@[k] < nodes@.len()
        } by {
            if ds[j] != 0 {
                lemma_last_at_below(ds, j, (ds[j] - 1) as usize);
            }
            lemma_kids_between(ds, j as usize, n as int);
            match parent_at(ds, j) {
                Some(q) => {
                    lemma_kids_between(ds, q, j);
                },
                None => {},
            }
        }
    }
    SyntaxTree { nodes }
}

/// Parses `source` with `grammar` into an arena; `None` exactly when
/// tree-sitter does not accept the grammar's language.
pub fn parse_source(grammar: Grammar, source: &str) -> (r: Option<SyntaxTree>)
    ensures
        r is Some == grammar_loads(grammar),
        r matches Some(t) ==> wf_tree(t.nodes@) && copied_from(t.nodes@, grammar, source@),
{
    let parsed = parse_with(grammar, source)?;
    Some(copy_parse(&parsed))
}

/// The kind of node `n`; empty for a node that does not exist.
pub open spec fn kind_of(t: SyntaxTree, n: usize) -> Seq<char> {
    if n < t.nodes@.len() {
        t.nodes@[n as int].kind@
    } else {
        seq![]
    }
}

/// The children of node `n`; none for a node that does not exist.
pub open spec fn children_of(t: SyntaxTree, n: usize) -> Seq<usize> {
    if n < t.nodes@.len() {
        t.nodes@[n as int].children@
    } else {
        seq![]
    }
}

/// The field name of node `n` under its parent.
pub open spec fn field_of(t: SyntaxTree, n: usize) -> Option<Seq<char>> {
    if n < t.nodes@.len() {
        match t.nodes@[n as int].field {
            Some(f) => Some(f@),
            None => None,
        }
    } else {
        None
    }
}

/// Whether node `n` is a named node.
pub open spec fn named_of(t: SyntaxTree, n: usize) -> bool {
    n < t.nodes@.len() && t.nodes@[n as int].named
}

/// The first node of `s` that satisfies `p`.
pub open spec fn first_where(s: Seq<usize>, p: spec_fn(usize) -> bool) -> Option<usize>
    decreases s.len(),
{
    if s.len() == 0 {
        None
    } else if p(s[0]) {
        Some(s[0])
    } else {
        first_where(s.subrange(1, s.len() as int), p)
    }
}

/// The node of `s` with `i` nodes satisfying `p` before it, if it
/// satisfies `p` itself.
pub open spec fn nth_where(s: Seq<usize>, p: spec_fn(usize) -> bool, i: nat) -> Option<usize>
    decreases s.len(),
{
    if s.len() == 0 {
        None
    } else if p(s[0]) {
        if i == 0 {
            Some(s[0])
        } else {
            nth_where(s.subrange(1, s.len() as int), p, (i - 1) as nat)
        }
    } else {
        nth_where(s.subrange(1, s.len() as int), p, i)
    }
}

/// A search from position `i` on looks at `s[i]`, then goes on from `i + 1`.
pub proof fn lemma_first_where_step(s: Seq<usize>, p: spec_fn(usize) -> bool, i: int)
    requires
        0 <= i < s.len(),
    ensures
        first_where(s.subrange(i, s.len() as int), p) == if p(s[i]) {
            Some(s[i])
        } else {
            first_where(s.subrange(i + 1, s.len() as int), p)
        },
{
    let r = s.subrange(i, s.len() as int);
    assert(r.subrange(1, r.len() as int) =~= s.subrange(i + 1, s.len() as int));
}

/// A count of matches from position `i` on looks at `s[i]`, then goes on
/// from `i + 1`.
pub proof fn lemma_nth_where_step(s: Seq<usize>, p: spec_fn(usize) -> bool, i: int, n: nat)
    requires
        0 <= i < s.len(),
    ensures
        nth_where(s.subrange(i, s.len() as int), p, n) == if p(s[i]) {
            if n == 0 {
                Some(s[i])
            } else {
                nth_where(s.subrange(i + 1, s.len() as int), p, (n - 1) as nat)
            }
        } else {
            nth_where(s.subrange(i + 1, s.len() as int), p, n)
        },
{
    let r = s.subrange(i, s.len() as int);
    assert(r.subrange(1, r.len() as int) =~= s.subrange(i + 1, s.len() as int));
}

/// Named nodes.
pub open spec fn named_pred(t: SyntaxTree) -> spec_fn(usize) -> bool {
    |c: usize| named_of(t, c)
}

/// The source text of node `n`, if it exists and its byte range is text.
pub open spec fn text_of(t: SyntaxTree, n: usize, source: Seq<char>) -> Option<Seq<char>> {
    if n < t.nodes@.len() {
        byte_range_text(source, t.nodes@[n as int].start, t.nodes@[n as int].end)
    } else {
        None
    }
}

/// The text of an optional string.
pub open spec fn opt_text(o: Option<String>) -> Option<Seq<char>> {
    match o {
        Some(s) => Some(s@),
        None => None,
    }
}

/// The first child of `n` that hangs from field `f`, if any.
pub open spec fn field_child(t: SyntaxTree, n: usize, f: Seq<char>) -> Option<usize> {
    first_where(children_of(t, n), field_pred(t, f))
}

/// Nodes that hang from field `f`.
pub open spec fn field_pred(t: SyntaxTree, f: Seq<char>) -> spec_fn(usize) -> bool {
    |c: usize| field_of(t, c) == Some(f)
}

/// What a search finds is an element of the searched sequence.
pub proof fn lemma_first_where_member(s: Seq<usize>, p: spec_fn(usize) -> bool)
    ensures
        first_where(s, p) matches Some(c) ==> s.contains(c),
    decreases s.len(),
{
    if s.len() > 0 {
        if p(s[0]) {
            assert(s[0] == s[0]);
        } else {
            let rest = s.subrange(1, s.len() as int);
            lemma_first_where_member(rest, p);
            if let Some(c) = first_where(rest, p) {
                let k = choose|k: int| 0 <= k < rest.len() && rest[k] == c;
                assert(s[k + 1] == c);
            }
        }
    }
}

/// In a well-formed tree, the node a field names comes after its parent.
pub proof fn lemma_field_child_later(t: SyntaxTree, n: usize, f: Seq<char>)
    requires
        wf_tree(t.nodes@),
    ensures
        field_child(t, n, f) matches Some(c) ==> n < c < t.nodes@.len(),
{
    lemma_first_where_member(children_of(t, n), field_pred(t, f));
    if let Some(c) = field_child(t, n, f) {
        let k = choose|k: int| 0 <= k < children_of(t, n).len() && children_of(t, n)[k] == c;
        lemma_child_later(t, n, k);
    }
}

/// In a well-formed tree, each child comes after its parent.
pub proof fn lemma_child_later(t: SyntaxTree, n: usize, k: int)
    requires
        wf_tree(t.nodes@),
        0 <= k < children_of(t, n).len(),
    ensures
        n < children_of(t, n)[k] < t.nodes@.len(),
{
    assert(n < t.nodes@.len());
    let nodes = t.nodes@;
    assert(0 <= k < nodes[n as int].children@.len());
}

impl SyntaxTree {
    /// The kind of node `n` (empty when it does not exist).
    pub fn kind(&self, n: usize) -> (r: &str)
        ensures
            r@ == kind_of(*self, n),
    {
        if n < self.nodes.len() {
            self.nodes[n].kind.as_str()
        } else {
            proof {
                reveal_strlit("");
            }
            ""
        }
    }

    /// Whether node `n` has kind `k`.
    pub fn kind_is(&self, n: usize, k: &str) -> (r: bool)
        ensures
            r == (kind_of(*self, n) == k@),
    {
        str_eq(self.kind(n), k)
    }

    /// The number of children of node `n`.
    pub fn child_count(&self, n: usize) -> (r: usize)
        ensures
            r == children_of(*self, n).len(),
    {
        if n < self.nodes.len() {
            self.nodes[n].children.len()
        } else {
            0
        }
    }

    /// The `i`-th child of node `n`.
    pub fn child(&self, n: usize, i: usize) -> (r: usize)
        requires
            i < children_of(*self, n).len(),
        ensures
            r == children_of(*self, n)[i as int],
    {
        self.nodes[n].children[i]
    }

    /// Whether node `n` is named.
    pub fn is_named(&self, n: usize) -> (r: bool)
        ensures
            r == named_of(*self, n),
    {
        n < self.nodes.len() && self.nodes[n].named
    }

    /// The zero-based row where node `n` starts (0 when it does not exist).
    pub fn row(&self, n: usize) -> (r: usize)
        ensures
            n < self.nodes@.len() ==> r == self.nodes@[n as int].row,
            n >= self.nodes@.len() ==> r == 0,
    {
        if n < self.nodes.len() {
            self.nodes[n].row
        } else {
            0
        }
    }

    /// The parent of node `n`.
    pub fn parent(&self, n: usize) -> (r: Option<usize>)
        ensures
            n < self.nodes@.len() ==> r == self.nodes@[n as int].parent,
            n >= self.nodes@.len() ==> r is None,
    {
        if n < self.nodes.len() {
            self.nodes[n].parent
        } else {
            None
        }
    }

    /// The sibling just before node `n`.
    pub fn prev_sibling(&self, n: usize) -> (r: Option<usize>)
        ensures
            n < self.nodes@.len() ==> r == self.nodes@[n as int].prev,
            n >= self.nodes@.len() ==> r is None,
    {
        if n < self.nodes.len() {
            self.nodes[n].prev
        } else {
            None
        }
    }

    /// Whether node `n` hangs from field `f`.
    fn has_field(&self, n: usize, f: &str) -> (r: bool)
        ensures
            r == (field_of(*self, n) == Some(f@)),
    {
        if n < self.nodes.len() {
            match &self.nodes[n].field {
                Some(x) => str_eq(x.as_str(), f),
                None => false,
            }
        } else {
            false
        }
    }

    /// The first child of `n` that hangs from field `f`.
    pub fn child_by_field(&self, n: usize, f: &str) -> (r: Option<usize>)
        ensures
            r == field_child(*self, n, f@),
    {
        let cnt = self.child_count(n);
        let ghost cs = children_of(*self, n);
        let ghost p = field_pred(*self, f@);
        let mut i: usize = 0;
        assert(cs.subrange(0, cs.len() as int) =~= cs);
        while i < cnt
            invariant
                cnt == cs.len(),
                cs == children_of(*self, n),
                p == field_pred(*self, f@),
                i <= cnt,
                first_where(cs, p) == first_where(cs.subrange(i as int, cs.len() as int), p),
            decreases cnt - i,
        {
            let c = self.child(n, i);
            proof {
                lemma_first_where_step(cs, p, i as int);
            }
            if self.has_field(c, f) {
                return Some(c);
            }
            i += 1;
        }
        None
    }

    /// The `i`-th named child of node `n`.
    pub fn named_child(&self, n: usize, i: usize) -> (r: Option<usize>)
        ensures
            r == nth_where(children_of(*self, n), named_pred(*self), i as nat),
    {
        let ghost cs = children_of(*self, n);
        let ghost p = named_pred(*self);
        let cnt = self.child_count(n);
        let mut seen: usize = 0;
        let mut k: usize = 0;
        assert(cs.subrange(0, cs.len() as int) =~= cs);
        while k < cnt
            invariant
                cs == children_of(*self, n),
                p == named_pred(*self),
                cnt == cs.len(),
                k <= cnt,
                seen <= i,
                nth_where(cs, p, i as nat) == nth_where(cs.subrange(k as int, cs.len() as int), p, (i - seen) as nat),
            decreases cnt - k,
        {
            let c = self.child(n, k);
            proof {
                lemma_nth_where_step(cs, p, k as int, (i - seen) as nat);
            }
            if self.is_named(c) {
                if seen == i {
                    return Some(c);
                }
                seen += 1;
            }
            k += 1;
        }
        None
    }

    /// The source text of node `n`.
    pub fn text(&self, n: usize, source: &str) -> (r: Option<String>)
        ensures
            opt_text(r) == text_of(*self, n, source@),
            n >= self.nodes@.len() ==> r is None,
            n < self.nodes@.len() ==> match r {
                Some(s) => byte_range_text(source@, self.nodes@[n as int].start, self.nodes@[n as int].end) == Some(s@),
                None => byte_range_text(source@, self.nodes@[n as int].start, self.nodes@[n as int].end) is None,
            },
    {
        if n < self.nodes.len() {
            slice_bytes(source, self.nodes[n].start, self.nodes[n].end)
        } else {
            None
        }
    }
}

} // verus!

//! The parsing engine: walks a syntax tree and, following a framework's
//! description, turns its groups, specs, markers, shared examples, loops
//! and parameterized cases into a spec tree.
//!
//! Recursion into the tree carries a depth budget equal to the number of
//! nodes of the tree, which no descent from the root can exhaust.
use super::registry::{
    contains_str, FrameworkDef, GroupDef, InheritanceDef, MarkerDef, NestedDiscoveryDef, ParameterizedDef,
    RefDetectionDef, SharedInclusionDef, SpecDef,
};
use super::shared::{resolved, SharedExampleRegistry};
use super::syntax::{
    children_of, field_child, first_where, grammar_for, grammar_of, kind_of, lemma_first_where_step,
    lemma_field_child_later, named_of, named_pred, nth_where, opt_text, wf_tree, copied_from, grammar_loads, parse_source, text_of, Grammar, SyntaxTree,
};
use super::{
    copy_forest, lemma_concat_well_formed, lemma_same_forest_concat, lemma_same_forest_refl, same_forest, lemma_same_forest_well_formed, well_formed_forest,
    well_formed_node, ParamInfo, SpecKind, SpecNode, SpecTree,
};
use crate::text::{
    chars_of, contains_chars, matches_at, occurs_at, contains_seq, ends_with, has_prefix, has_suffix, owned,
    push_chars, push_decimal, push_str, replace_chars, slice_chars, starts_with, str_eq,
    string_of,
};
use vstd::prelude::*;

verus! {

/// What the engine reads while it walks one tree.
pub struct Ctx<'a> {
    pub tree: &'a SyntaxTree,
    pub source: &'a str,
    pub framework: &'a FrameworkDef,
    pub shared: Option<&'a SharedExampleRegistry>,
}

/// The registry, if any, is well formed.
pub open spec fn ctx_ok(c: Ctx) -> bool {
    c.shared matches Some(r) ==> r.wf()
}

/// The registry, if any, holds only well-formed forests.
pub open spec fn shared_well_formed(s: Option<&SharedExampleRegistry>) -> bool {
    s matches Some(r) ==> r.contents_well_formed()
}

// ---------------------------------------------------------------------------
// Small text helpers
// ---------------------------------------------------------------------------

/// Whether an optional string equals `s`.
fn opt_is(o: &Option<String>, s: &str) -> (r: bool)
    ensures
        r == (o matches Some(x) && x@ == s@),
{
    match o {
        Some(x) => str_eq(x.as_str(), s),
        None => false,
    }
}

/// The characters of `s` followed by those of `t`.
fn concat(s: &str, t: &str) -> (r: String)
    ensures
        r@ == s@ + t@,
{
    let mut v: Vec<char> = Vec::new();
    push_str(&mut v, s);
    push_str(&mut v, t);
    string_of(&v)
}

/// `#{name}`, the interpolation placeholder of a block variable.
fn placeholder(name: &str) -> (r: String)
    ensures
        r@ == "#{"@ + name@ + "}"@,
{
    let mut v: Vec<char> = Vec::new();
    push_str(&mut v, "#{");
    push_str(&mut v, name);
    push_str(&mut v, "}");
    string_of(&v)
}

/// `s` with every occurrence of `from` replaced by `to`.
fn replace_str(s: &str, from: &str, to: &str) -> (r: String)
    ensures
        r@ == crate::text::replace_seq(s@, from@, to@),
{
    let sv = chars_of(s);
    let fv = chars_of(from);
    let tv = chars_of(to);
    let rv = replace_chars(&sv, &fv, &tv);
    string_of(&rv)
}

/// A double or single quote.
pub open spec fn quote_char(c: char) -> bool {
    c == '"' || c == '\''
}

/// `s` without the quotes at its start.
pub open spec fn without_leading_quotes(s: Seq<char>) -> Seq<char>
    decreases s.len(),
{
    if s.len() > 0 && quote_char(s[0]) {
        without_leading_quotes(s.subrange(1, s.len() as int))
    } else {
        s
    }
}

/// `s` without the quotes at its end.
pub open spec fn without_trailing_quotes(s: Seq<char>) -> Seq<char>
    decreases s.len(),
{
    if s.len() > 0 && quote_char(s.last()) {
        without_trailing_quotes(s.drop_last())
    } else {
        s
    }
}

/// `s` without the quotes at either end.
pub open spec fn quotes_trimmed(s: Seq<char>) -> Seq<char> {
    without_trailing_quotes(without_leading_quotes(s))
}

/// `s` without the quote characters (`"` and `'`) at either end.
fn trim_quotes(s: &str) -> (r: String)
    ensures
        r@ == quotes_trimmed(s@),
{
    let v = chars_of(s);
    let ghost w = v@;
    let mut a: usize = 0;
    let mut b: usize = v.len();
    assert(w.subrange(0, w.len() as int) =~= w);
    while a < b && (v[a] == '"' || v[a] == '\'')
        invariant
            w == v@,
            w == s@,
            b == w.len(),
            a <= b,
            without_leading_quotes(w) == without_leading_quotes(w.subrange(a as int, b as int)),
        decreases b - a,
    {
        let ghost r = w.subrange(a as int, b as int);
        assert(r.subrange(1, r.len() as int) =~= w.subrange(a + 1, b as int));
        a += 1;
    }
    let ghost lead = w.subrange(a as int, w.len() as int);
    assert(without_leading_quotes(w) == lead);
    while b > a && (v[b - 1] == '"' || v[b - 1] == '\'')
        invariant
            w == v@,
            a <= b <= w.len(),
            lead == w.subrange(a as int, w.len() as int),
            without_trailing_quotes(lead) == without_trailing_quotes(w.subrange(a as int, b as int)),
        decreases b,
    {
        let ghost r = w.subrange(a as int, b as int);
        assert(r.drop_last() =~= w.subrange(a as int, b - 1));
        b -= 1;
    }
    string_of(&slice_chars(&v, a, b))
}

/// `s` without the colons at its start.
pub open spec fn without_leading_colons(s: Seq<char>) -> Seq<char>
    decreases s.len(),
{
    if s.len() > 0 && s[0] == ':' {
        without_leading_colons(s.drop_first())
    } else {
        s
    }
}

/// `s` without the colons at its start.
fn trim_leading_colons(s: &str) -> (r: String)
    ensures
        r@ == without_leading_colons(s@),
{
    let v = chars_of(s);
    let mut a: usize = 0;
    assert(v@.subrange(0, v@.len() as int) =~= v@);
    while a < v.len() && v[a] == ':'
        invariant
            a <= v@.len(),
            v@ == s@,
            without_leading_colons(s@) == without_leading_colons(v@.subrange(a as int, v@.len() as int)),
        decreases v@.len() - a,
    {
        assert(v@.subrange(a as int, v@.len() as int).drop_first() =~= v@.subrange(a + 1, v@.len() as int));
        a += 1;
    }
    string_of(&slice_chars(&v, a, v.len()))
}

/// `sep` occurs in `s` at `i` and at no later position.
pub open spec fn last_occurrence(s: Seq<char>, sep: Seq<char>, i: int) -> bool {
    occurs_at(s, sep, i) && forall|j: int| i < j ==> !#[trigger] occurs_at(s, sep, j)
}

/// The part of `s` after the last occurrence of a non-empty `sep`; all of
/// `s` when `sep` does not occur in it or is empty.
pub open spec fn after_last(s: Seq<char>, sep: Seq<char>) -> Seq<char> {
    if sep.len() > 0 && exists|i: int| #[trigger] last_occurrence(s, sep, i) {
        let i = choose|i: int| #[trigger] last_occurrence(s, sep, i);
        s.subrange(i + sep.len(), s.len() as int)
    } else {
        s
    }
}

/// The part of `s` after the last occurrence of `sep` (all of `s` when
/// `sep` does not occur).
pub(crate) fn last_segment(s: &str, sep: &str) -> (r: String)
    ensures
        r@ == after_last(s@, sep@),
        has_suffix(s@, r@),
{
    let v = chars_of(s);
    let p = chars_of(sep);
    if p.len() == 0 || p.len() > v.len() {
        proof {
            if p.len() > 0 {
                assert forall|i: int| !#[trigger] last_occurrence(s@, sep@, i) by {}
            }
            assert(s@.subrange(0, s@.len() as int) =~= s@);
        }
        return owned(s);
    }
    let mut i: usize = v.len() - p.len() + 1;
    while i > 0
        invariant
            v@ == s@,
            p@ == sep@,
            0 < p@.len() <= v@.len(),
            i <= v@.len() - p@.len() + 1,
            forall|j: int| i <= j ==> !#[trigger] occurs_at(s@, sep@, j),
        decreases i,
    {
        i -= 1;
        if matches_at(&v, &p, i) {
            proof {
                assert(last_occurrence(s@, sep@, i as int));
                let c = choose|c: int| #[trigger] last_occurrence(s@, sep@, c);
                if c < i {
                    assert(occurs_at(s@, sep@, i as int));
                } else if c > i {
                    assert(!occurs_at(s@, sep@, c));
                }
            }
            assert(i + p@.len() <= v@.len());
            assert(v@.len() == v.len() && p@.len() == p.len());
            let start: usize = i + p.len();
            let r = string_of(&slice_chars(&v, start, v.len()));
            assert(v@.subrange(v@.len() - r@.len(), v@.len() as int) =~= r@);
            return r;
        }
    }
    proof {
        assert forall|c: int| !#[trigger] last_occurrence(s@, sep@, c) by {
            if c < 0 {
            }
        }
        assert(s@.subrange(0, s@.len() as int) =~= s@);
    }
    owned(s)
}

// ---------------------------------------------------------------------------
// Tree helpers
// ---------------------------------------------------------------------------

/// The source text of node `n`.
pub fn node_text(tree: &SyntaxTree, node: usize, source: &str) -> (r: Option<String>)
    ensures
        opt_text(r) == text_of(*tree, node, source@),
{
    tree.text(node, source)
}

/// One-based line of node `n`: its row plus one (saturating; 1 for a node
/// that does not exist).
pub open spec fn line_at(t: SyntaxTree, n: usize) -> usize {
    let row: usize = if n < t.nodes@.len() { t.nodes@[n as int].row } else { 0 };
    if row < usize::MAX { (row + 1) as usize } else { row }
}

/// One-based line of node `n`.
fn line_of(t: &SyntaxTree, n: usize) -> (r: usize)
    ensures
        r >= 1,
        r == line_at(*t, n),
{
    let row = t.row(n);
    if row < usize::MAX {
        row + 1
    } else {
        row
    }
}

/// The kinds of call nodes the DSL frameworks use.
pub open spec fn dsl_call_kind(kind: Seq<char>) -> bool {
    kind == "call"@ || kind == "call_expression"@ || kind == "function_call_expression"@
}

/// Whether `kind` is a call node of one of the grammars.
pub fn is_dsl_call_kind(kind: &str) -> (r: bool)
    ensures
        r == dsl_call_kind(kind@),
{
    str_eq(kind, "call") || str_eq(kind, "call_expression") || str_eq(kind, "function_call_expression")
}

/// Whether the kind of node `n` is one of `kinds`.
pub(crate) fn kind_in(t: &SyntaxTree, n: usize, kinds: &Vec<String>) -> (r: bool)
    ensures
        r == exists|k: int| 0 <= k < kinds@.len() && (#[trigger] kinds@[k])@ == kind_of(*t, n),
{
    contains_str(kinds, t.kind(n))
}

/// Nodes of kind `k`.
pub open spec fn kind_pred(t: SyntaxTree, k: Seq<char>) -> spec_fn(usize) -> bool {
    |c: usize| kind_of(t, c) == k
}

/// Argument list nodes.
pub open spec fn arguments_pred(t: SyntaxTree) -> spec_fn(usize) -> bool {
    |c: usize| arguments_kind(kind_of(t, c))
}

/// The first child of `n` whose kind is `k`.
pub open spec fn child_of_kind_spec(t: SyntaxTree, n: usize, k: Seq<char>) -> Option<usize> {
    first_where(children_of(t, n), kind_pred(t, k))
}

/// The first child of `n` whose kind is `k`.
pub(crate) fn child_of_kind(t: &SyntaxTree, n: usize, k: &str) -> (r: Option<usize>)
    ensures
        r == child_of_kind_spec(*t, n, k@),
{
    let ghost cs = children_of(*t, n);
    let ghost p = kind_pred(*t, k@);
    let cnt = t.child_count(n);
    let mut i: usize = 0;
    assert(cs.subrange(0, cs.len() as int) =~= cs);
    while i < cnt
        invariant
            cs == children_of(*t, n),
            p == kind_pred(*t, k@),
            cnt == cs.len(),
            i <= cnt,
            first_where(cs, p) == first_where(cs.subrange(i as int, cs.len() as int), p),
        decreases cnt - i,
    {
        let ch = t.child(n, i);
        proof {
            lemma_first_where_step(cs, p, i as int);
        }
        if t.kind_is(ch, k) {
            return Some(ch);
        }
        i += 1;
    }
    None
}

/// The kinds of argument list nodes.
pub open spec fn arguments_kind(k: Seq<char>) -> bool {
    k == "argument_list"@ || k == "arguments"@
}

/// The argument list of a call: its first child of an argument list kind.
pub open spec fn arguments_of(t: SyntaxTree, node: usize) -> Option<usize> {
    first_where(children_of(t, node), arguments_pred(t))
}

/// The argument list of a call.
pub(crate) fn find_arguments(t: &SyntaxTree, node: usize) -> (r: Option<usize>)
    ensures
        r == arguments_of(*t, node),
{
    let ghost cs = children_of(*t, node);
    let ghost p = arguments_pred(*t);
    let cnt = t.child_count(node);
    let mut i: usize = 0;
    assert(cs.subrange(0, cs.len() as int) =~= cs);
    while i < cnt
        invariant
            cs == children_of(*t, node),
            p == arguments_pred(*t),
            cnt == cs.len(),
            i <= cnt,
            first_where(cs, p) == first_where(cs.subrange(i as int, cs.len() as int), p),
        decreases cnt - i,
    {
        let ch = t.child(node, i);
        proof {
            lemma_first_where_step(cs, p, i as int);
        }
        if t.kind_is(ch, "argument_list") || t.kind_is(ch, "arguments") {
            return Some(ch);
        }
        i += 1;
    }
    None
}

/// A PHP `argument` stands for its first named child.
pub open spec fn unwrapped(t: SyntaxTree, node: usize) -> usize {
    if kind_of(t, node) == "argument"@ {
        match first_where(children_of(t, node), named_pred(t)) {
            Some(c) => c,
            None => node,
        }
    } else {
        node
    }
}

/// A PHP `argument` stands for its first named child.
fn unwrap_php_argument(t: &SyntaxTree, node: usize) -> (r: usize)
    ensures
        r == unwrapped(*t, node),
{
    if t.kind_is(node, "argument") {
        let ghost cs = children_of(*t, node);
        let ghost p = named_pred(*t);
        let cnt = t.child_count(node);
        let mut i: usize = 0;
        assert(cs.subrange(0, cs.len() as int) =~= cs);
        while i < cnt
            invariant
                cs == children_of(*t, node),
                p == named_pred(*t),
                kind_of(*t, node) == "argument"@,
                cnt == cs.len(),
                i <= cnt,
                first_where(cs, p) == first_where(cs.subrange(i as int, cs.len() as int), p),
            decreases cnt - i,
        {
            let ch = t.child(node, i);
            proof {
                lemma_first_where_step(cs, p, i as int);
            }
            if t.is_named(ch) {
                return ch;
            }
            i += 1;
        }
        assert(cs.subrange(i as int, cs.len() as int).len() == 0);
    }
    node
}

/// The kinds of string literal nodes.
pub open spec fn string_kind(k: Seq<char>) -> bool {
    k == "string"@ || k == "string_literal"@ || k == "interpreted_string_literal"@ || k == "encapsed_string"@
}

/// The kinds of interpolated pieces of a string.
pub open spec fn dynamic_piece_kind(k: Seq<char>) -> bool {
    k == "interpolation"@ || k == "template_substitution"@ || k == "variable_name"@
}

/// The kinds of literal text pieces of a string.
pub open spec fn content_piece_kind(k: Seq<char>) -> bool {
    k == "string_content"@ || k == "string_fragment"@ || k == "interpreted_string_literal_content"@ || k == "quoted_content"@
}

/// A string literal node with an interpolated piece among its children.
pub open spec fn interpolates(t: SyntaxTree, node: usize) -> bool {
    &&& string_kind(kind_of(t, node))
    &&& exists|k: int| 0 <= k < children_of(t, node).len() && dynamic_piece_kind(kind_of(t, #[trigger] children_of(t, node)[k]))
}

/// The literal text pieces among `cs`, in order.
pub open spec fn content_pieces(t: SyntaxTree, cs: Seq<usize>) -> Seq<usize>
    decreases cs.len(),
{
    if cs.len() == 0 {
        seq![]
    } else if content_piece_kind(kind_of(t, cs.last())) {
        content_pieces(t, cs.drop_last()).push(cs.last())
    } else {
        content_pieces(t, cs.drop_last())
    }
}

/// The content of a string literal node: the text of its single literal
/// piece when nothing is interpolated, else its whole text without the
/// surrounding quotes.
pub open spec fn string_content_of(t: SyntaxTree, node: usize, source: Seq<char>) -> Option<Seq<char>> {
    let pieces = content_pieces(t, children_of(t, node));
    if !string_kind(kind_of(t, node)) {
        None
    } else if !interpolates(t, node) && pieces.len() == 1 {
        text_of(t, pieces[0], source)
    } else {
        match text_of(t, node, source) {
            Some(x) => Some(quotes_trimmed(x)),
            None => None,
        }
    }
}

/// The kinds of string literal nodes.
fn is_string_kind(t: &SyntaxTree, n: usize) -> (r: bool)
    ensures
        r == string_kind(kind_of(*t, n)),
{
    t.kind_is(n, "string") || t.kind_is(n, "string_literal") || t.kind_is(n, "interpreted_string_literal")
        || t.kind_is(n, "encapsed_string")
}

/// The kinds of interpolated pieces of a string.
fn is_dynamic_piece(t: &SyntaxTree, n: usize) -> (r: bool)
    ensures
        r == dynamic_piece_kind(kind_of(*t, n)),
{
    t.kind_is(n, "interpolation") || t.kind_is(n, "template_substitution") || t.kind_is(n, "variable_name")
}

/// Whether a string literal node interpolates something.
fn string_node_has_interpolation(t: &SyntaxTree, node: usize) -> (r: bool)
    ensures
        r == interpolates(*t, node),
{
    if !is_string_kind(t, node) {
        return false;
    }
    let cnt = t.child_count(node);
    let mut i: usize = 0;
    while i < cnt
        invariant
            cnt == super::syntax::children_of(*t, node).len(),
            i <= cnt,
            string_kind(kind_of(*t, node)),
            forall|k: int| 0 <= k < i ==> !dynamic_piece_kind(kind_of(*t, #[trigger] children_of(*t, node)[k])),
        decreases cnt - i,
    {
        let ch = t.child(node, i);
        if is_dynamic_piece(t, ch) {
            return true;
        }
        i += 1;
    }
    false
}

/// The content of a string literal: its single content piece, or else its
/// whole text without surrounding quotes.
fn extract_string_content(t: &SyntaxTree, source: &str, node: usize) -> (r: Option<String>)
    ensures
        opt_text(r) == string_content_of(*t, node, source@),
{
    if !is_string_kind(t, node) {
        return None;
    }
    let ghost cs = children_of(*t, node);
    let mut content: Vec<usize> = Vec::new();
    let mut has_dynamic = false;
    let cnt = t.child_count(node);
    let mut i: usize = 0;
    while i < cnt
        invariant
            cs == children_of(*t, node),
            cnt == cs.len(),
            i <= cnt,
            content@ == content_pieces(*t, cs.subrange(0, i as int)),
            has_dynamic == exists|k: int| 0 <= k < i && dynamic_piece_kind(kind_of(*t, #[trigger] cs[k])),
        decreases cnt - i,
    {
        let ch = t.child(node, i);
        assert(cs.subrange(0, i + 1).drop_last() =~= cs.subrange(0, i as int));
        if t.kind_is(ch, "string_content") || t.kind_is(ch, "string_fragment")
            || t.kind_is(ch, "interpreted_string_literal_content") || t.kind_is(ch, "quoted_content") {
            content.push(ch);
        }
        if is_dynamic_piece(t, ch) {
            has_dynamic = true;
        }
        i += 1;
    }
    assert(cs.subrange(0, cnt as int) =~= cs);
    if !has_dynamic && content.len() == 1 {
        return node_text(t, content[0], source);
    }
    match node_text(t, node, source) {
        Some(t) => Some(trim_quotes(t.as_str())),
        None => None,
    }
}

/// The innermost object of a chain of member expressions, followed for at
/// most `steps` links.
pub open spec fn base_object_of(t: SyntaxTree, n: usize, steps: nat) -> Option<usize>
    decreases steps,
{
    if steps == 0 {
        None
    } else if kind_of(t, n) != "member_expression"@ {
        Some(n)
    } else {
        match field_child(t, n, "object"@) {
            Some(o) => base_object_of(t, o, (steps - 1) as nat),
            None => None,
        }
    }
}

/// The method a call node invokes, read from the call's syntax; a call of
/// a call is followed for at most `fuel` links.
pub open spec fn method_name_of(t: SyntaxTree, node: usize, source: Seq<char>, fuel: nat) -> Option<Seq<char>>
    decreases fuel,
{
    if kind_of(t, node) == "call"@ {
        match field_child(t, node, "method"@) {
            Some(m) => text_of(t, m, source),
            None => match child_of_kind_spec(t, node, "identifier"@) {
                Some(c) => text_of(t, c, source),
                None => None,
            },
        }
    } else if kind_of(t, node) == "call_expression"@ {
        match field_child(t, node, "function"@) {
            None => None,
            Some(f) => if kind_of(t, f) == "call_expression"@ {
                if fuel == 0 {
                    None
                } else {
                    method_name_of(t, f, source, (fuel - 1) as nat)
                }
            } else if kind_of(t, f) == "member_expression"@ {
                match base_object_of(t, f, t.nodes@.len()) {
                    Some(b) => text_of(t, b, source),
                    None => None,
                }
            } else {
                text_of(t, f, source)
            },
        }
    } else if kind_of(t, node) == "function_call_expression"@ {
        match field_child(t, node, "function"@) {
            Some(f) => text_of(t, f, source),
            None => None,
        }
    } else {
        None
    }
}

/// With depth enough, one more link of a member chain changes nothing.
proof fn lemma_base_object_fuel(t: SyntaxTree, n: usize, steps: nat)
    requires
        wf_tree(t.nodes@),
        n < t.nodes@.len(),
        steps + n >= t.nodes@.len(),
    ensures
        base_object_of(t, n, steps) == base_object_of(t, n, steps + 1),
    decreases steps,
{
    lemma_field_child_later(t, n, "object"@);
    if kind_of(t, n) == "member_expression"@ {
        match field_child(t, n, "object"@) {
            Some(o) => lemma_base_object_fuel(t, o, (steps - 1) as nat),
            None => {},
        }
    }
}

/// A chain of member expressions never outgrows its depth bound: in a
/// well-formed tree, following it for as many links as the tree has nodes
/// gives what any more links give.
pub proof fn lemma_base_object_depth_suffices(t: SyntaxTree, n: usize, extra: nat)
    requires
        wf_tree(t.nodes@),
        n < t.nodes@.len(),
    ensures
        base_object_of(t, n, t.nodes@.len()) == base_object_of(t, n, t.nodes@.len() + extra),
    decreases extra,
{
    if extra > 0 {
        lemma_base_object_depth_suffices(t, n, (extra - 1) as nat);
        lemma_base_object_fuel(t, n, t.nodes@.len() + (extra - 1) as nat);
    }
}

/// With depth enough, one more call of a call changes nothing.
proof fn lemma_method_name_fuel(t: SyntaxTree, node: usize, source: Seq<char>, fuel: nat)
    requires
        wf_tree(t.nodes@),
        fuel + node + 1 >= t.nodes@.len(),
    ensures
        method_name_of(t, node, source, fuel) == method_name_of(t, node, source, fuel + 1),
    decreases fuel,
{
    lemma_field_child_later(t, node, "function"@);
    if kind_of(t, node) == "call_expression"@ {
        match field_child(t, node, "function"@) {
            Some(f) => {
                if kind_of(t, f) == "call_expression"@ && fuel > 0 {
                    lemma_method_name_fuel(t, f, source, (fuel - 1) as nat);
                }
            },
            None => {},
        }
    }
}

/// The method name of a call never outgrows its depth bound: in a
/// well-formed tree, following calls of calls as deep as the tree has
/// nodes gives what any greater depth gives.
pub proof fn lemma_method_name_depth_suffices(t: SyntaxTree, node: usize, source: Seq<char>, extra: nat)
    requires
        wf_tree(t.nodes@),
    ensures
        method_name_of(t, node, source, t.nodes@.len() as nat) == method_name_of(t, node, source, t.nodes@.len() + extra),
    decreases extra,
{
    if extra > 0 {
        lemma_method_name_depth_suffices(t, node, source, (extra - 1) as nat);
        lemma_method_name_fuel(t, node, source, t.nodes@.len() + (extra - 1) as nat);
    }
}

/// The innermost object of a chain of member expressions.
fn base_object(tree: &SyntaxTree, node: usize) -> (r: Option<usize>)
    ensures
        r == base_object_of(*tree, node, tree.nodes@.len()),
{
    let mut current = node;
    let mut steps = tree.nodes.len();
    while steps > 0
        invariant
            base_object_of(*tree, node, tree.nodes@.len()) == base_object_of(*tree, current, steps as nat),
        decreases steps,
    {
        steps -= 1;
        if !tree.kind_is(current, "member_expression") {
            return Some(current);
        }
        match tree.child_by_field(current, "object") {
            Some(o) => current = o,
            None => return None,
        }
    }
    None
}

/// The method a call node invokes, read from the call's syntax.
pub fn extract_method_name(tree: &SyntaxTree, node: usize, source: &str) -> (r: Option<String>)
    ensures
        opt_text(r) == method_name_of(*tree, node, source@, tree.nodes@.len() as nat),
        !dsl_call_kind(kind_of(*tree, node)) ==> r is None,
{
    method_name_in(tree, node, source, tree.nodes.len())
}

fn method_name_in(tree: &SyntaxTree, node: usize, source: &str, fuel: usize) -> (r: Option<String>)
    ensures
        opt_text(r) == method_name_of(*tree, node, source@, fuel as nat),
        !dsl_call_kind(kind_of(*tree, node)) ==> r is None,
    decreases fuel,
{
    if tree.kind_is(node, "call") {
        if let Some(m) = tree.child_by_field(node, "method") {
            return tree.text(m, source);
        }
        match child_of_kind(tree, node, "identifier") {
            Some(ch) => tree.text(ch, source),
            None => None,
        }
    } else if tree.kind_is(node, "call_expression") {
        let f = match tree.child_by_field(node, "function") {
            Some(f) => f,
            None => return None,
        };
        if tree.kind_is(f, "call_expression") {
            if fuel == 0 {
                return None;
            }
            return method_name_in(tree, f, source, fuel - 1);
        }
        if tree.kind_is(f, "member_expression") {
            return match base_object(tree, f) {
                Some(b) => tree.text(b, source),
                None => None,
            };
        }
        tree.text(f, source)
    } else if tree.kind_is(node, "function_call_expression") {
        match tree.child_by_field(node, "function") {
            Some(f) => tree.text(f, source),
            None => None,
        }
    } else {
        None
    }
}

/// The text of an optional string slice.
pub open spec fn opt_str(o: Option<&str>) -> Option<Seq<char>> {
    match o {
        Some(s) => Some(s@),
        None => None,
    }
}

/// The first named argument of a call, a PHP `argument` taken for what it
/// holds.
pub open spec fn first_argument_of(t: SyntaxTree, node: usize) -> Option<usize> {
    match arguments_of(t, node) {
        None => None,
        Some(args) => match nth_where(children_of(t, args), named_pred(t), 0) {
            Some(f) => Some(unwrapped(t, f)),
            None => None,
        },
    }
}

/// The name of a declaration or call, read as `name_source` says: the
/// first argument (the content of a string literal when the source type
/// says so, else its text), or the text of the `name` field.
pub open spec fn name_of(t: SyntaxTree, node: usize, source: Seq<char>, name_source: Seq<char>, name_source_type: Option<Seq<char>>) -> Option<Seq<char>> {
    if name_source == "first_argument"@ {
        match first_argument_of(t, node) {
            None => None,
            Some(first) => if name_source_type == Some("string_literal"@) {
                string_content_of(t, first, source)
            } else {
                text_of(t, first, source)
            },
        }
    } else if name_source == "identifier"@ {
        match field_child(t, node, "name"@) {
            Some(n) => text_of(t, n, source),
            None => None,
        }
    } else {
        None
    }
}

/// The name of a declaration or call, read as `name_source` says: the
/// first argument (a string literal's content, or the argument's text),
/// or the `name` field.
pub fn extract_name(tree: &SyntaxTree, node: usize, source: &str, name_source: &str, name_source_type: Option<&str>) -> (r: Option<String>)
    ensures
        opt_text(r) == name_of(*tree, node, source@, name_source@, opt_str(name_source_type)),
{
    if str_eq(name_source, "first_argument") {
        let args = match find_arguments(tree, node) {
            Some(a) => a,
            None => return None,
        };
        let first = match tree.named_child(args, 0) {
            Some(f) => unwrap_php_argument(tree, f),
            None => return None,
        };
        match name_source_type {
            Some(k) => {
                if str_eq(k, "string_literal") {
                    extract_string_content(tree, source, first)
                } else {
                    node_text(tree, first, source)
                }
            },
            None => node_text(tree, first, source),
        }
    } else if str_eq(name_source, "identifier") {
        match tree.child_by_field(node, "name") {
            Some(n) => node_text(tree, n, source),
            None => None,
        }
    } else {
        None
    }
}

/// The first answer that `f` gives for an element of `s`.
pub open spec fn first_answer(s: Seq<usize>, f: spec_fn(usize) -> Option<Option<usize>>) -> Option<Option<usize>>
    decreases s.len(),
{
    if s.len() == 0 {
        None
    } else {
        match f(s[0]) {
            Some(x) => Some(x),
            None => first_answer(s.subrange(1, s.len() as int), f),
        }
    }
}

proof fn lemma_first_answer_step(s: Seq<usize>, f: spec_fn(usize) -> Option<Option<usize>>, i: int)
    requires
        0 <= i < s.len(),
    ensures
        first_answer(s.subrange(i, s.len() as int), f) == match f(s[i]) {
            Some(x) => Some(x),
            None => first_answer(s.subrange(i + 1, s.len() as int), f),
        },
{
    let r = s.subrange(i, s.len() as int);
    assert(r.subrange(1, r.len() as int) =~= s.subrange(i + 1, s.len() as int));
}

/// The kinds of block nodes.
pub open spec fn block_kind(k: Seq<char>) -> bool {
    k == "block"@ || k == "do_block"@ || k == "statement_block"@
}

/// What an argument of a call answers for its block: the statement block
/// of an arrow function or function, the body of a Go function literal, or
/// the body of a PHP anonymous function; no answer for anything else.
pub open spec fn argument_block(t: SyntaxTree, arg: usize) -> Option<Option<usize>> {
    let k = kind_of(t, arg);
    if k == "arrow_function"@ || k == "function"@ {
        match child_of_kind_spec(t, arg, "statement_block"@) {
            Some(b) => Some(Some(b)),
            None => None,
        }
    } else if k == "func_literal"@ {
        Some(field_child(t, arg, "body"@))
    } else if k == "argument"@ {
        match child_of_kind_spec(t, arg, "anonymous_function"@) {
            Some(f) => Some(field_child(t, f, "body"@)),
            None => None,
        }
    } else {
        None
    }
}

/// `argument_block` as a function.
pub open spec fn argument_block_fn(t: SyntaxTree) -> spec_fn(usize) -> Option<Option<usize>> {
    |a: usize| argument_block(t, a)
}

/// What a child of a call answers for its block: itself when it is a
/// block, the first answer of its arguments when it is an argument list.
pub open spec fn child_block(t: SyntaxTree, ch: usize) -> Option<Option<usize>> {
    if block_kind(kind_of(t, ch)) {
        Some(Some(ch))
    } else if arguments_kind(kind_of(t, ch)) {
        first_answer(children_of(t, ch), argument_block_fn(t))
    } else {
        None
    }
}

/// `child_block` as a function.
pub open spec fn child_block_fn(t: SyntaxTree) -> spec_fn(usize) -> Option<Option<usize>> {
    |c: usize| child_block(t, c)
}

/// The block of a call: the first answer among its children.
pub open spec fn block_of(t: SyntaxTree, node: usize) -> Option<usize> {
    match first_answer(children_of(t, node), child_block_fn(t)) {
        Some(x) => x,
        None => None,
    }
}

/// The block holding a call's body: a block child, or the body of a
/// function literal among its arguments.
pub fn find_block(tree: &SyntaxTree, node: usize) -> (r: Option<usize>)
    ensures
        r == block_of(*tree, node),
{
    let ghost cs = children_of(*tree, node);
    let ghost f = child_block_fn(*tree);
    let cnt = tree.child_count(node);
    let mut i: usize = 0;
    assert(cs.subrange(0, cs.len() as int) =~= cs);
    while i < cnt
        invariant
            cs == children_of(*tree, node),
            f == child_block_fn(*tree),
            cnt == cs.len(),
            i <= cnt,
            first_answer(cs, f) == first_answer(cs.subrange(i as int, cs.len() as int), f),
        decreases cnt - i,
    {
        let ch = tree.child(node, i);
        proof {
            lemma_first_answer_step(cs, f, i as int);
        }
        if tree.kind_is(ch, "block") || tree.kind_is(ch, "do_block") || tree.kind_is(ch, "statement_block") {
            return Some(ch);
        }
        if tree.kind_is(ch, "arguments") || tree.kind_is(ch, "argument_list") {
            match arguments_block(tree, ch) {
                Some(x) => return x,
                None => {},
            }
        }
        i += 1;
    }
    None
}

/// The first answer among the arguments of an argument list.
fn arguments_block(tree: &SyntaxTree, args: usize) -> (r: Option<Option<usize>>)
    ensures
        r == first_answer(children_of(*tree, args), argument_block_fn(*tree)),
{
    let ghost cs = children_of(*tree, args);
    let ghost f = argument_block_fn(*tree);
    let cnt = tree.child_count(args);
    let mut j: usize = 0;
    assert(cs.subrange(0, cs.len() as int) =~= cs);
    while j < cnt
        invariant
            cs == children_of(*tree, args),
            f == argument_block_fn(*tree),
            cnt == cs.len(),
            j <= cnt,
            first_answer(cs, f) == first_answer(cs.subrange(j as int, cs.len() as int), f),
        decreases cnt - j,
    {
        let arg = tree.child(args, j);
        proof {
            lemma_first_answer_step(cs, f, j as int);
        }
        match argument_block_in(tree, arg) {
            Some(x) => return Some(x),
            None => {},
        }
        j += 1;
    }
    None
}

/// What one argument answers for the block of its call.
fn argument_block_in(tree: &SyntaxTree, arg: usize) -> (r: Option<Option<usize>>)
    ensures
        r == argument_block(*tree, arg),
{
    if tree.kind_is(arg, "arrow_function") || tree.kind_is(arg, "function") {
        match child_of_kind(tree, arg, "statement_block") {
            Some(b) => Some(Some(b)),
            None => None,
        }
    } else if tree.kind_is(arg, "func_literal") {
        Some(tree.child_by_field(arg, "body"))
    } else if tree.kind_is(arg, "argument") {
        match child_of_kind(tree, arg, "anonymous_function") {
            Some(f) => Some(tree.child_by_field(f, "body")),
            None => None,
        }
    } else {
        None
    }
}

/// Whether the first argument of a call is an interpolating string (only
/// for names taken from the first argument).
fn name_source_is_dynamic(t: &SyntaxTree, node: usize, name_source: &str) -> (r: bool)
    ensures
        r == (name_source@ == "first_argument"@ && match first_argument_of(*t, node) {
            Some(a) => interpolates(*t, a),
            None => false,
        }),
{
    if !str_eq(name_source, "first_argument") {
        return false;
    }
    let args = match find_arguments(t, node) {
        Some(a) => a,
        None => return false,
    };
    match t.named_child(args, 0) {
        Some(arg) => string_node_has_interpolation(t, unwrap_php_argument(t, arg)),
        None => false,
    }
}

// ---------------------------------------------------------------------------
// Names
// ---------------------------------------------------------------------------

/// `name` matches a marker pattern: `^p` is a prefix, `p$` a suffix, and
/// anything else a substring.
pub open spec fn pattern_matches(name: Seq<char>, pattern: Seq<char>) -> bool {
    if pattern.len() > 0 && pattern[0] == '^' {
        has_prefix(name, pattern.subrange(1, pattern.len() as int))
    } else if pattern.len() > 0 && pattern.last() == '$' {
        has_suffix(name, pattern.drop_last())
    } else {
        contains_seq(name, pattern)
    }
}

/// Whether `name` matches the marker `pattern`.
pub fn matches_pattern(name: &str, pattern: &str) -> (r: bool)
    ensures
        r == pattern_matches(name@, pattern@),
{
    let n = chars_of(name);
    let p = chars_of(pattern);
    if p.len() > 0 && p[0] == '^' {
        let rest = slice_chars(&p, 1, p.len());
        starts_with(&n, &rest)
    } else if p.len() > 0 && p[p.len() - 1] == '$' {
        let rest = slice_chars(&p, 0, p.len() - 1);
        assert(rest@ =~= p@.drop_last());
        ends_with(&n, &rest)
    } else {
        contains_chars(&n, &p)
    }
}

/// Whether `c` is upper case, as `char::is_uppercase` says.
pub uninterp spec fn upper_case(c: char) -> bool;

/// Calls `char::is_uppercase`; the result depends on `c` alone.
#[verifier::external_body]
fn is_uppercase(c: char) -> (r: bool)
    ensures
        r == upper_case(c),
{
    c.is_uppercase()
}

/// `s` without the first of `affixes` that is a prefix of it (unchanged
/// when none is).
pub open spec fn strip_first_prefix(s: Seq<char>, affixes: Seq<Seq<char>>) -> Seq<char>
    decreases affixes.len(),
{
    if affixes.len() == 0 {
        s
    } else if has_prefix(s, affixes[0]) {
        s.subrange(affixes[0].len() as int, s.len() as int)
    } else {
        strip_first_prefix(s, affixes.subrange(1, affixes.len() as int))
    }
}

/// `s` without the first of `affixes` that is a suffix of it (unchanged
/// when none is).
pub open spec fn strip_first_suffix(s: Seq<char>, affixes: Seq<Seq<char>>) -> Seq<char>
    decreases affixes.len(),
{
    if affixes.len() == 0 {
        s
    } else if has_suffix(s, affixes[0]) {
        s.subrange(0, s.len() - affixes[0].len())
    } else {
        strip_first_suffix(s, affixes.subrange(1, affixes.len() as int))
    }
}

/// The views of a list of strings.
pub open spec fn views(v: Seq<String>) -> Seq<Seq<char>> {
    Seq::new(v.len(), |i: int| v[i]@)
}

/// `s` with every underscore replaced by a space.
pub open spec fn underscores_to_spaces(s: Seq<char>) -> Seq<char> {
    Seq::new(s.len(), |i: int| if s[i] == '_' { ' ' } else { s[i] })
}

/// The display name of a declaration: with `strip_camel_test_prefix`, a
/// leading `Test` before an upper-case letter goes; then the first
/// matching prefix and the first matching suffix go; then underscores
/// become spaces if asked. `raw`, or no normalization, keeps the name.
pub open spec fn normalized(name: Seq<char>, fw: FrameworkDef) -> Seq<char> {
    match fw.normalization {
        None => name,
        Some(n) => if n.raw {
            name
        } else {
            let a = if n.strip_camel_test_prefix && has_prefix(name, "Test"@) && name.len() > 4
                && upper_case(name[4]) {
                name.subrange(4, name.len() as int)
            } else {
                name
            };
            let b = strip_first_prefix(a, views(n.strip_prefixes@));
            let c = strip_first_suffix(b, views(n.strip_suffixes@));
            if n.underscore_to_space {
                underscores_to_spaces(c)
            } else {
                c
            }
        },
    }
}

/// Strips the first of `affixes` that is a prefix (or, with `suffix`, a
/// suffix) of `s`.
pub(crate) fn strip_first(s: Vec<char>, affixes: &Vec<String>, suffix: bool) -> (r: Vec<char>)
    ensures
        suffix ==> r@ == strip_first_suffix(s@, views(affixes@)),
        !suffix ==> r@ == strip_first_prefix(s@, views(affixes@)),
{
    let ghost all = views(affixes@);
    assert(all.subrange(0, all.len() as int) =~= all);
    let mut i: usize = 0;
    while i < affixes.len()
        invariant
            i <= affixes@.len(),
            all == views(affixes@),
            suffix ==> strip_first_suffix(s@, all) == strip_first_suffix(s@, all.subrange(i as int, all.len() as int)),
            !suffix ==> strip_first_prefix(s@, all) == strip_first_prefix(s@, all.subrange(i as int, all.len() as int)),
        decreases affixes@.len() - i,
    {
        let a = chars_of(affixes[i].as_str());
        let ghost rest = all.subrange(i as int, all.len() as int);
        assert(rest[0] == a@);
        assert(rest.subrange(1, rest.len() as int) =~= all.subrange(i + 1, all.len() as int));
        if suffix {
            if ends_with(&s, &a) {
                return slice_chars(&s, 0, s.len() - a.len());
            }
        } else if starts_with(&s, &a) {
            return slice_chars(&s, a.len(), s.len());
        }
        i += 1;
    }
    assert(all.subrange(i as int, all.len() as int).len() == 0);
    slice_chars(&s, 0, s.len())
}

/// The display name of a declaration named `name` under `framework`.
pub fn normalize_name(name: &str, framework: &FrameworkDef) -> (r: String)
    ensures
        r@ == normalized(name@, *framework),
{
    let norm = match &framework.normalization {
        Some(n) => n,
        None => return owned(name),
    };
    if norm.raw {
        return owned(name);
    }
    let mut result = chars_of(name);
    if norm.strip_camel_test_prefix && result.len() > 4 {
        let test = chars_of("Test");
        proof {
            reveal_strlit("Test");
        }
        if starts_with(&result, &test) && is_uppercase(result[4]) {
            result = slice_chars(&result, 4, result.len());
        }
    } else {
        proof {
            reveal_strlit("Test");
        }
    }
    result = strip_first(result, &norm.strip_prefixes, false);
    result = strip_first(result, &norm.strip_suffixes, true);
    if norm.underscore_to_space {
        let ghost before = result@;
        let mut out: Vec<char> = Vec::new();
        let mut i: usize = 0;
        while i < result.len()
            invariant
                i <= result@.len(),
                out@ == underscores_to_spaces(result@).subrange(0, i as int),
            decreases result@.len() - i,
        {
            if result[i] == '_' {
                out.push(' ');
            } else {
                out.push(result[i]);
            }
            i += 1;
            assert(out@ =~= underscores_to_spaces(result@).subrange(0, i as int));
        }
        assert(out@ =~= underscores_to_spaces(result@));
        result = out;
    }
    string_of(&result)
}

// ---------------------------------------------------------------------------
// Spec nodes
// ---------------------------------------------------------------------------

fn new_node(name: String, kind: SpecKind, children: Vec<SpecNode>, line: usize, parameterized: Option<ParamInfo>, dynamic: bool) -> (r: SpecNode)
    ensures
        r.name == name && r.kind == kind && r.children == children && r.line == line && r.parameterized == parameterized
            && r.name_is_dynamic == dynamic,
{
    SpecNode { name, kind, children, line, parameterized, name_is_dynamic: dynamic }
}

/// Appends `more` to `v`.
fn extend(v: &mut Vec<SpecNode>, more: Vec<SpecNode>)
    ensures
        final(v)@ == old(v)@ + more@,
        well_formed_forest(old(v)@) && well_formed_forest(more@) ==> well_formed_forest(final(v)@),
{
    proof {
        if well_formed_forest(v@) && well_formed_forest(more@) {
            lemma_concat_well_formed(v@, more@);
        }
    }
    let mut m = more;
    v.append(&mut m);
}

// ---------------------------------------------------------------------------
// Parameterized cases
// ---------------------------------------------------------------------------

/// The name node of an attribute: its `path` field, else its first
/// identifier child.
pub open spec fn attr_ident(t: SyntaxTree, attr: usize) -> Option<usize> {
    match field_child(t, attr, "path"@) {
        Some(p) => Some(p),
        None => child_of_kind_spec(t, attr, "identifier"@),
    }
}

/// An `attribute` node whose name reads `name`.
pub open spec fn attr_named(t: SyntaxTree, source: Seq<char>, attr: usize, name: Seq<char>) -> bool {
    kind_of(t, attr) == "attribute"@ && (attr_ident(t, attr) matches Some(id) && text_of(t, id, source) == Some(name))
}

/// Attributes named `name`.
pub open spec fn attr_named_pred(t: SyntaxTree, source: Seq<char>, name: Seq<char>) -> spec_fn(usize) -> bool {
    |c: usize| attr_named(t, source, c, name)
}

/// A token tree with an identifier reading `arg` among its children.
pub open spec fn token_tree_has(t: SyntaxTree, source: Seq<char>, tt: usize, arg: Seq<char>) -> bool {
    kind_of(t, tt) == "token_tree"@ && exists|k: int|
        0 <= k < children_of(t, tt).len() && kind_of(t, #[trigger] children_of(t, tt)[k]) == "identifier"@
            && text_of(t, children_of(t, tt)[k], source) == Some(arg)
}

/// An attribute whose argument token trees hold an identifier `arg`.
pub open spec fn attr_has_argument(t: SyntaxTree, source: Seq<char>, attr: usize, arg: Seq<char>) -> bool {
    exists|j: int| 0 <= j < children_of(t, attr).len() && token_tree_has(t, source, #[trigger] children_of(t, attr)[j], arg)
}

/// The attribute item is `#[name]` (any arguments) when no argument is
/// asked for, or `#[name(.. argument ..)]`: decided by its first
/// attribute named `name`.
pub open spec fn attribute_item_matches(t: SyntaxTree, source: Seq<char>, item: usize, name: Seq<char>, argument: Option<Seq<char>>) -> bool {
    match first_where(children_of(t, item), attr_named_pred(t, source, name)) {
        None => false,
        Some(a) => match argument {
            None => true,
            Some(arg) => attr_has_argument(t, source, a, arg),
        },
    }
}

/// Whether an attribute item is `#[name]` or `#[name(.. argument ..)]`.
fn attribute_matches(t: &SyntaxTree, source: &str, attr_item: usize, name: &str, argument: Option<&str>) -> (r: bool)
    ensures
        r == attribute_item_matches(*t, source@, attr_item, name@, opt_str(argument)),
{
    let ghost cs = children_of(*t, attr_item);
    let ghost p = attr_named_pred(*t, source@, name@);
    let cnt = t.child_count(attr_item);
    let mut i: usize = 0;
    assert(cs.subrange(0, cs.len() as int) =~= cs);
    while i < cnt
        invariant
            cnt == super::syntax::children_of(*t, attr_item).len(),
            cs == children_of(*t, attr_item),
            p == attr_named_pred(*t, source@, name@),
            i <= cnt,
            first_where(cs, p) == first_where(cs.subrange(i as int, cs.len() as int), p),
        decreases cnt - i,
    {
        let child = t.child(attr_item, i);
        proof {
            lemma_first_where_step(cs, p, i as int);
        }
        i += 1;
        if t.kind_is(child, "attribute") {
            let ident = match t.child_by_field(child, "path") {
                Some(p) => Some(p),
                None => child_of_kind(t, child, "identifier"),
            };
            let ident = match ident {
                Some(x) => x,
                None => continue,
            };
            let matches_name = match node_text(t, ident, source) {
                Some(x) => str_eq(x.as_str(), name),
                None => false,
            };
            if !matches_name {
                continue;
            }
            assert(attr_named(*t, source@, child, name@));
            assert(first_where(cs, p) == Some(child));
            match argument {
                Some(arg) => {
                    let acnt = t.child_count(child);
                    let mut j: usize = 0;
                    while j < acnt
                        invariant
                            acnt == super::syntax::children_of(*t, child).len(),
                            j <= acnt,
                            first_where(children_of(*t, attr_item), attr_named_pred(*t, source@, name@)) == Some(child),
                            opt_str(argument) == Some(arg@),
                            forall|m: int| 0 <= m < j ==> !token_tree_has(*t, source@, #[trigger] children_of(*t, child)[m], arg@),
                        decreases acnt - j,
                    {
                        let tt = t.child(child, j);
                        if t.kind_is(tt, "token_tree") {
                            let tcnt = t.child_count(tt);
                            let mut k: usize = 0;
                            while k < tcnt
                                invariant
                                    tcnt == super::syntax::children_of(*t, tt).len(),
                                    k <= tcnt,
                                    kind_of(*t, tt) == "token_tree"@,
                                    j < acnt,
                                    acnt == super::syntax::children_of(*t, child).len(),
                                    tt == children_of(*t, child)[j as int],
                                    first_where(children_of(*t, attr_item), attr_named_pred(*t, source@, name@)) == Some(child),
                            opt_str(argument) == Some(arg@),
                                    forall|m: int| 0 <= m < k ==> !(kind_of(*t, #[trigger] children_of(*t, tt)[m]) == "identifier"@
                                        && text_of(*t, children_of(*t, tt)[m], source@) == Some(arg@)),
                                decreases tcnt - k,
                            {
                                let inner = t.child(tt, k);
                                if t.kind_is(inner, "identifier") {
                                    if let Some(x) = node_text(t, inner, source) {
                                        if str_eq(x.as_str(), arg) {
                                            assert(token_tree_has(*t, source@, children_of(*t, child)[j as int], arg@));
                                            assert(attr_has_argument(*t, source@, child, arg@));
                                            return true;
                                        }
                                    }
                                }
                                k += 1;
                            }
                        }
                        j += 1;
                    }
                    return false;
                },
                None => return true,
            }
        }
    }
    assert(cs.subrange(i as int, cs.len() as int).len() == 0);
    false
}

/// The sibling just before node `n`, if any.
pub open spec fn prev_of(t: SyntaxTree, n: usize) -> Option<usize> {
    if n < t.nodes@.len() { t.nodes@[n as int].prev } else { None }
}

/// Walking back from `sib` over attribute items and comments (for at most
/// `steps` siblings), one of the attribute items matches.
pub open spec fn attr_walk_has(t: SyntaxTree, source: Seq<char>, sib: Option<usize>, name: Seq<char>, arg: Option<Seq<char>>, steps: nat) -> bool
    decreases steps,
{
    if steps == 0 {
        false
    } else {
        match sib {
            None => false,
            Some(x) => if kind_of(t, x) == "attribute_item"@ {
                attribute_item_matches(t, source, x, name, arg) || attr_walk_has(t, source, prev_of(t, x), name, arg, (steps - 1) as nat)
            } else if kind_of(t, x) != "line_comment"@ && kind_of(t, x) != "block_comment"@ {
                false
            } else {
                attr_walk_has(t, source, prev_of(t, x), name, arg, (steps - 1) as nat)
            },
        }
    }
}

/// Walking back from `sib` over attribute items and comments (for at most
/// `steps` siblings), the number of attribute items `#[name]` or
/// `#[name(...)]`.
pub open spec fn attr_walk_count(t: SyntaxTree, source: Seq<char>, sib: Option<usize>, name: Seq<char>, steps: nat) -> nat
    decreases steps,
{
    if steps == 0 {
        0
    } else {
        match sib {
            None => 0,
            Some(x) => if kind_of(t, x) == "attribute_item"@ {
                (if attribute_item_matches(t, source, x, name, None) { 1nat } else { 0nat })
                    + attr_walk_count(t, source, prev_of(t, x), name, (steps - 1) as nat)
            } else if kind_of(t, x) != "line_comment"@ && kind_of(t, x) != "block_comment"@ {
                0
            } else {
                attr_walk_count(t, source, prev_of(t, x), name, (steps - 1) as nat)
            },
        }
    }
}

/// Whether one of the attribute items just before `node` (comments
/// skipped) is the named attribute.
fn has_attribute(t: &SyntaxTree, source: &str, node: usize, name: &str, argument: Option<&str>) -> (r: bool)
    ensures
        r == attr_walk_has(*t, source@, prev_of(*t, node), name@, opt_str(argument), t.nodes@.len() as nat),
{
    let mut sibling = t.prev_sibling(node);
    let mut steps = t.nodes.len();
    while steps > 0
        invariant
            attr_walk_has(*t, source@, prev_of(*t, node), name@, opt_str(argument), t.nodes@.len() as nat)
                == attr_walk_has(*t, source@, sibling, name@, opt_str(argument), steps as nat),
        decreases steps,
    {
        steps -= 1;
        let sib = match sibling {
            Some(x) => x,
            None => return false,
        };
        if t.kind_is(sib, "attribute_item") {
            if attribute_matches(t, source, sib, name, argument) {
                return true;
            }
        } else if !t.kind_is(sib, "line_comment") && !t.kind_is(sib, "block_comment") {
            return false;
        }
        sibling = t.prev_sibling(sib);
    }
    false
}

/// The number of `#[name(...)]` attributes just before `node`.
fn count_rust_case_attributes(t: &SyntaxTree, source: &str, node: usize, name: &str) -> (r: Option<usize>)
    ensures
        r matches Some(n) ==> n > 0,
        r == if attr_walk_count(*t, source@, prev_of(*t, node), name@, t.nodes@.len() as nat) == 0 {
            None::<usize>
        } else {
            Some(attr_walk_count(*t, source@, prev_of(*t, node), name@, t.nodes@.len() as nat) as usize)
        },
{
    let mut count: usize = 0;
    let mut sibling = t.prev_sibling(node);
    let mut steps = t.nodes.len();
    while steps > 0
        invariant
            steps <= t.nodes@.len(),
            t.nodes@.len() <= usize::MAX,
            count <= t.nodes@.len() - steps,
            attr_walk_count(*t, source@, prev_of(*t, node), name@, t.nodes@.len() as nat)
                == count + attr_walk_count(*t, source@, sibling, name@, steps as nat),
        ensures
            attr_walk_count(*t, source@, prev_of(*t, node), name@, t.nodes@.len() as nat) == count,
        decreases steps,
    {
        steps -= 1;
        let sib = match sibling {
            Some(x) => x,
            None => break,
        };
        if t.kind_is(sib, "attribute_item") {
            if attribute_matches(t, source, sib, name, None) {
                count += 1;
            }
        } else if !t.kind_is(sib, "line_comment") && !t.kind_is(sib, "block_comment") {
            break;
        }
        sibling = t.prev_sibling(sib);
    }
    if count == 0 {
        None
    } else {
        Some(count)
    }
}

/// The number of nodes of `s` that satisfy `p`.
pub open spec fn count_where(s: Seq<usize>, p: spec_fn(usize) -> bool) -> nat
    decreases s.len(),
{
    if s.len() == 0 {
        0
    } else {
        count_where(s.drop_last(), p) + if p(s.last()) { 1nat } else { 0nat }
    }
}

/// Named nodes whose kind is not `skip`.
pub open spec fn named_not_pred(t: SyntaxTree, skip: Seq<char>) -> spec_fn(usize) -> bool {
    |c: usize| named_of(t, c) && kind_of(t, c) != skip
}

/// The number of named children of `n` whose kind is not `skip`.
fn count_named(t: &SyntaxTree, n: usize, skip: &str) -> (r: usize)
    ensures
        r == count_where(children_of(*t, n), named_not_pred(*t, skip@)),
{
    let ghost cs = children_of(*t, n);
    let ghost p = named_not_pred(*t, skip@);
    let cnt = t.child_count(n);
    let mut items: usize = 0;
    let mut i: usize = 0;
    assert(cs.subrange(0, 0) =~= Seq::<usize>::empty());
    while i < cnt
        invariant
            cnt == super::syntax::children_of(*t, n).len(),
            cs == children_of(*t, n),
            p == named_not_pred(*t, skip@),
            i <= cnt,
            items <= i,
            items == count_where(cs.subrange(0, i as int), p),
        decreases cnt - i,
    {
        assert(cs.subrange(0, i + 1).drop_last() =~= cs.subrange(0, i as int));
        let ch = t.child(n, i);
        if t.is_named(ch) && !t.kind_is(ch, skip) {
            items += 1;
        }
        i += 1;
    }
    assert(cs.subrange(0, i as int) =~= cs);
    items
}

/// The number of children of `n` of kind `k`.
fn count_kind(t: &SyntaxTree, n: usize, k: &str) -> (r: usize)
    ensures
        r == count_where(children_of(*t, n), kind_pred(*t, k@)),
{
    let ghost cs = children_of(*t, n);
    let ghost p = kind_pred(*t, k@);
    let cnt = t.child_count(n);
    let mut items: usize = 0;
    let mut i: usize = 0;
    assert(cs.subrange(0, 0) =~= Seq::<usize>::empty());
    while i < cnt
        invariant
            cnt == super::syntax::children_of(*t, n).len(),
            cs == children_of(*t, n),
            p == kind_pred(*t, k@),
            i <= cnt,
            items <= i,
            items == count_where(cs.subrange(0, i as int), p),
        decreases cnt - i,
    {
        assert(cs.subrange(0, i + 1).drop_last() =~= cs.subrange(0, i as int));
        let ch = t.child(n, i);
        if t.kind_is(ch, k) {
            items += 1;
        }
        i += 1;
    }
    assert(cs.subrange(0, i as int) =~= cs);
    items
}

/// The parent of node `n`, if any.
pub open spec fn parent_of(t: SyntaxTree, n: usize) -> Option<usize> {
    if n < t.nodes@.len() { t.nodes@[n as int].parent } else { None }
}

/// What an argument answers for the parametrize rows: the number of named
/// non-comment children of a non-empty list.
pub open spec fn list_answer(t: SyntaxTree) -> spec_fn(usize) -> Option<Option<usize>> {
    |a: usize| {
        let n = count_where(children_of(t, a), named_not_pred(t, "comment"@));
        if kind_of(t, a) == "list"@ && n > 0 {
            Some(Some(n as usize))
        } else {
            None
        }
    }
}

/// What a child of a decorated definition answers: nothing for a
/// non-decorator or a decorator calling another function; no count (and
/// the search stops) for a decorator without a call, function or
/// arguments; else the first non-empty list argument, if any.
pub open spec fn decorator_answer(t: SyntaxTree, source: Seq<char>, decorator: Seq<char>) -> spec_fn(usize) -> Option<Option<usize>> {
    |child: usize| if kind_of(t, child) != "decorator"@ {
        None
    } else {
        match child_of_kind_spec(t, child, "call"@) {
            None => Some(None),
            Some(call) => match field_child(t, call, "function"@) {
                None => Some(None),
                Some(func) => if text_of(t, func, source) != Some(decorator) {
                    None
                } else {
                    match field_child(t, call, "arguments"@) {
                        None => Some(None),
                        Some(args) => first_answer(children_of(t, args), list_answer(t)),
                    }
                },
            },
        }
    }
}

/// The rows of the first list argument of the `decorator` on the
/// decorated definition around `node`.
pub open spec fn parametrize_count(t: SyntaxTree, source: Seq<char>, node: usize, decorator: Seq<char>) -> Option<usize> {
    match parent_of(t, node) {
        None => None,
        Some(parent) => if kind_of(t, parent) != "decorated_definition"@ {
            None
        } else {
            answer_or_none(children_of(t, parent), decorator_answer(t, source, decorator))
        },
    }
}

/// The rows of the first list argument of the `decorator` on the
/// decorated definition around `node`.
fn count_python_parametrize_cases(t: &SyntaxTree, source: &str, node: usize, decorator: &str) -> (r: Option<usize>)
    ensures
        r == parametrize_count(*t, source@, node, decorator@),
{
    let parent = t.parent(node)?;
    if !t.kind_is(parent, "decorated_definition") {
        return None;
    }
    let ghost cs = children_of(*t, parent);
    let ghost f = decorator_answer(*t, source@, decorator@);
    assert(parametrize_count(*t, source@, node, decorator@) == answer_or_none(cs, f));
    let cnt = t.child_count(parent);
    let mut i: usize = 0;
    assert(cs.subrange(0, cs.len() as int) =~= cs);
    while i < cnt
        invariant
            cnt == super::syntax::children_of(*t, parent).len(),
            cs == children_of(*t, parent),
            f == decorator_answer(*t, source@, decorator@),
            parametrize_count(*t, source@, node, decorator@) == answer_or_none(cs, f),
            i <= cnt,
            first_answer(cs, f) == first_answer(cs.subrange(i as int, cs.len() as int), f),
        decreases cnt - i,
    {
        let child = t.child(parent, i);
        proof {
            lemma_first_answer_step(cs, f, i as int);
        }
        i += 1;
        if !t.kind_is(child, "decorator") {
            continue;
        }
        let call = child_of_kind(t, child, "call")?;
        let func = t.child_by_field(call, "function")?;
        let same = match node_text(t, func, source) {
            Some(x) => str_eq(x.as_str(), decorator),
            None => false,
        };
        if !same {
            continue;
        }
        let args = t.child_by_field(call, "arguments")?;
        let ghost acs = children_of(*t, args);
        let ghost g = list_answer(*t);
        assert(f(child) == first_answer(acs, g));
        let acnt = t.child_count(args);
        let mut j: usize = 0;
        assert(acs.subrange(0, acs.len() as int) =~= acs);
        while j < acnt
            invariant
                acnt == super::syntax::children_of(*t, args).len(),
                acs == children_of(*t, args),
                g == list_answer(*t),
                j <= acnt,
                first_answer(acs, g) == first_answer(acs.subrange(j as int, acs.len() as int), g),
                f(child) == first_answer(acs, g),
                first_answer(cs, f) == match f(child) {
                    Some(x) => Some(x),
                    None => first_answer(cs.subrange(i as int, cs.len() as int), f),
                },
                parametrize_count(*t, source@, node, decorator@) == answer_or_none(cs, f),
            decreases acnt - j,
        {
            proof {
                lemma_first_answer_step(acs, g, j as int);
            }
            let arg = t.child(args, j);
            if t.kind_is(arg, "list") {
                let items = count_named(t, arg, "comment");
                if items > 0 {
                    return Some(items);
                }
            }
            j += 1;
        }
        assert(acs.subrange(j as int, acs.len() as int).len() == 0);
    }
    assert(cs.subrange(i as int, cs.len() as int).len() == 0);
    None
}

/// What an argument answers for the array count: the number of elements
/// of a non-empty array creation (a PHP `argument` taken for what it holds).
pub open spec fn array_answer(t: SyntaxTree) -> spec_fn(usize) -> Option<Option<usize>> {
    |a: usize| {
        let inner = unwrapped(t, a);
        let n = count_where(children_of(t, inner), kind_pred(t, "array_element_initializer"@));
        if kind_of(t, inner) == "array_creation_expression"@ && n > 0 {
            Some(Some(n as usize))
        } else {
            None
        }
    }
}

/// The first answer among the nodes of `s`, or none.
pub open spec fn answer_or_none(s: Seq<usize>, f: spec_fn(usize) -> Option<Option<usize>>) -> Option<usize> {
    match first_answer(s, f) {
        Some(x) => x,
        None => None,
    }
}

/// The element count of the first non-empty array literal argument of a
/// call.
pub open spec fn array_argument_count(t: SyntaxTree, call: usize) -> Option<usize> {
    match field_child(t, call, "arguments"@) {
        None => None,
        Some(args) => answer_or_none(children_of(t, args), array_answer(t)),
    }
}

/// The elements of the first array literal argument of a call.
fn count_array_argument(t: &SyntaxTree, call: usize) -> (r: Option<usize>)
    ensures
        r == array_argument_count(*t, call),
{
    let args = t.child_by_field(call, "arguments")?;
    let ghost cs = children_of(*t, args);
    let ghost f = array_answer(*t);
    let cnt = t.child_count(args);
    let mut i: usize = 0;
    assert(cs.subrange(0, cs.len() as int) =~= cs);
    while i < cnt
        invariant
            cnt == super::syntax::children_of(*t, args).len(),
            cs == children_of(*t, args),
            f == array_answer(*t),
            field_child(*t, call, "arguments"@) == Some(args),
            i <= cnt,
            first_answer(cs, f) == first_answer(cs.subrange(i as int, cs.len() as int), f),
        decreases cnt - i,
    {
        proof {
            lemma_first_answer_step(cs, f, i as int);
        }
        let inner = unwrap_php_argument(t, t.child(args, i));
        if t.kind_is(inner, "array_creation_expression") {
            let items = count_kind(t, inner, "array_element_initializer");
            if items > 0 {
                return Some(items);
            }
        }
        i += 1;
    }
    assert(cs.subrange(i as int, cs.len() as int).len() == 0);
    None
}

/// Walking up from `current` through member calls made on it (for at
/// most `steps` links), the array count of the first call of one of
/// `methods` that has a non-empty array argument.
pub open spec fn chained_dataset(t: SyntaxTree, source: Seq<char>, current: usize, methods: Seq<String>, steps: nat) -> Option<usize>
    decreases steps,
{
    if steps == 0 {
        None
    } else {
        match parent_of(t, current) {
            None => None,
            Some(parent) => if kind_of(t, parent) != "member_call_expression"@ {
                None
            } else if field_child(t, parent, "object"@) != Some(current) {
                None
            } else {
                match field_child(t, parent, "name"@) {
                    None => None,
                    Some(name_node) => match text_of(t, name_node, source) {
                        None => None,
                        Some(m) => if (exists|k: int| 0 <= k < methods.len() && (#[trigger] methods[k])@ == m)
                            && array_argument_count(t, parent) is Some {
                            array_argument_count(t, parent)
                        } else {
                            chained_dataset(t, source, parent, methods, (steps - 1) as nat)
                        },
                    },
                }
            },
        }
    }
}

/// The dataset size of a `->with([...])` chained onto the call `node`.
fn count_pest_chained_dataset(t: &SyntaxTree, source: &str, node: usize, methods: &Vec<String>) -> (r: Option<usize>)
    ensures
        r == chained_dataset(*t, source@, node, methods@, t.nodes@.len() as nat),
{
    let mut current = node;
    let mut steps = t.nodes.len();
    while steps > 0
        invariant
            chained_dataset(*t, source@, node, methods@, t.nodes@.len() as nat)
                == chained_dataset(*t, source@, current, methods@, steps as nat),
        decreases steps,
    {
        steps -= 1;
        let parent = match t.parent(current) {
            Some(p) => p,
            None => return None,
        };
        if !t.kind_is(parent, "member_call_expression") {
            return None;
        }
        let object = match t.child_by_field(parent, "object") {
            Some(o) => o,
            None => return None,
        };
        if object != current {
            return None;
        }
        let name_node = t.child_by_field(parent, "name")?;
        let method = node_text(t, name_node, source)?;
        if contains_str(methods, method.as_str()) {
            if let Some(count) = count_array_argument(t, parent) {
                return Some(count);
            }
        }
        current = parent;
    }
    None
}

/// What an argument answers for the row count: the number of named
/// children of a non-empty array.
pub open spec fn jest_array_answer(t: SyntaxTree) -> spec_fn(usize) -> Option<Option<usize>> {
    |a: usize| {
        let n = count_where(children_of(t, a), named_not_pred(t, seq![]));
        if kind_of(t, a) == "array"@ && n > 0 {
            Some(Some(n as usize))
        } else {
            None
        }
    }
}

/// The rows of `method(...)(...)` where `method` is one of `methods`: the
/// size of the first non-empty array among the inner call's arguments.
pub open spec fn jest_each_count(t: SyntaxTree, source: Seq<char>, node: usize, methods: Seq<String>) -> Option<usize> {
    if kind_of(t, node) != "call_expression"@ {
        None
    } else {
        match field_child(t, node, "function"@) {
            None => None,
            Some(function) => if kind_of(t, function) != "call_expression"@ {
                None
            } else {
                match field_child(t, function, "function"@) {
                    None => None,
                    Some(inner) => match text_of(t, inner, source) {
                        None => None,
                        Some(text) => if !(exists|k: int| 0 <= k < methods.len() && (#[trigger] methods[k])@ == text) {
                            None
                        } else {
                            match field_child(t, function, "arguments"@) {
                                None => None,
                                Some(args) => answer_or_none(children_of(t, args), jest_array_answer(t)),
                            }
                        },
                    },
                }
            },
        }
    }
}

/// The rows of the array given to `it.each([...])` / `test.each([...])`.
fn count_jest_each_cases(t: &SyntaxTree, source: &str, node: usize, methods: &Vec<String>) -> (r: Option<usize>)
    ensures
        r == jest_each_count(*t, source@, node, methods@),
{
    if !t.kind_is(node, "call_expression") {
        return None;
    }
    let function = t.child_by_field(node, "function")?;
    if !t.kind_is(function, "call_expression") {
        return None;
    }
    let inner = t.child_by_field(function, "function")?;
    let text = node_text(t, inner, source)?;
    if !contains_str(methods, text.as_str()) {
        return None;
    }
    let args = t.child_by_field(function, "arguments")?;
    let ghost cs = children_of(*t, args);
    let ghost f = jest_array_answer(*t);
    assert(jest_each_count(*t, source@, node, methods@) == answer_or_none(cs, f));
    let cnt = t.child_count(args);
    let mut i: usize = 0;
    assert(cs.subrange(0, cs.len() as int) =~= cs);
    while i < cnt
        invariant
            cnt == super::syntax::children_of(*t, args).len(),
            cs == children_of(*t, args),
            f == jest_array_answer(*t),
            jest_each_count(*t, source@, node, methods@) == answer_or_none(cs, f),
            i <= cnt,
            first_answer(cs, f) == first_answer(cs.subrange(i as int, cs.len() as int), f),
        decreases cnt - i,
    {
        proof {
            lemma_first_answer_step(cs, f, i as int);
        }
        let arg = t.child(args, i);
        if t.kind_is(arg, "array") {
            let items = count_named(t, arg, "");
            assert(""@ == Seq::<char>::empty()) by {
                reveal_strlit("");
            }
            if items > 0 {
                return Some(items);
            }
        }
        i += 1;
    }
    assert(cs.subrange(i as int, cs.len() as int).len() == 0);
    None
}

/// A count kept only when positive.
pub open spec fn positive(o: Option<usize>) -> Option<Option<usize>> {
    match o {
        Some(n) => if n > 0 { Some(Some(n)) } else { None },
        None => None,
    }
}

/// The number of `#[name(...)]` case attributes just before `node`, if any.
pub open spec fn case_attribute_count(t: SyntaxTree, source: Seq<char>, node: usize, name: Seq<char>) -> Option<usize> {
    let n = attr_walk_count(t, source, prev_of(t, node), name, t.nodes@.len() as nat);
    if n == 0 { None } else { Some(n as usize) }
}

/// What one parameterization description answers for `node`: a positive
/// case count ends the search with it, a description without its attribute
/// or decorator name ends the search with none, anything else goes on.
pub open spec fn detection_answer(t: SyntaxTree, source: Seq<char>, node: usize, d: ParameterizedDef) -> Option<Option<usize>> {
    if d.detection@ == "attribute"@ {
        match d.attribute_name {
            None => Some(None),
            Some(a) => positive(case_attribute_count(t, source, node, a@)),
        }
    } else if d.detection@ == "decorator"@ {
        match d.decorator_name {
            None => Some(None),
            Some(dn) => positive(parametrize_count(t, source, node, dn@)),
        }
    } else if d.detection@ == "method_call"@ {
        positive(jest_each_count(t, source, node, d.method_names@))
    } else if d.detection@ == "chained_method"@ {
        positive(chained_dataset(t, source, node, d.method_names@, t.nodes@.len() as nat))
    } else {
        None
    }
}

/// The case count that the first answering description gives.
pub open spec fn param_count(t: SyntaxTree, source: Seq<char>, node: usize, defs: Seq<ParameterizedDef>) -> Option<usize>
    decreases defs.len(),
{
    if defs.len() == 0 {
        None
    } else {
        match detection_answer(t, source, node, defs[0]) {
            Some(x) => x,
            None => param_count(t, source, node, defs.subrange(1, defs.len() as int)),
        }
    }
}

/// The case count of a parameterized spec, by the first of the
/// framework's detections that finds cases.
fn detect_parameterization(c: &Ctx, node: usize) -> (r: Option<ParamInfo>)
    ensures
        r matches Some(p) ==> p.case_count > 0 && p.labels@.len() == 0,
        match r {
            Some(p) => param_count(*c.tree, c.source@, node, c.framework.parameterized@) == Some(p.case_count),
            None => param_count(*c.tree, c.source@, node, c.framework.parameterized@) is None,
        },
{
    let t = c.tree;
    let defs = &c.framework.parameterized;
    let ghost all = defs@;
    let mut i: usize = 0;
    assert(all.subrange(0, all.len() as int) =~= all);
    while i < defs.len()
        invariant
            i <= defs@.len(),
            all == defs@,
            all == c.framework.parameterized@,
            *t == *c.tree,
            param_count(*t, c.source@, node, all) == param_count(*t, c.source@, node, all.subrange(i as int, all.len() as int)),
        decreases defs@.len() - i,
    {
        let def = &defs[i];
        proof {
            let r = all.subrange(i as int, all.len() as int);
            assert(r.subrange(1, r.len() as int) =~= all.subrange(i + 1, all.len() as int));
            assert(r[0] == all[i as int]);
            assert(param_count(*t, c.source@, node, r) == match detection_answer(*t, c.source@, node, all[i as int]) {
                Some(x) => x,
                None => param_count(*t, c.source@, node, all.subrange(i + 1, all.len() as int)),
            });
        }
        i += 1;
        let count = if str_eq(def.detection.as_str(), "attribute") {
            match &def.attribute_name {
                Some(a) => count_rust_case_attributes(t, c.source, node, a.as_str()),
                None => {
                    assert(detection_answer(*t, c.source@, node, *def) == Some(None::<usize>));
                    return None;
                },
            }
        } else if str_eq(def.detection.as_str(), "decorator") {
            match &def.decorator_name {
                Some(d) => count_python_parametrize_cases(t, c.source, node, d.as_str()),
                None => return None,
            }
        } else if str_eq(def.detection.as_str(), "method_call") {
            count_jest_each_cases(t, c.source, node, &def.method_names)
        } else if str_eq(def.detection.as_str(), "chained_method") {
            count_pest_chained_dataset(t, c.source, node, &def.method_names)
        } else {
            None
        };
        match count {
            Some(n) => {
                if n > 0 {
                    return Some(ParamInfo { case_count: n, labels: Vec::new() });
                }
            },
            None => {},
        }
    }
    assert(all.subrange(i as int, all.len() as int).len() == 0);
    None
}

/// A call expression whose function reads `target`.
pub open spec fn calls_target(t: SyntaxTree, source: Seq<char>, n: usize, target: Seq<char>) -> bool {
    kind_of(t, n) == "call_expression"@ && (field_child(t, n, "function"@) matches Some(f) && text_of(t, f, source) == Some(target))
}

/// Some child of `node`, or (within `fuel` further levels) some node below
/// one, calls `target`.
pub open spec fn contains_call(t: SyntaxTree, source: Seq<char>, node: usize, target: Seq<char>, fuel: nat) -> bool
    decreases fuel,
{
    exists|k: int|
        0 <= k < children_of(t, node).len() && (calls_target(t, source, #[trigger] children_of(t, node)[k], target) || (fuel > 0
            && contains_call(t, source, children_of(t, node)[k], target, (fuel - 1) as nat)))
}

/// Whether some call below `node` invokes the function named `target`.
fn call_contains(t: &SyntaxTree, source: &str, node: usize, target: &str, fuel: usize) -> (r: bool)
    ensures
        r == contains_call(*t, source@, node, target@, fuel as nat),
    decreases fuel,
{
    let cnt = t.child_count(node);
    let mut i: usize = 0;
    while i < cnt
        invariant
            cnt == super::syntax::children_of(*t, node).len(),
            i <= cnt,
            forall|k: int| 0 <= k < i ==> !(calls_target(*t, source@, #[trigger] children_of(*t, node)[k], target@) || (fuel > 0
                && contains_call(*t, source@, children_of(*t, node)[k], target@, (fuel - 1) as nat))),
        decreases cnt - i,
    {
        let child = t.child(node, i);
        if t.kind_is(child, "call_expression") {
            if let Some(f) = t.child_by_field(child, "function") {
                if let Some(x) = node_text(t, f, source) {
                    if str_eq(x.as_str(), target) {
                        assert(calls_target(*t, source@, children_of(*t, node)[i as int], target@));
                        return true;
                    }
                }
            }
        }
        if fuel > 0 && call_contains(t, source, child, target, fuel - 1) {
            assert(contains_call(*t, source@, children_of(*t, node)[i as int], target@, (fuel - 1) as nat));
            return true;
        }
        i += 1;
    }
    false
}

/// `min(a + b, usize::MAX)`.
pub open spec fn capped(x: nat) -> nat {
    if x <= usize::MAX { x } else { usize::MAX as nat }
}

/// The rows of a literal table of kind `slice_kind`: the elements of its
/// literal value.
pub open spec fn table_rows_at(t: SyntaxTree, child: usize, slice_kind: Seq<char>) -> nat {
    if kind_of(t, child) == slice_kind {
        match child_of_kind_spec(t, child, "literal_value"@) {
            Some(lit) => count_where(children_of(t, lit), kind_pred(t, "literal_element"@)),
            None => 0,
        }
    } else {
        0
    }
}

/// The rows of the literal tables among `cs` and (within `fuel` levels)
/// below them.
pub open spec fn rows_over(t: SyntaxTree, cs: Seq<usize>, slice_kind: Seq<char>, fuel: nat) -> nat
    decreases fuel, 0nat, cs.len(),
{
    if cs.len() == 0 {
        0
    } else {
        rows_over(t, cs.drop_last(), slice_kind, fuel) + table_rows_at(t, cs.last(), slice_kind) + if fuel > 0 {
            table_rows(t, cs.last(), slice_kind, (fuel - 1) as nat)
        } else {
            0
        }
    }
}

/// The rows of the literal tables below `node`, within `fuel` levels.
pub open spec fn table_rows(t: SyntaxTree, node: usize, slice_kind: Seq<char>, fuel: nat) -> nat
    decreases fuel, 1nat, 0nat,
{
    rows_over(t, children_of(t, node), slice_kind, fuel)
}

/// Some node below `node` (within `fuel` further levels) is a loop of kind
/// `loop_kind` that calls `run_call`.
pub open spec fn loop_runs(t: SyntaxTree, source: Seq<char>, node: usize, loop_kind: Seq<char>, run_call: Seq<char>, fuel: nat) -> bool
    decreases fuel,
{
    exists|k: int|
        0 <= k < children_of(t, node).len() && ((kind_of(t, #[trigger] children_of(t, node)[k]) == loop_kind
            && contains_call(t, source, children_of(t, node)[k], run_call, t.nodes@.len() as nat)) || (fuel > 0
            && loop_runs(t, source, children_of(t, node)[k], loop_kind, run_call, (fuel - 1) as nat)))
}

/// Below `node`: the total number of table rows (elements of literal
/// tables of kind `slice_kind`), and whether a loop of kind `loop_kind`
/// runs `run_call`.
fn table_stats(t: &SyntaxTree, source: &str, node: usize, slice_kind: &str, loop_kind: &str, run_call: &str, fuel: usize) -> (r: (usize, bool))
    ensures
        r.0 == capped(table_rows(*t, node, slice_kind@, fuel as nat)),
        r.1 == loop_runs(*t, source@, node, loop_kind@, run_call@, fuel as nat),
    decreases fuel,
{
    let ghost cs = children_of(*t, node);
    let mut total: usize = 0;
    let mut has_loop = false;
    let cnt = t.child_count(node);
    let mut i: usize = 0;
    assert(cs.subrange(0, 0) =~= Seq::<usize>::empty());
    while i < cnt
        invariant
            cnt == super::syntax::children_of(*t, node).len(),
            cs == children_of(*t, node),
            i <= cnt,
            total == capped(rows_over(*t, cs.subrange(0, i as int), slice_kind@, fuel as nat)),
            has_loop == exists|k: int|
                0 <= k < i && ((kind_of(*t, #[trigger] cs[k]) == loop_kind@ && contains_call(*t, source@, cs[k], run_call@, t.nodes@.len() as nat))
                    || (fuel > 0 && loop_runs(*t, source@, cs[k], loop_kind@, run_call@, (fuel - 1) as nat))),
        decreases cnt - i,
    {
        let child = t.child(node, i);
        let ghost before = total;
        assert(cs.subrange(0, i + 1).drop_last() =~= cs.subrange(0, i as int));
        if t.kind_is(child, slice_kind) {
            if let Some(lit) = child_of_kind(t, child, "literal_value") {
                let items = count_kind(t, lit, "literal_element");
                total = total.saturating_add(items);
            }
        }
        if t.kind_is(child, loop_kind) && call_contains(t, source, child, run_call, t.nodes.len()) {
            has_loop = true;
        }
        if fuel > 0 {
            let (sub, l) = table_stats(t, source, child, slice_kind, loop_kind, run_call, fuel - 1);
            total = total.saturating_add(sub);
            has_loop = has_loop || l;
        }
        i += 1;
    }
    assert(cs.subrange(0, i as int) =~= cs);
    (total, has_loop)
}

/// The row count of a table-driven test, when the framework describes
/// table-driven tests: the rows (capped) of the literal tables below the
/// body, when they are not none and some loop below runs the sub-test call.
pub open spec fn table_count(t: SyntaxTree, source: Seq<char>, fw: FrameworkDef, node: usize) -> Option<usize> {
    match fw.table_driven {
        None => None,
        Some(table) => if !table.enabled {
            None
        } else {
            match (table.slice_pattern, table.loop_pattern, table.run_call, field_child(t, node, "body"@)) {
                (Some(sk), Some(lk), Some(rc), Some(body)) => {
                    let total = capped(table_rows(t, body, sk@, t.nodes@.len() as nat));
                    if loop_runs(t, source, body, lk@, rc@, t.nodes@.len() as nat) && total > 0 {
                        Some(total as usize)
                    } else {
                        None
                    }
                },
                _ => None,
            }
        },
    }
}

/// The row count of a table-driven test: the rows of its literal tables,
/// when a loop over them runs sub-tests.
fn detect_table_driven(c: &Ctx, node: usize) -> (r: Option<ParamInfo>)
    ensures
        r matches Some(p) ==> p.case_count > 0 && p.labels@.len() == 0,
        match r {
            Some(p) => table_count(*c.tree, c.source@, *c.framework, node) == Some(p.case_count),
            None => table_count(*c.tree, c.source@, *c.framework, node) is None,
        },
{
    let table = c.framework.table_driven.as_ref()?;
    if !table.enabled {
        return None;
    }
    let slice_kind = table.slice_pattern.as_ref()?;
    let loop_kind = table.loop_pattern.as_ref()?;
    let run_call = table.run_call.as_ref()?;
    let body = c.tree.child_by_field(node, "body")?;
    let (total, has_loop) = table_stats(c.tree, c.source, body, slice_kind.as_str(), loop_kind.as_str(), run_call.as_str(), c.tree.nodes.len());
    if has_loop && total > 0 {
        Some(ParamInfo { case_count: total, labels: Vec::new() })
    } else {
        None
    }
}

// ---------------------------------------------------------------------------
// Loop expansion
// ---------------------------------------------------------------------------

/// The text of a literal atom: a symbol (without its colon), a string's
/// content, or a number.
fn literal_atom_text(t: &SyntaxTree, source: &str, node: usize) -> (r: Option<String>)
    ensures
        opt_text(r) == atom_text_of(*t, source@, node),
{
    if t.kind_is(node, "bare_symbol") || t.kind_is(node, "bare_string") || t.kind_is(node, "hash_key_symbol")
        || t.kind_is(node, "integer") || t.kind_is(node, "float") {
        node_text(t, node, source)
    } else if t.kind_is(node, "simple_symbol") {
        match node_text(t, node, source) {
            Some(x) => Some(trim_leading_colons(x.as_str())),
            None => None,
        }
    } else if t.kind_is(node, "string") {
        extract_string_content(t, source, node)
    } else {
        None
    }
}

/// The key and value of a hash pair.
fn extract_pair_values(t: &SyntaxTree, source: &str, pair: usize) -> (r: Option<Vec<String>>)
    ensures
        match r {
            Some(v) => pair_values_of(*t, source@, pair) == Some(views(v@)),
            None => pair_values_of(*t, source@, pair) is None,
        },
{
    let key = t.child_by_field(pair, "key")?;
    let value = t.child_by_field(pair, "value")?;
    let k = literal_atom_text(t, source, key)?;
    let v = literal_atom_text(t, source, value)?;
    let mut r: Vec<String> = Vec::new();
    r.push(k);
    r.push(v);
    assert(views(r@) =~= seq![r@[0]@, r@[1]@]);
    Some(r)
}

/// The text of a literal atom: a bare symbol, bare string, hash-key
/// symbol, integer or float as written; a simple symbol without its
/// leading colons; a string's content; nothing for anything else.
pub open spec fn atom_text_of(t: SyntaxTree, source: Seq<char>, node: usize) -> Option<Seq<char>> {
    let k = kind_of(t, node);
    if k == "bare_symbol"@ || k == "bare_string"@ || k == "hash_key_symbol"@ || k == "integer"@ || k == "float"@ {
        text_of(t, node, source)
    } else if k == "simple_symbol"@ {
        match text_of(t, node, source) {
            Some(x) => Some(without_leading_colons(x)),
            None => None,
        }
    } else if k == "string"@ {
        string_content_of(t, node, source)
    } else {
        None
    }
}

/// The key and value texts of a hash pair, when both are literal atoms.
pub open spec fn pair_values_of(t: SyntaxTree, source: Seq<char>, pair: usize) -> Option<Seq<Seq<char>>> {
    match (field_child(t, pair, "key"@), field_child(t, pair, "value"@)) {
        (Some(key), Some(value)) => match (atom_text_of(t, source, key), atom_text_of(t, source, value)) {
            (Some(k), Some(v)) => Some(seq![k, v]),
            _ => None,
        },
        _ => None,
    }
}

/// An assignment of a literal atom to an identifier or constant: the
/// name's text and the value's text.
pub open spec fn assignment_of(t: SyntaxTree, source: Seq<char>, node: usize) -> Option<(Seq<char>, Seq<char>)> {
    match (field_child(t, node, "left"@), field_child(t, node, "right"@)) {
        (Some(left), Some(right)) => if kind_of(t, left) != "identifier"@ && kind_of(t, left) != "constant"@ {
            None
        } else {
            match (text_of(t, left, source), atom_text_of(t, source, right)) {
                (Some(n), Some(v)) => Some((n, v)),
                _ => None,
            }
        },
        _ => None,
    }
}

/// The values of tuples, one after the other.
pub open spec fn flattened(v: Seq<Seq<Seq<char>>>) -> Seq<Seq<char>>
    decreases v.len(),
{
    if v.len() == 0 {
        seq![]
    } else {
        flattened(v.drop_last()) + v.last()
    }
}

/// The texts of a list of tuples.
pub open spec fn tuple_views(v: Seq<Vec<String>>) -> Seq<Seq<Seq<char>>> {
    Seq::new(v.len(), |i: int| views(v[i]@))
}

/// What one element of a literal collection binds: the key and value of a
/// hash pair, the flattened values of a nested array (within `fuel` levels,
/// when there are any), or the text of an atom.
pub open spec fn element_tuple(t: SyntaxTree, source: Seq<char>, child: usize, fuel: nat) -> Option<Seq<Seq<char>>>
    decreases fuel, 0nat, 0nat,
{
    let k = kind_of(t, child);
    if k == "pair"@ {
        pair_values_of(t, source, child)
    } else if k == "array"@ {
        if fuel > 0 {
            let f = flattened(literal_tuples(t, source, child, (fuel - 1) as nat));
            if f.len() > 0 { Some(f) } else { None }
        } else {
            None
        }
    } else if k == "string"@ || k == "bare_symbol"@ || k == "bare_string"@ || k == "simple_symbol"@ || k == "integer"@ || k == "float"@ {
        match atom_text_of(t, source, child) {
            Some(x) => Some(seq![x]),
            None => None,
        }
    } else {
        None
    }
}

/// The tuples the elements `cs` bind, in order.
pub open spec fn tuples_over(t: SyntaxTree, source: Seq<char>, cs: Seq<usize>, fuel: nat) -> Seq<Seq<Seq<char>>>
    decreases fuel, 1nat, cs.len(),
{
    if cs.len() == 0 {
        seq![]
    } else {
        let rest = tuples_over(t, source, cs.drop_last(), fuel);
        match element_tuple(t, source, cs.last(), fuel) {
            Some(x) => rest.push(x),
            None => rest,
        }
    }
}

/// The tuples the elements of a literal collection bind.
pub open spec fn literal_tuples(t: SyntaxTree, source: Seq<char>, receiver: usize, fuel: nat) -> Seq<Seq<Seq<char>>>
    decreases fuel, 2nat, 0nat,
{
    tuples_over(t, source, children_of(t, receiver), fuel)
}

/// The values each iteration over a literal collection binds: one value
/// per atom, two per hash pair, the flattened atoms of a nested array.
fn extract_literal_tuples(t: &SyntaxTree, source: &str, receiver: usize, fuel: usize) -> (r: Vec<Vec<String>>)
    ensures
        tuple_views(r@) == literal_tuples(*t, source@, receiver, fuel as nat),
    decreases fuel,
{
    let ghost cs = children_of(*t, receiver);
    let mut tuples: Vec<Vec<String>> = Vec::new();
    let cnt = t.child_count(receiver);
    let mut i: usize = 0;
    assert(tuple_views(tuples@) =~= tuples_over(*t, source@, cs.subrange(0, 0), fuel as nat));
    while i < cnt
        invariant
            cnt == super::syntax::children_of(*t, receiver).len(),
            cs == children_of(*t, receiver),
            i <= cnt,
            tuple_views(tuples@) == tuples_over(*t, source@, cs.subrange(0, i as int), fuel as nat),
        decreases cnt - i,
    {
        let child = t.child(receiver, i);
        let ghost before = tuples@;
        assert(cs.subrange(0, i + 1).drop_last() =~= cs.subrange(0, i as int));
        assert(cs.subrange(0, i + 1).last() == child);
        assert(tuples_over(*t, source@, cs.subrange(0, i + 1), fuel as nat) == match element_tuple(*t, source@, child, fuel as nat) {
            Some(x) => tuples_over(*t, source@, cs.subrange(0, i as int), fuel as nat).push(x),
            None => tuples_over(*t, source@, cs.subrange(0, i as int), fuel as nat),
        });
        i += 1;
        if t.kind_is(child, "pair") {
            if let Some(pair) = extract_pair_values(t, source, child) {
                tuples.push(pair);
                assert(tuple_views(tuples@) =~= tuple_views(before).push(views(pair@)));
            }
        } else if t.kind_is(child, "array") {
            if fuel > 0 {
                let inner = extract_literal_tuples(t, source, child, fuel - 1);
                let ghost tv = tuple_views(inner@);
                let mut flat: Vec<String> = Vec::new();
                let mut j: usize = 0;
                assert(views(flat@) =~= flattened(tv.subrange(0, 0)));
                while j < inner.len()
                    invariant
                        j <= inner@.len(),
                        tv == tuple_views(inner@),
                        views(flat@) == flattened(tv.subrange(0, j as int)),
                    decreases inner@.len() - j,
                {
                    let ghost f0 = views(flat@);
                    let mut k: usize = 0;
                    assert(views(inner@[j as int]@).subrange(0, 0) =~= seq![]);
                    assert(f0 + seq![] =~= f0);
                    while k < inner[j].len()
                        invariant
                            j < inner@.len(),
                            k <= inner@[j as int]@.len(),
                            views(flat@) == f0 + views(inner@[j as int]@).subrange(0, k as int),
                        decreases inner@[j as int]@.len() - k,
                    {
                        let ghost fb = flat@;
                        flat.push(owned(inner[j][k].as_str()));
                        assert(views(flat@) =~= views(fb).push(inner@[j as int]@[k as int]@));
                        k += 1;
                        assert(views(flat@) =~= f0 + views(inner@[j as int]@).subrange(0, k as int));
                    }
                    assert(views(inner@[j as int]@).subrange(0, k as int) =~= views(inner@[j as int]@));
                    assert(tv.subrange(0, j + 1).drop_last() =~= tv.subrange(0, j as int));
                    assert(tv[j as int] == views(inner@[j as int]@));
                    j += 1;
                }
                assert(tv.subrange(0, j as int) =~= tv);
                if flat.len() > 0 {
                    tuples.push(flat);
                    assert(tuple_views(tuples@) =~= tuple_views(before).push(views(flat@)));
                }
            }
        } else if t.kind_is(child, "string") || t.kind_is(child, "bare_symbol") || t.kind_is(child, "bare_string")
            || t.kind_is(child, "simple_symbol") || t.kind_is(child, "integer") || t.kind_is(child, "float") {
            if let Some(x) = literal_atom_text(t, source, child) {
                let mut one: Vec<String> = Vec::new();
                one.push(x);
                assert(views(one@) =~= seq![one@[0]@]);
                tuples.push(one);
                assert(tuple_views(tuples@) =~= tuple_views(before).push(views(one@)));
            }
        }
    }
    assert(cs.subrange(0, i as int) =~= cs);
    tuples
}

/// The texts of the identifiers among `cs` that have one, in order.
pub open spec fn identifier_texts(t: SyntaxTree, source: Seq<char>, cs: Seq<usize>) -> Seq<Seq<char>>
    decreases cs.len(),
{
    if cs.len() == 0 {
        seq![]
    } else {
        let rest = identifier_texts(t, source, cs.drop_last());
        if kind_of(t, cs.last()) == "identifier"@ && text_of(t, cs.last(), source) is Some {
            rest.push(text_of(t, cs.last(), source).unwrap())
        } else {
            rest
        }
    }
}

/// The plain identifiers among a block's parameters.
pub open spec fn block_parameters_of(t: SyntaxTree, source: Seq<char>, block: usize) -> Seq<Seq<char>> {
    match field_child(t, block, "parameters"@) {
        Some(params) => identifier_texts(t, source, children_of(t, params)),
        None => seq![],
    }
}

/// The plain identifiers among a block's parameters.
fn extract_block_parameters(t: &SyntaxTree, source: &str, block: usize) -> (r: Vec<String>)
    ensures
        views(r@) == block_parameters_of(*t, source@, block),
{
    let mut names: Vec<String> = Vec::new();
    let params = match t.child_by_field(block, "parameters") {
        Some(p) => p,
        None => {
            assert(views(names@) =~= seq![]);
            return names;
        },
    };
    let ghost cs = children_of(*t, params);
    let cnt = t.child_count(params);
    let mut i: usize = 0;
    assert(views(names@) =~= identifier_texts(*t, source@, cs.subrange(0, 0)));
    while i < cnt
        invariant
            cnt == super::syntax::children_of(*t, params).len(),
            cs == children_of(*t, params),
            i <= cnt,
            views(names@) == identifier_texts(*t, source@, cs.subrange(0, i as int)),
        decreases cnt - i,
    {
        let child = t.child(params, i);
        assert(cs.subrange(0, i + 1).drop_last() =~= cs.subrange(0, i as int));
        if t.kind_is(child, "identifier") {
            if let Some(x) = node_text(t, child, source) {
                let ghost before = names@;
                names.push(x);
                assert(views(names@) =~= views(before).push(x@));
            }
        }
        i += 1;
    }
    assert(cs.subrange(0, i as int) =~= cs);
    names
}

/// The name and literal value of an assignment `name = literal`.
fn extract_string_assignment(t: &SyntaxTree, source: &str, node: usize) -> (r: Option<(String, String)>)
    ensures
        match r {
            Some(p) => assignment_of(*t, source@, node) == Some((p.0@, p.1@)),
            None => assignment_of(*t, source@, node) is None,
        },
{
    let left = t.child_by_field(node, "left")?;
    let right = t.child_by_field(node, "right")?;
    if !t.kind_is(left, "identifier") && !t.kind_is(left, "constant") {
        return None;
    }
    let name = node_text(t, left, source)?;
    let value = literal_atom_text(t, source, right)?;
    Some((name, value))
}

/// Whether a placeholder is already bound.
fn bound(subs: &Vec<(String, String)>, p: &str) -> (r: bool)
    ensures
        r == exists|k: int| 0 <= k < subs@.len() && (#[trigger] subs@[k]).0@ == p@,
{
    let mut i: usize = 0;
    while i < subs.len()
        invariant
            i <= subs@.len(),
            forall|k: int| 0 <= k < i ==> (#[trigger] subs@[k]).0@ != p@,
        decreases subs@.len() - i,
    {
        if str_eq(subs[i].0.as_str(), p) {
            return true;
        }
        i += 1;
    }
    false
}

/// The literal assignments visible from `node`: earlier siblings of it
/// and of its ancestors, the closest binding of each name first.
/// The texts of substitution pairs.
pub open spec fn sub_views(v: Seq<(String, String)>) -> Seq<(Seq<char>, Seq<char>)> {
    Seq::new(v.len(), |i: int| (v[i].0@, v[i].1@))
}

/// `acc` with the binding of an assignment added under its placeholder,
/// unless that placeholder is bound already.
pub open spec fn add_binding(acc: Seq<(Seq<char>, Seq<char>)>, b: Option<(Seq<char>, Seq<char>)>) -> Seq<(Seq<char>, Seq<char>)> {
    match b {
        Some((n, v)) => {
            let p = "#{"@ + n + "}"@;
            if exists|k: int| 0 <= k < acc.len() && (#[trigger] acc[k]).0 == p {
                acc
            } else {
                acc.push((p, v))
            }
        },
        None => acc,
    }
}

/// The bindings gathered walking back over the siblings from `sib` (for
/// at most `steps` of them).
pub open spec fn side_walk(t: SyntaxTree, source: Seq<char>, sib: Option<usize>, acc: Seq<(Seq<char>, Seq<char>)>, steps: nat) -> Seq<(Seq<char>, Seq<char>)>
    decreases steps,
{
    if steps == 0 {
        acc
    } else {
        match sib {
            None => acc,
            Some(x) => {
                let acc2 = if kind_of(t, x) == "assignment"@ { add_binding(acc, assignment_of(t, source, x)) } else { acc };
                side_walk(t, source, prev_of(t, x), acc2, (steps - 1) as nat)
            },
        }
    }
}

/// The bindings gathered from the earlier siblings of `cursor` and of each
/// of its ancestors in turn (for at most `up` levels).
pub open spec fn scope_walk(t: SyntaxTree, source: Seq<char>, cursor: Option<usize>, acc: Seq<(Seq<char>, Seq<char>)>, up: nat) -> Seq<(Seq<char>, Seq<char>)>
    decreases up,
{
    if up == 0 {
        acc
    } else {
        match cursor {
            None => acc,
            Some(n) => scope_walk(t, source, parent_of(t, n), side_walk(t, source, prev_of(t, n), acc, t.nodes@.len() as nat), (up - 1) as nat),
        }
    }
}

fn collect_in_scope_assignments(t: &SyntaxTree, source: &str, node: usize) -> (r: Vec<(String, String)>)
    ensures
        sub_views(r@) == scope_walk(*t, source@, Some(node), seq![], t.nodes@.len() as nat),
{
    let mut assignments: Vec<(String, String)> = Vec::new();
    let mut cursor = Some(node);
    let mut up = t.nodes.len();
    let ghost total = scope_walk(*t, source@, Some(node), seq![], t.nodes@.len() as nat);
    assert(sub_views(assignments@) =~= seq![]);
    while up > 0
        invariant
            total == scope_walk(*t, source@, cursor, sub_views(assignments@), up as nat),
        ensures
            total == sub_views(assignments@),
        decreases up,
    {
        up -= 1;
        let n = match cursor {
            Some(x) => x,
            None => break,
        };
        let mut prev = t.prev_sibling(n);
        let mut side = t.nodes.len();
        let ghost target = side_walk(*t, source@, prev_of(*t, n), sub_views(assignments@), t.nodes@.len() as nat);
        while side > 0
            invariant
                target == side_walk(*t, source@, prev, sub_views(assignments@), side as nat),
            ensures
                target == sub_views(assignments@),
            decreases side,
        {
            side -= 1;
            let sib = match prev {
                Some(x) => x,
                None => break,
            };
            let ghost a0 = sub_views(assignments@);
            if t.kind_is(sib, "assignment") {
                if let Some((name, value)) = extract_string_assignment(t, source, sib) {
                    let p = placeholder(name.as_str());
                    if !bound(&assignments, p.as_str()) {
                        let ghost before = assignments@;
                        assignments.push((p, value));
                        assert(sub_views(assignments@) =~= sub_views(before).push((p@, value@)));
                        assert forall|k: int| 0 <= k < a0.len() implies (#[trigger] a0[k]).0 != p@ by {
                            assert(a0[k].0 == before[k].0@);
                        }
                    } else {
                        proof {
                            let k = choose|k: int| 0 <= k < assignments@.len() && (#[trigger] assignments@[k]).0@ == p@;
                            assert(a0[k].0 == p@);
                        }
                    }
                }
            }
            prev = t.prev_sibling(sib);
        }
        cursor = t.parent(n);
    }
    assignments
}

/// `name` with each placeholder of `subs` replaced by its value, in order.
pub open spec fn replace_all(name: Seq<char>, subs: Seq<(Seq<char>, Seq<char>)>) -> Seq<char>
    decreases subs.len(),
{
    if subs.len() == 0 {
        name
    } else {
        crate::text::replace_seq(replace_all(name, subs.drop_last()), subs.last().0, subs.last().1)
    }
}

/// `r` is `s` with every dynamic name substituted by `subs`, and the same
/// data otherwise, node for node.
pub open spec fn subst_rel(s: SpecNode, subs: Seq<(Seq<char>, Seq<char>)>, r: SpecNode) -> bool
    decreases s,
{
    &&& r.name@ == if s.name_is_dynamic { replace_all(s.name@, subs) } else { s.name@ }
    &&& r.kind == s.kind
    &&& r.line == s.line
    &&& r.name_is_dynamic == s.name_is_dynamic
    &&& super::same_params(r.parameterized, s.parameterized)
    &&& r.children@.len() == s.children@.len()
    &&& forall|k: int| 0 <= k < s.children@.len() ==> subst_rel(#[trigger] s.children@[k], subs, r.children@[k])
}

/// A copy of a spec tree in which every dynamic name has each placeholder
/// of `subs` replaced by its value, in order.
fn substitute_spec_name(spec: &SpecNode, subs: &Vec<(String, String)>) -> (r: SpecNode)
    ensures
        subst_rel(*spec, sub_views(subs@), r),
        r.kind == spec.kind,
        r.line == spec.line,
        r.name_is_dynamic == spec.name_is_dynamic,
        !spec.name_is_dynamic ==> r.name@ == spec.name@,
        r.children@.len() == spec.children@.len(),
        well_formed_node(*spec) ==> well_formed_node(r),
    decreases spec,
{
    let mut name = owned(spec.name.as_str());
    if spec.name_is_dynamic {
        let ghost sv = sub_views(subs@);
        let mut i: usize = 0;
        assert(sv.subrange(0, 0) =~= Seq::<(Seq<char>, Seq<char>)>::empty());
        while i < subs.len()
            invariant
                i <= subs@.len(),
                sv == sub_views(subs@),
                name@ == replace_all(spec.name@, sv.subrange(0, i as int)),
            decreases subs@.len() - i,
        {
            assert(sv.subrange(0, i + 1).drop_last() =~= sv.subrange(0, i as int));
            name = replace_str(name.as_str(), subs[i].0.as_str(), subs[i].1.as_str());
            i += 1;
        }
        assert(sv.subrange(0, i as int) =~= sv);
    }
    SpecNode {
        name,
        kind: spec.kind,
        children: substitute_forest(&spec.children, subs),
        line: spec.line,
        parameterized: super::copy_params(&spec.parameterized),
        name_is_dynamic: spec.name_is_dynamic,
    }
}

/// `substitute_spec_name` on each tree of a forest.
fn substitute_forest(v: &Vec<SpecNode>, subs: &Vec<(String, String)>) -> (r: Vec<SpecNode>)
    ensures
        r@.len() == v@.len(),
        forall|k: int| 0 <= k < v@.len() ==> subst_rel(#[trigger] v@[k], sub_views(subs@), r@[k]),
        forall|k: int| 0 <= k < v@.len() && well_formed_node(v@[k]) ==> well_formed_node(#[trigger] r@[k]),
    decreases v@,
{
    let mut out: Vec<SpecNode> = Vec::new();
    let mut i: usize = 0;
    while i < v.len()
        invariant
            i <= v@.len(),
            out@.len() == i,
            forall|k: int| 0 <= k < i && well_formed_node(v@[k]) ==> well_formed_node(#[trigger] out@[k]),
            forall|k: int| 0 <= k < i ==> subst_rel(#[trigger] v@[k], sub_views(subs@), out@[k]),
        decreases v@.len() - i,
    {
        proof {
            assert(decreases_to!(v@ => v@[i as int]));
        }
        out.push(substitute_spec_name(&v[i], subs));
        i += 1;
    }
    out
}

// ---------------------------------------------------------------------------
// Shared examples and inheritance
// ---------------------------------------------------------------------------

/// A shared example inclusion: the included specs (inline, or nested in a
/// group), or a placeholder when no registry is given. `None` when the
/// node is no inclusion or the included group is unknown.
/// The first inclusion description of the node's kind and method, with
/// the included name (none when the name cannot be read).
pub open spec fn inclusion_match(t: SyntaxTree, source: Seq<char>, node: usize, m: Seq<char>, defs: Seq<SharedInclusionDef>) -> Option<Option<(SharedInclusionDef, Seq<char>)>>
    decreases defs.len(),
{
    if defs.len() == 0 {
        None
    } else {
        let d = defs[0];
        if kind_of(t, node) == d.ast_type@ && (exists|k: int| 0 <= k < d.method_names@.len() && (#[trigger] d.method_names@[k])@ == m) {
            Some(match name_of(t, node, source, d.name_source@, opt_text(d.name_source_type)) {
                Some(n) => Some((d, n)),
                None => None,
            })
        } else {
            inclusion_match(t, source, node, m, defs.subrange(1, defs.len() as int))
        }
    }
}

/// The inclusion at `node`, if it is one: its description and the
/// included name.
pub open spec fn inclusion_at(c: Ctx, node: usize) -> Option<(SharedInclusionDef, Seq<char>)> {
    match c.framework.shared {
        None => None,
        Some(sd) => if !dsl_call_kind(kind_of(*c.tree, node)) {
            None
        } else {
            match method_name_of(*c.tree, node, c.source@, c.tree.nodes@.len() as nat) {
                None => None,
                Some(m) => match inclusion_match(*c.tree, c.source@, node, m, sd.inclusion@) {
                    Some(x) => x,
                    None => None,
                },
            }
        },
    }
}

/// The inclusion nests its specs in a group.
pub open spec fn nests(d: SharedInclusionDef) -> bool {
    d.nesting matches Some(x) && x@ == "nested"@
}

/// The name an inclusion shows: the template with `{name}` replaced when
/// it nests, else the included name.
pub open spec fn included_group_name(d: SharedInclusionDef, n: Seq<char>) -> Seq<char> {
    if nests(d) {
        crate::text::replace_seq(
            match d.nested_name_template {
                Some(x) => x@,
                None => "{name}"@,
            },
            "{name}"@,
            n,
        )
    } else {
        n
    }
}

/// The name of the node at `node` is read from an interpolating string.
pub open spec fn dynamic_name(t: SyntaxTree, node: usize, name_source: Seq<char>) -> bool {
    name_source == "first_argument"@ && match first_argument_of(t, node) {
        Some(a) => interpolates(t, a),
        None => false,
    }
}

/// What an inclusion gives: without a registry, one placeholder node;
/// with one, the included group's specs (nested in a group when the
/// inclusion nests), or nothing when the group is unknown.
pub open spec fn inclusion_result(c: Ctx, node: usize, r: Option<Seq<SpecNode>>) -> bool {
    match inclusion_at(c, node) {
        None => r is None,
        Some((d, n)) => {
            let g = included_group_name(d, n);
            let dynamic = dynamic_name(*c.tree, node, d.name_source@);
            match c.shared {
                None => r matches Some(v) && v.len() == 1 && v[0].name@ == "\u{2026} "@ + g && v[0].kind == SpecKind::SharedInclusion
                    && v[0].children@.len() == 0 && v[0].line == line_at(*c.tree, node) && v[0].parameterized is None
                    && v[0].name_is_dynamic == dynamic,
                Some(reg) => if !reg.definitions_map().contains_key(n) {
                    r is None
                } else if nests(d) {
                    r matches Some(v) && v.len() == 1 && v[0].name@ == g && v[0].kind == SpecKind::Group && same_forest(
                        v[0].children@,
                        reg.definitions_map()[n]@,
                    ) && v[0].line == line_at(*c.tree, node) && v[0].parameterized is None && v[0].name_is_dynamic == dynamic
                } else {
                    r matches Some(v) && same_forest(v, reg.definitions_map()[n]@)
                },
            }
        },
    }
}

fn try_match_inclusion(c: &Ctx, node: usize) -> (r: Option<Vec<SpecNode>>)
    requires
        ctx_ok(*c),
    ensures
        shared_well_formed(c.shared) ==> (r matches Some(v) ==> well_formed_forest(v@)),
        inclusion_result(*c, node, match r {
            Some(v) => Some(v@),
            None => None,
        }),
{
    let t = c.tree;
    let shared_def = c.framework.shared.as_ref()?;
    if !is_dsl_call_kind(t.kind(node)) {
        return None;
    }
    let method_name = extract_method_name(t, node, c.source)?;
    let defs = &shared_def.inclusion;
    let ghost all = defs@;
    let mut i: usize = 0;
    assert(all.subrange(0, all.len() as int) =~= all);
    while i < defs.len()
        invariant
            ctx_ok(*c),
            i <= defs@.len(),
            all == defs@,
            all == shared_def.inclusion@,
            *t == *c.tree,
            c.framework.shared == Some(*shared_def),
            dsl_call_kind(kind_of(*t, node)),
            method_name_of(*t, node, c.source@, t.nodes@.len() as nat) == Some(method_name@),
            inclusion_match(*t, c.source@, node, method_name@, all) == inclusion_match(*t, c.source@, node, method_name@, all.subrange(i as int, all.len() as int)),
        decreases defs@.len() - i,
    {
        let inclusion = &defs[i];
        proof {
            let rr = all.subrange(i as int, all.len() as int);
            assert(rr.subrange(1, rr.len() as int) =~= all.subrange(i + 1, all.len() as int));
            assert(rr[0] == all[i as int]);
            let d = all[i as int];
            assert(inclusion_match(*t, c.source@, node, method_name@, rr) == if kind_of(*t, node) == d.ast_type@ && (exists|k: int|
                0 <= k < d.method_names@.len() && (#[trigger] d.method_names@[k])@ == method_name@) {
                Some(match name_of(*t, node, c.source@, d.name_source@, opt_text(d.name_source_type)) {
                    Some(n) => Some((d, n)),
                    None => None,
                })
            } else {
                inclusion_match(*t, c.source@, node, method_name@, all.subrange(i + 1, all.len() as int))
            });
        }
        i += 1;
        if !t.kind_is(node, inclusion.ast_type.as_str()) {
            continue;
        }
        if !contains_str(&inclusion.method_names, method_name.as_str()) {
            continue;
        }
        let source_type = match &inclusion.name_source_type {
            Some(x) => Some(x.as_str()),
            None => None,
        };
        assert(inclusion_match(*t, c.source@, node, method_name@, all) == Some(match name_of(*t, node, c.source@, inclusion.name_source@, opt_text(inclusion.name_source_type)) {
            Some(n) => Some((*inclusion, n)),
            None => None,
        }));
        assert(opt_str(source_type) == opt_text(inclusion.name_source_type));
        let name = extract_name(t, node, c.source, inclusion.name_source.as_str(), source_type)?;
        assert(name_of(*t, node, c.source@, inclusion.name_source@, opt_text(inclusion.name_source_type)) == Some(name@));
        assert(inclusion_match(*t, c.source@, node, method_name@, all) == Some(Some((*inclusion, name@))));
        assert(inclusion_at(*c, node) == Some((*inclusion, name@)));
        let dynamic = name_source_is_dynamic(t, node, inclusion.name_source.as_str());
        let nested = opt_is(&inclusion.nesting, "nested");
        let group_name = if nested {
            let template = match &inclusion.nested_name_template {
                Some(x) => owned(x.as_str()),
                None => owned("{name}"),
            };
            replace_str(template.as_str(), "{name}", name.as_str())
        } else {
            owned(name.as_str())
        };
        match c.shared {
            None => {
                let display = concat("\u{2026} ", group_name.as_str());
                let mut r: Vec<SpecNode> = Vec::new();
                r.push(new_node(display, SpecKind::SharedInclusion, Vec::new(), line_of(t, node), None, dynamic));
                return Some(r);
            },
            Some(registry) => {
                let specs = registry.get(name.as_str())?;
                let copies = copy_forest(specs);
                proof {
                    if shared_well_formed(c.shared) {
                        lemma_same_forest_well_formed(copies@, specs@);
                    }
                }
                if nested {
                    let mut r: Vec<SpecNode> = Vec::new();
                    r.push(new_node(group_name, SpecKind::Group, copies, line_of(t, node), None, dynamic));
                    return Some(r);
                }
                return Some(copies);
            },
        }
    }
    assert(all.subrange(i as int, all.len() as int).len() == 0);
    None
}

/// The body of a type declaration, by the framework's syntax kinds: the
/// child under the body field when there is one, else the first child of
/// the body kind when one is named, else the child under `body`.
pub open spec fn type_body_of(t: SyntaxTree, fw: FrameworkDef, node: usize) -> Option<usize> {
    match fw.ast_kinds {
        None => None,
        Some(ast) => {
            let by_field = match ast.body_field {
                Some(f) => field_child(t, node, f@),
                None => None,
            };
            if by_field is Some {
                by_field
            } else {
                match ast.body_child {
                    Some(k) => child_of_kind_spec(t, node, k@),
                    None => field_child(t, node, "body"@),
                }
            }
        },
    }
}

/// The body of a type declaration, by the framework's syntax kinds.
fn find_type_body(c: &Ctx, node: usize) -> (r: Option<usize>)
    ensures
        r == type_body_of(*c.tree, *c.framework, node),
{
    let ast = c.framework.ast_kinds.as_ref()?;
    if let Some(field) = &ast.body_field {
        if let Some(body) = c.tree.child_by_field(node, field.as_str()) {
            return Some(body);
        }
    }
    if let Some(kind) = &ast.body_child {
        return child_of_kind(c.tree, node, kind.as_str());
    }
    c.tree.child_by_field(node, "body")
}

/// The names of the types a type declaration inherits from.
fn collect_refs(c: &Ctx, node: usize, inheritance: &InheritanceDef) -> (r: Vec<String>)
    ensures
        views(r@) == detected_refs(*c.tree, c.source@, node, type_body_of(*c.tree, *c.framework, node), inheritance.ref_detection@, true),
{
    let t = c.tree;
    let mut refs: Vec<String> = Vec::new();
    let dets = &inheritance.ref_detection;
    let ghost body0 = type_body_of(*c.tree, *c.framework, node);
    let mut d: usize = 0;
    assert(views(refs@) =~= detected_refs(*t, c.source@, node, body0, dets@.subrange(0, 0), true));
    while d < dets.len()
        invariant
            d <= dets@.len(),
            *t == *c.tree,
            body0 == type_body_of(*c.tree, *c.framework, node),
            views(refs@) == detected_refs(*t, c.source@, node, body0, dets@.subrange(0, d as int), true),
        decreases dets@.len() - d,
    {
        let det = &dets[d];
        assert(dets@.subrange(0, d + 1).drop_last() =~= dets@.subrange(0, d as int));
        d += 1;
        if str_eq(det.strategy.as_str(), "superclass_args") {
            push_superclass_refs(&mut refs, t, c.source, node, det);
        } else if str_eq(det.strategy.as_str(), "method_call") {
            match find_type_body(c, node) {
                Some(b) => push_call_refs(&mut refs, t, c.source, b, det, true),
                None => {
                    assert(views(refs@) =~= views(refs@) + Seq::<Seq<char>>::empty());
                },
            }
        } else {
            assert(views(refs@) =~= views(refs@) + Seq::<Seq<char>>::empty());
        }
    }
    assert(dets@.subrange(0, d as int) =~= dets@);
    refs
}

/// The kind of node `n` is one of `kinds`.
pub open spec fn kind_among(t: SyntaxTree, n: usize, kinds: Seq<String>) -> bool {
    exists|k: int| 0 <= k < kinds.len() && (#[trigger] kinds[k])@ == kind_of(t, n)
}

/// The texts, in order, of the nodes among `cs` whose kind is one of
/// `kinds` and whose text can be had.
pub open spec fn texts_of_kinds(t: SyntaxTree, source: Seq<char>, cs: Seq<usize>, kinds: Seq<String>) -> Seq<Seq<char>>
    decreases cs.len(),
{
    if cs.len() == 0 {
        seq![]
    } else {
        let rest = texts_of_kinds(t, source, cs.drop_last(), kinds);
        if kind_among(t, cs.last(), kinds) && text_of(t, cs.last(), source) is Some {
            rest.push(text_of(t, cs.last(), source).unwrap())
        } else {
            rest
        }
    }
}

/// A node holding superclass arguments for `det`: of one of its container
/// kinds, or of an argument list kind when it names none.
pub open spec fn ref_container(t: SyntaxTree, c: usize, det: RefDetectionDef) -> bool {
    if det.container_kinds@.len() == 0 {
        kind_of(t, c) == "argument_list"@ || kind_of(t, c) == "superclasses"@ || kind_of(t, c) == "base_clause"@
    } else {
        kind_among(t, c, det.container_kinds@)
    }
}

/// The inherited names in the superclass argument lists among `cs`.
pub open spec fn superclass_refs(t: SyntaxTree, source: Seq<char>, cs: Seq<usize>, det: RefDetectionDef) -> Seq<Seq<char>>
    decreases cs.len(),
{
    if cs.len() == 0 {
        seq![]
    } else {
        superclass_refs(t, source, cs.drop_last(), det) + if ref_container(t, cs.last(), det) {
            texts_of_kinds(t, source, children_of(t, cs.last()), det.arg_kinds@)
        } else {
            seq![]
        }
    }
}

/// A call node: of a DSL call kind when `any_call`, else `call` or
/// `call_expression`.
pub open spec fn ref_call_kind(k: Seq<char>, any_call: bool) -> bool {
    if any_call { dsl_call_kind(k) } else { k == "call"@ || k == "call_expression"@ }
}

/// The inherited names given to calls of the detection's methods among
/// `cs`.
pub open spec fn call_refs(t: SyntaxTree, source: Seq<char>, cs: Seq<usize>, det: RefDetectionDef, any_call: bool) -> Seq<Seq<char>>
    decreases cs.len(),
{
    if cs.len() == 0 {
        seq![]
    } else {
        let c = cs.last();
        call_refs(t, source, cs.drop_last(), det, any_call) + if ref_call_kind(kind_of(t, c), any_call) && (method_name_of(
            t,
            c,
            source,
            t.nodes@.len() as nat,
        ) matches Some(m) && (exists|k: int| 0 <= k < det.method_names@.len() && (#[trigger] det.method_names@[k])@ == m)
            && arguments_of(t, c) is Some) {
            texts_of_kinds(t, source, children_of(t, arguments_of(t, c).unwrap()), det.arg_kinds@)
        } else {
            seq![]
        }
    }
}

/// The inherited names one detection finds for the type at `node` with
/// body `body`.
pub open spec fn det_refs(t: SyntaxTree, source: Seq<char>, node: usize, body: Option<usize>, det: RefDetectionDef, any_call: bool) -> Seq<Seq<char>> {
    if det.strategy@ == "superclass_args"@ {
        superclass_refs(t, source, children_of(t, node), det)
    } else if det.strategy@ == "method_call"@ {
        match body {
            Some(b) => call_refs(t, source, children_of(t, b), det, any_call),
            None => seq![],
        }
    } else {
        seq![]
    }
}

/// The inherited names all detections find, in order.
pub open spec fn detected_refs(t: SyntaxTree, source: Seq<char>, node: usize, body: Option<usize>, dets: Seq<RefDetectionDef>, any_call: bool) -> Seq<Seq<char>>
    decreases dets.len(),
{
    if dets.len() == 0 {
        seq![]
    } else {
        detected_refs(t, source, node, body, dets.drop_last(), any_call) + det_refs(t, source, node, body, dets.last(), any_call)
    }
}

/// Appends the texts of the children of `parent` whose kind is one of
/// `kinds`.
pub(crate) fn push_texts_of_kinds(refs: &mut Vec<String>, t: &SyntaxTree, source: &str, parent: usize, kinds: &Vec<String>)
    ensures
        views(final(refs)@) == views(old(refs)@) + texts_of_kinds(*t, source@, children_of(*t, parent), kinds@),
{
    let ghost cs = children_of(*t, parent);
    let ghost base = views(refs@);
    let acnt = t.child_count(parent);
    let mut j: usize = 0;
    assert(base + texts_of_kinds(*t, source@, cs.subrange(0, 0), kinds@) =~= base);
    while j < acnt
        invariant
            acnt == cs.len(),
            cs == children_of(*t, parent),
            j <= acnt,
            base == views(old(refs)@),
            views(refs@) == base + texts_of_kinds(*t, source@, cs.subrange(0, j as int), kinds@),
        decreases acnt - j,
    {
        let arg = t.child(parent, j);
        assert(cs.subrange(0, j + 1).drop_last() =~= cs.subrange(0, j as int));
        let ghost r0 = refs@;
        if kind_in(t, arg, kinds) {
            if let Some(x) = node_text(t, arg, source) {
                refs.push(x);
                assert(views(refs@) =~= views(r0).push(x@));
            }
        }
        j += 1;
        assert(views(refs@) =~= base + texts_of_kinds(*t, source@, cs.subrange(0, j as int), kinds@));
    }
    assert(cs.subrange(0, j as int) =~= cs);
}

/// Appends the inherited names in the superclass argument lists among the
/// children of `node`.
pub(crate) fn push_superclass_refs(refs: &mut Vec<String>, t: &SyntaxTree, source: &str, node: usize, det: &RefDetectionDef)
    ensures
        views(final(refs)@) == views(old(refs)@) + superclass_refs(*t, source@, children_of(*t, node), *det),
{
    let ghost cs = children_of(*t, node);
    let ghost base = views(refs@);
    let cnt = t.child_count(node);
    let mut i: usize = 0;
    assert(base + superclass_refs(*t, source@, cs.subrange(0, 0), *det) =~= base);
    while i < cnt
        invariant
            cnt == cs.len(),
            cs == children_of(*t, node),
            i <= cnt,
            base == views(old(refs)@),
            views(refs@) == base + superclass_refs(*t, source@, cs.subrange(0, i as int), *det),
        decreases cnt - i,
    {
        let child = t.child(node, i);
        assert(cs.subrange(0, i + 1).drop_last() =~= cs.subrange(0, i as int));
        let ghost r0 = views(refs@);
        let container = if det.container_kinds.len() == 0 {
            t.kind_is(child, "argument_list") || t.kind_is(child, "superclasses") || t.kind_is(child, "base_clause")
        } else {
            kind_in(t, child, &det.container_kinds)
        };
        if container {
            push_texts_of_kinds(refs, t, source, child, &det.arg_kinds);
        } else {
            assert(r0 + Seq::<Seq<char>>::empty() =~= r0);
        }
        i += 1;
        assert(views(refs@) =~= base + superclass_refs(*t, source@, cs.subrange(0, i as int), *det));
    }
    assert(cs.subrange(0, i as int) =~= cs);
}

/// Appends the inherited names given to calls of the detection's methods
/// among the children of `body`.
pub(crate) fn push_call_refs(refs: &mut Vec<String>, t: &SyntaxTree, source: &str, body: usize, det: &RefDetectionDef, any_call: bool)
    ensures
        views(final(refs)@) == views(old(refs)@) + call_refs(*t, source@, children_of(*t, body), *det, any_call),
{
    let ghost cs = children_of(*t, body);
    let ghost base = views(refs@);
    let cnt = t.child_count(body);
    let mut i: usize = 0;
    assert(base + call_refs(*t, source@, cs.subrange(0, 0), *det, any_call) =~= base);
    while i < cnt
        invariant
            cnt == cs.len(),
            cs == children_of(*t, body),
            i <= cnt,
            base == views(old(refs)@),
            views(refs@) == base + call_refs(*t, source@, cs.subrange(0, i as int), *det, any_call),
        decreases cnt - i,
    {
        let child = t.child(body, i);
        assert(cs.subrange(0, i + 1).drop_last() =~= cs.subrange(0, i as int));
        let ghost r0 = views(refs@);
        i += 1;
        let is_call = if any_call {
            is_dsl_call_kind(t.kind(child))
        } else {
            t.kind_is(child, "call") || t.kind_is(child, "call_expression")
        };
        if is_call {
            match extract_method_name(t, child, source) {
                Some(method) => {
                    if contains_str(&det.method_names, method.as_str()) {
                        match find_arguments(t, child) {
                            Some(args) => push_texts_of_kinds(refs, t, source, args, &det.arg_kinds),
                            None => {
                                assert(r0 + Seq::<Seq<char>>::empty() =~= r0);
                            },
                        }
                    } else {
                        assert(r0 + Seq::<Seq<char>>::empty() =~= r0);
                    }
                },
                None => {
                    assert(r0 + Seq::<Seq<char>>::empty() =~= r0);
                },
            }
        } else {
            assert(r0 + Seq::<Seq<char>>::empty() =~= r0);
        }
        assert(views(refs@) =~= base + call_refs(*t, source@, cs.subrange(0, i as int), *det, any_call));
    }
    assert(cs.subrange(0, i as int) =~= cs);
}

/// The specs a type inherits, resolved through the registry; a dotted or
/// scoped name falls back to its last segment.
fn inherited_specs(c: &Ctx, node: usize) -> (r: Vec<SpecNode>)
    requires
        ctx_ok(*c),
    ensures
        shared_well_formed(c.shared) ==> well_formed_forest(r@),
        same_forest(r@, inherited_of(*c, node)),
{
    let mut specs: Vec<SpecNode> = Vec::new();
    let registry = match c.shared {
        Some(r) => r,
        None => return specs,
    };
    let inheritance = match &c.framework.inheritance {
        Some(i) => i,
        None => return specs,
    };
    if !inheritance.enabled {
        return specs;
    }
    let refs = collect_refs(c, node, inheritance);
    let ghost names = views(refs@);
    let mut i: usize = 0;
    assert(names.subrange(0, 0) =~= Seq::<Seq<char>>::empty());
    proof {
        lemma_same_forest_refl(specs@);
    }
    while i < refs.len()
        invariant
            registry.wf(),
            c.shared == Some(registry),
            i <= refs@.len(),
            names == views(refs@),
            shared_well_formed(c.shared) ==> well_formed_forest(specs@),
            same_forest(specs@, refs_specs(*registry, names.subrange(0, i as int))),
            inherited_of(*c, node) == refs_specs(*registry, names),
        decreases refs@.len() - i,
    {
        let r = refs[i].as_str();
        let ghost s0 = specs@;
        let ghost acc = refs_specs(*registry, names.subrange(0, i as int));
        assert(names.subrange(0, i + 1).drop_last() =~= names.subrange(0, i as int));
        assert(names.subrange(0, i + 1).last() == r@);
        let ghost one = ref_specs(*registry, r@);
        i += 1;
        let resolved = registry.resolve_type(r);
        if resolved.len() > 0 {
            let ghost rv = resolved@;
            extend(&mut specs, resolved);
            proof {
                lemma_same_forest_concat(s0, acc, rv, one);
            }
            continue;
        }
        let tail_dot = last_segment(r, ".");
        if !str_eq(tail_dot.as_str(), r) {
            let tail_resolved = registry.resolve_type(tail_dot.as_str());
            if tail_resolved.len() > 0 {
                let ghost rv = tail_resolved@;
                extend(&mut specs, tail_resolved);
                proof {
                    lemma_same_forest_concat(s0, acc, rv, one);
                }
                continue;
            }
        }
        let tail_scope = last_segment(r, "::");
        if !str_eq(tail_scope.as_str(), r) {
            let tail_resolved = registry.resolve_type(tail_scope.as_str());
            if tail_resolved.len() > 0 {
                let ghost rv = tail_resolved@;
                extend(&mut specs, tail_resolved);
                proof {
                    lemma_same_forest_concat(s0, acc, rv, one);
                }
            } else {
                assert(one.len() == 0);
                assert(acc + one =~= acc);
            }
        } else {
            assert(one =~= Seq::<SpecNode>::empty());
            assert(acc + one =~= acc);
        }
    }
    assert(names.subrange(0, i as int) =~= names);
    specs
}

/// What resolving a type name gives.
pub open spec fn resolve_of(reg: SharedExampleRegistry, name: Seq<char>) -> Seq<SpecNode> {
    resolved(reg, name, seq![], reg.refs_map().dom().len()).1
}

/// The specs inherited through one reference: its own resolution, else
/// that of its last dotted segment, else that of its last scoped segment.
pub open spec fn ref_specs(reg: SharedExampleRegistry, r: Seq<char>) -> Seq<SpecNode> {
    if resolve_of(reg, r).len() > 0 {
        resolve_of(reg, r)
    } else if after_last(r, "."@) != r && resolve_of(reg, after_last(r, "."@)).len() > 0 {
        resolve_of(reg, after_last(r, "."@))
    } else if after_last(r, "::"@) != r {
        resolve_of(reg, after_last(r, "::"@))
    } else {
        seq![]
    }
}

/// The specs inherited through the references, in order.
pub open spec fn refs_specs(reg: SharedExampleRegistry, refs: Seq<Seq<char>>) -> Seq<SpecNode>
    decreases refs.len(),
{
    if refs.len() == 0 {
        seq![]
    } else {
        refs_specs(reg, refs.drop_last()) + ref_specs(reg, refs.last())
    }
}

/// The specs a type declaration inherits, when a registry is given and the
/// framework resolves inherited types.
pub open spec fn inherited_of(c: Ctx, node: usize) -> Seq<SpecNode> {
    match c.shared {
        None => seq![],
        Some(reg) => match c.framework.inheritance {
            None => seq![],
            Some(inh) => if !inh.enabled {
                seq![]
            } else {
                refs_specs(*reg, detected_refs(*c.tree, c.source@, node, type_body_of(*c.tree, *c.framework, node), inh.ref_detection@, true))
            },
        },
    }
}

// ---------------------------------------------------------------------------
// Nested discovery (`t.Run`)
// ---------------------------------------------------------------------------

/// What the first nested-discovery description of the node's kind
/// decides: the sub-test's name and whether it interpolates, or none (the
/// search stops); descriptions whose call text differs are passed over.
pub open spec fn nested_decision(t: SyntaxTree, source: Seq<char>, node: usize, defs: Seq<NestedDiscoveryDef>) -> Option<Option<(Seq<char>, bool)>>
    decreases defs.len(),
{
    if defs.len() == 0 {
        None
    } else {
        let d = defs[0];
        let rest = nested_decision(t, source, node, defs.subrange(1, defs.len() as int));
        if kind_of(t, node) != d.ast_type@ {
            rest
        } else {
            match field_child(t, node, "function"@) {
                None => Some(None),
                Some(f) => match text_of(t, f, source) {
                    None => Some(None),
                    Some(ft) => match (d.receiver, d.method_name) {
                        (Some(recv), Some(m)) => if ft != recv@ + seq!['.'] + m@ {
                            rest
                        } else {
                            match arguments_of(t, node) {
                                None => Some(None),
                                Some(args) => match nth_where(children_of(t, args), named_pred(t), 0) {
                                    None => Some(None),
                                    Some(first) => match string_content_of(t, first, source) {
                                        None => Some(None),
                                        Some(n) => Some(Some((n, interpolates(t, unwrapped(t, first))))),
                                    },
                                },
                            }
                        },
                        _ => rest,
                    },
                },
            }
        }
    }
}

/// The name, and whether it interpolates, of the nested sub-test call at
/// `node`, if it is one.
pub open spec fn nested_call_at(t: SyntaxTree, source: Seq<char>, fw: FrameworkDef, node: usize) -> Option<(Seq<char>, bool)> {
    match nested_decision(t, source, node, fw.nested_discovery@) {
        Some(x) => x,
        None => None,
    }
}

/// The number of sub-tests found at child `c`: one for a sub-test call,
/// else those below it (within `fuel` levels).
pub open spec fn nested_produced(t: SyntaxTree, source: Seq<char>, fw: FrameworkDef, c: usize, fuel: nat) -> nat
    decreases fuel, 0nat, 0nat,
{
    if nested_call_at(t, source, fw, c) is Some {
        1
    } else if fuel > 0 {
        nested_count(t, source, fw, c, (fuel - 1) as nat)
    } else {
        0
    }
}

/// The number of sub-tests found among the children `cs`.
pub open spec fn nested_count_over(t: SyntaxTree, source: Seq<char>, fw: FrameworkDef, cs: Seq<usize>, fuel: nat) -> nat
    decreases fuel, 1nat, cs.len(),
{
    if cs.len() == 0 {
        0
    } else {
        nested_count_over(t, source, fw, cs.drop_last(), fuel) + nested_produced(t, source, fw, cs.last(), fuel)
    }
}

/// The number of sub-tests found below `node`.
pub open spec fn nested_count(t: SyntaxTree, source: Seq<char>, fw: FrameworkDef, node: usize, fuel: nat) -> nat
    decreases fuel, 2nat, 0nat,
{
    nested_count_over(t, source, fw, children_of(t, node), fuel)
}

/// `x` is the sub-test of the call at `node`: its name, line and
/// interpolation, the sub-tests of its block (within `fuel` levels) as
/// children, a group exactly when it has children.
pub open spec fn nested_node_rel(t: SyntaxTree, source: Seq<char>, fw: FrameworkDef, node: usize, fuel: nat, x: SpecNode) -> bool
    decreases fuel, 0nat, 0nat,
{
    &&& nested_call_at(t, source, fw, node) matches Some(d) && x.name@ == d.0 && x.name_is_dynamic == d.1
    &&& x.line == line_at(t, node)
    &&& x.parameterized is None
    &&& if block_of(t, node) is Some && fuel > 0 {
        nested_forest_rel(t, source, fw, block_of(t, node).unwrap(), (fuel - 1) as nat, x.children@)
    } else {
        x.children@.len() == 0
    }
    &&& x.kind == if x.children@.len() == 0 { SpecKind::Spec } else { SpecKind::Group }
}

/// `r` holds, in order, the sub-tests found among the children `cs`.
pub open spec fn nested_over_rel(t: SyntaxTree, source: Seq<char>, fw: FrameworkDef, cs: Seq<usize>, fuel: nat, r: Seq<SpecNode>) -> bool
    decreases fuel, 1nat, cs.len(),
{
    if cs.len() == 0 {
        r.len() == 0
    } else {
        let k = nested_produced(t, source, fw, cs.last(), fuel);
        &&& r.len() >= k
        &&& nested_over_rel(t, source, fw, cs.drop_last(), fuel, r.subrange(0, r.len() - k))
        &&& if nested_call_at(t, source, fw, cs.last()) is Some {
            nested_node_rel(t, source, fw, cs.last(), fuel, r[r.len() - 1])
        } else if fuel > 0 {
            nested_forest_rel(t, source, fw, cs.last(), (fuel - 1) as nat, r.subrange(r.len() - k, r.len() as int))
        } else {
            true
        }
    }
}

/// `r` holds, in order, the sub-tests found below `node`.
pub open spec fn nested_forest_rel(t: SyntaxTree, source: Seq<char>, fw: FrameworkDef, node: usize, fuel: nat, r: Seq<SpecNode>) -> bool
    decreases fuel, 2nat, 0nat,
{
    nested_over_rel(t, source, fw, children_of(t, node), fuel, r)
}

/// A nested sub-test call (`receiver.method("name", ...)`), with the
/// sub-tests nested in its own block.
fn try_match_nested_call(c: &Ctx, node: usize, fuel: usize) -> (r: Option<SpecNode>)
    ensures
        r matches Some(n) ==> well_formed_node(n),
        match r {
            Some(x) => nested_node_rel(*c.tree, c.source@, *c.framework, node, fuel as nat, x),
            None => nested_call_at(*c.tree, c.source@, *c.framework, node) is None,
        },
    decreases fuel, 1int,
{
    let t = c.tree;
    let defs = &c.framework.nested_discovery;
    let ghost all = defs@;
    let mut i: usize = 0;
    assert(all.subrange(0, all.len() as int) =~= all);
    while i < defs.len()
        invariant
            i <= defs@.len(),
            all == defs@,
            all == c.framework.nested_discovery@,
            *t == *c.tree,
            nested_decision(*t, c.source@, node, all) == nested_decision(*t, c.source@, node, all.subrange(i as int, all.len() as int)),
        decreases defs@.len() - i,
    {
        let nd = &defs[i];
        proof {
            let rr = all.subrange(i as int, all.len() as int);
            assert(rr.subrange(1, rr.len() as int) =~= all.subrange(i + 1, all.len() as int));
            assert(rr[0] == all[i as int]);
        }
        i += 1;
        if !t.kind_is(node, nd.ast_type.as_str()) {
            continue;
        }
        let func = t.child_by_field(node, "function")?;
        let func_text = node_text(t, func, c.source)?;
        let expected = match (&nd.receiver, &nd.method_name) {
            (Some(recv), Some(method)) => {
                let mut v: Vec<char> = Vec::new();
                push_str(&mut v, recv.as_str());
                v.push('.');
                push_str(&mut v, method.as_str());
                assert(v@ =~= recv@ + seq!['.'] + method@);
                string_of(&v)
            },
            _ => continue,
        };
        if !str_eq(func_text.as_str(), expected.as_str()) {
            continue;
        }
        let args = find_arguments(t, node)?;
        let first = t.named_child(args, 0)?;
        let name = extract_string_content(t, c.source, first)?;
        let dynamic = string_node_has_interpolation(t, unwrap_php_argument(t, first));
        assert(nested_call_at(*t, c.source@, *c.framework, node) == Some((name@, dynamic)));
        let nested = match find_block(t, node) {
            Some(b) => {
                if fuel > 0 {
                    find_nested_specs(c, b, fuel - 1)
                } else {
                    Vec::new()
                }
            },
            None => Vec::new(),
        };
        let kind = if nested.len() == 0 {
            SpecKind::Spec
        } else {
            SpecKind::Group
        };
        return Some(new_node(name, kind, nested, line_of(t, node), None, dynamic));
    }
    assert(all.subrange(i as int, all.len() as int).len() == 0);
    None
}

/// The nested sub-tests anywhere below `node`.
fn find_nested_specs(c: &Ctx, node: usize, fuel: usize) -> (r: Vec<SpecNode>)
    ensures
        well_formed_forest(r@),
        nested_forest_rel(*c.tree, c.source@, *c.framework, node, fuel as nat, r@),
        r@.len() == nested_count(*c.tree, c.source@, *c.framework, node, fuel as nat),
    decreases fuel, 2int,
{
    let t = c.tree;
    let ghost cs = children_of(*t, node);
    let ghost src = c.source@;
    let ghost fw = *c.framework;
    let mut results: Vec<SpecNode> = Vec::new();
    let cnt = t.child_count(node);
    let mut i: usize = 0;
    assert(cs.subrange(0, 0) =~= Seq::<usize>::empty());
    while i < cnt
        invariant
            cnt == super::syntax::children_of(*t, node).len(),
            cs == children_of(*t, node),
            *t == *c.tree,
            src == c.source@,
            fw == *c.framework,
            i <= cnt,
            well_formed_forest(results@),
            nested_over_rel(*t, src, fw, cs.subrange(0, i as int), fuel as nat, results@),
            results@.len() == nested_count_over(*t, src, fw, cs.subrange(0, i as int), fuel as nat),
        decreases cnt - i,
    {
        let child = t.child(node, i);
        let ghost r0 = results@;
        let ghost next = cs.subrange(0, i + 1);
        assert(next.drop_last() =~= cs.subrange(0, i as int));
        assert(next.last() == child);
        assert(nested_count_over(*t, src, fw, next, fuel as nat) == nested_count_over(*t, src, fw, cs.subrange(0, i as int), fuel as nat)
            + nested_produced(*t, src, fw, child, fuel as nat));
        i += 1;
        match try_match_nested_call(c, child, fuel) {
            Some(spec) => {
                results.push(spec);
                assert(results@.subrange(0, results@.len() - 1) =~= r0);
            },
            None => {
                if fuel > 0 {
                    let more = find_nested_specs(c, child, fuel - 1);
                    let ghost mv = more@;
                    extend(&mut results, more);
                    assert(results@.subrange(0, results@.len() - mv.len()) =~= r0);
                    assert(results@.subrange(results@.len() - mv.len(), results@.len() as int) =~= mv);
                } else {
                    assert(results@.subrange(0, results@.len() as int) =~= r0);
                }
            },
        }
    }
    assert(cs.subrange(0, i as int) =~= cs);
    results
}

// ---------------------------------------------------------------------------
// Matching nodes
// ---------------------------------------------------------------------------

/// The source type of a name, as a string slice.
fn source_type(o: &Option<String>) -> (r: Option<&str>)
    ensures
        opt_str(r) == opt_text(*o),
{
    match o {
        Some(x) => Some(x.as_str()),
        None => None,
    }
}

/// A DSL group (`describe ... do`) with the specs of its block, or a DSL
/// spec (`it ...`).
fn try_match_dsl_node(c: &Ctx, node: usize, fuel: usize) -> (r: Option<SpecNode>)
    requires
        ctx_ok(*c),
    ensures
        shared_well_formed(c.shared) ==> (r matches Some(n) ==> well_formed_node(n)),
        match r {
            Some(x) => dsl_some(*c, node) && dsl_rel(*c, node, fuel as nat, x),
            None => !dsl_some(*c, node),
        },
    decreases fuel, 1int,
{
    let t = c.tree;
    if !is_dsl_call_kind(t.kind(node)) {
        return None;
    }
    let method_name = extract_method_name(t, node, c.source)?;
    assert(dsl_method(*c, node) == Some(method_name@));
    let groups = &c.framework.group;
    let ghost ga = groups@;
    let mut i: usize = 0;
    assert(ga.subrange(0, ga.len() as int) =~= ga);
    while i < groups.len()
        invariant
            ctx_ok(*c),
            i <= groups@.len(),
            ga == groups@,
            ga == c.framework.group@,
            *t == *c.tree,
            dsl_method(*c, node) == Some(method_name@),
            group_match(*t, c.source@, node, method_name@, ga) == group_match(*t, c.source@, node, method_name@, ga.subrange(i as int, ga.len() as int)),
        decreases groups@.len() - i,
    {
        let def = &groups[i];
        proof {
            let rr = ga.subrange(i as int, ga.len() as int);
            assert(rr.subrange(1, rr.len() as int) =~= ga.subrange(i + 1, ga.len() as int));
            assert(rr[0] == ga[i as int]);
        }
        i += 1;
        if t.kind_is(node, def.ast_type.as_str()) && contains_str(&def.method_names, method_name.as_str()) {
            let ghost nm = name_of(*t, node, c.source@, def.name_source@, opt_text(def.name_source_type));
            if let Some(name) = extract_name(t, node, c.source, def.name_source.as_str(), source_type(&def.name_source_type)) {
                assert(group_match(*t, c.source@, node, method_name@, ga) == Some((*def, name@)));
                let children = match find_block(t, node) {
                    Some(b) => {
                        if fuel > 0 {
                            parse_children_in(c, b, fuel - 1)
                        } else {
                            Vec::new()
                        }
                    },
                    None => Vec::new(),
                };
                let dynamic = name_source_is_dynamic(t, node, def.name_source.as_str());
                return Some(new_node(name, SpecKind::Group, children, line_of(t, node), None, dynamic));
            }
        }
    }
    assert(ga.subrange(i as int, ga.len() as int).len() == 0);
    let specs = &c.framework.spec;
    let ghost sa = specs@;
    let mut j: usize = 0;
    assert(sa.subrange(0, sa.len() as int) =~= sa);
    while j < specs.len()
        invariant
            j <= specs@.len(),
            sa == specs@,
            sa == c.framework.spec@,
            *t == *c.tree,
            dsl_method(*c, node) == Some(method_name@),
            group_match(*t, c.source@, node, method_name@, c.framework.group@) is None,
            spec_match(*t, c.source@, node, method_name@, sa) == spec_match(*t, c.source@, node, method_name@, sa.subrange(j as int, sa.len() as int)),
        decreases specs@.len() - j,
    {
        let def = &specs[j];
        proof {
            let rr = sa.subrange(j as int, sa.len() as int);
            assert(rr.subrange(1, rr.len() as int) =~= sa.subrange(j + 1, sa.len() as int));
            assert(rr[0] == sa[j as int]);
        }
        j += 1;
        if t.kind_is(node, def.ast_type.as_str()) && contains_str(&def.method_names, method_name.as_str()) {
            let name = match extract_name(t, node, c.source, def.name_source.as_str(), source_type(&def.name_source_type)) {
                Some(n) => Some(n),
                None => {
                    if def.allow_anonymous {
                        let mut v: Vec<char> = Vec::new();
                        push_str(&mut v, "anonymous spec at line ");
                        push_decimal(&mut v, line_of(t, node));
                        Some(string_of(&v))
                    } else {
                        None
                    }
                },
            };
            if let Some(name) = name {
                assert(spec_match(*t, c.source@, node, method_name@, sa) == Some((*def, name@)));
                let dynamic = name_source_is_dynamic(t, node, def.name_source.as_str());
                let params = detect_parameterization(c, node);
                return Some(new_node(name, SpecKind::Spec, Vec::new(), line_of(t, node), params, dynamic));
            }
        }
    }
    assert(sa.subrange(j as int, sa.len() as int).len() == 0);
    None
}

/// The text of an annotation without its leading `@` (empty when its
/// text cannot be had).
pub open spec fn annotation_name_of(t: SyntaxTree, source: Seq<char>, m: usize) -> Seq<char> {
    let text = match text_of(t, m, source) {
        Some(x) => x,
        None => seq![],
    };
    if text.len() > 0 && text[0] == '@' { text.subrange(1, text.len() as int) } else { text }
}

/// An annotation node naming `name` (or `pkg.name`).
pub open spec fn annotation_names(t: SyntaxTree, source: Seq<char>, m: usize, name: Seq<char>) -> bool {
    &&& (kind_of(t, m) == "marker_annotation"@ || kind_of(t, m) == "annotation"@)
    &&& (annotation_name_of(t, source, m) == name || has_suffix(annotation_name_of(t, source, m), "."@ + name))
}

/// One of the declaration's modifier lists holds an annotation naming
/// `name`.
pub open spec fn annotated(t: SyntaxTree, source: Seq<char>, node: usize, name: Seq<char>) -> bool {
    exists|i: int, j: int|
        0 <= i < children_of(t, node).len() && kind_of(t, #[trigger] children_of(t, node)[i]) == "modifiers"@ && 0 <= j
            < children_of(t, children_of(t, node)[i]).len() && annotation_names(
            t,
            source,
            #[trigger] children_of(t, children_of(t, node)[i])[j],
            name,
        )
}

/// Whether a declaration carries the annotation `@name` (or `@pkg.name`).
fn has_annotation(t: &SyntaxTree, source: &str, node: usize, name: &str) -> (r: bool)
    ensures
        r == annotated(*t, source@, node, name@),
{
    let dotted = concat(".", name);
    let dv = chars_of(dotted.as_str());
    let cnt = t.child_count(node);
    let mut i: usize = 0;
    while i < cnt
        invariant
            cnt == super::syntax::children_of(*t, node).len(),
            i <= cnt,
            dv@ == "."@ + name@,
            forall|i2: int, j: int|
                0 <= i2 < i && kind_of(*t, #[trigger] children_of(*t, node)[i2]) == "modifiers"@ && 0 <= j
                    < children_of(*t, children_of(*t, node)[i2]).len() ==> !annotation_names(
                    *t,
                    source@,
                    #[trigger] children_of(*t, children_of(*t, node)[i2])[j],
                    name@,
                ),
        decreases cnt - i,
    {
        let child = t.child(node, i);
        i += 1;
        if !t.kind_is(child, "modifiers") {
            continue;
        }
        let mcnt = t.child_count(child);
        let mut j: usize = 0;
        while j < mcnt
            invariant
                mcnt == super::syntax::children_of(*t, child).len(),
                j <= mcnt,
                dv@ == "."@ + name@,
                0 < i <= cnt,
                cnt == super::syntax::children_of(*t, node).len(),
                child == children_of(*t, node)[i - 1],
                kind_of(*t, child) == "modifiers"@,
                forall|i2: int, j2: int|
                    0 <= i2 < i - 1 && kind_of(*t, #[trigger] children_of(*t, node)[i2]) == "modifiers"@ && 0 <= j2
                        < children_of(*t, children_of(*t, node)[i2]).len() ==> !annotation_names(
                        *t,
                        source@,
                        #[trigger] children_of(*t, children_of(*t, node)[i2])[j2],
                        name@,
                    ),
                forall|j2: int| 0 <= j2 < j ==> !annotation_names(*t, source@, #[trigger] children_of(*t, child)[j2], name@),
            decreases mcnt - j,
        {
            let m = t.child(child, j);
            j += 1;
            if t.kind_is(m, "marker_annotation") || t.kind_is(m, "annotation") {
                let text = match node_text(t, m, source) {
                    Some(x) => chars_of(x.as_str()),
                    None => Vec::new(),
                };
                let bare = if text.len() > 0 && text[0] == '@' {
                    slice_chars(&text, 1, text.len())
                } else {
                    text
                };
                let nv = chars_of(name);
                assert(bare@ == annotation_name_of(*t, source@, m)) by {
                    if text@.len() > 0 && text@[0] == '@' {
                    }
                }
                if crate::text::chars_eq(&bare, &nv) || ends_with(&bare, &dv) {
                    assert(annotation_names(*t, source@, children_of(*t, children_of(*t, node)[i - 1])[j - 1], name@));
                    return true;
                }
            }
        }
    }
    false
}

/// The body of a declaration: its `body` field, or else its first child of
/// kind `k1` or `k2`.
fn body_of(t: &SyntaxTree, node: usize, k1: &str, k2: &str) -> (r: Option<usize>)
    ensures
        r == body_child_of(*t, node, k1@, k2@),
{
    match t.child_by_field(node, "body") {
        Some(b) => Some(b),
        None => {
            let ghost cs = children_of(*t, node);
            let ghost p = kinds_pred(*t, k1@, k2@);
            let cnt = t.child_count(node);
            let mut i: usize = 0;
            assert(cs.subrange(0, cs.len() as int) =~= cs);
            while i < cnt
                invariant
                    cs == children_of(*t, node),
                    p == kinds_pred(*t, k1@, k2@),
                    field_child(*t, node, "body"@) is None,
                    cnt == cs.len(),
                    i <= cnt,
                    first_where(cs, p) == first_where(cs.subrange(i as int, cs.len() as int), p),
                decreases cnt - i,
            {
                let ch = t.child(node, i);
                proof {
                    lemma_first_where_step(cs, p, i as int);
                }
                if t.kind_is(ch, k1) || t.kind_is(ch, k2) {
                    return Some(ch);
                }
                i += 1;
            }
            assert(cs.subrange(i as int, cs.len() as int).len() == 0);
            None
        },
    }
}

/// Nodes of kind `k1` or `k2`.
pub open spec fn kinds_pred(t: SyntaxTree, k1: Seq<char>, k2: Seq<char>) -> spec_fn(usize) -> bool {
    |c: usize| kind_of(t, c) == k1 || kind_of(t, c) == k2
}

/// The child under `body`, else the first child of kind `k1` or `k2`.
pub open spec fn body_child_of(t: SyntaxTree, node: usize, k1: Seq<char>, k2: Seq<char>) -> Option<usize> {
    match field_child(t, node, "body"@) {
        Some(b) => Some(b),
        None => first_where(children_of(t, node), kinds_pred(t, k1, k2)),
    }
}

/// A declaration marked by an annotation (`@Test`, `@Nested`).
fn try_match_annotation_marker(c: &Ctx, node: usize, marker: &MarkerDef, fuel: usize) -> (r: Option<SpecNode>)
    requires
        ctx_ok(*c),
    ensures
        shared_well_formed(c.shared) ==> (r matches Some(n) ==> well_formed_node(n)),
        match r {
            Some(x) => annotation_some(*c, node, *marker) && annotation_rel(*c, node, *marker, fuel as nat, x),
            None => !annotation_some(*c, node, *marker),
        },
    decreases fuel, 1int,
{
    let t = c.tree;
    let ast = c.framework.ast_kinds.as_ref()?;
    let target = if str_eq(marker.applies_to.as_str(), "function") || str_eq(marker.applies_to.as_str(), "method") {
        match &ast.method {
            Some(m) => m,
            None => ast.function.as_ref()?,
        }
    } else if str_eq(marker.applies_to.as_str(), "class") {
        ast.class.as_ref()?
    } else {
        return None;
    };
    if !t.kind_is(node, target.as_str()) {
        return None;
    }
    let annotation = marker.marker_name.as_ref()?;
    if !has_annotation(t, c.source, node, annotation.as_str()) {
        return None;
    }
    let name_node = t.child_by_field(node, "name")?;
    let name = node_text(t, name_node, c.source)?;
    let normalized = normalize_name(name.as_str(), c.framework);
    if str_eq(marker.creates.as_str(), "spec") {
        let params = detect_parameterization(c, node);
        Some(new_node(normalized, SpecKind::Spec, Vec::new(), line_of(t, node), params, false))
    } else if str_eq(marker.creates.as_str(), "group") {
        let mut children = inherited_specs(c, node);
        let ghost inh = children@;
        if let Some(body) = find_type_body(c, node) {
            if fuel > 0 {
                let own = parse_children_in(c, body, fuel - 1);
                let ghost ov = own@;
                extend(&mut children, own);
                assert(children@.subrange(0, inh.len() as int) =~= inh);
                assert(children@.subrange(inh.len() as int, children@.len() as int) =~= ov);
            } else {
                assert(children@.subrange(0, inh.len() as int) =~= inh);
            }
        } else {
            assert(children@.subrange(0, inh.len() as int) =~= inh);
        }
        Some(new_node(normalized, SpecKind::Group, children, line_of(t, node), None, false))
    } else {
        None
    }
}

/// A Rust item marked by an attribute (`#[test]`, `#[cfg(test)]`).
fn try_match_attribute_marker(c: &Ctx, node: usize, marker: &MarkerDef, fuel: usize) -> (r: Option<SpecNode>)
    requires
        ctx_ok(*c),
    ensures
        shared_well_formed(c.shared) ==> (r matches Some(n) ==> well_formed_node(n)),
        match r {
            Some(x) => attribute_some(*c, node, *marker) && attribute_rel(*c, node, *marker, fuel as nat, x),
            None => !attribute_some(*c, node, *marker),
        },
    decreases fuel, 1int,
{
    let t = c.tree;
    let target = if str_eq(marker.applies_to.as_str(), "function") {
        "function_item"
    } else if str_eq(marker.applies_to.as_str(), "module") {
        "mod_item"
    } else {
        return None;
    };
    if !t.kind_is(node, target) {
        return None;
    }
    let attr = marker.marker_name.as_ref()?;
    if !has_attribute(t, c.source, node, attr.as_str(), source_type(&marker.marker_argument)) {
        return None;
    }
    let name_node = t.child_by_field(node, "name")?;
    let name = node_text(t, name_node, c.source)?;
    let normalized = normalize_name(name.as_str(), c.framework);
    if str_eq(marker.creates.as_str(), "spec") {
        let params = detect_parameterization(c, node);
        Some(new_node(normalized, SpecKind::Spec, Vec::new(), line_of(t, node), params, false))
    } else if str_eq(marker.creates.as_str(), "group") {
        let body = t.child_by_field(node, "body")?;
        let children = if fuel > 0 {
            parse_children_in(c, body, fuel - 1)
        } else {
            Vec::new()
        };
        Some(new_node(normalized, SpecKind::Group, children, line_of(t, node), None, false))
    } else {
        None
    }
}

/// A declaration whose name matches the marker's pattern (`Test*`,
/// `test_*`): a spec (a group when sub-tests are nested in it), or a group
/// with its inherited and own specs.
fn try_match_name_pattern_marker(c: &Ctx, node: usize, marker: &MarkerDef, fuel: usize) -> (r: Option<SpecNode>)
    requires
        ctx_ok(*c),
    ensures
        shared_well_formed(c.shared) ==> (r matches Some(n) ==> well_formed_node(n)),
        match r {
            Some(x) => pattern_some(*c, node, *marker) && pattern_rel(*c, node, *marker, fuel as nat, x),
            None => !pattern_some(*c, node, *marker),
        },
    decreases fuel, 1int,
{
    let t = c.tree;
    let ast = c.framework.ast_kinds.as_ref()?;
    let target = if str_eq(marker.applies_to.as_str(), "function") {
        ast.function.as_ref()?
    } else if str_eq(marker.applies_to.as_str(), "method") {
        match &ast.method {
            Some(m) => m,
            None => ast.function.as_ref()?,
        }
    } else if str_eq(marker.applies_to.as_str(), "class") {
        ast.class.as_ref()?
    } else {
        return None;
    };
    if !t.kind_is(node, target.as_str()) {
        return None;
    }
    let name_node = t.child_by_field(node, "name")?;
    let name = node_text(t, name_node, c.source)?;
    let pattern = marker.pattern.as_ref()?;
    if !matches_pattern(name.as_str(), pattern.as_str()) {
        return None;
    }
    let normalized = normalize_name(name.as_str(), c.framework);
    if str_eq(marker.creates.as_str(), "spec") {
        let nested = if c.framework.nested_discovery.len() > 0 {
            match body_of(t, node, "block", "statement_block") {
                Some(body) => find_nested_specs(c, body, t.nodes.len()),
                None => Vec::new(),
            }
        } else {
            Vec::new()
        };
        if nested.len() == 0 {
            let params = match detect_parameterization(c, node) {
                Some(p) => Some(p),
                None => detect_table_driven(c, node),
            };
            Some(new_node(normalized, SpecKind::Spec, Vec::new(), line_of(t, node), params, false))
        } else {
            Some(new_node(normalized, SpecKind::Group, nested, line_of(t, node), None, false))
        }
    } else if str_eq(marker.creates.as_str(), "group") {
        let mut children = inherited_specs(c, node);
        let ghost inh = children@;
        if let Some(body) = body_of(t, node, "body_statement", "block") {
            if fuel > 0 {
                let own = parse_children_in(c, body, fuel - 1);
                let ghost ov = own@;
                extend(&mut children, own);
                assert(children@.subrange(0, inh.len() as int) =~= inh);
                assert(children@.subrange(inh.len() as int, children@.len() as int) =~= ov);
            } else {
                assert(children@.subrange(0, inh.len() as int) =~= inh);
            }
        } else {
            assert(children@.subrange(0, inh.len() as int) =~= inh);
        }
        Some(new_node(normalized, SpecKind::Group, children, line_of(t, node), None, false))
    } else {
        None
    }
}

/// A declaration recognised by the first of the framework's markers that
/// matches it.
fn try_match_marker_node(c: &Ctx, node: usize, fuel: usize) -> (r: Option<SpecNode>)
    requires
        ctx_ok(*c),
    ensures
        shared_well_formed(c.shared) ==> (r matches Some(n) ==> well_formed_node(n)),
        match r {
            Some(x) => first_marker(*c, node, c.framework.marker@) matches Some(m) && marker_rel(*c, node, m, fuel as nat, x),
            None => first_marker(*c, node, c.framework.marker@) is None,
        },
    decreases fuel, 2int,
{
    let markers = &c.framework.marker;
    let ghost ma = markers@;
    let mut i: usize = 0;
    assert(ma.subrange(0, ma.len() as int) =~= ma);
    while i < markers.len()
        invariant
            ctx_ok(*c),
            i <= markers@.len(),
            ma == markers@,
            ma == c.framework.marker@,
            first_marker(*c, node, ma) == first_marker(*c, node, ma.subrange(i as int, ma.len() as int)),
        decreases markers@.len() - i,
    {
        let marker = &markers[i];
        proof {
            let rr = ma.subrange(i as int, ma.len() as int);
            assert(rr.subrange(1, rr.len() as int) =~= ma.subrange(i + 1, ma.len() as int));
            assert(rr[0] == ma[i as int]);
        }
        i += 1;
        let found = if str_eq(marker.marker_type.as_str(), "attribute") {
            try_match_attribute_marker(c, node, marker, fuel)
        } else if str_eq(marker.marker_type.as_str(), "name_pattern") {
            try_match_name_pattern_marker(c, node, marker, fuel)
        } else if str_eq(marker.marker_type.as_str(), "annotation") {
            try_match_annotation_marker(c, node, marker, fuel)
        } else {
            None
        };
        if found.is_some() {
            return found;
        }
    }
    assert(ma.subrange(i as int, ma.len() as int).len() == 0);
    None
}

/// A DSL group or spec, or else a marked declaration.
fn try_match_node(c: &Ctx, node: usize, fuel: usize) -> (r: Option<SpecNode>)
    requires
        ctx_ok(*c),
    ensures
        shared_well_formed(c.shared) ==> (r matches Some(n) ==> well_formed_node(n)),
        match r {
            Some(x) => node_some(*c, node) && node_rel(*c, node, fuel as nat, x),
            None => !node_some(*c, node),
        },
    decreases fuel, 3int,
{
    match try_match_dsl_node(c, node, fuel) {
        Some(r) => Some(r),
        None => try_match_marker_node(c, node, fuel),
    }
}

/// `.each` over a literal collection, expanded into one copy of the
/// block's specs per element, with the block variables (and literal
/// assignments in scope) substituted into their dynamic names. An empty
/// literal expands to nothing.
fn try_expand_loop(c: &Ctx, node: usize, fuel: usize) -> (r: Option<Vec<SpecNode>>)
    requires
        ctx_ok(*c),
    ensures
        shared_well_formed(c.shared) ==> (r matches Some(v) ==> well_formed_forest(v@)),
        match r {
            Some(v) => loop_some(*c, node, fuel as nat) && loop_rel(*c, node, fuel as nat, v@) && v@.len() == loop_len(*c, node, fuel as nat),
            None => !loop_some(*c, node, fuel as nat),
        },
    decreases fuel, 1int,
{
    let t = c.tree;
    let loop_def = c.framework.loop_expansion.as_ref()?;
    if !loop_def.enabled || loop_def.each_method.as_str().unicode_len() == 0 {
        return None;
    }
    if !is_dsl_call_kind(t.kind(node)) {
        return None;
    }
    let method = extract_method_name(t, node, c.source)?;
    if !str_eq(method.as_str(), loop_def.each_method.as_str()) {
        return None;
    }
    let receiver = t.child_by_field(node, "receiver")?;
    if !kind_in(t, receiver, &loop_def.literal_receiver_kinds) {
        return None;
    }
    let tuples = extract_literal_tuples(t, c.source, receiver, t.nodes.len());
    let block = t.child_by_field(node, "block")?;
    let params = extract_block_parameters(t, c.source, block);
    let body = t.child_by_field(block, "body")?;
    assert(loop_head(*c, node) == Some((receiver, block, body)));
    if tuples.len() == 0 {
        assert(tuple_views(tuples@).len() == 0);
        return Some(Vec::new());
    }
    if fuel == 0 {
        return None;
    }
    let base_specs = parse_children_in(c, body, fuel - 1);
    if base_specs.len() == 0 {
        return None;
    }
    let scope = collect_in_scope_assignments(t, c.source, node);
    let ghost tv = tuple_views(tuples@);
    let ghost pv = views(params@);
    let ghost scv = sub_views(scope@);
    let ghost bv = base_specs@;
    let ghost blen = bv.len();
    let mut expanded: Vec<SpecNode> = Vec::new();
    let mut i: usize = 0;
    assert(tv.subrange(0, 0) =~= Seq::<Seq<Seq<char>>>::empty());
    while i < tuples.len()
        invariant
            i <= tuples@.len(),
            tv == tuple_views(tuples@),
            pv == views(params@),
            scv == sub_views(scope@),
            bv == base_specs@,
            blen == bv.len(),
            blen > 0,
            shared_well_formed(c.shared) ==> well_formed_forest(base_specs@) && well_formed_forest(expanded@),
            expansion_rel(bv, pv, tv.subrange(0, i as int), scv, expanded@),
            expanded@.len() == i * blen,
            fuel > 0,
            *t == *c.tree,
            loop_head(*c, node) == Some((receiver, block, body)),
            tv == loop_tuples(*c, receiver),
            pv == block_parameters_of(*t, c.source@, block),
            scv == scope_walk(*t, c.source@, Some(node), seq![], t.nodes@.len() as nat),
            forest_rel(*c, body, (fuel - 1) as nat, bv),
            blen == forest_len(*c, body, (fuel - 1) as nat),
            tuples@.len() > 0,
        decreases tuples@.len() - i,
    {
        let tuple = &tuples[i];
        let ghost e0 = expanded@;
        let ghost tupv = tv[i as int];
        assert(tupv == views(tuple@));
        let mut subs: Vec<(String, String)> = Vec::new();
        let mut k: usize = 0;
        let ghost n = if pv.len() <= tupv.len() { pv.len() } else { tupv.len() };
        assert(sub_views(subs@) =~= Seq::new(0, |m: int| ("#{"@ + pv[m] + "}"@, tupv[m])));
        while k < params.len() && k < tuple.len()
            invariant
                k <= params@.len(),
                k <= tuple@.len(),
                pv == views(params@),
                tupv == views(tuple@),
                sub_views(subs@) == Seq::new(k as nat, |m: int| ("#{"@ + pv[m] + "}"@, tupv[m])),
            decreases params@.len() - k,
        {
            let ghost s0 = subs@;
            let pk = placeholder(params[k].as_str());
            let tk = owned(tuple[k].as_str());
            assert(pk@ == "#{"@ + pv[k as int] + "}"@);
            assert(tk@ == tupv[k as int]);
            subs.push((pk, tk));
            assert(sub_views(subs@) =~= sub_views(s0).push((pk@, tk@)));
            k += 1;
            assert(sub_views(subs@) =~= Seq::new(k as nat, |m: int| ("#{"@ + pv[m] + "}"@, tupv[m])));
        }
        assert(k as int == n);
        let ghost head = sub_views(subs@);
        let mut s: usize = 0;
        assert(head + scv.subrange(0, 0) =~= head);
        while s < scope.len()
            invariant
                s <= scope@.len(),
                scv == sub_views(scope@),
                sub_views(subs@) == head + scv.subrange(0, s as int),
            decreases scope@.len() - s,
        {
            let ghost s0 = subs@;
            let a = owned(scope[s].0.as_str());
            let b = owned(scope[s].1.as_str());
            assert((a@, b@) == scv[s as int]);
            subs.push((a, b));
            assert(sub_views(subs@) =~= sub_views(s0).push((a@, b@)));
            s += 1;
            assert(sub_views(subs@) =~= head + scv.subrange(0, s as int));
        }
        assert(scv.subrange(0, s as int) =~= scv);
        assert(sub_views(subs@) =~= tuple_subs(pv, tupv, scv));
        let mut j: usize = 0;
        while j < base_specs.len()
            invariant
                j <= base_specs@.len(),
                bv == base_specs@,
                shared_well_formed(c.shared) ==> well_formed_forest(base_specs@) && well_formed_forest(expanded@),
                expanded@.len() == e0.len() + j,
                expanded@.subrange(0, e0.len() as int) == e0,
                sub_views(subs@) == tuple_subs(pv, tupv, scv),
                forall|jj: int| 0 <= jj < j ==> subst_rel(#[trigger] bv[jj], tuple_subs(pv, tupv, scv), expanded@[e0.len() + jj]),
            decreases base_specs@.len() - j,
        {
            let ghost x0 = expanded@;
            expanded.push(substitute_spec_name(&base_specs[j], &subs));
            assert(expanded@.subrange(0, e0.len() as int) =~= x0.subrange(0, e0.len() as int));
            j += 1;
        }
        proof {
            let next = tv.subrange(0, i + 1);
            assert(next.drop_last() =~= tv.subrange(0, i as int));
            assert(next.last() == tupv);
            assert(expanded@.len() - blen == e0.len());
            assert(expanded@.subrange(0, expanded@.len() - blen) == e0);
            assert((i + 1) * blen == i * blen + blen) by (nonlinear_arith);
        }
        i += 1;
    }
    assert(tv.subrange(0, i as int) =~= tv);
    proof {
        assert(forest_rel(*c, body, (fuel - 1) as nat, bv) && bv.len() == forest_len(*c, body, (fuel - 1) as nat) && expansion_rel(
            bv,
            block_parameters_of(*t, c.source@, block),
            loop_tuples(*c, receiver),
            scope_walk(*t, c.source@, Some(node), seq![], t.nodes@.len() as nat),
            expanded@,
        ));
        assert(loop_tuples(*c, receiver).len() > 0);
        let fl: nat = ((fuel as nat) - 1) as nat;
        assert(fl == (fuel - 1) as nat);
        assert(forest_rel(*c, body, fl, bv) && bv.len() == forest_len(*c, body, fl) && expansion_rel(
            bv,
            block_parameters_of(*c.tree, c.source@, block),
            loop_tuples(*c, receiver),
            scope_walk(*c.tree, c.source@, Some(node), seq![], c.tree.nodes@.len() as nat),
            expanded@,
        ));
        lemma_loop_rel_intro(*c, node, fuel as nat, expanded@, bv);
    }
    Some(expanded)
}

// ---------------------------------------------------------------------------
// What the engine finds
// ---------------------------------------------------------------------------

/// A parameterization holds the given case count and no labels, or there
/// is none and no count.
pub open spec fn params_as(p: Option<ParamInfo>, n: Option<usize>) -> bool {
    match (p, n) {
        (Some(x), Some(k)) => x.case_count == k && x.labels@.len() == 0,
        (None, None) => true,
        _ => false,
    }
}

/// The node is a container the framework never descends into.
pub open spec fn inert(c: Ctx, n: usize) -> bool {
    match c.framework.inheritance {
        Some(inh) => kind_among(*c.tree, n, inh.inert_containers@),
        None => false,
    }
}

/// The method a DSL call at `node` invokes, if it is one.
pub open spec fn dsl_method(c: Ctx, node: usize) -> Option<Seq<char>> {
    if dsl_call_kind(kind_of(*c.tree, node)) {
        method_name_of(*c.tree, node, c.source@, c.tree.nodes@.len() as nat)
    } else {
        None
    }
}

/// The first group description of the node's kind and method whose name
/// can be read, with that name.
pub open spec fn group_match(t: SyntaxTree, source: Seq<char>, node: usize, m: Seq<char>, defs: Seq<GroupDef>) -> Option<(GroupDef, Seq<char>)>
    decreases defs.len(),
{
    if defs.len() == 0 {
        None
    } else {
        let d = defs[0];
        let n = name_of(t, node, source, d.name_source@, opt_text(d.name_source_type));
        if kind_of(t, node) == d.ast_type@ && (exists|k: int| 0 <= k < d.method_names@.len() && (#[trigger] d.method_names@[k])@ == m) && n is Some {
            Some((d, n.unwrap()))
        } else {
            group_match(t, source, node, m, defs.subrange(1, defs.len() as int))
        }
    }
}

/// The name of a DSL spec: read as the description says, else the
/// anonymous name with its line when the description allows that.
pub open spec fn dsl_spec_name(t: SyntaxTree, source: Seq<char>, node: usize, d: SpecDef) -> Option<Seq<char>> {
    match name_of(t, node, source, d.name_source@, opt_text(d.name_source_type)) {
        Some(n) => Some(n),
        None => if d.allow_anonymous {
            Some("anonymous spec at line "@ + crate::text::decimal(line_at(t, node) as nat))
        } else {
            None
        },
    }
}

/// The first spec description of the node's kind and method that gives a
/// name, with that name.
pub open spec fn spec_match(t: SyntaxTree, source: Seq<char>, node: usize, m: Seq<char>, defs: Seq<SpecDef>) -> Option<(SpecDef, Seq<char>)>
    decreases defs.len(),
{
    if defs.len() == 0 {
        None
    } else {
        let d = defs[0];
        if kind_of(t, node) == d.ast_type@ && (exists|k: int| 0 <= k < d.method_names@.len() && (#[trigger] d.method_names@[k])@ == m)
            && dsl_spec_name(t, source, node, d) is Some {
            Some((d, dsl_spec_name(t, source, node, d).unwrap()))
        } else {
            spec_match(t, source, node, m, defs.subrange(1, defs.len() as int))
        }
    }
}

/// The node is a DSL group or spec.
pub open spec fn dsl_some(c: Ctx, node: usize) -> bool {
    match dsl_method(c, node) {
        None => false,
        Some(m) => group_match(*c.tree, c.source@, node, m, c.framework.group@) is Some || spec_match(
            *c.tree,
            c.source@,
            node,
            m,
            c.framework.spec@,
        ) is Some,
    }
}

/// The text of the node's `name` field.
pub open spec fn decl_name(c: Ctx, node: usize) -> Option<Seq<char>> {
    match field_child(*c.tree, node, "name"@) {
        Some(nn) => text_of(*c.tree, nn, c.source@),
        None => None,
    }
}

/// The marker creates a spec or a group.
pub open spec fn creates_known(m: MarkerDef) -> bool {
    m.creates@ == "spec"@ || m.creates@ == "group"@
}

/// The syntax kind an annotation marker applies to.
pub open spec fn annotation_target(fw: FrameworkDef, m: MarkerDef) -> Option<Seq<char>> {
    match fw.ast_kinds {
        None => None,
        Some(ast) => if m.applies_to@ == "function"@ || m.applies_to@ == "method"@ {
            match ast.method {
                Some(x) => Some(x@),
                None => opt_text(ast.function),
            }
        } else if m.applies_to@ == "class"@ {
            opt_text(ast.class)
        } else {
            None
        },
    }
}

/// An annotation marker recognizes the node.
pub open spec fn annotation_some(c: Ctx, node: usize, m: MarkerDef) -> bool {
    match (annotation_target(*c.framework, m), m.marker_name) {
        (Some(k), Some(a)) => kind_of(*c.tree, node) == k && annotated(*c.tree, c.source@, node, a@) && decl_name(c, node) is Some
            && creates_known(m),
        _ => false,
    }
}

/// The syntax kind an attribute marker applies to.
pub open spec fn attribute_target(m: MarkerDef) -> Option<Seq<char>> {
    if m.applies_to@ == "function"@ {
        Some("function_item"@)
    } else if m.applies_to@ == "module"@ {
        Some("mod_item"@)
    } else {
        None
    }
}

/// An attribute marker recognizes the node (a group needs a body).
pub open spec fn attribute_some(c: Ctx, node: usize, m: MarkerDef) -> bool {
    match (attribute_target(m), m.marker_name) {
        (Some(k), Some(a)) => kind_of(*c.tree, node) == k && attr_walk_has(
            *c.tree,
            c.source@,
            prev_of(*c.tree, node),
            a@,
            opt_text(m.marker_argument),
            c.tree.nodes@.len() as nat,
        ) && decl_name(c, node) is Some && (m.creates@ == "spec"@ || (m.creates@ == "group"@ && field_child(
            *c.tree,
            node,
            "body"@,
        ) is Some)),
        _ => false,
    }
}

/// The syntax kind a name-pattern marker applies to.
pub open spec fn pattern_target(fw: FrameworkDef, m: MarkerDef) -> Option<Seq<char>> {
    match fw.ast_kinds {
        None => None,
        Some(ast) => if m.applies_to@ == "function"@ {
            opt_text(ast.function)
        } else if m.applies_to@ == "method"@ {
            match ast.method {
                Some(x) => Some(x@),
                None => opt_text(ast.function),
            }
        } else if m.applies_to@ == "class"@ {
            opt_text(ast.class)
        } else {
            None
        },
    }
}

/// A name-pattern marker recognizes the node.
pub open spec fn pattern_some(c: Ctx, node: usize, m: MarkerDef) -> bool {
    match (pattern_target(*c.framework, m), decl_name(c, node), m.pattern) {
        (Some(k), Some(name), Some(p)) => kind_of(*c.tree, node) == k && pattern_matches(name, p@) && creates_known(m),
        _ => false,
    }
}

/// The marker, by its type, recognizes the node.
pub open spec fn marker_some(c: Ctx, node: usize, m: MarkerDef) -> bool {
    if m.marker_type@ == "attribute"@ {
        attribute_some(c, node, m)
    } else if m.marker_type@ == "name_pattern"@ {
        pattern_some(c, node, m)
    } else if m.marker_type@ == "annotation"@ {
        annotation_some(c, node, m)
    } else {
        false
    }
}

/// The first of `ms` that recognizes the node.
pub open spec fn first_marker(c: Ctx, node: usize, ms: Seq<MarkerDef>) -> Option<MarkerDef>
    decreases ms.len(),
{
    if ms.len() == 0 {
        None
    } else if marker_some(c, node, ms[0]) {
        Some(ms[0])
    } else {
        first_marker(c, node, ms.subrange(1, ms.len() as int))
    }
}

/// The node is a DSL group or spec, or a marked declaration.
pub open spec fn node_some(c: Ctx, node: usize) -> bool {
    dsl_some(c, node) || first_marker(c, node, c.framework.marker@) is Some
}

/// The node is an inclusion that gives specs.
pub open spec fn incl_some(c: Ctx, node: usize) -> bool {
    match inclusion_at(c, node) {
        Some(x) => match c.shared {
            None => true,
            Some(reg) => reg.definitions_map().contains_key(x.1),
        },
        None => false,
    }
}

/// How many trees an inclusion gives.
pub open spec fn incl_len(c: Ctx, node: usize) -> nat {
    match inclusion_at(c, node) {
        Some(x) => match c.shared {
            None => 1,
            Some(reg) => if nests(x.0) { 1 } else { reg.definitions_map()[x.1]@.len() },
        },
        None => 0,
    }
}

/// The receiver, block and body of an expandable loop (`.each` over a
/// literal) at `node`.
pub open spec fn loop_head(c: Ctx, node: usize) -> Option<(usize, usize, usize)> {
    let t = *c.tree;
    match c.framework.loop_expansion {
        None => None,
        Some(ld) => if !ld.enabled || ld.each_method@.len() == 0 {
            None
        } else {
            match dsl_method(c, node) {
                None => None,
                Some(m) => if m != ld.each_method@ {
                    None
                } else {
                    match field_child(t, node, "receiver"@) {
                        None => None,
                        Some(rcv) => if !kind_among(t, rcv, ld.literal_receiver_kinds@) {
                            None
                        } else {
                            match field_child(t, node, "block"@) {
                                None => None,
                                Some(blk) => match field_child(t, blk, "body"@) {
                                    None => None,
                                    Some(body) => Some((rcv, blk, body)),
                                },
                            }
                        },
                    }
                },
            }
        },
    }
}

/// The tuples an expandable loop iterates over.
pub open spec fn loop_tuples(c: Ctx, rcv: usize) -> Seq<Seq<Seq<char>>> {
    literal_tuples(*c.tree, c.source@, rcv, c.tree.nodes@.len() as nat)
}

/// The loop gives specs: its table is empty, or its body holds specs.
pub open spec fn loop_some(c: Ctx, node: usize, fuel: nat) -> bool
    decreases fuel, 0nat, 0nat,
{
    match loop_head(c, node) {
        None => false,
        Some(h) => loop_tuples(c, h.0).len() == 0 || (fuel > 0 && forest_len(c, h.2, (fuel - 1) as nat) > 0),
    }
}

/// How many trees an expandable loop gives: one copy of its body's specs
/// per tuple.
pub open spec fn loop_len(c: Ctx, node: usize, fuel: nat) -> nat
    decreases fuel, 0nat, 0nat,
{
    match loop_head(c, node) {
        None => 0,
        Some(h) => if fuel > 0 { loop_tuples(c, h.0).len() * forest_len(c, h.2, (fuel - 1) as nat) } else { 0 },
    }
}

/// How many trees the child `ch` gives.
pub open spec fn child_len(c: Ctx, ch: usize, fuel: nat) -> nat
    decreases fuel, 1nat, 0nat,
{
    if inert(c, ch) {
        0
    } else if incl_some(c, ch) {
        incl_len(c, ch)
    } else if node_some(c, ch) {
        1
    } else if loop_some(c, ch, fuel) {
        loop_len(c, ch, fuel)
    } else if fuel > 0 {
        forest_len(c, ch, (fuel - 1) as nat)
    } else {
        0
    }
}

/// How many trees the children `cs` give.
pub open spec fn over_len(c: Ctx, cs: Seq<usize>, fuel: nat) -> nat
    decreases fuel, 2nat, cs.len(),
{
    if cs.len() == 0 {
        0
    } else {
        over_len(c, cs.drop_last(), fuel) + child_len(c, cs.last(), fuel)
    }
}

/// How many trees are found below `node`.
pub open spec fn forest_len(c: Ctx, node: usize, fuel: nat) -> nat
    decreases fuel, 3nat, 0nat,
{
    over_len(c, children_of(*c.tree, node), fuel)
}

/// The substitutions for one tuple: each block parameter's placeholder
/// with the tuple's value at its position (as far as both go), then the
/// assignments in scope.
pub open spec fn tuple_subs(params: Seq<Seq<char>>, tuple: Seq<Seq<char>>, scope: Seq<(Seq<char>, Seq<char>)>) -> Seq<(Seq<char>, Seq<char>)> {
    let n = if params.len() <= tuple.len() { params.len() } else { tuple.len() };
    Seq::new(n, |k: int| ("#{"@ + params[k] + "}"@, tuple[k])) + scope
}

/// `r` holds, tuple after tuple, the trees of `base` substituted with each
/// tuple's substitutions.
pub open spec fn expansion_rel(base: Seq<SpecNode>, params: Seq<Seq<char>>, tuples: Seq<Seq<Seq<char>>>, scope: Seq<(Seq<char>, Seq<char>)>, r: Seq<SpecNode>) -> bool
    decreases tuples.len(),
{
    if tuples.len() == 0 {
        r.len() == 0
    } else {
        &&& r.len() >= base.len()
        &&& expansion_rel(base, params, tuples.drop_last(), scope, r.subrange(0, r.len() - base.len()))
        &&& forall|j: int|
            0 <= j < base.len() ==> subst_rel(
                #[trigger] base[j],
                tuple_subs(params, tuples.last(), scope),
                r[r.len() - base.len() + j],
            )
    }
}

/// The trees an expandable loop gives.
pub open spec fn loop_rel(c: Ctx, node: usize, fuel: nat, r: Seq<SpecNode>) -> bool
    decreases fuel, 2nat, 0nat,
{
    match loop_head(c, node) {
        None => false,
        Some(h) => {
            let tv = loop_tuples(c, h.0);
            if tv.len() == 0 {
                r.len() == 0
            } else {
                fuel > 0 && exists|base: Seq<SpecNode>|
                    #[trigger] expansion_rel(
                        base,
                        block_parameters_of(*c.tree, c.source@, h.1),
                        tv,
                        scope_walk(*c.tree, c.source@, Some(node), seq![], c.tree.nodes@.len() as nat),
                        r,
                    ) && forest_rel(c, h.2, (fuel - 1) as nat, base) && base.len() == forest_len(c, h.2, (fuel - 1) as nat)
            }
        },
    }
}

/// An expansion of the body's trees over a non-empty table is what the
/// loop gives.
proof fn lemma_loop_rel_intro(c: Ctx, node: usize, fuel: nat, r: Seq<SpecNode>, base: Seq<SpecNode>)
    requires
        loop_head(c, node) is Some,
        loop_tuples(c, loop_head(c, node).unwrap().0).len() > 0,
        fuel > 0,
        forest_rel(c, loop_head(c, node).unwrap().2, (fuel - 1) as nat, base),
        base.len() == forest_len(c, loop_head(c, node).unwrap().2, (fuel - 1) as nat),
        expansion_rel(
            base,
            block_parameters_of(*c.tree, c.source@, loop_head(c, node).unwrap().1),
            loop_tuples(c, loop_head(c, node).unwrap().0),
            scope_walk(*c.tree, c.source@, Some(node), seq![], c.tree.nodes@.len() as nat),
            r,
        ),
    ensures
        loop_rel(c, node, fuel, r),
{
    let h = loop_head(c, node)->0;
    assert(expansion_rel(
        base,
        block_parameters_of(*c.tree, c.source@, h.1),
        loop_tuples(c, h.0),
        scope_walk(*c.tree, c.source@, Some(node), seq![], c.tree.nodes@.len() as nat),
        r,
    ));

}

/// The node `x` a DSL group or spec gives.
pub open spec fn dsl_rel(c: Ctx, node: usize, fuel: nat, x: SpecNode) -> bool
    decreases fuel, 1nat, 0nat,
{
    let t = *c.tree;
    let src = c.source@;
    match dsl_method(c, node) {
        None => false,
        Some(m) => match group_match(t, src, node, m, c.framework.group@) {
            Some(g) => {
                &&& x.name@ == g.1
                &&& x.kind == SpecKind::Group
                &&& x.line == line_at(t, node)
                &&& x.parameterized is None
                &&& x.name_is_dynamic == dynamic_name(t, node, g.0.name_source@)
                &&& if block_of(t, node) is Some && fuel > 0 {
                    forest_rel(c, block_of(t, node).unwrap(), (fuel - 1) as nat, x.children@)
                } else {
                    x.children@.len() == 0
                }
            },
            None => match spec_match(t, src, node, m, c.framework.spec@) {
                Some(sp) => {
                    &&& x.name@ == sp.1
                    &&& x.kind == SpecKind::Spec
                    &&& x.children@.len() == 0
                    &&& x.line == line_at(t, node)
                    &&& params_as(x.parameterized, param_count(t, src, node, c.framework.parameterized@))
                    &&& x.name_is_dynamic == dynamic_name(t, node, sp.0.name_source@)
                },
                None => false,
            },
        },
    }
}

/// The children of a marked group: its inherited specs, then the specs of
/// its body (within `fuel` levels).
pub open spec fn group_kids_rel(c: Ctx, node: usize, body: Option<usize>, fuel: nat, kids: Seq<SpecNode>) -> bool
    decreases fuel, 0nat, 0nat,
{
    let inh = inherited_of(c, node);
    &&& kids.len() >= inh.len()
    &&& same_forest(kids.subrange(0, inh.len() as int), inh)
    &&& if body is Some && fuel > 0 {
        forest_rel(c, body.unwrap(), (fuel - 1) as nat, kids.subrange(inh.len() as int, kids.len() as int))
    } else {
        kids.len() == inh.len()
    }
}

/// A marked spec: a leaf with its parameterization.
pub open spec fn marked_leaf(x: SpecNode, cases: Option<usize>) -> bool {
    x.kind == SpecKind::Spec && x.children@.len() == 0 && params_as(x.parameterized, cases)
}

/// What every marked node shares: the declaration's normalized name, its
/// line, and a name that is not dynamic.
pub open spec fn marked_head(c: Ctx, node: usize, x: SpecNode) -> bool {
    &&& x.name@ == normalized(decl_name(c, node).unwrap(), *c.framework)
    &&& x.line == line_at(*c.tree, node)
    &&& !x.name_is_dynamic
}

/// The node `x` an attribute marker gives.
pub open spec fn attribute_rel(c: Ctx, node: usize, m: MarkerDef, fuel: nat, x: SpecNode) -> bool
    decreases fuel, 1nat, 0nat,
{
    let t = *c.tree;
    &&& marked_head(c, node, x)
    &&& if m.creates@ == "spec"@ {
        marked_leaf(x, param_count(t, c.source@, node, c.framework.parameterized@))
    } else {
        x.kind == SpecKind::Group && x.parameterized is None && if fuel > 0 {
            forest_rel(c, field_child(t, node, "body"@).unwrap(), (fuel - 1) as nat, x.children@)
        } else {
            x.children@.len() == 0
        }
    }
}

/// The block whose sub-tests a name-pattern spec holds, if the framework
/// discovers nested sub-tests.
pub open spec fn nested_body(c: Ctx, node: usize) -> Option<usize> {
    if c.framework.nested_discovery@.len() > 0 { body_child_of(*c.tree, node, "block"@, "statement_block"@) } else { None }
}

/// The node `x` a name-pattern marker gives.
pub open spec fn pattern_rel(c: Ctx, node: usize, m: MarkerDef, fuel: nat, x: SpecNode) -> bool
    decreases fuel, 1nat, 0nat,
{
    let t = *c.tree;
    let src = c.source@;
    let fw = *c.framework;
    &&& marked_head(c, node, x)
    &&& if m.creates@ == "spec"@ {
        let nb = nested_body(c, node);
        let k = match nb {
            Some(b) => nested_count(t, src, fw, b, t.nodes@.len() as nat),
            None => 0,
        };
        if k == 0 {
            marked_leaf(
                x,
                match param_count(t, src, node, fw.parameterized@) {
                    Some(n) => Some(n),
                    None => table_count(t, src, fw, node),
                },
            )
        } else {
            x.kind == SpecKind::Group && x.parameterized is None && nested_forest_rel(t, src, fw, nb.unwrap(), t.nodes@.len() as nat, x.children@)
        }
    } else {
        x.kind == SpecKind::Group && x.parameterized is None && group_kids_rel(
            c,
            node,
            body_child_of(t, node, "body_statement"@, "block"@),
            fuel,
            x.children@,
        )
    }
}

/// The node `x` an annotation marker gives.
pub open spec fn annotation_rel(c: Ctx, node: usize, m: MarkerDef, fuel: nat, x: SpecNode) -> bool
    decreases fuel, 1nat, 0nat,
{
    let t = *c.tree;
    &&& marked_head(c, node, x)
    &&& if m.creates@ == "spec"@ {
        marked_leaf(x, param_count(t, c.source@, node, c.framework.parameterized@))
    } else {
        x.kind == SpecKind::Group && x.parameterized is None && group_kids_rel(c, node, type_body_of(t, *c.framework, node), fuel, x.children@)
    }
}

/// The node `x` the marker `m` gives for the declaration at `node`.
pub open spec fn marker_rel(c: Ctx, node: usize, m: MarkerDef, fuel: nat, x: SpecNode) -> bool
    decreases fuel, 1nat, 1nat,
{
    if m.marker_type@ == "attribute"@ {
        attribute_rel(c, node, m, fuel, x)
    } else if m.marker_type@ == "name_pattern"@ {
        pattern_rel(c, node, m, fuel, x)
    } else {
        annotation_rel(c, node, m, fuel, x)
    }
}

/// The node `x` the child `ch` gives when it is a DSL node or marked.
pub open spec fn node_rel(c: Ctx, ch: usize, fuel: nat, x: SpecNode) -> bool
    decreases fuel, 2nat, 0nat,
{
    if dsl_some(c, ch) {
        dsl_rel(c, ch, fuel, x)
    } else {
        match first_marker(c, ch, c.framework.marker@) {
            Some(m) => marker_rel(c, ch, m, fuel, x),
            None => false,
        }
    }
}

/// The trees `r` the child `ch` gives: nothing for an inert container,
/// an inclusion's trees, a recognized node, an expanded loop, or else what
/// lies below it (within `fuel` levels).
pub open spec fn child_rel(c: Ctx, ch: usize, fuel: nat, r: Seq<SpecNode>) -> bool
    decreases fuel, 3nat, 0nat,
{
    if inert(c, ch) {
        true
    } else if incl_some(c, ch) {
        inclusion_result(c, ch, Some(r))
    } else if node_some(c, ch) {
        node_rel(c, ch, fuel, r[0])
    } else if loop_some(c, ch, fuel) {
        loop_rel(c, ch, fuel, r)
    } else if fuel > 0 {
        forest_rel(c, ch, (fuel - 1) as nat, r)
    } else {
        true
    }
}

/// `r` holds, in order, the trees the children `cs` give.
pub open spec fn over_rel(c: Ctx, cs: Seq<usize>, fuel: nat, r: Seq<SpecNode>) -> bool
    decreases fuel, 4nat, cs.len(),
{
    if cs.len() == 0 {
        r.len() == 0
    } else {
        let k = child_len(c, cs.last(), fuel);
        &&& r.len() >= k
        &&& over_rel(c, cs.drop_last(), fuel, r.subrange(0, r.len() - k))
        &&& child_rel(c, cs.last(), fuel, r.subrange(r.len() - k, r.len() as int))
    }
}

/// `r` holds, in order, the trees found below `node` (within `fuel`
/// levels): the outline of that part of the file.
pub open spec fn forest_rel(c: Ctx, node: usize, fuel: nat, r: Seq<SpecNode>) -> bool
    decreases fuel, 5nat, 0nat,
{
    over_rel(c, children_of(*c.tree, node), fuel, r)
}

/// Whether the node is a container the framework never descends into.
fn is_inert_container(c: &Ctx, node: usize) -> (r: bool)
    ensures
        r == (c.framework.inheritance matches Some(inh) && exists|k: int|
            0 <= k < inh.inert_containers@.len() && (#[trigger] inh.inert_containers@[k])@ == kind_of(*c.tree, node)),
{
    match &c.framework.inheritance {
        Some(inh) => kind_in(c.tree, node, &inh.inert_containers),
        None => false,
    }
}

/// The specs found among the children of `node`: shared example
/// inclusions, DSL groups and specs, marked declarations and expanded
/// loops, and, below any other child, what its own children hold.
fn parse_children_in(c: &Ctx, node: usize, fuel: usize) -> (r: Vec<SpecNode>)
    requires
        ctx_ok(*c),
    ensures
        shared_well_formed(c.shared) ==> well_formed_forest(r@),
        forest_rel(*c, node, fuel as nat, r@),
        r@.len() == forest_len(*c, node, fuel as nat),
    decreases fuel, 4int,
{
    let t = c.tree;
    let ghost cs = children_of(*t, node);
    let mut results: Vec<SpecNode> = Vec::new();
    let cnt = t.child_count(node);
    let mut i: usize = 0;
    assert(cs.subrange(0, 0) =~= Seq::<usize>::empty());
    while i < cnt
        invariant
            ctx_ok(*c),
            cnt == super::syntax::children_of(*t, node).len(),
            cs == children_of(*t, node),
            *t == *c.tree,
            i <= cnt,
            shared_well_formed(c.shared) ==> well_formed_forest(results@),
            over_rel(*c, cs.subrange(0, i as int), fuel as nat, results@),
            results@.len() == over_len(*c, cs.subrange(0, i as int), fuel as nat),
        decreases cnt - i,
    {
        let child = t.child(node, i);
        let ghost r0 = results@;
        let ghost next = cs.subrange(0, i + 1);
        assert(next.drop_last() =~= cs.subrange(0, i as int));
        assert(next.last() == child);
        assert(over_len(*c, next, fuel as nat) == over_len(*c, cs.subrange(0, i as int), fuel as nat) + child_len(*c, child, fuel as nat));
        i += 1;
        let ghost f = fuel as nat;
        if is_inert_container(c, child) {
            assert(inert(*c, child));
            assert(child_len(*c, child, f) == 0);
            assert(results@.subrange(0, results@.len() as int) =~= r0);
            assert(child_rel(*c, child, f, results@.subrange(results@.len() as int, results@.len() as int)));
            assert(over_rel(*c, next, f, results@));
            continue;
        }
        if let Some(nodes) = try_match_inclusion(c, child) {
            let ghost nv = nodes@;
            assert(incl_some(*c, child));
            assert(child_len(*c, child, f) == nv.len());
            extend(&mut results, nodes);
            assert(results@.subrange(0, results@.len() - nv.len()) =~= r0);
            assert(results@.subrange(results@.len() - nv.len(), results@.len() as int) =~= nv);
            assert(child_rel(*c, child, f, nv));
        } else if let Some(spec) = try_match_node(c, child, fuel) {
            assert(!incl_some(*c, child));
            assert(child_len(*c, child, f) == 1);
            results.push(spec);
            assert(results@.subrange(0, results@.len() - 1) =~= r0);
            assert(results@.subrange(results@.len() - 1, results@.len() as int)[0] == spec);
            assert(child_rel(*c, child, f, results@.subrange(results@.len() - 1, results@.len() as int)));
        } else if let Some(expanded) = try_expand_loop(c, child, fuel) {
            let ghost ev = expanded@;
            assert(!incl_some(*c, child) && !node_some(*c, child));
            assert(child_len(*c, child, f) == ev.len());
            extend(&mut results, expanded);
            assert(results@.subrange(0, results@.len() - ev.len()) =~= r0);
            assert(results@.subrange(results@.len() - ev.len(), results@.len() as int) =~= ev);
            assert(child_rel(*c, child, f, ev));
        } else if fuel > 0 {
            assert(!incl_some(*c, child) && !node_some(*c, child) && !loop_some(*c, child, f));
            let more = parse_children_in(c, child, fuel - 1);
            let ghost mv = more@;
            assert(child_len(*c, child, f) == mv.len());
            extend(&mut results, more);
            assert(results@.subrange(0, results@.len() - mv.len()) =~= r0);
            assert(results@.subrange(results@.len() - mv.len(), results@.len() as int) =~= mv);
            assert(child_rel(*c, child, f, mv));
        } else {
            assert(!incl_some(*c, child) && !node_some(*c, child) && !loop_some(*c, child, f));
            assert(child_len(*c, child, f) == 0);
            assert(results@.subrange(0, results@.len() as int) =~= r0);
            assert(child_rel(*c, child, f, results@.subrange(results@.len() as int, results@.len() as int)));
        }
        assert(over_rel(*c, next, f, results@));
    }
    assert(cs.subrange(0, i as int) =~= cs);
    results
}

/// The specs below `node`, without shared example resolution.
pub fn parse_children(tree: &SyntaxTree, node: usize, source: &str, framework: &FrameworkDef) -> (r: Vec<SpecNode>)
    ensures
        well_formed_forest(r@),
        forest_rel((Ctx { tree, source, framework, shared: None }), node, tree.nodes@.len() as nat, r@),
        r@.len() == forest_len((Ctx { tree, source, framework, shared: None }), node, tree.nodes@.len() as nat),
{
    parse_children_with_shared(tree, node, source, framework, None)
}

/// The specs below `node`, resolving shared examples and inherited types
/// through `shared` when it is given.
pub fn parse_children_with_shared(
    tree: &SyntaxTree,
    node: usize,
    source: &str,
    framework: &FrameworkDef,
    shared: Option<&SharedExampleRegistry>,
) -> (r: Vec<SpecNode>)
    requires
        shared matches Some(reg) ==> reg.wf(),
    ensures
        shared_well_formed(shared) ==> well_formed_forest(r@),
        forest_rel((Ctx { tree, source, framework, shared }), node, tree.nodes@.len() as nat, r@),
        r@.len() == forest_len((Ctx { tree, source, framework, shared }), node, tree.nodes@.len() as nat),
{
    let c = Ctx { tree, source, framework, shared };
    parse_children_in(&c, node, tree.nodes.len())
}

/// The grammar of a framework's language.
pub fn language_for_framework(framework: &FrameworkDef) -> (r: Option<Grammar>)
    ensures
        r == grammar_of(framework.language@),
{
    grammar_for(framework.language.as_str())
}

/// `t` is the arena of the parse of `source` in the framework's grammar.
pub open spec fn parsed_with(t: SyntaxTree, framework: &FrameworkDef, source: &str) -> bool {
    &&& grammar_of(framework.language@) matches Some(g)
    &&& wf_tree(t.nodes@)
    &&& copied_from(t.nodes@, g, source@)
}

/// The spec tree of a source file, or `None` when the framework's language
/// cannot be parsed or no spec is found.
pub fn parse_file(source: &str, path: &str, framework: &FrameworkDef) -> (r: Option<SpecTree>)
    ensures
        grammar_of(framework.language@) is None ==> r is None,
        r matches Some(tree) ==> tree.root@.len() > 0 && tree.file_path@ == path@ && tree.framework@ == framework.name@,
        r matches Some(tree) ==> well_formed_forest(tree.root@),
        r matches Some(st) ==> exists|t: SyntaxTree|
            #[trigger] parsed_with(t, framework, source) && forest_rel((Ctx { tree: &t, source, framework, shared: None }), 0, t.nodes@.len() as nat, st.root@),
        r is None ==> grammar_of(framework.language@) is None || !grammar_loads(grammar_of(framework.language@)->Some_0)
            || exists|t: SyntaxTree|
            #[trigger] parsed_with(t, framework, source) && forest_rel((Ctx { tree: &t, source, framework, shared: None }), 0, t.nodes@.len() as nat, seq![]),
{
    parse_file_with_shared(source, path, framework, None)
}

/// The spec tree of a source file, resolving shared examples and inherited
/// types through `shared` when it is given.
pub fn parse_file_with_shared(
    source: &str,
    path: &str,
    framework: &FrameworkDef,
    shared: Option<&SharedExampleRegistry>,
) -> (r: Option<SpecTree>)
    requires
        shared matches Some(reg) ==> reg.wf(),
    ensures
        grammar_of(framework.language@) is None ==> r is None,
        r matches Some(tree) ==> tree.root@.len() > 0 && tree.file_path@ == path@ && tree.framework@ == framework.name@,
        shared_well_formed(shared) ==> (r matches Some(tree) ==> well_formed_forest(tree.root@)),
        r matches Some(st) ==> exists|t: SyntaxTree|
            #[trigger] parsed_with(t, framework, source) && forest_rel((Ctx { tree: &t, source, framework, shared }), 0, t.nodes@.len() as nat, st.root@),
        r is None ==> grammar_of(framework.language@) is None || !grammar_loads(grammar_of(framework.language@)->Some_0)
            || exists|t: SyntaxTree|
            #[trigger] parsed_with(t, framework, source) && forest_rel((Ctx { tree: &t, source, framework, shared }), 0, t.nodes@.len() as nat, seq![]),
{
    let grammar = language_for_framework(framework)?;
    let tree = parse_source(grammar, source)?;
    let children = parse_children_with_shared(&tree, 0, source, framework, shared);
    assert(parsed_with(tree, framework, source));
    if children.len() == 0 {
        assert(children@ =~= seq![]);
        return None;
    }
    assert(forest_rel((Ctx { tree: &tree, source, framework, shared }), 0, tree.nodes@.len() as nat, children@));
    Some(SpecTree { file_path: owned(path), framework: owned(framework.name.as_str()), root: children })
}

} // verus!

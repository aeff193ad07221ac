//! Which files a shared example registry is built from: the frameworks
//! that define shared examples or inheritable test types, the globs under
//! which their definitions are listed, and the ordered set of (path,
//! framework) pairs to scan.
use crate::parse::registry::{contains_str, owns_extension, path_extension, path_extension_of, FrameworkDef};
use crate::parse::shared::{same_maps, scan_for_definitions, scan_outcome, SharedExampleRegistry};
use crate::text::{chars_of, string_of, str_eq};
use vstd::prelude::*;

verus! {

// ---------------------------------------------------------------------------
// The order of strings
// ---------------------------------------------------------------------------

/// `a` comes before `b` in the order of `String`: lexicographic by code
/// point, a proper prefix first.
pub open spec fn chars_before(a: Seq<char>, b: Seq<char>) -> bool
    decreases a.len(),
{
    if a.len() == 0 {
        b.len() > 0
    } else if b.len() == 0 {
        false
    } else if a[0] == b[0] {
        chars_before(a.drop_first(), b.drop_first())
    } else {
        a[0] < b[0]
    }
}

/// No string comes before itself.
pub proof fn lemma_chars_before_irreflexive(a: Seq<char>)
    ensures
        !chars_before(a, a),
    decreases a.len(),
{
    if a.len() > 0 {
        lemma_chars_before_irreflexive(a.drop_first());
    }
}

/// The order of strings is transitive.
pub proof fn lemma_chars_before_transitive(a: Seq<char>, b: Seq<char>, c: Seq<char>)
    requires
        chars_before(a, b),
        chars_before(b, c),
    ensures
        chars_before(a, c),
    decreases a.len(),
{
    if a.len() > 0 && b.len() > 0 && c.len() > 0 && a[0] == b[0] && b[0] == c[0] {
        lemma_chars_before_transitive(a.drop_first(), b.drop_first(), c.drop_first());
    }
}

/// Of two different strings, one comes before the other.
pub proof fn lemma_chars_before_total(a: Seq<char>, b: Seq<char>)
    requires
        a != b,
    ensures
        chars_before(a, b) || chars_before(b, a),
    decreases a.len(),
{
    if a.len() > 0 && b.len() > 0 {
        if a[0] == b[0] {
            if a.drop_first() == b.drop_first() {
                assert(a =~= seq![a[0]] + a.drop_first());
                assert(b =~= seq![b[0]] + b.drop_first());
            }
            lemma_chars_before_total(a.drop_first(), b.drop_first());
        } else {
            assert(a[0] != b[0]);
        }
    } else if a.len() == 0 && b.len() == 0 {
        assert(a =~= b);
    }
}

/// A (path, framework name) pair.
pub open spec fn pair_view(p: (String, String)) -> (Seq<char>, Seq<char>) {
    (p.0@, p.1@)
}

/// `a` comes before `b` in the order of `(String, String)`.
pub open spec fn pair_before(a: (Seq<char>, Seq<char>), b: (Seq<char>, Seq<char>)) -> bool {
    chars_before(a.0, b.0) || (a.0 == b.0 && chars_before(a.1, b.1))
}

/// The pairs are in strictly increasing order, so none occurs twice.
pub open spec fn strictly_sorted(v: Seq<(String, String)>) -> bool {
    forall|i: int, j: int| 0 <= i < j < v.len() ==> pair_before(pair_view(#[trigger] v[i]), pair_view(#[trigger] v[j]))
}

/// `v` holds a pair with the text of `y`.
pub open spec fn holds_pair(v: Seq<(String, String)>, y: (Seq<char>, Seq<char>)) -> bool {
    exists|k: int| 0 <= k < v.len() && pair_view(#[trigger] v[k]) == y
}

/// Whether `a` comes before `b` in the order of `String`.
fn str_before(a: &str, b: &str) -> (r: bool)
    ensures
        r == chars_before(a@, b@),
{
    let va = chars_of(a);
    let vb = chars_of(b);
    let mut i: usize = 0;
    assert(a@.subrange(0, a@.len() as int) =~= a@);
    assert(b@.subrange(0, b@.len() as int) =~= b@);
    while i < va.len() && i < vb.len()
        invariant
            va@ == a@,
            vb@ == b@,
            i <= va@.len(),
            i <= vb@.len(),
            chars_before(a@, b@) == chars_before(a@.subrange(i as int, a@.len() as int), b@.subrange(i as int, b@.len() as int)),
        decreases va@.len() - i,
    {
        let ghost sa = a@.subrange(i as int, a@.len() as int);
        let ghost sb = b@.subrange(i as int, b@.len() as int);
        assert(sa.drop_first() =~= a@.subrange(i + 1, a@.len() as int));
        assert(sb.drop_first() =~= b@.subrange(i + 1, b@.len() as int));
        if va[i] != vb[i] {
            return va[i] < vb[i];
        }
        i += 1;
    }
    i < vb.len()
}

/// Whether pair `a` comes before pair `b`.
fn pair_less(a: &(String, String), b: &(String, String)) -> (r: bool)
    ensures
        r == pair_before(pair_view(*a), pair_view(*b)),
{
    str_before(a.0.as_str(), b.0.as_str()) || (str_eq(a.0.as_str(), b.0.as_str()) && str_before(a.1.as_str(), b.1.as_str()))
}

proof fn lemma_pair_before_transitive(a: (Seq<char>, Seq<char>), b: (Seq<char>, Seq<char>), c: (Seq<char>, Seq<char>))
    requires
        pair_before(a, b),
        pair_before(b, c),
    ensures
        pair_before(a, c),
{
    if chars_before(a.0, b.0) && chars_before(b.0, c.0) {
        lemma_chars_before_transitive(a.0, b.0, c.0);
    } else if chars_before(a.0, b.0) {
    } else if chars_before(b.0, c.0) {
    } else {
        lemma_chars_before_transitive(a.1, b.1, c.1);
    }
}

proof fn lemma_pair_before_total(a: (Seq<char>, Seq<char>), b: (Seq<char>, Seq<char>))
    requires
        a != b,
    ensures
        pair_before(a, b) || pair_before(b, a),
{
    if a.0 != b.0 {
        lemma_chars_before_total(a.0, b.0);
    } else {
        lemma_chars_before_total(a.1, b.1);
    }
}

/// Adds a pair to a strictly sorted list, unless a pair with its text is
/// there already.
fn insert_pair(v: &mut Vec<(String, String)>, x: (String, String))
    requires
        strictly_sorted(old(v)@),
    ensures
        strictly_sorted(final(v)@),
        forall|y: (Seq<char>, Seq<char>)| holds_pair(final(v)@, y) <==> (holds_pair(old(v)@, y) || y == pair_view(x)),
{
    let ghost xv = pair_view(x);
    let mut i: usize = 0;
    while i < v.len() && pair_less(&v[i], &x)
        invariant
            i <= v@.len(),
            v@ == old(v)@,
            xv == pair_view(x),
            strictly_sorted(v@),
            forall|k: int| 0 <= k < i ==> pair_before(pair_view(#[trigger] v@[k]), xv),
        decreases v@.len() - i,
    {
        i += 1;
    }
    if i < v.len() && str_eq(v[i].0.as_str(), x.0.as_str()) && str_eq(v[i].1.as_str(), x.1.as_str()) {
        assert(pair_view(v@[i as int]) == xv);
        assert forall|y: (Seq<char>, Seq<char>)| holds_pair(v@, y) <==> (holds_pair(v@, y) || y == xv) by {
            if y == xv {
                assert(pair_view(v@[i as int]) == y);
            }
        }
        return;
    }
    let ghost v0 = v@;
    proof {
        if i < v0.len() {
            lemma_pair_before_total(pair_view(v0[i as int]), xv);
        }
    }
    assert(i < v0.len() ==> pair_before(xv, pair_view(v0[i as int])));
    v.insert(i, x);
    proof {
        lemma_insert_keeps_sorted(v0, i as int, x);
        lemma_insert_holds(v0, i as int, x);
        assert(v@ == v0.insert(i as int, x));
        assert(v0 == old(v)@);
        assert forall|y: (Seq<char>, Seq<char>)| holds_pair(v@, y) <==> (holds_pair(old(v)@, y) || y == pair_view(x)) by {
            assert(holds_pair(v0.insert(i as int, x), y) <==> (holds_pair(v0, y) || y == pair_view(x)));
        }
    }
}

proof fn lemma_insert_keeps_sorted(v0: Seq<(String, String)>, i: int, x: (String, String))
    requires
        0 <= i <= v0.len(),
        strictly_sorted(v0),
        forall|k: int| 0 <= k < i ==> pair_before(pair_view(#[trigger] v0[k]), pair_view(x)),
        i < v0.len() ==> pair_before(pair_view(x), pair_view(v0[i])),
    ensures
        strictly_sorted(v0.insert(i, x)),
{
    let v = v0.insert(i, x);
    let xv = pair_view(x);
    assert forall|a: int, b: int| 0 <= a < b < v.len() implies pair_before(pair_view(#[trigger] v[a]), pair_view(#[trigger] v[b])) by {
        if b < i {
            assert(v[a] == v0[a] && v[b] == v0[b]);
        } else if b == i {
            assert(v[a] == v0[a]);
        } else if a == i {
            assert(v[b] == v0[b - 1]);
            if b - 1 > i {
                lemma_pair_before_transitive(xv, pair_view(v0[i]), pair_view(v0[b - 1]));
            }
        } else if a < i {
            assert(v[a] == v0[a] && v[b] == v0[b - 1]);
        } else {
            assert(v[a] == v0[a - 1] && v[b] == v0[b - 1]);
        }
    }
}

proof fn lemma_insert_holds(v0: Seq<(String, String)>, i: int, x: (String, String))
    requires
        0 <= i <= v0.len(),
    ensures
        forall|y: (Seq<char>, Seq<char>)| holds_pair(v0.insert(i, x), y) <==> (holds_pair(v0, y) || y == pair_view(x)),
{
    let v = v0.insert(i, x);
    assert forall|y: (Seq<char>, Seq<char>)| holds_pair(v, y) <==> (holds_pair(v0, y) || y == pair_view(x)) by {
        if holds_pair(v, y) {
            let k = choose|k: int| 0 <= k < v.len() && pair_view(#[trigger] v[k]) == y;
            if k < i {
                assert(v[k] == v0[k]);
            } else if k > i {
                assert(v[k] == v0[k - 1]);
            }
        }
        if holds_pair(v0, y) {
            let k = choose|k: int| 0 <= k < v0.len() && pair_view(#[trigger] v0[k]) == y;
            if k < i {
                assert(v[k] == v0[k]);
            } else {
                assert(v[k + 1] == v0[k]);
            }
        }
        if y == pair_view(x) {
            assert(v[i] == x);
        }
    }
}

/// The strings are in strictly increasing order, so none occurs twice.
pub open spec fn strictly_sorted_texts(v: Seq<String>) -> bool {
    forall|i: int, j: int| 0 <= i < j < v.len() ==> chars_before((#[trigger] v[i])@, (#[trigger] v[j])@)
}

proof fn lemma_insert_text_sorted(v0: Seq<String>, i: int, x: String)
    requires
        0 <= i <= v0.len(),
        strictly_sorted_texts(v0),
        forall|k: int| 0 <= k < i ==> chars_before((#[trigger] v0[k])@, x@),
        i < v0.len() ==> chars_before(x@, v0[i]@),
    ensures
        strictly_sorted_texts(v0.insert(i, x)),
{
    let v = v0.insert(i, x);
    assert forall|a: int, b: int| 0 <= a < b < v.len() implies chars_before((#[trigger] v[a])@, (#[trigger] v[b])@) by {
        if b < i {
            assert(v[a] == v0[a] && v[b] == v0[b]);
        } else if b == i {
            assert(v[a] == v0[a]);
        } else if a == i {
            assert(v[b] == v0[b - 1]);
            if b - 1 > i {
                lemma_chars_before_transitive(x@, v0[i]@, v0[b - 1]@);
            }
        } else if a < i {
            assert(v[a] == v0[a] && v[b] == v0[b - 1]);
        } else {
            assert(v[a] == v0[a - 1] && v[b] == v0[b - 1]);
        }
    }
}

proof fn lemma_insert_text_holds(v0: Seq<String>, i: int, x: String)
    requires
        0 <= i <= v0.len(),
    ensures
        forall|p: Seq<char>| in_texts(v0.insert(i, x), p) <==> (in_texts(v0, p) || p == x@),
{
    let v = v0.insert(i, x);
    assert forall|p: Seq<char>| in_texts(v, p) <==> (in_texts(v0, p) || p == x@) by {
        if in_texts(v, p) {
            let k = choose|k: int| 0 <= k < v.len() && (#[trigger] v[k])@ == p;
            if k < i {
                assert(v[k] == v0[k]);
            } else if k > i {
                assert(v[k] == v0[k - 1]);
            }
        }
        if in_texts(v0, p) {
            let k = choose|k: int| 0 <= k < v0.len() && (#[trigger] v0[k])@ == p;
            if k < i {
                assert(v[k] == v0[k]);
            } else {
                assert(v[k + 1] == v0[k]);
            }
        }
        if p == x@ {
            assert(v[i] == x);
        }
    }
}

/// Adds a string to a strictly sorted list, unless it is there already.
fn insert_text(v: &mut Vec<String>, x: String)
    requires
        strictly_sorted_texts(old(v)@),
    ensures
        strictly_sorted_texts(final(v)@),
        forall|p: Seq<char>| in_texts(final(v)@, p) <==> (in_texts(old(v)@, p) || p == x@),
{
    let mut i: usize = 0;
    while i < v.len() && str_before(v[i].as_str(), x.as_str())
        invariant
            i <= v@.len(),
            v@ == old(v)@,
            strictly_sorted_texts(v@),
            forall|k: int| 0 <= k < i ==> chars_before((#[trigger] v@[k])@, x@),
        decreases v@.len() - i,
    {
        i += 1;
    }
    if i < v.len() && str_eq(v[i].as_str(), x.as_str()) {
        assert forall|p: Seq<char>| in_texts(v@, p) <==> (in_texts(old(v)@, p) || p == x@) by {
            if p == x@ {
                assert(v@[i as int]@ == p);
            }
        }
        return;
    }
    let ghost v0 = v@;
    proof {
        if i < v0.len() {
            lemma_chars_before_total(v0[i as int]@, x@);
        }
    }
    v.insert(i, x);
    proof {
        lemma_insert_text_sorted(v0, i as int, x);
        lemma_insert_text_holds(v0, i as int, x);
        assert(v0 == old(v)@);
        assert forall|p: Seq<char>| in_texts(v@, p) <==> (in_texts(old(v)@, p) || p == x@) by {
            assert(in_texts(v0.insert(i as int, x), p) <==> (in_texts(v0, p) || p == x@));
        }
    }
}

/// The paths of `a` and of `b`, each once, in the order of `String`.
pub fn path_union(a: &Vec<String>, b: &Vec<String>) -> (r: Vec<String>)
    ensures
        strictly_sorted_texts(r@),
        forall|p: Seq<char>| in_texts(r@, p) <==> (in_texts(a@, p) || in_texts(b@, p)),
{
    let mut out: Vec<String> = Vec::new();
    let mut i: usize = 0;
    assert(a@.subrange(0, 0) =~= Seq::<String>::empty());
    while i < a.len()
        invariant
            i <= a@.len(),
            strictly_sorted_texts(out@),
            forall|p: Seq<char>| in_texts(out@, p) <==> in_texts(a@.subrange(0, i as int), p),
        decreases a@.len() - i,
    {
        insert_text(&mut out, crate::text::owned(a[i].as_str()));
        proof {
            assert forall|p: Seq<char>| in_texts(out@, p) <==> in_texts(a@.subrange(0, i + 1), p) by {
                lemma_in_texts_extend(a@, i as int, p);
            }
        }
        i += 1;
    }
    assert(a@.subrange(0, i as int) =~= a@);
    let mut j: usize = 0;
    assert(b@.subrange(0, 0) =~= Seq::<String>::empty());
    while j < b.len()
        invariant
            j <= b@.len(),
            strictly_sorted_texts(out@),
            forall|p: Seq<char>| in_texts(out@, p) <==> (in_texts(a@, p) || in_texts(b@.subrange(0, j as int), p)),
        decreases b@.len() - j,
    {
        insert_text(&mut out, crate::text::owned(b[j].as_str()));
        proof {
            assert forall|p: Seq<char>| in_texts(out@, p) <==> (in_texts(a@, p) || in_texts(b@.subrange(0, j + 1), p)) by {
                lemma_in_texts_extend(b@, j as int, p);
            }
        }
        j += 1;
    }
    assert(b@.subrange(0, j as int) =~= b@);
    out
}

// ---------------------------------------------------------------------------
// Globs
// ---------------------------------------------------------------------------

/// Whether `glob::Pattern::new` accepts the pattern.
pub uninterp spec fn glob_valid_of(pattern: Seq<char>) -> bool;

/// What matching `path` against the compiled `pattern` gives, or `None`
/// when the pattern does not compile.
pub uninterp spec fn glob_match_of(pattern: Seq<char>, path: Seq<char>) -> Option<bool>;

/// Calls `glob::Pattern::new`; whether it accepts the pattern depends on
/// the pattern alone.
#[verifier::external_body]
fn glob_valid(pattern: &str) -> (r: bool)
    ensures
        r == glob_valid_of(pattern@),
{
    glob::Pattern::new(pattern).is_ok()
}

/// Calls `glob::Pattern::new` on the pattern and `glob::Pattern::matches`
/// on the path; the result depends on the two texts alone, and is `None`
/// exactly when the pattern does not compile.
#[verifier::external_body]
fn glob_match(pattern: &str, path: &str) -> (r: Option<bool>)
    ensures
        r == glob_match_of(pattern@, path@),
        r is Some == glob_valid_of(pattern@),
{
    match glob::Pattern::new(pattern) {
        Ok(p) => Some(p.matches(path)),
        Err(_) => None,
    }
}

// ---------------------------------------------------------------------------
// Frameworks to scan
// ---------------------------------------------------------------------------

/// The framework describes shared example definitions.
pub open spec fn has_definitions(fw: FrameworkDef) -> bool {
    fw.shared matches Some(s) && s.definition@.len() > 0
}

/// The framework collects inheritable test types.
pub open spec fn scans_types(fw: FrameworkDef) -> bool {
    fw.inheritance matches Some(i) && i.enabled
}

/// The framework takes part in a scan: it is the forced one, if any, and
/// it has shared example definitions or test types.
pub open spec fn takes_part(fw: FrameworkDef, forced: Option<Seq<char>>) -> bool {
    &&& (forced matches Some(f) ==> fw.name@ == f)
    &&& (has_definitions(fw) || scans_types(fw))
}

/// The frameworks of `all`, in order, that take part in a scan.
pub open spec fn taking_part(all: Seq<FrameworkDef>, forced: Option<Seq<char>>) -> Seq<FrameworkDef>
    decreases all.len(),
{
    if all.len() == 0 {
        seq![]
    } else if takes_part(all.last(), forced) {
        taking_part(all.drop_last(), forced).push(all.last())
    } else {
        taking_part(all.drop_last(), forced)
    }
}

/// The text of an optional string slice.
pub open spec fn opt_str_view(o: Option<&str>) -> Option<Seq<char>> {
    match o {
        Some(s) => Some(s@),
        None => None,
    }
}

/// Keeps, in order, the frameworks that take part in a scan.
pub fn scan_frameworks(frameworks: Vec<FrameworkDef>, forced: Option<&str>) -> (r: Vec<FrameworkDef>)
    ensures
        r@ == taking_part(frameworks@, opt_str_view(forced)),
{
    let ghost orig = frameworks@;
    let ghost f = opt_str_view(forced);
    let mut rest = frameworks;
    let mut out: Vec<FrameworkDef> = Vec::new();
    let mut done: usize = 0;
    assert(orig.subrange(0, 0) =~= seq![]);
    assert(orig.len() == rest.len());
    while rest.len() > 0
        invariant
            f == opt_str_view(forced),
            orig.len() <= usize::MAX,
            done + rest@.len() == orig.len(),
            rest@ == orig.subrange(done as int, orig.len() as int),
            out@ == taking_part(orig.subrange(0, done as int), f),
        decreases rest@.len(),
    {
        let fw = rest.remove(0);
        let ghost next = orig.subrange(0, done + 1);
        assert(next.drop_last() =~= orig.subrange(0, done as int));
        assert(fw == orig[done as int]);
        let named = match forced {
            Some(n) => str_eq(fw.name.as_str(), n),
            None => true,
        };
        let defines = match &fw.shared {
            Some(s) => s.definition.len() > 0,
            None => false,
        };
        let types = match &fw.inheritance {
            Some(i) => i.enabled,
            None => false,
        };
        if named && (defines || types) {
            out.push(fw);
        }
        done += 1;
        assert(rest@ =~= orig.subrange(done as int, orig.len() as int));
    }
    assert(orig.subrange(0, done as int) =~= orig);
    out
}

/// The texts of a list of strings.
pub open spec fn texts(v: Seq<String>) -> Seq<Seq<char>> {
    Seq::new(v.len(), |i: int| v[i]@)
}

/// The texts of a list with one more string.
proof fn lemma_texts_push(v: Seq<String>, x: String)
    ensures
        texts(v.push(x)) == texts(v).push(x@),
{
    assert(texts(v.push(x)) =~= texts(v).push(x@));
}

/// The compiling patterns among `globs`, in order.
pub open spec fn valid_globs(globs: Seq<Seq<char>>) -> Seq<Seq<char>>
    decreases globs.len(),
{
    if globs.len() == 0 {
        seq![]
    } else if glob_valid_of(globs.last()) {
        valid_globs(globs.drop_last()).push(globs.last())
    } else {
        valid_globs(globs.drop_last())
    }
}

/// The globs under which a framework's extra files are listed: those of
/// its inheritable test types when inheritance is on, then those of its
/// shared example definitions that compile.
pub open spec fn listing_globs_of(fw: FrameworkDef) -> Seq<Seq<char>> {
    let inherited = match fw.inheritance {
        Some(i) => if i.enabled { texts(i.scan_globs@) } else { seq![] },
        None => seq![],
    };
    let defined = match fw.shared {
        Some(s) => valid_globs(texts(s.definition_globs@)),
        None => seq![],
    };
    inherited + defined
}

/// The globs under which a framework's extra files are listed.
pub fn listing_globs(fw: &FrameworkDef) -> (r: Vec<String>)
    ensures
        texts(r@) == listing_globs_of(*fw),
{
    let mut out: Vec<String> = Vec::new();
    if let Some(inh) = &fw.inheritance {
        if inh.enabled {
            let mut i: usize = 0;
            while i < inh.scan_globs.len()
                invariant
                    i <= inh.scan_globs@.len(),
                    texts(out@) == texts(inh.scan_globs@).subrange(0, i as int),
                decreases inh.scan_globs@.len() - i,
            {
                let g = crate::text::owned(inh.scan_globs[i].as_str());
                proof {
                    lemma_texts_push(out@, g);
                }
                out.push(g);
                i += 1;
                assert(texts(out@) =~= texts(inh.scan_globs@).subrange(0, i as int));
            }
            assert(texts(inh.scan_globs@).subrange(0, i as int) =~= texts(inh.scan_globs@));
        }
    }
    let ghost first = texts(out@);
    assert(first =~= match fw.inheritance {
        Some(i) => if i.enabled { texts(i.scan_globs@) } else { seq![] },
        None => seq![],
    });
    if let Some(sh) = &fw.shared {
        let globs = &sh.definition_globs;
        let mut i: usize = 0;
        assert(texts(globs@).subrange(0, 0) =~= seq![]);
        assert(first + seq![] =~= first);
        while i < globs.len()
            invariant
                i <= globs@.len(),
                texts(out@) == first + valid_globs(texts(globs@).subrange(0, i as int)),
            decreases globs@.len() - i,
        {
            let ghost next = texts(globs@).subrange(0, i + 1);
            assert(next.drop_last() =~= texts(globs@).subrange(0, i as int));
            let g = globs[i].as_str();
            if glob_valid(g) {
                let o = crate::text::owned(g);
                proof {
                    lemma_texts_push(out@, o);
                }
                out.push(o);
            }
            i += 1;
            assert(texts(out@) =~= first + valid_globs(next));
        }
        assert(texts(globs@).subrange(0, i as int) =~= texts(globs@));
    } else {
        assert(first + seq![] =~= first);
    }
    out
}

/// The globs of the inheritable test types of all frameworks with
/// inheritance on, in order.
pub open spec fn inheritance_globs_of(fws: Seq<FrameworkDef>) -> Seq<Seq<char>>
    decreases fws.len(),
{
    if fws.len() == 0 {
        seq![]
    } else {
        inheritance_globs_of(fws.drop_last()) + match fws.last().inheritance {
            Some(i) => if i.enabled { texts(i.scan_globs@) } else { seq![] },
            None => seq![],
        }
    }
}

/// The globs of the inheritable test types of all frameworks.
pub fn inheritance_globs(frameworks: &Vec<FrameworkDef>) -> (r: Vec<String>)
    ensures
        texts(r@) == inheritance_globs_of(frameworks@),
{
    let mut out: Vec<String> = Vec::new();
    let mut j: usize = 0;
    assert(frameworks@.subrange(0, 0) =~= seq![]);
    while j < frameworks.len()
        invariant
            j <= frameworks@.len(),
            texts(out@) == inheritance_globs_of(frameworks@.subrange(0, j as int)),
        decreases frameworks@.len() - j,
    {
        let ghost before = texts(out@);
        let ghost next = frameworks@.subrange(0, j + 1);
        assert(next.drop_last() =~= frameworks@.subrange(0, j as int));
        if let Some(inh) = &frameworks[j].inheritance {
            if inh.enabled {
                let mut i: usize = 0;
                while i < inh.scan_globs.len()
                    invariant
                        i <= inh.scan_globs@.len(),
                        texts(out@) == before + texts(inh.scan_globs@).subrange(0, i as int),
                    decreases inh.scan_globs@.len() - i,
                {
                    let g = crate::text::owned(inh.scan_globs[i].as_str());
                    proof {
                        lemma_texts_push(out@, g);
                    }
                    out.push(g);
                    i += 1;
                    assert(texts(out@) =~= before + texts(inh.scan_globs@).subrange(0, i as int));
                }
                assert(texts(inh.scan_globs@).subrange(0, i as int) =~= texts(inh.scan_globs@));
            } else {
                assert(before + seq![] =~= before);
            }
        } else {
            assert(before + seq![] =~= before);
        }
        j += 1;
    }
    assert(frameworks@.subrange(0, j as int) =~= frameworks@);
    out
}


// ---------------------------------------------------------------------------
// Files to scan
// ---------------------------------------------------------------------------

/// The framework scans the test files it owns: for its shared example
/// definitions when it asks for that, or for its test types.
pub open spec fn scans_owned(fw: FrameworkDef) -> bool {
    (has_definitions(fw) && (fw.shared matches Some(s) && s.scan_spec_files_for_definitions)) || scans_types(fw)
}

/// `p` is the text of one of the strings of `v`.
pub open spec fn in_texts(v: Seq<String>, p: Seq<char>) -> bool {
    exists|k: int| 0 <= k < v.len() && (#[trigger] v[k])@ == p
}

/// The framework owns the file at `p`, by its extension.
pub open spec fn owns_path(fw: FrameworkDef, p: Seq<char>) -> bool {
    match path_extension_of(p) {
        Some(e) => owns_extension(fw, seq!['.'] + e),
        None => false,
    }
}

/// One of the framework's shared example definition globs matches `p`.
pub open spec fn definition_glob_matches(fw: FrameworkDef, p: Seq<char>) -> bool {
    fw.shared matches Some(s) && exists|k: int|
        0 <= k < s.definition_globs@.len() && glob_match_of((#[trigger] s.definition_globs@[k])@, p) == Some(true)
}

/// The file at `p` is scanned with `fw`, whose globs listed `listed`: it
/// is a given path that the framework owns and scans, a listed path, or a
/// given path that one of its definition globs matches.
pub open spec fn scanned_with(fw: FrameworkDef, listed: Seq<String>, all_paths: Seq<String>, p: Seq<char>) -> bool {
    ||| (scans_owned(fw) && in_texts(all_paths, p) && owns_path(fw, p))
    ||| in_texts(listed, p)
    ||| (in_texts(all_paths, p) && definition_glob_matches(fw, p))
}

/// `y` (a path and a framework name) is scanned for one of the requests.
pub open spec fn is_scan_target(requests: Seq<(FrameworkDef, Vec<String>)>, all_paths: Seq<String>, y: (Seq<char>, Seq<char>)) -> bool {
    exists|j: int| 0 <= j < requests.len() && #[trigger] requests[j].0.name@ == y.1 && scanned_with(requests[j].0, requests[j].1@, all_paths, y.0)
}

/// Whether the framework owns the file at `path`.
fn owns_file(fw: &FrameworkDef, path: &str) -> (r: bool)
    ensures
        r == owns_path(*fw, path@),
{
    match path_extension(path) {
        Some(e) => {
            let mut d: Vec<char> = Vec::new();
            d.push('.');
            let ev = chars_of(e.as_str());
            crate::text::push_chars(&mut d, &ev);
            let dotted = string_of(&d);
            assert(dotted@ =~= seq!['.'] + e@);
            match &fw.files {
                Some(f) => contains_str(&f.extensions, dotted.as_str()),
                None => false,
            }
        },
        None => false,
    }
}

/// Whether one of the framework's definition globs matches `path`.
fn definition_glob_hits(fw: &FrameworkDef, path: &str) -> (r: bool)
    ensures
        r == definition_glob_matches(*fw, path@),
{
    match &fw.shared {
        Some(s) => {
            let globs = &s.definition_globs;
            let mut k: usize = 0;
            while k < globs.len()
                invariant
                    k <= globs@.len(),
                    fw.shared is Some,
                    globs@ == fw.shared.unwrap().definition_globs@,
                    forall|m: int| 0 <= m < k ==> glob_match_of((#[trigger] globs@[m])@, path@) != Some(true),
                decreases globs@.len() - k,
            {
                let hit = match glob_match(globs[k].as_str(), path) {
                    Some(b) => b,
                    None => false,
                };
                if hit {
                    return true;
                }
                k += 1;
            }
            false
        },
        None => false,
    }
}

/// The pair of a path and a framework name.
fn pair_of(path: &str, name: &str) -> (r: (String, String))
    ensures
        pair_view(r) == (path@, name@),
{
    (crate::text::owned(path), crate::text::owned(name))
}

/// A path among the first `n` strings of `v` has the text `p`.
proof fn lemma_in_texts_extend(v: Seq<String>, n: int, p: Seq<char>)
    requires
        0 <= n < v.len(),
    ensures
        in_texts(v.subrange(0, n + 1), p) <==> (in_texts(v.subrange(0, n), p) || v[n]@ == p),
{
    let a = v.subrange(0, n);
    let b = v.subrange(0, n + 1);
    if in_texts(b, p) {
        let m = choose|m: int| 0 <= m < b.len() && (#[trigger] b[m])@ == p;
        if m < n {
            assert(a[m] == b[m]);
        }
    }
    if in_texts(a, p) {
        let m = choose|m: int| 0 <= m < a.len() && (#[trigger] a[m])@ == p;
        assert(a[m] == b[m]);
    }
    if v[n]@ == p {
        assert(b[n] == v[n]);
    }
}

/// A given path the framework scans for what it owns or defines.
pub open spec fn own_hit(fw: FrameworkDef, p: Seq<char>) -> bool {
    (scans_owned(fw) && owns_path(fw, p)) || definition_glob_matches(fw, p)
}

/// Adds to `out` the pairs of `fw`'s name with the files that one request
/// scans.
fn add_request(out: &mut Vec<(String, String)>, fw: &FrameworkDef, listed: &Vec<String>, all_paths: &Vec<String>)
    requires
        strictly_sorted(old(out)@),
    ensures
        strictly_sorted(final(out)@),
        forall|y: (Seq<char>, Seq<char>)| holds_pair(final(out)@, y) <==> (holds_pair(old(out)@, y) || (y.1 == fw.name@ && scanned_with(*fw, listed@, all_paths@, y.0))),
{
    let name = fw.name.as_str();
    let defines = match &fw.shared {
        Some(s) => s.definition.len() > 0 && s.scan_spec_files_for_definitions,
        None => false,
    };
    let types = match &fw.inheritance {
        Some(i) => i.enabled,
        None => false,
    };
    let owned_too = defines || types;
    assert(owned_too == scans_owned(*fw));
    let mut i: usize = 0;
    assert(all_paths@.subrange(0, 0) =~= Seq::<String>::empty());
    while i < all_paths.len()
        invariant
            i <= all_paths@.len(),
            strictly_sorted(out@),
            owned_too == scans_owned(*fw),
            name@ == fw.name@,
            forall|y: (Seq<char>, Seq<char>)| holds_pair(out@, y) <==> (holds_pair(old(out)@, y) || (y.1 == fw.name@ && in_texts(all_paths@.subrange(0, i as int), y.0) && own_hit(*fw, y.0))),
        decreases all_paths@.len() - i,
    {
        let p = all_paths[i].as_str();
        let ghost o0 = out@;
        if (owned_too && owns_file(fw, p)) || definition_glob_hits(fw, p) {
            insert_pair(out, pair_of(p, name));
        }
        proof {
            assert forall|y: (Seq<char>, Seq<char>)| holds_pair(out@, y) <==> (holds_pair(old(out)@, y) || (y.1 == fw.name@ && in_texts(all_paths@.subrange(0, i + 1), y.0) && own_hit(*fw, y.0))) by {
                lemma_in_texts_extend(all_paths@, i as int, y.0);
            }
        }
        i += 1;
    }
    assert(all_paths@.subrange(0, i as int) =~= all_paths@);
    let mut k: usize = 0;
    assert(listed@.subrange(0, 0) =~= Seq::<String>::empty());
    while k < listed.len()
        invariant
            k <= listed@.len(),
            strictly_sorted(out@),
            name@ == fw.name@,
            forall|y: (Seq<char>, Seq<char>)| holds_pair(out@, y) <==> (holds_pair(old(out)@, y) || (y.1 == fw.name@ && ((in_texts(all_paths@, y.0) && own_hit(*fw, y.0)) || in_texts(listed@.subrange(0, k as int), y.0)))),
        decreases listed@.len() - k,
    {
        insert_pair(out, pair_of(listed[k].as_str(), name));
        proof {
            assert forall|y: (Seq<char>, Seq<char>)| holds_pair(out@, y) <==> (holds_pair(old(out)@, y) || (y.1 == fw.name@ && ((in_texts(all_paths@, y.0) && own_hit(*fw, y.0)) || in_texts(listed@.subrange(0, k + 1), y.0)))) by {
                lemma_in_texts_extend(listed@, k as int, y.0);
            }
        }
        k += 1;
    }
    assert(listed@.subrange(0, k as int) =~= listed@);
}

/// The files to scan for each framework, with the framework's name:
/// every pair once, in the order of `(String, String)`.
pub fn scan_targets(requests: &Vec<(FrameworkDef, Vec<String>)>, all_paths: &Vec<String>) -> (r: Vec<(String, String)>)
    ensures
        strictly_sorted(r@),
        forall|y: (Seq<char>, Seq<char>)| holds_pair(r@, y) <==> is_scan_target(requests@, all_paths@, y),
{
    let mut out: Vec<(String, String)> = Vec::new();
    let mut j: usize = 0;
    while j < requests.len()
        invariant
            j <= requests@.len(),
            strictly_sorted(out@),
            forall|y: (Seq<char>, Seq<char>)| holds_pair(out@, y) <==> is_scan_target(requests@.subrange(0, j as int), all_paths@, y),
        decreases requests@.len() - j,
    {
        let ghost before = out@;
        add_request(&mut out, &requests[j].0, &requests[j].1, all_paths);
        proof {
            let a = requests@.subrange(0, j as int);
            let b = requests@.subrange(0, j + 1);
            assert forall|y: (Seq<char>, Seq<char>)| is_scan_target(b, all_paths@, y) <==> (is_scan_target(a, all_paths@, y) || (y.1 == requests@[j as int].0.name@ && scanned_with(requests@[j as int].0, requests@[j as int].1@, all_paths@, y.0))) by {
                if is_scan_target(b, all_paths@, y) {
                    let w = choose|w: int| 0 <= w < b.len() && #[trigger] b[w].0.name@ == y.1 && scanned_with(b[w].0, b[w].1@, all_paths@, y.0);
                    if w < j {
                        assert(a[w] == b[w]);
                    }
                }
                if is_scan_target(a, all_paths@, y) {
                    let w = choose|w: int| 0 <= w < a.len() && #[trigger] a[w].0.name@ == y.1 && scanned_with(a[w].0, a[w].1@, all_paths@, y.0);
                    assert(a[w] == b[w]);
                }
                if y.1 == requests@[j as int].0.name@ && scanned_with(requests@[j as int].0, requests@[j as int].1@, all_paths@, y.0) {
                    assert(b[j as int] == requests@[j as int]);
                }
            }
        }
        j += 1;
    }
    assert(requests@.subrange(0, j as int) =~= requests@);
    out
}

/// The first request, if any, for the framework named `name`.
fn first_request(requests: &Vec<(FrameworkDef, Vec<String>)>, name: &str) -> (r: Option<usize>)
    ensures
        match r {
            Some(j) => is_first_request(requests@, name@, j as int),
            None => forall|i: int| 0 <= i < requests@.len() ==> (#[trigger] requests@[i]).0.name@ != name@,
        },
{
    let mut j: usize = 0;
    while j < requests.len()
        invariant
            j <= requests@.len(),
            forall|i: int| 0 <= i < j ==> (#[trigger] requests@[i]).0.name@ != name@,
        decreases requests@.len() - j,
    {
        if str_eq(requests[j].0.name.as_str(), name) {
            return Some(j);
        }
        j += 1;
    }
    None
}

/// Request `j` is the first one for the framework named `name`.
pub open spec fn is_first_request(requests: Seq<(FrameworkDef, Vec<String>)>, name: Seq<char>, j: int) -> bool {
    &&& 0 <= j < requests.len()
    &&& requests[j].0.name@ == name
    &&& forall|i: int| 0 <= i < j ==> (#[trigger] requests[i]).0.name@ != name
}

/// What scanning one target makes of the registry: a target whose content
/// could not be read, or whose framework was not requested, changes
/// nothing; else its content is scanned with the first request for it.
pub open spec fn target_scanned(
    before: SharedExampleRegistry,
    after: SharedExampleRegistry,
    requests: Seq<(FrameworkDef, Vec<String>)>,
    name: Seq<char>,
    content: Option<String>,
) -> bool {
    match content {
        None => same_maps(before, after),
        Some(c) => {
            ||| (forall|i: int| 0 <= i < requests.len() ==> (#[trigger] requests[i]).0.name@ != name) && same_maps(before, after)
            ||| exists|j: int| #[trigger] is_first_request(requests, name, j) && scan_outcome(before, after, c@, requests[j].0)
        },
    }
}

/// `regs` are the registries after each target in turn, from an empty one
/// to one holding what `r` holds.
pub open spec fn scanned_in_turn(
    regs: Seq<SharedExampleRegistry>,
    requests: Seq<(FrameworkDef, Vec<String>)>,
    targets: Seq<(String, String)>,
    contents: Seq<Option<String>>,
    r: SharedExampleRegistry,
) -> bool {
    let m = if targets.len() <= contents.len() { targets.len() } else { contents.len() };
    &&& regs.len() == m + 1
    &&& regs[0].definitions_map().dom().len() == 0
    &&& regs[0].types_map().dom().len() == 0
    &&& regs[0].refs_map().dom().len() == 0
    &&& forall|k: int| 0 <= k < m ==> target_scanned(#[trigger] regs[k], regs[k + 1], requests, targets[k].1@, contents[k])
    &&& same_maps(regs[m as int], r)
}

/// A shared example registry built by scanning each target whose content
/// could be read (`contents[k]` for `targets[k]`) with the first requested
/// framework of the target's name, starting from an empty registry.
pub fn registry_from(requests: &Vec<(FrameworkDef, Vec<String>)>, targets: &Vec<(String, String)>, contents: &Vec<Option<String>>) -> (r: SharedExampleRegistry)
    ensures
        r.wf(),
        r.contents_well_formed(),
        exists|regs: Seq<SharedExampleRegistry>| #[trigger] scanned_in_turn(regs, requests@, targets@, contents@, r),
{
    let mut registry = SharedExampleRegistry::new();
    let ghost mut regs: Seq<SharedExampleRegistry> = seq![registry];
    let mut k: usize = 0;
    while k < targets.len() && k < contents.len()
        invariant
            registry.wf(),
            registry.contents_well_formed(),
            k <= targets@.len(),
            k <= contents@.len(),
            regs.len() == k + 1,
            regs[0].definitions_map().dom().len() == 0,
            regs[0].types_map().dom().len() == 0,
            regs[0].refs_map().dom().len() == 0,
            forall|i: int| 0 <= i < k ==> target_scanned(#[trigger] regs[i], regs[i + 1], requests@, targets@[i].1@, contents@[i]),
            regs[k as int] == registry,
        decreases targets@.len() - k,
    {
        let ghost before = registry;
        if let Some(content) = &contents[k] {
            let name = targets[k].1.as_str();
            match first_request(requests, name) {
                Some(j) => {
                    scan_for_definitions(content.as_str(), &requests[j].0, &mut registry);
                    assert(is_first_request(requests@, targets@[k as int].1@, j as int));
                },
                None => {},
            }
        }
        proof {
            let r0 = regs;
            regs = regs.push(registry);
            assert forall|i: int| 0 <= i < k + 1 implies target_scanned(#[trigger] regs[i], regs[i + 1], requests@, targets@[i].1@, contents@[i]) by {
                if i < k {
                    assert(regs[i] == r0[i] && regs[i + 1] == r0[i + 1]);
                }
            }
        }
        k += 1;
    }
    assert(scanned_in_turn(regs, requests@, targets@, contents@, registry));
    registry
}

} // verus!

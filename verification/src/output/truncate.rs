//! Collapsing long runs of unchanged lines into one ellipsis line.
use vstd::prelude::*;

verus! {

/// Unchanged lines kept before an ellipsis.
pub const CONTEXT_HEAD: usize = 3;

/// Unchanged lines kept after an ellipsis.
pub const CONTEXT_TAIL: usize = 2;

/// The end (exclusive) of the run of marked positions that starts at `i`.
pub open spec fn run_end(m: Seq<bool>, i: int) -> int
    decreases m.len() - i,
{
    if i < 0 || i >= m.len() || !m[i] {
        i
    } else {
        run_end(m, i + 1)
    }
}

/// Pieces that keep the input lines `a .. b`, in order: `(true, index)`.
pub open spec fn keeps(a: int, b: int) -> Seq<(bool, int)> {
    Seq::new((b - a) as nat, |k: int| (true, a + k))
}

/// The output of truncation from position `i` on, as pieces: `(true, i)`
/// keeps input line `i`; `(false, h)` is an ellipsis for `h` hidden lines.
/// A run of more than `head + tail + 1` marked (unchanged) lines keeps its
/// first `head` and last `tail` lines around one ellipsis.
pub open spec fn plan_from(m: Seq<bool>, i: int, head: int, tail: int) -> Seq<(bool, int)>
    decreases m.len() - i,
{
    if i < 0 || i >= m.len() {
        seq![]
    } else if !m[i] {
        seq![(true, i)] + plan_from(m, i + 1, head, tail)
    } else {
        let e = run_end(m, i);
        proof {
            lemma_run_end_bounds(m, i);
        }
        if e <= i {
            seq![]
        } else if e - i > head + tail + 1 {
            keeps(i, i + head) + seq![(false, e - i - head - tail)] + keeps(e - tail, e)
                + plan_from(m, e, head, tail)
        } else {
            keeps(i, e) + plan_from(m, e, head, tail)
        }
    }
}

/// `out` is the sequence of pieces `pl` made concrete: kept lines are the
/// input lines, ellipses are what `ellipsis` returned for the hidden count.
pub open spec fn realizes<T, G: Fn(usize) -> T>(
    pl: Seq<(bool, int)>,
    lines: Seq<T>,
    out: Seq<T>,
    ellipsis: G,
) -> bool {
    &&& out.len() == pl.len()
    &&& forall|k: int|
        0 <= k < pl.len() ==> (if (#[trigger] pl[k]).0 {
            0 <= pl[k].1 < lines.len() && out[k] == lines[pl[k].1]
        } else {
            0 <= pl[k].1 <= usize::MAX && call_ensures(ellipsis, (pl[k].1 as usize,), out[k])
        })
}

/// A run ends inside the sequence, after its start, and is all marked.
pub proof fn lemma_run_end_bounds(m: Seq<bool>, i: int)
    requires
        0 <= i <= m.len(),
    ensures
        i <= run_end(m, i) <= m.len(),
        forall|k: int| i <= k < run_end(m, i) ==> m[k],
    decreases m.len() - i,
{
    if i < m.len() && m[i] {
        lemma_run_end_bounds(m, i + 1);
    }
}

/// The piece list from `j` on keeps every unchanged-run-free line `i`
/// at or after `j`.
proof fn lemma_plan_from_keeps(m: Seq<bool>, j: int, i: int, head: int, tail: int)
    requires
        0 <= j <= i < m.len(),
        !m[i],
        head >= 0,
        tail >= 0,
    ensures
        exists|k: int| 0 <= k < plan_from(m, j, head, tail).len() && plan_from(m, j, head, tail)[k] == (true, i),
    decreases m.len() - j,
{
    let p = plan_from(m, j, head, tail);
    if j == i {
        assert(p[0] == (true, i));
    } else if !m[j] {
        lemma_plan_from_keeps(m, j + 1, i, head, tail);
        let q = plan_from(m, j + 1, head, tail);
        let k = choose|k: int| 0 <= k < q.len() && q[k] == (true, i);
        assert(p == seq![(true, j)] + q);
        assert(p[k + 1] == (true, i));
    } else {
        lemma_run_end_bounds(m, j);
        let e = run_end(m, j);
        assert(e == run_end(m, j + 1));
        lemma_run_end_bounds(m, j + 1);
        if i < e {
            assert(m[i]);
        }
        lemma_plan_from_keeps(m, e, i, head, tail);
        let q = plan_from(m, e, head, tail);
        let k = choose|k: int| 0 <= k < q.len() && q[k] == (true, i);
        let pre = if e - j > head + tail + 1 {
            keeps(j, j + head) + seq![(false, e - j - head - tail)] + keeps(e - tail, e)
        } else {
            keeps(j, e)
        };
        assert(p == pre + q);
        assert(p[pre.len() + k] == (true, i));
    }
}

/// Truncation never hides a changed line: every line that is not marked
/// unchanged is kept.
pub proof fn lemma_changed_lines_kept(m: Seq<bool>, i: int, head: int, tail: int)
    requires
        0 <= i < m.len(),
        !m[i],
        head >= 0,
        tail >= 0,
    ensures
        exists|k: int| 0 <= k < plan_from(m, 0, head, tail).len() && plan_from(m, 0, head, tail)[k] == (true, i),
{
    lemma_plan_from_keeps(m, 0, i, head, tail);
}

/// No run of marked positions from `j` on is longer than `limit`.
pub open spec fn runs_at_most(m: Seq<bool>, j: int, limit: int) -> bool {
    forall|x: int| j <= x < m.len() && m[x] ==> #[trigger] run_end(m, x) - x <= limit
}

/// Runs of at most `head + tail + 1` unchanged lines stay intact: when no
/// run is longer, truncation keeps every line, in order.
pub proof fn lemma_short_runs_intact(m: Seq<bool>, j: int, head: int, tail: int)
    requires
        0 <= j <= m.len(),
        head >= 0,
        tail >= 0,
        runs_at_most(m, j, head + tail + 1),
    ensures
        plan_from(m, j, head, tail) == keeps(j, m.len() as int),
    decreases m.len() - j,
{
    if j < m.len() {
        if !m[j] {
            lemma_short_runs_intact(m, j + 1, head, tail);
            assert(seq![(true, j)] + keeps(j + 1, m.len() as int) =~= keeps(j, m.len() as int));
        } else {
            lemma_run_end_bounds(m, j);
            let e = run_end(m, j);
            assert(e == run_end(m, j + 1));
            lemma_run_end_bounds(m, j + 1);
            assert(run_end(m, j) - j <= head + tail + 1);
            lemma_short_runs_intact(m, e, head, tail);
            assert(keeps(j, e) + keeps(e, m.len() as int) =~= keeps(j, m.len() as int));
        }
    } else {
        assert(keeps(j, m.len() as int) =~= Seq::<(bool, int)>::empty());
    }
}

/// Moves the first `cnt` elements of `src` to the end of `out`.
fn move_front<T>(src: &mut Vec<T>, out: &mut Vec<T>, cnt: usize)
    requires
        cnt <= old(src)@.len(),
    ensures
        final(out)@ == old(out)@ + old(src)@.subrange(0, cnt as int),
        final(src)@ == old(src)@.subrange(cnt as int, old(src)@.len() as int),
{
    let ghost s0 = src@;
    let ghost o0 = out@;
    let mut c: usize = 0;
    while c < cnt
        invariant
            cnt <= s0.len(),
            c <= cnt,
            out@ == o0 + s0.subrange(0, c as int),
            src@ == s0.subrange(c as int, s0.len() as int),
        decreases cnt - c,
    {
        let x = src.remove(0);
        out.push(x);
        c += 1;
        assert(out@ =~= o0 + s0.subrange(0, c as int));
        assert(src@ =~= s0.subrange(c as int, s0.len() as int));
    }
}

/// Drops the first `cnt` elements of `src`.
fn drop_front<T>(src: &mut Vec<T>, cnt: usize)
    requires
        cnt <= old(src)@.len(),
    ensures
        final(src)@ == old(src)@.subrange(cnt as int, old(src)@.len() as int),
{
    let ghost s0 = src@;
    let mut c: usize = 0;
    while c < cnt
        invariant
            cnt <= s0.len(),
            c <= cnt,
            src@ == s0.subrange(c as int, s0.len() as int),
        decreases cnt - c,
    {
        let _x = src.remove(0);
        c += 1;
        assert(src@ =~= s0.subrange(c as int, s0.len() as int));
    }
}

/// Appending kept lines `a .. b` to a realized prefix keeps it realized.
proof fn lemma_realize_keeps<T, G: Fn(usize) -> T>(
    pl: Seq<(bool, int)>,
    lines: Seq<T>,
    out: Seq<T>,
    ellipsis: G,
    a: int,
    b: int,
)
    requires
        realizes(pl, lines, out, ellipsis),
        0 <= a <= b <= lines.len(),
    ensures
        realizes(pl + keeps(a, b), lines, out + lines.subrange(a, b), ellipsis),
{
    let npl = pl + keeps(a, b);
    let nout = out + lines.subrange(a, b);
    assert forall|k: int| 0 <= k < npl.len() implies (if (#[trigger] npl[k]).0 {
        0 <= npl[k].1 < lines.len() && nout[k] == lines[npl[k].1]
    } else {
        0 <= npl[k].1 <= usize::MAX && call_ensures(ellipsis, (npl[k].1 as usize,), nout[k])
    }) by {
        if k < pl.len() {
            assert(npl[k] == pl[k]);
            assert(nout[k] == out[k]);
        } else {
            assert(npl[k] == (true, a + (k - pl.len())));
            assert(nout[k] == lines[a + (k - pl.len())]);
        }
    }
}

/// Moves `head` elements to `out`, drops `hidden`, pushes `gap`, then moves
/// `tail` more.
fn emit_long<T>(src: &mut Vec<T>, out: &mut Vec<T>, head: usize, hidden: usize, tail: usize, gap: T)
    requires
        head + hidden + tail <= old(src)@.len(),
    ensures
        final(out)@ == old(out)@ + old(src)@.subrange(0, head as int) + seq![gap] + old(src)@.subrange(
            head + hidden,
            head + hidden + tail,
        ),
        final(src)@ == old(src)@.subrange(head + hidden + tail, old(src)@.len() as int),
{
    let ghost s0 = src@;
    move_front(src, out, head);
    drop_front(src, hidden);
    out.push(gap);
    move_front(src, out, tail);
    assert(s0.subrange(head as int, s0.len() as int).subrange(hidden as int, s0.len() - head) =~= s0.subrange(head + hidden, s0.len() as int));
    assert(s0.subrange(head + hidden, s0.len() as int).subrange(0, tail as int) =~= s0.subrange(head + hidden, head + hidden + tail));
    assert(s0.subrange(head + hidden, s0.len() as int).subrange(tail as int, s0.len() - head - hidden) =~= s0.subrange(head + hidden + tail, s0.len() as int));
}

/// Realizing a long run: kept head, one ellipsis, kept tail.
proof fn lemma_realize_long<T, G: Fn(usize) -> T>(
    pl: Seq<(bool, int)>,
    lines: Seq<T>,
    out: Seq<T>,
    ellipsis: G,
    i: int,
    head: int,
    hidden: usize,
    tail: int,
    gap: T,
)
    requires
        realizes(pl, lines, out, ellipsis),
        0 <= i,
        0 <= head,
        0 <= tail,
        i + head + hidden + tail <= lines.len(),
        call_ensures(ellipsis, (hidden,), gap),
    ensures
        realizes(
            pl + keeps(i, i + head) + seq![(false, hidden as int)] + keeps(i + head + hidden, i + head + hidden + tail),
            lines,
            out + lines.subrange(i, i + head) + seq![gap] + lines.subrange(i + head + hidden, i + head + hidden + tail),
            ellipsis,
        ),
{
    lemma_realize_keeps(pl, lines, out, ellipsis, i, i + head);
    let p1 = pl + keeps(i, i + head);
    let o1 = out + lines.subrange(i, i + head);
    let p2 = p1 + seq![(false, hidden as int)];
    let o2 = o1 + seq![gap];
    assert forall|k: int| 0 <= k < p2.len() implies (if (#[trigger] p2[k]).0 {
        0 <= p2[k].1 < lines.len() && o2[k] == lines[p2[k].1]
    } else {
        0 <= p2[k].1 <= usize::MAX && call_ensures(ellipsis, (p2[k].1 as usize,), o2[k])
    }) by {
        if k < p1.len() {
            assert(p2[k] == p1[k]);
            assert(o2[k] == o1[k]);
        }
    }
    lemma_realize_keeps(p2, lines, o2, ellipsis, i + head + hidden, i + head + hidden + tail);
}

/// Replaces every run of more than `head + tail + 1` consecutive lines for
/// which `is_unchanged` holds by its first `head` lines, one line made by
/// `make_ellipsis` from the number of lines hidden, and its last `tail`
/// lines. Other lines stay as they are, in order.
pub fn truncate_unchanged_runs<T, F, G>(
    lines: &mut Vec<T>,
    head: usize,
    tail: usize,
    is_unchanged: F,
    make_ellipsis: G,
) where F: Fn(&T) -> bool, G: Fn(usize) -> T
    requires
        head + tail + 1 <= usize::MAX,
        forall|k: int| 0 <= k < old(lines)@.len() ==> call_requires(is_unchanged, (&old(lines)@[k],)),
        forall|h: usize| call_requires(make_ellipsis, (h,)),
    ensures
        exists|m: Seq<bool>|
            {
                &&& m.len() == old(lines)@.len()
                &&& forall|k: int|
                    0 <= k < m.len() ==> call_ensures(is_unchanged, (&old(lines)@[k],), #[trigger] m[k])
                &&& realizes(plan_from(m, 0, head as int, tail as int), old(lines)@, final(lines)@, make_ellipsis)
            },
{
    let ghost orig = lines@;
    let n = lines.len();
    let mut marks: Vec<bool> = Vec::new();
    let mut i: usize = 0;
    while i < n
        invariant
            n == orig.len(),
            lines@ == orig,
            i <= n,
            marks@.len() == i,
            forall|k: int| 0 <= k < orig.len() ==> call_requires(is_unchanged, (&orig[k],)),
            forall|k: int| 0 <= k < i ==> call_ensures(is_unchanged, (&orig[k],), #[trigger] marks@[k]),
        decreases n - i,
    {
        let u = is_unchanged(&lines[i]);
        marks.push(u);
        i += 1;
    }
    let ghost m = marks@;
    let mut src: Vec<T> = Vec::new();
    std::mem::swap(&mut src, lines);
    let mut out: Vec<T> = Vec::new();
    let ghost mut pl: Seq<(bool, int)> = seq![];
    assert(pl + plan_from(m, 0, head as int, tail as int) =~= plan_from(m, 0, head as int, tail as int));
    assert(src@.subrange(0, src@.len() as int) =~= src@);
    i = 0;
    while i < n
        invariant
            n == orig.len(),
            m == marks@,
            m.len() == n,
            i <= n,
            head + tail + 1 <= usize::MAX,
            forall|h: usize| call_requires(make_ellipsis, (h,)),
            src@ == orig.subrange(i as int, n as int),
            pl + plan_from(m, i as int, head as int, tail as int) == plan_from(m, 0, head as int, tail as int),
            realizes(pl, orig, out@, make_ellipsis),
        decreases n - i,
    {
        if !marks[i] {
            proof {
                lemma_realize_keeps(pl, orig, out@, make_ellipsis, i as int, i + 1);
                assert(keeps(i as int, i + 1) =~= seq![(true, i as int)]);
                assert(pl + plan_from(m, i as int, head as int, tail as int) =~= (pl + keeps(i as int, i + 1)) + plan_from(m, i + 1, head as int, tail as int));
                pl = pl + keeps(i as int, i + 1);
            }
            move_front(&mut src, &mut out, 1);
            assert(orig.subrange(i as int, i + 1) =~= src@.subrange(0, 0) + orig.subrange(i as int, i + 1));
            i += 1;
            assert(src@ =~= orig.subrange(i as int, n as int));
        } else {
            let mut j = i;
            while j < n && marks[j]
                invariant
                    i <= j <= n,
                    m == marks@,
                    m.len() == n,
                    run_end(m, i as int) == run_end(m, j as int),
                decreases n - j,
            {
                j += 1;
            }
            proof {
                lemma_run_end_bounds(m, i as int);
            }
            let ghost e = j as int;
            assert(run_end(m, i as int) == e);
            let len = j - i;
            if len > head + tail + 1 {
                let hidden = len - head - tail;
                let gap = make_ellipsis(hidden);
                let ghost s0 = src@;
                let ghost out0 = out@;
                emit_long(&mut src, &mut out, head, hidden, tail, gap);
                proof {
                    assert(s0.subrange(0, head as int) =~= orig.subrange(i as int, i + head));
                    assert(s0.subrange(head + hidden, head + hidden + tail) =~= orig.subrange(e - tail, e));
                    lemma_realize_long(pl, orig, out0, make_ellipsis, i as int, head as int, hidden, tail as int, gap);
                    assert(i + head + hidden == e - tail);
                    assert(pl + plan_from(m, i as int, head as int, tail as int) =~= (pl + keeps(i as int, i + head) + seq![(false, hidden as int)] + keeps(e - tail, e)) + plan_from(m, e, head as int, tail as int));
                    pl = pl + keeps(i as int, i + head) + seq![(false, hidden as int)] + keeps(e - tail, e);
                }
            } else {
                let ghost s0 = src@;
                move_front(&mut src, &mut out, len);
                proof {
                    assert(s0.subrange(0, len as int) =~= orig.subrange(i as int, e));
                    lemma_realize_keeps(pl, orig, out@.subrange(0, out@.len() - len as int), make_ellipsis, i as int, e);
                    assert(out@.subrange(0, out@.len() - len as int) + orig.subrange(i as int, e) =~= out@);
                    assert(pl + plan_from(m, i as int, head as int, tail as int) =~= (pl + keeps(i as int, e)) + plan_from(m, e, head as int, tail as int));
                    pl = pl + keeps(i as int, e);
                }
            }
            i = j;
            assert(src@ =~= orig.subrange(i as int, n as int));
        }
    }
    assert(plan_from(m, n as int, head as int, tail as int) =~= Seq::<(bool, int)>::empty());
    assert(pl =~= plan_from(m, 0, head as int, tail as int));
    *lines = out;
}

} // verus!

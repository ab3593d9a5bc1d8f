//! What renumbering does to the references a formula holds: reading the references of a
//! renumbered formula gives back the original references' sheet IDs passed through the map.
use vstd::prelude::*;

use crate::sheet_refs::{
    continues_name, digit_run_end, lemma_digit_run_end_bounds, lemma_spans_ordered, ref_at,
    remap_from, remapped, sheet_prefix_at, sheet_refs, spans_from, spans_ordered,
};
use crate::text::{decimal, digit_char, digit_value, digits_value, is_ascii_digit};

verus! {

/// The sheet IDs that a list of references names, in order.
pub open spec fn ref_ids(spans: Seq<(int, int, u32)>) -> Seq<u32> {
    spans.map_values(|span: (int, int, u32)| span.2)
}

/// The ID a reference names after renumbering: the map's value where it has one.
pub open spec fn renumbered(id: u32, remap: Map<u32, u32>) -> u32 {
    if remap.contains_key(id) {
        remap[id]
    } else {
        id
    }
}

/// The IDs of a list of references, each renumbered through the map.
pub open spec fn renumbered_ids(spans: Seq<(int, int, u32)>, remap: Map<u32, u32>) -> Seq<u32> {
    spans.map_values(|span: (int, int, u32)| renumbered(span.2, remap))
}

pub(crate) proof fn lemma_decimal_digits(n: nat)
    ensures
        decimal(n).len() > 0,
        forall|t: int| 0 <= t < decimal(n).len() ==> is_ascii_digit(#[trigger] decimal(n)[t]),
        digits_value(decimal(n)) == n,
    decreases n,
{
    if n < 10 {
        let s = decimal(n);
        assert(s.drop_last() =~= Seq::<char>::empty());
        assert(digit_value(digit_char(n)) == n);
        assert(s.last() == digit_char(n));
        assert(digits_value(s.drop_last()) == 0);
        assert(digits_value(s) == digits_value(s.drop_last()) * 10 + digit_value(s.last()));
    } else {
        lemma_decimal_digits(n / 10);
        let s = decimal(n);
        assert(s.drop_last() == decimal(n / 10));
        assert(digit_value(digit_char(n % 10)) == n % 10);
        assert(digits_value(s) == (n / 10) * 10 + n % 10);
        assert((n / 10) * 10 + n % 10 == n) by (nonlinear_arith);
    }
}

/// The scan of [`spans_from`] from `i`, stopped where it lands on `m`: the references met
/// before `m` and whether `m` lies inside a string literal; `None` when the scan passes `m`.
spec fn scan_to(f: Seq<char>, i: int, quoted: bool, m: int) -> Option<(Seq<(int, int, u32)>, bool)>
    decreases f.len() - i,
{
    if i == m {
        Some((Seq::empty(), quoted))
    } else if i < 0 || i > m || i >= f.len() {
        None
    } else if f[i] == '"' {
        if quoted && i + 1 < f.len() && f[i + 1] == '"' {
            scan_to(f, i + 2, quoted, m)
        } else {
            scan_to(f, i + 1, !quoted, m)
        }
    } else if !quoted && (f[i] == 'S' || f[i] == 's') && ref_at(f, i) is Some {
        let (start, end, id) = ref_at(f, i)->0;
        match scan_to(f, end + 1, quoted, m) {
            Some(rest) => Some((seq![(start, end, id)] + rest.0, rest.1)),
            None => None,
        }
    } else {
        scan_to(f, i + 1, quoted, m)
    }
}

proof fn lemma_scan_bound(f: Seq<char>, i: int, q: bool, m: int)
    requires
        scan_to(f, i, q, m) is Some,
    ensures
        i <= m,
{
}

proof fn lemma_scan_split(f: Seq<char>, i: int, q: bool, m: int)
    requires
        scan_to(f, i, q, m) is Some,
    ensures
        spans_from(f, i, q) == scan_to(f, i, q, m).unwrap().0 + spans_from(
            f,
            m,
            scan_to(f, i, q, m).unwrap().1,
        ),
    decreases f.len() - i,
{
    if i == m {
        assert(Seq::<(int, int, u32)>::empty() + spans_from(f, m, q) =~= spans_from(f, m, q));
    } else if f[i] == '"' {
        if q && i + 1 < f.len() && f[i + 1] == '"' {
            lemma_scan_split(f, i + 2, q, m);
        } else {
            lemma_scan_split(f, i + 1, !q, m);
        }
    } else if !q && (f[i] == 'S' || f[i] == 's') && ref_at(f, i) is Some {
        let span = ref_at(f, i)->0;
        lemma_scan_split(f, span.1 + 1, q, m);
        let rest = scan_to(f, span.1 + 1, q, m)->0;
        assert(seq![span] + rest.0 + spans_from(f, m, rest.1) =~= seq![span] + (rest.0
            + spans_from(f, m, rest.1)));
    } else {
        lemma_scan_split(f, i + 1, q, m);
    }
}

proof fn lemma_scan_reaches_end(f: Seq<char>, i: int, q: bool)
    requires
        0 <= i <= f.len(),
    ensures
        scan_to(f, i, q, f.len() as int) is Some,
    decreases f.len() - i,
{
    if i < f.len() {
        if f[i] == '"' {
            if q && i + 1 < f.len() && f[i + 1] == '"' {
                lemma_scan_reaches_end(f, i + 2, q);
            } else {
                lemma_scan_reaches_end(f, i + 1, !q);
            }
        } else if !q && (f[i] == 'S' || f[i] == 's') && ref_at(f, i) is Some {
            lemma_scan_reaches_end(f, ref_at(f, i).unwrap().1 + 1, q);
        } else {
            lemma_scan_reaches_end(f, i + 1, q);
        }
    }
}

/// The scan from `i` to the whole text's end finds exactly the references of [`spans_from`].
proof fn lemma_scan_whole(f: Seq<char>, i: int, q: bool)
    requires
        0 <= i <= f.len(),
    ensures
        scan_to(f, i, q, f.len() as int) is Some,
        scan_to(f, i, q, f.len() as int).unwrap().0 == spans_from(f, i, q),
{
    lemma_scan_reaches_end(f, i, q);
    lemma_scan_split(f, i, q, f.len() as int);
    let p = scan_to(f, i, q, f.len() as int)->0;
    assert(spans_from(f, f.len() as int, p.1) == Seq::<(int, int, u32)>::empty());
    assert(p.0 + Seq::<(int, int, u32)>::empty() =~= p.0);
}

/// Where the first reference found from `i` starts, the scan lands outside any literal.
proof fn lemma_first_ref(f: Seq<char>, i: int, q: bool)
    requires
        0 <= i,
        spans_from(f, i, q).len() > 0,
    ensures
        ({
            let span = spans_from(f, i, q)[0];
            &&& i <= span.0 - 6
            &&& scan_to(f, i, q, span.0 - 6) == Some((Seq::<(int, int, u32)>::empty(), false))
            &&& ref_at(f, span.0 - 6) == Some(span)
            &&& spans_from(f, span.1 + 1, false) == spans_from(f, i, q).drop_first()
        }),
    decreases f.len() - i,
{
    if i >= f.len() {
    } else if f[i] == '"' {
        if q && i + 1 < f.len() && f[i + 1] == '"' {
            lemma_first_ref(f, i + 2, q);
        } else {
            lemma_first_ref(f, i + 1, !q);
        }
    } else if !q && (f[i] == 'S' || f[i] == 's') && ref_at(f, i) is Some {
        let span = ref_at(f, i)->0;
        assert(spans_from(f, i, q) == seq![span] + spans_from(f, span.1 + 1, q));
        assert((seq![span] + spans_from(f, span.1 + 1, q)).drop_first() =~= spans_from(
            f,
            span.1 + 1,
            q,
        ));
    } else {
        lemma_first_ref(f, i + 1, q);
    }
}

/// `g` shifted by `j - i` reads as `f` over `[i, stop)`.
spec fn agree(f: Seq<char>, g: Seq<char>, i: int, j: int, stop: int) -> bool {
    &&& 0 <= i <= stop <= f.len()
    &&& 0 <= j
    &&& j + (stop - i) <= g.len()
    &&& forall|t: int| i <= t < stop ==> g[t + (j - i)] == #[trigger] f[t]
}

/// Both scans start at the text's beginning, or after the same character.
spec fn boundary_ok(f: Seq<char>, g: Seq<char>, i: int, j: int) -> bool {
    ||| i == 0 && j == 0
    ||| 0 < i && 0 < j && i <= f.len() && j <= g.len() && g[j - 1] == f[i - 1]
}

/// What the scan up to `m` may read: up to the end of a `Sheet.` prefix at `m`, or to the end
/// of both texts.
spec fn frame_window(f: Seq<char>, g: Seq<char>, i: int, j: int, m: int) -> bool {
    ||| sheet_prefix_at(f, m) && agree(f, g, i, j, m + 6)
    ||| m == f.len() && agree(f, g, i, j, m) && g.len() - j == f.len() - i
}

proof fn lemma_digit_run_frame(f: Seq<char>, g: Seq<char>, x: int, d: int, stop: int)
    requires
        0 <= x <= stop <= f.len(),
        0 <= x + d,
        stop + d <= g.len(),
        forall|t: int| x <= t < stop ==> g[t + d] == #[trigger] f[t],
        (stop < f.len() && stop + d < g.len() && g[stop + d] == f[stop] && !is_ascii_digit(
            f[stop],
        )) || (stop == f.len() && stop + d == g.len()),
    ensures
        digit_run_end(f, x) <= stop,
        digit_run_end(g, x + d) == digit_run_end(f, x) + d,
    decreases stop - x,
{
    if x < stop {
        assert(g[x + d] == f[x]);
        if is_ascii_digit(f[x]) {
            lemma_digit_run_frame(f, g, x + 1, d, stop);
            assert(x + 1 + d == (x + d) + 1);
        }
    }
}

proof fn lemma_ref_at_frame(f: Seq<char>, g: Seq<char>, i: int, j: int, m: int)
    requires
        i < m,
        boundary_ok(f, g, i, j),
        frame_window(f, g, i, j, m),
    ensures
        (ref_at(f, i) is Some) == (ref_at(g, j) is Some),
        ref_at(f, i) is Some ==> ref_at(g, j).unwrap() == (
            ref_at(f, i).unwrap().0 + (j - i),
            ref_at(f, i).unwrap().1 + (j - i),
            ref_at(f, i).unwrap().2,
        ),
{
    let d = j - i;
    let stop = if sheet_prefix_at(f, m) && agree(f, g, i, j, m + 6) {
        m + 6
    } else {
        m
    };
    assert(agree(f, g, i, j, stop));
    assert(0 <= i < f.len() && 0 <= j < g.len());
    assert((i > 0 && continues_name(f[i - 1])) == (j > 0 && continues_name(g[j - 1])));
    if i + 6 <= f.len() {
        assert(i + 5 < stop);
        assert(g[i + d] == f[i]);
        assert(g[i + 1 + d] == f[i + 1]);
        assert(g[i + 2 + d] == f[i + 2]);
        assert(g[i + 3 + d] == f[i + 3]);
        assert(g[i + 4 + d] == f[i + 4]);
        assert(g[i + 5 + d] == f[i + 5]);
    }
    assert((i + 6 <= f.len()) == (j + 6 <= g.len()));
    assert(sheet_prefix_at(f, i) == sheet_prefix_at(g, j));
    if sheet_prefix_at(f, i) {
        let x = i + 6;
        if stop == m + 6 {
            if x > m {
                let k = i + 5 - m;
                assert(k == 0 || k == 1 || k == 2 || k == 3 || k == 4);
                assert(f[i + 5] != '.');
            }
            assert(g[m + d] == f[m]);
            lemma_digit_run_frame(f, g, x, d, m);
        } else {
            lemma_digit_run_frame(f, g, x, d, stop);
        }
        let end = digit_run_end(f, x);
        lemma_digit_run_end_bounds(f, x);
        assert(x + d == j + 6);
        assert(digit_run_end(g, j + 6) == end + d);
        if end < f.len() {
            assert(end < stop);
            assert(g[end + d] == f[end]);
        }
        assert((end >= f.len()) == (end + d >= g.len()));
        if x <= end && end < f.len() {
            assert(f.subrange(x, end) =~= g.subrange(j + 6, end + d)) by {
                assert forall|u: int| 0 <= u < end - x implies f.subrange(x, end)[u] == g.subrange(
                    j + 6,
                    end + d,
                )[u] by {
                    assert(g[(x + u) + d] == f[x + u]);
                }
            }
        }
    }
}

proof fn lemma_frame(f: Seq<char>, g: Seq<char>, i: int, j: int, q: bool, m: int)
    requires
        scan_to(f, i, q, m) is Some,
        boundary_ok(f, g, i, j),
        frame_window(f, g, i, j, m),
    ensures
        scan_to(g, j, q, m + (j - i)) is Some,
        ref_ids(scan_to(g, j, q, m + (j - i)).unwrap().0) == ref_ids(scan_to(f, i, q, m).unwrap().0),
        scan_to(g, j, q, m + (j - i)).unwrap().1 == scan_to(f, i, q, m).unwrap().1,
    decreases m - i,
{
    let d = j - i;
    let stop = if sheet_prefix_at(f, m) && agree(f, g, i, j, m + 6) {
        m + 6
    } else {
        m
    };
    lemma_scan_bound(f, i, q, m);
    if i == m {
        return;
    }
    assert(agree(f, g, i, j, stop));
    assert(0 <= i < f.len() && 0 <= j < g.len());
    assert(g[i + d] == f[i]);
    lemma_ref_at_frame(f, g, i, j, m);
    if f[i] == '"' {
        if i + 1 < f.len() {
            assert(i + 1 < stop);
            assert(g[i + 1 + d] == f[i + 1]);
        }
        assert((i + 1 < f.len()) == (j + 1 < g.len()));
        let step: int = if q && i + 1 < f.len() && f[i + 1] == '"' {
            2
        } else {
            1
        };
        let q2 = if step == 2 {
            q
        } else {
            !q
        };
        assert(scan_to(f, i, q, m) == scan_to(f, i + step, q2, m));
        assert(scan_to(g, j, q, m + d) == scan_to(g, j + step, q2, m + d));
        lemma_scan_bound(f, i + step, q2, m);
        assert(g[i + step - 1 + d] == f[i + step - 1]);
        lemma_frame(f, g, i + step, j + step, q2, m);
    } else if !q && (f[i] == 'S' || f[i] == 's') && ref_at(f, i) is Some {
        let span = ref_at(f, i).unwrap();
        let gspan = ref_at(g, j).unwrap();
        let rest = scan_to(f, span.1 + 1, q, m);
        lemma_scan_bound(f, span.1 + 1, q, m);
        assert(span.1 < stop);
        assert(g[span.1 + d] == f[span.1]);
        lemma_frame(f, g, span.1 + 1, gspan.1 + 1, q, m);
        let grest = scan_to(g, gspan.1 + 1, q, m + d);
        assert(scan_to(g, j, q, m + d) == Some((seq![gspan] + grest.unwrap().0, grest.unwrap().1)));
        assert(ref_ids(seq![gspan] + grest.unwrap().0) =~= seq![gspan.2] + ref_ids(grest.unwrap().0));
        assert(ref_ids(seq![span] + rest.unwrap().0) =~= seq![span.2] + ref_ids(rest.unwrap().0));
    } else {
        lemma_scan_bound(f, i + 1, q, m);
        lemma_frame(f, g, i + 1, j + 1, q, m);
    }
}

/// The digits a reference carries after renumbering.
spec fn new_digits(f: Seq<char>, span: (int, int, u32), remap: Map<u32, u32>) -> Seq<char> {
    if remap.contains_key(span.2) {
        decimal(remap[span.2] as nat)
    } else {
        f.subrange(span.0, span.1)
    }
}

/// The renumbered text from `from` on, every reference from the `k`-th on carrying its new
/// digits.
spec fn rewrite_from(
    f: Seq<char>,
    refs: Seq<(int, int, u32)>,
    k: int,
    from: int,
    remap: Map<u32, u32>,
) -> Seq<char>
    decreases refs.len() - k,
{
    if k < 0 || k >= refs.len() {
        f.subrange(from, f.len() as int)
    } else {
        f.subrange(from, refs[k].0) + new_digits(f, refs[k], remap) + rewrite_from(
            f,
            refs,
            k + 1,
            refs[k].1,
            remap,
        )
    }
}

/// Where the next reference (or the text) begins after `from`.
spec fn next_start(f: Seq<char>, refs: Seq<(int, int, u32)>, k: int) -> int {
    if 0 <= k < refs.len() {
        refs[k].0
    } else {
        f.len() as int
    }
}

proof fn lemma_rewrite_prefix(
    f: Seq<char>,
    refs: Seq<(int, int, u32)>,
    k: int,
    c1: int,
    c2: int,
    remap: Map<u32, u32>,
)
    requires
        spans_ordered(refs, 0, f.len() as int),
        0 <= k,
        0 <= c1 <= c2 <= next_start(f, refs, k),
    ensures
        rewrite_from(f, refs, k, c1, remap) == f.subrange(c1, c2) + rewrite_from(
            f,
            refs,
            k,
            c2,
            remap,
        ),
{
    let x = next_start(f, refs, k);
    assert(f.subrange(c1, x) =~= f.subrange(c1, c2) + f.subrange(c2, x));
    if k < refs.len() {
        let nd = new_digits(f, refs[k], remap);
        let rest = rewrite_from(f, refs, k + 1, refs[k].1, remap);
        assert(f.subrange(c1, c2) + f.subrange(c2, x) + nd + rest =~= f.subrange(c1, c2) + (
        f.subrange(c2, x) + nd + rest));
    }
}

proof fn lemma_remap_is_rewrite(
    f: Seq<char>,
    refs: Seq<(int, int, u32)>,
    k: int,
    cursor: int,
    remap: Map<u32, u32>,
)
    requires
        spans_ordered(refs, 0, f.len() as int),
        0 <= k,
        0 <= cursor <= next_start(f, refs, k),
    ensures
        remap_from(f, refs, k, cursor, remap) == rewrite_from(f, refs, k, cursor, remap),
    decreases refs.len() - k,
{
    if k < refs.len() {
        let span = refs[k];
        if k + 1 < refs.len() {
            assert(span.1 < refs[k + 1].0);
        }
        if remap.contains_key(span.2) {
            lemma_remap_is_rewrite(f, refs, k + 1, span.1, remap);
        } else {
            lemma_remap_is_rewrite(f, refs, k + 1, cursor, remap);
            lemma_rewrite_prefix(f, refs, k + 1, cursor, span.1, remap);
            assert(f.subrange(cursor, span.1) =~= f.subrange(cursor, span.0) + f.subrange(
                span.0,
                span.1,
            ));
        }
    }
}

proof fn lemma_rewrite_head(
    f: Seq<char>,
    refs: Seq<(int, int, u32)>,
    k: int,
    from: int,
    remap: Map<u32, u32>,
)
    requires
        spans_ordered(refs, 0, f.len() as int),
        0 <= k,
        0 <= from < next_start(f, refs, k),
    ensures
        rewrite_from(f, refs, k, from, remap).len() >= 1,
        rewrite_from(f, refs, k, from, remap)[0] == f[from],
{
    if k < refs.len() {
        let head = f.subrange(from, refs[k].0);
        let tail = new_digits(f, refs[k], remap) + rewrite_from(f, refs, k + 1, refs[k].1, remap);
        assert(head + new_digits(f, refs[k], remap) + rewrite_from(f, refs, k + 1, refs[k].1, remap)
            =~= head + tail);
        assert((head + tail)[0] == head[0]);
    }
}

proof fn lemma_digit_run_over(h: Seq<char>, x: int, n: int)
    requires
        0 <= x,
        0 <= n,
        x + n < h.len(),
        forall|t: int| x <= t < x + n ==> is_ascii_digit(#[trigger] h[t]),
        !is_ascii_digit(h[x + n]),
    ensures
        digit_run_end(h, x) == x + n,
    decreases n,
{
    if n > 0 {
        assert(is_ascii_digit(h[x]));
        lemma_digit_run_over(h, x + 1, n - 1);
    }
}

/// References read after position `e` of `h` are those read after the first character of
/// `h`'s tail from `e`.
proof fn lemma_suffix_ids(h: Seq<char>, e: int, q: bool)
    requires
        0 <= e < h.len(),
    ensures
        ref_ids(spans_from(h, e + 1, q)) == ref_ids(spans_from(h.subrange(e, h.len() as int), 1, q)),
{
    let h2 = h.subrange(e, h.len() as int);
    lemma_scan_whole(h, e + 1, q);
    assert(agree(h, h2, e + 1, 1, h.len() as int)) by {
        assert forall|t: int| e + 1 <= t < h.len() implies h2[t + (1 - (e + 1))] == #[trigger] h[t] by {
            assert(h2[t - e] == h[t]);
        }
    }
    assert(h2[0] == h[e]);
    lemma_frame(h, h2, e + 1, 1, q, h.len() as int);
    assert(h.len() + (1 - (e + 1)) == h2.len());
    lemma_scan_whole(h2, 1, q);
}

/// The reference at `m` of `f`, with its digits replaced by `nd`, read in `h`.
proof fn lemma_replaced_ref(
    f: Seq<char>,
    h: Seq<char>,
    from: int,
    m: int,
    span: (int, int, u32),
    nd: Seq<char>,
    id: u32,
)
    requires
        0 <= from <= m,
        ref_at(f, m) == Some(span),
        h.len() > span.0 - from + nd.len(),
        forall|t: int| from <= t < span.0 ==> h[t - from] == #[trigger] f[t],
        forall|u: int| 0 <= u < nd.len() ==> h[span.0 - from + u] == #[trigger] nd[u],
        h[span.0 - from + nd.len()] == '!',
        nd.len() > 0,
        forall|u: int| 0 <= u < nd.len() ==> is_ascii_digit(#[trigger] nd[u]),
        digits_value(nd) == id as nat,
    ensures
        ref_at(h, m - from) == Some((span.0 - from, span.0 - from + nd.len(), id)),
{
    let m2 = m - from;
    let e2 = span.0 - from + nd.len();
    assert(span.0 == m + 6);
    if m2 > 0 {
        assert(h[m2 - 1] == f[m - 1]);
    }
    assert(h[m2] == f[m]);
    assert(h[m2 + 1] == f[m + 1]);
    assert(h[m2 + 2] == f[m + 2]);
    assert(h[m2 + 3] == f[m + 3]);
    assert(h[m2 + 4] == f[m + 4]);
    assert(h[m2 + 5] == f[m + 5]);
    assert(sheet_prefix_at(h, m2));
    assert forall|t: int| m2 + 6 <= t < m2 + 6 + nd.len() implies is_ascii_digit(#[trigger] h[t]) by {
        assert(h[span.0 - from + (t - (m2 + 6))] == nd[t - (m2 + 6)]);
    }
    lemma_digit_run_over(h, m2 + 6, nd.len() as int);
    assert(h.subrange(m2 + 6, e2) =~= nd) by {
        assert forall|u: int| 0 <= u < nd.len() implies h.subrange(m2 + 6, e2)[u] == nd[u] by {
            assert(h[span.0 - from + u] == nd[u]);
        }
    }
}

proof fn lemma_layout(head: Seq<char>, nd: Seq<char>, h2: Seq<char>)
    requires
        h2.len() > 0,
    ensures
        forall|t: int| 0 <= t < head.len() ==> (head + nd + h2)[t] == #[trigger] head[t],
        forall|u: int| 0 <= u < nd.len() ==> (head + nd + h2)[head.len() + u] == #[trigger] nd[u],
        (head + nd + h2)[(head.len() + nd.len()) as int] == h2[0],
        (head + nd + h2).subrange((head.len() + nd.len()) as int, (head + nd + h2).len() as int) == h2,
{
    let h = head + nd + h2;
    assert forall|u: int| 0 <= u < nd.len() implies h[head.len() + u] == #[trigger] nd[u] by {
        assert((head + nd)[head.len() + u] == nd[u]);
    }
    assert(h.subrange((head.len() + nd.len()) as int, h.len() as int) =~= h2);
}

proof fn lemma_new_digits_ok(f: Seq<char>, m: int, span: (int, int, u32), remap: Map<u32, u32>)
    requires
        ref_at(f, m) == Some(span),
    ensures
        new_digits(f, span, remap).len() > 0,
        forall|u: int|
            0 <= u < new_digits(f, span, remap).len() ==> is_ascii_digit(
                #[trigger] new_digits(f, span, remap)[u],
            ),
        digits_value(new_digits(f, span, remap)) == renumbered(span.2, remap) as nat,
{
    let nd = new_digits(f, span, remap);
    lemma_digit_run_end_bounds(f, m + 6);
    if remap.contains_key(span.2) {
        lemma_decimal_digits(remap[span.2] as nat);
    } else {
        assert forall|u: int| 0 <= u < nd.len() implies is_ascii_digit(#[trigger] nd[u]) by {
            assert(nd[u] == f[span.0 + u]);
        }
    }
}

/// Before the first reference, the scan of the rewritten text finds nothing either.
proof fn lemma_lead(f: Seq<char>, h: Seq<char>, from: int, j0: int, m: int)
    requires
        j0 == 0 || j0 == 1,
        j0 == 0 ==> from == 0,
        0 <= from,
        from + j0 <= m,
        scan_to(f, from + j0, false, m) == Some((Seq::<(int, int, u32)>::empty(), false)),
        sheet_prefix_at(f, m),
        h.len() >= m + 6 - from,
        forall|t: int| from <= t < m + 6 ==> h[t - from] == #[trigger] f[t],
    ensures
        spans_from(h, j0, false) == spans_from(h, m - from, false),
{
    let i0 = from + j0;
    assert(agree(f, h, i0, j0, m + 6)) by {
        assert forall|t: int| i0 <= t < m + 6 implies h[t + (j0 - i0)] == #[trigger] f[t] by {
            assert(h[t - from] == f[t]);
        }
    }
    if j0 == 1 {
        assert(h[0] == f[from]);
    }
    lemma_frame(f, h, i0, j0, false, m);
    let m2 = m - from;
    assert(m + (j0 - i0) == m2);
    let pre = scan_to(h, j0, false, m2).unwrap();
    assert(ref_ids(Seq::<(int, int, u32)>::empty()) =~= Seq::<u32>::empty());
    assert(pre.0.len() == ref_ids(pre.0).len());
    assert(pre.0 =~= Seq::<(int, int, u32)>::empty());
    lemma_scan_split(h, j0, false, m2);
    assert(pre.0 + spans_from(h, m2, false) =~= spans_from(h, m2, false));
}

proof fn lemma_chunk_last(
    f: Seq<char>,
    refs: Seq<(int, int, u32)>,
    from: int,
    j0: int,
    remap: Map<u32, u32>,
)
    requires
        j0 == 0 || j0 == 1,
        j0 == 0 ==> from == 0,
        0 <= from,
        from + j0 <= f.len(),
        spans_from(f, from + j0, false) == Seq::<(int, int, u32)>::empty(),
    ensures
        ref_ids(spans_from(f.subrange(from, f.len() as int), j0, false)) == Seq::<u32>::empty(),
{
    let i0 = from + j0;
    let h = f.subrange(from, f.len() as int);
    lemma_scan_whole(f, i0, false);
    assert(agree(f, h, i0, j0, f.len() as int)) by {
        assert forall|t: int| i0 <= t < f.len() implies h[t + (j0 - i0)] == #[trigger] f[t] by {
            assert(h[t - from] == f[t]);
        }
    }
    if j0 == 1 {
        assert(h[0] == f[from]);
    }
    lemma_frame(f, h, i0, j0, false, f.len() as int);
    assert(f.len() + (j0 - i0) == h.len());
    lemma_scan_whole(h, j0, false);
    assert(ref_ids(Seq::<(int, int, u32)>::empty()) =~= Seq::<u32>::empty());
}

/// One reference further: the rewritten text from `from` reads the renumbered reference, then
/// what the text after it reads.
proof fn lemma_chunk_step(
    f: Seq<char>,
    refs: Seq<(int, int, u32)>,
    k: int,
    from: int,
    j0: int,
    remap: Map<u32, u32>,
)
    requires
        spans_ordered(refs, 0, f.len() as int),
        0 <= k < refs.len(),
        j0 == 0 || j0 == 1,
        j0 == 0 ==> from == 0,
        0 <= from,
        from + j0 <= refs[k].0 - 6,
        scan_to(f, from + j0, false, refs[k].0 - 6) == Some(
            (Seq::<(int, int, u32)>::empty(), false),
        ),
        ref_at(f, refs[k].0 - 6) == Some(refs[k]),
        ref_ids(spans_from(rewrite_from(f, refs, k + 1, refs[k].1, remap), 1, false))
            == renumbered_ids(refs.subrange(k + 1, refs.len() as int), remap),
    ensures
        ref_ids(spans_from(rewrite_from(f, refs, k, from, remap), j0, false)) == renumbered_ids(
            refs.subrange(k, refs.len() as int),
            remap,
        ),
{
    let span = refs[k];
    let m = span.0 - 6;
    let h = rewrite_from(f, refs, k, from, remap);
    let nd = new_digits(f, span, remap);
    let h2 = rewrite_from(f, refs, k + 1, span.1, remap);
    let head = f.subrange(from, span.0);
    assert(h == head + nd + h2);
    if k + 1 < refs.len() {
        assert(span.1 < refs[k + 1].0);
    }
    lemma_rewrite_head(f, refs, k + 1, span.1, remap);
    lemma_layout(head, nd, h2);
    let id = renumbered(span.2, remap);
    lemma_new_digits_ok(f, m, span, remap);
    assert forall|t: int| from <= t < span.0 implies h[t - from] == #[trigger] f[t] by {
        assert(h[t - from] == head[t - from]);
    }
    lemma_lead(f, h, from, j0, m);
    let m2 = m - from;
    lemma_replaced_ref(f, h, from, m, span, nd, id);
    let e2 = span.0 - from + nd.len();
    let tail = spans_from(h, e2 + 1, false);
    assert(spans_from(h, m2, false) == seq![(m2 + 6, e2, id)] + tail) by {
        assert(h[m2] == f[m]);
    }
    lemma_suffix_ids(h, e2, false);
    assert(ref_ids(seq![(m2 + 6, e2, id)] + tail) =~= seq![id] + ref_ids(tail));
    assert(renumbered_ids(refs.subrange(k, refs.len() as int), remap) =~= seq![id]
        + renumbered_ids(refs.subrange(k + 1, refs.len() as int), remap));
}

proof fn lemma_chunk(
    f: Seq<char>,
    refs: Seq<(int, int, u32)>,
    k: int,
    from: int,
    j0: int,
    remap: Map<u32, u32>,
)
    requires
        spans_ordered(refs, 0, f.len() as int),
        0 <= k <= refs.len(),
        j0 == 0 || j0 == 1,
        j0 == 0 ==> from == 0,
        0 <= from,
        from + j0 <= f.len(),
        spans_from(f, from + j0, false) == refs.subrange(k, refs.len() as int),
    ensures
        ref_ids(spans_from(rewrite_from(f, refs, k, from, remap), j0, false)) == renumbered_ids(
            refs.subrange(k, refs.len() as int),
            remap,
        ),
    decreases refs.len() - k,
{
    let rest = refs.subrange(k, refs.len() as int);
    if k == refs.len() {
        assert(rest =~= Seq::<(int, int, u32)>::empty());
        lemma_chunk_last(f, refs, from, j0, remap);
        assert(renumbered_ids(rest, remap) =~= Seq::<u32>::empty());
    } else {
        assert(rest[0] == refs[k]);
        lemma_first_ref(f, from + j0, false);
        assert(rest.drop_first() =~= refs.subrange(k + 1, refs.len() as int));
        lemma_chunk(f, refs, k + 1, refs[k].1, 1, remap);
        lemma_chunk_step(f, refs, k, from, j0, remap);
    }
}

/// Renumbering rewrites exactly the references it is asked to: reading the references of
/// the renumbered formula gives, in the same order, each original reference's sheet ID
/// passed through the map, the IDs the map does not hold unchanged.
pub proof fn lemma_remap_renumbers_refs(f: Seq<char>, remap: Map<u32, u32>)
    ensures
        ref_ids(sheet_refs(remapped(f, remap))) == renumbered_ids(sheet_refs(f), remap),
{
    let refs = sheet_refs(f);
    lemma_spans_ordered(f, 0, false);
    if refs.len() > 0 {
        assert(0 <= refs[0].0);
    }
    lemma_remap_is_rewrite(f, refs, 0, 0, remap);
    assert(refs.subrange(0, refs.len() as int) == refs);
    lemma_chunk(f, refs, 0, 0, 0, remap);
}

} // verus!

//! `Sheet.N!` references inside ShapeSheet formulas: finding them and renumbering them.
//!
//! The scanner works on the formula's characters; every character it looks at is ASCII, so a
//! reference is found at the same place whichever unit counts it. Spans of a formula string
//! are reported in UTF-8 byte offsets, spans of a character slice in character positions.
use std::collections::BTreeMap;

use vstd::prelude::*;

use crate::text::{
    chars_of, decimal, digits_value, digit_value, is_ascii_digit, lemma_utf8_len_grows, owned,
    push_chars, push_decimal, utf8_len, utf8_width_of,
};

verus! {

broadcast use vstd::laws_cmp::group_laws_cmp;

/// A character that, directly before `Sheet.`, makes it the tail of a longer name.
pub open spec fn continues_name(c: char) -> bool {
    ||| is_ascii_digit(c)
    ||| ('A' <= c && c <= 'Z')
    ||| ('a' <= c && c <= 'z')
    ||| c == '.'
    ||| c == '!'
    ||| c == '_'
}

/// `f[i..i + 6]` spells `sheet.` in any ASCII case.
pub open spec fn sheet_prefix_at(f: Seq<char>, i: int) -> bool {
    &&& 0 <= i
    &&& i + 6 <= f.len()
    &&& (f[i] == 'S' || f[i] == 's')
    &&& (f[i + 1] == 'H' || f[i + 1] == 'h')
    &&& (f[i + 2] == 'E' || f[i + 2] == 'e')
    &&& (f[i + 3] == 'E' || f[i + 3] == 'e')
    &&& (f[i + 4] == 'T' || f[i + 4] == 't')
    &&& f[i + 5] == '.'
}

/// First position at or after `j` that does not hold an ASCII digit.
pub open spec fn digit_run_end(f: Seq<char>, j: int) -> int
    decreases f.len() - j,
{
    if 0 <= j < f.len() && is_ascii_digit(f[j]) {
        digit_run_end(f, j + 1)
    } else {
        j
    }
}

/// The reference starting at `i`, as (first digit, the `!`, sheet ID), when there is one:
/// `Sheet.` in any case, not preceded by a name character, then digits, then `!`,
/// and the digits fit in a `u32`.
pub open spec fn ref_at(f: Seq<char>, i: int) -> Option<(int, int, u32)> {
    if !(0 <= i < f.len()) || (i > 0 && continues_name(f[i - 1])) || !sheet_prefix_at(f, i) {
        None
    } else {
        let end = digit_run_end(f, i + 6);
        if end <= i + 6 || end >= f.len() || f[end] != '!' {
            None
        } else if digits_value(f.subrange(i + 6, end)) > u32::MAX {
            None
        } else {
            Some((i + 6, end, digits_value(f.subrange(i + 6, end)) as u32))
        }
    }
}

/// References found scanning from `i`; `quoted` says whether `i` lies inside a string literal.
/// A doubled quote inside a literal is an escaped quote; scanning resumes after each `!`.
pub open spec fn spans_from(f: Seq<char>, i: int, quoted: bool) -> Seq<(int, int, u32)>
    decreases f.len() - i,
{
    if i < 0 || i >= f.len() {
        Seq::empty()
    } else if f[i] == '"' {
        if quoted && i + 1 < f.len() && f[i + 1] == '"' {
            spans_from(f, i + 2, quoted)
        } else {
            spans_from(f, i + 1, !quoted)
        }
    } else if !quoted && (f[i] == 'S' || f[i] == 's') && ref_at(f, i) is Some {
        let (start, end, id) = ref_at(f, i)->0;
        seq![(start, end, id)] + spans_from(f, end + 1, quoted)
    } else {
        spans_from(f, i + 1, quoted)
    }
}

/// Every `Sheet.N!` reference of a formula outside string literals, in order.
pub open spec fn sheet_refs(f: Seq<char>) -> Seq<(int, int, u32)> {
    spans_from(f, 0, false)
}

pub open spec fn span_view(span: (usize, usize, u32)) -> (int, int, u32) {
    (span.0 as int, span.1 as int, span.2)
}

/// The formula with each listed span whose ID `remap` knows rewritten to the new ID,
/// copying the text from `cursor` on.
pub open spec fn remap_from(
    f: Seq<char>,
    spans: Seq<(int, int, u32)>,
    k: int,
    cursor: int,
    remap: Map<u32, u32>,
) -> Seq<char>
    decreases spans.len() - k,
{
    if k < 0 || k >= spans.len() {
        f.subrange(cursor, f.len() as int)
    } else if remap.contains_key(spans[k].2) {
        f.subrange(cursor, spans[k].0) + decimal(remap[spans[k].2] as nat) + remap_from(
            f,
            spans,
            k + 1,
            spans[k].1,
            remap,
        )
    } else {
        remap_from(f, spans, k + 1, cursor, remap)
    }
}

/// The formula with every `Sheet.N!` whose `N` the map knows renumbered.
pub open spec fn remapped(f: Seq<char>, remap: Map<u32, u32>) -> Seq<char> {
    remap_from(f, sheet_refs(f), 0, 0, remap)
}

/// Spans lie in order inside `[lo, len)`, each after the previous one's `!`.
pub open spec fn spans_ordered(spans: Seq<(int, int, u32)>, lo: int, len: int) -> bool {
    &&& forall|k: int| 0 <= k < spans.len() ==> lo <= #[trigger] spans[k].0 <= spans[k].1 < len
    &&& forall|k: int| 0 <= k < spans.len() - 1 ==> #[trigger] spans[k].1 < spans[k + 1].0
}

pub(crate) proof fn lemma_digit_run_end_bounds(f: Seq<char>, j: int)
    requires
        0 <= j <= f.len(),
    ensures
        j <= digit_run_end(f, j) <= f.len(),
        forall|t: int| j <= t < digit_run_end(f, j) ==> is_ascii_digit(#[trigger] f[t]),
    decreases f.len() - j,
{
    if j < f.len() && is_ascii_digit(f[j]) {
        lemma_digit_run_end_bounds(f, j + 1);
    }
}

proof fn lemma_digits_value_monotone(s: Seq<char>, k: int)
    requires
        0 <= k <= s.len(),
        forall|t: int| 0 <= t < s.len() ==> is_ascii_digit(#[trigger] s[t]),
    ensures
        digits_value(s.take(k)) <= digits_value(s),
    decreases s.len() - k,
{
    if k < s.len() {
        lemma_digits_value_monotone(s, k + 1);
        let p = s.take(k + 1);
        assert(p.drop_last() == s.take(k));
        assert(digits_value(p) == digits_value(s.take(k)) * 10 + digit_value(p.last()));
    } else {
        assert(s.take(k) == s);
    }
}

pub(crate) proof fn lemma_spans_ordered(f: Seq<char>, i: int, quoted: bool)
    requires
        0 <= i,
    ensures
        spans_ordered(spans_from(f, i, quoted), i, f.len() as int),
    decreases f.len() - i,
{
    if i >= f.len() {
    } else if f[i] == '"' {
        if quoted && i + 1 < f.len() && f[i + 1] == '"' {
            lemma_spans_ordered(f, i + 2, quoted);
        } else {
            lemma_spans_ordered(f, i + 1, !quoted);
        }
    } else if !quoted && (f[i] == 'S' || f[i] == 's') && ref_at(f, i) is Some {
        let (start, end, id) = ref_at(f, i)->0;
        lemma_spans_ordered(f, end + 1, quoted);
        let rest = spans_from(f, end + 1, quoted);
        let all = seq![(start, end, id)] + rest;
        assert(all == spans_from(f, i, quoted));
        assert forall|k: int| 0 <= k < all.len() implies i <= #[trigger] all[k].0 <= all[k].1
            < f.len() by {
            if k > 0 {
                assert(all[k] == rest[k - 1]);
            }
        }
        assert forall|k: int| 0 <= k < all.len() - 1 implies #[trigger] all[k].1 < all[k + 1].0 by {
            if k > 0 {
                assert(all[k] == rest[k - 1]);
            }
            assert(all[k + 1] == rest[k]);
        }
    } else {
        lemma_spans_ordered(f, i + 1, quoted);
    }
}

/// The reference that starts at `index`, if any: positions of its first digit and of its `!`,
/// and the sheet ID it names.
pub fn sheet_ref_at(chars: &[char], index: usize) -> (result: Option<(usize, usize, u32)>)
    requires
        index < chars@.len(),
    ensures
        match result {
            Some(span) => ref_at(chars@, index as int) == Some(span_view(span)),
            None => ref_at(chars@, index as int) is None,
        },
{
    let f = Ghost(chars@);
    let len = chars.len();
    if index > 0 {
        let c = chars[index - 1];
        if ('0' <= c && c <= '9') || ('A' <= c && c <= 'Z') || ('a' <= c && c <= 'z') || c == '.'
            || c == '!' || c == '_' {
            return None;
        }
    }
    if len - index < 6 {
        return None;
    }
    let c0 = chars[index];
    let c1 = chars[index + 1];
    let c2 = chars[index + 2];
    let c3 = chars[index + 3];
    let c4 = chars[index + 4];
    let c5 = chars[index + 5];
    if !((c0 == 'S' || c0 == 's') && (c1 == 'H' || c1 == 'h') && (c2 == 'E' || c2 == 'e') && (c3
        == 'E' || c3 == 'e') && (c4 == 'T' || c4 == 't') && c5 == '.') {
        return None;
    }
    let start = index + 6;
    let mut end = start;
    while end < len && '0' <= chars[end] && chars[end] <= '9'
        invariant
            start <= end <= len,
            len == f@.len(),
            f@ == chars@,
            start == index + 6,
            index + 6 <= len,
            digit_run_end(f@, start as int) == digit_run_end(f@, end as int),
        decreases len - end,
    {
        end = end + 1;
    }
    proof {
        lemma_digit_run_end_bounds(f@, start as int);
    }
    assert(digit_run_end(f@, end as int) == end);
    if end == start || end >= len || chars[end] != '!' {
        return None;
    }
    let ghost digits = f@.subrange(start as int, end as int);
    let mut value: u64 = 0;
    let mut k = start;
    while k < end
        invariant
            start <= k <= end < len,
            len == chars@.len(),
            f@ == chars@,
            digits == f@.subrange(start as int, end as int),
            forall|t: int| start <= t < end ==> is_ascii_digit(#[trigger] f@[t]),
            value == digits_value(digits.take(k - start)),
            value <= u32::MAX,
            start == index + 6,
            !(index > 0 && continues_name(f@[index - 1])),
            sheet_prefix_at(f@, index as int),
            digit_run_end(f@, start as int) == end,
            end > start,
            f@[end as int] == '!',
        decreases end - k,
    {
        let d = (chars[k] as u32 - 48) as u64;
        assert(digits.take(k - start + 1).drop_last() == digits.take(k - start));
        assert(digits.take(k - start + 1).last() == chars@[k as int]);
        let next = value * 10 + d;
        assert(next == digits_value(digits.take(k - start + 1)));
        if next > 0xffff_ffff {
            proof {
                assert forall|t: int| 0 <= t < digits.len() implies is_ascii_digit(
                    #[trigger] digits[t],
                ) by {
                    assert(digits[t] == f@[start + t]);
                }
                lemma_digits_value_monotone(digits, k - start + 1);
                assert(digits_value(digits) > u32::MAX);
                assert(ref_at(f@, index as int) is None);
            }
            return None;
        }
        value = next;
        k = k + 1;
    }
    assert(digits.take(end - start) == digits);
    Some((start, end, value as u32))
}

/// A span with its character positions given as UTF-8 byte offsets into `f`.
pub open spec fn byte_span(f: Seq<char>, span: (int, int, u32)) -> (int, int, u32) {
    (utf8_len(f.take(span.0)) as int, utf8_len(f.take(span.1)) as int, span.2)
}

/// The UTF-8 byte offset of each character position, the end included.
fn byte_offsets(chars: &Vec<char>) -> (result: Vec<usize>)
    requires
        utf8_len(chars@) <= usize::MAX,
    ensures
        result@.len() == chars@.len() + 1,
        forall|i: int| 0 <= i <= chars@.len() ==> #[trigger] result@[i] == utf8_len(chars@.take(i)),
{
    let mut offsets: Vec<usize> = Vec::new();
    let mut total: usize = 0;
    offsets.push(0);
    assert(chars@.take(0) == Seq::<char>::empty());
    let mut i: usize = 0;
    while i < chars.len()
        invariant
            i <= chars@.len(),
            utf8_len(chars@) <= usize::MAX,
            total == utf8_len(chars@.take(i as int)),
            offsets@.len() == i + 1,
            forall|t: int| 0 <= t <= i ==> #[trigger] offsets@[t] == utf8_len(chars@.take(t)),
        decreases chars.len() - i,
    {
        assert(chars@.take(i + 1).drop_last() == chars@.take(i as int));
        proof {
            lemma_utf8_len_grows(chars@, i + 1, chars@.len() as int);
            assert(chars@.take(chars@.len() as int) == chars@);
        }
        total = total + utf8_width_of(chars[i]);
        offsets.push(total);
        i = i + 1;
    }
    offsets
}

/// Spans as plain values.
pub open spec fn span_views(spans: Seq<(usize, usize, u32)>) -> Seq<(int, int, u32)> {
    spans.map_values(|span: (usize, usize, u32)| span_view(span))
}

/// Spans of `f` with character positions given as byte offsets.
pub open spec fn byte_spans(f: Seq<char>, spans: Seq<(int, int, u32)>) -> Seq<(int, int, u32)> {
    spans.map_values(|span: (int, int, u32)| byte_span(f, span))
}

/// Every `Sheet.N!` reference outside string literals, in order, as (byte offset of the first
/// digit, byte offset of the `!`, sheet ID).
pub fn sheet_ref_spans(formula: &str) -> (result: Vec<(usize, usize, u32)>)
    requires
        utf8_len(formula@) <= usize::MAX,
    ensures
        span_views(result@) == byte_spans(formula@, sheet_refs(formula@)),
{
    let chars = chars_of(formula);
    let spans = sheet_ref_spans_in(&chars);
    let offsets = byte_offsets(&chars);
    let ghost f = chars@;
    let ghost sv = span_views(spans@);
    assert(sv == spans@.map_values(|span| span_view(span)));
    proof {
        lemma_spans_ordered(f, 0, false);
    }
    let mut result: Vec<(usize, usize, u32)> = Vec::new();
    let mut k: usize = 0;
    while k < spans.len()
        invariant
            k <= spans@.len(),
            f == chars@,
            f == formula@,
            sv == span_views(spans@),
            sv == sheet_refs(f),
            spans_ordered(sv, 0, f.len() as int),
            offsets@.len() == f.len() + 1,
            forall|i: int| 0 <= i <= f.len() ==> #[trigger] offsets@[i] == utf8_len(f.take(i)),
            result@.len() == k,
            span_views(result@) == byte_spans(f, sv.take(k as int)),
        decreases spans.len() - k,
    {
        let (start, end, id) = spans[k];
        assert(sv[k as int] == (start as int, end as int, id));
        assert(offsets@[start as int] == utf8_len(f.take(start as int)));
        assert(offsets@[end as int] == utf8_len(f.take(end as int)));
        let mapped = (offsets[start], offsets[end], id);
        assert(span_view(mapped) == byte_span(f, sv[k as int]));
        let ghost before = result@;
        result.push(mapped);
        assert(span_views(result@) =~= byte_spans(f, sv.take(k + 1))) by {
            assert forall|t: int| 0 <= t < k + 1 implies span_views(result@)[t] == byte_spans(
                f,
                sv.take(k + 1),
            )[t] by {
                if t < k {
                    assert(result@[t] == before[t]);
                    assert(span_views(before)[t] == byte_spans(f, sv.take(k as int))[t]);
                }
            }
        }
        k = k + 1;
    }
    assert(sv.take(sv.len() as int) == sv);
    result
}

/// [`sheet_ref_spans`] over the formula's characters.
pub fn sheet_ref_spans_in(chars: &[char]) -> (result: Vec<(usize, usize, u32)>)
    ensures
        result@.map_values(|span| span_view(span)) == sheet_refs(chars@),
{
    let ghost f = chars@;
    let len = chars.len();
    let mut spans: Vec<(usize, usize, u32)> = Vec::new();
    let mut index: usize = 0;
    let mut in_string = false;
    while index < len
        invariant
            f == chars@,
            len == f.len(),
            index <= len + 1,
            spans@.map_values(|span| span_view(span)) + spans_from(f, index as int, in_string)
                == sheet_refs(f),
        decreases len + 1 - index,
    {
        let c = chars[index];
        if c == '"' {
            if in_string && index + 1 < len && chars[index + 1] == '"' {
                index = index + 2;
                continue;
            }
            in_string = !in_string;
            index = index + 1;
            continue;
        }
        if !in_string && (c == 'S' || c == 's') {
            match sheet_ref_at(chars, index) {
                Some((start, end, id)) => {
                    let ghost before = spans@.map_values(|span| span_view(span));
                    spans.push((start, end, id));
                    assert(spans@.map_values(|span| span_view(span)) == before.push(
                        (start as int, end as int, id),
                    ));
                    assert(before.push((start as int, end as int, id)) + spans_from(
                        f,
                        end + 1,
                        false,
                    ) == before + (seq![(start as int, end as int, id)] + spans_from(
                        f,
                        end + 1,
                        false,
                    )));
                    index = end + 1;
                    continue;
                },
                None => {},
            }
        }
        index = index + 1;
    }
    assert(spans_from(f, index as int, in_string) == Seq::<(int, int, u32)>::empty());
    assert(spans@.map_values(|span| span_view(span)) + Seq::<(int, int, u32)>::empty()
        == spans@.map_values(|span| span_view(span)));
    spans
}


proof fn lemma_remap_without_hits(
    f: Seq<char>,
    spans: Seq<(int, int, u32)>,
    k: int,
    cursor: int,
    remap: Map<u32, u32>,
)
    requires
        0 <= k,
        forall|t: int| k <= t < spans.len() ==> !remap.contains_key(#[trigger] spans[t].2),
    ensures
        remap_from(f, spans, k, cursor, remap) == f.subrange(cursor, f.len() as int),
    decreases spans.len() - k,
{
    if k < spans.len() {
        lemma_remap_without_hits(f, spans, k + 1, cursor, remap);
    }
}

/// A formula naming no remapped sheet reads the same after remapping.
pub proof fn lemma_remap_untouched(f: Seq<char>, remap: Map<u32, u32>)
    requires
        forall|k: int| 0 <= k < sheet_refs(f).len() ==> !remap.contains_key(
            #[trigger] sheet_refs(f)[k].2,
        ),
    ensures
        remapped(f, remap) == f,
{
    lemma_remap_without_hits(f, sheet_refs(f), 0, 0, remap);
    assert(f.subrange(0, f.len() as int) == f);
}

/// Rewrites `Sheet.N!` targets through an old-to-new source ID map; every other character
/// is kept.
pub fn remap_sheet_refs(formula: &str, remap: &BTreeMap<u32, u32>) -> (result: String)
    ensures
        result@ == remapped(formula@, remap@),
{
    let chars = chars_of(formula);
    let ghost f = chars@;
    let spans = sheet_ref_spans_in(&chars);
    let ghost sv = spans@.map_values(|span| span_view(span));
    proof {
        lemma_spans_ordered(f, 0, false);
    }
    let mut hit = false;
    for k in 0..spans.len()
        invariant
            sv == spans@.map_values(|span: (usize, usize, u32)| span_view(span)),
            !hit ==> forall|t: int| 0 <= t < k ==> !remap@.contains_key(#[trigger] sv[t].2),
    {
        if remap.contains_key(&spans[k].2) {
            hit = true;
        }
        assert(sv[k as int].2 == spans@[k as int].2);
    }
    if !hit {
        proof {
            lemma_remap_untouched(f, remap@);
        }
        return owned(formula);
    }
    let mut output = String::new();
    let mut cursor: usize = 0;
    for k in 0..spans.len()
        invariant
            f == chars@,
            sv == spans@.map_values(|span: (usize, usize, u32)| span_view(span)),
            sv == sheet_refs(f),
            spans_ordered(sv, 0, f.len() as int),
            cursor <= f.len(),
            k < sv.len() ==> cursor <= sv[k as int].0,
            output@ + remap_from(f, sv, k as int, cursor as int, remap@) == remapped(f, remap@),
    {
        let (start, end, id) = spans[k];
        assert(sv[k as int] == (start as int, end as int, id));
        match remap.get(&id) {
            Some(target) => {
                let ghost before = output@;
                push_chars(&mut output, &chars, cursor, start);
                push_decimal(&mut output, *target as u64);
                assert(output@ + remap_from(f, sv, k + 1, end as int, remap@) == before + remap_from(
                    f,
                    sv,
                    k as int,
                    cursor as int,
                    remap@,
                ));
                cursor = end;
            },
            None => {},
        }
        assert(k + 1 < sv.len() ==> sv[k as int].1 < sv[k + 1].0);
    }
    push_chars(&mut output, &chars, cursor, chars.len());
    output
}

} // verus!

use vstd::prelude::*;

verus! {

/// The ASCII digit character for a value below ten.
pub open spec fn digit_char(d: nat) -> char
    recommends
        d < 10,
{
    ((d + 48) as u32) as char
}

/// The value of an ASCII digit character.
pub open spec fn digit_value(c: char) -> nat {
    ((c as u32) - 48) as nat
}

pub open spec fn is_ascii_digit(c: char) -> bool {
    '0' <= c && c <= '9'
}

/// Shortest decimal spelling of a natural number, as `to_string` writes it.
pub open spec fn decimal(n: nat) -> Seq<char>
    decreases n,
{
    if n < 10 {
        seq![digit_char(n)]
    } else {
        decimal(n / 10).push(digit_char(n % 10))
    }
}

/// The number a run of ASCII digits spells, most significant first.
pub open spec fn digits_value(s: Seq<char>) -> nat
    decreases s.len(),
{
    if s.len() == 0 {
        0
    } else {
        digits_value(s.drop_last()) * 10 + digit_value(s.last())
    }
}

/// Appends one character to a string.
#[verifier::external_body]
pub(crate) fn push_char(s: &mut String, c: char)
    ensures
        final(s)@ == old(s)@.push(c),
{
    s.push(c);
}

/// Appends a string slice to a string.
#[verifier::external_body]
pub(crate) fn push_str(s: &mut String, t: &str)
    ensures
        final(s)@ == old(s)@ + t@,
{
    s.push_str(t);
}

/// An owned copy of a string slice.
pub(crate) fn owned(s: &str) -> (result: String)
    ensures
        result@ == s@,
{
    s.to_owned()
}

/// The characters of a string slice, in order.
pub fn chars_of(s: &str) -> (result: Vec<char>)
    ensures
        result@ == s@,
{
    let mut result: Vec<char> = Vec::new();
    for c in it: s.chars()
        invariant
            result@ == it.seq().take(it.index() as int),
            it.seq() == s@,
    {
        result.push(c);
    }
    result
}

/// Appends `chars[from..to]` to `out`.
pub fn push_chars(out: &mut String, chars: &[char], from: usize, to: usize)
    requires
        from <= to <= chars@.len(),
    ensures
        final(out)@ == old(out)@ + chars@.subrange(from as int, to as int),
{
    let mut i: usize = from;
    while i < to
        invariant
            from <= i <= to <= chars@.len(),
            out@ == old(out)@ + chars@.subrange(from as int, i as int),
        decreases to - i,
    {
        push_char(out, chars[i]);
        assert(chars@.subrange(from as int, i + 1) == chars@.subrange(from as int, i as int).push(
            chars@[i as int],
        ));
        i = i + 1;
    }
}

proof fn lemma_decimal_push(n: nat)
    requires
        n >= 10,
    ensures
        decimal(n) == decimal(n / 10).push(digit_char(n % 10)),
{
}

/// Appends the decimal spelling of `n` to `out`.
pub fn push_decimal(out: &mut String, n: u64)
    ensures
        final(out)@ == old(out)@ + decimal(n as nat),
    decreases n,
{
    if n < 10 {
        push_char(out, ((n as u8) + 48) as char);
        assert(digit_char(n as nat) == ((n as u8) + 48) as char);
    } else {
        push_decimal(out, n / 10);
        let d = n % 10;
        push_char(out, ((d as u8) + 48) as char);
        assert(digit_char(d as nat) == ((d as u8) + 48) as char);
        proof {
            lemma_decimal_push(n as nat);
        }
        assert(decimal(n as nat) == decimal((n / 10) as nat).push(digit_char((n % 10) as nat)));
    }
}

/// `s` begins with `p`.
pub open spec fn starts_with(s: Seq<char>, p: Seq<char>) -> bool {
    p.len() <= s.len() && s.take(p.len() as int) == p
}

/// The digits `str::parse` reads for an unsigned type: a leading `+` is skipped.
pub open spec fn unsigned_digits(s: Seq<char>) -> Seq<char> {
    if s.len() > 0 && s[0] == '+' {
        s.drop_first()
    } else {
        s
    }
}

/// Every character is an ASCII digit.
pub open spec fn all_digits(d: Seq<char>) -> bool {
    forall|k: int| 0 <= k < d.len() ==> is_ascii_digit(#[trigger] d[k])
}

/// What `str::parse::<u32>` accepts: an optional `+`, then one or more ASCII digits whose
/// value fits in a `u32`.
pub open spec fn parsed_u32(s: Seq<char>) -> Option<u32> {
    let digits = unsigned_digits(s);
    if digits.len() == 0 || !all_digits(digits) || digits_value(digits) > u32::MAX {
        None
    } else {
        Some(digits_value(digits) as u32)
    }
}

/// Whether two strings hold the same characters.
pub fn str_eq(a: &str, b: &str) -> (result: bool)
    ensures
        result == (a@ == b@),
{
    let x = chars_of(a);
    let y = chars_of(b);
    chars_eq(&x, &y)
}

/// Whether two character slices are equal.
pub fn chars_eq(x: &[char], y: &[char]) -> (result: bool)
    ensures
        result == (x@ == y@),
{
    if x.len() != y.len() {
        return false;
    }
    let mut i: usize = 0;
    while i < x.len()
        invariant
            x@.len() == y@.len(),
            i <= x@.len(),
            forall|t: int| 0 <= t < i ==> x@[t] == y@[t],
        decreases x.len() - i,
    {
        if x[i] != y[i] {
            return false;
        }
        i = i + 1;
    }
    assert(x@ =~= y@);
    true
}

/// Whether `chars[from..]` begins with `prefix`.
pub fn chars_start_with(chars: &[char], from: usize, prefix: &[char]) -> (result: bool)
    requires
        from <= chars@.len(),
    ensures
        result == starts_with(chars@.subrange(from as int, chars@.len() as int), prefix@),
{
    let ghost rest = chars@.subrange(from as int, chars@.len() as int);
    if chars.len() - from < prefix.len() {
        return false;
    }
    let mut i: usize = 0;
    while i < prefix.len()
        invariant
            from + prefix.len() <= chars.len(),
            rest == chars@.subrange(from as int, chars@.len() as int),
            i <= prefix@.len(),
            forall|t: int| 0 <= t < i ==> rest[t] == prefix@[t],
        decreases prefix.len() - i,
    {
        if chars[from + i] != prefix[i] {
            assert(rest.take(prefix@.len() as int)[i as int] != prefix@[i as int]);
            return false;
        }
        i = i + 1;
    }
    assert(rest.take(prefix@.len() as int) =~= prefix@);
    true
}

proof fn lemma_digits_prefix_value(s: Seq<char>, k: int)
    requires
        0 <= k < s.len(),
    ensures
        digits_value(s.take(k + 1)) == digits_value(s.take(k)) * 10 + digit_value(s[k]),
{
    assert(s.take(k + 1).drop_last() == s.take(k));
}

proof fn lemma_digits_value_grows(s: Seq<char>, k: int)
    requires
        0 <= k <= s.len(),
    ensures
        digits_value(s.take(k)) <= digits_value(s),
    decreases s.len() - k,
{
    if k < s.len() {
        lemma_digits_value_grows(s, k + 1);
        lemma_digits_prefix_value(s, k);
    } else {
        assert(s.take(k) == s);
    }
}

/// `str::parse::<u32>` over `chars[from..]`.
pub fn parse_u32(chars: &[char], from: usize) -> (result: Option<u32>)
    requires
        from <= chars@.len(),
    ensures
        result == parsed_u32(chars@.subrange(from as int, chars@.len() as int)),
{
    let ghost s = chars@.subrange(from as int, chars@.len() as int);
    let len = chars.len();
    let mut i: usize = from;
    if i < len && chars[i] == '+' {
        i = i + 1;
    }
    let ghost digits = chars@.subrange(i as int, len as int);
    assert(digits == unsigned_digits(s));
    if i == len {
        return None;
    }
    let start: usize = i;
    let mut value: u64 = 0;
    while i < len
        invariant
            start <= i <= len,
            len == chars@.len(),
            start < len,
            from <= start,
            digits == chars@.subrange(start as int, len as int),
            s == chars@.subrange(from as int, len as int),
            digits == unsigned_digits(s),
            forall|t: int| 0 <= t < i - start ==> is_ascii_digit(#[trigger] digits[t]),
            value == digits_value(digits.take(i - start)),
            value <= u32::MAX,
        decreases len - i,
    {
        let c = chars[i];
        if !('0' <= c && c <= '9') {
            assert(digits[i - start] == c);
            assert(!is_ascii_digit(digits[i - start]));
            assert(!all_digits(digits));
            return None;
        }
        proof {
            lemma_digits_prefix_value(digits, i - start);
        }
        let next = value * 10 + (c as u32 - 48) as u64;
        if next > 0xffff_ffff {
            proof {
                lemma_digits_value_grows(digits, i - start + 1);
            }
            assert(!all_digits(digits) || digits_value(digits) > u32::MAX);
            return None;
        }
        value = next;
        i = i + 1;
    }
    assert(digits.take(len - start) == digits);
    Some(value as u32)
}


/// ASCII letters folded to lower case; every other character unchanged.
pub open spec fn ascii_lower(c: char) -> char {
    if 'A' <= c && c <= 'Z' {
        ((c as u32) + 32) as char
    } else {
        c
    }
}

/// `str::eq_ignore_ascii_case`.
pub open spec fn eq_ignore_ascii_case(a: Seq<char>, b: Seq<char>) -> bool {
    a.len() == b.len() && forall|k: int| 0 <= k < a.len() ==> ascii_lower(#[trigger] a[k])
        == ascii_lower(b[k])
}

/// `char::is_whitespace`: the Unicode `White_Space` characters.
pub open spec fn is_whitespace(c: char) -> bool {
    ||| ('\u{9}' <= c && c <= '\u{d}')
    ||| c == ' '
    ||| c == '\u{85}'
    ||| c == '\u{a0}'
    ||| c == '\u{1680}'
    ||| ('\u{2000}' <= c && c <= '\u{200a}')
    ||| c == '\u{2028}'
    ||| c == '\u{2029}'
    ||| c == '\u{202f}'
    ||| c == '\u{205f}'
    ||| c == '\u{3000}'
}

/// `s` without its leading whitespace.
pub open spec fn trim_start_ws(s: Seq<char>) -> Seq<char>
    decreases s.len(),
{
    if s.len() > 0 && is_whitespace(s[0]) {
        trim_start_ws(s.drop_first())
    } else {
        s
    }
}

/// `s` without its trailing whitespace.
pub open spec fn trim_end_ws(s: Seq<char>) -> Seq<char>
    decreases s.len(),
{
    if s.len() > 0 && is_whitespace(s.last()) {
        trim_end_ws(s.drop_last())
    } else {
        s
    }
}

/// `str::trim`.
pub open spec fn trim(s: Seq<char>) -> Seq<char> {
    trim_end_ws(trim_start_ws(s))
}

/// `str::trim_start_matches('=')`.
pub open spec fn trim_start_equals(s: Seq<char>) -> Seq<char>
    decreases s.len(),
{
    if s.len() > 0 && s[0] == '=' {
        trim_start_equals(s.drop_first())
    } else {
        s
    }
}

pub fn is_whitespace_char(c: char) -> (result: bool)
    ensures
        result == is_whitespace(c),
{
    ('\u{9}' <= c && c <= '\u{d}') || c == ' ' || c == '\u{85}' || c == '\u{a0}' || c
        == '\u{1680}' || ('\u{2000}' <= c && c <= '\u{200a}') || c == '\u{2028}' || c
        == '\u{2029}' || c == '\u{202f}' || c == '\u{205f}' || c == '\u{3000}'
}

pub fn ascii_lower_char(c: char) -> (result: char)
    ensures
        result == ascii_lower(c),
{
    if 'A' <= c && c <= 'Z' {
        ((c as u8) + 32) as char
    } else {
        c
    }
}

/// Whether two strings are equal ignoring ASCII case.
pub fn str_eq_ignore_ascii_case(a: &str, b: &str) -> (result: bool)
    ensures
        result == eq_ignore_ascii_case(a@, b@),
{
    let x = chars_of(a);
    let y = chars_of(b);
    if x.len() != y.len() {
        return false;
    }
    let mut i: usize = 0;
    while i < x.len()
        invariant
            x@ == a@,
            y@ == b@,
            x@.len() == y@.len(),
            i <= x@.len(),
            forall|t: int| 0 <= t < i ==> ascii_lower(#[trigger] x@[t]) == ascii_lower(y@[t]),
        decreases x.len() - i,
    {
        if ascii_lower_char(x[i]) != ascii_lower_char(y[i]) {
            return false;
        }
        i = i + 1;
    }
    true
}

/// Bounds of `chars[from..to]` once leading and trailing whitespace is dropped.
pub fn trim_bounds(chars: &[char], from: usize, to: usize) -> (result: (usize, usize))
    requires
        from <= to <= chars@.len(),
    ensures
        from <= result.0 <= result.1 <= to,
        chars@.subrange(result.0 as int, result.1 as int) == trim(
            chars@.subrange(from as int, to as int),
        ),
{
    let ghost s = chars@.subrange(from as int, to as int);
    let mut i = from;
    assert(s.subrange(0, s.len() as int) == s);
    while i < to && is_whitespace_char(chars[i])
        invariant
            from <= i <= to <= chars@.len(),
            s == chars@.subrange(from as int, to as int),
            trim_start_ws(s) == trim_start_ws(s.subrange(i - from, s.len() as int)),
        decreases to - i,
    {
        assert(s.subrange(i - from, s.len() as int).drop_first() == s.subrange(
            i - from + 1,
            s.len() as int,
        ));
        i = i + 1;
    }
    let ghost t = s.subrange(i - from, s.len() as int);
    assert(t == chars@.subrange(i as int, to as int));
    let mut j = to;
    assert(t.subrange(0, t.len() as int) == t);
    while j > i && is_whitespace_char(chars[j - 1])
        invariant
            from <= i <= j <= to <= chars@.len(),
            t == chars@.subrange(i as int, to as int),
            trim_end_ws(t) == trim_end_ws(t.subrange(0, j - i)),
        decreases j - i,
    {
        assert(t.subrange(0, j - i).drop_last() == t.subrange(0, j - i - 1));
        j = j - 1;
    }
    assert(t.subrange(0, j - i) == chars@.subrange(i as int, j as int));
    (i, j)
}

/// Position of the first character of `chars[from..to]` left by `trim_start_matches('=')`.
pub fn skip_equals(chars: &[char], from: usize, to: usize) -> (result: usize)
    requires
        from <= to <= chars@.len(),
    ensures
        from <= result <= to,
        chars@.subrange(result as int, to as int) == trim_start_equals(
            chars@.subrange(from as int, to as int),
        ),
{
    let ghost s = chars@.subrange(from as int, to as int);
    let mut i = from;
    assert(s.subrange(0, s.len() as int) == s);
    while i < to && chars[i] == '='
        invariant
            from <= i <= to <= chars@.len(),
            s == chars@.subrange(from as int, to as int),
            trim_start_equals(s) == trim_start_equals(s.subrange(i - from, s.len() as int)),
        decreases to - i,
    {
        assert(s.subrange(i - from, s.len() as int).drop_first() == s.subrange(
            i - from + 1,
            s.len() as int,
        ));
        i = i + 1;
    }
    assert(s.subrange(i - from, s.len() as int) == chars@.subrange(i as int, to as int));
    i
}

/// Whether `chars[from..to]` equals `word`.
pub fn range_is(chars: &[char], from: usize, to: usize, word: &str) -> (result: bool)
    requires
        from <= to <= chars@.len(),
    ensures
        result == (chars@.subrange(from as int, to as int) == word@),
{
    let w = chars_of(word);
    if to - from != w.len() {
        return false;
    }
    let mut i: usize = 0;
    while i < w.len()
        invariant
            from + w@.len() == to <= chars@.len(),
            w@ == word@,
            i <= w@.len(),
            forall|t: int| 0 <= t < i ==> chars@[from + t] == w@[t],
        decreases w.len() - i,
    {
        if chars[from + i] != w[i] {
            assert(chars@.subrange(from as int, to as int)[i as int] != w@[i as int]);
            return false;
        }
        i = i + 1;
    }
    assert(chars@.subrange(from as int, to as int) =~= w@);
    true
}

/// The number of bytes UTF-8 spends on `c`.
pub open spec fn utf8_width(c: char) -> nat {
    if (c as u32) < 0x80 {
        1
    } else if (c as u32) < 0x800 {
        2
    } else if (c as u32) < 0x10000 {
        3
    } else {
        4
    }
}

/// The length in UTF-8 bytes of a character sequence.
pub open spec fn utf8_len(s: Seq<char>) -> nat
    decreases s.len(),
{
    if s.len() == 0 {
        0
    } else {
        utf8_len(s.drop_last()) + utf8_width(s.last())
    }
}

/// The number of bytes UTF-8 spends on `c`.
pub fn utf8_width_of(c: char) -> (result: usize)
    ensures
        result == utf8_width(c),
{
    let u = c as u32;
    if u < 0x80 {
        1
    } else if u < 0x800 {
        2
    } else if u < 0x10000 {
        3
    } else {
        4
    }
}

/// A longer prefix is no shorter in UTF-8.
pub proof fn lemma_utf8_len_grows(s: Seq<char>, i: int, j: int)
    requires
        0 <= i <= j <= s.len(),
    ensures
        utf8_len(s.take(i)) <= utf8_len(s.take(j)),
    decreases j - i,
{
    if i < j {
        lemma_utf8_len_grows(s, i, j - 1);
        assert(s.take(j).drop_last() == s.take(j - 1));
    }
}

} // verus!

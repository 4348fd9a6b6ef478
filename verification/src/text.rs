//! Character and string helpers shared by the whole crate.
use vstd::prelude::*;

verus! {

/// `String::push` appends one character.
pub assume_specification[ String::push ](s: &mut String, ch: char)
    ensures
        final(s)@ == old(s)@.push(ch),
;

/// The characters of `s`, in order.
pub fn to_chars(s: &str) -> (v: Vec<char>)
    ensures
        v@ == s@,
{
    let mut v: Vec<char> = Vec::new();
    for c in it: s.chars()
        invariant
            v@ == it.history(),
    {
        v.push(c);
    }
    v
}

/// The string made of `v[from..to]`.
pub fn string_from_range(v: &Vec<char>, from: usize, to: usize) -> (s: String)
    requires
        from <= to <= v.len(),
    ensures
        s@ == v@.subrange(from as int, to as int),
{
    let mut s = String::new();
    let mut i: usize = from;
    while i < to
        invariant
            from <= i <= to <= v.len(),
            s@ == v@.subrange(from as int, i as int),
        decreases to - i,
    {
        s.push(v[i]);
        i = i + 1;
        assert(s@ =~= v@.subrange(from as int, i as int));
    }
    s
}

/// Appends all characters of `v` to `s`.
pub fn push_chars(s: &mut String, v: &Vec<char>)
    ensures
        final(s)@ == old(s)@ + v@,
{
    let mut i: usize = 0;
    while i < v.len()
        invariant
            i <= v.len(),
            s@ == old(s)@ + v@.subrange(0, i as int),
        decreases v.len() - i,
    {
        s.push(v[i]);
        i = i + 1;
        assert(s@ =~= old(s)@ + v@.subrange(0, i as int));
    }
    assert(v@.subrange(0, v.len() as int) =~= v@);
}

/// Appends the characters of `v` to the vector `s`.
pub fn push_chars_vec(s: &mut Vec<char>, v: &Vec<char>)
    ensures
        final(s)@ == old(s)@ + v@,
{
    let mut i: usize = 0;
    while i < v.len()
        invariant
            i <= v.len(),
            s@ == old(s)@ + v@.subrange(0, i as int),
        decreases v.len() - i,
    {
        s.push(v[i]);
        i = i + 1;
        assert(s@ =~= old(s)@ + v@.subrange(0, i as int));
    }
    assert(v@.subrange(0, v.len() as int) =~= v@);
}

/// Appends the string `t` to `s`.
pub fn push_str(s: &mut String, t: &str)
    ensures
        final(s)@ == old(s)@ + t@,
{
    let v = to_chars(t);
    push_chars(s, &v);
}

/// Whether two strings hold the same characters.
pub fn str_eq(a: &str, b: &str) -> (r: bool)
    ensures
        r == (a@ == b@),
{
    let x = to_chars(a);
    let y = to_chars(b);
    if x.len() != y.len() {
        return false;
    }
    let mut i: usize = 0;
    while i < x.len()
        invariant
            x@ == a@,
            y@ == b@,
            x.len() == y.len(),
            i <= x.len(),
            forall|j: int| 0 <= j < i ==> x@[j] == y@[j],
        decreases x.len() - i,
    {
        if x[i] != y[i] {
            assert(x@[i as int] != y@[i as int]);
            return false;
        }
        i = i + 1;
    }
    assert(x@ =~= y@);
    true
}

/// The decimal digit for `d < 10`.
pub open spec fn digit_char(d: nat) -> char {
    if d == 0 { '0' }
    else if d == 1 { '1' }
    else if d == 2 { '2' }
    else if d == 3 { '3' }
    else if d == 4 { '4' }
    else if d == 5 { '5' }
    else if d == 6 { '6' }
    else if d == 7 { '7' }
    else if d == 8 { '8' }
    else { '9' }
}

/// The decimal representation of `n`, without leading zeros ("0" for zero).
pub open spec fn decimal(n: nat) -> Seq<char>
    decreases n,
{
    if n < 10 {
        seq![digit_char(n)]
    } else {
        decimal(n / 10).push(digit_char(n % 10))
    }
}

fn digit_to_char(d: u64) -> (c: char)
    requires
        d < 10,
    ensures
        c == digit_char(d as nat),
{
    if d == 0 { '0' }
    else if d == 1 { '1' }
    else if d == 2 { '2' }
    else if d == 3 { '3' }
    else if d == 4 { '4' }
    else if d == 5 { '5' }
    else if d == 6 { '6' }
    else if d == 7 { '7' }
    else if d == 8 { '8' }
    else { '9' }
}

/// Appends the decimal representation of `n` to `s`.
pub fn push_decimal(s: &mut String, n: u64)
    ensures
        final(s)@ == old(s)@ + decimal(n as nat),
    decreases n,
{
    if n < 10 {
        s.push(digit_to_char(n));
        assert(s@ =~= old(s)@ + decimal(n as nat));
    } else {
        push_decimal(s, n / 10);
        s.push(digit_to_char(n % 10));
        assert(s@ =~= old(s)@ + decimal(n as nat));
    }
}

/// `n` spaces.
pub open spec fn spaces(n: nat) -> Seq<char> {
    Seq::new(n, |i: int| ' ')
}

/// `s` right-aligned in a field of `width` characters.
pub open spec fn pad_left(s: Seq<char>, width: nat) -> Seq<char> {
    if s.len() >= width { s } else { spaces((width - s.len()) as nat) + s }
}

/// `s` left-aligned in a field of `width` characters.
pub open spec fn pad_right(s: Seq<char>, width: nat) -> Seq<char> {
    if s.len() >= width { s } else { s + spaces((width - s.len()) as nat) }
}

/// Appends `n` spaces to `s`.
pub fn push_spaces(s: &mut String, n: usize)
    ensures
        final(s)@ == old(s)@ + spaces(n as nat),
{
    let mut i: usize = 0;
    while i < n
        invariant
            i <= n,
            s@ == old(s)@ + spaces(i as nat),
        decreases n - i,
    {
        s.push(' ');
        i = i + 1;
        assert(s@ =~= old(s)@ + spaces(i as nat));
    }
}

/// The number of decimal digits of `n`.
pub fn decimal_len(n: u64) -> (l: usize)
    ensures
        l == decimal(n as nat).len(),
        l <= 20,
    decreases n,
{
    proof { lemma_decimal_len(n as nat); }
    if n < 10 {
        1
    } else {
        decimal_len(n / 10) + 1
    }
}

proof fn lemma_decimal_len(n: nat)
    ensures
        decimal(n).len() >= 1,
        n < 0x1_0000_0000_0000_0000 ==> decimal(n).len() <= 20,
    decreases n,
{
    if n >= 10 {
        lemma_decimal_len(n / 10);
    }
    if n < 0x1_0000_0000_0000_0000 {
        reveal_with_fuel(pow10, 21);
        assert(pow10(20) == 100000000000000000000);
        lemma_decimal_small(n, 20);
    }
}

proof fn lemma_decimal_small(n: nat, k: nat)
    requires
        k >= 1,
        n < pow10(k),
    ensures
        decimal(n).len() <= k,
    decreases n,
{
    if n >= 10 {
        assert(k >= 2) by {
            if k == 1 {
                assert(pow10(1) == 10 * pow10(0));
            }
        }
        assert(pow10(k) == 10 * pow10((k - 1) as nat));
        assert(n / 10 < pow10((k - 1) as nat));
        lemma_decimal_small(n / 10, (k - 1) as nat);
    }
}

pub open spec fn pow10(k: nat) -> nat
    decreases k,
{
    if k == 0 { 1 } else { 10 * pow10((k - 1) as nat) }
}

/// Appends `t` to `s`, right-aligned in a field of `width` characters.
pub fn push_padded_left(s: &mut String, t: &str, width: usize)
    ensures
        final(s)@ == old(s)@ + pad_left(t@, width as nat),
{
    let v = to_chars(t);
    if v.len() < width {
        push_spaces(s, width - v.len());
    }
    push_chars(s, &v);
    assert(s@ =~= old(s)@ + pad_left(t@, width as nat));
}

/// Appends `t` to `s`, left-aligned in a field of `width` characters.
pub fn push_padded_right(s: &mut String, t: &str, width: usize)
    ensures
        final(s)@ == old(s)@ + pad_right(t@, width as nat),
{
    let v = to_chars(t);
    push_chars(s, &v);
    if v.len() < width {
        push_spaces(s, width - v.len());
    }
    assert(s@ =~= old(s)@ + pad_right(t@, width as nat));
}

/// Unicode's `Alphabetic` property, as `char::is_alphabetic` reports it.
pub uninterp spec fn unicode_alphabetic(c: char) -> bool;

/// Unicode's numeric general categories, as `char::is_numeric` reports them.
pub uninterp spec fn unicode_numeric(c: char) -> bool;

/// Calls `char::is_alphabetic`; the contract names its answer and claims nothing more of it.
#[verifier::external_body]
fn char_is_alphabetic(c: char) -> (r: bool)
    ensures
        r == unicode_alphabetic(c),
{
    c.is_alphabetic()
}

/// Calls `char::is_numeric`; the contract names its answer and claims nothing more of it.
#[verifier::external_body]
fn char_is_numeric(c: char) -> (r: bool)
    ensures
        r == unicode_numeric(c),
{
    c.is_numeric()
}

/// An alphabetic character: among ASCII characters exactly the letters `A`-`Z` and
/// `a`-`z`; beyond ASCII, Unicode's `Alphabetic` property.
pub open spec fn alphabetic(c: char) -> bool {
    if c <= '\u{7f}' {
        ('a' <= c && c <= 'z') || ('A' <= c && c <= 'Z')
    } else {
        unicode_alphabetic(c)
    }
}

/// A numeric character: among ASCII characters exactly the digits `0`-`9`; beyond
/// ASCII, Unicode's numeric categories.
pub open spec fn numeric(c: char) -> bool {
    if c <= '\u{7f}' { '0' <= c && c <= '9' } else { unicode_numeric(c) }
}

/// Alphabetic or numeric (what `char::is_alphanumeric` accepts).
pub open spec fn alphanumeric(c: char) -> bool {
    alphabetic(c) || numeric(c)
}

/// Whether `c` is alphabetic, as `char::is_alphabetic` says.
pub fn is_alphabetic(c: char) -> (r: bool)
    ensures
        r == alphabetic(c),
{
    if c <= '\u{7f}' {
        ('a' <= c && c <= 'z') || ('A' <= c && c <= 'Z')
    } else {
        char_is_alphabetic(c)
    }
}

/// Whether `c` is alphabetic or numeric, as `char::is_alphanumeric` says.
pub fn is_alphanumeric(c: char) -> (r: bool)
    ensures
        r == alphanumeric(c),
{
    if is_alphabetic(c) {
        true
    } else if c <= '\u{7f}' {
        '0' <= c && c <= '9'
    } else {
        char_is_numeric(c)
    }
}

/// The code point of `c`.
pub fn char_code(c: char) -> (r: u32)
    ensures
        r as int == c as int,
{
    c as u32
}

/// An ASCII decimal digit.
pub open spec fn is_ascii_digit(c: char) -> bool {
    '0' <= c && c <= '9'
}

/// Unicode `White_Space` (the characters that `char::is_whitespace` accepts).
pub open spec fn is_unicode_whitespace(c: char) -> bool {
    ('\u{9}' <= c && c <= '\u{d}') || c == ' ' || c == '\u{85}' || c == '\u{a0}' || c == '\u{1680}'
        || ('\u{2000}' <= c && c <= '\u{200a}') || c == '\u{2028}' || c == '\u{2029}'
        || c == '\u{202f}' || c == '\u{205f}' || c == '\u{3000}'
}

/// Whether `c` is Unicode white space.
pub fn is_whitespace(c: char) -> (r: bool)
    ensures
        r == is_unicode_whitespace(c),
{
    ('\u{9}' <= c && c <= '\u{d}') || c == ' ' || c == '\u{85}' || c == '\u{a0}' || c == '\u{1680}'
        || ('\u{2000}' <= c && c <= '\u{200a}') || c == '\u{2028}' || c == '\u{2029}'
        || c == '\u{202f}' || c == '\u{205f}' || c == '\u{3000}'
}

/// The general category `Cc` (the characters that `char::is_control` accepts).
pub open spec fn is_control_char(c: char) -> bool {
    c <= '\u{1f}' || ('\u{7f}' <= c && c <= '\u{9f}')
}

/// Whether `c` is a control character.
pub fn is_control(c: char) -> (r: bool)
    ensures
        r == is_control_char(c),
{
    c <= '\u{1f}' || ('\u{7f}' <= c && c <= '\u{9f}')
}

/// The number of leading white-space characters of `s`.
pub open spec fn leading_ws(s: Seq<char>) -> nat
    decreases s.len(),
{
    if s.len() > 0 && is_unicode_whitespace(s[0]) { 1 + leading_ws(s.drop_first()) } else { 0 }
}

/// The number of trailing white-space characters of `s`.
pub open spec fn trailing_ws(s: Seq<char>) -> nat
    decreases s.len(),
{
    if s.len() > 0 && is_unicode_whitespace(s.last()) { 1 + trailing_ws(s.drop_last()) } else { 0 }
}

/// `s` without leading white space (as `str::trim_start`).
pub open spec fn trim_start(s: Seq<char>) -> Seq<char> {
    s.skip(leading_ws(s) as int)
}

/// `s` without trailing white space (as `str::trim_end`).
pub open spec fn trim_end(s: Seq<char>) -> Seq<char> {
    s.take(s.len() - trailing_ws(s))
}

/// `s` without leading and trailing white space (as `str::trim`).
pub open spec fn trim(s: Seq<char>) -> Seq<char> {
    trim_end(trim_start(s))
}

pub proof fn lemma_leading_ws(s: Seq<char>, i: int)
    requires
        0 <= i <= s.len(),
        forall|j: int| 0 <= j < i ==> is_unicode_whitespace(#[trigger] s[j]),
    ensures
        leading_ws(s) == i + leading_ws(s.skip(i)),
        leading_ws(s) <= s.len(),
    decreases i,
{
    lemma_leading_ws_le(s);
    if i > 0 {
        lemma_leading_ws(s.drop_first(), i - 1);
        assert(s.drop_first().skip(i - 1) =~= s.skip(i));
    } else {
        assert(s.skip(0) =~= s);
    }
}

pub proof fn lemma_leading_ws_le(s: Seq<char>)
    ensures
        leading_ws(s) <= s.len(),
    decreases s.len(),
{
    if s.len() > 0 {
        lemma_leading_ws_le(s.drop_first());
    }
}

pub proof fn lemma_trailing_ws(s: Seq<char>, i: int)
    requires
        0 <= i <= s.len(),
        forall|j: int| i <= j < s.len() ==> is_unicode_whitespace(#[trigger] s[j]),
    ensures
        trailing_ws(s) == (s.len() - i) + trailing_ws(s.take(i)),
        trailing_ws(s) <= s.len(),
    decreases s.len() - i,
{
    lemma_trailing_ws_le(s);
    if i < s.len() {
        lemma_trailing_ws(s.drop_last(), i);
        assert(s.drop_last().take(i) =~= s.take(i));
    } else {
        assert(s.take(i) =~= s);
    }
}

pub proof fn lemma_trailing_ws_le(s: Seq<char>)
    ensures
        trailing_ws(s) <= s.len(),
    decreases s.len(),
{
    if s.len() > 0 {
        lemma_trailing_ws_le(s.drop_last());
    }
}

/// The first index at or after `from` that is not white space (or `to`).
pub fn skip_ws_forward(c: &Vec<char>, from: usize, to: usize) -> (r: usize)
    requires
        from <= to <= c.len(),
    ensures
        from <= r <= to,
        r == from + leading_ws(c@.subrange(from as int, to as int)),
{
    let mut i = from;
    while i < to && is_whitespace(c[i])
        invariant
            from <= i <= to <= c.len(),
            forall|j: int| from <= j < i ==> is_unicode_whitespace(#[trigger] c@[j]),
        decreases to - i,
    {
        i = i + 1;
    }
    proof {
        let s = c@.subrange(from as int, to as int);
        assert forall|j: int| 0 <= j < i - from implies is_unicode_whitespace(#[trigger] s[j]) by {
            assert(s[j] == c@[from + j]);
        }
        lemma_leading_ws(s, i - from);
        let t = s.skip(i - from);
        if t.len() > 0 {
            assert(t[0] == c@[i as int]);
        }
    }
    i
}

/// The index just past the last non-white-space character in `c[from..to]` (or `from`).
pub fn skip_ws_backward(c: &Vec<char>, from: usize, to: usize) -> (r: usize)
    requires
        from <= to <= c.len(),
    ensures
        from <= r <= to,
        r == to - trailing_ws(c@.subrange(from as int, to as int)),
{
    let mut i = to;
    while i > from && is_whitespace(c[i - 1])
        invariant
            from <= i <= to <= c.len(),
            forall|j: int| i <= j < to ==> is_unicode_whitespace(#[trigger] c@[j]),
        decreases i - from,
    {
        i = i - 1;
    }
    proof {
        let s = c@.subrange(from as int, to as int);
        assert forall|j: int| i - from <= j < s.len() implies is_unicode_whitespace(#[trigger] s[j]) by {
            assert(s[j] == c@[from + j]);
        }
        lemma_trailing_ws(s, i - from);
        let t = s.take(i - from);
        if t.len() > 0 {
            assert(t.last() == c@[i - 1]);
        }
    }
    i
}

/// `s` with leading and trailing white space removed.
pub fn trimmed(s: &str) -> (r: String)
    ensures
        r@ == trim(s@),
{
    let c = to_chars(s);
    let a = skip_ws_forward(&c, 0, c.len());
    let b = skip_ws_backward(&c, a, c.len());
    proof {
        assert(c@.subrange(0, c.len() as int) =~= c@);
        assert(trim_start(s@) =~= c@.subrange(a as int, c.len() as int));
        assert(trim(s@) =~= c@.subrange(a as int, b as int));
    }
    string_from_range(&c, a, b)
}

/// The ASCII lower-case form of `c` (other characters unchanged).
pub open spec fn ascii_lower(c: char) -> char {
    if 'A' <= c && c <= 'Z' { ((c as u32) + 32) as char } else { c }
}

/// `c` in ASCII lower case.
pub fn to_ascii_lower(c: char) -> (r: char)
    ensures
        r == ascii_lower(c),
{
    if 'A' <= c && c <= 'Z' {
        let v = c as u8 + 32;
        v as char
    } else {
        c
    }
}

/// `s` with ASCII letters in lower case (as `str::to_ascii_lowercase`).
pub open spec fn lower_ascii(s: Seq<char>) -> Seq<char> {
    s.map_values(|c: char| ascii_lower(c))
}

/// `s` with ASCII letters in lower case.
pub fn to_ascii_lowercase(s: &str) -> (r: String)
    ensures
        r@ == lower_ascii(s@),
{
    let c = to_chars(s);
    let mut r = String::new();
    let mut i: usize = 0;
    while i < c.len()
        invariant
            i <= c.len(),
            c@ == s@,
            r@ == lower_ascii(c@.take(i as int)),
        decreases c.len() - i,
    {
        r.push(to_ascii_lower(c[i]));
        i = i + 1;
        assert(r@ =~= lower_ascii(c@.take(i as int)));
    }
    assert(c@.take(c.len() as int) =~= c@);
    r
}

/// The two strings are equal when ASCII letters are compared without case.
pub open spec fn eq_ignore_ascii_case(a: Seq<char>, b: Seq<char>) -> bool {
    a.len() == b.len() && forall|i: int| 0 <= i < a.len() ==> ascii_lower(#[trigger] a[i]) == ascii_lower(b[i])
}

/// Whether `a` equals `b` up to ASCII case.
pub fn chars_eq_ignore_ascii_case(a: &Vec<char>, b: &Vec<char>) -> (r: bool)
    ensures
        r == eq_ignore_ascii_case(a@, b@),
{
    if a.len() != b.len() {
        return false;
    }
    let mut i: usize = 0;
    while i < a.len()
        invariant
            a.len() == b.len(),
            i <= a.len(),
            forall|j: int| 0 <= j < i ==> ascii_lower(#[trigger] a@[j]) == ascii_lower(b@[j]),
        decreases a.len() - i,
    {
        if to_ascii_lower(a[i]) != to_ascii_lower(b[i]) {
            return false;
        }
        i = i + 1;
    }
    true
}

/// Whether `p` occurs in `s` at position `i`.
pub open spec fn occurs_at(s: Seq<char>, p: Seq<char>, i: int) -> bool {
    0 <= i && i + p.len() <= s.len() && s.subrange(i, i + p.len()) == p
}

/// The first position at or after `i` where `p` occurs in `s` (as `str::find`).
pub open spec fn find_from(s: Seq<char>, p: Seq<char>, i: int) -> Option<int>
    decreases s.len() + 1 - i,
{
    if i < 0 || i + p.len() > s.len() {
        None
    } else if occurs_at(s, p, i) {
        Some(i)
    } else {
        find_from(s, p, i + 1)
    }
}

/// The first position at or after `from` where `p` occurs in `c`.
pub fn find_chars(c: &Vec<char>, p: &Vec<char>, from: usize) -> (r: Option<usize>)
    requires
        from <= c.len(),
    ensures
        match find_from(c@, p@, from as int) {
            Some(i) => r == Some(i as usize),
            None => r is None,
        },
{
    let mut i = from;
    while i <= c.len() && p.len() <= c.len() - i
        invariant
            from <= i,
            find_from(c@, p@, from as int) == find_from(c@, p@, i as int),
        decreases c.len() + 1 - i,
    {
        let mut k: usize = 0;
        while k < p.len() && c[i + k] == p[k]
            invariant
                k <= p.len(),
                i + p.len() <= c.len(),
                forall|j: int| 0 <= j < k ==> c@[i + j] == #[trigger] p@[j],
            decreases p.len() - k,
        {
            k = k + 1;
        }
        if k == p.len() {
            assert(c@.subrange(i as int, i + p.len()) =~= p@);
            return Some(i);
        }
        assert(c@.subrange(i as int, i + p.len())[k as int] != p@[k as int]);
        i = i + 1;
    }
    None
}

/// All characters are ASCII digits.
pub open spec fn all_digits(s: Seq<char>) -> bool {
    forall|i: int| 0 <= i < s.len() ==> is_ascii_digit(#[trigger] s[i])
}

/// The number written by a string of ASCII digits.
pub open spec fn digits_value(s: Seq<char>) -> nat
    decreases s.len(),
{
    if s.len() == 0 {
        0
    } else {
        10 * digits_value(s.drop_last()) + ((s.last() as int) - ('0' as int)) as nat
    }
}

/// `s` read as an unsigned decimal number with an optional leading `+`
/// (the syntax of `u64::from_str`), whatever its size.
pub open spec fn unsigned_value(s: Seq<char>) -> Option<nat> {
    let body = if s.len() > 0 && s[0] == '+' { s.drop_first() } else { s };
    if body.len() > 0 && all_digits(body) { Some(digits_value(body)) } else { None }
}

/// `s` read as a signed decimal number with an optional leading `+` or `-`
/// (the syntax of `i32::from_str`), whatever its size.
pub open spec fn signed_value(s: Seq<char>) -> Option<int> {
    let negative = s.len() > 0 && s[0] == '-';
    let body = if s.len() > 0 && (s[0] == '+' || s[0] == '-') { s.drop_first() } else { s };
    if body.len() > 0 && all_digits(body) {
        Some(if negative { -(digits_value(body) as int) } else { digits_value(body) as int })
    } else {
        None
    }
}

proof fn lemma_digits_prefix(s: Seq<char>, k: int)
    requires
        0 <= k <= s.len(),
        all_digits(s),
    ensures
        digits_value(s.take(k)) <= digits_value(s),
    decreases s.len() - k,
{
    if k < s.len() {
        lemma_digits_prefix(s, k + 1);
        assert(s.take(k + 1).drop_last() =~= s.take(k));
    } else {
        assert(s.take(k) =~= s);
    }
}

/// Reads the digits of `c[from..]` as a number no greater than `max`; `None` when a
/// character is not a digit, there are none, or the number exceeds `max`.
fn digits_up_to(c: &Vec<char>, from: usize, max: u64) -> (r: Option<u64>)
    requires
        from <= c.len(),
    ensures
        ({
            let body = c@.skip(from as int);
            match r {
                Some(v) => body.len() > 0 && all_digits(body) && v == digits_value(body) && v <= max,
                None => !(body.len() > 0 && all_digits(body) && digits_value(body) <= max),
            }
        }),
{
    let ghost body = c@.skip(from as int);
    if from == c.len() {
        return None;
    }
    let mut value: u64 = 0;
    let mut i = from;
    while i < c.len()
        invariant
            from <= i <= c.len(),
            body == c@.skip(from as int),
            all_digits(body.take(i - from)),
            value == digits_value(body.take(i - from)),
            value <= max,
        decreases c.len() - i,
    {
        let ch = c[i];
        proof {
            assert(body.take(i + 1 - from).drop_last() =~= body.take(i - from));
            assert(body[i - from] == ch);
        }
        if !('0' <= ch && ch <= '9') {
            proof {
                assert(!is_ascii_digit(body[i - from]));
            }
            return None;
        }
        let d = (ch as u32 - '0' as u32) as u64;
        if d > max || value > (max - d) / 10 {
            proof {
                if d <= max {
                    assert(value * 10 + d > max) by (nonlinear_arith)
                        requires value > (max - d) / 10, d <= max;
                }
                assert forall|j: int| 0 <= j < i + 1 - from implies is_ascii_digit(#[trigger] body.take(i + 1 - from)[j]) by {
                    if j < i - from {
                        assert(body.take(i + 1 - from)[j] == body.take(i - from)[j]);
                    }
                }
                if all_digits(body) {
                    lemma_digits_prefix(body, i + 1 - from);
                }
            }
            return None;
        }
        value = value * 10 + d;
        i = i + 1;
        proof {
            assert forall|j: int| 0 <= j < i - from implies is_ascii_digit(#[trigger] body.take(i - from)[j]) by {
                if j < i - 1 - from {
                    assert(body.take(i - from)[j] == body.take(i - 1 - from)[j]);
                }
            }
        }
    }
    assert(body.take(c.len() - from) =~= body);
    Some(value)
}

/// `s` read as `u64::from_str` reads it.
pub fn parse_u64(s: &str) -> (r: Option<u64>)
    ensures
        match unsigned_value(s@) {
            Some(v) => if v <= u64::MAX { r == Some(v as u64) } else { r is None },
            None => r is None,
        },
{
    let c = to_chars(s);
    let from: usize = if c.len() > 0 && c[0] == '+' { 1 } else { 0 };
    proof {
        if from == 1 {
            assert(c@.skip(1) =~= s@.drop_first());
        } else {
            assert(c@.skip(0) =~= s@);
        }
    }
    digits_up_to(&c, from, u64::MAX)
}

/// `s` read as `i32::from_str` reads it.
pub fn parse_i32(s: &str) -> (r: Option<i32>)
    ensures
        match signed_value(s@) {
            Some(v) => if i32::MIN <= v <= i32::MAX { r == Some(v as i32) } else { r is None },
            None => r is None,
        },
{
    let c = to_chars(s);
    let negative = c.len() > 0 && c[0] == '-';
    let from: usize = if c.len() > 0 && (c[0] == '+' || c[0] == '-') { 1 } else { 0 };
    proof {
        if from == 1 {
            assert(c@.skip(1) =~= s@.drop_first());
        } else {
            assert(c@.skip(0) =~= s@);
        }
    }
    if negative {
        match digits_up_to(&c, from, 2147483648) {
            Some(v) => Some((0 - (v as i64)) as i32),
            None => None,
        }
    } else {
        match digits_up_to(&c, from, 2147483647) {
            Some(v) => Some(v as i32),
            None => None,
        }
    }
}

/// The pieces of `s` between the separators (one more piece than separators).
pub open spec fn split_chars(s: Seq<char>, sep: char) -> Seq<Seq<char>>
    decreases s.len(),
{
    if s.len() == 0 {
        seq![seq![]]
    } else {
        let r = split_chars(s.drop_last(), sep);
        if s.last() == sep { r.push(seq![]) } else { r.update(r.len() - 1, r.last().push(s.last())) }
    }
}

pub proof fn lemma_split_chars_len(s: Seq<char>, sep: char)
    ensures
        split_chars(s, sep).len() >= 1,
    decreases s.len(),
{
    if s.len() > 0 {
        lemma_split_chars_len(s.drop_last(), sep);
    }
}

} // verus!

//! Character-level text utilities shared by marker canonicalization,
//! tokenization and report rendering.
use vstd::prelude::*;

verus! {

// ---------------------------------------------------------------------------
// Character classes
// ---------------------------------------------------------------------------

pub open spec fn is_ascii_digit(c: char) -> bool {
    '0' <= c && c <= '9'
}

pub open spec fn is_ascii_upper(c: char) -> bool {
    'A' <= c && c <= 'Z'
}

pub open spec fn is_ascii_lower(c: char) -> bool {
    'a' <= c && c <= 'z'
}

pub open spec fn is_ascii_alnum(c: char) -> bool {
    is_ascii_digit(c) || is_ascii_upper(c) || is_ascii_lower(c)
}

pub open spec fn is_ascii_char(c: char) -> bool {
    (c as u32) < 128
}

/// ASCII lowercase mapping: `A..=Z` become `a..=z`, everything else is kept.
pub open spec fn ascii_lower(c: char) -> char {
    if is_ascii_upper(c) {
        ((c as u32) + 32) as char
    } else {
        c
    }
}

/// Unicode `White_Space` property, which is what `char::is_whitespace` tests.
pub open spec fn is_unicode_whitespace(c: char) -> bool {
    let u = c as u32;
    (0x09 <= u && u <= 0x0d) || u == 0x20 || u == 0x85 || u == 0xa0 || u == 0x1680
        || (0x2000 <= u && u <= 0x200a) || u == 0x2028 || u == 0x2029 || u == 0x202f
        || u == 0x205f || u == 0x3000
}

pub fn ascii_alnum(c: char) -> (b: bool)
    ensures
        b == is_ascii_alnum(c),
{
    ('0' <= c && c <= '9') || ('A' <= c && c <= 'Z') || ('a' <= c && c <= 'z')
}

pub fn unicode_whitespace(c: char) -> (b: bool)
    ensures
        b == is_unicode_whitespace(c),
{
    let u = c as u32;
    (0x09 <= u && u <= 0x0d) || u == 0x20 || u == 0x85 || u == 0xa0 || u == 0x1680 || (0x2000
        <= u && u <= 0x200a) || u == 0x2028 || u == 0x2029 || u == 0x202f || u == 0x205f || u
        == 0x3000
}

// ---------------------------------------------------------------------------
// Unicode lowercase (std's `char::to_lowercase`)
// ---------------------------------------------------------------------------

/// The characters that `char::to_lowercase` yields for `c`.
pub uninterp spec fn unicode_lowercase(c: char) -> Seq<char>;

/// Calls `char::to_lowercase`. The contract names the result and states what
/// std documents through the Unicode lowercase mapping: an ASCII character
/// lowercases to its ASCII lowercase form, and no character lowercases to an
/// ASCII capital letter. Nothing else is stated of other characters.
#[verifier::external_body]
fn char_to_lowercase(c: char) -> (out: Vec<char>)
    ensures
        out@ == unicode_lowercase(c),
        is_ascii_char(c) ==> out@ == seq![ascii_lower(c)],
        forall|j: int| 0 <= j < out@.len() ==> !is_ascii_upper(#[trigger] out@[j]),
{
    c.to_lowercase().collect()
}

/// What `char::to_lowercase` yields for `c`: its ASCII lowercase form for an
/// ASCII character, the Unicode mapping otherwise.
pub open spec fn char_lower(c: char) -> Seq<char> {
    if is_ascii_char(c) {
        seq![ascii_lower(c)]
    } else {
        unicode_lowercase(c)
    }
}

/// `flat_map(char::to_lowercase)` over a character sequence.
pub open spec fn lowercase_all(s: Seq<char>) -> Seq<char>
    decreases s.len(),
{
    if s.len() == 0 {
        Seq::empty()
    } else {
        lowercase_all(s.drop_last()) + char_lower(s.last())
    }
}

/// Whether no character of `s` lowercases to an ASCII capital letter.
pub open spec fn lowers_cleanly(s: Seq<char>) -> bool {
    forall|i: int, j: int|
        0 <= i < s.len() && 0 <= j < char_lower(s[i]).len() ==> !is_ascii_upper(#[trigger] char_lower(s[i])[j])
}

/// The lowercase form of text that lowers cleanly holds no ASCII capital.
pub proof fn lemma_lowers_cleanly(s: Seq<char>)
    requires
        lowers_cleanly(s),
    ensures
        forall|k: int| 0 <= k < lowercase_all(s).len() ==> !is_ascii_upper(#[trigger] lowercase_all(s)[k]),
    decreases s.len(),
{
    if s.len() > 0 {
        let d = s.drop_last();
        assert forall|i: int, j: int| 0 <= i < d.len() && 0 <= j < char_lower(d[i]).len() implies !is_ascii_upper(
            #[trigger] char_lower(d[i])[j],
        ) by {
            assert(d[i] == s[i]);
        }
        lemma_lowers_cleanly(d);
        let p = lowercase_all(d);
        let c = char_lower(s.last());
        assert forall|k: int| 0 <= k < lowercase_all(s).len() implies !is_ascii_upper(#[trigger] lowercase_all(s)[k]) by {
            if k < p.len() {
                assert(lowercase_all(s)[k] == p[k]);
            } else {
                assert(lowercase_all(s)[k] == c[k - p.len()]);
                assert(char_lower(s[s.len() - 1])[k - p.len()] == c[k - p.len()]);
            }
        }
    }
}

/// ASCII text lowers cleanly.
pub proof fn lemma_ascii_lowers_cleanly(s: Seq<char>)
    requires
        forall|i: int| 0 <= i < s.len() ==> is_ascii_char(#[trigger] s[i]),
    ensures
        lowers_cleanly(s),
{
    assert forall|i: int, j: int| 0 <= i < s.len() && 0 <= j < char_lower(s[i]).len() implies !is_ascii_upper(
        #[trigger] char_lower(s[i])[j],
    ) by {
        assert(is_ascii_char(s[i]));
        assert(char_lower(s[i]) == seq![ascii_lower(s[i])]);
    }
}

/// A piece of text that lowers cleanly lowers cleanly.
pub proof fn lemma_piece_lowers_cleanly(r: Seq<char>, s: Seq<char>, a: int)
    requires
        lowers_cleanly(s),
        piece_at(r, s, a),
    ensures
        lowers_cleanly(r),
{
    assert forall|i: int, j: int| 0 <= i < r.len() && 0 <= j < char_lower(r[i]).len() implies !is_ascii_upper(
        #[trigger] char_lower(r[i])[j],
    ) by {
        assert(r[i] == s[a + i]);
    }
}

/// Lowercases `v`; every character of `v` is found to lower cleanly.
pub fn lowercase_chars(v: &Vec<char>) -> (out: Vec<char>)
    ensures
        out@ == lowercase_all(v@),
        lowers_cleanly(v@),
{
    let mut out: Vec<char> = Vec::new();
    let mut i: usize = 0;
    while i < v.len()
        invariant
            i <= v.len(),
            out@ == lowercase_all(v@.take(i as int)),
            forall|q: int, j: int|
                0 <= q < i && 0 <= j < char_lower(v@[q]).len() ==> !is_ascii_upper(#[trigger] char_lower(v@[q])[j]),
        decreases v.len() - i,
    {
        let low = char_to_lowercase(v[i]);
        proof {
            assert(low@ == char_lower(v@[i as int]));
        }
        let mut j: usize = 0;
        let ghost before = out@;
        while j < low.len()
            invariant
                j <= low.len(),
                out@ == before + low@.take(j as int),
            decreases low.len() - j,
        {
            out.push(low[j]);
            proof {
                assert(low@.take(j + 1) == low@.take(j as int).push(low@[j as int]));
            }
            j += 1;
        }
        proof {
            assert(low@.take(j as int) == low@);
            assert(v@.take(i + 1).drop_last() == v@.take(i as int));
        }
        i += 1;
    }
    proof {
        assert(v@.take(i as int) == v@);
    }
    out
}

/// `str::to_ascii_lowercase` on a character sequence.
pub open spec fn ascii_lower_all(s: Seq<char>) -> Seq<char> {
    s.map_values(|c: char| ascii_lower(c))
}

pub fn ascii_lower_chars(v: &Vec<char>) -> (out: Vec<char>)
    ensures
        out@ == ascii_lower_all(v@),
{
    let mut out: Vec<char> = Vec::new();
    let mut i: usize = 0;
    while i < v.len()
        invariant
            i <= v.len(),
            out@.len() == i,
            forall|k: int| 0 <= k < i ==> out@[k] == ascii_lower(#[trigger] v@[k]),
        decreases v.len() - i,
    {
        let c = v[i];
        let l = if 'A' <= c && c <= 'Z' {
            ((c as u8) + 32) as char
        } else {
            c
        };
        proof {
            if is_ascii_upper(c) {
                assert((c as u8) as u32 == c as u32);
            }
        }
        out.push(l);
        i += 1;
    }
    proof {
        assert(out@ =~= ascii_lower_all(v@));
    }
    out
}

/// The trimmed, ASCII-lowercased form of `input` (`input.trim().to_ascii_lowercase()`).
pub open spec fn trim_ascii_lower(input: Seq<char>) -> Seq<char> {
    ascii_lower_all(trim_ws(input))
}

pub fn trim_ascii_lower_chars(input: &str) -> (out: Vec<char>)
    ensures
        out@ == trim_ascii_lower(input@),
{
    let t = trim_chars(&chars_of(input), TrimKind::Whitespace);
    ascii_lower_chars(&t)
}

// ---------------------------------------------------------------------------
// Strings and character vectors
// ---------------------------------------------------------------------------

/// Appends one character to a string (std's `String::push`).
#[verifier::external_body]
pub(crate) fn string_push(s: &mut String, c: char)
    ensures
        final(s)@ == old(s)@.push(c),
{
    s.push(c)
}

/// The characters of a string slice, in order.
pub fn chars_of(s: &str) -> (out: Vec<char>)
    ensures
        out@ == s@,
{
    let mut out: Vec<char> = Vec::new();
    for c in iter: s.chars()
        invariant
            out@ == iter.seq().take(iter.index() as int),
    {
        out.push(c);
    }
    out
}

/// Appends every character of `v` to `s`.
pub fn push_chars(s: &mut String, v: &Vec<char>)
    ensures
        final(s)@ == old(s)@ + v@,
{
    let mut i: usize = 0;
    while i < v.len()
        invariant
            i <= v.len(),
            s@ == old(s)@ + v@.take(i as int),
        decreases v.len() - i,
    {
        string_push(s, v[i]);
        proof {
            assert(v@.take(i + 1) == v@.take(i as int).push(v@[i as int]));
        }
        i += 1;
    }
    proof {
        assert(v@.take(i as int) == v@);
    }
}

/// Appends every character of `t` to `s`.
pub fn push_str(s: &mut String, t: &str)
    ensures
        final(s)@ == old(s)@ + t@,
{
    let v = chars_of(t);
    push_chars(s, &v);
}

/// A new string holding the characters of `v`.
pub fn string_from_chars(v: &Vec<char>) -> (s: String)
    ensures
        s@ == v@,
{
    let mut s = String::new();
    push_chars(&mut s, v);
    s
}

/// A new string holding the characters of `t`.
pub fn string_from(t: &str) -> (s: String)
    ensures
        s@ == t@,
{
    let mut s = String::new();
    push_str(&mut s, t);
    s
}

/// Appends the characters of `t` to the vector `v`.
pub fn extend_chars(v: &mut Vec<char>, t: &Vec<char>)
    ensures
        final(v)@ == old(v)@ + t@,
{
    let mut i: usize = 0;
    while i < t.len()
        invariant
            i <= t.len(),
            v@ == old(v)@ + t@.take(i as int),
        decreases t.len() - i,
    {
        v.push(t[i]);
        proof {
            assert(t@.take(i + 1) == t@.take(i as int).push(t@[i as int]));
        }
        i += 1;
    }
    proof {
        assert(t@.take(i as int) == t@);
    }
}

/// Whether two character vectors hold the same characters.
pub fn chars_eq(a: &Vec<char>, b: &Vec<char>) -> (r: bool)
    ensures
        r == (a@ == b@),
{
    if a.len() != b.len() {
        return false;
    }
    let mut i: usize = 0;
    while i < a.len()
        invariant
            i <= a.len(),
            a.len() == b.len(),
            forall|k: int| 0 <= k < i ==> a@[k] == b@[k],
        decreases a.len() - i,
    {
        if a[i] != b[i] {
            return false;
        }
        i += 1;
    }
    proof {
        assert(a@ =~= b@);
    }
    true
}

/// Whether two strings hold the same characters.
pub fn str_eq(a: &str, b: &str) -> (r: bool)
    ensures
        r == (a@ == b@),
{
    let x = chars_of(a);
    let y = chars_of(b);
    chars_eq(&x, &y)
}

/// Whether `v` contains the character `c`.
pub fn chars_contain(v: &Vec<char>, c: char) -> (r: bool)
    ensures
        r == v@.contains(c),
{
    let mut i: usize = 0;
    while i < v.len()
        invariant
            i <= v.len(),
            forall|k: int| 0 <= k < i ==> v@[k] != c,
        decreases v.len() - i,
    {
        if v[i] == c {
            proof {
                assert(v@[i as int] == c);
            }
            return true;
        }
        i += 1;
    }
    false
}

// ---------------------------------------------------------------------------
// Trimming
// ---------------------------------------------------------------------------

/// What a trim operation strips from both ends.
pub enum TrimKind {
    Whitespace,
    Underscore,
}

pub open spec fn trim_pred(k: TrimKind, c: char) -> bool {
    match k {
        TrimKind::Whitespace => is_unicode_whitespace(c),
        TrimKind::Underscore => c == '_',
    }
}

/// Index of the first character at or after `i` that is not stripped.
pub open spec fn skip_leading(s: Seq<char>, k: TrimKind, i: int) -> int
    decreases s.len() - i,
{
    if 0 <= i < s.len() && trim_pred(k, s[i]) {
        skip_leading(s, k, i + 1)
    } else {
        i
    }
}

/// One past the last character before `j` that is not stripped.
pub open spec fn skip_trailing(s: Seq<char>, k: TrimKind, j: int) -> int
    decreases j,
{
    if 0 < j <= s.len() && trim_pred(k, s[j - 1]) {
        skip_trailing(s, k, j - 1)
    } else {
        j
    }
}

/// `s` with the stripped characters removed from both ends.
pub open spec fn trim_seq(s: Seq<char>, k: TrimKind) -> Seq<char> {
    let a = skip_leading(s, k, 0);
    if a >= s.len() {
        Seq::empty()
    } else {
        s.subrange(a, skip_trailing(s, k, s.len() as int))
    }
}

pub open spec fn trim_ws(s: Seq<char>) -> Seq<char> {
    trim_seq(s, TrimKind::Whitespace)
}

proof fn lemma_skip_leading_bounds(s: Seq<char>, k: TrimKind, i: int)
    requires
        0 <= i <= s.len(),
    ensures
        i <= skip_leading(s, k, i) <= s.len(),
        skip_leading(s, k, i) < s.len() ==> !trim_pred(k, s[skip_leading(s, k, i)]),
        forall|m: int| i <= m < skip_leading(s, k, i) ==> trim_pred(k, s[m]),
    decreases s.len() - i,
{
    if i < s.len() && trim_pred(k, s[i]) {
        lemma_skip_leading_bounds(s, k, i + 1);
    }
}

proof fn lemma_skip_trailing_bounds(s: Seq<char>, k: TrimKind, j: int, a: int)
    requires
        0 <= a < j <= s.len(),
        !trim_pred(k, s[a]),
    ensures
        a < skip_trailing(s, k, j) <= j,
        !trim_pred(k, s[skip_trailing(s, k, j) - 1]),
        forall|m: int| skip_trailing(s, k, j) <= m < j ==> trim_pred(k, s[m]),
    decreases j,
{
    if trim_pred(k, s[j - 1]) {
        lemma_skip_trailing_bounds(s, k, j - 1, a);
    }
}

proof fn lemma_skip_trailing_le(s: Seq<char>, k: TrimKind, j: int)
    ensures
        skip_trailing(s, k, j) <= j,
    decreases j,
{
    if 0 < j <= s.len() && trim_pred(k, s[j - 1]) {
        lemma_skip_trailing_le(s, k, j - 1);
    }
}

/// `r` is the piece of `s` that starts at `a`.
pub open spec fn piece_at(r: Seq<char>, s: Seq<char>, a: int) -> bool {
    0 <= a && a + r.len() <= s.len() && forall|i: int| 0 <= i < r.len() ==> #[trigger] r[i] == s[a + i]
}

/// A trimmed sequence is a contiguous piece of the original whose ends are
/// not stripped characters.
pub(crate) proof fn lemma_trim_piece(s: Seq<char>, k: TrimKind)
    ensures
        exists|a: int| #[trigger] piece_at(trim_seq(s, k), s, a),
        trim_seq(s, k).len() > 0 ==> !trim_pred(k, trim_seq(s, k)[0]) && !trim_pred(
            k,
            trim_seq(s, k)[trim_seq(s, k).len() - 1],
        ),
{
    let a = skip_leading(s, k, 0);
    lemma_skip_leading_bounds(s, k, 0);
    let r = trim_seq(s, k);
    if a >= s.len() {
        assert(piece_at(r, s, 0));
    } else {
        lemma_skip_trailing_bounds(s, k, s.len() as int, a);
        let b = skip_trailing(s, k, s.len() as int);
        assert(r == s.subrange(a, b));
        assert(piece_at(r, s, a));
    }
}

/// A sequence whose ends are not stripped characters is its own trim.
pub(crate) proof fn lemma_trim_identity(s: Seq<char>, k: TrimKind)
    requires
        s.len() > 0 ==> !trim_pred(k, s[0]) && !trim_pred(k, s[s.len() - 1]),
    ensures
        trim_seq(s, k) == s,
{
    if s.len() > 0 {
        assert(skip_leading(s, k, 0) == 0);
        assert(skip_trailing(s, k, s.len() as int) == s.len());
        assert(s.subrange(0, s.len() as int) =~= s);
    }
}

/// Lowercasing ASCII text maps each character to its ASCII lowercase form.
pub proof fn lemma_lowercase_ascii(s: Seq<char>)
    requires
        forall|i: int| 0 <= i < s.len() ==> is_ascii_char(#[trigger] s[i]),
    ensures
        lowercase_all(s) == s.map_values(|c: char| ascii_lower(c)),
    decreases s.len(),
{
    if s.len() > 0 {
        lemma_lowercase_ascii(s.drop_last());
        assert(is_ascii_char(s[s.len() - 1]));
        assert(lowercase_all(s) =~= s.map_values(|c: char| ascii_lower(c)));
    }
}

fn strip(c: char, k: &TrimKind) -> (b: bool)
    ensures
        b == trim_pred(*k, c),
{
    match k {
        TrimKind::Whitespace => unicode_whitespace(c),
        TrimKind::Underscore => c == '_',
    }
}

/// `v` with the characters of kind `k` removed from both ends.
pub fn trim_chars(v: &Vec<char>, k: TrimKind) -> (out: Vec<char>)
    ensures
        out@ == trim_seq(v@, k),
{
    let n = v.len();
    let mut a: usize = 0;
    while a < n && strip(v[a], &k)
        invariant
            a <= n,
            n == v.len(),
            skip_leading(v@, k, 0) == skip_leading(v@, k, a as int),
        decreases n - a,
    {
        a += 1;
    }
    if a >= n {
        return Vec::new();
    }
    let mut b: usize = n;
    proof {
        lemma_skip_leading_bounds(v@, k, 0);
        lemma_skip_trailing_bounds(v@, k, n as int, a as int);
    }
    while b > a && strip(v[b - 1], &k)
        invariant
            a < n,
            a <= b <= n,
            n == v.len(),
            !trim_pred(k, v@[a as int]),
            skip_trailing(v@, k, n as int) == skip_trailing(v@, k, b as int),
        decreases b,
    {
        b -= 1;
    }
    proof {
        lemma_skip_trailing_le(v@, k, b as int);
        assert(b > a);
        assert(skip_trailing(v@, k, b as int) == b);
        assert(skip_leading(v@, k, a as int) == a);
    }
    let mut out: Vec<char> = Vec::new();
    let mut i: usize = a;
    while i < b
        invariant
            a <= i <= b,
            b <= v.len(),
            out@ == v@.subrange(a as int, i as int),
        decreases b - i,
    {
        out.push(v[i]);
        proof {
            assert(v@.subrange(a as int, i + 1) == v@.subrange(a as int, i as int).push(
                v@[i as int],
            ));
        }
        i += 1;
    }
    out
}

// ---------------------------------------------------------------------------
// Decimal rendering
// ---------------------------------------------------------------------------

pub open spec fn digit_char(d: nat) -> char {
    ((48 + d) as u32) as char
}

/// Decimal digits of `n`, as `Display` renders an unsigned integer.
pub open spec fn decimal(n: nat) -> Seq<char>
    decreases n,
{
    if n < 10 {
        seq![digit_char(n)]
    } else {
        decimal(n / 10).push(digit_char(n % 10))
    }
}

/// Decimal rendering of a signed integer, with a leading `-` when negative.
pub open spec fn signed_decimal(n: int) -> Seq<char> {
    if n < 0 {
        seq!['-'] + decimal((-n) as nat)
    } else {
        decimal(n as nat)
    }
}

/// `s` left-padded with `0` to at least `width` characters.
pub open spec fn zero_pad(s: Seq<char>, width: nat) -> Seq<char> {
    if s.len() >= width {
        s
    } else {
        Seq::new((width - s.len()) as nat, |i: int| '0') + s
    }
}

pub proof fn lemma_decimal_nonempty(n: nat)
    ensures
        decimal(n).len() >= 1,
    decreases n,
{
    if n >= 10 {
        lemma_decimal_nonempty(n / 10);
    }
}

/// Appends the decimal digits of `n` to `out`.
pub fn push_decimal(out: &mut Vec<char>, n: u64)
    ensures
        final(out)@ == old(out)@ + decimal(n as nat),
    decreases n,
{
    if n >= 10 {
        push_decimal(out, n / 10);
    }
    let d = (n % 10) as u8;
    let c = (48u8 + d) as char;
    proof {
        assert(c == digit_char((n % 10) as nat));
    }
    let ghost mid = out@;
    out.push(c);
    proof {
        if n >= 10 {
            assert(out@ == old(out)@ + decimal(n as nat));
        } else {
            assert(out@ == old(out)@ + decimal(n as nat));
        }
    }
}

/// Appends the decimal rendering of a signed integer to `out`.
pub fn push_signed_decimal(out: &mut Vec<char>, n: i64)
    ensures
        final(out)@ == old(out)@ + signed_decimal(n as int),
{
    if n < 0 {
        out.push('-');
        let m: u64 = (0i128 - (n as i128)) as u64;
        let ghost mid = out@;
        push_decimal(out, m);
        proof {
            assert(out@ == old(out)@ + signed_decimal(n as int));
        }
    } else {
        push_decimal(out, n as u64);
    }
}

/// Decimal digits of `n` as a string.
pub fn decimal_string(n: u64) -> (s: String)
    ensures
        s@ == decimal(n as nat),
{
    let mut v: Vec<char> = Vec::new();
    push_decimal(&mut v, n);
    proof {
        assert(v@ == decimal(n as nat));
    }
    string_from_chars(&v)
}

/// Appends the decimal rendering of a `u64` to a string.
pub fn push_decimal_str(s: &mut String, n: u64)
    ensures
        final(s)@ == old(s)@ + decimal(n as nat),
{
    let mut v: Vec<char> = Vec::new();
    push_decimal(&mut v, n);
    proof {
        assert(v@ == decimal(n as nat));
    }
    push_chars(s, &v);
}

/// Appends `true` or `false` to a string, as `Display` renders a `bool`.
pub fn push_bool_str(s: &mut String, b: bool)
    ensures
        final(s)@ == old(s)@ + bool_text(b),
{
    if b {
        push_str(s, "true");
    } else {
        push_str(s, "false");
    }
}

pub open spec fn bool_text(b: bool) -> Seq<char> {
    if b {
        "true"@
    } else {
        "false"@
    }
}

// ---------------------------------------------------------------------------
// Lexicographic order (the order of `str`'s `Ord`, by code point)
// ---------------------------------------------------------------------------

pub open spec fn seq_lt(a: Seq<char>, b: Seq<char>) -> bool
    decreases a.len(),
{
    if a.len() == 0 {
        b.len() > 0
    } else if b.len() == 0 {
        false
    } else if a[0] != b[0] {
        a[0] < b[0]
    } else {
        seq_lt(a.drop_first(), b.drop_first())
    }
}

pub proof fn lemma_seq_lt_irreflexive(a: Seq<char>)
    ensures
        !seq_lt(a, a),
    decreases a.len(),
{
    if a.len() > 0 {
        lemma_seq_lt_irreflexive(a.drop_first());
    }
}

pub proof fn lemma_seq_lt_transitive(a: Seq<char>, b: Seq<char>, c: Seq<char>)
    requires
        seq_lt(a, b),
        seq_lt(b, c),
    ensures
        seq_lt(a, c),
    decreases a.len(),
{
    if a.len() > 0 && b.len() > 0 && c.len() > 0 {
        if a[0] == b[0] && b[0] == c[0] {
            lemma_seq_lt_transitive(a.drop_first(), b.drop_first(), c.drop_first());
        }
    }
}

pub proof fn lemma_seq_lt_total(a: Seq<char>, b: Seq<char>)
    requires
        a != b,
    ensures
        seq_lt(a, b) || seq_lt(b, a),
    decreases a.len(),
{
    if a.len() > 0 && b.len() > 0 && a[0] == b[0] {
        if a.drop_first() == b.drop_first() {
            assert(a =~= seq![a[0]] + a.drop_first());
            assert(b =~= seq![b[0]] + b.drop_first());
        }
        lemma_seq_lt_total(a.drop_first(), b.drop_first());
    } else if a.len() > 0 && b.len() > 0 {
    } else if a.len() == 0 && b.len() == 0 {
        assert(a =~= b);
    }
}

pub proof fn lemma_seq_lt_asymmetric(a: Seq<char>, b: Seq<char>)
    requires
        seq_lt(a, b),
    ensures
        !seq_lt(b, a),
{
    if seq_lt(b, a) {
        lemma_seq_lt_transitive(a, b, a);
        lemma_seq_lt_irreflexive(a);
    }
}

/// Whether `a` orders before `b` lexicographically by code point.
pub fn chars_lt(a: &Vec<char>, b: &Vec<char>) -> (r: bool)
    ensures
        r == seq_lt(a@, b@),
{
    let mut i: usize = 0;
    proof {
        assert(a@.skip(0) =~= a@);
        assert(b@.skip(0) =~= b@);
    }
    while i < a.len() && i < b.len() && a[i] == b[i]
        invariant
            i <= a.len(),
            i <= b.len(),
            seq_lt(a@, b@) == seq_lt(a@.skip(i as int), b@.skip(i as int)),
        decreases a.len() - i,
    {
        proof {
            let x = a@.skip(i as int);
            let y = b@.skip(i as int);
            assert(x.drop_first() =~= a@.skip(i + 1));
            assert(y.drop_first() =~= b@.skip(i + 1));
        }
        i += 1;
    }
    if i == a.len() {
        i < b.len()
    } else if i == b.len() {
        false
    } else {
        proof {
            assert(a@.skip(i as int)[0] == a@[i as int]);
            assert(b@.skip(i as int)[0] == b@[i as int]);
        }
        a[i] < b[i]
    }
}


/// Strictly increasing in lexicographic order.
pub open spec fn strictly_sorted(s: Seq<Seq<char>>) -> bool {
    forall|i: int, j: int| 0 <= i < j < s.len() ==> seq_lt(#[trigger] s[i], #[trigger] s[j])
}

pub open spec fn views_of(v: Seq<String>) -> Seq<Seq<char>> {
    v.map_values(|s: String| s@)
}

/// Adds a string to an ordered set of strings.
pub fn string_set_insert(v: &mut Vec<String>, x: String)
    requires
        strictly_sorted(views_of(old(v)@)),
    ensures
        strictly_sorted(views_of(final(v)@)),
        views_of(final(v)@).to_set() == views_of(old(v)@).to_set().insert(x@),
{
    let ghost s0 = views_of(v@);
    let xc = chars_of(x.as_str());
    let mut j: usize = 0;
    while j < v.len() && chars_lt(&chars_of(v[j].as_str()), &xc)
        invariant
            j <= v@.len(),
            views_of(v@) == s0,
            xc@ == x@,
            forall|k: int| 0 <= k < j ==> seq_lt(#[trigger] s0[k], x@),
        decreases v@.len() - j,
    {
        proof {
            assert(s0[j as int] == v@[j as int]@);
        }
        j += 1;
    }
    if j < v.len() && chars_eq(&chars_of(v[j].as_str()), &xc) {
        proof {
            assert(s0[j as int] == x@);
            assert(views_of(v@).to_set() =~= s0.to_set().insert(x@));
        }
        return;
    }
    proof {
        if j < v@.len() {
            assert(s0[j as int] == v@[j as int]@);
            assert(!seq_lt(s0[j as int], x@));
            assert(s0[j as int] != x@);
            lemma_seq_lt_total(s0[j as int], x@);
        }
        assert forall|k: int| j <= k < s0.len() implies seq_lt(x@, #[trigger] s0[k]) by {
            if k > j {
                lemma_seq_lt_transitive(x@, s0[j as int], s0[k]);
            }
        }
    }
    let ghost xv = x@;
    v.insert(j, x);
    proof {
        let s = views_of(v@);
        assert(s =~= s0.insert(j as int, xv));
        assert forall|a: int, b: int| 0 <= a < b < s.len() implies seq_lt(#[trigger] s[a], #[trigger] s[b]) by {
            if a < j && b == j {
            } else if a < j && b > j {
                assert(s[b] == s0[b - 1]);
                lemma_seq_lt_transitive(s0[a], xv, s0[b - 1]);
            } else if a == j {
                assert(s[b] == s0[b - 1]);
            } else if a > j {
                assert(s[a] == s0[a - 1]);
                assert(s[b] == s0[b - 1]);
            }
        }
        assert forall|y: Seq<char>| s.to_set().contains(y) == s0.to_set().insert(xv).contains(y) by {
            if s.to_set().contains(y) {
                let k = choose|k: int| 0 <= k < s.len() && s[k] == y;
                if k < j {
                    assert(s0[k] == y);
                } else if k > j {
                    assert(s0[k - 1] == y);
                }
            }
            if s0.to_set().contains(y) {
                let k = choose|k: int| 0 <= k < s0.len() && s0[k] == y;
                if k < j {
                    assert(s[k] == y);
                } else {
                    assert(s[k + 1] == y);
                }
            }
            if y == xv {
                assert(s[j as int] == xv);
            }
        }
        assert(s.to_set() =~= s0.to_set().insert(xv));
    }
}

/// The ordered set of the strings of `v`.
pub fn sort_dedup_strings(v: &Vec<String>) -> (out: Vec<String>)
    ensures
        strictly_sorted(views_of(out@)),
        views_of(out@).to_set() == views_of(v@).to_set(),
{
    let mut out: Vec<String> = Vec::new();
    let mut i: usize = 0;
    proof {
        assert(views_of(out@) =~= Seq::<Seq<char>>::empty());
        assert(views_of(v@.take(0)).to_set() =~= Set::<Seq<char>>::empty());
        assert(views_of(out@).to_set() =~= Set::<Seq<char>>::empty());
    }
    while i < v.len()
        invariant
            i <= v@.len(),
            strictly_sorted(views_of(out@)),
            views_of(out@).to_set() == views_of(v@.take(i as int)).to_set(),
        decreases v@.len() - i,
    {
        let x = string_from(v[i].as_str());
        let ghost before = views_of(out@).to_set();
        string_set_insert(&mut out, x);
        proof {
            let t = views_of(v@.take(i as int));
            assert(views_of(v@.take(i + 1)) =~= t.push(v@[i as int]@));
            assert forall|y: Seq<char>| t.push(v@[i as int]@).to_set().contains(y) == t.to_set().insert(v@[i as int]@).contains(y) by {
                if t.push(v@[i as int]@).to_set().contains(y) {
                    let k = choose|k: int| 0 <= k < t.len() + 1 && t.push(v@[i as int]@)[k] == y;
                    if k < t.len() {
                        assert(t[k] == y);
                    }
                }
                if t.to_set().contains(y) {
                    let k = choose|k: int| 0 <= k < t.len() && t[k] == y;
                    assert(t.push(v@[i as int]@)[k] == y);
                }
                if y == v@[i as int]@ {
                    assert(t.push(v@[i as int]@)[t.len() as int] == y);
                }
            }
            assert(views_of(v@.take(i + 1)).to_set() =~= t.to_set().insert(v@[i as int]@));
        }
        i += 1;
    }
    proof {
        assert(v@.take(i as int) =~= v@);
    }
    out
}

} // verus!

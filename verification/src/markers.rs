//! Marker canonicalization, keyword tokenization and the marker dictionary.
use vstd::prelude::*;
use crate::errors::MgeError;
use crate::models::{
    MemoryKind, MemoryStatus, TrustLevel, SensitivityLevel, MemoryValue, JsonValue,
    memory_kind_name, memory_status_name, trust_level_name, sensitivity_level_name,
};
use crate::ingestion::{utf8_len, utf8_length};
use crate::text::{push_str, push_bool_str, push_signed_decimal, bool_text, signed_decimal};
use crate::text::{
    ascii_alnum, chars_eq, chars_of, extend_chars, is_ascii_alnum, lowercase_all, lowercase_chars,
    push_chars, string_from, string_from_chars, trim_chars, trim_seq, trim_ws, TrimKind,
};
use crate::text::{
    ascii_lower, is_ascii_char, is_ascii_digit, is_ascii_lower, lemma_lowercase_ascii, piece_at,
    lemma_lowers_cleanly, lemma_piece_lowers_cleanly, lowers_cleanly, lemma_trim_identity,
    lemma_trim_piece,
};

verus! {

// ---------------------------------------------------------------------------
// Canonical marker values
// ---------------------------------------------------------------------------

/// Every maximal run of characters that are not ASCII alphanumeric becomes a
/// single `_`; ASCII alphanumeric characters are kept.
pub open spec fn collapse_separators(s: Seq<char>) -> Seq<char>
    decreases s.len(),
{
    if s.len() == 0 {
        Seq::empty()
    } else {
        let p = collapse_separators(s.drop_last());
        let c = s.last();
        if is_ascii_alnum(c) {
            p.push(c)
        } else if p.len() > 0 && p.last() == '_' {
            p
        } else {
            p.push('_')
        }
    }
}

/// The canonical form of a marker value: trimmed of whitespace, lowercased,
/// separator runs collapsed to `_`, and `_` stripped from both ends.
pub open spec fn canonical_value(raw: Seq<char>) -> Seq<char> {
    trim_seq(collapse_separators(lowercase_all(trim_ws(raw))), TrimKind::Underscore)
}

/// A character of a canonical value: ASCII lowercase letter, digit or `_`.
pub open spec fn canonical_char(c: char) -> bool {
    is_ascii_lower(c) || is_ascii_digit(c) || c == '_'
}

/// Canonical text: canonical characters only, no `__`, and no `_` at
/// either end.
pub open spec fn canonical_text(r: Seq<char>) -> bool {
    &&& forall|i: int| 0 <= i < r.len() ==> canonical_char(#[trigger] r[i])
    &&& forall|i: int| 0 <= i < r.len() - 1 ==> (#[trigger] r[i] == '_' ==> r[i + 1] != '_')
    &&& (r.len() > 0 ==> r[0] != '_' && r[r.len() - 1] != '_')
}

proof fn lemma_collapse_shape(s: Seq<char>)
    ensures
        forall|i: int| 0 <= i < collapse_separators(s).len() ==> (#[trigger] collapse_separators(s)[i] == '_'
            || (is_ascii_alnum(collapse_separators(s)[i]) && s.contains(collapse_separators(s)[i]))),
        forall|i: int| 0 <= i < collapse_separators(s).len() - 1 ==> (#[trigger] collapse_separators(s)[i]
            == '_' ==> collapse_separators(s)[i + 1] != '_'),
    decreases s.len(),
{
    if s.len() > 0 {
        let d = s.drop_last();
        lemma_collapse_shape(d);
        let p = collapse_separators(d);
        let r = collapse_separators(s);
        assert forall|i: int| 0 <= i < r.len() implies (#[trigger] r[i] == '_' || (is_ascii_alnum(r[i])
            && s.contains(r[i]))) by {
            if i < p.len() {
                assert(r[i] == p[i]);
                if r[i] != '_' {
                    let j = choose|j: int| 0 <= j < d.len() && d[j] == p[i];
                    assert(s[j] == d[j]);
                }
            } else {
                assert(r[i] == s.last() || r[i] == '_');
                if r[i] != '_' {
                    assert(s[s.len() - 1] == r[i]);
                }
            }
        }
        assert forall|i: int| 0 <= i < r.len() - 1 implies (#[trigger] r[i] == '_' ==> r[i + 1] != '_') by {
            if i + 1 < p.len() {
                assert(r[i] == p[i] && r[i + 1] == p[i + 1]);
            } else {
                assert(r[i] == p[i]);
            }
        }
    }
}

proof fn lemma_collapse_identity(r: Seq<char>)
    requires
        forall|i: int| 0 <= i < r.len() ==> canonical_char(#[trigger] r[i]),
        forall|i: int| 0 <= i < r.len() - 1 ==> (#[trigger] r[i] == '_' ==> r[i + 1] != '_'),
    ensures
        collapse_separators(r) == r,
    decreases r.len(),
{
    if r.len() > 0 {
        let d = r.drop_last();
        assert forall|i: int| 0 <= i < d.len() - 1 implies (#[trigger] d[i] == '_' ==> d[i + 1] != '_') by {
            assert(d[i] == r[i] && d[i + 1] == r[i + 1]);
        }
        lemma_collapse_identity(d);
        assert(canonical_char(r[r.len() - 1]));
        if r.len() >= 2 {
            assert(r[r.len() - 2] == '_' ==> r[r.len() - 1] != '_');
        }
        assert(d.push(r.last()) =~= r);
    }
}

/// The canonical value of text whose trimmed part lowers cleanly (every
/// text does: see `canonicalize_marker_value`) is canonical text: ASCII
/// lowercase letters, digits and single `_` between them.
pub proof fn law_canonical_value_is_canonical(raw: Seq<char>)
    requires
        lowers_cleanly(trim_ws(raw)),
    ensures
        canonical_text(canonical_value(raw)),
{
    let t = trim_ws(raw);
    lemma_lowers_cleanly(t);
    let l = lowercase_all(t);
    let c = collapse_separators(l);
    lemma_collapse_shape(l);
    assert forall|i: int| 0 <= i < c.len() implies canonical_char(#[trigger] c[i]) by {
        if c[i] != '_' {
            let j = choose|j: int| 0 <= j < l.len() && l[j] == c[i];
            assert(!crate::text::is_ascii_upper(l[j]));
        }
    }
    let r = trim_seq(c, TrimKind::Underscore);
    lemma_trim_piece(c, TrimKind::Underscore);
    let b = choose|b: int| #[trigger] piece_at(r, c, b);
    assert forall|i: int| 0 <= i < r.len() implies canonical_char(#[trigger] r[i]) by {
        assert(r[i] == c[b + i]);
    }
    assert forall|i: int| 0 <= i < r.len() - 1 implies (#[trigger] r[i] == '_' ==> r[i + 1] != '_') by {
        assert(r[i] == c[b + i]);
        assert(r[i + 1] == c[b + i + 1]);
    }
}

/// Canonicalizing a canonical value again changes nothing.
pub proof fn law_canonical_value_idempotent(raw: Seq<char>)
    requires
        lowers_cleanly(trim_ws(raw)),
    ensures
        canonical_value(canonical_value(raw)) == canonical_value(raw),
{
    law_canonical_value_is_canonical(raw);
    lemma_canonical_text_fixed(canonical_value(raw));
}

/// Canonical text is its own canonical value.
proof fn lemma_canonical_text_fixed(r: Seq<char>)
    requires
        canonical_text(r),
    ensures
        canonical_value(r) == r,
{
    assert forall|i: int| 0 <= i < r.len() implies is_ascii_char(#[trigger] r[i]) && !crate::text::is_unicode_whitespace(r[i]) by {
        assert(canonical_char(r[i]));
    }
    lemma_trim_identity(r, TrimKind::Whitespace);
    lemma_lowercase_ascii(r);
    assert(r.map_values(|c: char| ascii_lower(c)) =~= r);
    lemma_collapse_identity(r);
    lemma_trim_identity(r, TrimKind::Underscore);
}

fn collapse_chars(v: &Vec<char>) -> (out: Vec<char>)
    ensures
        out@ == collapse_separators(v@),
{
    let mut out: Vec<char> = Vec::new();
    let mut previous_was_separator = false;
    let mut i: usize = 0;
    while i < v.len()
        invariant
            i <= v.len(),
            out@ == collapse_separators(v@.take(i as int)),
            previous_was_separator == (out@.len() > 0 && out@.last() == '_'),
        decreases v.len() - i,
    {
        let ch = v[i];
        proof {
            assert(v@.take(i + 1).drop_last() == v@.take(i as int));
            assert(v@.take(i + 1).last() == ch);
        }
        if ascii_alnum(ch) {
            out.push(ch);
            previous_was_separator = false;
        } else if !previous_was_separator {
            out.push('_');
            previous_was_separator = true;
        }
        i += 1;
    }
    proof {
        assert(v@.take(i as int) == v@);
    }
    out
}

pub fn canonical_value_chars(raw: &Vec<char>) -> (out: Vec<char>)
    ensures
        out@ == canonical_value(raw@),
        canonical_text(out@),
{
    let trimmed = trim_chars(raw, TrimKind::Whitespace);
    let lowered = lowercase_chars(&trimmed);
    proof {
        law_canonical_value_is_canonical(raw@);
    }
    let collapsed = collapse_chars(&lowered);
    trim_chars(&collapsed, TrimKind::Underscore)
}

/// Canonical form of a marker value, e.g. `" Rust APIs / Policies!! "` becomes
/// `"rust_apis_policies"`.
pub fn canonicalize_marker_value(raw: &str) -> (out: String)
    ensures
        out@ == canonical_value(raw@),
        canonical_text(out@),
        canonical_value(out@) == out@,
{
    let chars = chars_of(raw);
    let v = canonical_value_chars(&chars);
    proof {
        lemma_canonical_text_fixed(v@);
    }
    string_from_chars(&v)
}

// ---------------------------------------------------------------------------
// Canonical markers (`category:value`)
// ---------------------------------------------------------------------------

/// Index of the first `c` in `s` at or after `i`, or `s.len()` when there is none.
pub open spec fn first_index_from(s: Seq<char>, c: char, i: int) -> int
    decreases s.len() - i,
{
    if i < 0 || i >= s.len() {
        s.len() as int
    } else if s[i] == c {
        i
    } else {
        first_index_from(s, c, i + 1)
    }
}

pub open spec fn first_index(s: Seq<char>, c: char) -> int {
    first_index_from(s, c, 0)
}

pub open spec fn tag_category() -> Seq<char> {
    seq!['t', 'a', 'g']
}

/// The canonical `category:value` form of a raw marker, or `None` when the
/// marker is empty or either part canonicalizes to nothing. A marker without
/// `:` is a `tag`; the first `:` separates category from value.
pub open spec fn canonical_marker(raw: Seq<char>) -> Option<Seq<char>> {
    let t = trim_ws(raw);
    if t.len() == 0 {
        None
    } else {
        let i = first_index(t, ':');
        let category = if i < t.len() {
            canonical_value(t.take(i))
        } else {
            tag_category()
        };
        let value = if i < t.len() {
            canonical_value(t.skip(i + 1))
        } else {
            canonical_value(t)
        };
        if category.len() == 0 || value.len() == 0 {
            None
        } else {
            Some(category + seq![':'] + value)
        }
    }
}

proof fn lemma_first_index_bounds(s: Seq<char>, c: char, i: int)
    requires
        0 <= i <= s.len(),
    ensures
        i <= first_index_from(s, c, i) <= s.len(),
        first_index_from(s, c, i) < s.len() ==> s[first_index_from(s, c, i)] == c,
    decreases s.len() - i,
{
    if i < s.len() && s[i] != c {
        lemma_first_index_bounds(s, c, i + 1);
    }
}

fn subrange_chars(v: &Vec<char>, a: usize, b: usize) -> (out: Vec<char>)
    requires
        a <= b <= v.len(),
    ensures
        out@ == v@.subrange(a as int, b as int),
{
    let mut out: Vec<char> = Vec::new();
    let mut i = a;
    while i < b
        invariant
            a <= i <= b,
            b <= v.len(),
            out@ == v@.subrange(a as int, i as int),
        decreases b - i,
    {
        out.push(v[i]);
        proof {
            assert(v@.subrange(a as int, i + 1) == v@.subrange(a as int, i as int).push(
                v@[i as int],
            ));
        }
        i += 1;
    }
    out
}

/// Canonical marker as characters, or `None` when the marker is invalid.
pub fn canonical_marker_chars(raw: &Vec<char>) -> (out: Option<Vec<char>>)
    ensures
        match out {
            Some(v) => canonical_marker(raw@) == Some(v@) && canonical_marker(v@) == Some(v@),
            None => canonical_marker(raw@) is None,
        },
{
    let t = trim_chars(raw, TrimKind::Whitespace);
    if t.len() == 0 {
        return None;
    }
    let mut i: usize = 0;
    while i < t.len() && t[i] != ':'
        invariant
            i <= t.len(),
            first_index(t@, ':') == first_index_from(t@, ':', i as int),
        decreases t.len() - i,
    {
        i += 1;
    }
    proof {
        assert(first_index(t@, ':') == i);
    }
    let (category, value) = if i < t.len() {
        let before = subrange_chars(&t, 0, i);
        let after = subrange_chars(&t, i + 1, t.len());
        proof {
            assert(before@ == t@.take(i as int));
            assert(after@ == t@.skip(i + 1));
        }
        (canonical_value_chars(&before), canonical_value_chars(&after))
    } else {
        let mut tag: Vec<char> = Vec::new();
        tag.push('t');
        tag.push('a');
        tag.push('g');
        proof {
            assert(tag@ == tag_category());
        }
        (tag, canonical_value_chars(&t))
    };
    if category.len() == 0 || value.len() == 0 {
        return None;
    }
    proof {
        assert(canonical_text(tag_category()));
        lemma_marker_of_canonical_parts(category@, value@);
    }
    let mut out = category;
    out.push(':');
    extend_chars(&mut out, &value);
    proof {
        assert(out@ =~= category@ + seq![':'] + value@);
    }
    Some(out)
}

/// Canonical `category:value` marker, e.g. `"Kind: User Preference"` becomes
/// `"kind:user_preference"` and `"answer style"` becomes `"tag:answer_style"`.
/// Fails with `InvalidMarker` carrying the raw input when the marker is empty or
/// a part of it canonicalizes to nothing.
pub fn canonicalize_marker(raw: &str) -> (r: Result<String, MgeError>)
    ensures
        canonical_marker(raw@) is None <==> r is Err,
        r matches Ok(s) ==> canonical_marker(raw@) == Some(s@) && canonical_marker(s@) == Some(s@),
        r matches Err(e) ==> (e matches MgeError::InvalidMarker(m) && m@ == raw@),
{
    let chars = chars_of(raw);
    match canonical_marker_chars(&chars) {
        Some(v) => Ok(string_from_chars(&v)),
        None => Err(MgeError::InvalidMarker(string_from(raw))),
    }
}

// ---------------------------------------------------------------------------
// Keyword tokenization
// ---------------------------------------------------------------------------

/// `s` split at every character that is not ASCII alphanumeric (empty pieces kept).
pub open spec fn split_alnum(s: Seq<char>) -> Seq<Seq<char>>
    decreases s.len(),
{
    if s.len() == 0 {
        seq![Seq::empty()]
    } else {
        let p = split_alnum(s.drop_last());
        let c = s.last();
        if is_ascii_alnum(c) {
            p.update(p.len() - 1, p.last().push(c))
        } else {
            p.push(Seq::empty())
        }
    }
}

pub proof fn lemma_split_alnum_nonempty(s: Seq<char>)
    ensures
        split_alnum(s).len() >= 1,
    decreases s.len(),
{
    if s.len() > 0 {
        lemma_split_alnum_nonempty(s.drop_last());
    }
}

/// The fixed stopword list of keyword tokenization.
pub open spec fn is_stopword(w: Seq<char>) -> bool {
    w == "a"@ || w == "an"@ || w == "and"@ || w == "are"@ || w == "as"@ || w == "at"@ || w
        == "be"@ || w == "by"@ || w == "can"@ || w == "do"@ || w == "for"@ || w == "from"@ || w
        == "has"@ || w == "have"@ || w == "how"@ || w == "i"@ || w == "in"@ || w == "is"@ || w
        == "it"@ || w == "of"@ || w == "on"@ || w == "or"@ || w == "should"@ || w == "that"@
        || w == "the"@ || w == "this"@ || w == "to"@ || w == "was"@ || w == "what"@ || w
        == "when"@ || w == "where"@ || w == "which"@ || w == "who"@ || w == "why"@ || w
        == "with"@ || w == "you"@ || w == "your"@
}

fn stopword(w: &Vec<char>) -> (b: bool)
    ensures
        b == is_stopword(w@),
{
    let words: [&str; 37] = [
        "a",
        "an",
        "and",
        "are",
        "as",
        "at",
        "be",
        "by",
        "can",
        "do",
        "for",
        "from",
        "has",
        "have",
        "how",
        "i",
        "in",
        "is",
        "it",
        "of",
        "on",
        "or",
        "should",
        "that",
        "the",
        "this",
        "to",
        "was",
        "what",
        "when",
        "where",
        "which",
        "who",
        "why",
        "with",
        "you",
        "your",
    ];
    let ghost list = seq![
        "a"@,
        "an"@,
        "and"@,
        "are"@,
        "as"@,
        "at"@,
        "be"@,
        "by"@,
        "can"@,
        "do"@,
        "for"@,
        "from"@,
        "has"@,
        "have"@,
        "how"@,
        "i"@,
        "in"@,
        "is"@,
        "it"@,
        "of"@,
        "on"@,
        "or"@,
        "should"@,
        "that"@,
        "the"@,
        "this"@,
        "to"@,
        "was"@,
        "what"@,
        "when"@,
        "where"@,
        "which"@,
        "who"@,
        "why"@,
        "with"@,
        "you"@,
        "your"@,
    ];
    assert(forall|k: int| 0 <= k < 37 ==> words@[k]@ == #[trigger] list[k]);
    assert(is_stopword(w@) == list.contains(w@));
    let mut i: usize = 0;
    while i < 37
        invariant
            i <= 37,
            forall|k: int| 0 <= k < 37 ==> words@[k]@ == #[trigger] list[k],
            list.len() == 37,
            is_stopword(w@) == list.contains(w@),
            forall|k: int| 0 <= k < i ==> list[k] != w@,
        decreases 37 - i,
    {
        let candidate = chars_of(words[i]);
        if chars_eq(&candidate, w) {
            proof {
                assert(list[i as int] == w@);
                assert(list.contains(w@));
            }
            return true;
        }
        i += 1;
    }
    false
}

pub open spec fn ies_suffix() -> Seq<char> {
    seq!['i', 'e', 's']
}

pub open spec fn ends_with(s: Seq<char>, t: Seq<char>) -> bool {
    s.len() >= t.len() && s.skip(s.len() - t.len()) == t
}

/// English plural stripping: `...ies` (longer than 4) becomes `...y`, a single
/// trailing `s` (not `ss`, longer than 3) is dropped.
pub open spec fn singular(raw: Seq<char>) -> Seq<char> {
    if raw.len() > 4 && ends_with(raw, ies_suffix()) {
        raw.take(raw.len() - 3).push('y')
    } else if raw.len() > 3 && raw.last() == 's' && !(raw[raw.len() - 2] == 's') {
        raw.drop_last()
    } else {
        raw
    }
}

fn singularize(raw: &Vec<char>) -> (out: Vec<char>)
    ensures
        out@ == singular(raw@),
{
    let n = raw.len();
    if n > 4 && raw[n - 3] == 'i' && raw[n - 2] == 'e' && raw[n - 1] == 's' {
        proof {
            assert(raw@.skip(n - 3) =~= ies_suffix());
        }
        let mut out = subrange_chars(raw, 0, n - 3);
        out.push('y');
        return out;
    }
    proof {
        if n > 4 && ends_with(raw@, ies_suffix()) {
            assert(raw@.skip(n - 3)[0] == raw@[n - 3]);
            assert(raw@.skip(n - 3)[1] == raw@[n - 2]);
            assert(raw@.skip(n - 3)[2] == raw@[n - 1]);
        }
    }
    if n > 3 && raw[n - 1] == 's' && raw[n - 2] != 's' {
        let out = subrange_chars(raw, 0, n - 1);
        proof {
            assert(out@ =~= raw@.drop_last());
        }
        return out;
    }
    subrange_chars(raw, 0, n)
}

/// The keyword a raw token stands for, if it is kept.
pub open spec fn keyword_candidate(raw: Seq<char>) -> Option<Seq<char>> {
    if raw.len() < 2 || is_stopword(raw) {
        None
    } else {
        let t = singular(raw);
        if t.len() < 2 || is_stopword(t) {
            None
        } else {
            Some(t)
        }
    }
}

/// Keywords of the raw pieces, in first-occurrence order without duplicates.
pub open spec fn keywords_of_pieces(pieces: Seq<Seq<char>>) -> Seq<Seq<char>>
    decreases pieces.len(),
{
    if pieces.len() == 0 {
        Seq::empty()
    } else {
        let acc = keywords_of_pieces(pieces.drop_last());
        match keyword_candidate(pieces.last()) {
            Some(t) => if acc.contains(t) {
                acc
            } else {
                acc.push(t)
            },
            None => acc,
        }
    }
}

/// The keywords of a text: lowercased, split at non-alphanumeric characters,
/// short tokens and stopwords dropped, plurals singularized, duplicates removed.
pub open spec fn keywords(text: Seq<char>) -> Seq<Seq<char>> {
    keywords_of_pieces(split_alnum(lowercase_all(text)))
}

pub open spec fn char_vec_views(v: Seq<Vec<char>>) -> Seq<Seq<char>> {
    v.map_values(|x: Vec<char>| x@)
}

pub open spec fn string_views(v: Seq<String>) -> Seq<Seq<char>> {
    v.map_values(|x: String| x@)
}

fn contains_chars(list: &Vec<Vec<char>>, t: &Vec<char>) -> (b: bool)
    ensures
        b == char_vec_views(list@).contains(t@),
{
    let mut i: usize = 0;
    while i < list.len()
        invariant
            i <= list.len(),
            forall|k: int| 0 <= k < i ==> list@[k]@ != t@,
        decreases list.len() - i,
    {
        if chars_eq(&list[i], t) {
            proof {
                assert(char_vec_views(list@)[i as int] == t@);
            }
            return true;
        }
        i += 1;
    }
    proof {
        if char_vec_views(list@).contains(t@) {
            let k = choose|k: int|
                0 <= k < char_vec_views(list@).len() && char_vec_views(list@)[k] == t@;
            assert(list@[k]@ == t@);
        }
    }
    false
}

fn push_token(tokens: &mut Vec<Vec<char>>, raw: &Vec<char>)
    ensures
        char_vec_views(final(tokens)@) == match keyword_candidate(raw@) {
            Some(t) => if char_vec_views(old(tokens)@).contains(t) {
                char_vec_views(old(tokens)@)
            } else {
                char_vec_views(old(tokens)@).push(t)
            },
            None => char_vec_views(old(tokens)@),
        },
{
    if raw.len() < 2 || stopword(raw) {
        return ;
    }
    let token = singularize(raw);
    if token.len() < 2 || stopword(&token) {
        return ;
    }
    if !contains_chars(tokens, &token) {
        tokens.push(token);
        proof {
            assert(char_vec_views(tokens@) =~= char_vec_views(old(tokens)@).push(token@));
        }
    }
}

/// Keyword tokens of a character sequence.
pub fn keyword_tokens(text: &Vec<char>) -> (out: Vec<Vec<char>>)
    ensures
        char_vec_views(out@) == keywords(text@),
        lowers_cleanly(text@),
{
    let lowered = lowercase_chars(text);
    let mut tokens: Vec<Vec<char>> = Vec::new();
    let mut current: Vec<char> = Vec::new();
    let mut i: usize = 0;
    proof {
        assert(lowered@.take(0) =~= Seq::<char>::empty());
        assert(split_alnum(Seq::<char>::empty()).drop_last() =~= Seq::<Seq<char>>::empty());
        assert(char_vec_views(tokens@) =~= Seq::<Seq<char>>::empty());
    }
    while i < lowered.len()
        invariant
            i <= lowered.len(),
            split_alnum(lowered@.take(i as int)).len() >= 1,
            char_vec_views(tokens@) == keywords_of_pieces(
                split_alnum(lowered@.take(i as int)).drop_last(),
            ),
            current@ == split_alnum(lowered@.take(i as int)).last(),
        decreases lowered.len() - i,
    {
        let ch = lowered[i];
        let ghost prefix = lowered@.take(i as int);
        let ghost p = split_alnum(prefix);
        proof {
            assert(lowered@.take(i + 1).drop_last() == prefix);
            assert(lowered@.take(i + 1).last() == ch);
        }
        if ascii_alnum(ch) {
            current.push(ch);
            proof {
                let q = split_alnum(lowered@.take(i + 1));
                assert(q == p.update(p.len() - 1, p.last().push(ch)));
                assert(q.drop_last() =~= p.drop_last());
            }
        } else {
            push_token(&mut tokens, &current);
            current = Vec::new();
            proof {
                let q = split_alnum(lowered@.take(i + 1));
                assert(q == p.push(Seq::empty()));
                assert(q.drop_last() =~= p);
                assert(p.drop_last().push(p.last()) =~= p);
                assert(p.drop_last() == p.drop_last().push(p.last()).drop_last());
            }
        }
        proof {
            lemma_split_alnum_nonempty(lowered@.take(i + 1));
        }
        i += 1;
    }
    push_token(&mut tokens, &current);
    proof {
        assert(lowered@.take(i as int) == lowered@);
        let p = split_alnum(lowered@);
        assert(p.drop_last().push(p.last()) =~= p);
        assert(p.drop_last() == p.drop_last().push(p.last()).drop_last());
    }
    tokens
}

/// Keyword tokens of a text, e.g. `"Rust APIs, APIs and policies with Tests"`
/// gives `["rust", "api", "policy", "test"]`.
pub fn tokenize_keywords(text: &str) -> (out: Vec<String>)
    ensures
        string_views(out@) == keywords(text@),
        forall|k: int| 0 <= k < out@.len() ==> ascii_word(#[trigger] out@[k]@) && out@[k]@.len() >= 2,
{
    let chars = chars_of(text);
    let tokens = keyword_tokens(&chars);
    proof {
        lemma_keywords_of_clean(text@);
    }
    let mut out: Vec<String> = Vec::new();
    let mut i: usize = 0;
    while i < tokens.len()
        invariant
            i <= tokens.len(),
            out@.len() == i,
            forall|k: int| 0 <= k < i ==> #[trigger] out@[k]@ == tokens@[k]@,
        decreases tokens.len() - i,
    {
        out.push(string_from_chars(&tokens[i]));
        i += 1;
    }
    proof {
        assert(string_views(out@) =~= char_vec_views(tokens@));
        assert forall|k: int| 0 <= k < out@.len() implies ascii_word(#[trigger] out@[k]@) && out@[k]@.len() >= 2 by {
            assert(out@[k]@ == string_views(out@)[k]);
            assert(keywords(text@)[k] == char_vec_views(tokens@)[k]);
        }
    }
    out
}

/// Query marker strings: `tag:<keyword>` for every keyword of the query, in
/// keyword order.
pub fn extract_query_marker_strings(query: &str) -> (out: Vec<String>)
    ensures
        out@.len() == keywords(query@).len(),
        forall|k: int| 0 <= k < out@.len() ==> #[trigger] out@[k]@ == "tag:"@ + keywords(query@)[k],
        forall|k: int| 0 <= k < out@.len() ==> canonical_marker(#[trigger] out@[k]@) == Some(out@[k]@),
{
    let chars = chars_of(query);
    let tokens = keyword_tokens(&chars);
    proof {
        law_query_markers_are_canonical(query@);
    }
    let mut out: Vec<String> = Vec::new();
    let mut i: usize = 0;
    while i < tokens.len()
        invariant
            i <= tokens.len(),
            out@.len() == i,
            char_vec_views(tokens@) == keywords(query@),
            forall|k: int| 0 <= k < i ==> #[trigger] out@[k]@ == "tag:"@ + tokens@[k]@,
        decreases tokens.len() - i,
    {
        let mut s = string_from("tag:");
        push_chars(&mut s, &tokens[i]);
        out.push(s);
        i += 1;
    }
    proof {
        assert forall|k: int| 0 <= k < out@.len() implies #[trigger] out@[k]@ == "tag:"@ + keywords(query@)[k] by {
            assert(char_vec_views(tokens@)[k] == tokens@[k]@);
        }
    }
    out
}


// ---------------------------------------------------------------------------
// Markers of a memory cell's fields
// ---------------------------------------------------------------------------

/// `tag:<token>` for each token.
pub open spec fn tag_raws(tokens: Seq<Seq<char>>) -> Seq<Seq<char>> {
    tokens.map_values(|t: Seq<char>| "tag:"@ + t)
}

/// Tags of the keywords of `text`, as many as the budget allows, and the
/// budget left.
pub open spec fn budget_tags(text: Seq<char>, budget: nat) -> (Seq<Seq<char>>, nat) {
    let ks = keywords(text);
    let n = if budget < ks.len() {
        budget
    } else {
        ks.len()
    };
    (tag_raws(ks.take(n as int)), (budget - n) as nat)
}

/// The text a scalar JSON value contributes tags from: a string of at most
/// 64 bytes, a number, a boolean.
pub open spec fn json_scalar_text(v: JsonValue) -> Option<Seq<char>> {
    match v {
        JsonValue::Text(s) => if utf8_len(s@) <= 64 {
            Some(s@)
        } else {
            None
        },
        JsonValue::Number(t) => Some(t@),
        JsonValue::Bool(b) => Some(bool_text(b)),
        _ => None,
    }
}

/// Tags of the keys of the first `n` entries, each within the budget.
pub open spec fn key_tags(entries: Seq<(String, JsonValue)>, budget: nat, n: int) -> (Seq<Seq<char>>, nat)
    decreases n,
{
    if n <= 0 {
        (Seq::empty(), budget)
    } else {
        let (r, b) = key_tags(entries, budget, n - 1);
        let (t, b2) = budget_tags(entries[n - 1].0@, b);
        (r + t, b2)
    }
}

/// Tags of a value one level below the top: the keys of an object, or the
/// text of a scalar; nothing for arrays and nulls.
pub open spec fn nested_value_tags(v: JsonValue, budget: nat) -> (Seq<Seq<char>>, nat) {
    if budget == 0 {
        (Seq::empty(), budget)
    } else {
        match v {
            JsonValue::Object(entries) => key_tags(entries@, budget, entries@.len() as int),
            JsonValue::Array(_) => (Seq::empty(), budget),
            _ => match json_scalar_text(v) {
                Some(t) => budget_tags(t, budget),
                None => (Seq::empty(), budget),
            },
        }
    }
}

/// For the first `n` entries: tags of the key, then of the nested value.
pub open spec fn entry_tags(entries: Seq<(String, JsonValue)>, budget: nat, n: int) -> (Seq<Seq<char>>, nat)
    decreases n,
{
    if n <= 0 {
        (Seq::empty(), budget)
    } else {
        let (r, b) = entry_tags(entries, budget, n - 1);
        let (t, b2) = budget_tags(entries[n - 1].0@, b);
        let (u, b3) = nested_value_tags(entries[n - 1].1, b2);
        (r + t + u, b3)
    }
}

/// Tags of the first `n` items, each one level below the top.
pub open spec fn item_tags(items: Seq<JsonValue>, budget: nat, n: int) -> (Seq<Seq<char>>, nat)
    decreases n,
{
    if n <= 0 {
        (Seq::empty(), budget)
    } else {
        let (r, b) = item_tags(items, budget, n - 1);
        let (u, b2) = nested_value_tags(items[n - 1], b);
        (r + u, b2)
    }
}

/// The tags of a structured value, two levels deep and at most 16 in all:
/// object keys and, below them, the keys or scalar text of each value; for an
/// array, its first 8 items one level down; for a scalar, its text.
pub open spec fn structured_tags(v: JsonValue) -> Seq<Seq<char>> {
    let budget: nat = 16;
    match v {
        JsonValue::Object(entries) => entry_tags(entries@, budget, entries@.len() as int).0,
        JsonValue::Array(items) => item_tags(
            items@,
            budget,
            if items@.len() < 8 {
                items@.len() as int
            } else {
                8
            },
        ).0,
        _ => nested_value_tags(v, budget).0,
    }
}

/// The raw markers a value contributes.
pub open spec fn value_raws(v: MemoryValue) -> Seq<Seq<char>> {
    match v {
        MemoryValue::Symbol(s) => seq!["value:"@ + canonical_value(s@)] + tag_raws(keywords(s@)),
        MemoryValue::Reference(s) => seq!["value:"@ + canonical_value(s@)] + tag_raws(keywords(s@)),
        MemoryValue::Text(s) => {
            let ks = keywords(s@);
            (if utf8_len(s@) <= 64 && ks.len() <= 6 {
                seq!["value:"@ + canonical_value(s@)]
            } else {
                Seq::empty()
            }) + tag_raws(
                if ks.len() <= 16 {
                    ks
                } else {
                    ks.take(16)
                },
            )
        },
        MemoryValue::Number(t) => seq!["value:"@ + t@],
        MemoryValue::Boolean(b) => seq!["value:"@ + bool_text(b)],
        MemoryValue::Timestamp(t) => seq!["value:"@ + signed_decimal(t as int)],
        MemoryValue::Structured(j) => structured_tags(j),
    }
}

/// The raw markers of a cell's fields, in the order they are added: kind,
/// scope, status, trust, sensitivity, then the subject and its keywords,
/// then the value's markers, then the explicit markers.
pub open spec fn cell_field_raws(
    kind: MemoryKind,
    subject: Option<Seq<char>>,
    value: MemoryValue,
    scope: Seq<char>,
    status: MemoryStatus,
    trust: TrustLevel,
    sensitivity: SensitivityLevel,
    explicit: Seq<Seq<char>>,
) -> Seq<Seq<char>> {
    seq![
        "kind:"@ + memory_kind_name(kind),
        "scope:"@ + canonical_value(scope),
        "status:"@ + memory_status_name(status),
        "trust:"@ + trust_level_name(trust),
        "sensitivity:"@ + sensitivity_level_name(sensitivity),
    ] + match subject {
        Some(s) => seq!["subject:"@ + canonical_value(s)] + tag_raws(keywords(s)),
        None => Seq::empty(),
    } + value_raws(value) + explicit
}

/// The canonical markers of the first `n` raw markers, without repeats, in
/// first-occurrence order; the first raw marker that is not valid is the
/// error.
pub open spec fn canonical_set_of(raws: Seq<Seq<char>>, n: int) -> Result<Seq<Seq<char>>, Seq<char>>
    decreases n,
{
    if n <= 0 {
        Ok(Seq::empty())
    } else {
        match canonical_set_of(raws, n - 1) {
            Err(e) => Err(e),
            Ok(acc) => match canonical_marker(raws[n - 1]) {
                None => Err(raws[n - 1]),
                Some(c) => Ok(
                    if acc.contains(c) {
                        acc
                    } else {
                        acc.push(c)
                    },
                ),
            },
        }
    }
}

fn push_tags(raws: &mut Vec<String>, tokens: &Vec<String>, n: usize)
    requires
        n <= tokens.len(),
    ensures
        string_views(final(raws)@) == string_views(old(raws)@) + tag_raws(string_views(tokens@).take(n as int)),
{
    let mut i: usize = 0;
    while i < n
        invariant
            i <= n,
            n <= tokens.len(),
            string_views(raws@) == string_views(old(raws)@) + tag_raws(string_views(tokens@).take(i as int)),
        decreases n - i,
    {
        let mut t = string_from("tag:");
        push_str(&mut t, tokens[i].as_str());
        let ghost before = raws@;
        raws.push(t);
        proof {
            assert(string_views(raws@) =~= string_views(before).push(t@));
            assert(string_views(tokens@).take(i + 1) =~= string_views(tokens@).take(i as int).push(
                tokens@[i as int]@,
            ));
            assert(tag_raws(string_views(tokens@).take(i + 1)) =~= tag_raws(
                string_views(tokens@).take(i as int),
            ).push("tag:"@ + tokens@[i as int]@));
        }
        i += 1;
    }
}

fn push_budget_tags(raws: &mut Vec<String>, text: &str, budget: usize) -> (left: usize)
    requires
        budget <= 16,
    ensures
        string_views(final(raws)@) == string_views(old(raws)@) + budget_tags(text@, budget as nat).0,
        left as nat == budget_tags(text@, budget as nat).1,
        left <= budget,
{
    let tokens = tokenize_keywords(text);
    let n = if budget < tokens.len() {
        budget
    } else {
        tokens.len()
    };
    push_tags(raws, &tokens, n);
    budget - n
}

fn push_scalar_tags(raws: &mut Vec<String>, v: &JsonValue, budget: usize) -> (left: usize)
    requires
        budget <= 16,
        !(v is Object),
        !(v is Array),
    ensures
        match json_scalar_text(*v) {
            Some(t) => string_views(final(raws)@) == string_views(old(raws)@) + budget_tags(t, budget as nat).0
                && left as nat == budget_tags(t, budget as nat).1,
            None => string_views(final(raws)@) == string_views(old(raws)@) && left == budget,
        },
        left <= budget,
{
    match v {
        JsonValue::Text(s) => {
            if utf8_length(&chars_of(s.as_str())) <= 64 {
                push_budget_tags(raws, s.as_str(), budget)
            } else {
                budget
            }
        },
        JsonValue::Number(t) => push_budget_tags(raws, t.as_str(), budget),
        JsonValue::Bool(b) => {
            let mut t = String::new();
            push_bool_str(&mut t, *b);
            push_budget_tags(raws, t.as_str(), budget)
        },
        _ => budget,
    }
}

fn push_key_tags(raws: &mut Vec<String>, entries: &Vec<(String, JsonValue)>, budget: usize) -> (left: usize)
    requires
        budget <= 16,
    ensures
        string_views(final(raws)@) == string_views(old(raws)@) + key_tags(entries@, budget as nat, entries@.len() as int).0,
        left as nat == key_tags(entries@, budget as nat, entries@.len() as int).1,
        left <= budget,
{
    let mut b = budget;
    let mut i: usize = 0;
    proof {
        assert(string_views(raws@) =~= string_views(old(raws)@) + Seq::<Seq<char>>::empty());
    }
    while i < entries.len()
        invariant
            i <= entries@.len(),
            b <= budget <= 16,
            string_views(raws@) == string_views(old(raws)@) + key_tags(entries@, budget as nat, i as int).0,
            b as nat == key_tags(entries@, budget as nat, i as int).1,
        decreases entries@.len() - i,
    {
        b = push_budget_tags(raws, entries[i].0.as_str(), b);
        proof {
            assert(string_views(raws@) =~= string_views(old(raws)@) + key_tags(entries@, budget as nat, i + 1).0);
        }
        i += 1;
    }
    b
}

fn push_nested_tags(raws: &mut Vec<String>, v: &JsonValue, budget: usize) -> (left: usize)
    requires
        budget <= 16,
    ensures
        string_views(final(raws)@) == string_views(old(raws)@) + nested_value_tags(*v, budget as nat).0,
        left as nat == nested_value_tags(*v, budget as nat).1,
        left <= budget,
{
    if budget == 0 {
        proof {
            assert(string_views(raws@) =~= string_views(old(raws)@) + Seq::<Seq<char>>::empty());
        }
        return budget;
    }
    match v {
        JsonValue::Object(entries) => push_key_tags(raws, entries, budget),
        JsonValue::Array(_) => {
            proof {
                assert(string_views(raws@) =~= string_views(old(raws)@) + Seq::<Seq<char>>::empty());
            }
            budget
        },
        _ => {
            let left = push_scalar_tags(raws, v, budget);
            proof {
                if json_scalar_text(*v) is None {
                    assert(string_views(raws@) =~= string_views(old(raws)@) + Seq::<Seq<char>>::empty());
                }
            }
            left
        },
    }
}

fn push_structured_tags(raws: &mut Vec<String>, v: &JsonValue)
    ensures
        string_views(final(raws)@) == string_views(old(raws)@) + structured_tags(*v),
{
    let budget: usize = 16;
    match v {
        JsonValue::Object(entries) => {
            let mut b = budget;
            let mut i: usize = 0;
            proof {
                assert(string_views(raws@) =~= string_views(old(raws)@) + Seq::<Seq<char>>::empty());
            }
            while i < entries.len()
                invariant
                    i <= entries@.len(),
                    b <= 16,
                    string_views(raws@) == string_views(old(raws)@) + entry_tags(entries@, 16, i as int).0,
                    b as nat == entry_tags(entries@, 16, i as int).1,
                decreases entries@.len() - i,
            {
                b = push_budget_tags(raws, entries[i].0.as_str(), b);
                b = push_nested_tags(raws, &entries[i].1, b);
                proof {
                    assert(string_views(raws@) =~= string_views(old(raws)@) + entry_tags(entries@, 16, i + 1).0);
                }
                i += 1;
            }
        },
        JsonValue::Array(items) => {
            let n = if items.len() < 8 {
                items.len()
            } else {
                8
            };
            let mut b = budget;
            let mut i: usize = 0;
            proof {
                assert(string_views(raws@) =~= string_views(old(raws)@) + Seq::<Seq<char>>::empty());
            }
            while i < n
                invariant
                    i <= n,
                    n <= items@.len(),
                    b <= 16,
                    string_views(raws@) == string_views(old(raws)@) + item_tags(items@, 16, i as int).0,
                    b as nat == item_tags(items@, 16, i as int).1,
                decreases n - i,
            {
                b = push_nested_tags(raws, &items[i], b);
                proof {
                    assert(string_views(raws@) =~= string_views(old(raws)@) + item_tags(items@, 16, i + 1).0);
                }
                i += 1;
            }
        },
        _ => {
            push_nested_tags(raws, v, budget);
        },
    }
}

fn push_raw(raws: &mut Vec<String>, s: String)
    ensures
        string_views(final(raws)@) == string_views(old(raws)@).push(s@),
{
    raws.push(s);
    proof {
        assert(string_views(raws@) =~= string_views(old(raws)@).push(s@));
    }
}

fn prefixed(prefix: &str, text: &str) -> (s: String)
    ensures
        s@ == prefix@ + text@,
{
    let mut s = string_from(prefix);
    push_str(&mut s, text);
    s
}

fn prefixed_canonical(prefix: &str, text: &str) -> (s: String)
    ensures
        s@ == prefix@ + canonical_value(text@),
{
    let v = canonicalize_marker_value(text);
    prefixed(prefix, v.as_str())
}

fn push_value_raws(raws: &mut Vec<String>, value: &MemoryValue)
    ensures
        string_views(final(raws)@) == string_views(old(raws)@) + value_raws(*value),
{
    let ghost r0 = string_views(raws@);
    match value {
        MemoryValue::Symbol(v) | MemoryValue::Reference(v) => {
            push_raw(raws, prefixed_canonical("value:", v.as_str()));
            let tokens = tokenize_keywords(v.as_str());
            push_tags(raws, &tokens, tokens.len());
            proof {
                assert(string_views(tokens@).take(tokens@.len() as int) =~= string_views(tokens@));
                assert(string_views(raws@) =~= r0 + value_raws(*value));
            }
        },
        MemoryValue::Text(v) => {
            let tokens = tokenize_keywords(v.as_str());
            if utf8_length(&chars_of(v.as_str())) <= 64 && tokens.len() <= 6 {
                push_raw(raws, prefixed_canonical("value:", v.as_str()));
            }
            let n = if tokens.len() <= 16 {
                tokens.len()
            } else {
                16
            };
            push_tags(raws, &tokens, n);
            proof {
                assert(string_views(tokens@).take(tokens@.len() as int) =~= string_views(tokens@));
                assert(string_views(raws@) =~= r0 + value_raws(*value));
            }
        },
        MemoryValue::Number(t) => {
            push_raw(raws, prefixed("value:", t.as_str()));
            proof {
                assert(string_views(raws@) =~= r0 + value_raws(*value));
            }
        },
        MemoryValue::Boolean(b) => {
            let mut s = string_from("value:");
            push_bool_str(&mut s, *b);
            push_raw(raws, s);
            proof {
                assert(string_views(raws@) =~= r0 + value_raws(*value));
            }
        },
        MemoryValue::Timestamp(t) => {
            let mut v: Vec<char> = Vec::new();
            push_signed_decimal(&mut v, *t);
            let mut s = string_from("value:");
            push_chars(&mut s, &v);
            push_raw(raws, s);
            proof {
                assert(string_views(raws@) =~= r0 + value_raws(*value));
            }
        },
        MemoryValue::Structured(j) => {
            push_structured_tags(raws, j);
        },
    }
}

pub open spec fn opt_str_view(o: Option<&str>) -> Option<Seq<char>> {
    match o {
        Some(s) => Some(s@),
        None => None,
    }
}

/// The canonical markers of a list of raw markers, without repeats.
fn canonical_markers_of(raws: &Vec<String>) -> (r: Result<Vec<String>, MgeError>)
    ensures
        match canonical_set_of(string_views(raws@), raws@.len() as int) {
            Ok(v) => r matches Ok(out) && string_views(out@) == v,
            Err(e) => r matches Err(MgeError::InvalidMarker(m)) && m@ == e,
        },
{
    let ghost rv = string_views(raws@);
    let mut out: Vec<String> = Vec::new();
    let mut i: usize = 0;
    proof {
        assert(string_views(out@) =~= Seq::<Seq<char>>::empty());
    }
    while i < raws.len()
        invariant
            i <= raws@.len(),
            rv == string_views(raws@),
            canonical_set_of(rv, i as int) == Ok::<Seq<Seq<char>>, Seq<char>>(string_views(out@)),
        decreases raws@.len() - i,
    {
        proof {
            assert(rv[i as int] == raws@[i as int]@);
        }
        match canonicalize_marker(raws[i].as_str()) {
            Err(e) => {
                proof {
                    lemma_canonical_set_err_stays(rv, i + 1, rv.len() as int);
                }
                return Err(e);
            },
            Ok(c) => {
                if !contains_string_view(&out, c.as_str()) {
                    let ghost before = out@;
                    out.push(c);
                    proof {
                        assert(string_views(out@) =~= string_views(before).push(c@));
                    }
                }
            },
        }
        i += 1;
    }
    Ok(out)
}

proof fn lemma_canonical_set_err_stays(raws: Seq<Seq<char>>, m: int, n: int)
    requires
        0 <= m <= n,
    ensures
        canonical_set_of(raws, m) is Err ==> canonical_set_of(raws, n) == canonical_set_of(raws, m),
    decreases n - m,
{
    if m < n {
        lemma_canonical_set_err_stays(raws, m, n - 1);
    }
}

fn contains_string_view(v: &Vec<String>, s: &str) -> (b: bool)
    ensures
        b == string_views(v@).contains(s@),
{
    let t = chars_of(s);
    let mut i: usize = 0;
    while i < v.len()
        invariant
            i <= v.len(),
            t@ == s@,
            forall|k: int| 0 <= k < i ==> v@[k]@ != s@,
        decreases v.len() - i,
    {
        if chars_eq(&chars_of(v[i].as_str()), &t) {
            proof {
                assert(string_views(v@)[i as int] == s@);
            }
            return true;
        }
        i += 1;
    }
    proof {
        if string_views(v@).contains(s@) {
            let k = choose|k: int| 0 <= k < string_views(v@).len() && string_views(v@)[k] == s@;
            assert(v@[k]@ == s@);
        }
    }
    false
}

/// The canonical markers of a cell's fields, without repeats, in the order
/// they are derived: kind, scope, status, trust and sensitivity; the subject
/// and its keywords as tags; the value (symbols and references with their
/// keywords; short texts with few keywords as a value, and up to 16 keyword
/// tags; numbers, booleans and timestamps as values; structured values as
/// bounded tags of their keys and scalars); then the explicit markers. The
/// first raw marker that does not canonicalize is an `InvalidMarker` error.
pub fn marker_strings_for_cell_fields(
    kind: &MemoryKind,
    subject: Option<&str>,
    value: &MemoryValue,
    scope: &str,
    status: &MemoryStatus,
    trust: &TrustLevel,
    sensitivity: &SensitivityLevel,
    explicit_markers: &[String],
) -> (r: Result<Vec<String>, MgeError>)
    ensures
        ({
            let raws = cell_field_raws(
                *kind,
                opt_str_view(subject),
                *value,
                scope@,
                *status,
                *trust,
                *sensitivity,
                string_views(explicit_markers@),
            );
            match canonical_set_of(raws, raws.len() as int) {
                Ok(v) => r matches Ok(out) && string_views(out@) == v,
                Err(e) => r matches Err(MgeError::InvalidMarker(m)) && m@ == e,
            }
        }),
{
    let mut raws: Vec<String> = Vec::new();
    push_raw(&mut raws, prefixed("kind:", kind.as_str()));
    push_raw(&mut raws, prefixed_canonical("scope:", scope));
    push_raw(&mut raws, prefixed("status:", status.as_str()));
    push_raw(&mut raws, prefixed("trust:", trust.as_str()));
    push_raw(&mut raws, prefixed("sensitivity:", sensitivity.as_str()));
    let ghost base = string_views(raws@);
    match subject {
        Some(s) => {
            push_raw(&mut raws, prefixed_canonical("subject:", s));
            let tokens = tokenize_keywords(s);
            push_tags(&mut raws, &tokens, tokens.len());
            proof {
                assert(string_views(tokens@).take(tokens@.len() as int) =~= string_views(tokens@));
            }
        },
        None => {},
    }
    let ghost with_subject = string_views(raws@);
    push_value_raws(&mut raws, value);
    let ghost with_value = string_views(raws@);
    let mut i: usize = 0;
    while i < explicit_markers.len()
        invariant
            i <= explicit_markers@.len(),
            string_views(raws@) == with_value + string_views(explicit_markers@).take(i as int),
        decreases explicit_markers@.len() - i,
    {
        push_raw(&mut raws, string_from(explicit_markers[i].as_str()));
        proof {
            assert(string_views(explicit_markers@).take(i + 1) =~= string_views(explicit_markers@).take(
                i as int,
            ).push(explicit_markers@[i as int]@));
        }
        i += 1;
    }
    proof {
        assert(string_views(explicit_markers@).take(i as int) =~= string_views(explicit_markers@));
        let raws_spec = cell_field_raws(
            *kind,
            opt_str_view(subject),
            *value,
            scope@,
            *status,
            *trust,
            *sensitivity,
            string_views(explicit_markers@),
        );
        assert(string_views(raws@) =~= raws_spec);
    }
    canonical_markers_of(&raws)
}


/// A keyword-shaped word: ASCII lowercase letters and digits only.
pub open spec fn ascii_word(t: Seq<char>) -> bool {
    forall|i: int| 0 <= i < t.len() ==> is_ascii_lower(#[trigger] t[i]) || is_ascii_digit(t[i])
}

proof fn lemma_split_words(s: Seq<char>)
    requires
        forall|i: int| 0 <= i < s.len() ==> !crate::text::is_ascii_upper(#[trigger] s[i]),
    ensures
        forall|k: int| 0 <= k < split_alnum(s).len() ==> ascii_word(#[trigger] split_alnum(s)[k]),
    decreases s.len(),
{
    lemma_split_alnum_nonempty(s);
    if s.len() > 0 {
        let d = s.drop_last();
        assert forall|i: int| 0 <= i < d.len() implies !crate::text::is_ascii_upper(#[trigger] d[i]) by {
            assert(d[i] == s[i]);
        }
        lemma_split_words(d);
        lemma_split_alnum_nonempty(d);
        let p = split_alnum(d);
        let c = s.last();
        assert(!crate::text::is_ascii_upper(s[s.len() - 1]));
        if is_ascii_alnum(c) {
            assert forall|k: int| 0 <= k < split_alnum(s).len() implies ascii_word(#[trigger] split_alnum(s)[k]) by {
                if k < p.len() - 1 {
                    assert(split_alnum(s)[k] == p[k]);
                } else {
                    assert(split_alnum(s)[k] == p.last().push(c));
                    assert(ascii_word(p[p.len() - 1]));
                }
            }
        } else {
            assert forall|k: int| 0 <= k < split_alnum(s).len() implies ascii_word(#[trigger] split_alnum(s)[k]) by {
                if k < p.len() {
                    assert(split_alnum(s)[k] == p[k]);
                } else {
                    assert(split_alnum(s)[k] =~= Seq::<char>::empty());
                }
            }
        }
    }
}

proof fn lemma_keywords_words(pieces: Seq<Seq<char>>)
    requires
        forall|k: int| 0 <= k < pieces.len() ==> ascii_word(#[trigger] pieces[k]),
    ensures
        forall|k: int| 0 <= k < keywords_of_pieces(pieces).len() ==> ascii_word(
            #[trigger] keywords_of_pieces(pieces)[k],
        ) && keywords_of_pieces(pieces)[k].len() >= 2,
    decreases pieces.len(),
{
    if pieces.len() > 0 {
        let d = pieces.drop_last();
        assert forall|k: int| 0 <= k < d.len() implies ascii_word(#[trigger] d[k]) by {
            assert(d[k] == pieces[k]);
        }
        lemma_keywords_words(d);
        let raw = pieces.last();
        assert(ascii_word(pieces[pieces.len() - 1]));
        let t = singular(raw);
        assert(ascii_word(t)) by {
            if raw.len() > 4 && ends_with(raw, ies_suffix()) {
                assert forall|i: int| 0 <= i < t.len() implies is_ascii_lower(#[trigger] t[i]) || is_ascii_digit(t[i]) by {
                    if i < raw.len() - 3 {
                        assert(t[i] == raw[i]);
                    }
                }
            } else if raw.len() > 3 && raw.last() == 's' && !(raw[raw.len() - 2] == 's') {
                assert forall|i: int| 0 <= i < t.len() implies is_ascii_lower(#[trigger] t[i]) || is_ascii_digit(t[i]) by {
                    assert(t[i] == raw[i]);
                }
            }
        }
        let acc = keywords_of_pieces(d);
        let out = keywords_of_pieces(pieces);
        assert forall|k: int| 0 <= k < out.len() implies ascii_word(#[trigger] out[k]) && out[k].len() >= 2 by {
            if k < acc.len() {
                assert(out[k] == acc[k]);
            } else {
                assert(keyword_candidate(raw) == Some(t));
                assert(out[k] == t);
            }
        }
    }
}

/// For a query that lowers cleanly (every query does: see
/// `extract_query_marker_strings`), every marker that recall extracts from it
/// is already canonical: canonicalizing `tag:<keyword>` gives it back.
pub proof fn law_query_markers_are_canonical(query: Seq<char>)
    requires
        lowers_cleanly(query),
    ensures
        forall|k: int| 0 <= k < keywords(query).len() ==> canonical_marker("tag:"@ + #[trigger] keywords(query)[k])
            == Some("tag:"@ + keywords(query)[k]),
{
    reveal_strlit("tag:");
    lemma_lowers_cleanly(query);
    let l = lowercase_all(query);
    lemma_split_words(l);
    lemma_keywords_words(split_alnum(l));
    assert forall|k: int| 0 <= k < keywords(query).len() implies canonical_marker("tag:"@ + #[trigger] keywords(query)[k])
        == Some("tag:"@ + keywords(query)[k]) by {
        let t = keywords(query)[k];
        assert(ascii_word(t) && t.len() >= 2);
        assert(canonical_text(tag_category()));
        assert(canonical_text(t)) by {
            assert forall|i: int| 0 <= i < t.len() implies canonical_char(#[trigger] t[i]) by {
                assert(is_ascii_lower(t[i]) || is_ascii_digit(t[i]));
            }
        }
        lemma_marker_of_canonical_parts(tag_category(), t);
        assert(tag_category() + seq![':'] + t =~= "tag:"@ + t);
    }
}

proof fn lemma_first_index_at(m: Seq<char>, c: char, j: int, p: int)
    requires
        0 <= j <= p < m.len(),
        m[p] == c,
        forall|q: int| j <= q < p ==> m[q] != c,
    ensures
        first_index_from(m, c, j) == p,
    decreases p - j,
{
    if j < p {
        lemma_first_index_at(m, c, j + 1, p);
    }
}

/// A category and a value that are canonical text make a marker that is its
/// own canonical form.
pub proof fn lemma_marker_of_canonical_parts(cat: Seq<char>, val: Seq<char>)
    requires
        canonical_text(cat),
        canonical_text(val),
        cat.len() > 0,
        val.len() > 0,
    ensures
        canonical_marker(cat + seq![':'] + val) == Some(cat + seq![':'] + val),
{
    let c = cat + seq![':'] + val;
    assert(c[0] == cat[0]);
    assert(canonical_char(cat[0]));
    assert(c[c.len() - 1] == val[val.len() - 1]);
    assert(canonical_char(val[val.len() - 1]));
    lemma_trim_identity(c, TrimKind::Whitespace);
    assert forall|q: int| 0 <= q < cat.len() implies c[q] != ':' by {
        assert(c[q] == cat[q]);
        assert(canonical_char(cat[q]));
    }
    lemma_first_index_at(c, ':', 0, cat.len() as int);
    assert(c.take(cat.len() as int) =~= cat);
    assert(c.skip(cat.len() as int + 1) =~= val);
    lemma_canonical_text_fixed(cat);
    lemma_canonical_text_fixed(val);
}

/// A canonical marker is its own canonical form (for a raw marker whose
/// trimmed text lowers cleanly, as every marker does: see
/// `canonicalize_marker`), so a raw marker and its canonical form name the
/// same dictionary entry.
pub proof fn law_canonical_marker_idempotent(raw: Seq<char>)
    requires
        lowers_cleanly(trim_ws(raw)),
        canonical_marker(raw) is Some,
    ensures
        canonical_marker(canonical_marker(raw)->0) == canonical_marker(raw),
{
    let t = trim_ws(raw);
    let i = first_index(t, ':');
    lemma_first_index_bounds(t, ':', 0);
    let (cat, val) = if i < t.len() {
        let before = t.take(i);
        let after = t.skip(i + 1);
        assert(piece_at(before, t, 0));
        assert(piece_at(after, t, i + 1));
        lemma_piece_lowers_cleanly(before, t, 0);
        lemma_piece_lowers_cleanly(after, t, i + 1);
        lemma_trim_piece(before, TrimKind::Whitespace);
        lemma_trim_piece(after, TrimKind::Whitespace);
        let pb = choose|a: int| #[trigger] piece_at(trim_ws(before), before, a);
        let pa = choose|a: int| #[trigger] piece_at(trim_ws(after), after, a);
        lemma_piece_lowers_cleanly(trim_ws(before), before, pb);
        lemma_piece_lowers_cleanly(trim_ws(after), after, pa);
        law_canonical_value_is_canonical(before);
        law_canonical_value_is_canonical(after);
        (canonical_value(before), canonical_value(after))
    } else {
        lemma_trim_piece(t, TrimKind::Whitespace);
        let pt = choose|a: int| #[trigger] piece_at(trim_ws(t), t, a);
        lemma_piece_lowers_cleanly(trim_ws(t), t, pt);
        law_canonical_value_is_canonical(t);
        assert(canonical_text(tag_category()));
        (tag_category(), canonical_value(t))
    };
    assert(canonical_marker(raw) == Some(cat + seq![':'] + val));
    lemma_marker_of_canonical_parts(cat, val);
}

/// The keywords of text that lowers cleanly are ASCII words of at least two
/// characters.
proof fn lemma_keywords_of_clean(text: Seq<char>)
    requires
        lowers_cleanly(text),
    ensures
        forall|k: int| 0 <= k < keywords(text).len() ==> ascii_word(#[trigger] keywords(text)[k])
            && keywords(text)[k].len() >= 2,
{
    lemma_lowers_cleanly(text);
    lemma_split_words(lowercase_all(text));
    lemma_keywords_words(split_alnum(lowercase_all(text)));
}

/// A Text value gives a tag for each of its first 16 keywords (all of them when
/// it has no more), in keyword order and no other tag, and every one of these
/// is among the raw markers of a cell holding the value.
pub proof fn law_text_value_tags(
    kind: MemoryKind,
    subject: Option<Seq<char>>,
    text: String,
    scope: Seq<char>,
    status: MemoryStatus,
    trust: TrustLevel,
    sensitivity: SensitivityLevel,
    explicit: Seq<Seq<char>>,
)
    ensures
        ({
            let ks = keywords(text@);
            let n = if ks.len() < 16 { ks.len() as int } else { 16int };
            let vr = value_raws(MemoryValue::Text(text));
            let head: int = vr.len() - n;
            &&& 0 <= head <= 1
            &&& forall|i: int| 0 <= i < n ==> vr[head + i] == "tag:"@ + #[trigger] ks[i]
            &&& forall|i: int| 0 <= i < n ==> cell_field_raws(
                kind,
                subject,
                MemoryValue::Text(text),
                scope,
                status,
                trust,
                sensitivity,
                explicit,
            ).contains("tag:"@ + #[trigger] ks[i])
        }),
{
    let ks = keywords(text@);
    let n = if ks.len() < 16 { ks.len() as int } else { 16int };
    let vr = value_raws(MemoryValue::Text(text));
    let tags = tag_raws(if ks.len() <= 16 { ks } else { ks.take(16) });
    assert(tags.len() == n);
    let head: int = vr.len() - n;
    let all = cell_field_raws(kind, subject, MemoryValue::Text(text), scope, status, trust, sensitivity, explicit);
    let pre = seq![
        "kind:"@ + memory_kind_name(kind),
        "scope:"@ + canonical_value(scope),
        "status:"@ + memory_status_name(status),
        "trust:"@ + trust_level_name(trust),
        "sensitivity:"@ + sensitivity_level_name(sensitivity),
    ] + match subject {
        Some(s) => seq!["subject:"@ + canonical_value(s)] + tag_raws(keywords(s)),
        None => Seq::empty(),
    };
    assert(all == pre + vr + explicit);
    assert forall|i: int| 0 <= i < n implies vr[head + i] == "tag:"@ + #[trigger] ks[i] && all.contains(
        "tag:"@ + ks[i],
    ) by {
        assert(vr[head + i] == tags[i]);
        assert(all[pre.len() + head + i] == vr[head + i]);
    }
}

/// A word ending in `ss` keeps its trailing `s`: only single plurals are
/// singularized.
pub proof fn law_double_s_is_not_plural(w: Seq<char>)
    requires
        w.len() > 3,
        w[w.len() - 1] == 's',
        w[w.len() - 2] == 's',
    ensures
        singular(w) == w,
{
    if w.len() > 4 && ends_with(w, ies_suffix()) {
        assert(w.skip(w.len() - 3)[1] == w[w.len() - 2]);
        assert(ies_suffix()[1] == 'e');
    }
}

proof fn lemma_split_one_word(w: Seq<char>)
    requires
        forall|i: int| 0 <= i < w.len() ==> is_ascii_alnum(#[trigger] w[i]),
    ensures
        split_alnum(w) == seq![w],
    decreases w.len(),
{
    if w.len() > 0 {
        let d = w.drop_last();
        assert forall|i: int| 0 <= i < d.len() implies is_ascii_alnum(#[trigger] d[i]) by {
            assert(d[i] == w[i]);
        }
        lemma_split_one_word(d);
        assert(is_ascii_alnum(w[w.len() - 1]));
        assert(d.push(w.last()) =~= w);
        assert(seq![d].update(0, d.push(w.last())) =~= seq![w]);
        let p = split_alnum(d);
        assert(p.len() - 1 == 0);
        assert(p.last() == d);
    } else {
        assert(split_alnum(w) == seq![Seq::<char>::empty()]);
        assert(w =~= Seq::<char>::empty());
    }
}

/// A lowercase word longer than three letters that ends in `ss` and is not a
/// stopword is its own keyword: tokenizing it gives exactly that word.
pub proof fn law_double_s_word_is_its_own_keyword(w: Seq<char>)
    requires
        w.len() > 3,
        forall|i: int| 0 <= i < w.len() ==> is_ascii_lower(#[trigger] w[i]),
        w[w.len() - 1] == 's',
        w[w.len() - 2] == 's',
        !is_stopword(w),
    ensures
        keywords(w) == seq![w],
{
    assert forall|i: int| 0 <= i < w.len() implies is_ascii_char(#[trigger] w[i]) by {
        assert(is_ascii_lower(w[i]));
    }
    lemma_lowercase_ascii(w);
    assert(w.map_values(|c: char| ascii_lower(c)) =~= w);
    assert forall|i: int| 0 <= i < w.len() implies is_ascii_alnum(#[trigger] w[i]) by {
        assert(is_ascii_lower(w[i]));
    }
    lemma_split_one_word(w);
    law_double_s_is_not_plural(w);
    assert(keyword_candidate(w) == Some(w));
    let pieces = seq![w];
    assert(pieces.drop_last() =~= Seq::<Seq<char>>::empty());
    assert(keywords_of_pieces(pieces.drop_last()) =~= Seq::<Seq<char>>::empty());
    assert(!Seq::<Seq<char>>::empty().contains(w));
    assert(Seq::<Seq<char>>::empty().push(w) =~= seq![w]);
}
} // verus!

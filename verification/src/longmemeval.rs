//! Conversion of the LongMemEval benchmark (a JSON array of questions, each
//! with haystack sessions of turns) into the neutral evaluation dataset.
use vstd::prelude::*;
use crate::errors::MgeError;
use crate::eval::{
    EvalDataset, EvalMemory, EvalMemoryView, EvalQuery, EvalQueryView, IngestMode, memory_views,
    query_views, ingest_mode_name, safe_marker, safe_marker_value, safe_memory_text,
    is_safe_memory_text,
};
use crate::ingestion::{
    chunk_session_turns, chunk_views, first_bad_turn, session_chunks, turn_ok, utf8_len, utf8_length,
    SessionChunk, SessionChunkOptions, SessionTurn, line_chunks, turn_lines, turn_line,
    DEFAULT_SESSION_CHUNK_MAX_TURNS, DEFAULT_SESSION_CHUNK_MAX_BYTES,
};
use crate::models::JsonValue;
use crate::text::{
    bool_text, chars_eq, chars_of, chars_lt, decimal, push_bool_str, push_chars, push_decimal_str,
    push_str, seq_lt, strictly_sorted, string_from, string_from_chars, trim_chars, trim_ws, views_of,
    TrimKind, lemma_seq_lt_irreflexive, lemma_seq_lt_transitive, lemma_seq_lt_total,
    lemma_seq_lt_asymmetric,
};

verus! {

// ---------------------------------------------------------------------------
// Reading JSON values
// ---------------------------------------------------------------------------

/// The value of the first entry named `key`, from index `i` on.
pub open spec fn entry_value(es: Seq<(String, JsonValue)>, key: Seq<char>, i: int) -> Option<JsonValue>
    decreases es.len() - i,
{
    if i < 0 || i >= es.len() {
        None
    } else if es[i].0@ == key {
        Some(es[i].1)
    } else {
        entry_value(es, key, i + 1)
    }
}

/// The member `key` of an object; nothing for other values.
pub open spec fn json_get(v: JsonValue, key: Seq<char>) -> Option<JsonValue> {
    match v {
        JsonValue::Object(es) => entry_value(es@, key, 0),
        _ => None,
    }
}

/// The first of `keys` whose member is a string, as that string.
pub open spec fn string_field_from(v: JsonValue, keys: Seq<Seq<char>>, i: int) -> Option<Seq<char>>
    decreases keys.len() - i,
{
    if i < 0 || i >= keys.len() {
        None
    } else {
        match json_get(v, keys[i]) {
            Some(JsonValue::Text(s)) => Some(s@),
            _ => string_field_from(v, keys, i + 1),
        }
    }
}

pub open spec fn string_field(v: JsonValue, keys: Seq<Seq<char>>) -> Option<Seq<char>> {
    string_field_from(v, keys, 0)
}

/// A string, number or boolean as text.
pub open spec fn compact_string(v: JsonValue) -> Option<Seq<char>> {
    match v {
        JsonValue::Text(s) => Some(s@),
        JsonValue::Number(n) => Some(n@),
        JsonValue::Bool(b) => Some(bool_text(b)),
        _ => None,
    }
}

pub open spec fn as_array(v: Option<JsonValue>) -> Option<Seq<JsonValue>> {
    match v {
        Some(JsonValue::Array(items)) => Some(items@),
        _ => None,
    }
}

pub(crate) fn get_member<'a>(v: &'a JsonValue, key: &str) -> (r: Option<&'a JsonValue>)
    ensures
        match json_get(*v, key@) {
            Some(x) => r == Some(&x),
            None => r is None,
        },
{
    match v {
        JsonValue::Object(es) => {
            let k = chars_of(key);
            let mut i: usize = 0;
            while i < es.len()
                invariant
                    i <= es@.len(),
                    k@ == key@,
                    json_get(*v, key@) == entry_value(es@, key@, 0),
                    entry_value(es@, key@, 0) == entry_value(es@, key@, i as int),
                decreases es@.len() - i,
            {
                if chars_eq(&chars_of(es[i].0.as_str()), &k) {
                    proof {
                        assert(es@[i as int].0@ == key@);
                    }
                    return Some(&es[i].1);
                }
                i += 1;
            }
            None
        },
        _ => None,
    }
}

pub(crate) fn text_member(v: &JsonValue, key: &str) -> (r: Option<String>)
    ensures
        match json_get(*v, key@) {
            Some(JsonValue::Text(s)) => r matches Some(t) && t@ == s@,
            _ => r is None,
        },
{
    match get_member(v, key) {
        Some(JsonValue::Text(s)) => Some(string_from(s.as_str())),
        _ => None,
    }
}

pub(crate) fn string_field2(v: &JsonValue, a: &str, b: &str) -> (r: Option<String>)
    ensures
        match string_field(*v, seq![a@, b@]) {
            Some(s) => r matches Some(t) && t@ == s,
            None => r is None,
        },
{
    proof {
        reveal_with_fuel(string_field_from, 3);
    }
    match text_member(v, a) {
        Some(s) => Some(s),
        None => text_member(v, b),
    }
}

pub(crate) fn string_field1(v: &JsonValue, a: &str) -> (r: Option<String>)
    ensures
        match string_field(*v, seq![a@]) {
            Some(s) => r matches Some(t) && t@ == s,
            None => r is None,
        },
{
    proof {
        reveal_with_fuel(string_field_from, 2);
    }
    text_member(v, a)
}

pub(crate) fn string_field3(v: &JsonValue, a: &str, b: &str, c: &str) -> (r: Option<String>)
    ensures
        match string_field(*v, seq![a@, b@, c@]) {
            Some(s) => r matches Some(t) && t@ == s,
            None => r is None,
        },
{
    proof {
        reveal_with_fuel(string_field_from, 4);
    }
    match text_member(v, a) {
        Some(s) => Some(s),
        None => match text_member(v, b) {
            Some(s) => Some(s),
            None => text_member(v, c),
        },
    }
}

pub(crate) fn string_field4(v: &JsonValue, a: &str, b: &str, c: &str, d: &str) -> (r: Option<String>)
    ensures
        match string_field(*v, seq![a@, b@, c@, d@]) {
            Some(s) => r matches Some(t) && t@ == s,
            None => r is None,
        },
{
    proof {
        reveal_with_fuel(string_field_from, 5);
    }
    match text_member(v, a) {
        Some(s) => Some(s),
        None => match text_member(v, b) {
            Some(s) => Some(s),
            None => match text_member(v, c) {
                Some(s) => Some(s),
                None => text_member(v, d),
            },
        },
    }
}

pub(crate) fn compact(v: &JsonValue) -> (r: Option<String>)
    ensures
        match compact_string(*v) {
            Some(s) => r matches Some(t) && t@ == s,
            None => r is None,
        },
{
    match v {
        JsonValue::Text(s) => Some(string_from(s.as_str())),
        JsonValue::Number(n) => Some(string_from(n.as_str())),
        JsonValue::Bool(b) => {
            let mut s = String::new();
            push_bool_str(&mut s, *b);
            Some(s)
        },
        _ => None,
    }
}

// ---------------------------------------------------------------------------
// Ordered sets of strings
// ---------------------------------------------------------------------------

/// Two strictly sorted sequences of strings with the same elements are equal.
pub proof fn lemma_sorted_strings_unique(a: Seq<Seq<char>>, b: Seq<Seq<char>>)
    requires
        strictly_sorted(a),
        strictly_sorted(b),
        a.to_set() == b.to_set(),
    ensures
        a == b,
    decreases a.len() + b.len(),
{
    if a.len() > 0 && b.len() > 0 {
        assert(a.to_set().contains(a[0]));
        assert(b.to_set().contains(b[0]));
        let i = choose|i: int| 0 <= i < b.len() && b[i] == a[0];
        let j = choose|j: int| 0 <= j < a.len() && a[j] == b[0];
        if i > 0 && j > 0 {
            assert(seq_lt(b[0], b[i]));
            assert(seq_lt(a[0], a[j]));
            lemma_seq_lt_asymmetric(b[0], a[0]);
        } else if i > 0 {
            assert(seq_lt(b[0], b[i]));
            assert(a[0] == b[0]);
        }
        assert(a[0] == b[0]);
        let a1 = a.drop_first();
        let b1 = b.drop_first();
        assert forall|x: Seq<char>| a1.to_set().contains(x) implies b1.to_set().contains(x) by {
            let k = choose|k: int| 0 <= k < a1.len() && a1[k] == x;
            assert(a.to_set().contains(x));
            let m = choose|m: int| 0 <= m < b.len() && b[m] == x;
            assert(seq_lt(a[0], a[k + 1]));
            if m == 0 {
                lemma_seq_lt_irreflexive(x);
            }
            assert(b1[m - 1] == x);
        }
        assert forall|x: Seq<char>| b1.to_set().contains(x) implies a1.to_set().contains(x) by {
            let k = choose|k: int| 0 <= k < b1.len() && b1[k] == x;
            assert(b.to_set().contains(x));
            let m = choose|m: int| 0 <= m < a.len() && a[m] == x;
            assert(seq_lt(b[0], b[k + 1]));
            if m == 0 {
                lemma_seq_lt_irreflexive(x);
            }
            assert(a1[m - 1] == x);
        }
        assert(a1.to_set() =~= b1.to_set());
        lemma_sorted_strings_unique(a1, b1);
        assert(a =~= seq![a[0]] + a1);
        assert(b =~= seq![b[0]] + b1);
    } else if a.len() > 0 {
        assert(a.to_set().contains(a[0]));
    } else if b.len() > 0 {
        assert(b.to_set().contains(b[0]));
    } else {
        assert(a =~= b);
    }
}

/// The elements of a finite set of strings in lexicographic order.
pub open spec fn sorted_strings(s: Set<Seq<char>>) -> Seq<Seq<char>> {
    choose|q: Seq<Seq<char>>| strictly_sorted(q) && q.to_set() == s
}

proof fn lemma_sorted_strings_is(q: Seq<Seq<char>>)
    requires
        strictly_sorted(q),
    ensures
        sorted_strings(q.to_set()) == q,
{
    let s = q.to_set();
    assert(strictly_sorted(q) && q.to_set() == s);
    let r = sorted_strings(s);
    lemma_sorted_strings_unique(r, q);
}

// ---------------------------------------------------------------------------
// Key facts
// ---------------------------------------------------------------------------

pub open spec fn is_fact_separator(c: char) -> bool {
    c == '\n' || c == '.' || c == '!' || c == '?' || c == ';'
}

/// The pieces of `s` between separators (empty pieces included).
pub open spec fn fact_pieces(s: Seq<char>) -> Seq<Seq<char>>
    decreases s.len(),
{
    if s.len() == 0 {
        seq![Seq::empty()]
    } else {
        let p = fact_pieces(s.drop_last());
        let c = s.last();
        if is_fact_separator(c) {
            p.push(Seq::empty())
        } else {
            p.update(p.len() - 1, p.last().push(c))
        }
    }
}

/// How many of the first `n` characters start at or before byte `limit`.
pub open spec fn chars_starting_within(s: Seq<char>, limit: nat, n: int) -> nat
    decreases n,
{
    if n <= 0 {
        0
    } else {
        chars_starting_within(s, limit, n - 1) + if utf8_len(s.take(n - 1)) <= limit {
            1nat
        } else {
            0nat
        }
    }
}

/// A fact longer than 360 bytes is cut after the last character that starts
/// within the first 360 bytes, then trimmed again.
pub open spec fn bounded_fact(f: Seq<char>) -> Seq<char> {
    if utf8_len(f) > 360 {
        trim_ws(f.take(chars_starting_within(f, 360, f.len() as int) as int))
    } else {
        f
    }
}

/// The facts of the first `n` pieces: at most three distinct trimmed pieces
/// of at least 16 bytes that are worth storing, each bounded in length.
pub open spec fn facts_of_pieces(pieces: Seq<Seq<char>>, n: int) -> Seq<Seq<char>>
    decreases n,
{
    if n <= 0 {
        Seq::empty()
    } else {
        let facts = facts_of_pieces(pieces, n - 1);
        let fact = trim_ws(pieces[n - 1]);
        if facts.len() >= 3 || utf8_len(fact) < 16 || !safe_memory_text(fact) {
            facts
        } else if facts.contains(bounded_fact(fact)) {
            facts
        } else {
            facts.push(bounded_fact(fact))
        }
    }
}

/// The key facts of a text: up to three sentences; the whole trimmed text
/// when no sentence qualifies but the text is worth storing.
pub open spec fn key_facts(s: Seq<char>) -> Seq<Seq<char>> {
    let pieces = fact_pieces(s);
    let facts = facts_of_pieces(pieces, pieces.len() as int);
    if facts.len() == 0 && safe_memory_text(s) {
        seq![trim_ws(s)]
    } else {
        facts
    }
}

proof fn lemma_fact_pieces_nonempty(s: Seq<char>)
    ensures
        fact_pieces(s).len() >= 1,
    decreases s.len(),
{
    if s.len() > 0 {
        lemma_fact_pieces_nonempty(s.drop_last());
    }
}

proof fn lemma_facts_len(pieces: Seq<Seq<char>>, n: int)
    ensures
        facts_of_pieces(pieces, n).len() <= 3,
    decreases n,
{
    if n > 0 {
        lemma_facts_len(pieces, n - 1);
    }
}

fn bound_fact(fact: &Vec<char>) -> (out: Vec<char>)
    ensures
        out@ == bounded_fact(fact@),
{
    if utf8_length(fact) <= 360 {
        return copy_chars(fact);
    }
    let mut keep: usize = 0;
    let mut offset: usize = 0;
    let mut i: usize = 0;
    while i < fact.len()
        invariant
            i <= fact.len(),
            keep <= i,
            keep as nat == chars_starting_within(fact@, 360, i as int),
            offset as nat == if utf8_len(fact@.take(i as int)) > 400 {
                400
            } else {
                utf8_len(fact@.take(i as int))
            },
        decreases fact.len() - i,
    {
        if offset <= 360 {
            keep += 1;
        }
        let c = fact[i] as u32;
        let w: usize = if c < 0x80 {
            1
        } else if c < 0x800 {
            2
        } else if c < 0x10000 {
            3
        } else {
            4
        };
        proof {
            assert(fact@.take(i + 1).drop_last() =~= fact@.take(i as int));
        }
        offset = if offset + w > 400 {
            400
        } else {
            offset + w
        };
        i += 1;
    }
    let mut head: Vec<char> = Vec::new();
    let mut k: usize = 0;
    while k < keep
        invariant
            k <= keep <= fact.len(),
            head@ == fact@.take(k as int),
        decreases keep - k,
    {
        head.push(fact[k]);
        proof {
            assert(fact@.take(k + 1) =~= fact@.take(k as int).push(fact@[k as int]));
        }
        k += 1;
    }
    trim_chars(&head, TrimKind::Whitespace)
}

fn copy_chars(v: &Vec<char>) -> (out: Vec<char>)
    ensures
        out@ == v@,
{
    let mut out: Vec<char> = Vec::new();
    crate::text::extend_chars(&mut out, v);
    proof {
        assert(out@ =~= v@);
    }
    out
}

fn contains_chars(list: &Vec<Vec<char>>, t: &Vec<char>) -> (b: bool)
    ensures
        b == list@.map_values(|x: Vec<char>| x@).contains(t@),
{
    let mut i: usize = 0;
    while i < list.len()
        invariant
            i <= list.len(),
            forall|k: int| 0 <= k < i ==> list@[k]@ != t@,
        decreases list.len() - i,
    {
        if chars_eq(&list[i], t) {
            proof {
                assert(list@.map_values(|x: Vec<char>| x@)[i as int] == t@);
            }
            return true;
        }
        i += 1;
    }
    proof {
        let m = list@.map_values(|x: Vec<char>| x@);
        if m.contains(t@) {
            let k = choose|k: int| 0 <= k < m.len() && m[k] == t@;
            assert(list@[k]@ == t@);
        }
    }
    false
}

/// Up to three key facts of a text (see `key_facts`).
pub fn split_key_facts(input: &str) -> (out: Vec<String>)
    ensures
        views_of(out@) == key_facts(input@),
{
    let chars = chars_of(input);
    let mut pieces: Vec<Vec<char>> = Vec::new();
    let mut current: Vec<char> = Vec::new();
    let mut i: usize = 0;
    proof {
        assert(chars@.take(0) =~= Seq::<char>::empty());
        assert(fact_pieces(Seq::<char>::empty()).drop_last() =~= Seq::<Seq<char>>::empty());
        assert(pieces@.map_values(|x: Vec<char>| x@) =~= Seq::<Seq<char>>::empty());
    }
    while i < chars.len()
        invariant
            i <= chars.len(),
            chars@ == input@,
            fact_pieces(chars@.take(i as int)).len() >= 1,
            pieces@.map_values(|x: Vec<char>| x@) == fact_pieces(chars@.take(i as int)).drop_last(),
            current@ == fact_pieces(chars@.take(i as int)).last(),
        decreases chars.len() - i,
    {
        let ch = chars[i];
        let ghost p = fact_pieces(chars@.take(i as int));
        proof {
            assert(chars@.take(i + 1).drop_last() =~= chars@.take(i as int));
            assert(chars@.take(i + 1).last() == ch);
        }
        if ch == '\n' || ch == '.' || ch == '!' || ch == '?' || ch == ';' {
            let ghost before = pieces@;
            let done = copy_chars(&current);
            pieces.push(done);
            current = Vec::new();
            proof {
                let q = fact_pieces(chars@.take(i + 1));
                assert(q == p.push(Seq::empty()));
                assert(q.drop_last() =~= p);
                assert(pieces@.map_values(|x: Vec<char>| x@) =~= before.map_values(|x: Vec<char>| x@).push(
                    p.last(),
                ));
                assert(p.drop_last().push(p.last()) =~= p);
            }
        } else {
            current.push(ch);
            proof {
                let q = fact_pieces(chars@.take(i + 1));
                assert(q == p.update(p.len() - 1, p.last().push(ch)));
                assert(q.drop_last() =~= p.drop_last());
            }
        }
        proof {
            lemma_fact_pieces_nonempty(chars@.take(i + 1));
        }
        i += 1;
    }
    let ghost before_last = pieces@;
    pieces.push(current);
    proof {
        assert(chars@.take(i as int) =~= chars@);
        let p = fact_pieces(chars@);
        assert(pieces@.map_values(|x: Vec<char>| x@) =~= before_last.map_values(|x: Vec<char>| x@).push(
            p.last(),
        ));
        assert(p.drop_last().push(p.last()) =~= p);
    }
    let ghost pv = pieces@.map_values(|x: Vec<char>| x@);
    let mut facts: Vec<Vec<char>> = Vec::new();
    let mut j: usize = 0;
    proof {
        assert(facts@.map_values(|x: Vec<char>| x@) =~= Seq::<Seq<char>>::empty());
    }
    while j < pieces.len()
        invariant
            j <= pieces@.len(),
            pv == pieces@.map_values(|x: Vec<char>| x@),
            facts@.map_values(|x: Vec<char>| x@) == facts_of_pieces(pv, j as int),
        decreases pieces@.len() - j,
    {
        proof {
            lemma_facts_len(pv, j as int);
            assert(pv[j as int] == pieces@[j as int]@);
        }
        let fact = trim_chars(&pieces[j], TrimKind::Whitespace);
        if facts.len() < 3 && utf8_length(&fact) >= 16 {
            let s = string_from_chars(&fact);
            if is_safe_memory_text(s.as_str()) {
                let bounded = bound_fact(&fact);
                if !contains_chars(&facts, &bounded) {
                    let ghost before = facts@;
                    facts.push(bounded);
                    proof {
                        assert(facts@.map_values(|x: Vec<char>| x@) =~= before.map_values(
                            |x: Vec<char>| x@,
                        ).push(bounded@));
                    }
                }
            }
        }
        j += 1;
    }
    let mut out: Vec<String> = Vec::new();
    if facts.len() == 0 {
        if is_safe_memory_text(input) {
            let t = trim_chars(&chars, TrimKind::Whitespace);
            out.push(string_from_chars(&t));
            proof {
                assert(views_of(out@) =~= seq![trim_ws(input@)]);
            }
        } else {
            proof {
                assert(views_of(out@) =~= Seq::<Seq<char>>::empty());
            }
        }
        return out;
    }
    let mut k: usize = 0;
    while k < facts.len()
        invariant
            k <= facts.len(),
            out@.len() == k,
            forall|t: int| 0 <= t < k ==> #[trigger] out@[t]@ == facts@[t]@,
        decreases facts.len() - k,
    {
        out.push(string_from_chars(&facts[k]));
        k += 1;
    }
    proof {
        assert(views_of(out@) =~= facts@.map_values(|x: Vec<char>| x@));
    }
    out
}


// ---------------------------------------------------------------------------
// Turns
// ---------------------------------------------------------------------------

/// A turn kept for conversion.
pub struct ConvertedTurn {
    pub id: String,
    pub role: String,
    pub content: String,
    pub has_answer: bool,
}

pub struct ConvertedTurnView {
    pub id: Seq<char>,
    pub role: Seq<char>,
    pub content: Seq<char>,
    pub has_answer: bool,
}

impl View for ConvertedTurn {
    type V = ConvertedTurnView;

    open spec fn view(&self) -> ConvertedTurnView {
        ConvertedTurnView {
            id: self.id@,
            role: self.role@,
            content: self.content@,
            has_answer: self.has_answer,
        }
    }
}

pub open spec fn turn_views(v: Seq<ConvertedTurn>) -> Seq<ConvertedTurnView> {
    v.map_values(|t: ConvertedTurn| t@)
}

/// The text of a turn: its `content`, `text` or `message` member, or the
/// turn itself when it is a string.
pub open spec fn turn_text(turn: JsonValue) -> Option<Seq<char>> {
    match string_field(turn, seq!["content"@, "text"@, "message"@]) {
        Some(s) => Some(s),
        None => match turn {
            JsonValue::Text(s) => Some(s@),
            _ => None,
        },
    }
}

pub open spec fn turn_role(turn: JsonValue) -> Seq<char> {
    match string_field(turn, seq!["role"@, "speaker"@]) {
        Some(r) => r,
        None => "turn"@,
    }
}

pub open spec fn turn_has_answer(turn: JsonValue) -> bool {
    json_get(turn, "has_answer"@) matches Some(JsonValue::Bool(b)) && b
}

/// The turns among the first `n` with text worth storing, each with its id
/// (`<prefix>:turn-<index>`), role, text and answer flag.
pub open spec fn converted_turns(turns: Seq<JsonValue>, prefix: Seq<char>, n: int) -> Seq<ConvertedTurnView>
    decreases n,
{
    if n <= 0 {
        Seq::empty()
    } else {
        let r = converted_turns(turns, prefix, n - 1);
        let t = turns[n - 1];
        match turn_text(t) {
            Some(c) => if safe_memory_text(c) {
                r.push(
                    ConvertedTurnView {
                        id: prefix + ":turn-"@ + decimal((n - 1) as nat),
                        role: turn_role(t),
                        content: c,
                        has_answer: turn_has_answer(t),
                    },
                )
            } else {
                r
            },
            None => r,
        }
    }
}

fn convert_turns(turns: &Vec<JsonValue>, prefix: &String) -> (out: Vec<ConvertedTurn>)
    ensures
        turn_views(out@) == converted_turns(turns@, prefix@, turns@.len() as int),
{
    let mut out: Vec<ConvertedTurn> = Vec::new();
    let mut i: usize = 0;
    proof {
        assert(turn_views(out@) =~= Seq::<ConvertedTurnView>::empty());
    }
    while i < turns.len()
        invariant
            i <= turns@.len(),
            turn_views(out@) == converted_turns(turns@, prefix@, i as int),
        decreases turns@.len() - i,
    {
        let turn = &turns[i];
        let text = match string_field3(turn, "content", "text", "message") {
            Some(s) => Some(s),
            None => match turn {
                JsonValue::Text(s) => Some(string_from(s.as_str())),
                _ => None,
            },
        };
        match text {
            Some(content) => {
                if is_safe_memory_text(content.as_str()) {
                    let role = match string_field2(turn, "role", "speaker") {
                        Some(r) => r,
                        None => string_from("turn"),
                    };
                    let mut id = string_from(prefix.as_str());
                    push_str(&mut id, ":turn-");
                    push_decimal_str(&mut id, i as u64);
                    let has_answer = match get_member(turn, "has_answer") {
                        Some(JsonValue::Bool(b)) => *b,
                        _ => false,
                    };
                    let t = ConvertedTurn { id, role, content, has_answer };
                    let ghost before = out@;
                    out.push(t);
                    proof {
                        assert(turn_views(out@) =~= turn_views(before).push(t@));
                    }
                }
            },
            None => {},
        }
        i += 1;
    }
    out
}

// ---------------------------------------------------------------------------
// Memories of a session
// ---------------------------------------------------------------------------

pub open spec fn doc_mode(m: IngestMode) -> bool {
    m is SessionDoc || m is SessionPlusTurn
}

pub open spec fn turn_mode(m: IngestMode) -> bool {
    m is RawTurn || m is SessionPlusTurn
}

/// The markers of a converted memory.
pub open spec fn lme_markers(qtype: Seq<char>, granularity: Seq<char>, role: Option<Seq<char>>, sid: Seq<
    char,
>) -> Seq<Seq<char>> {
    seq!["benchmark:longmemeval"@, "question_type:"@ + safe_marker(qtype), granularity] + match role {
        Some(r) => seq!["role:"@ + safe_marker(r)],
        None => Seq::empty(),
    } + seq!["session:"@ + safe_marker(sid)]
}

pub open spec fn lme_memory(
    id: Seq<char>,
    scope: Seq<char>,
    subject: Seq<char>,
    text: Seq<char>,
    markers: Seq<Seq<char>>,
) -> EvalMemoryView {
    EvalMemoryView {
        id,
        scope,
        subject: Some(subject),
        text,
        markers,
        kind: "project_fact"@,
        status: "active"@,
        trust: "user_confirmed"@,
        sensitivity: "private"@,
    }
}

fn lme_marker_list(qtype: &String, granularity: &str, role: Option<&String>, sid: &String) -> (v: Vec<
    String,
>)
    ensures
        views_of(v@) == lme_markers(
            qtype@,
            granularity@,
            match role {
                Some(r) => Some(r@),
                None => None,
            },
            sid@,
        ),
{
    let mut v: Vec<String> = Vec::new();
    v.push(string_from("benchmark:longmemeval"));
    let mut q = string_from("question_type:");
    push_str(&mut q, safe_marker_value(qtype.as_str()).as_str());
    v.push(q);
    v.push(string_from(granularity));
    match role {
        Some(r) => {
            let mut rs = string_from("role:");
            push_str(&mut rs, safe_marker_value(r.as_str()).as_str());
            v.push(rs);
        },
        None => {},
    }
    let mut s = string_from("session:");
    push_str(&mut s, safe_marker_value(sid.as_str()).as_str());
    v.push(s);
    proof {
        let expect = lme_markers(
            qtype@,
            granularity@,
            match role {
                Some(r) => Some(r@),
                None => None,
            },
            sid@,
        );
        assert(views_of(v@) =~= expect);
    }
    v
}

fn lme_memory_exec(id: String, scope: &String, subject: String, text: String, markers: Vec<String>) -> (m:
    EvalMemory)
    ensures
        m@ == lme_memory(id@, scope@, subject@, text@, views_of(markers@)),
{
    EvalMemory {
        id,
        scope: string_from(scope.as_str()),
        subject: Some(subject),
        text,
        markers,
        kind: string_from("project_fact"),
        status: string_from("active"),
        trust: string_from("user_confirmed"),
        sensitivity: string_from("private"),
    }
}

/// `role: content` lines of the turns joined by newlines.
pub open spec fn session_text(ts: Seq<ConvertedTurnView>) -> Seq<char>
    decreases ts.len(),
{
    if ts.len() == 0 {
        Seq::empty()
    } else if ts.len() == 1 {
        ts[0].role + ": "@ + ts[0].content
    } else {
        session_text(ts.drop_last()) + "\n"@ + ts.last().role + ": "@ + ts.last().content
    }
}

/// Whether a turn in `start..end` carries the answer.
pub open spec fn any_answer(ts: Seq<ConvertedTurnView>, start: int, end: int) -> bool {
    exists|k: int| start <= k < end && 0 <= k < ts.len() && (#[trigger] ts[k]).has_answer
}

/// The chunk lines of the turns: trimmed role, `": "`, trimmed text.
pub open spec fn chunk_lines(ts: Seq<ConvertedTurnView>) -> Seq<Seq<char>> {
    ts.map_values(|t: ConvertedTurnView| trim_ws(t.role) + ": "@ + trim_ws(t.content))
}

/// The first of the first `n` turns whose role is blank once trimmed.
pub open spec fn first_blank_role(ts: Seq<ConvertedTurnView>, n: int) -> Option<nat>
    decreases n,
{
    if n <= 0 {
        None
    } else {
        match first_blank_role(ts, n - 1) {
            Some(i) => Some(i),
            None => if trim_ws(ts[n - 1].role).len() == 0 {
                Some((n - 1) as nat)
            } else {
                None
            },
        }
    }
}

pub open spec fn default_chunk_options() -> SessionChunkOptions {
    SessionChunkOptions {
        max_turns: DEFAULT_SESSION_CHUNK_MAX_TURNS,
        max_bytes: DEFAULT_SESSION_CHUNK_MAX_BYTES,
    }
}

/// The memories of the first `n` chunks of a session.
pub open spec fn chunk_memories(
    chunks: Seq<(nat, nat, Seq<char>)>,
    prefix: Seq<char>,
    scope: Seq<char>,
    qtype: Seq<char>,
    sid: Seq<char>,
    n: int,
) -> Seq<EvalMemoryView>
    decreases n,
{
    if n <= 0 {
        Seq::empty()
    } else {
        chunk_memories(chunks, prefix, scope, qtype, sid, n - 1).push(
            lme_memory(
                prefix + ":chunk-"@ + decimal((n - 1) as nat),
                scope,
                qtype + " context block "@ + sid,
                chunks[n - 1].2,
                lme_markers(qtype, "memory_granularity:session_chunk"@, None, sid),
            ),
        )
    }
}

/// The ids of the first `n` chunks that hold an answering turn.
pub open spec fn answering_chunk_ids(
    chunks: Seq<(nat, nat, Seq<char>)>,
    ts: Seq<ConvertedTurnView>,
    prefix: Seq<char>,
    n: int,
) -> Seq<Seq<char>>
    decreases n,
{
    if n <= 0 {
        Seq::empty()
    } else {
        let r = answering_chunk_ids(chunks, ts, prefix, n - 1);
        if any_answer(ts, chunks[n - 1].0 as int, chunks[n - 1].1 as int) {
            r.push(prefix + ":chunk-"@ + decimal((n - 1) as nat))
        } else {
            r
        }
    }
}

pub open spec fn chunk_ids(prefix: Seq<char>, n: int) -> Seq<Seq<char>>
    decreases n,
{
    if n <= 0 {
        Seq::empty()
    } else {
        chunk_ids(prefix, n - 1).push(prefix + ":chunk-"@ + decimal((n - 1) as nat))
    }
}

/// The key-fact memories of the first `n` facts of a turn.
pub open spec fn fact_memories_of_turn(
    t: ConvertedTurnView,
    scope: Seq<char>,
    qtype: Seq<char>,
    sid: Seq<char>,
    n: int,
) -> Seq<EvalMemoryView>
    decreases n,
{
    if n <= 0 {
        Seq::empty()
    } else {
        fact_memories_of_turn(t, scope, qtype, sid, n - 1).push(
            lme_memory(
                t.id + ":fact-"@ + decimal((n - 1) as nat),
                scope,
                qtype + " key fact "@ + t.role + " "@ + sid,
                key_facts(t.content)[n - 1],
                lme_markers(qtype, "memory_granularity:key_fact"@, Some(t.role), sid),
            ),
        )
    }
}

pub open spec fn fact_ids_of_turn(t: ConvertedTurnView, n: int) -> Seq<Seq<char>>
    decreases n,
{
    if n <= 0 {
        Seq::empty()
    } else {
        fact_ids_of_turn(t, n - 1).push(t.id + ":fact-"@ + decimal((n - 1) as nat))
    }
}

/// The key-fact memories of the first `n` turns.
pub open spec fn fact_memories(
    ts: Seq<ConvertedTurnView>,
    scope: Seq<char>,
    qtype: Seq<char>,
    sid: Seq<char>,
    n: int,
) -> Seq<EvalMemoryView>
    decreases n,
{
    if n <= 0 {
        Seq::empty()
    } else {
        fact_memories(ts, scope, qtype, sid, n - 1) + fact_memories_of_turn(
            ts[n - 1],
            scope,
            qtype,
            sid,
            key_facts(ts[n - 1].content).len() as int,
        )
    }
}

/// The fact ids of the first `n` turns (those of answering turns only, when
/// `answering` is set).
pub open spec fn fact_ids(ts: Seq<ConvertedTurnView>, answering: bool, n: int) -> Seq<Seq<char>>
    decreases n,
{
    if n <= 0 {
        Seq::empty()
    } else {
        fact_ids(ts, answering, n - 1) + if !answering || ts[n - 1].has_answer {
            fact_ids_of_turn(ts[n - 1], key_facts(ts[n - 1].content).len() as int)
        } else {
            Seq::empty()
        }
    }
}

/// The turn memories of the first `n` turns.
pub open spec fn turn_memories(
    ts: Seq<ConvertedTurnView>,
    scope: Seq<char>,
    qtype: Seq<char>,
    sid: Seq<char>,
    n: int,
) -> Seq<EvalMemoryView>
    decreases n,
{
    if n <= 0 {
        Seq::empty()
    } else {
        turn_memories(ts, scope, qtype, sid, n - 1).push(
            lme_memory(
                ts[n - 1].id,
                scope,
                qtype + " "@ + ts[n - 1].role + " "@ + sid,
                ts[n - 1].content,
                lme_markers(qtype, "memory_granularity:turn"@, Some(ts[n - 1].role), sid),
            ),
        )
    }
}

/// The ids of the first `n` turns (answering turns only, when `answering`).
pub open spec fn turn_ids(ts: Seq<ConvertedTurnView>, answering: bool, n: int) -> Seq<Seq<char>>
    decreases n,
{
    if n <= 0 {
        Seq::empty()
    } else {
        turn_ids(ts, answering, n - 1) + if !answering || ts[n - 1].has_answer {
            seq![ts[n - 1].id]
        } else {
            Seq::empty()
        }
    }
}

/// What a session contributes: its memories, the ids it marks relevant, and
/// the ids it files under its session id for the fallback by answer session.
pub struct SessionOutView {
    pub memories: Seq<EvalMemoryView>,
    pub relevant: Seq<Seq<char>>,
    pub session_id: Seq<char>,
    pub doc_id: Option<Seq<char>>,
    pub turn_ids: Seq<Seq<char>>,
    pub chunk_ids: Seq<Seq<char>>,
    pub fact_ids: Seq<Seq<char>>,
}

/// The conversion of a session whose kept turns are `ts` (not empty); the
/// only failure is a turn that chunking refuses.
pub open spec fn session_out(
    mode: IngestMode,
    ts: Seq<ConvertedTurnView>,
    prefix: Seq<char>,
    scope: Seq<char>,
    qtype: Seq<char>,
    sid: Seq<char>,
    answers: Seq<Seq<char>>,
) -> Result<SessionOutView, Seq<char>> {
    let has_answer = answers.contains(sid) || any_answer(ts, 0, ts.len() as int);
    let doc_id = prefix + ":session"@;
    let doc = if doc_mode(mode) {
        seq![
            lme_memory(
                doc_id,
                scope,
                qtype + " session "@ + sid,
                session_text(ts),
                lme_markers(qtype, "memory_granularity:session"@, None, sid),
            ),
        ]
    } else {
        Seq::empty()
    };
    let doc_relevant = if doc_mode(mode) && has_answer {
        seq![doc_id]
    } else {
        Seq::empty()
    };
    let chunks = line_chunks(chunk_lines(ts), default_chunk_options());
    let facts_on = mode is KeyFact;
    let turns_on = turn_mode(mode);
    let chunk_on = mode is SessionChunk;
    if chunk_on && first_blank_role(ts, ts.len() as int) is Some {
        Err(
            "session turn "@ + decimal(first_blank_role(ts, ts.len() as int)->0)
                + " requires non-empty role and content"@,
        )
    } else {
        Ok(
            SessionOutView {
                memories: doc + (if chunk_on {
                    chunk_memories(chunks, prefix, scope, qtype, sid, chunks.len() as int)
                } else {
                    Seq::empty()
                }) + (if facts_on {
                    fact_memories(ts, scope, qtype, sid, ts.len() as int)
                } else {
                    Seq::empty()
                }) + (if turns_on {
                    turn_memories(ts, scope, qtype, sid, ts.len() as int)
                } else {
                    Seq::empty()
                }),
                relevant: doc_relevant + (if chunk_on {
                    answering_chunk_ids(chunks, ts, prefix, chunks.len() as int)
                } else {
                    Seq::empty()
                }) + (if facts_on {
                    fact_ids(ts, true, ts.len() as int)
                } else {
                    Seq::empty()
                }) + (if turns_on {
                    turn_ids(ts, true, ts.len() as int)
                } else {
                    Seq::empty()
                }),
                session_id: sid,
                doc_id: if doc_mode(mode) {
                    Some(doc_id)
                } else {
                    None
                },
                turn_ids: turn_ids(ts, false, ts.len() as int),
                chunk_ids: if chunk_on {
                    chunk_ids(prefix, chunks.len() as int)
                } else {
                    Seq::empty()
                },
                fact_ids: if facts_on {
                    fact_ids(ts, false, ts.len() as int)
                } else {
                    Seq::empty()
                },
            },
        )
    }
}


pub(crate) fn push_memory(v: &mut Vec<EvalMemory>, m: EvalMemory)
    ensures
        memory_views(final(v)@) == memory_views(old(v)@).push(m@),
{
    v.push(m);
    proof {
        assert(memory_views(v@) =~= memory_views(old(v)@).push(m@));
    }
}

pub(crate) fn push_id(v: &mut Vec<String>, s: String)
    ensures
        views_of(final(v)@) == views_of(old(v)@).push(s@),
{
    v.push(s);
    proof {
        assert(views_of(v@) =~= views_of(old(v)@).push(s@));
    }
}

fn with_index(base: &String, infix: &str, n: usize) -> (s: String)
    ensures
        s@ == base@ + infix@ + decimal(n as nat),
{
    let mut s = string_from(base.as_str());
    push_str(&mut s, infix);
    push_decimal_str(&mut s, n as u64);
    proof {
        assert(s@ =~= base@ + infix@ + decimal(n as nat));
    }
    s
}

fn joined3(a: &String, infix: &str, b: &String) -> (s: String)
    ensures
        s@ == a@ + infix@ + b@,
{
    let mut s = string_from(a.as_str());
    push_str(&mut s, infix);
    push_str(&mut s, b.as_str());
    proof {
        assert(s@ =~= a@ + infix@ + b@);
    }
    s
}

fn answer_between(ts: &Vec<ConvertedTurn>, start: usize, end: usize) -> (b: bool)
    ensures
        b == any_answer(turn_views(ts@), start as int, end as int),
{
    let mut k = start;
    while k < end && k < ts.len()
        invariant
            start <= k,
            forall|j: int| start <= j < k && 0 <= j < ts@.len() ==> !(#[trigger] turn_views(ts@)[j]).has_answer,
        decreases end - k,
    {
        if ts[k].has_answer {
            proof {
                assert(turn_views(ts@)[k as int].has_answer);
            }
            return true;
        }
        proof {
            assert(!turn_views(ts@)[k as int].has_answer);
        }
        k += 1;
    }
    false
}

fn append_chunk_memories(
    mems: &mut Vec<EvalMemory>,
    rel: &mut Vec<String>,
    ids: &mut Vec<String>,
    chunks: &Vec<SessionChunk>,
    ts: &Vec<ConvertedTurn>,
    prefix: &String,
    scope: &String,
    qtype: &String,
    sid: &String,
)
    ensures
        memory_views(final(mems)@) == memory_views(old(mems)@) + chunk_memories(
            chunk_views(chunks@),
            prefix@,
            scope@,
            qtype@,
            sid@,
            chunks@.len() as int,
        ),
        views_of(final(rel)@) == views_of(old(rel)@) + answering_chunk_ids(
            chunk_views(chunks@),
            turn_views(ts@),
            prefix@,
            chunks@.len() as int,
        ),
        views_of(final(ids)@) == views_of(old(ids)@) + chunk_ids(prefix@, chunks@.len() as int),
{
    let ghost cv = chunk_views(chunks@);
    let mut c: usize = 0;
    proof {
        assert(memory_views(mems@) =~= memory_views(old(mems)@) + Seq::<EvalMemoryView>::empty());
        assert(views_of(rel@) =~= views_of(old(rel)@) + Seq::<Seq<char>>::empty());
        assert(views_of(ids@) =~= views_of(old(ids)@) + Seq::<Seq<char>>::empty());
    }
    while c < chunks.len()
        invariant
            c <= chunks@.len(),
            cv == chunk_views(chunks@),
            memory_views(mems@) == memory_views(old(mems)@) + chunk_memories(cv, prefix@, scope@, qtype@, sid@, c as int),
            views_of(rel@) == views_of(old(rel)@) + answering_chunk_ids(cv, turn_views(ts@), prefix@, c as int),
            views_of(ids@) == views_of(old(ids)@) + chunk_ids(prefix@, c as int),
        decreases chunks@.len() - c,
    {
        let chunk = &chunks[c];
        proof {
            assert(cv[c as int] == (chunk.start_turn as nat, chunk.end_turn as nat, chunk.text@));
        }
        let id = with_index(prefix, ":chunk-", c);
        if answer_between(ts, chunk.start_turn, chunk.end_turn) {
            push_id(rel, string_from(id.as_str()));
        }
        push_id(ids, string_from(id.as_str()));
        let subject = joined3(qtype, " context block ", sid);
        let markers = lme_marker_list(qtype, "memory_granularity:session_chunk", None, sid);
        let m = lme_memory_exec(id, scope, subject, string_from(chunk.text.as_str()), markers);
        push_memory(mems, m);
        proof {
            assert(views_of(rel@) =~= views_of(old(rel)@) + answering_chunk_ids(cv, turn_views(ts@), prefix@, c + 1));
            assert(views_of(ids@) =~= views_of(old(ids)@) + chunk_ids(prefix@, c + 1));
            assert(memory_views(mems@) =~= memory_views(old(mems)@) + chunk_memories(cv, prefix@, scope@, qtype@, sid@, c + 1));
        }
        c += 1;
    }
}

fn append_fact_memories(
    mems: &mut Vec<EvalMemory>,
    rel: &mut Vec<String>,
    ids: &mut Vec<String>,
    ts: &Vec<ConvertedTurn>,
    scope: &String,
    qtype: &String,
    sid: &String,
)
    ensures
        memory_views(final(mems)@) == memory_views(old(mems)@) + fact_memories(
            turn_views(ts@),
            scope@,
            qtype@,
            sid@,
            ts@.len() as int,
        ),
        views_of(final(rel)@) == views_of(old(rel)@) + fact_ids(turn_views(ts@), true, ts@.len() as int),
        views_of(final(ids)@) == views_of(old(ids)@) + fact_ids(turn_views(ts@), false, ts@.len() as int),
{
    let ghost tv = turn_views(ts@);
    let mut i: usize = 0;
    proof {
        assert(memory_views(mems@) =~= memory_views(old(mems)@) + Seq::<EvalMemoryView>::empty());
        assert(views_of(rel@) =~= views_of(old(rel)@) + Seq::<Seq<char>>::empty());
        assert(views_of(ids@) =~= views_of(old(ids)@) + Seq::<Seq<char>>::empty());
    }
    while i < ts.len()
        invariant
            i <= ts@.len(),
            tv == turn_views(ts@),
            memory_views(mems@) == memory_views(old(mems)@) + fact_memories(tv, scope@, qtype@, sid@, i as int),
            views_of(rel@) == views_of(old(rel)@) + fact_ids(tv, true, i as int),
            views_of(ids@) == views_of(old(ids)@) + fact_ids(tv, false, i as int),
        decreases ts@.len() - i,
    {
        let t = &ts[i];
        proof {
            assert(tv[i as int] == t@);
        }
        let facts = split_key_facts(t.content.as_str());
        let ghost m0 = memory_views(mems@);
        let ghost r0 = views_of(rel@);
        let ghost i0 = views_of(ids@);
        let mut f: usize = 0;
        proof {
            assert(m0 =~= m0 + Seq::<EvalMemoryView>::empty());
            assert(r0 =~= r0 + Seq::<Seq<char>>::empty());
            assert(i0 =~= i0 + Seq::<Seq<char>>::empty());
        }
        while f < facts.len()
            invariant
                f <= facts@.len(),
                views_of(facts@) == key_facts(t@.content),
                memory_views(mems@) == m0 + fact_memories_of_turn(t@, scope@, qtype@, sid@, f as int),
                views_of(rel@) == r0 + if t.has_answer {
                    fact_ids_of_turn(t@, f as int)
                } else {
                    Seq::empty()
                },
                views_of(ids@) == i0 + fact_ids_of_turn(t@, f as int),
            decreases facts@.len() - f,
        {
            let id = with_index(&t.id, ":fact-", f);
            if t.has_answer {
                push_id(rel, string_from(id.as_str()));
            }
            push_id(ids, string_from(id.as_str()));
            let mut subject = joined3(qtype, " key fact ", &t.role);
            push_str(&mut subject, " ");
            push_str(&mut subject, sid.as_str());
            let markers = lme_marker_list(qtype, "memory_granularity:key_fact", Some(&t.role), sid);
            let text = string_from(facts[f].as_str());
            proof {
                assert(views_of(facts@)[f as int] == facts@[f as int]@);
            }
            let m = lme_memory_exec(id, scope, subject, text, markers);
            push_memory(mems, m);
            proof {
                assert(memory_views(mems@) =~= m0 + fact_memories_of_turn(t@, scope@, qtype@, sid@, f + 1));
                assert(views_of(ids@) =~= i0 + fact_ids_of_turn(t@, f + 1));
                if t.has_answer {
                    assert(views_of(rel@) =~= r0 + fact_ids_of_turn(t@, f + 1));
                }
            }
            f += 1;
        }
        proof {
            assert(memory_views(mems@) =~= memory_views(old(mems)@) + fact_memories(tv, scope@, qtype@, sid@, i + 1));
            assert(views_of(rel@) =~= views_of(old(rel)@) + fact_ids(tv, true, i + 1));
            assert(views_of(ids@) =~= views_of(old(ids)@) + fact_ids(tv, false, i + 1));
        }
        i += 1;
    }
}

fn append_turn_memories(
    mems: &mut Vec<EvalMemory>,
    rel: &mut Vec<String>,
    ts: &Vec<ConvertedTurn>,
    scope: &String,
    qtype: &String,
    sid: &String,
)
    ensures
        memory_views(final(mems)@) == memory_views(old(mems)@) + turn_memories(
            turn_views(ts@),
            scope@,
            qtype@,
            sid@,
            ts@.len() as int,
        ),
        views_of(final(rel)@) == views_of(old(rel)@) + turn_ids(turn_views(ts@), true, ts@.len() as int),
{
    let ghost tv = turn_views(ts@);
    let mut i: usize = 0;
    proof {
        assert(memory_views(mems@) =~= memory_views(old(mems)@) + Seq::<EvalMemoryView>::empty());
        assert(views_of(rel@) =~= views_of(old(rel)@) + Seq::<Seq<char>>::empty());
    }
    while i < ts.len()
        invariant
            i <= ts@.len(),
            tv == turn_views(ts@),
            memory_views(mems@) == memory_views(old(mems)@) + turn_memories(tv, scope@, qtype@, sid@, i as int),
            views_of(rel@) == views_of(old(rel)@) + turn_ids(tv, true, i as int),
        decreases ts@.len() - i,
    {
        let t = &ts[i];
        proof {
            assert(tv[i as int] == t@);
        }
        if t.has_answer {
            push_id(rel, string_from(t.id.as_str()));
        }
        let mut subject = joined3(qtype, " ", &t.role);
        push_str(&mut subject, " ");
        push_str(&mut subject, sid.as_str());
        let markers = lme_marker_list(qtype, "memory_granularity:turn", Some(&t.role), sid);
        let m = lme_memory_exec(
            string_from(t.id.as_str()),
            scope,
            subject,
            string_from(t.content.as_str()),
            markers,
        );
        push_memory(mems, m);
        proof {
            assert(memory_views(mems@) =~= memory_views(old(mems)@) + turn_memories(tv, scope@, qtype@, sid@, i + 1));
            assert(views_of(rel@) =~= views_of(old(rel)@) + turn_ids(tv, true, i + 1));
        }
        i += 1;
    }
}

fn all_turn_ids(ts: &Vec<ConvertedTurn>) -> (ids: Vec<String>)
    ensures
        views_of(ids@) == turn_ids(turn_views(ts@), false, ts@.len() as int),
{
    let ghost tv = turn_views(ts@);
    let mut ids: Vec<String> = Vec::new();
    let mut i: usize = 0;
    proof {
        assert(views_of(ids@) =~= Seq::<Seq<char>>::empty());
    }
    while i < ts.len()
        invariant
            i <= ts@.len(),
            tv == turn_views(ts@),
            views_of(ids@) == turn_ids(tv, false, i as int),
        decreases ts@.len() - i,
    {
        proof {
            assert(tv[i as int] == ts@[i as int]@);
        }
        push_id(&mut ids, string_from(ts[i].id.as_str()));
        proof {
            assert(views_of(ids@) =~= turn_ids(tv, false, i + 1));
        }
        i += 1;
    }
    ids
}

fn session_text_exec(ts: &Vec<ConvertedTurn>) -> (s: String)
    ensures
        s@ == session_text(turn_views(ts@)),
{
    let ghost tv = turn_views(ts@);
    let mut s = String::new();
    let mut i: usize = 0;
    proof {
        assert(tv.take(0) =~= Seq::<ConvertedTurnView>::empty());
    }
    while i < ts.len()
        invariant
            i <= ts@.len(),
            tv == turn_views(ts@),
            s@ == session_text(tv.take(i as int)),
        decreases ts@.len() - i,
    {
        if i > 0 {
            push_str(&mut s, "\n");
        }
        push_str(&mut s, ts[i].role.as_str());
        push_str(&mut s, ": ");
        push_str(&mut s, ts[i].content.as_str());
        proof {
            let t = tv.take(i + 1);
            assert(t.drop_last() =~= tv.take(i as int));
            assert(t.last() == ts@[i as int]@);
            if i == 0 {
                assert(t.len() == 1);
            }
            assert(s@ =~= session_text(t));
        }
        i += 1;
    }
    proof {
        assert(tv.take(i as int) =~= tv);
    }
    s
}


pub struct SessionOut {
    pub memories: Vec<EvalMemory>,
    pub relevant: Vec<String>,
    pub session_id: String,
    pub doc_id: Option<String>,
    pub turn_ids: Vec<String>,
    pub chunk_ids: Vec<String>,
    pub fact_ids: Vec<String>,
}

impl View for SessionOut {
    type V = SessionOutView;

    open spec fn view(&self) -> SessionOutView {
        SessionOutView {
            memories: memory_views(self.memories@),
            relevant: views_of(self.relevant@),
            session_id: self.session_id@,
            doc_id: crate::eval::opt_text(self.doc_id),
            turn_ids: views_of(self.turn_ids@),
            chunk_ids: views_of(self.chunk_ids@),
            fact_ids: views_of(self.fact_ids@),
        }
    }
}

pub open spec fn contents_safe(ts: Seq<ConvertedTurnView>) -> bool {
    forall|k: int| 0 <= k < ts.len() ==> safe_memory_text(#[trigger] ts[k].content)
}

pub open spec fn same_turns(turns: Seq<SessionTurn>, ts: Seq<ConvertedTurnView>) -> bool {
    turns.len() == ts.len() && forall|k: int|
        0 <= k < ts.len() ==> (#[trigger] turns[k]).role@ == ts[k].role && turns[k].content@ == ts[k].content
}

proof fn lemma_blank_role(turns: Seq<SessionTurn>, ts: Seq<ConvertedTurnView>, n: int)
    requires
        same_turns(turns, ts),
        contents_safe(ts),
        0 <= n <= ts.len(),
    ensures
        first_blank_role(ts, n) matches Some(i) ==> first_bad_turn(turns, i as int),
        first_blank_role(ts, n) is None ==> forall|k: int| 0 <= k < n ==> turn_ok(#[trigger] turns[k]),
    decreases n,
{
    if n > 0 {
        lemma_blank_role(turns, ts, n - 1);
        assert(safe_memory_text(ts[n - 1].content));
        match first_blank_role(ts, n - 1) {
            Some(i) => {},
            None => {
                if trim_ws(ts[n - 1].role).len() == 0 {
                    assert(!turn_ok(turns[n - 1]));
                    assert(first_bad_turn(turns, n - 1));
                } else {
                    assert(turn_ok(turns[n - 1]));
                }
            },
        }
    }
}

fn production_turns(ts: &Vec<ConvertedTurn>) -> (turns: Vec<SessionTurn>)
    ensures
        same_turns(turns@, turn_views(ts@)),
{
    let mut turns: Vec<SessionTurn> = Vec::new();
    let mut i: usize = 0;
    while i < ts.len()
        invariant
            i <= ts@.len(),
            turns@.len() == i,
            forall|k: int|
                0 <= k < i ==> (#[trigger] turns@[k]).role@ == ts@[k].role@ && turns@[k].content@
                    == ts@[k].content@,
        decreases ts@.len() - i,
    {
        turns.push(SessionTurn::new(ts[i].role.as_str(), ts[i].content.as_str()));
        i += 1;
    }
    turns
}

/// Converts one session whose kept turns are `ts`.
fn convert_session(
    mode: IngestMode,
    ts: &Vec<ConvertedTurn>,
    prefix: &String,
    scope: &String,
    qtype: &String,
    sid: &String,
    answers: &Vec<String>,
) -> (r: Result<SessionOut, MgeError>)
    requires
        ts@.len() > 0,
        contents_safe(turn_views(ts@)),
    ensures
        match session_out(mode, turn_views(ts@), prefix@, scope@, qtype@, sid@, views_of(answers@)) {
            Ok(v) => r matches Ok(o) && o@ == v,
            Err(e) => r matches Err(MgeError::InvalidInput(m)) && m@ == e,
        },
{
    let ghost tv = turn_views(ts@);
    let has_answer = contains_string_of(answers, sid) || answer_between(ts, 0, ts.len());
    let doc_id = joined3(prefix, ":session", &String::new());
    proof {
        assert(doc_id@ =~= prefix@ + ":session"@);
    }
    let doc_on = match mode {
        IngestMode::SessionDoc | IngestMode::SessionPlusTurn => true,
        _ => false,
    };
    let turns_on = match mode {
        IngestMode::RawTurn | IngestMode::SessionPlusTurn => true,
        _ => false,
    };
    let chunk_on = match mode {
        IngestMode::SessionChunk => true,
        _ => false,
    };
    let facts_on = match mode {
        IngestMode::KeyFact => true,
        _ => false,
    };
    let mut memories: Vec<EvalMemory> = Vec::new();
    let mut relevant: Vec<String> = Vec::new();
    let mut chunk_id_list: Vec<String> = Vec::new();
    let mut fact_id_list: Vec<String> = Vec::new();
    let ghost spec_out = session_out(mode, tv, prefix@, scope@, qtype@, sid@, views_of(answers@));
    if doc_on {
        let subject = joined3(qtype, " session ", sid);
        let markers = lme_marker_list(qtype, "memory_granularity:session", None, sid);
        let text = session_text_exec(ts);
        let m = lme_memory_exec(string_from(doc_id.as_str()), scope, subject, text, markers);
        push_memory(&mut memories, m);
        if has_answer {
            push_id(&mut relevant, string_from(doc_id.as_str()));
        }
    }
    let ghost m1 = memory_views(memories@);
    let ghost r1 = views_of(relevant@);
    proof {
        assert(m1 =~= (if doc_mode(mode) {
            seq![
                lme_memory(
                    prefix@ + ":session"@,
                    scope@,
                    qtype@ + " session "@ + sid@,
                    session_text(tv),
                    lme_markers(qtype@, "memory_granularity:session"@, None, sid@),
                ),
            ]
        } else {
            Seq::empty()
        }));
    }
    if chunk_on {
        let turns = production_turns(ts);
        proof {
            lemma_blank_role(turns@, tv, tv.len() as int);
            assert(turn_lines(turns@) =~= chunk_lines(tv));
        }
        match chunk_session_turns(&turns, SessionChunkOptions::default()) {
            Err(e) => {
                proof {
                    if first_blank_role(tv, tv.len() as int) is None {
                        assert(forall|k: int| 0 <= k < turns@.len() ==> turn_ok(#[trigger] turns@[k]));
                    }
                }
                return Err(e);
            },
            Ok(chunks) => {
                proof {
                    match first_blank_role(tv, tv.len() as int) {
                        Some(i) => {
                            assert(first_bad_turn(turns@, i as int));
                        },
                        None => {},
                    }
                    assert(chunk_views(chunks@) == line_chunks(chunk_lines(tv), default_chunk_options()));
                }
                append_chunk_memories(
                    &mut memories,
                    &mut relevant,
                    &mut chunk_id_list,
                    &chunks,
                    ts,
                    prefix,
                    scope,
                    qtype,
                    sid,
                );
            },
        }
    }
    let ghost m2 = memory_views(memories@);
    let ghost r2 = views_of(relevant@);
    if facts_on {
        append_fact_memories(&mut memories, &mut relevant, &mut fact_id_list, ts, scope, qtype, sid);
    }
    let ghost m3 = memory_views(memories@);
    let ghost r3 = views_of(relevant@);
    if turns_on {
        append_turn_memories(&mut memories, &mut relevant, ts, scope, qtype, sid);
    }
    let out = SessionOut {
        memories,
        relevant,
        session_id: string_from(sid.as_str()),
        doc_id: if doc_on {
            Some(doc_id)
        } else {
            None
        },
        turn_ids: all_turn_ids(ts),
        chunk_ids: chunk_id_list,
        fact_ids: fact_id_list,
    };
    proof {
        let v = spec_out->Ok_0;
        assert(!chunk_on || first_blank_role(tv, tv.len() as int) is None);
        assert(has_answer == (views_of(answers@).contains(sid@) || any_answer(tv, 0, tv.len() as int)));
        assert(out@.memories =~= v.memories);
        assert(out@.relevant =~= v.relevant);
        assert(out@.chunk_ids =~= v.chunk_ids);
        assert(out@.fact_ids =~= v.fact_ids);
    }
    Ok(out)
}

fn contains_string_of(v: &Vec<String>, s: &String) -> (b: bool)
    ensures
        b == views_of(v@).contains(s@),
{
    let t = chars_of(s.as_str());
    let mut i: usize = 0;
    while i < v.len()
        invariant
            i <= v.len(),
            t@ == s@,
            forall|k: int| 0 <= k < i ==> v@[k]@ != s@,
        decreases v.len() - i,
    {
        if chars_eq(&chars_of(v[i].as_str()), &t) {
            proof {
                assert(views_of(v@)[i as int] == s@);
            }
            return true;
        }
        i += 1;
    }
    proof {
        if views_of(v@).contains(s@) {
            let k = choose|k: int| 0 <= k < views_of(v@).len() && views_of(v@)[k] == s@;
            assert(v@[k]@ == s@);
        }
    }
    false
}


// ---------------------------------------------------------------------------
// Questions
// ---------------------------------------------------------------------------

pub open spec fn question_id_of(inst: JsonValue, idx: nat) -> Seq<char> {
    match string_field(inst, seq!["question_id"@, "id"@]) {
        Some(q) => q,
        None => "longmemeval-"@ + decimal(idx),
    }
}

pub open spec fn question_type_of(inst: JsonValue) -> Seq<char> {
    match string_field(inst, seq!["question_type"@, "category"@]) {
        Some(q) => q,
        None => "unknown"@,
    }
}

/// The id of session `si`: the matching entry of the session ids as text,
/// else `session-<si>`.
pub open spec fn session_id_of(sids: Seq<JsonValue>, si: nat) -> Seq<char> {
    if si < sids.len() && compact_string(sids[si as int]) is Some {
        compact_string(sids[si as int])->0
    } else {
        "session-"@ + decimal(si)
    }
}

/// The first `n` items as text, leaving out those that are not strings,
/// numbers or booleans.
pub open spec fn compact_list(items: Seq<JsonValue>, n: int) -> Seq<Seq<char>>
    decreases n,
{
    if n <= 0 {
        Seq::empty()
    } else {
        compact_list(items, n - 1) + match compact_string(items[n - 1]) {
            Some(s) => seq![s],
            None => Seq::empty(),
        }
    }
}

pub open spec fn session_prefix(qid: Seq<char>, si: nat, sid: Seq<char>) -> Seq<char> {
    qid + ":s"@ + decimal(si) + ":"@ + sid
}

/// The conversions of the first `n` sessions, in order, leaving out those
/// that are not arrays or keep no turn; the first chunking failure ends it.
pub open spec fn sessions_run(
    mode: IngestMode,
    sessions: Seq<JsonValue>,
    sids: Seq<JsonValue>,
    qid: Seq<char>,
    scope: Seq<char>,
    qtype: Seq<char>,
    answers: Seq<Seq<char>>,
    n: int,
) -> Result<Seq<SessionOutView>, Seq<char>>
    decreases n,
{
    if n <= 0 {
        Ok(Seq::empty())
    } else {
        match sessions_run(mode, sessions, sids, qid, scope, qtype, answers, n - 1) {
            Err(e) => Err(e),
            Ok(outs) => {
                let si = (n - 1) as nat;
                let sid = session_id_of(sids, si);
                let prefix = session_prefix(qid, si, sid);
                match sessions[n - 1] {
                    JsonValue::Array(turns) => {
                        let ts = converted_turns(turns@, prefix, turns@.len() as int);
                        if ts.len() == 0 {
                            Ok(outs)
                        } else {
                            match session_out(mode, ts, prefix, scope, qtype, sid, answers) {
                                Err(e) => Err(e),
                                Ok(o) => Ok(outs.push(o)),
                            }
                        }
                    },
                    _ => Ok(outs),
                }
            },
        }
    }
}

pub open spec fn outs_memories(outs: Seq<SessionOutView>, n: int) -> Seq<EvalMemoryView>
    decreases n,
{
    if n <= 0 {
        Seq::empty()
    } else {
        outs_memories(outs, n - 1) + outs[n - 1].memories
    }
}

pub open spec fn outs_relevant(outs: Seq<SessionOutView>, n: int) -> Seq<Seq<char>>
    decreases n,
{
    if n <= 0 {
        Seq::empty()
    } else {
        outs_relevant(outs, n - 1) + outs[n - 1].relevant
    }
}

/// The session document id filed last under session id `a`.
pub open spec fn last_doc(outs: Seq<SessionOutView>, a: Seq<char>, n: int) -> Option<Seq<char>>
    decreases n,
{
    if n <= 0 {
        None
    } else if outs[n - 1].session_id == a && outs[n - 1].doc_id is Some {
        outs[n - 1].doc_id
    } else {
        last_doc(outs, a, n - 1)
    }
}

/// The turn (0), chunk (1) or fact (2) ids filed under session id `a`.
pub open spec fn filed_ids(outs: Seq<SessionOutView>, a: Seq<char>, which: nat, n: int) -> Seq<Seq<char>>
    decreases n,
{
    if n <= 0 {
        Seq::empty()
    } else {
        filed_ids(outs, a, which, n - 1) + if outs[n - 1].session_id == a {
            if which == 0 {
                outs[n - 1].turn_ids
            } else if which == 1 {
                outs[n - 1].chunk_ids
            } else {
                outs[n - 1].fact_ids
            }
        } else {
            Seq::empty()
        }
    }
}

/// The ids that stand for an answer session when no turn marked an answer.
pub open spec fn fallback_ids(outs: Seq<SessionOutView>, mode: IngestMode, a: Seq<char>) -> Seq<Seq<char>> {
    let n = outs.len() as int;
    (if doc_mode(mode) && last_doc(outs, a, n) is Some {
        seq![last_doc(outs, a, n)->0]
    } else {
        Seq::empty()
    }) + (if turn_mode(mode) {
        filed_ids(outs, a, 0, n)
    } else {
        Seq::empty()
    }) + (if mode is KeyFact {
        filed_ids(outs, a, 2, n)
    } else {
        Seq::empty()
    }) + (if mode is SessionChunk {
        filed_ids(outs, a, 1, n)
    } else {
        Seq::empty()
    })
}

pub open spec fn fallback_all(outs: Seq<SessionOutView>, mode: IngestMode, answers: Seq<Seq<char>>, n: int) -> Seq<
    Seq<char>,
>
    decreases n,
{
    if n <= 0 {
        Seq::empty()
    } else {
        fallback_all(outs, mode, answers, n - 1) + fallback_ids(outs, mode, answers[n - 1])
    }
}

pub open spec fn is_abstention(qid: Seq<char>) -> bool {
    qid.len() >= 4 && qid.subrange(qid.len() - 4, qid.len() as int) == "_abs"@
}

/// What a question contributes: the memories of its sessions and, unless it
/// has no evidence and is not an abstention question, its query.
pub struct InstanceOutView {
    pub memories: Seq<EvalMemoryView>,
    pub query: Option<EvalQueryView>,
}

/// The conversion of question `idx`. The query's relevant ids are the ids
/// its sessions marked relevant or, when there are none, those filed under
/// its answer sessions, in order and without repeats; none for an
/// abstention question (`..._abs`).
pub open spec fn instance_out(inst: JsonValue, idx: nat, mode: IngestMode) -> Result<InstanceOutView, Seq<char>> {
    let qid = question_id_of(inst, idx);
    let qtype = question_type_of(inst);
    match string_field(inst, seq!["question"@]) {
        None => Err("LongMemEval instance "@ + qid + " has no question"@),
        Some(question) => match as_array(json_get(inst, "haystack_sessions"@)) {
            None => Err("LongMemEval instance "@ + qid + " has no haystack_sessions"@),
            Some(sessions) => {
                let sids = match as_array(json_get(inst, "haystack_session_ids"@)) {
                    Some(v) => v,
                    None => Seq::empty(),
                };
                let answer_items = match as_array(json_get(inst, "answer_session_ids"@)) {
                    Some(v) => v,
                    None => Seq::empty(),
                };
                let answers = compact_list(answer_items, answer_items.len() as int);
                let scope = "longmemeval:"@ + qid;
                match sessions_run(mode, sessions, sids, qid, scope, qtype, answers, sessions.len() as int) {
                    Err(e) => Err(e),
                    Ok(outs) => {
                        let primary = outs_relevant(outs, outs.len() as int);
                        let ids = if primary.len() > 0 {
                            primary
                        } else {
                            fallback_all(outs, mode, answers, answers.len() as int)
                        };
                        let abstention = is_abstention(qid);
                        let memories = outs_memories(outs, outs.len() as int);
                        if ids.len() == 0 && !abstention {
                            Ok(InstanceOutView { memories, query: None })
                        } else {
                            Ok(
                                InstanceOutView {
                                    memories,
                                    query: Some(
                                        EvalQueryView {
                                            id: qid,
                                            query: question,
                                            scope: Some(scope),
                                            relevant_ids: if abstention {
                                                Seq::empty()
                                            } else {
                                                sorted_strings(ids.to_set())
                                            },
                                            category: if abstention {
                                                "abstention"@
                                            } else {
                                                qtype
                                            },
                                        },
                                    ),
                                },
                            )
                        }
                    },
                }
            },
        },
    }
}


pub open spec fn out_views(v: Seq<SessionOut>) -> Seq<SessionOutView> {
    v.map_values(|o: SessionOut| o@)
}

fn copy_strings(v: &Vec<String>) -> (out: Vec<String>)
    ensures
        views_of(out@) == views_of(v@),
{
    let mut out: Vec<String> = Vec::new();
    let mut i: usize = 0;
    while i < v.len()
        invariant
            i <= v.len(),
            views_of(out@) == views_of(v@).take(i as int),
        decreases v.len() - i,
    {
        push_id(&mut out, string_from(v[i].as_str()));
        proof {
            assert(views_of(v@).take(i + 1) =~= views_of(v@).take(i as int).push(v@[i as int]@));
        }
        i += 1;
    }
    proof {
        assert(views_of(v@).take(i as int) =~= views_of(v@));
    }
    out
}

pub(crate) fn copy_memory(m: &EvalMemory) -> (r: EvalMemory)
    ensures
        r@ == m@,
{
    EvalMemory {
        id: string_from(m.id.as_str()),
        scope: string_from(m.scope.as_str()),
        subject: match &m.subject {
            Some(s) => Some(string_from(s.as_str())),
            None => None,
        },
        text: string_from(m.text.as_str()),
        markers: copy_strings(&m.markers),
        kind: string_from(m.kind.as_str()),
        status: string_from(m.status.as_str()),
        trust: string_from(m.trust.as_str()),
        sensitivity: string_from(m.sensitivity.as_str()),
    }
}

pub(crate) fn append_memories(dst: &mut Vec<EvalMemory>, src: &Vec<EvalMemory>)
    ensures
        memory_views(final(dst)@) == memory_views(old(dst)@) + memory_views(src@),
{
    let mut i: usize = 0;
    proof {
        assert(memory_views(src@).take(0) =~= Seq::<EvalMemoryView>::empty());
        assert(memory_views(dst@) =~= memory_views(old(dst)@) + memory_views(src@).take(0));
    }
    while i < src.len()
        invariant
            i <= src.len(),
            memory_views(dst@) == memory_views(old(dst)@) + memory_views(src@).take(i as int),
        decreases src.len() - i,
    {
        push_memory(dst, copy_memory(&src[i]));
        proof {
            assert(memory_views(src@).take(i + 1) =~= memory_views(src@).take(i as int).push(src@[i as int]@));
            assert(memory_views(dst@) =~= memory_views(old(dst)@) + memory_views(src@).take(i + 1));
        }
        i += 1;
    }
    proof {
        assert(memory_views(src@).take(i as int) =~= memory_views(src@));
    }
}

fn append_strings(dst: &mut Vec<String>, src: &Vec<String>)
    ensures
        views_of(final(dst)@) == views_of(old(dst)@) + views_of(src@),
{
    let mut i: usize = 0;
    proof {
        assert(views_of(dst@) =~= views_of(old(dst)@) + views_of(src@).take(0));
    }
    while i < src.len()
        invariant
            i <= src.len(),
            views_of(dst@) == views_of(old(dst)@) + views_of(src@).take(i as int),
        decreases src.len() - i,
    {
        push_id(dst, string_from(src[i].as_str()));
        proof {
            assert(views_of(src@).take(i + 1) =~= views_of(src@).take(i as int).push(src@[i as int]@));
            assert(views_of(dst@) =~= views_of(old(dst)@) + views_of(src@).take(i + 1));
        }
        i += 1;
    }
    proof {
        assert(views_of(src@).take(i as int) =~= views_of(src@));
    }
}

fn collect_memories(outs: &Vec<SessionOut>) -> (mems: Vec<EvalMemory>)
    ensures
        memory_views(mems@) == outs_memories(out_views(outs@), outs@.len() as int),
{
    let ghost ov = out_views(outs@);
    let mut mems: Vec<EvalMemory> = Vec::new();
    let mut i: usize = 0;
    proof {
        assert(memory_views(mems@) =~= Seq::<EvalMemoryView>::empty());
    }
    while i < outs.len()
        invariant
            i <= outs@.len(),
            ov == out_views(outs@),
            memory_views(mems@) == outs_memories(ov, i as int),
        decreases outs@.len() - i,
    {
        proof {
            assert(ov[i as int] == outs@[i as int]@);
        }
        append_memories(&mut mems, &outs[i].memories);
        i += 1;
    }
    mems
}

fn collect_relevant(outs: &Vec<SessionOut>) -> (ids: Vec<String>)
    ensures
        views_of(ids@) == outs_relevant(out_views(outs@), outs@.len() as int),
{
    let ghost ov = out_views(outs@);
    let mut ids: Vec<String> = Vec::new();
    let mut i: usize = 0;
    proof {
        assert(views_of(ids@) =~= Seq::<Seq<char>>::empty());
    }
    while i < outs.len()
        invariant
            i <= outs@.len(),
            ov == out_views(outs@),
            views_of(ids@) == outs_relevant(ov, i as int),
        decreases outs@.len() - i,
    {
        proof {
            assert(ov[i as int] == outs@[i as int]@);
        }
        append_strings(&mut ids, &outs[i].relevant);
        i += 1;
    }
    ids
}

fn last_doc_exec(outs: &Vec<SessionOut>, a: &String) -> (r: Option<String>)
    ensures
        match last_doc(out_views(outs@), a@, outs@.len() as int) {
            Some(d) => r matches Some(s) && s@ == d,
            None => r is None,
        },
{
    let ghost ov = out_views(outs@);
    let mut i: usize = outs.len();
    while i > 0
        invariant
            i <= outs@.len(),
            ov == out_views(outs@),
            last_doc(ov, a@, outs@.len() as int) == last_doc(ov, a@, i as int),
        decreases i,
    {
        let o = &outs[i - 1];
        proof {
            assert(ov[i - 1] == o@);
        }
        if str_eq_s(&o.session_id, a) {
            match &o.doc_id {
                Some(d) => {
                    return Some(string_from(d.as_str()));
                },
                None => {},
            }
        }
        i -= 1;
    }
    None
}

pub(crate) fn str_eq_s(a: &String, b: &String) -> (r: bool)
    ensures
        r == (a@ == b@),
{
    chars_eq(&chars_of(a.as_str()), &chars_of(b.as_str()))
}

fn filed_exec(outs: &Vec<SessionOut>, a: &String, which: usize) -> (ids: Vec<String>)
    requires
        which <= 2,
    ensures
        views_of(ids@) == filed_ids(out_views(outs@), a@, which as nat, outs@.len() as int),
{
    let ghost ov = out_views(outs@);
    let mut ids: Vec<String> = Vec::new();
    let mut i: usize = 0;
    proof {
        assert(views_of(ids@) =~= Seq::<Seq<char>>::empty());
    }
    while i < outs.len()
        invariant
            i <= outs@.len(),
            which <= 2,
            ov == out_views(outs@),
            views_of(ids@) == filed_ids(ov, a@, which as nat, i as int),
        decreases outs@.len() - i,
    {
        let o = &outs[i];
        proof {
            assert(ov[i as int] == o@);
        }
        let ghost before = views_of(ids@);
        if str_eq_s(&o.session_id, a) {
            if which == 0 {
                append_strings(&mut ids, &o.turn_ids);
            } else if which == 1 {
                append_strings(&mut ids, &o.chunk_ids);
            } else {
                append_strings(&mut ids, &o.fact_ids);
            }
        } else {
            proof {
                assert(before =~= before + Seq::<Seq<char>>::empty());
            }
        }
        i += 1;
    }
    ids
}

fn fallback_exec(outs: &Vec<SessionOut>, mode: IngestMode, answers: &Vec<String>) -> (ids: Vec<String>)
    ensures
        views_of(ids@) == fallback_all(out_views(outs@), mode, views_of(answers@), answers@.len() as int),
{
    let ghost ov = out_views(outs@);
    let ghost av = views_of(answers@);
    let mut ids: Vec<String> = Vec::new();
    let mut k: usize = 0;
    proof {
        assert(views_of(ids@) =~= Seq::<Seq<char>>::empty());
        assert(ov.len() == outs@.len());
    }
    while k < answers.len()
        invariant
            k <= answers@.len(),
            ov == out_views(outs@),
            ov.len() == outs@.len(),
            av == views_of(answers@),
            views_of(ids@) == fallback_all(ov, mode, av, k as int),
        decreases answers@.len() - k,
    {
        let a = &answers[k];
        proof {
            assert(av[k as int] == a@);
        }
        let ghost before = views_of(ids@);
        let doc_on = match mode {
            IngestMode::SessionDoc | IngestMode::SessionPlusTurn => true,
            _ => false,
        };
        if doc_on {
            match last_doc_exec(outs, a) {
                Some(d) => push_id(&mut ids, d),
                None => {},
            }
        }
        let ghost after_doc = views_of(ids@);
        match mode {
            IngestMode::RawTurn | IngestMode::SessionPlusTurn => {
                let t = filed_exec(outs, a, 0);
                append_strings(&mut ids, &t);
            },
            _ => {},
        }
        let ghost after_turns = views_of(ids@);
        match mode {
            IngestMode::KeyFact => {
                let t = filed_exec(outs, a, 2);
                append_strings(&mut ids, &t);
            },
            _ => {},
        }
        let ghost after_facts = views_of(ids@);
        match mode {
            IngestMode::SessionChunk => {
                let t = filed_exec(outs, a, 1);
                append_strings(&mut ids, &t);
            },
            _ => {},
        }
        proof {
            let f = fallback_ids(ov, mode, a@);
            assert(views_of(ids@) =~= before + f);
        }
        k += 1;
    }
    ids
}

pub(crate) fn sorted_unique(v: &Vec<String>) -> (out: Vec<String>)
    ensures
        views_of(out@) == sorted_strings(views_of(v@).to_set()),
{
    let out = crate::text::sort_dedup_strings(v);
    proof {
        lemma_sorted_strings_is(views_of(out@));
    }
    out
}


proof fn lemma_converted_safe(turns: Seq<JsonValue>, prefix: Seq<char>, n: int)
    ensures
        contents_safe(converted_turns(turns, prefix, n)),
    decreases n,
{
    if n > 0 {
        lemma_converted_safe(turns, prefix, n - 1);
    }
}

proof fn lemma_sessions_err_stays(
    mode: IngestMode,
    sessions: Seq<JsonValue>,
    sids: Seq<JsonValue>,
    qid: Seq<char>,
    scope: Seq<char>,
    qtype: Seq<char>,
    answers: Seq<Seq<char>>,
    m: int,
    n: int,
)
    requires
        0 <= m <= n,
    ensures
        sessions_run(mode, sessions, sids, qid, scope, qtype, answers, m) is Err ==> sessions_run(
            mode,
            sessions,
            sids,
            qid,
            scope,
            qtype,
            answers,
            n,
        ) == sessions_run(mode, sessions, sids, qid, scope, qtype, answers, m),
    decreases n - m,
{
    if m < n {
        lemma_sessions_err_stays(mode, sessions, sids, qid, scope, qtype, answers, m, n - 1);
    }
}

fn session_id_exec(sids: &Vec<JsonValue>, si: usize) -> (s: String)
    ensures
        s@ == session_id_of(sids@, si as nat),
{
    if si < sids.len() {
        match compact(&sids[si]) {
            Some(t) => {
                return t;
            },
            None => {},
        }
    }
    let mut s = string_from("session-");
    push_decimal_str(&mut s, si as u64);
    s
}

fn compact_list_exec(items: &Vec<JsonValue>) -> (out: Vec<String>)
    ensures
        views_of(out@) == compact_list(items@, items@.len() as int),
{
    let mut out: Vec<String> = Vec::new();
    let mut i: usize = 0;
    proof {
        assert(views_of(out@) =~= Seq::<Seq<char>>::empty());
    }
    while i < items.len()
        invariant
            i <= items@.len(),
            views_of(out@) == compact_list(items@, i as int),
        decreases items@.len() - i,
    {
        let ghost before = views_of(out@);
        match compact(&items[i]) {
            Some(t) => push_id(&mut out, t),
            None => {},
        }
        proof {
            assert(views_of(out@) =~= compact_list(items@, i + 1));
        }
        i += 1;
    }
    out
}

pub(crate) fn array_member<'a>(v: &'a JsonValue, key: &str) -> (r: Option<&'a Vec<JsonValue>>)
    ensures
        match as_array(json_get(*v, key@)) {
            Some(items) => r matches Some(x) && x@ == items,
            None => r is None,
        },
{
    match get_member(v, key) {
        Some(JsonValue::Array(items)) => Some(items),
        _ => None,
    }
}

fn ends_with_abs(q: &String) -> (b: bool)
    ensures
        b == is_abstention(q@),
{
    let c = chars_of(q.as_str());
    let n = c.len();
    if n < 4 {
        return false;
    }
    let r = c[n - 4] == '_' && c[n - 3] == 'a' && c[n - 2] == 'b' && c[n - 1] == 's';
    proof {
        reveal_strlit("_abs");
        let tail = q@.subrange(n - 4, n as int);
        if r {
            assert(tail =~= "_abs"@);
        } else {
            if tail == "_abs"@ {
                assert(tail[0] == '_' && tail[1] == 'a' && tail[2] == 'b' && tail[3] == 's');
            }
        }
    }
    r
}

/// The memories and query of a question (see `instance_out`).
pub fn convert_instance(inst: &JsonValue, idx: usize, mode: IngestMode) -> (r: Result<
    (Vec<EvalMemory>, Option<EvalQuery>),
    MgeError,
>)
    ensures
        match instance_out(*inst, idx as nat, mode) {
            Ok(v) => r matches Ok(p) && memory_views(p.0@) == v.memories && match v.query {
                Some(q) => p.1 matches Some(x) && x@ == q,
                None => p.1 is None,
            },
            Err(e) => r matches Err(MgeError::InvalidInput(m)) && m@ == e,
        },
{
    let qid = match string_field2(inst, "question_id", "id") {
        Some(q) => q,
        None => {
            let mut s = string_from("longmemeval-");
            push_decimal_str(&mut s, idx as u64);
            s
        },
    };
    let qtype = match string_field2(inst, "question_type", "category") {
        Some(q) => q,
        None => string_from("unknown"),
    };
    let question = match string_field1(inst, "question") {
        Some(q) => q,
        None => {
            let mut m = string_from("LongMemEval instance ");
            push_str(&mut m, qid.as_str());
            push_str(&mut m, " has no question");
            return Err(MgeError::InvalidInput(m));
        },
    };
    let sessions = match array_member(inst, "haystack_sessions") {
        Some(items) => items,
        None => {
            let mut m = string_from("LongMemEval instance ");
            push_str(&mut m, qid.as_str());
            push_str(&mut m, " has no haystack_sessions");
            return Err(MgeError::InvalidInput(m));
        },
    };
    let no_items: Vec<JsonValue> = Vec::new();
    let sids = match array_member(inst, "haystack_session_ids") {
        Some(items) => items,
        None => &no_items,
    };
    let answers = match array_member(inst, "answer_session_ids") {
        Some(items) => compact_list_exec(items),
        None => compact_list_exec(&no_items),
    };
    let mut scope = string_from("longmemeval:");
    push_str(&mut scope, qid.as_str());
    let ghost av = views_of(answers@);
    let mut outs: Vec<SessionOut> = Vec::new();
    let mut si: usize = 0;
    proof {
        assert(out_views(outs@) =~= Seq::<SessionOutView>::empty());
    }
    while si < sessions.len()
        invariant
            si <= sessions@.len(),
            av == views_of(answers@),
            sessions_run(mode, sessions@, sids@, qid@, scope@, qtype@, av, si as int) == Ok::<
                Seq<SessionOutView>,
                Seq<char>,
            >(out_views(outs@)),
            qid@ == question_id_of(*inst, idx as nat),
            qtype@ == question_type_of(*inst),
            string_field(*inst, seq!["question"@]) == Some(question@),
            as_array(json_get(*inst, "haystack_sessions"@)) == Some(sessions@),
            sids@ == match as_array(json_get(*inst, "haystack_session_ids"@)) {
                Some(v) => v,
                None => Seq::<JsonValue>::empty(),
            },
            av == ({
                let answer_items = match as_array(json_get(*inst, "answer_session_ids"@)) {
                    Some(v) => v,
                    None => Seq::<JsonValue>::empty(),
                };
                compact_list(answer_items, answer_items.len() as int)
            }),
            scope@ == "longmemeval:"@ + qid@,
        decreases sessions@.len() - si,
    {
        let sid = session_id_exec(sids, si);
        let mut prefix = string_from(qid.as_str());
        push_str(&mut prefix, ":s");
        push_decimal_str(&mut prefix, si as u64);
        push_str(&mut prefix, ":");
        push_str(&mut prefix, sid.as_str());
        proof {
            assert(prefix@ =~= session_prefix(qid@, si as nat, sid@));
        }
        match &sessions[si] {
            JsonValue::Array(turns) => {
                let ts = convert_turns(turns, &prefix);
                proof {
                    lemma_converted_safe(turns@, prefix@, turns@.len() as int);
                }
                if ts.len() > 0 {
                    match convert_session(mode, &ts, &prefix, &scope, &qtype, &sid, &answers) {
                        Err(e) => {
                            proof {
                                lemma_sessions_err_stays(
                                    mode,
                                    sessions@,
                                    sids@,
                                    qid@,
                                    scope@,
                                    qtype@,
                                    av,
                                    si + 1,
                                    sessions@.len() as int,
                                );
                            }
                            return Err(e);
                        },
                        Ok(o) => {
                            let ghost before = outs@;
                            outs.push(o);
                            proof {
                                assert(out_views(outs@) =~= out_views(before).push(o@));
                            }
                        },
                    }
                }
            },
            _ => {},
        }
        si += 1;
    }
    let ghost ov = out_views(outs@);
    let memories = collect_memories(&outs);
    let primary = collect_relevant(&outs);
    let ids = if primary.len() > 0 {
        primary
    } else {
        fallback_exec(&outs, mode, &answers)
    };
    let abstention = ends_with_abs(&qid);
    if ids.len() == 0 && !abstention {
        return Ok((memories, None));
    }
    let relevant_ids = if abstention {
        Vec::new()
    } else {
        sorted_unique(&ids)
    };
    let category = if abstention {
        string_from("abstention")
    } else {
        qtype
    };
    let query = EvalQuery { id: qid, query: question, scope: Some(scope), relevant_ids, category };
    proof {
        if abstention {
            assert(views_of(query.relevant_ids@) =~= Seq::<Seq<char>>::empty());
        }
    }
    Ok((memories, Some(query)))
}


// ---------------------------------------------------------------------------
// The benchmark
// ---------------------------------------------------------------------------

/// The conversion after the first `n` questions: memories, queries, the
/// number of questions skipped for want of evidence, and whether a limit
/// was reached (which ends the conversion).
pub struct LongMemEvalState {
    pub memories: Seq<EvalMemoryView>,
    pub queries: Seq<EvalQueryView>,
    pub skipped: nat,
    pub done: bool,
}

pub open spec fn longmemeval_run(
    items: Seq<JsonValue>,
    mode: IngestMode,
    max_memories: Option<usize>,
    max_queries: Option<usize>,
    n: int,
) -> Result<LongMemEvalState, Seq<char>>
    decreases n,
{
    if n <= 0 {
        Ok(LongMemEvalState { memories: Seq::empty(), queries: Seq::empty(), skipped: 0, done: false })
    } else {
        match longmemeval_run(items, mode, max_memories, max_queries, n - 1) {
            Err(e) => Err(e),
            Ok(st) => if st.done {
                Ok(st)
            } else {
                match instance_out(items[n - 1], (n - 1) as nat, mode) {
                    Err(e) => Err(e),
                    Ok(o) => {
                        let memories = st.memories + o.memories;
                        match o.query {
                            None => Ok(
                                LongMemEvalState {
                                    memories,
                                    queries: st.queries,
                                    skipped: st.skipped + 1,
                                    done: false,
                                },
                            ),
                            Some(q) => {
                                let queries = st.queries.push(q);
                                Ok(
                                    LongMemEvalState {
                                        memories,
                                        queries,
                                        skipped: st.skipped,
                                        done: (max_queries matches Some(m) && queries.len() >= m) || (
                                        max_memories matches Some(m) && memories.len() >= m),
                                    },
                                )
                            },
                        }
                    },
                }
            },
        }
    }
}

pub open spec fn dash_to_underscore(c: char) -> char {
    if c == '-' {
        '_'
    } else {
        c
    }
}

pub open spec fn underscored(s: Seq<char>) -> Seq<char> {
    s.map_values(|c: char| dash_to_underscore(c))
}

/// The dataset converted from a LongMemEval JSON array: each question in
/// turn (see `instance_out`) until the query or memory limit is reached.
pub open spec fn longmemeval_dataset(
    value: JsonValue,
    source: Seq<char>,
    max_memories: Option<usize>,
    max_queries: Option<usize>,
    mode: IngestMode,
) -> Result<crate::eval::EvalDatasetView, Seq<char>> {
    match value {
        JsonValue::Array(items) => match longmemeval_run(
            items@,
            mode,
            max_memories,
            max_queries,
            items@.len() as int,
        ) {
            Err(e) => Err(e),
            Ok(st) => Ok(
                crate::eval::EvalDatasetView {
                    name: "longmemeval_"@ + underscored(ingest_mode_name(mode)),
                    source: source + "; ingest_mode: "@ + ingest_mode_name(mode)
                        + "; skipped queries without evidence: "@ + decimal(st.skipped),
                    memories: st.memories,
                    queries: st.queries,
                },
            ),
        },
        _ => Err("LongMemEval input must be a JSON array"@),
    }
}

proof fn lemma_run_stays(
    items: Seq<JsonValue>,
    mode: IngestMode,
    max_memories: Option<usize>,
    max_queries: Option<usize>,
    m: int,
    n: int,
)
    requires
        0 <= m <= n,
    ensures
        (longmemeval_run(items, mode, max_memories, max_queries, m) is Err || (longmemeval_run(
            items,
            mode,
            max_memories,
            max_queries,
            m,
        ) matches Ok(st) && st.done)) ==> longmemeval_run(items, mode, max_memories, max_queries, n)
            == longmemeval_run(items, mode, max_memories, max_queries, m),
    decreases n - m,
{
    if m < n {
        lemma_run_stays(items, mode, max_memories, max_queries, m, n - 1);
    }
}

fn underscored_name(s: &str) -> (out: String)
    ensures
        out@ == underscored(s@),
{
    let c = chars_of(s);
    let mut v: Vec<char> = Vec::new();
    let mut i: usize = 0;
    while i < c.len()
        invariant
            i <= c.len(),
            c@ == s@,
            v@ == underscored(c@.take(i as int)),
        decreases c.len() - i,
    {
        let ch = if c[i] == '-' {
            '_'
        } else {
            c[i]
        };
        v.push(ch);
        proof {
            assert(underscored(c@.take(i + 1)) =~= underscored(c@.take(i as int)).push(ch));
        }
        i += 1;
    }
    proof {
        assert(c@.take(i as int) =~= c@);
    }
    string_from_chars(&v)
}

/// Converts a LongMemEval JSON array into an evaluation dataset (see
/// `longmemeval_dataset`).
pub fn convert_longmemeval(
    value: &JsonValue,
    source: String,
    max_memories: Option<usize>,
    max_queries: Option<usize>,
    ingest_mode: IngestMode,
) -> (r: Result<EvalDataset, MgeError>)
    ensures
        match longmemeval_dataset(*value, source@, max_memories, max_queries, ingest_mode) {
            Ok(d) => r matches Ok(x) && x@ == d,
            Err(e) => r matches Err(MgeError::InvalidInput(m)) && m@ == e,
        },
{
    let items = match value {
        JsonValue::Array(items) => items,
        _ => {
            return Err(MgeError::InvalidInput(string_from("LongMemEval input must be a JSON array")));
        },
    };
    let mut memories: Vec<EvalMemory> = Vec::new();
    let mut queries: Vec<EvalQuery> = Vec::new();
    let mut skipped: usize = 0;
    let mut done = false;
    let mut i: usize = 0;
    proof {
        assert(memory_views(memories@) =~= Seq::<EvalMemoryView>::empty());
        assert(query_views(queries@) =~= Seq::<EvalQueryView>::empty());
    }
    while i < items.len() && !done
        invariant
            i <= items@.len(),
            skipped <= i,
            *value == JsonValue::Array(*items),
            longmemeval_run(items@, ingest_mode, max_memories, max_queries, i as int) == Ok::<
                LongMemEvalState,
                Seq<char>,
            >(
                LongMemEvalState {
                    memories: memory_views(memories@),
                    queries: query_views(queries@),
                    skipped: skipped as nat,
                    done,
                },
            ),
        decreases items@.len() - i,
    {
        match convert_instance(&items[i], i, ingest_mode) {
            Err(e) => {
                proof {
                    lemma_run_stays(
                        items@,
                        ingest_mode,
                        max_memories,
                        max_queries,
                        i + 1,
                        items@.len() as int,
                    );
                }
                return Err(e);
            },
            Ok((mems, query)) => {
                append_memories(&mut memories, &mems);
                match query {
                    None => {
                        skipped += 1;
                    },
                    Some(q) => {
                        let ghost before = queries@;
                        let ghost qv = q@;
                        queries.push(q);
                        proof {
                            assert(query_views(queries@) =~= query_views(before).push(qv));
                        }
                        let qlimit = match max_queries {
                            Some(m) => queries.len() >= m,
                            None => false,
                        };
                        let mlimit = match max_memories {
                            Some(m) => memories.len() >= m,
                            None => false,
                        };
                        done = qlimit || mlimit;
                    },
                }
            },
        }
        i += 1;
    }
    proof {
        lemma_run_stays(items@, ingest_mode, max_memories, max_queries, i as int, items@.len() as int);
    }
    let mode_name = underscored_name(ingest_mode.as_str());
    let mut name = string_from("longmemeval_");
    push_str(&mut name, mode_name.as_str());
    let mut src = string_from(source.as_str());
    push_str(&mut src, "; ingest_mode: ");
    push_str(&mut src, ingest_mode.as_str());
    push_str(&mut src, "; skipped queries without evidence: ");
    push_decimal_str(&mut src, skipped as u64);
    let d = EvalDataset { name, source: src, memories, queries };
    proof {
        let spec_d = longmemeval_dataset(*value, source@, max_memories, max_queries, ingest_mode)->Ok_0;
        assert(d@.name =~= spec_d.name);
        assert(d@.source =~= spec_d.source);
    }
    Ok(d)
}

} // verus!

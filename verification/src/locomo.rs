//! Conversion of the LoCoMo benchmark (a JSON array of conversations with
//! question/answer items that cite dialog turns) into the neutral evaluation
//! dataset.
use vstd::prelude::*;
use crate::errors::MgeError;
use crate::eval::{
    EvalDataset, EvalDatasetView, EvalMemory, EvalMemoryView, EvalQuery, EvalQueryView, memory_views,
    query_views, safe_marker, safe_marker_value, safe_memory_text, is_safe_memory_text,
};
use crate::ingestion::{utf8_len, utf8_length};
use crate::longmemeval::{
    append_memories, array_member, as_array, compact, compact_string, get_member, json_get,
    push_id, push_memory, sorted_strings, sorted_unique, string_field, string_field2,
    string_field3, string_field4, str_eq_s,
};
use crate::models::JsonValue;
use crate::text::{
    chars_eq, chars_of, decimal, push_decimal_str, push_str, string_from, string_from_chars,
    trim_chars, trim_ws, views_of, TrimKind,
};

verus! {

// ---------------------------------------------------------------------------
// Dialog turns
// ---------------------------------------------------------------------------

/// A dialog turn found in a conversation: its dialog id and its memory.
pub struct DialogEntryView {
    pub dialog_id: Seq<char>,
    pub memory: EvalMemoryView,
}

/// Members of a conversation that hold no dialog turns.
pub open spec fn skipped_key(k: Seq<char>) -> bool {
    k == "qa"@ || k == "qa_pairs"@ || k == "event_summary"@ || k == "summary"@
}

pub open spec fn dialog_text(v: JsonValue) -> Option<Seq<char>> {
    string_field(v, seq!["text"@, "content"@, "message"@, "utterance"@])
}

pub open spec fn dialog_speaker(v: JsonValue) -> Seq<char> {
    match string_field(v, seq!["speaker"@, "role"@, "name"@]) {
        Some(s) => s,
        None => "speaker"@,
    }
}

pub open spec fn dialog_id_of(v: JsonValue, path: Seq<char>) -> Seq<char> {
    match string_field(v, seq!["dialog_id"@, "dia_id"@, "id"@, "turn_id"@]) {
        Some(s) => s,
        None => path,
    }
}

/// The memory of a dialog turn.
pub open spec fn dialog_memory(
    conv: Seq<char>,
    scope: Seq<char>,
    speaker: Seq<char>,
    dialog_id: Seq<char>,
    text: Seq<char>,
) -> EvalMemoryView {
    EvalMemoryView {
        id: conv + ":"@ + dialog_id,
        scope,
        subject: Some("locomo "@ + speaker + " "@ + dialog_id),
        text,
        markers: seq![
            "benchmark:locomo"@,
            "speaker:"@ + safe_marker(speaker),
            "dialog:"@ + safe_marker(dialog_id),
        ],
        kind: "project_fact"@,
        status: "active"@,
        trust: "user_confirmed"@,
        sensitivity: "private"@,
    }
}

/// The dialog turns of a value found at `path`: an object with text worth
/// storing is a turn; otherwise the search goes into array items (path
/// `<path>.<index>`) and object members (path `<path>.<key>`), skipping
/// question and summary members.
pub open spec fn dialog_entries(v: JsonValue, path: Seq<char>, conv: Seq<char>, scope: Seq<char>) -> Seq<
    DialogEntryView,
>
    decreases v, 0nat,
{
    match v {
        JsonValue::Array(items) => item_entries(items@, path, conv, scope, items@.len() as int),
        JsonValue::Object(es) => {
            if dialog_text(v) is Some && safe_memory_text(dialog_text(v)->0) {
                let d = dialog_id_of(v, path);
                seq![
                    DialogEntryView {
                        dialog_id: d,
                        memory: dialog_memory(conv, scope, dialog_speaker(v), d, dialog_text(v)->0),
                    },
                ]
            } else {
                member_entries(es@, path, conv, scope, es@.len() as int)
            }
        },
        _ => Seq::empty(),
    }
}

pub open spec fn item_entries(
    items: Seq<JsonValue>,
    path: Seq<char>,
    conv: Seq<char>,
    scope: Seq<char>,
    n: int,
) -> Seq<DialogEntryView>
    decreases items, 1nat, n,
{
    if n <= 0 || n > items.len() {
        Seq::empty()
    } else {
        item_entries(items, path, conv, scope, n - 1) + dialog_entries(
            items[n - 1],
            path + "."@ + decimal((n - 1) as nat),
            conv,
            scope,
        )
    }
}

pub open spec fn member_entries(
    es: Seq<(String, JsonValue)>,
    path: Seq<char>,
    conv: Seq<char>,
    scope: Seq<char>,
    n: int,
) -> Seq<DialogEntryView>
    decreases es, 1nat, n,
{
    if n <= 0 || n > es.len() {
        Seq::empty()
    } else {
        member_entries(es, path, conv, scope, n - 1) + if skipped_key(es[n - 1].0@) {
            Seq::empty()
        } else {
            dialog_entries(es[n - 1].1, path + "."@ + es[n - 1].0@, conv, scope)
        }
    }
}

pub struct DialogEntry {
    pub dialog_id: String,
    pub memory: EvalMemory,
}

impl View for DialogEntry {
    type V = DialogEntryView;

    open spec fn view(&self) -> DialogEntryView {
        DialogEntryView { dialog_id: self.dialog_id@, memory: self.memory@ }
    }
}

pub open spec fn entry_views(v: Seq<DialogEntry>) -> Seq<DialogEntryView> {
    v.map_values(|e: DialogEntry| e@)
}

fn is_skipped_key(k: &String) -> (b: bool)
    ensures
        b == skipped_key(k@),
{
    let c = chars_of(k.as_str());
    chars_eq(&c, &chars_of("qa")) || chars_eq(&c, &chars_of("qa_pairs")) || chars_eq(
        &c,
        &chars_of("event_summary"),
    ) || chars_eq(&c, &chars_of("summary"))
}

fn push_entry(v: &mut Vec<DialogEntry>, e: DialogEntry)
    ensures
        entry_views(final(v)@) == entry_views(old(v)@).push(e@),
{
    v.push(e);
    proof {
        assert(entry_views(v@) =~= entry_views(old(v)@).push(e@));
    }
}

fn dialog_marker_list(speaker: &String, dialog_id: &String) -> (v: Vec<String>)
    ensures
        views_of(v@) == seq![
            "benchmark:locomo"@,
            "speaker:"@ + safe_marker(speaker@),
            "dialog:"@ + safe_marker(dialog_id@),
        ],
{
    let mut v: Vec<String> = Vec::new();
    v.push(string_from("benchmark:locomo"));
    let mut s = string_from("speaker:");
    push_str(&mut s, safe_marker_value(speaker.as_str()).as_str());
    v.push(s);
    let mut d = string_from("dialog:");
    push_str(&mut d, safe_marker_value(dialog_id.as_str()).as_str());
    v.push(d);
    proof {
        assert(views_of(v@) =~= seq![
            "benchmark:locomo"@,
            "speaker:"@ + safe_marker(speaker@),
            "dialog:"@ + safe_marker(dialog_id@),
        ]);
    }
    v
}

fn make_dialog_memory(conv: &String, scope: &String, speaker: &String, dialog_id: &String, text: String) -> (m:
    EvalMemory)
    ensures
        m@ == dialog_memory(conv@, scope@, speaker@, dialog_id@, text@),
{
    let mut id = string_from(conv.as_str());
    push_str(&mut id, ":");
    push_str(&mut id, dialog_id.as_str());
    let mut subject = string_from("locomo ");
    push_str(&mut subject, speaker.as_str());
    push_str(&mut subject, " ");
    push_str(&mut subject, dialog_id.as_str());
    let m = EvalMemory {
        id,
        scope: string_from(scope.as_str()),
        subject: Some(subject),
        text,
        markers: dialog_marker_list(speaker, dialog_id),
        kind: string_from("project_fact"),
        status: string_from("active"),
        trust: string_from("user_confirmed"),
        sensitivity: string_from("private"),
    };
    proof {
        let g = dialog_memory(conv@, scope@, speaker@, dialog_id@, text@);
        assert(m@.id =~= g.id);
        assert(m@.subject == g.subject) by {
            assert(subject@ =~= "locomo "@ + speaker@ + " "@ + dialog_id@);
        }
    }
    m
}

/// Appends the dialog turns of `v` found at `path`.
fn collect_dialogs(
    v: &JsonValue,
    path: &String,
    conv: &String,
    scope: &String,
    out: &mut Vec<DialogEntry>,
)
    ensures
        entry_views(final(out)@) == entry_views(old(out)@) + dialog_entries(*v, path@, conv@, scope@),
    decreases v,
{
    match v {
        JsonValue::Array(items) => {
            let ghost start = entry_views(out@);
            let mut i: usize = 0;
            proof {
                assert(start =~= start + item_entries(items@, path@, conv@, scope@, 0));
            }
            while i < items.len()
                invariant
                    i <= items.len(),
                    *v == JsonValue::Array(*items),
                    entry_views(out@) == start + item_entries(items@, path@, conv@, scope@, i as int),
                decreases items.len() - i,
            {
                let mut child_path = string_from(path.as_str());
                push_str(&mut child_path, ".");
                push_decimal_str(&mut child_path, i as u64);
                proof {
                    let ghost it = items@[i as int];
                    assert(decreases_to!(*v => v->Array_0));
                    assert(v->Array_0 == *items);
                    assert(decreases_to!(*items => items@));
                    assert(decreases_to!(items@ => it));
                    assert(decreases_to!(*v => it));
                }
                collect_dialogs(&items[i], &child_path, conv, scope, out);
                proof {
                    assert(child_path@ =~= path@ + "."@ + decimal(i as nat));
                    assert(entry_views(out@) =~= start + item_entries(items@, path@, conv@, scope@, i + 1));
                }
                i += 1;
            }
            proof {
                assert(entry_views(out@) == entry_views(old(out)@) + dialog_entries(*v, path@, conv@, scope@));
            }
        },
        JsonValue::Object(es) => {
            match string_field4(v, "text", "content", "message", "utterance") {
                Some(text) => {
                    if is_safe_memory_text(text.as_str()) {
                        let speaker = match string_field3(v, "speaker", "role", "name") {
                            Some(s) => s,
                            None => string_from("speaker"),
                        };
                        let dialog_id = match string_field4(v, "dialog_id", "dia_id", "id", "turn_id") {
                            Some(d) => d,
                            None => string_from(path.as_str()),
                        };
                        let memory = make_dialog_memory(conv, scope, &speaker, &dialog_id, text);
                        push_entry(out, DialogEntry { dialog_id, memory });
                        return;
                    }
                },
                None => {},
            }
            let ghost start = entry_views(out@);
            let mut i: usize = 0;
            proof {
                assert(start =~= start + member_entries(es@, path@, conv@, scope@, 0));
            }
            while i < es.len()
                invariant
                    i <= es.len(),
                    *v == JsonValue::Object(*es),
                    entry_views(out@) == start + member_entries(es@, path@, conv@, scope@, i as int),
                decreases es.len() - i,
            {
                if is_skipped_key(&es[i].0) {
                    proof {
                        assert(entry_views(out@) =~= start + member_entries(es@, path@, conv@, scope@, i + 1));
                    }
                } else {
                    let mut child_path = string_from(path.as_str());
                    push_str(&mut child_path, ".");
                    push_str(&mut child_path, es[i].0.as_str());
                    proof {
                        let ghost en = es@[i as int];
                        assert(decreases_to!(*v => v->Object_0));
                        assert(v->Object_0 == *es);
                        assert(decreases_to!(*es => es@));
                        assert(decreases_to!(es@ => en));
                        assert(decreases_to!(en => en.1));
                        assert(decreases_to!(*v => en.1));
                    }
                    collect_dialogs(&es[i].1, &child_path, conv, scope, out);
                    proof {
                        assert(child_path@ =~= path@ + "."@ + es@[i as int].0@);
                        assert(entry_views(out@) =~= start + member_entries(es@, path@, conv@, scope@, i + 1));
                    }
                }
                i += 1;
            }
        },
        _ => {
            proof {
                assert(entry_views(out@) =~= entry_views(old(out)@) + dialog_entries(*v, path@, conv@, scope@));
            }
        },
    }
}


// ---------------------------------------------------------------------------
// Evidence
// ---------------------------------------------------------------------------

/// The memory id filed last under dialog id `d` among the first `n` turns.
pub open spec fn dialog_lookup(es: Seq<DialogEntryView>, d: Seq<char>, n: int) -> Option<Seq<char>>
    decreases n,
{
    if n <= 0 {
        None
    } else if es[n - 1].dialog_id == d {
        Some(es[n - 1].memory.id)
    } else {
        dialog_lookup(es, d, n - 1)
    }
}

pub open spec fn lookup_seq(es: Seq<DialogEntryView>, d: Option<Seq<char>>) -> Seq<Seq<char>> {
    match d {
        Some(k) => match dialog_lookup(es, k, es.len() as int) {
            Some(id) => seq![id],
            None => Seq::empty(),
        },
        None => Seq::empty(),
    }
}

pub open spec fn has_substring(hay: Seq<char>, needle: Seq<char>) -> bool {
    exists|i: int| 0 <= i && i + needle.len() <= hay.len() && #[trigger] hay.subrange(i, i + needle.len()) == needle
}

/// The ids of the first `n` memories whose text contains the needle or is
/// contained in it.
pub open spec fn text_matches(mems: Seq<EvalMemoryView>, needle: Seq<char>, n: int) -> Seq<Seq<char>>
    decreases n,
{
    if n <= 0 {
        Seq::empty()
    } else {
        text_matches(mems, needle, n - 1) + if has_substring(mems[n - 1].text, needle) || has_substring(
            needle,
            mems[n - 1].text,
        ) {
            seq![mems[n - 1].id]
        } else {
            Seq::empty()
        }
    }
}

pub open spec fn member_compact(e: JsonValue, key: Seq<char>) -> Option<Seq<char>> {
    match json_get(e, key) {
        Some(x) => compact_string(x),
        None => None,
    }
}

/// The memory ids that an evidence value cites: dialog ids (as text) under
/// the id members of objects, evidence nested in arrays and objects, and
/// strings that name a dialog id or else (at least 8 bytes once trimmed)
/// match the text of known memories.
pub open spec fn evidence_ids(e: JsonValue, es: Seq<DialogEntryView>, mems: Seq<EvalMemoryView>) -> Seq<
    Seq<char>,
>
    decreases e, 0nat,
{
    match e {
        JsonValue::Array(items) => evidence_items(items@, es, mems, items@.len() as int),
        JsonValue::Object(entries) => lookup_seq(es, member_compact(e, "dialog_id"@)) + lookup_seq(
            es,
            member_compact(e, "dia_id"@),
        ) + lookup_seq(es, member_compact(e, "id"@)) + lookup_seq(es, member_compact(e, "turn_id"@))
            + evidence_members(entries@, es, mems, entries@.len() as int),
        JsonValue::Text(s) => match dialog_lookup(es, s@, es.len() as int) {
            Some(id) => seq![id],
            None => {
                let needle = trim_ws(s@);
                if utf8_len(needle) < 8 {
                    Seq::empty()
                } else {
                    text_matches(mems, needle, mems.len() as int)
                }
            },
        },
        JsonValue::Null => Seq::empty(),
        _ => lookup_seq(es, compact_string(e)),
    }
}

pub open spec fn evidence_items(
    items: Seq<JsonValue>,
    es: Seq<DialogEntryView>,
    mems: Seq<EvalMemoryView>,
    n: int,
) -> Seq<Seq<char>>
    decreases items, 1nat, n,
{
    if n <= 0 || n > items.len() {
        Seq::empty()
    } else {
        evidence_items(items, es, mems, n - 1) + evidence_ids(items[n - 1], es, mems)
    }
}

pub open spec fn evidence_members(
    entries: Seq<(String, JsonValue)>,
    es: Seq<DialogEntryView>,
    mems: Seq<EvalMemoryView>,
    n: int,
) -> Seq<Seq<char>>
    decreases entries, 1nat, n,
{
    if n <= 0 || n > entries.len() {
        Seq::empty()
    } else {
        evidence_members(entries, es, mems, n - 1) + evidence_ids(entries[n - 1].1, es, mems)
    }
}

fn lookup_exec(es: &Vec<DialogEntry>, d: &String) -> (r: Option<String>)
    ensures
        match dialog_lookup(entry_views(es@), d@, es@.len() as int) {
            Some(id) => r matches Some(x) && x@ == id,
            None => r is None,
        },
{
    let ghost ev = entry_views(es@);
    let mut i: usize = es.len();
    while i > 0
        invariant
            i <= es@.len(),
            ev == entry_views(es@),
            dialog_lookup(ev, d@, es@.len() as int) == dialog_lookup(ev, d@, i as int),
        decreases i,
    {
        proof {
            assert(ev[i - 1] == es@[i - 1]@);
        }
        if str_eq_s(&es[i - 1].dialog_id, d) {
            return Some(string_from(es[i - 1].memory.id.as_str()));
        }
        i -= 1;
    }
    None
}

fn push_lookup(out: &mut Vec<String>, es: &Vec<DialogEntry>, d: Option<String>)
    ensures
        views_of(final(out)@) == views_of(old(out)@) + lookup_seq(
            entry_views(es@),
            match d {
                Some(x) => Some(x@),
                None => None,
            },
        ),
{
    match d {
        Some(k) => match lookup_exec(es, &k) {
            Some(id) => {
                push_id(out, id);
                proof {
                    assert(views_of(out@) =~= views_of(old(out)@) + seq![id@]);
                }
            },
            None => {
                proof {
                    assert(views_of(out@) =~= views_of(old(out)@) + Seq::<Seq<char>>::empty());
                }
            },
        },
        None => {
            proof {
                assert(views_of(out@) =~= views_of(old(out)@) + Seq::<Seq<char>>::empty());
            }
        },
    }
}

fn member_compact_exec(e: &JsonValue, key: &str) -> (r: Option<String>)
    ensures
        match member_compact(*e, key@) {
            Some(s) => r matches Some(x) && x@ == s,
            None => r is None,
        },
{
    match get_member(e, key) {
        Some(x) => compact(x),
        None => None,
    }
}

fn contains_sub(hay: &Vec<char>, needle: &Vec<char>) -> (b: bool)
    ensures
        b == has_substring(hay@, needle@),
{
    let n = needle.len();
    if n > hay.len() {
        proof {
            assert forall|i: int| 0 <= i && i + needle@.len() <= hay@.len() implies #[trigger] hay@.subrange(
                i,
                i + needle@.len(),
            ) != needle@ by {}
        }
        return false;
    }
    let mut i: usize = 0;
    while i <= hay.len() - n
        invariant
            n == needle.len(),
            n <= hay.len(),
            i <= hay.len() - n + 1,
            forall|j: int| 0 <= j < i ==> #[trigger] hay@.subrange(j, j + n) != needle@,
        decreases hay.len() - i,
    {
        let mut k: usize = 0;
        while k < n && hay[i + k] == needle[k]
            invariant
                k <= n,
                i + n <= hay.len(),
                n == needle.len(),
                forall|t: int| 0 <= t < k ==> hay@[i + t] == needle@[t],
            decreases n - k,
        {
            k += 1;
        }
        if k == n {
            proof {
                assert(hay@.subrange(i as int, i + n) =~= needle@);
            }
            return true;
        }
        proof {
            assert(hay@.subrange(i as int, i + n)[k as int] != needle@[k as int]);
        }
        i += 1;
    }
    proof {
        assert forall|j: int| 0 <= j && j + needle@.len() <= hay@.len() implies #[trigger] hay@.subrange(
            j,
            j + needle@.len(),
        ) != needle@ by {
            assert(j < i);
        }
    }
    false
}

fn push_text_matches(out: &mut Vec<String>, mems: &Vec<EvalMemory>, needle: &Vec<char>)
    ensures
        views_of(final(out)@) == views_of(old(out)@) + text_matches(
            memory_views(mems@),
            needle@,
            mems@.len() as int,
        ),
{
    let ghost mv = memory_views(mems@);
    let mut i: usize = 0;
    proof {
        assert(views_of(out@) =~= views_of(old(out)@) + text_matches(mv, needle@, 0));
    }
    while i < mems.len()
        invariant
            i <= mems@.len(),
            mv == memory_views(mems@),
            views_of(out@) == views_of(old(out)@) + text_matches(mv, needle@, i as int),
        decreases mems@.len() - i,
    {
        proof {
            assert(mv[i as int] == mems@[i as int]@);
        }
        let text = chars_of(mems[i].text.as_str());
        let ghost before = views_of(out@);
        if contains_sub(&text, needle) || contains_sub(needle, &text) {
            push_id(out, string_from(mems[i].id.as_str()));
        }
        proof {
            assert(views_of(out@) =~= views_of(old(out)@) + text_matches(mv, needle@, i + 1));
        }
        i += 1;
    }
}

/// Appends the memory ids that an evidence value cites.
fn collect_evidence(e: &JsonValue, es: &Vec<DialogEntry>, mems: &Vec<EvalMemory>, out: &mut Vec<String>)
    ensures
        views_of(final(out)@) == views_of(old(out)@) + evidence_ids(*e, entry_views(es@), memory_views(mems@)),
    decreases e,
{
    let ghost ev = entry_views(es@);
    let ghost mv = memory_views(mems@);
    match e {
        JsonValue::Array(items) => {
            let ghost start = views_of(out@);
            let mut i: usize = 0;
            proof {
                assert(start =~= start + evidence_items(items@, ev, mv, 0));
            }
            while i < items.len()
                invariant
                    i <= items.len(),
                    *e == JsonValue::Array(*items),
                    ev == entry_views(es@),
                    mv == memory_views(mems@),
                    views_of(out@) == start + evidence_items(items@, ev, mv, i as int),
                decreases items.len() - i,
            {
                proof {
                    let ghost it = items@[i as int];
                    assert(decreases_to!(*e => e->Array_0));
                    assert(e->Array_0 == *items);
                    assert(decreases_to!(*items => items@));
                    assert(decreases_to!(items@ => it));
                    assert(decreases_to!(*e => it));
                }
                collect_evidence(&items[i], es, mems, out);
                proof {
                    assert(views_of(out@) =~= start + evidence_items(items@, ev, mv, i + 1));
                }
                i += 1;
            }
        },
        JsonValue::Object(entries) => {
            push_lookup(out, es, member_compact_exec(e, "dialog_id"));
            push_lookup(out, es, member_compact_exec(e, "dia_id"));
            push_lookup(out, es, member_compact_exec(e, "id"));
            push_lookup(out, es, member_compact_exec(e, "turn_id"));
            let ghost start = views_of(out@);
            let mut i: usize = 0;
            proof {
                assert(start =~= start + evidence_members(entries@, ev, mv, 0));
            }
            while i < entries.len()
                invariant
                    i <= entries.len(),
                    *e == JsonValue::Object(*entries),
                    ev == entry_views(es@),
                    mv == memory_views(mems@),
                    views_of(out@) == start + evidence_members(entries@, ev, mv, i as int),
                decreases entries.len() - i,
            {
                proof {
                    let ghost en = entries@[i as int];
                    assert(decreases_to!(*e => e->Object_0));
                    assert(e->Object_0 == *entries);
                    assert(decreases_to!(*entries => entries@));
                    assert(decreases_to!(entries@ => en));
                    assert(decreases_to!(en => en.1));
                    assert(decreases_to!(*e => en.1));
                }
                collect_evidence(&entries[i].1, es, mems, out);
                proof {
                    assert(views_of(out@) =~= start + evidence_members(entries@, ev, mv, i + 1));
                }
                i += 1;
            }
            proof {
                assert(views_of(out@) =~= views_of(old(out)@) + evidence_ids(*e, ev, mv));
            }
        },
        JsonValue::Text(s) => {
            let key = string_from(s.as_str());
            match lookup_exec(es, &key) {
                Some(id) => {
                    push_id(out, id);
                    proof {
                        assert(views_of(out@) =~= views_of(old(out)@) + seq![id@]);
                    }
                },
                None => {
                    let needle = trim_chars(&chars_of(s.as_str()), TrimKind::Whitespace);
                    if utf8_length(&needle) < 8 {
                        proof {
                            assert(views_of(out@) =~= views_of(old(out)@) + Seq::<Seq<char>>::empty());
                        }
                    } else {
                        push_text_matches(out, mems, &needle);
                    }
                },
            }
        },
        JsonValue::Null => {
            proof {
                assert(views_of(out@) =~= views_of(old(out)@) + Seq::<Seq<char>>::empty());
            }
        },
        _ => {
            push_lookup(out, es, compact(e));
        },
    }
}


// ---------------------------------------------------------------------------
// Conversations
// ---------------------------------------------------------------------------

pub open spec fn entry_memory(e: DialogEntryView) -> EvalMemoryView {
    e.memory
}

pub open spec fn entry_memories(es: Seq<DialogEntryView>) -> Seq<EvalMemoryView> {
    es.map_values(|e: DialogEntryView| entry_memory(e))
}

/// One more, short of the largest counter value.
pub open spec fn counted(n: nat) -> nat {
    if n < usize::MAX {
        n + 1
    } else {
        n
    }
}

/// Queries so far, questions skipped for want of evidence, and whether the
/// query limit stopped the questions of a conversation.
pub struct QaState {
    pub queries: Seq<EvalQueryView>,
    pub skipped: nat,
    pub stopped: bool,
}

pub open spec fn qa_category(qa: JsonValue) -> Seq<char> {
    match compact_string(
        match json_get(qa, "category"@) {
            Some(c) => c,
            None => JsonValue::Null,
        },
    ) {
        Some(c) => c,
        None => "qa"@,
    }
}

/// The questions among the first `n` items: those with a question and cited
/// evidence become queries `<conv>:qa-<index>`; those without evidence are
/// counted as skipped; the query limit stops the rest.
pub open spec fn qa_run(
    qas: Seq<JsonValue>,
    conv: Seq<char>,
    scope: Seq<char>,
    es: Seq<DialogEntryView>,
    mems: Seq<EvalMemoryView>,
    max_queries: Option<usize>,
    start: QaState,
    n: int,
) -> QaState
    decreases n,
{
    if n <= 0 {
        start
    } else {
        let st = qa_run(qas, conv, scope, es, mems, max_queries, start, n - 1);
        if st.stopped {
            st
        } else {
            let qa = qas[n - 1];
            match string_field(qa, seq!["question"@, "query"@]) {
                None => st,
                Some(question) => {
                    let ids = match json_get(qa, "evidence"@) {
                        Some(ev) => evidence_ids(ev, es, mems),
                        None => Seq::empty(),
                    };
                    if ids.len() == 0 {
                        QaState { queries: st.queries, skipped: counted(st.skipped), stopped: false }
                    } else {
                        let q = EvalQueryView {
                            id: conv + ":qa-"@ + decimal((n - 1) as nat),
                            query: question,
                            scope: Some(scope),
                            relevant_ids: sorted_strings(ids.to_set()),
                            category: qa_category(qa),
                        };
                        let queries = st.queries.push(q);
                        QaState {
                            queries,
                            skipped: st.skipped,
                            stopped: max_queries matches Some(m) && queries.len() >= m,
                        }
                    }
                },
            }
        }
    }
}

pub struct LocomoState {
    pub memories: Seq<EvalMemoryView>,
    pub queries: Seq<EvalQueryView>,
    pub skipped: nat,
    pub done: bool,
}

pub open spec fn conversation_id_of(rec: JsonValue, idx: nat) -> Seq<char> {
    match string_field(rec, seq!["conversation_id"@, "sample_id"@, "id"@, "dialogue_id"@]) {
        Some(c) => c,
        None => "locomo-"@ + decimal(idx),
    }
}

/// The conversion after the first `n` conversations. A conversation without
/// dialog turns contributes nothing; otherwise its turns become memories and
/// its questions queries, until a limit is reached.
pub open spec fn locomo_run(
    records: Seq<JsonValue>,
    max_memories: Option<usize>,
    max_queries: Option<usize>,
    n: int,
) -> LocomoState
    decreases n,
{
    if n <= 0 {
        LocomoState { memories: Seq::empty(), queries: Seq::empty(), skipped: 0, done: false }
    } else {
        let st = locomo_run(records, max_memories, max_queries, n - 1);
        if st.done {
            st
        } else {
            let rec = records[n - 1];
            let conv = conversation_id_of(rec, (n - 1) as nat);
            let scope = "locomo:"@ + conv;
            let es = dialog_entries(rec, "root"@, conv, scope);
            if es.len() == 0 {
                st
            } else {
                let memories = st.memories + entry_memories(es);
                let qas = match as_array(json_get(rec, "qa"@)) {
                    Some(v) => v,
                    None => Seq::empty(),
                };
                let qst = qa_run(
                    qas,
                    conv,
                    scope,
                    es,
                    memories,
                    max_queries,
                    QaState { queries: st.queries, skipped: st.skipped, stopped: false },
                    qas.len() as int,
                );
                LocomoState {
                    memories,
                    queries: qst.queries,
                    skipped: qst.skipped,
                    done: (max_queries matches Some(m) && qst.queries.len() >= m) || (max_memories matches Some(
                        m,
                    ) && memories.len() >= m),
                }
            }
        }
    }
}

/// The dataset converted from a LoCoMo JSON array.
pub open spec fn locomo_dataset(
    value: JsonValue,
    source: Seq<char>,
    max_memories: Option<usize>,
    max_queries: Option<usize>,
) -> Result<EvalDatasetView, Seq<char>> {
    match value {
        JsonValue::Array(records) => {
            let st = locomo_run(records@, max_memories, max_queries, records@.len() as int);
            Ok(
                EvalDatasetView {
                    name: "locomo_converted"@,
                    source: source + "; skipped queries without evidence: "@ + decimal(st.skipped),
                    memories: st.memories,
                    queries: st.queries,
                },
            )
        },
        _ => Err("LoCoMo input must be a JSON array"@),
    }
}

proof fn lemma_qa_stays(
    qas: Seq<JsonValue>,
    conv: Seq<char>,
    scope: Seq<char>,
    es: Seq<DialogEntryView>,
    mems: Seq<EvalMemoryView>,
    max_queries: Option<usize>,
    start: QaState,
    m: int,
    n: int,
)
    requires
        0 <= m <= n,
        qa_run(qas, conv, scope, es, mems, max_queries, start, m).stopped,
    ensures
        qa_run(qas, conv, scope, es, mems, max_queries, start, n) == qa_run(
            qas,
            conv,
            scope,
            es,
            mems,
            max_queries,
            start,
            m,
        ),
    decreases n - m,
{
    if m < n {
        lemma_qa_stays(qas, conv, scope, es, mems, max_queries, start, m, n - 1);
    }
}

proof fn lemma_locomo_stays(
    records: Seq<JsonValue>,
    max_memories: Option<usize>,
    max_queries: Option<usize>,
    m: int,
    n: int,
)
    requires
        0 <= m <= n,
        locomo_run(records, max_memories, max_queries, m).done,
    ensures
        locomo_run(records, max_memories, max_queries, n) == locomo_run(records, max_memories, max_queries, m),
    decreases n - m,
{
    if m < n {
        lemma_locomo_stays(records, max_memories, max_queries, m, n - 1);
    }
}

fn qa_category_exec(qa: &JsonValue) -> (c: String)
    ensures
        c@ == qa_category(*qa),
{
    let found = match get_member(qa, "category") {
        Some(c) => compact(c),
        None => None,
    };
    match found {
        Some(c) => c,
        None => string_from("qa"),
    }
}

fn collect_entry_memories(mems: &mut Vec<EvalMemory>, es: &Vec<DialogEntry>)
    ensures
        memory_views(final(mems)@) == memory_views(old(mems)@) + entry_memories(entry_views(es@)),
{
    let ghost ev = entry_views(es@);
    let mut i: usize = 0;
    proof {
        assert(memory_views(mems@) =~= memory_views(old(mems)@) + entry_memories(ev).take(0));
    }
    while i < es.len()
        invariant
            i <= es@.len(),
            ev == entry_views(es@),
            memory_views(mems@) == memory_views(old(mems)@) + entry_memories(ev).take(i as int),
        decreases es@.len() - i,
    {
        let m = crate::longmemeval::copy_memory(&es[i].memory);
        push_memory(mems, m);
        proof {
            assert(entry_memories(ev)[i as int] == es@[i as int].memory@);
            assert(entry_memories(ev).take(i + 1) =~= entry_memories(ev).take(i as int).push(
                es@[i as int].memory@,
            ));
            assert(memory_views(mems@) =~= memory_views(old(mems)@) + entry_memories(ev).take(i + 1));
        }
        i += 1;
    }
    proof {
        assert(entry_memories(ev).take(i as int) =~= entry_memories(ev));
    }
}

/// Converts a LoCoMo JSON array into an evaluation dataset (see
/// `locomo_dataset`).
pub fn convert_locomo(
    value: &JsonValue,
    source: String,
    max_memories: Option<usize>,
    max_queries: Option<usize>,
) -> (r: Result<EvalDataset, MgeError>)
    ensures
        match locomo_dataset(*value, source@, max_memories, max_queries) {
            Ok(d) => r matches Ok(x) && x@ == d,
            Err(e) => r matches Err(MgeError::InvalidInput(m)) && m@ == e,
        },
{
    let records = match value {
        JsonValue::Array(items) => items,
        _ => {
            return Err(MgeError::InvalidInput(string_from("LoCoMo input must be a JSON array")));
        },
    };
    let mut memories: Vec<EvalMemory> = Vec::new();
    let mut queries: Vec<EvalQuery> = Vec::new();
    let mut skipped: usize = 0;
    let mut done = false;
    let mut i: usize = 0;
    proof {
        assert(memory_views(memories@) =~= Seq::<EvalMemoryView>::empty());
        assert(query_views(queries@) =~= Seq::<EvalQueryView>::empty());
    }
    while i < records.len() && !done
        invariant
            i <= records@.len(),
            skipped <= usize::MAX,
            locomo_run(records@, max_memories, max_queries, i as int) == (LocomoState {
                memories: memory_views(memories@),
                queries: query_views(queries@),
                skipped: skipped as nat,
                done,
            }),
        decreases records@.len() - i,
    {
        let rec = &records[i];
        let conv = match string_field4(rec, "conversation_id", "sample_id", "id", "dialogue_id") {
            Some(c) => c,
            None => {
                let mut s = string_from("locomo-");
                push_decimal_str(&mut s, i as u64);
                s
            },
        };
        let mut scope = string_from("locomo:");
        push_str(&mut scope, conv.as_str());
        let mut es: Vec<DialogEntry> = Vec::new();
        let root = string_from("root");
        proof {
            assert(entry_views(es@) =~= Seq::<DialogEntryView>::empty());
        }
        collect_dialogs(rec, &root, &conv, &scope, &mut es);
        proof {
            assert(entry_views(es@) =~= dialog_entries(*rec, "root"@, conv@, scope@));
        }
        if es.len() > 0 {
            collect_entry_memories(&mut memories, &es);
            let ghost ev = entry_views(es@);
            let ghost mv = memory_views(memories@);
            let no_items: Vec<JsonValue> = Vec::new();
            let qas = match array_member(rec, "qa") {
                Some(items) => items,
                None => &no_items,
            };
            let ghost start = QaState { queries: query_views(queries@), skipped: skipped as nat, stopped: false };
            let mut stopped = false;
            let mut k: usize = 0;
            while k < qas.len() && !stopped
                invariant
                    k <= qas@.len(),
                    ev == entry_views(es@),
                    mv == memory_views(memories@),
                    skipped <= usize::MAX,
                    qa_run(qas@, conv@, scope@, ev, mv, max_queries, start, k as int) == (QaState {
                        queries: query_views(queries@),
                        skipped: skipped as nat,
                        stopped,
                    }),
                decreases qas@.len() - k,
            {
                let qa = &qas[k];
                match string_field2(qa, "question", "query") {
                    None => {},
                    Some(question) => {
                        let mut ids: Vec<String> = Vec::new();
                        match get_member(qa, "evidence") {
                            Some(evidence) => {
                                collect_evidence(evidence, &es, &memories, &mut ids);
                                proof {
                                    assert(views_of(ids@) =~= evidence_ids(*evidence, ev, mv));
                                }
                            },
                            None => {
                                proof {
                                    assert(views_of(ids@) =~= Seq::<Seq<char>>::empty());
                                }
                            },
                        }
                        if ids.len() == 0 {
                            skipped = if skipped < usize::MAX {
                                skipped + 1
                            } else {
                                skipped
                            };
                        } else {
                            let relevant_ids = sorted_unique(&ids);
                            let mut id = string_from(conv.as_str());
                            push_str(&mut id, ":qa-");
                            push_decimal_str(&mut id, k as u64);
                            let q = EvalQuery {
                                id,
                                query: question,
                                scope: Some(string_from(scope.as_str())),
                                relevant_ids,
                                category: qa_category_exec(qa),
                            };
                            let ghost before = queries@;
                            let ghost qv = q@;
                            queries.push(q);
                            proof {
                                assert(query_views(queries@) =~= query_views(before).push(qv));
                                assert(qv.id =~= conv@ + ":qa-"@ + decimal(k as nat));
                            }
                            stopped = match max_queries {
                                Some(m) => queries.len() >= m,
                                None => false,
                            };
                        }
                    },
                }
                k += 1;
            }
            proof {
                if stopped {
                    lemma_qa_stays(qas@, conv@, scope@, ev, mv, max_queries, start, k as int, qas@.len() as int);
                }
            }
            let qlimit = match max_queries {
                Some(m) => queries.len() >= m,
                None => false,
            };
            let mlimit = match max_memories {
                Some(m) => memories.len() >= m,
                None => false,
            };
            done = qlimit || mlimit;
        }
        i += 1;
    }
    proof {
        if done {
            lemma_locomo_stays(records@, max_memories, max_queries, i as int, records@.len() as int);
        }
    }
    let mut src = string_from(source.as_str());
    push_str(&mut src, "; skipped queries without evidence: ");
    push_decimal_str(&mut src, skipped as u64);
    let d = EvalDataset { name: string_from("locomo_converted"), source: src, memories, queries };
    proof {
        let spec_d = locomo_dataset(*value, source@, max_memories, max_queries)->Ok_0;
        assert(d@.source =~= spec_d.source);
    }
    Ok(d)
}


// ---------------------------------------------------------------------------
// Input formats
// ---------------------------------------------------------------------------

/// The shape of a benchmark input file.
#[derive(Clone, Copy, Debug, PartialEq, Eq, Structural)]
pub enum InputFormat {
    Auto,
    Neutral,
    LongMemEval,
    Locomo,
}

pub open spec fn starts_with_session(k: Seq<char>) -> bool {
    k.len() >= 7 && k.take(7) == "session"@
}

pub open spec fn has_session_key(entries: Seq<(String, JsonValue)>) -> bool {
    exists|i: int| 0 <= i < entries.len() && starts_with_session(#[trigger] entries[i].0@)
}

/// The format of a parsed input: a neutral dataset has `memories` and
/// `queries`; otherwise the first record (or the value itself) decides:
/// `haystack_sessions` or `question_id` mean LongMemEval; `qa`,
/// `conversation` or a `session...` member mean LoCoMo.
pub open spec fn detected_format(v: JsonValue) -> Option<InputFormat> {
    if json_get(v, "memories"@) is Some && json_get(v, "queries"@) is Some {
        Some(InputFormat::Neutral)
    } else {
        let first = match v {
            JsonValue::Array(items) => if items@.len() > 0 {
                items@[0]
            } else {
                v
            },
            _ => v,
        };
        if json_get(first, "haystack_sessions"@) is Some || json_get(first, "question_id"@) is Some {
            Some(InputFormat::LongMemEval)
        } else if json_get(first, "qa"@) is Some || json_get(first, "conversation"@) is Some || (
        first matches JsonValue::Object(es) && has_session_key(es@)) {
            Some(InputFormat::Locomo)
        } else {
            None
        }
    }
}

fn key_starts_with_session(k: &String) -> (b: bool)
    ensures
        b == starts_with_session(k@),
{
    let c = chars_of(k.as_str());
    if c.len() < 7 {
        return false;
    }
    let r = c[0] == 's' && c[1] == 'e' && c[2] == 's' && c[3] == 's' && c[4] == 'i' && c[5] == 'o' && c[6]
        == 'n';
    proof {
        reveal_strlit("session");
        let w = seq!['s', 'e', 's', 's', 'i', 'o', 'n'];
        assert("session"@ =~= w);
        if r {
            assert(k@.take(7) =~= w);
        } else if k@.take(7) == w {
            assert(k@.take(7)[0] == c@[0]);
            assert(k@.take(7)[1] == c@[1]);
            assert(k@.take(7)[2] == c@[2]);
            assert(k@.take(7)[3] == c@[3]);
            assert(k@.take(7)[4] == c@[4]);
            assert(k@.take(7)[5] == c@[5]);
            assert(k@.take(7)[6] == c@[6]);
        }
    }
    r
}

/// Detects the format of a parsed input (see `detected_format`).
pub fn detect_input_format(value: &JsonValue) -> (r: Result<InputFormat, MgeError>)
    ensures
        match detected_format(*value) {
            Some(f) => r == Ok::<InputFormat, MgeError>(f),
            None => r matches Err(MgeError::InvalidInput(m)) && m@
                == "could not detect dataset format; pass --input-format neutral|long-mem-eval|locomo"@,
        },
{
    if get_member(value, "memories").is_some() && get_member(value, "queries").is_some() {
        return Ok(InputFormat::Neutral);
    }
    let first = match value {
        JsonValue::Array(items) => if items.len() > 0 {
            &items[0]
        } else {
            value
        },
        _ => value,
    };
    if get_member(first, "haystack_sessions").is_some() || get_member(first, "question_id").is_some() {
        return Ok(InputFormat::LongMemEval);
    }
    if get_member(first, "qa").is_some() || get_member(first, "conversation").is_some() {
        return Ok(InputFormat::Locomo);
    }
    match first {
        JsonValue::Object(es) => {
            proof {
                assert(detected_format(*value) == (if has_session_key(es@) {
                    Some(InputFormat::Locomo)
                } else {
                    None
                }));
            }
            let mut i: usize = 0;
            while i < es.len()
                invariant
                    i <= es@.len(),
                    detected_format(*value) == (if has_session_key(es@) {
                        Some(InputFormat::Locomo)
                    } else {
                        None
                    }),
                    forall|k: int| 0 <= k < i ==> !starts_with_session(#[trigger] es@[k].0@),
                decreases es@.len() - i,
            {
                if key_starts_with_session(&es[i].0) {
                    proof {
                        assert(starts_with_session(es@[i as int].0@));
                        assert(has_session_key(es@));
                    }
                    return Ok(InputFormat::Locomo);
                }
                i += 1;
            }
        },
        _ => {},
    }
    Err(
        MgeError::InvalidInput(
            string_from("could not detect dataset format; pass --input-format neutral|long-mem-eval|locomo"),
        ),
    )
}

} // verus!

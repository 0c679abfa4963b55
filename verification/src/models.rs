//! Core memory model: identifiers and the classification enums of a memory cell.
use vstd::prelude::*;
use crate::checksum::{hex_lower, sha256_digest, sha256_hex};
use crate::errors::MgeError;
use crate::idset::{sort_dedup32, strictly_increasing32};
use vstd::std_specs::iter::IteratorSpec;
use crate::markers::{canonical_value, canonical_value_chars};
use crate::text::{
    bool_text, chars_eq, chars_of, str_eq, push_bool_str, push_signed_decimal, push_str, seq_lt, signed_decimal,
    string_from, string_from_chars, string_push,
};

verus! {

pub type CellId = u64;

pub type MarkerId = u32;

pub type PageId = u64;

#[derive(Clone, Copy, Debug, PartialEq, Eq, Structural)]
pub enum MemoryKind {
    UserPreference,
    ProjectFact,
    TaskState,
    Decision,
    Procedure,
    ToolResult,
    Evidence,
    Hypothesis,
    TemporaryNote,
    DeprecatedFact,
}

/// The snake_case name of each variant.
pub open spec fn memory_kind_name(v: MemoryKind) -> Seq<char> {
    match v {
        MemoryKind::UserPreference => "user_preference"@,
        MemoryKind::ProjectFact => "project_fact"@,
        MemoryKind::TaskState => "task_state"@,
        MemoryKind::Decision => "decision"@,
        MemoryKind::Procedure => "procedure"@,
        MemoryKind::ToolResult => "tool_result"@,
        MemoryKind::Evidence => "evidence"@,
        MemoryKind::Hypothesis => "hypothesis"@,
        MemoryKind::TemporaryNote => "temporary_note"@,
        MemoryKind::DeprecatedFact => "deprecated_fact"@,
    }
}

/// Position of each variant in declaration order (the derived order).
pub open spec fn memory_kind_rank(v: MemoryKind) -> nat {
    match v {
        MemoryKind::UserPreference => 0,
        MemoryKind::ProjectFact => 1,
        MemoryKind::TaskState => 2,
        MemoryKind::Decision => 3,
        MemoryKind::Procedure => 4,
        MemoryKind::ToolResult => 5,
        MemoryKind::Evidence => 6,
        MemoryKind::Hypothesis => 7,
        MemoryKind::TemporaryNote => 8,
        MemoryKind::DeprecatedFact => 9,
    }
}

/// The variant whose name is the canonical form of `input`.
pub open spec fn memory_kind_from_text(input: Seq<char>) -> Option<MemoryKind> {
    let c = canonical_value(input);
    if c == "user_preference"@ {
        Some(MemoryKind::UserPreference)
    } else if c == "project_fact"@ {
        Some(MemoryKind::ProjectFact)
    } else if c == "task_state"@ {
        Some(MemoryKind::TaskState)
    } else if c == "decision"@ {
        Some(MemoryKind::Decision)
    } else if c == "procedure"@ {
        Some(MemoryKind::Procedure)
    } else if c == "tool_result"@ {
        Some(MemoryKind::ToolResult)
    } else if c == "evidence"@ {
        Some(MemoryKind::Evidence)
    } else if c == "hypothesis"@ {
        Some(MemoryKind::Hypothesis)
    } else if c == "temporary_note"@ {
        Some(MemoryKind::TemporaryNote)
    } else if c == "deprecated_fact"@ {
        Some(MemoryKind::DeprecatedFact)
    } else {
        None
    }
}

impl MemoryKind {
    pub fn as_str(&self) -> (s: &'static str)
        ensures
            s@ == memory_kind_name(*self),
    {
        match self {
            MemoryKind::UserPreference => "user_preference",
            MemoryKind::ProjectFact => "project_fact",
            MemoryKind::TaskState => "task_state",
            MemoryKind::Decision => "decision",
            MemoryKind::Procedure => "procedure",
            MemoryKind::ToolResult => "tool_result",
            MemoryKind::Evidence => "evidence",
            MemoryKind::Hypothesis => "hypothesis",
            MemoryKind::TemporaryNote => "temporary_note",
            MemoryKind::DeprecatedFact => "deprecated_fact",
        }
    }

    pub fn rank(&self) -> (r: u8)
        ensures
            r as nat == memory_kind_rank(*self),
    {
        match self {
            MemoryKind::UserPreference => 0,
            MemoryKind::ProjectFact => 1,
            MemoryKind::TaskState => 2,
            MemoryKind::Decision => 3,
            MemoryKind::Procedure => 4,
            MemoryKind::ToolResult => 5,
            MemoryKind::Evidence => 6,
            MemoryKind::Hypothesis => 7,
            MemoryKind::TemporaryNote => 8,
            MemoryKind::DeprecatedFact => 9,
        }
    }

    /// Parses the canonical form of `input` as a variant name; anything else is
    /// an `InvalidInput` error naming the type and the input.
    pub fn parse(input: &str) -> (r: Result<MemoryKind, MgeError>)
        ensures
            match memory_kind_from_text(input@) {
                Some(v) => r == Ok::<MemoryKind, MgeError>(v),
                None => r matches Err(MgeError::InvalidInput(m)) && m@ == "unknown MemoryKind: "@ + input@,
            },
    {
        let c = canonical_value_chars(&chars_of(input));
        if chars_eq(&c, &chars_of("user_preference")) {
            return Ok(MemoryKind::UserPreference);
        }
        if chars_eq(&c, &chars_of("project_fact")) {
            return Ok(MemoryKind::ProjectFact);
        }
        if chars_eq(&c, &chars_of("task_state")) {
            return Ok(MemoryKind::TaskState);
        }
        if chars_eq(&c, &chars_of("decision")) {
            return Ok(MemoryKind::Decision);
        }
        if chars_eq(&c, &chars_of("procedure")) {
            return Ok(MemoryKind::Procedure);
        }
        if chars_eq(&c, &chars_of("tool_result")) {
            return Ok(MemoryKind::ToolResult);
        }
        if chars_eq(&c, &chars_of("evidence")) {
            return Ok(MemoryKind::Evidence);
        }
        if chars_eq(&c, &chars_of("hypothesis")) {
            return Ok(MemoryKind::Hypothesis);
        }
        if chars_eq(&c, &chars_of("temporary_note")) {
            return Ok(MemoryKind::TemporaryNote);
        }
        if chars_eq(&c, &chars_of("deprecated_fact")) {
            return Ok(MemoryKind::DeprecatedFact);
        }
        let mut m = string_from("unknown MemoryKind: ");
        push_str(&mut m, input);
        Err(MgeError::InvalidInput(m))
    }
}

#[derive(Clone, Copy, Debug, PartialEq, Eq, Structural)]
pub enum MemoryStatus {
    Active,
    Temporary,
    Deprecated,
    Rejected,
    Superseded,
    Unverified,
    Verified,
}

/// The snake_case name of each variant.
pub open spec fn memory_status_name(v: MemoryStatus) -> Seq<char> {
    match v {
        MemoryStatus::Active => "active"@,
        MemoryStatus::Temporary => "temporary"@,
        MemoryStatus::Deprecated => "deprecated"@,
        MemoryStatus::Rejected => "rejected"@,
        MemoryStatus::Superseded => "superseded"@,
        MemoryStatus::Unverified => "unverified"@,
        MemoryStatus::Verified => "verified"@,
    }
}

/// Position of each variant in declaration order (the derived order).
pub open spec fn memory_status_rank(v: MemoryStatus) -> nat {
    match v {
        MemoryStatus::Active => 0,
        MemoryStatus::Temporary => 1,
        MemoryStatus::Deprecated => 2,
        MemoryStatus::Rejected => 3,
        MemoryStatus::Superseded => 4,
        MemoryStatus::Unverified => 5,
        MemoryStatus::Verified => 6,
    }
}

/// The variant whose name is the canonical form of `input`.
pub open spec fn memory_status_from_text(input: Seq<char>) -> Option<MemoryStatus> {
    let c = canonical_value(input);
    if c == "active"@ {
        Some(MemoryStatus::Active)
    } else if c == "temporary"@ {
        Some(MemoryStatus::Temporary)
    } else if c == "deprecated"@ {
        Some(MemoryStatus::Deprecated)
    } else if c == "rejected"@ {
        Some(MemoryStatus::Rejected)
    } else if c == "superseded"@ {
        Some(MemoryStatus::Superseded)
    } else if c == "unverified"@ {
        Some(MemoryStatus::Unverified)
    } else if c == "verified"@ {
        Some(MemoryStatus::Verified)
    } else {
        None
    }
}

impl MemoryStatus {
    pub fn as_str(&self) -> (s: &'static str)
        ensures
            s@ == memory_status_name(*self),
    {
        match self {
            MemoryStatus::Active => "active",
            MemoryStatus::Temporary => "temporary",
            MemoryStatus::Deprecated => "deprecated",
            MemoryStatus::Rejected => "rejected",
            MemoryStatus::Superseded => "superseded",
            MemoryStatus::Unverified => "unverified",
            MemoryStatus::Verified => "verified",
        }
    }

    pub fn rank(&self) -> (r: u8)
        ensures
            r as nat == memory_status_rank(*self),
    {
        match self {
            MemoryStatus::Active => 0,
            MemoryStatus::Temporary => 1,
            MemoryStatus::Deprecated => 2,
            MemoryStatus::Rejected => 3,
            MemoryStatus::Superseded => 4,
            MemoryStatus::Unverified => 5,
            MemoryStatus::Verified => 6,
        }
    }

    /// Parses the canonical form of `input` as a variant name; anything else is
    /// an `InvalidInput` error naming the type and the input.
    pub fn parse(input: &str) -> (r: Result<MemoryStatus, MgeError>)
        ensures
            match memory_status_from_text(input@) {
                Some(v) => r == Ok::<MemoryStatus, MgeError>(v),
                None => r matches Err(MgeError::InvalidInput(m)) && m@ == "unknown MemoryStatus: "@ + input@,
            },
    {
        let c = canonical_value_chars(&chars_of(input));
        if chars_eq(&c, &chars_of("active")) {
            return Ok(MemoryStatus::Active);
        }
        if chars_eq(&c, &chars_of("temporary")) {
            return Ok(MemoryStatus::Temporary);
        }
        if chars_eq(&c, &chars_of("deprecated")) {
            return Ok(MemoryStatus::Deprecated);
        }
        if chars_eq(&c, &chars_of("rejected")) {
            return Ok(MemoryStatus::Rejected);
        }
        if chars_eq(&c, &chars_of("superseded")) {
            return Ok(MemoryStatus::Superseded);
        }
        if chars_eq(&c, &chars_of("unverified")) {
            return Ok(MemoryStatus::Unverified);
        }
        if chars_eq(&c, &chars_of("verified")) {
            return Ok(MemoryStatus::Verified);
        }
        let mut m = string_from("unknown MemoryStatus: ");
        push_str(&mut m, input);
        Err(MgeError::InvalidInput(m))
    }
}

#[derive(Clone, Copy, Debug, PartialEq, Eq, Structural)]
pub enum TrustLevel {
    UserConfirmed,
    AgentInferred,
    ToolObserved,
    ExternalUntrusted,
    SystemGenerated,
}

/// The snake_case name of each variant.
pub open spec fn trust_level_name(v: TrustLevel) -> Seq<char> {
    match v {
        TrustLevel::UserConfirmed => "user_confirmed"@,
        TrustLevel::AgentInferred => "agent_inferred"@,
        TrustLevel::ToolObserved => "tool_observed"@,
        TrustLevel::ExternalUntrusted => "external_untrusted"@,
        TrustLevel::SystemGenerated => "system_generated"@,
    }
}

/// Position of each variant in declaration order (the derived order).
pub open spec fn trust_level_rank(v: TrustLevel) -> nat {
    match v {
        TrustLevel::UserConfirmed => 0,
        TrustLevel::AgentInferred => 1,
        TrustLevel::ToolObserved => 2,
        TrustLevel::ExternalUntrusted => 3,
        TrustLevel::SystemGenerated => 4,
    }
}

/// The variant whose name is the canonical form of `input`.
pub open spec fn trust_level_from_text(input: Seq<char>) -> Option<TrustLevel> {
    let c = canonical_value(input);
    if c == "user_confirmed"@ {
        Some(TrustLevel::UserConfirmed)
    } else if c == "agent_inferred"@ {
        Some(TrustLevel::AgentInferred)
    } else if c == "tool_observed"@ {
        Some(TrustLevel::ToolObserved)
    } else if c == "external_untrusted"@ {
        Some(TrustLevel::ExternalUntrusted)
    } else if c == "system_generated"@ {
        Some(TrustLevel::SystemGenerated)
    } else {
        None
    }
}

impl TrustLevel {
    pub fn as_str(&self) -> (s: &'static str)
        ensures
            s@ == trust_level_name(*self),
    {
        match self {
            TrustLevel::UserConfirmed => "user_confirmed",
            TrustLevel::AgentInferred => "agent_inferred",
            TrustLevel::ToolObserved => "tool_observed",
            TrustLevel::ExternalUntrusted => "external_untrusted",
            TrustLevel::SystemGenerated => "system_generated",
        }
    }

    pub fn rank(&self) -> (r: u8)
        ensures
            r as nat == trust_level_rank(*self),
    {
        match self {
            TrustLevel::UserConfirmed => 0,
            TrustLevel::AgentInferred => 1,
            TrustLevel::ToolObserved => 2,
            TrustLevel::ExternalUntrusted => 3,
            TrustLevel::SystemGenerated => 4,
        }
    }

    /// Parses the canonical form of `input` as a variant name; anything else is
    /// an `InvalidInput` error naming the type and the input.
    pub fn parse(input: &str) -> (r: Result<TrustLevel, MgeError>)
        ensures
            match trust_level_from_text(input@) {
                Some(v) => r == Ok::<TrustLevel, MgeError>(v),
                None => r matches Err(MgeError::InvalidInput(m)) && m@ == "unknown TrustLevel: "@ + input@,
            },
    {
        let c = canonical_value_chars(&chars_of(input));
        if chars_eq(&c, &chars_of("user_confirmed")) {
            return Ok(TrustLevel::UserConfirmed);
        }
        if chars_eq(&c, &chars_of("agent_inferred")) {
            return Ok(TrustLevel::AgentInferred);
        }
        if chars_eq(&c, &chars_of("tool_observed")) {
            return Ok(TrustLevel::ToolObserved);
        }
        if chars_eq(&c, &chars_of("external_untrusted")) {
            return Ok(TrustLevel::ExternalUntrusted);
        }
        if chars_eq(&c, &chars_of("system_generated")) {
            return Ok(TrustLevel::SystemGenerated);
        }
        let mut m = string_from("unknown TrustLevel: ");
        push_str(&mut m, input);
        Err(MgeError::InvalidInput(m))
    }
}

#[derive(Clone, Copy, Debug, PartialEq, Eq, Structural)]
pub enum SensitivityLevel {
    Public,
    Private,
    Confidential,
    SecretReference,
}

/// The snake_case name of each variant.
pub open spec fn sensitivity_level_name(v: SensitivityLevel) -> Seq<char> {
    match v {
        SensitivityLevel::Public => "public"@,
        SensitivityLevel::Private => "private"@,
        SensitivityLevel::Confidential => "confidential"@,
        SensitivityLevel::SecretReference => "secret_reference"@,
    }
}

/// Position of each variant in declaration order (the derived order).
pub open spec fn sensitivity_level_rank(v: SensitivityLevel) -> nat {
    match v {
        SensitivityLevel::Public => 0,
        SensitivityLevel::Private => 1,
        SensitivityLevel::Confidential => 2,
        SensitivityLevel::SecretReference => 3,
    }
}

/// The variant whose name is the canonical form of `input`.
pub open spec fn sensitivity_level_from_text(input: Seq<char>) -> Option<SensitivityLevel> {
    let c = canonical_value(input);
    if c == "public"@ {
        Some(SensitivityLevel::Public)
    } else if c == "private"@ {
        Some(SensitivityLevel::Private)
    } else if c == "confidential"@ {
        Some(SensitivityLevel::Confidential)
    } else if c == "secret_reference"@ {
        Some(SensitivityLevel::SecretReference)
    } else {
        None
    }
}

impl SensitivityLevel {
    pub fn as_str(&self) -> (s: &'static str)
        ensures
            s@ == sensitivity_level_name(*self),
    {
        match self {
            SensitivityLevel::Public => "public",
            SensitivityLevel::Private => "private",
            SensitivityLevel::Confidential => "confidential",
            SensitivityLevel::SecretReference => "secret_reference",
        }
    }

    pub fn rank(&self) -> (r: u8)
        ensures
            r as nat == sensitivity_level_rank(*self),
    {
        match self {
            SensitivityLevel::Public => 0,
            SensitivityLevel::Private => 1,
            SensitivityLevel::Confidential => 2,
            SensitivityLevel::SecretReference => 3,
        }
    }

    /// Parses the canonical form of `input` as a variant name; anything else is
    /// an `InvalidInput` error naming the type and the input.
    pub fn parse(input: &str) -> (r: Result<SensitivityLevel, MgeError>)
        ensures
            match sensitivity_level_from_text(input@) {
                Some(v) => r == Ok::<SensitivityLevel, MgeError>(v),
                None => r matches Err(MgeError::InvalidInput(m)) && m@ == "unknown SensitivityLevel: "@ + input@,
            },
    {
        let c = canonical_value_chars(&chars_of(input));
        if chars_eq(&c, &chars_of("public")) {
            return Ok(SensitivityLevel::Public);
        }
        if chars_eq(&c, &chars_of("private")) {
            return Ok(SensitivityLevel::Private);
        }
        if chars_eq(&c, &chars_of("confidential")) {
            return Ok(SensitivityLevel::Confidential);
        }
        if chars_eq(&c, &chars_of("secret_reference")) {
            return Ok(SensitivityLevel::SecretReference);
        }
        let mut m = string_from("unknown SensitivityLevel: ");
        push_str(&mut m, input);
        Err(MgeError::InvalidInput(m))
    }
}

#[derive(Clone, Copy, Debug, PartialEq, Eq, Structural)]
pub enum RecallMode {
    Focused,
    Broad,
    FullScope,
}

/// The snake_case name of each variant.
pub open spec fn recall_mode_name(v: RecallMode) -> Seq<char> {
    match v {
        RecallMode::Focused => "focused"@,
        RecallMode::Broad => "broad"@,
        RecallMode::FullScope => "full_scope"@,
    }
}

/// Position of each variant in declaration order (the derived order).
pub open spec fn recall_mode_rank(v: RecallMode) -> nat {
    match v {
        RecallMode::Focused => 0,
        RecallMode::Broad => 1,
        RecallMode::FullScope => 2,
    }
}

/// The variant whose name is the canonical form of `input`.
pub open spec fn recall_mode_from_text(input: Seq<char>) -> Option<RecallMode> {
    let c = canonical_value(input);
    if c == "focused"@ {
        Some(RecallMode::Focused)
    } else if c == "broad"@ {
        Some(RecallMode::Broad)
    } else if c == "full_scope"@ {
        Some(RecallMode::FullScope)
    } else {
        None
    }
}

impl RecallMode {
    pub fn as_str(&self) -> (s: &'static str)
        ensures
            s@ == recall_mode_name(*self),
    {
        match self {
            RecallMode::Focused => "focused",
            RecallMode::Broad => "broad",
            RecallMode::FullScope => "full_scope",
        }
    }

    pub fn rank(&self) -> (r: u8)
        ensures
            r as nat == recall_mode_rank(*self),
    {
        match self {
            RecallMode::Focused => 0,
            RecallMode::Broad => 1,
            RecallMode::FullScope => 2,
        }
    }

    /// Parses the canonical form of `input` as a variant name; anything else is
    /// an `InvalidInput` error naming the type and the input.
    pub fn parse(input: &str) -> (r: Result<RecallMode, MgeError>)
        ensures
            match recall_mode_from_text(input@) {
                Some(v) => r == Ok::<RecallMode, MgeError>(v),
                None => r matches Err(MgeError::InvalidInput(m)) && m@ == "unknown RecallMode: "@ + input@,
            },
    {
        let c = canonical_value_chars(&chars_of(input));
        if chars_eq(&c, &chars_of("focused")) {
            return Ok(RecallMode::Focused);
        }
        if chars_eq(&c, &chars_of("broad")) {
            return Ok(RecallMode::Broad);
        }
        if chars_eq(&c, &chars_of("full_scope")) {
            return Ok(RecallMode::FullScope);
        }
        let mut m = string_from("unknown RecallMode: ");
        push_str(&mut m, input);
        Err(MgeError::InvalidInput(m))
    }
}


impl RecallMode {
    /// The default recall mode: focused.
    pub fn default_mode() -> (m: RecallMode)
        ensures
            m == RecallMode::Focused,
    {
        RecallMode::Focused
    }
}

// ---------------------------------------------------------------------------
// Structured values
// ---------------------------------------------------------------------------

/// A JSON value. Numbers are held as the text that JSON serialization writes
/// for them; object entries are held in key order.
#[derive(Debug)]
pub enum JsonValue {
    Null,
    Bool(bool),
    Number(String),
    Text(String),
    Array(Vec<JsonValue>),
    Object(Vec<(String, JsonValue)>),
}

/// Object keys are in strictly increasing order, at every level (the order of
/// a JSON map).
pub open spec fn json_wf(v: JsonValue) -> bool
    decreases v,
{
    match v {
        JsonValue::Array(items) => forall|i: int|
            0 <= i < items@.len() ==> json_wf(#[trigger] items@[i]),
        JsonValue::Object(entries) => (forall|i: int, j: int|
            0 <= i < j < entries@.len() ==> seq_lt(
                (#[trigger] entries@[i]).0@,
                (#[trigger] entries@[j]).0@,
            )) && (forall|i: int| 0 <= i < entries@.len() ==> json_wf(#[trigger] entries@[i].1)),
        _ => true,
    }
}

pub open spec fn hex_lower_digit(d: nat) -> char {
    if d < 10 {
        ((48 + d) as u32) as char
    } else {
        ((87 + d) as u32) as char
    }
}

/// JSON string escaping of one character.
pub open spec fn json_escape_char(c: char) -> Seq<char> {
    if c == '"' {
        seq!['\\', '"']
    } else if c == '\\' {
        seq!['\\', '\\']
    } else if c == '\n' {
        seq!['\\', 'n']
    } else if c == '\r' {
        seq!['\\', 'r']
    } else if c == '\t' {
        seq!['\\', 't']
    } else if (c as u32) == 8 {
        seq!['\\', 'b']
    } else if (c as u32) == 12 {
        seq!['\\', 'f']
    } else if (c as u32) < 32 {
        seq!['\\', 'u', '0', '0', hex_lower_digit(((c as u32) / 16) as nat), hex_lower_digit(((c as u32) % 16) as nat)]
    } else {
        seq![c]
    }
}

pub open spec fn json_escape(s: Seq<char>) -> Seq<char>
    decreases s.len(),
{
    if s.len() == 0 {
        Seq::empty()
    } else {
        json_escape(s.drop_last()) + json_escape_char(s.last())
    }
}

pub open spec fn json_quote(s: Seq<char>) -> Seq<char> {
    seq!['"'] + json_escape(s) + seq!['"']
}

/// Compact JSON text of a value: no whitespace, entries in stored order.
pub open spec fn json_text(v: JsonValue) -> Seq<char>
    decreases v, 0nat,
{
    match v {
        JsonValue::Null => "null"@,
        JsonValue::Bool(b) => if b {
            "true"@
        } else {
            "false"@
        },
        JsonValue::Number(t) => t@,
        JsonValue::Text(t) => json_quote(t@),
        JsonValue::Array(items) => seq!['['] + json_items_text(items@, items@.len() as int) + seq![']'],
        JsonValue::Object(entries) => seq!['{'] + json_entries_text(entries@, entries@.len() as int)
            + seq!['}'],
    }
}

/// The first `n` items, comma-separated.
pub open spec fn json_items_text(items: Seq<JsonValue>, n: int) -> Seq<char>
    decreases items, 1nat, n,
{
    if n <= 0 || n > items.len() {
        Seq::empty()
    } else if n == 1 {
        json_text(items[0])
    } else {
        json_items_text(items, n - 1) + seq![','] + json_text(items[n - 1])
    }
}

/// The first `n` entries as `"key":value`, comma-separated.
pub open spec fn json_entries_text(entries: Seq<(String, JsonValue)>, n: int) -> Seq<char>
    decreases entries, 1nat, n,
{
    if n <= 0 || n > entries.len() {
        Seq::empty()
    } else if n == 1 {
        json_quote(entries[0].0@) + seq![':'] + json_text(entries[0].1)
    } else {
        json_entries_text(entries, n - 1) + seq![','] + json_quote(entries[n - 1].0@) + seq![':']
            + json_text(entries[n - 1].1)
    }
}

fn hex_lower_char(d: u32) -> (c: char)
    requires
        d < 16,
    ensures
        c == hex_lower_digit(d as nat),
{
    if d < 10 {
        (48u8 + d as u8) as char
    } else {
        (87u8 + d as u8) as char
    }
}

fn push_json_escaped(out: &mut String, s: &str)
    ensures
        final(out)@ == old(out)@ + json_escape(s@),
{
    let chars = chars_of(s);
    let mut i: usize = 0;
    while i < chars.len()
        invariant
            i <= chars.len(),
            chars@ == s@,
            out@ == old(out)@ + json_escape(s@.take(i as int)),
        decreases chars.len() - i,
    {
        let c = chars[i];
        let ghost before = out@;
        let u = c as u32;
        if c == '"' {
            string_push(out, '\\');
            string_push(out, '"');
        } else if c == '\\' {
            string_push(out, '\\');
            string_push(out, '\\');
        } else if c == '\n' {
            string_push(out, '\\');
            string_push(out, 'n');
        } else if c == '\r' {
            string_push(out, '\\');
            string_push(out, 'r');
        } else if c == '\t' {
            string_push(out, '\\');
            string_push(out, 't');
        } else if u == 8 {
            string_push(out, '\\');
            string_push(out, 'b');
        } else if u == 12 {
            string_push(out, '\\');
            string_push(out, 'f');
        } else if u < 32 {
            string_push(out, '\\');
            string_push(out, 'u');
            string_push(out, '0');
            string_push(out, '0');
            string_push(out, hex_lower_char(u / 16));
            string_push(out, hex_lower_char(u % 16));
        } else {
            string_push(out, c);
        }
        proof {
            assert(s@.take(i + 1).drop_last() =~= s@.take(i as int));
            assert(s@.take(i + 1).last() == c);
            assert(out@ =~= before + json_escape_char(c));
        }
        i += 1;
    }
    proof {
        assert(s@.take(i as int) =~= s@);
    }
}

fn push_json_quoted(out: &mut String, s: &str)
    ensures
        final(out)@ == old(out)@ + json_quote(s@),
{
    string_push(out, '"');
    push_json_escaped(out, s);
    string_push(out, '"');
    proof {
        assert(out@ =~= old(out)@ + json_quote(s@));
    }
}

/// Appends the compact JSON text of `v`.
pub fn push_json(out: &mut String, v: &JsonValue)
    ensures
        final(out)@ == old(out)@ + json_text(*v),
    decreases v,
{
    match v {
        JsonValue::Null => push_str(out, "null"),
        JsonValue::Bool(b) => if *b {
            push_str(out, "true")
        } else {
            push_str(out, "false")
        },
        JsonValue::Number(t) => push_str(out, t.as_str()),
        JsonValue::Text(t) => push_json_quoted(out, t.as_str()),
        JsonValue::Array(items) => {
            string_push(out, '[');
            let ghost start = out@;
            let mut i: usize = 0;
            while i < items.len()
                invariant
                    i <= items.len(),
                    *v == JsonValue::Array(*items),
                    out@ == start + json_items_text(items@, i as int),
                decreases items.len() - i,
            {
                if i > 0 {
                    string_push(out, ',');
                }
                proof {
                    let ghost it = items@[i as int];
                    assert(decreases_to!(*v => v->Array_0));
                    assert(v->Array_0 == *items);
                    assert(decreases_to!(*items => items@));
                    assert(decreases_to!(items@ => it));
                    assert(decreases_to!(*v => it));
                }
                push_json(out, &items[i]);
                proof {
                    if i > 0 {
                        assert(out@ =~= start + json_items_text(items@, i + 1));
                    } else {
                        assert(out@ =~= start + json_items_text(items@, i + 1));
                    }
                }
                i += 1;
            }
            string_push(out, ']');
            proof {
                assert(out@ =~= old(out)@ + json_text(*v));
            }
        },
        JsonValue::Object(entries) => {
            string_push(out, '{');
            let ghost start = out@;
            let mut i: usize = 0;
            while i < entries.len()
                invariant
                    i <= entries.len(),
                    *v == JsonValue::Object(*entries),
                    out@ == start + json_entries_text(entries@, i as int),
                decreases entries.len() - i,
            {
                if i > 0 {
                    string_push(out, ',');
                }
                push_json_quoted(out, entries[i].0.as_str());
                string_push(out, ':');
                proof {
                    let ghost en = entries@[i as int];
                    assert(decreases_to!(*v => v->Object_0));
                    assert(v->Object_0 == *entries);
                    assert(decreases_to!(*entries => entries@));
                    assert(decreases_to!(entries@ => en));
                    assert(decreases_to!(en => en.1));
                    assert(decreases_to!(*v => en.1));
                }
                push_json(out, &entries[i].1);
                proof {
                    assert(out@ =~= start + json_entries_text(entries@, i + 1));
                }
                i += 1;
            }
            string_push(out, '}');
            proof {
                assert(out@ =~= old(out)@ + json_text(*v));
            }
        },
    }
}

proof fn lemma_items_text_same(a: Seq<JsonValue>, b: Seq<JsonValue>, n: int)
    requires
        a.len() == b.len(),
        0 <= n <= a.len(),
        forall|k: int| 0 <= k < n ==> json_text(#[trigger] a[k]) == json_text(b[k]),
    ensures
        json_items_text(a, n) == json_items_text(b, n),
    decreases n,
{
    if n > 1 {
        lemma_items_text_same(a, b, n - 1);
    }
}

proof fn lemma_entries_text_same(a: Seq<(String, JsonValue)>, b: Seq<(String, JsonValue)>, n: int)
    requires
        a.len() == b.len(),
        0 <= n <= a.len(),
        forall|k: int|
            0 <= k < n ==> (#[trigger] a[k]).0@ == b[k].0@ && json_text(a[k].1) == json_text(b[k].1),
    ensures
        json_entries_text(a, n) == json_entries_text(b, n),
    decreases n,
{
    if n > 1 {
        lemma_entries_text_same(a, b, n - 1);
    }
}

/// A deep copy of a JSON value; its text is the original's.
pub fn copy_json(v: &JsonValue) -> (r: JsonValue)
    ensures
        json_text(r) == json_text(*v),
    decreases v,
{
    match v {
        JsonValue::Null => JsonValue::Null,
        JsonValue::Bool(b) => JsonValue::Bool(*b),
        JsonValue::Number(t) => JsonValue::Number(t.clone()),
        JsonValue::Text(t) => JsonValue::Text(t.clone()),
        JsonValue::Array(items) => {
            let mut out: Vec<JsonValue> = Vec::new();
            let mut i: usize = 0;
            while i < items.len()
                invariant
                    i <= items.len(),
                    *v == JsonValue::Array(*items),
                    out@.len() == i,
                    forall|k: int| 0 <= k < i ==> json_text(#[trigger] out@[k]) == json_text(items@[k]),
                decreases items.len() - i,
            {
                proof {
                    let ghost it = items@[i as int];
                    assert(decreases_to!(*v => v->Array_0));
                    assert(decreases_to!(*items => items@));
                    assert(decreases_to!(items@ => it));
                }
                out.push(copy_json(&items[i]));
                i += 1;
            }
            proof {
                lemma_items_text_same(out@, items@, items@.len() as int);
            }
            JsonValue::Array(out)
        },
        JsonValue::Object(entries) => {
            let mut out: Vec<(String, JsonValue)> = Vec::new();
            let mut i: usize = 0;
            while i < entries.len()
                invariant
                    i <= entries.len(),
                    *v == JsonValue::Object(*entries),
                    out@.len() == i,
                    forall|k: int|
                        0 <= k < i ==> (#[trigger] out@[k]).0@ == entries@[k].0@ && json_text(out@[k].1)
                            == json_text(entries@[k].1),
                decreases entries.len() - i,
            {
                proof {
                    let ghost en = entries@[i as int];
                    assert(decreases_to!(*v => v->Object_0));
                    assert(decreases_to!(*entries => entries@));
                    assert(decreases_to!(entries@ => en));
                    assert(decreases_to!(en => en.1));
                }
                let value = copy_json(&entries[i].1);
                out.push((entries[i].0.clone(), value));
                i += 1;
            }
            proof {
                lemma_entries_text_same(out@, entries@, entries@.len() as int);
            }
            JsonValue::Object(out)
        },
    }
}

impl Clone for JsonValue {
    fn clone(&self) -> (r: Self)
        ensures
            json_text(r) == json_text(*self),
    {
        copy_json(self)
    }
}

// ---------------------------------------------------------------------------
// Memory values and cells
// ---------------------------------------------------------------------------

/// The value a memory cell holds. A number is held as its decimal text.
#[derive(Debug)]
pub enum MemoryValue {
    Text(String),
    Symbol(String),
    Number(String),
    Boolean(bool),
    Timestamp(i64),
    Reference(String),
    Structured(JsonValue),
}

/// The plain text of a value: strings as they are, numbers and timestamps in
/// decimal, booleans as `true`/`false`, structured values as compact JSON.
pub open spec fn plain_text(v: MemoryValue) -> Seq<char> {
    match v {
        MemoryValue::Text(s) => s@,
        MemoryValue::Symbol(s) => s@,
        MemoryValue::Reference(s) => s@,
        MemoryValue::Number(t) => t@,
        MemoryValue::Boolean(b) => bool_text(b),
        MemoryValue::Timestamp(t) => signed_decimal(t as int),
        MemoryValue::Structured(j) => json_text(j),
    }
}

impl Clone for MemoryValue {
    /// A copy of the same variant with the same plain text.
    fn clone(&self) -> (r: Self)
        ensures
            plain_text(r) == plain_text(*self),
            match (r, *self) {
                (MemoryValue::Structured(_), MemoryValue::Structured(_)) => true,
                (MemoryValue::Structured(_), _) => false,
                (_, MemoryValue::Structured(_)) => false,
                _ => r == *self,
            },
    {
        match self {
            MemoryValue::Text(v) => MemoryValue::Text(v.clone()),
            MemoryValue::Symbol(v) => MemoryValue::Symbol(v.clone()),
            MemoryValue::Number(v) => MemoryValue::Number(v.clone()),
            MemoryValue::Boolean(b) => MemoryValue::Boolean(*b),
            MemoryValue::Timestamp(t) => MemoryValue::Timestamp(*t),
            MemoryValue::Reference(v) => MemoryValue::Reference(v.clone()),
            MemoryValue::Structured(j) => MemoryValue::Structured(copy_json(j)),
        }
    }
}

impl MemoryValue {
    pub fn to_plain_text(&self) -> (s: String)
        ensures
            s@ == plain_text(*self),
    {
        match self {
            MemoryValue::Text(v) => string_from(v.as_str()),
            MemoryValue::Symbol(v) => string_from(v.as_str()),
            MemoryValue::Reference(v) => string_from(v.as_str()),
            MemoryValue::Number(v) => string_from(v.as_str()),
            MemoryValue::Boolean(b) => {
                let mut s = String::new();
                push_bool_str(&mut s, *b);
                s
            },
            MemoryValue::Timestamp(t) => {
                let mut v: Vec<char> = Vec::new();
                push_signed_decimal(&mut v, *t);
                string_from_chars(&v)
            },
            MemoryValue::Structured(j) => {
                let mut s = String::new();
                push_json(&mut s, j);
                s
            },
        }
    }
}

#[derive(Clone, Debug, PartialEq)]
pub struct MemorySource {
    pub source_type: String,
    pub reference: String,
}

#[verifier::external_type_specification]
#[verifier::external_body]
pub struct ExSystemTime(std::time::SystemTime);

/// Calls `std::time::SystemTime::now`: the clock's reading. Nothing is said
/// of it: it depends on the moment and the machine.
#[verifier::external_body]
fn system_time_now() -> std::time::SystemTime {
    std::time::SystemTime::now()
}

/// Calls `SystemTime::duration_since` with `UNIX_EPOCH`: the time since the
/// epoch, or `None` where the reading is earlier than the epoch (the call's
/// error). Nothing more is said of it.
#[verifier::external_body]
fn time_since_epoch(t: &std::time::SystemTime) -> Option<std::time::Duration> {
    match t.duration_since(std::time::UNIX_EPOCH) {
        Ok(d) => Some(d),
        Err(_) => None,
    }
}

/// Calls `Duration::as_secs`: the whole seconds of a duration.
#[verifier::external_body]
fn duration_seconds(d: &std::time::Duration) -> u64 {
    d.as_secs()
}

/// The current Unix time in whole seconds, or `None` where the clock reads
/// before the epoch or past what an `i64` holds.
pub fn current_timestamp() -> (t: Option<i64>)
    ensures
        t matches Some(secs) ==> secs >= 0,
{
    let now = system_time_now();
    match time_since_epoch(&now) {
        Some(d) => {
            let secs = duration_seconds(&d);
            if secs <= i64::MAX as u64 {
                Some(secs as i64)
            } else {
                None
            }
        },
        None => None,
    }
}

/// The current Unix time in whole seconds, or 0 where the clock gives none
/// (see `current_timestamp`).
pub fn now_or_epoch() -> (t: i64)
    ensures
        t >= 0,
{
    match current_timestamp() {
        Some(t) => t,
        None => 0,
    }
}

// ---------------------------------------------------------------------------
// Marker genome
// ---------------------------------------------------------------------------

pub open spec fn has_prefix(s: Seq<char>, prefix: Seq<char>) -> bool {
    s.len() >= prefix.len() && s.take(prefix.len() as int) == prefix
}

/// Ids of the markers that are among the explicit ones, in input order.
pub open spec fn custom_ids(pairs: Seq<(Seq<char>, MarkerId)>, explicit: Seq<Seq<char>>) -> Seq<
    MarkerId,
>
    decreases pairs.len(),
{
    if pairs.len() == 0 {
        Seq::empty()
    } else if explicit.contains(pairs.last().0) {
        custom_ids(pairs.drop_last(), explicit).push(pairs.last().1)
    } else {
        custom_ids(pairs.drop_last(), explicit)
    }
}

/// Ids of the generated (not explicit) markers, in input order.
pub open spec fn system_ids(pairs: Seq<(Seq<char>, MarkerId)>, explicit: Seq<Seq<char>>) -> Seq<
    MarkerId,
>
    decreases pairs.len(),
{
    if pairs.len() == 0 {
        Seq::empty()
    } else if explicit.contains(pairs.last().0) {
        system_ids(pairs.drop_last(), explicit)
    } else {
        system_ids(pairs.drop_last(), explicit).push(pairs.last().1)
    }
}

/// Id of the first generated marker whose text starts with `prefix`.
pub open spec fn category_id(
    pairs: Seq<(Seq<char>, MarkerId)>,
    explicit: Seq<Seq<char>>,
    prefix: Seq<char>,
) -> Option<MarkerId>
    decreases pairs.len(),
{
    if pairs.len() == 0 {
        None
    } else if !explicit.contains(pairs[0].0) && has_prefix(pairs[0].0, prefix) {
        Some(pairs[0].1)
    } else {
        category_id(pairs.drop_first(), explicit, prefix)
    }
}

/// The markers of a cell, split into the generated (system) markers and the
/// explicit (custom) ones, with the marker of each classification category.
#[derive(Debug)]
pub struct MarkerGenome {
    system: Vec<MarkerId>,
    custom: Vec<MarkerId>,
    scope: Option<MarkerId>,
    kind: Option<MarkerId>,
    status: Option<MarkerId>,
    trust: Option<MarkerId>,
    sensitivity: Option<MarkerId>,
}

pub open spec fn u32_bytes_le(ids: Seq<MarkerId>) -> Seq<u8>
    decreases ids.len(),
{
    if ids.len() == 0 {
        Seq::empty()
    } else {
        u32_bytes_le(ids.drop_last()) + seq![
            (ids.last() % 256) as u8,
            ((ids.last() / 256) % 256) as u8,
            ((ids.last() / 65536) % 256) as u8,
            (ids.last() / 16777216) as u8,
        ]
    }
}

pub open spec fn explicit_views(explicit: Seq<String>) -> Seq<Seq<char>> {
    explicit.map_values(|s: String| s@)
}

pub open spec fn marker_pair_views(pairs: Seq<(String, MarkerId)>) -> Seq<(Seq<char>, MarkerId)> {
    pairs.map_values(|p: (String, MarkerId)| (p.0@, p.1))
}

fn contains_string(list: &Vec<String>, s: &String) -> (b: bool)
    ensures
        b == explicit_views(list@).contains(s@),
{
    let mut i: usize = 0;
    while i < list.len()
        invariant
            i <= list.len(),
            forall|k: int| 0 <= k < i ==> list@[k]@ != s@,
        decreases list.len() - i,
    {
        if str_eq(list[i].as_str(), s.as_str()) {
            proof {
                assert(explicit_views(list@)[i as int] == s@);
            }
            return true;
        }
        i += 1;
    }
    proof {
        if explicit_views(list@).contains(s@) {
            let k = choose|k: int| 0 <= k < list@.len() && explicit_views(list@)[k] == s@;
            assert(list@[k]@ == s@);
        }
    }
    false
}

fn starts_with(s: &String, prefix: &str) -> (b: bool)
    ensures
        b == has_prefix(s@, prefix@),
{
    let a = chars_of(s.as_str());
    let p = chars_of(prefix);
    if a.len() < p.len() {
        return false;
    }
    let mut i: usize = 0;
    while i < p.len()
        invariant
            i <= p.len(),
            p.len() <= a.len(),
            a@ == s@,
            p@ == prefix@,
            forall|k: int| 0 <= k < i ==> a@[k] == p@[k],
        decreases p.len() - i,
    {
        if a[i] != p[i] {
            proof {
                assert(a@.take(p@.len() as int)[i as int] != p@[i as int]);
                assert(a@.take(p@.len() as int) != p@);
                assert(a@ == s@);
                assert(p@ == prefix@);
                assert(!has_prefix(s@, prefix@));
            }
            return false;
        }
        i += 1;
    }
    proof {
        assert(a@.take(p@.len() as int) =~= p@);
    }
    true
}

impl MarkerGenome {
    pub closed spec fn system_seq(&self) -> Seq<MarkerId> {
        self.system@
    }

    pub closed spec fn custom_seq(&self) -> Seq<MarkerId> {
        self.custom@
    }

    pub closed spec fn scope_spec(&self) -> Option<MarkerId> {
        self.scope
    }

    pub closed spec fn kind_spec(&self) -> Option<MarkerId> {
        self.kind
    }

    pub closed spec fn status_spec(&self) -> Option<MarkerId> {
        self.status
    }

    pub closed spec fn trust_spec(&self) -> Option<MarkerId> {
        self.trust
    }

    pub closed spec fn sensitivity_spec(&self) -> Option<MarkerId> {
        self.sensitivity
    }

    /// The genome with exactly these system and custom markers and category
    /// markers (a stored genome, read back).
    pub fn from_parts(
        system: Vec<MarkerId>,
        custom: Vec<MarkerId>,
        scope: Option<MarkerId>,
        kind: Option<MarkerId>,
        status: Option<MarkerId>,
        trust: Option<MarkerId>,
        sensitivity: Option<MarkerId>,
    ) -> (g: Self)
        ensures
            g.system_seq() == system@,
            g.custom_seq() == custom@,
            g.scope_spec() == scope,
            g.kind_spec() == kind,
            g.status_spec() == status,
            g.trust_spec() == trust,
            g.sensitivity_spec() == sensitivity,
    {
        MarkerGenome { system, custom, scope, kind, status, trust, sensitivity }
    }

    /// A genome with no markers.
    pub fn empty() -> (g: Self)
        ensures
            g.system_seq() == Seq::<MarkerId>::empty(),
            g.custom_seq() == Seq::<MarkerId>::empty(),
            g.scope_spec() is None && g.kind_spec() is None && g.status_spec() is None
                && g.trust_spec() is None && g.sensitivity_spec() is None,
    {
        MarkerGenome {
            system: Vec::new(),
            custom: Vec::new(),
            scope: None,
            kind: None,
            status: None,
            trust: None,
            sensitivity: None,
        }
    }

    /// A genome whose markers are all custom.
    pub fn from_custom(ids: Vec<MarkerId>) -> (g: Self)
        ensures
            g.system_seq() == Seq::<MarkerId>::empty(),
            g.custom_seq() == ids@,
            g.scope_spec() is None && g.kind_spec() is None && g.status_spec() is None
                && g.trust_spec() is None && g.sensitivity_spec() is None,
    {
        MarkerGenome {
            system: Vec::new(),
            custom: ids,
            scope: None,
            kind: None,
            status: None,
            trust: None,
            sensitivity: None,
        }
    }

    fn category(pairs: &Vec<(String, MarkerId)>, explicit: &Vec<String>, prefix: &str) -> (r:
        Option<MarkerId>)
        ensures
            r == category_id(marker_pair_views(pairs@), explicit_views(explicit@), prefix@),
    {
        let ghost ps = marker_pair_views(pairs@);
        let ghost ex = explicit_views(explicit@);
        let mut i: usize = 0;
        proof {
            assert(ps.skip(0) =~= ps);
        }
        while i < pairs.len()
            invariant
                i <= pairs.len(),
                ps == marker_pair_views(pairs@),
                ex == explicit_views(explicit@),
                category_id(ps, ex, prefix@) == category_id(ps.skip(i as int), ex, prefix@),
            decreases pairs.len() - i,
        {
            proof {
                assert(ps.skip(i as int)[0] == (pairs@[i as int].0@, pairs@[i as int].1));
                assert(ps.skip(i as int).drop_first() =~= ps.skip(i + 1));
            }
            if !contains_string(explicit, &pairs[i].0) && starts_with(&pairs[i].0, prefix) {
                return Some(pairs[i].1);
            }
            i += 1;
        }
        proof {
            assert(ps.skip(i as int).len() == 0);
        }
        None
    }

    /// Splits `(marker, id)` pairs into custom markers (those among `explicit`)
    /// and system markers, and records the first system marker of each of the
    /// `scope:`, `kind:`, `status:`, `trust:` and `sensitivity:` categories.
    pub fn from_canonical_markers(pairs: Vec<(String, MarkerId)>, explicit: &Vec<String>) -> (g:
        Self)
        ensures
            g.system_seq() == system_ids(marker_pair_views(pairs@), explicit_views(explicit@)),
            g.custom_seq() == custom_ids(marker_pair_views(pairs@), explicit_views(explicit@)),
            g.scope_spec() == category_id(
                marker_pair_views(pairs@),
                explicit_views(explicit@),
                "scope:"@,
            ),
            g.kind_spec() == category_id(
                marker_pair_views(pairs@),
                explicit_views(explicit@),
                "kind:"@,
            ),
            g.status_spec() == category_id(
                marker_pair_views(pairs@),
                explicit_views(explicit@),
                "status:"@,
            ),
            g.trust_spec() == category_id(
                marker_pair_views(pairs@),
                explicit_views(explicit@),
                "trust:"@,
            ),
            g.sensitivity_spec() == category_id(
                marker_pair_views(pairs@),
                explicit_views(explicit@),
                "sensitivity:"@,
            ),
    {
        let ghost ps = marker_pair_views(pairs@);
        let ghost ex = explicit_views(explicit@);
        let mut system: Vec<MarkerId> = Vec::new();
        let mut custom: Vec<MarkerId> = Vec::new();
        let mut i: usize = 0;
        while i < pairs.len()
            invariant
                i <= pairs.len(),
                ps == marker_pair_views(pairs@),
                ex == explicit_views(explicit@),
                system@ == system_ids(ps.take(i as int), ex),
                custom@ == custom_ids(ps.take(i as int), ex),
            decreases pairs.len() - i,
        {
            proof {
                assert(ps.take(i + 1).drop_last() =~= ps.take(i as int));
                assert(ps.take(i + 1).last() == (pairs@[i as int].0@, pairs@[i as int].1));
            }
            if contains_string(explicit, &pairs[i].0) {
                custom.push(pairs[i].1);
            } else {
                system.push(pairs[i].1);
            }
            i += 1;
        }
        proof {
            assert(ps.take(i as int) =~= ps);
        }
        let scope = Self::category(&pairs, explicit, "scope:");
        let kind = Self::category(&pairs, explicit, "kind:");
        let status = Self::category(&pairs, explicit, "status:");
        let trust = Self::category(&pairs, explicit, "trust:");
        let sensitivity = Self::category(&pairs, explicit, "sensitivity:");
        MarkerGenome { system, custom, scope, kind, status, trust, sensitivity }
    }

    pub fn scope_marker(&self) -> (r: Option<MarkerId>)
        ensures
            r == self.scope_spec(),
    {
        self.scope
    }

    pub fn scope_marker_id(&self) -> (r: Option<MarkerId>)
        ensures
            r == self.scope_spec(),
    {
        self.scope
    }

    pub fn kind_marker(&self) -> (r: Option<MarkerId>)
        ensures
            r == self.kind_spec(),
    {
        self.kind
    }

    pub fn kind_marker_id(&self) -> (r: Option<MarkerId>)
        ensures
            r == self.kind_spec(),
    {
        self.kind
    }

    pub fn status_marker(&self) -> (r: Option<MarkerId>)
        ensures
            r == self.status_spec(),
    {
        self.status
    }

    pub fn status_marker_id(&self) -> (r: Option<MarkerId>)
        ensures
            r == self.status_spec(),
    {
        self.status
    }

    pub fn trust_marker(&self) -> (r: Option<MarkerId>)
        ensures
            r == self.trust_spec(),
    {
        self.trust
    }

    pub fn trust_marker_id(&self) -> (r: Option<MarkerId>)
        ensures
            r == self.trust_spec(),
    {
        self.trust
    }

    pub fn sensitivity_marker(&self) -> (r: Option<MarkerId>)
        ensures
            r == self.sensitivity_spec(),
    {
        self.sensitivity
    }

    pub fn sensitivity_marker_id(&self) -> (r: Option<MarkerId>)
        ensures
            r == self.sensitivity_spec(),
    {
        self.sensitivity
    }

    pub fn is_empty(&self) -> (b: bool)
        ensures
            b == (self.system_seq().len() == 0 && self.custom_seq().len() == 0),
    {
        self.system.len() == 0 && self.custom.len() == 0
    }

    pub fn custom_marker_ids(&self) -> (v: Vec<MarkerId>)
        ensures
            v@ == self.custom_seq(),
    {
        self.custom.clone()
    }

    pub fn system_marker_ids(&self) -> (v: Vec<MarkerId>)
        ensures
            v@ == self.system_seq(),
    {
        self.system.clone()
    }

    pub fn iter_custom_marker_ids(&self) -> (it: std::vec::IntoIter<MarkerId>)
        ensures
            it.remaining() == self.custom_seq(),
    {
        self.custom.clone().into_iter()
    }

    pub fn iter_system_marker_ids(&self) -> (it: std::vec::IntoIter<MarkerId>)
        ensures
            it.remaining() == self.system_seq(),
    {
        self.system.clone().into_iter()
    }

    /// System ids followed by custom ids.
    pub fn iter_all_marker_ids(&self) -> (it: std::vec::IntoIter<MarkerId>)
        ensures
            it.remaining() == self.system_seq() + self.custom_seq(),
    {
        let mut v = self.system.clone();
        let mut c = self.custom.clone();
        v.append(&mut c);
        v.into_iter()
    }

    /// Every marker id of the genome, in increasing order without repetition.
    pub fn all_marker_ids(&self) -> (v: Vec<MarkerId>)
        ensures
            strictly_increasing32(v@),
            v@.to_set() == (self.system_seq() + self.custom_seq()).to_set(),
    {
        let mut all = self.system.clone();
        let mut c = self.custom.clone();
        all.append(&mut c);
        sort_dedup32(&all)
    }

    /// Lowercase hexadecimal SHA-256 of the ordered marker ids (4 little-endian
    /// bytes each).
    pub fn fingerprint(&self) -> (s: String)
        ensures
            s@.len() == 64,
            exists|ids: Seq<MarkerId>|
                strictly_increasing32(ids) && ids.to_set() == (self.system_seq()
                    + self.custom_seq()).to_set() && s@ == hex_lower(
                    sha256_digest(u32_bytes_le(ids)),
                ),
    {
        let ids = self.all_marker_ids();
        let mut bytes: Vec<u8> = Vec::new();
        let mut i: usize = 0;
        while i < ids.len()
            invariant
                i <= ids.len(),
                bytes@ == u32_bytes_le(ids@.take(i as int)),
            decreases ids.len() - i,
        {
            let x = ids[i];
            bytes.push((x % 256) as u8);
            bytes.push(((x / 256) % 256) as u8);
            bytes.push(((x / 65536) % 256) as u8);
            bytes.push((x / 16777216) as u8);
            proof {
                assert(ids@.take(i + 1).drop_last() =~= ids@.take(i as int));
                assert(ids@.take(i + 1).last() == x);
                assert(bytes@ =~= u32_bytes_le(ids@.take(i + 1)));
            }
            i += 1;
        }
        proof {
            assert(ids@.take(i as int) =~= ids@);
        }
        sha256_hex(bytes.as_slice())
    }
}

// ---------------------------------------------------------------------------
// Memory cells
// ---------------------------------------------------------------------------

/// One remembered fact with its classification and markers.
#[derive(Debug)]
pub struct MemoryCell {
    pub id: CellId,
    pub kind: MemoryKind,
    pub subject: Option<String>,
    pub value: MemoryValue,
    pub scope: String,
    pub status: MemoryStatus,
    pub trust: TrustLevel,
    pub sensitivity: SensitivityLevel,
    pub created_at: i64,
    pub updated_at: i64,
    pub markers: Vec<MarkerId>,
    pub marker_genome: MarkerGenome,
    pub source: Option<MemorySource>,
    pub links: Vec<CellId>,
}

/// The marker ids a cell is indexed under: its marker list together with
/// every id of its genome.
pub open spec fn cell_marker_set(c: MemoryCell) -> Set<MarkerId> {
    (c.markers@ + c.marker_genome.system_seq() + c.marker_genome.custom_seq()).to_set()
}

impl MemoryCell {
    /// A cell stamped with the current time, whose given markers are all
    /// custom markers of its genome.
    pub fn new(
        id: CellId,
        kind: MemoryKind,
        subject: Option<String>,
        value: MemoryValue,
        scope: String,
        status: MemoryStatus,
        trust: TrustLevel,
        sensitivity: SensitivityLevel,
        markers: Vec<MarkerId>,
        source: Option<MemorySource>,
        links: Vec<CellId>,
    ) -> (c: MemoryCell)
        ensures
            c.id == id && c.kind == kind && c.subject == subject && c.value == value && c.scope
                == scope && c.status == status && c.trust == trust && c.sensitivity == sensitivity
                && c.source == source && c.links == links,
            c.created_at == c.updated_at,
            c.markers@ == markers@,
            c.marker_genome.custom_seq() == markers@,
            c.marker_genome.system_seq() == Seq::<MarkerId>::empty(),
    {
        let now = now_or_epoch();
        let genome = MarkerGenome::from_custom(markers.clone());
        MemoryCell {
            id,
            kind,
            subject,
            value,
            scope,
            status,
            trust,
            sensitivity,
            created_at: now,
            updated_at: now,
            markers,
            marker_genome: genome,
            source,
            links,
        }
    }

    /// A cell stamped with the current time whose marker list is the ordered
    /// set of its genome's ids.
    pub fn new_with_marker_genome(
        id: CellId,
        kind: MemoryKind,
        subject: Option<String>,
        value: MemoryValue,
        scope: String,
        status: MemoryStatus,
        trust: TrustLevel,
        sensitivity: SensitivityLevel,
        marker_genome: MarkerGenome,
        source: Option<MemorySource>,
        links: Vec<CellId>,
    ) -> (c: MemoryCell)
        ensures
            c.id == id && c.kind == kind && c.subject == subject && c.value == value && c.scope
                == scope && c.status == status && c.trust == trust && c.sensitivity == sensitivity
                && c.source == source && c.links == links && c.marker_genome == marker_genome,
            c.created_at == c.updated_at,
            strictly_increasing32(c.markers@),
            c.markers@.to_set() == (marker_genome.system_seq()
                + marker_genome.custom_seq()).to_set(),
    {
        let now = now_or_epoch();
        let markers = marker_genome.all_marker_ids();
        MemoryCell {
            id,
            kind,
            subject,
            value,
            scope,
            status,
            trust,
            sensitivity,
            created_at: now,
            updated_at: now,
            markers,
            marker_genome,
            source,
            links,
        }
    }

    /// The ordered set of marker ids the cell is indexed under.
    pub fn marker_ids_for_indexing(&self) -> (v: Vec<MarkerId>)
        ensures
            strictly_increasing32(v@),
            v@.to_set() == cell_marker_set(*self),
    {
        let mut all = self.markers.clone();
        let mut system = self.marker_genome.system_marker_ids();
        let mut custom = self.marker_genome.custom_marker_ids();
        all.append(&mut system);
        all.append(&mut custom);
        proof {
            assert(all@ =~= self.markers@ + self.marker_genome.system_seq()
                + self.marker_genome.custom_seq());
        }
        sort_dedup32(&all)
    }

    /// Whether the cell is indexed under `marker`.
    pub fn contains_marker(&self, marker: MarkerId) -> (b: bool)
        ensures
            b == cell_marker_set(*self).contains(marker),
    {
        let ids = self.marker_ids_for_indexing();
        let mut i: usize = 0;
        while i < ids.len()
            invariant
                i <= ids.len(),
                ids@.to_set() == cell_marker_set(*self),
                forall|k: int| 0 <= k < i ==> ids@[k] != marker,
            decreases ids.len() - i,
        {
            if ids[i] == marker {
                proof {
                    assert(ids@.to_set().contains(ids@[i as int]));
                }
                return true;
            }
            i += 1;
        }
        proof {
            if ids@.to_set().contains(marker) {
                let k = choose|k: int| 0 <= k < ids@.len() && ids@[k] == marker;
            }
        }
        false
    }
}
impl Clone for MarkerGenome {
    fn clone(&self) -> (g: Self)
        ensures
            g.system_seq() == self.system_seq(),
            g.custom_seq() == self.custom_seq(),
            g.scope_spec() == self.scope_spec(),
            g.kind_spec() == self.kind_spec(),
            g.status_spec() == self.status_spec(),
            g.trust_spec() == self.trust_spec(),
            g.sensitivity_spec() == self.sensitivity_spec(),
    {
        MarkerGenome {
            system: copy_ids(&self.system),
            custom: copy_ids(&self.custom),
            scope: self.scope,
            kind: self.kind,
            status: self.status,
            trust: self.trust,
            sensitivity: self.sensitivity,
        }
    }
}

/// A copy of a list of ids.
pub fn copy_ids(v: &Vec<MarkerId>) -> (out: Vec<MarkerId>)
    ensures
        out@ == v@,
{
    let mut out: Vec<MarkerId> = Vec::new();
    let mut i: usize = 0;
    while i < v.len()
        invariant
            i <= v.len(),
            out@ == v@.take(i as int),
        decreases v.len() - i,
    {
        out.push(v[i]);
        i += 1;
        proof {
            assert(out@ =~= v@.take(i as int));
        }
    }
    proof {
        assert(v@.take(i as int) =~= v@);
    }
    out
}

/// A copy of a list of cell ids.
pub fn copy_cell_ids(v: &Vec<CellId>) -> (out: Vec<CellId>)
    ensures
        out@ == v@,
{
    let mut out: Vec<CellId> = Vec::new();
    let mut i: usize = 0;
    while i < v.len()
        invariant
            i <= v.len(),
            out@ == v@.take(i as int),
        decreases v.len() - i,
    {
        out.push(v[i]);
        i += 1;
        proof {
            assert(out@ =~= v@.take(i as int));
        }
    }
    proof {
        assert(v@.take(i as int) =~= v@);
    }
    out
}

/// `a` holds what a copy of `b` holds: the same identity, classification,
/// times, markers, genome, subject and links (the value and the source are
/// copied as well, but nothing here speaks of them).
pub open spec fn cell_copy(a: MemoryCell, b: MemoryCell) -> bool {
    &&& a.id == b.id
    &&& a.kind == b.kind
    &&& a.subject == b.subject
    &&& a.scope == b.scope
    &&& a.status == b.status
    &&& a.trust == b.trust
    &&& a.sensitivity == b.sensitivity
    &&& a.created_at == b.created_at
    &&& a.updated_at == b.updated_at
    &&& a.markers@ == b.markers@
    &&& a.marker_genome.system_seq() == b.marker_genome.system_seq()
    &&& a.marker_genome.custom_seq() == b.marker_genome.custom_seq()
    &&& a.marker_genome.scope_spec() == b.marker_genome.scope_spec()
    &&& a.marker_genome.kind_spec() == b.marker_genome.kind_spec()
    &&& a.marker_genome.status_spec() == b.marker_genome.status_spec()
    &&& a.marker_genome.trust_spec() == b.marker_genome.trust_spec()
    &&& a.marker_genome.sensitivity_spec() == b.marker_genome.sensitivity_spec()
    &&& a.links@ == b.links@
    &&& plain_text(a.value) == plain_text(b.value)
}

impl Clone for MemoryCell {
    fn clone(&self) -> (c: Self)
        ensures
            cell_copy(c, *self),
    {
        let subject = match &self.subject {
            Some(s) => Some(s.clone()),
            None => None,
        };
        MemoryCell {
            id: self.id,
            kind: self.kind,
            subject,
            value: self.value.clone(),
            scope: self.scope.clone(),
            status: self.status,
            trust: self.trust,
            sensitivity: self.sensitivity,
            created_at: self.created_at,
            updated_at: self.updated_at,
            markers: copy_ids(&self.markers),
            marker_genome: self.marker_genome.clone(),
            source: self.source.clone(),
            links: copy_cell_ids(&self.links),
        }
    }
}

impl Default for RecallMode {
    /// Focused.
    fn default() -> (m: Self)
        ensures
            m == RecallMode::Focused,
    {
        RecallMode::Focused
    }
}

} // verus!

//! Retrieval evaluation datasets: the neutral dataset shape, its validation,
//! the generated fixtures, and the keyword-scan baseline that the memory
//! engine is measured against.
use vstd::prelude::*;
use crate::errors::MgeError;
use crate::indexes::IndexKind;
use crate::models::RecallMode;
use crate::markers::{split_alnum, lemma_split_alnum_nonempty};
use crate::ingestion::{utf8_len, utf8_length};
use crate::text::{
    chars_of, chars_eq, chars_lt, push_str, push_chars, push_decimal_str, string_from,
    string_from_chars, unicode_whitespace, is_unicode_whitespace, views_of, decimal,
    ascii_alnum, is_ascii_alnum, ascii_lower_all, ascii_lower_chars, seq_lt,
    lemma_seq_lt_irreflexive, lemma_seq_lt_transitive, lemma_seq_lt_total,
};

verus! {

// ---------------------------------------------------------------------------
// Dataset shape
// ---------------------------------------------------------------------------

/// One memory of an evaluation dataset.
pub struct EvalMemory {
    pub id: String,
    pub scope: String,
    pub subject: Option<String>,
    pub text: String,
    pub markers: Vec<String>,
    pub kind: String,
    pub status: String,
    pub trust: String,
    pub sensitivity: String,
}

/// One query of an evaluation dataset, with the ids of the memories that
/// answer it (none for a question that should be declined).
pub struct EvalQuery {
    pub id: String,
    pub query: String,
    pub scope: Option<String>,
    pub relevant_ids: Vec<String>,
    pub category: String,
}

/// A named set of memories and queries.
pub struct EvalDataset {
    pub name: String,
    pub source: String,
    pub memories: Vec<EvalMemory>,
    pub queries: Vec<EvalQuery>,
}

pub struct EvalMemoryView {
    pub id: Seq<char>,
    pub scope: Seq<char>,
    pub subject: Option<Seq<char>>,
    pub text: Seq<char>,
    pub markers: Seq<Seq<char>>,
    pub kind: Seq<char>,
    pub status: Seq<char>,
    pub trust: Seq<char>,
    pub sensitivity: Seq<char>,
}

pub struct EvalQueryView {
    pub id: Seq<char>,
    pub query: Seq<char>,
    pub scope: Option<Seq<char>>,
    pub relevant_ids: Seq<Seq<char>>,
    pub category: Seq<char>,
}

pub struct EvalDatasetView {
    pub name: Seq<char>,
    pub source: Seq<char>,
    pub memories: Seq<EvalMemoryView>,
    pub queries: Seq<EvalQueryView>,
}

pub open spec fn opt_text(o: Option<String>) -> Option<Seq<char>> {
    match o {
        Some(s) => Some(s@),
        None => None,
    }
}

impl View for EvalMemory {
    type V = EvalMemoryView;

    open spec fn view(&self) -> EvalMemoryView {
        EvalMemoryView {
            id: self.id@,
            scope: self.scope@,
            subject: opt_text(self.subject),
            text: self.text@,
            markers: views_of(self.markers@),
            kind: self.kind@,
            status: self.status@,
            trust: self.trust@,
            sensitivity: self.sensitivity@,
        }
    }
}

impl View for EvalQuery {
    type V = EvalQueryView;

    open spec fn view(&self) -> EvalQueryView {
        EvalQueryView {
            id: self.id@,
            query: self.query@,
            scope: opt_text(self.scope),
            relevant_ids: views_of(self.relevant_ids@),
            category: self.category@,
        }
    }
}

pub open spec fn memory_views(v: Seq<EvalMemory>) -> Seq<EvalMemoryView> {
    v.map_values(|m: EvalMemory| m@)
}

pub open spec fn query_views(v: Seq<EvalQuery>) -> Seq<EvalQueryView> {
    v.map_values(|q: EvalQuery| q@)
}

impl View for EvalDataset {
    type V = EvalDatasetView;

    open spec fn view(&self) -> EvalDatasetView {
        EvalDatasetView {
            name: self.name@,
            source: self.source@,
            memories: memory_views(self.memories@),
            queries: query_views(self.queries@),
        }
    }
}

// ---------------------------------------------------------------------------
// Defaults of the dataset format
// ---------------------------------------------------------------------------

pub fn default_scope() -> (s: String)
    ensures
        s@ == "global"@,
{
    string_from("global")
}

pub fn default_kind() -> (s: String)
    ensures
        s@ == "project_fact"@,
{
    string_from("project_fact")
}

pub fn default_status() -> (s: String)
    ensures
        s@ == "active"@,
{
    string_from("active")
}

pub fn default_trust() -> (s: String)
    ensures
        s@ == "user_confirmed"@,
{
    string_from("user_confirmed")
}

pub fn default_sensitivity() -> (s: String)
    ensures
        s@ == "private"@,
{
    string_from("private")
}

// ---------------------------------------------------------------------------
// Selections of the evaluation run
// ---------------------------------------------------------------------------

/// How benchmark conversations become memories.
#[derive(Clone, Copy, Debug, PartialEq, Eq, Structural)]
pub enum IngestMode {
    RawTurn,
    SessionDoc,
    SessionChunk,
    SessionPlusTurn,
    KeyFact,
}

pub open spec fn ingest_mode_name(m: IngestMode) -> Seq<char> {
    match m {
        IngestMode::RawTurn => "raw-turn"@,
        IngestMode::SessionDoc => "session-doc"@,
        IngestMode::SessionChunk => "session-chunk"@,
        IngestMode::SessionPlusTurn => "session-plus-turn"@,
        IngestMode::KeyFact => "key-fact"@,
    }
}

impl IngestMode {
    pub fn as_str(self) -> (s: &'static str)
        ensures
            s@ == ingest_mode_name(self),
    {
        match self {
            IngestMode::RawTurn => "raw-turn",
            IngestMode::SessionDoc => "session-doc",
            IngestMode::SessionChunk => "session-chunk",
            IngestMode::SessionPlusTurn => "session-plus-turn",
            IngestMode::KeyFact => "key-fact",
        }
    }
}

/// Size of a generated fixture.
#[derive(Clone, Copy, Debug, PartialEq, Eq, Structural)]
pub enum GeneratedProfile {
    Tiny,
    Small,
    Medium,
}

/// Which kinds of queries a generated fixture holds.
#[derive(Clone, Copy, Debug, PartialEq, Eq, Structural)]
pub enum GeneratedQueryProfile {
    Lexical,
    Paraphrase,
    HardNegative,
    Mixed,
}

pub open spec fn query_profile_name(p: GeneratedQueryProfile) -> Seq<char> {
    match p {
        GeneratedQueryProfile::Lexical => "lexical"@,
        GeneratedQueryProfile::Paraphrase => "paraphrase"@,
        GeneratedQueryProfile::HardNegative => "hard-negative"@,
        GeneratedQueryProfile::Mixed => "mixed"@,
    }
}

impl GeneratedQueryProfile {
    pub fn as_str(self) -> (s: &'static str)
        ensures
            s@ == query_profile_name(self),
    {
        match self {
            GeneratedQueryProfile::Lexical => "lexical",
            GeneratedQueryProfile::Paraphrase => "paraphrase",
            GeneratedQueryProfile::HardNegative => "hard-negative",
            GeneratedQueryProfile::Mixed => "mixed",
        }
    }
}

/// Which candidate indexes an evaluation runs.
#[derive(Clone, Copy, Debug, PartialEq, Eq, Structural)]
pub enum IndexSelection {
    Exact,
    BinaryFuse,
    Both,
}

/// Which recall modes an evaluation runs.
#[derive(Clone, Copy, Debug, PartialEq, Eq, Structural)]
pub enum ModeSelection {
    Focused,
    Broad,
    FocusedBroad,
}

/// Which baselines an evaluation runs.
#[derive(Clone, Copy, Debug, PartialEq, Eq, Structural)]
pub enum BaselineSelection {
    Keyword,
    Bm25,
    TextIndex,
    PageToken,
    All,
    Both,
    Nothing,
}

/// A baseline retrieval system.
#[derive(Clone, Copy, Debug, PartialEq, Eq, Structural)]
pub enum BaselineKind {
    Keyword,
    Bm25,
    TextIndex,
    PageToken,
}

pub fn selected_indexes(index: IndexSelection) -> (out: Vec<IndexKind>)
    ensures
        out@ == match index {
            IndexSelection::Exact => seq![IndexKind::ExactMarkerPage],
            IndexSelection::BinaryFuse => seq![IndexKind::BinaryFusePage],
            IndexSelection::Both => seq![IndexKind::ExactMarkerPage, IndexKind::BinaryFusePage],
        },
{
    match index {
        IndexSelection::Exact => vec![IndexKind::ExactMarkerPage],
        IndexSelection::BinaryFuse => vec![IndexKind::BinaryFusePage],
        IndexSelection::Both => vec![IndexKind::ExactMarkerPage, IndexKind::BinaryFusePage],
    }
}

pub fn selected_modes(mode: ModeSelection) -> (out: Vec<RecallMode>)
    ensures
        out@ == match mode {
            ModeSelection::Focused => seq![RecallMode::Focused],
            ModeSelection::Broad => seq![RecallMode::Broad],
            ModeSelection::FocusedBroad => seq![RecallMode::Focused, RecallMode::Broad],
        },
{
    match mode {
        ModeSelection::Focused => vec![RecallMode::Focused],
        ModeSelection::Broad => vec![RecallMode::Broad],
        ModeSelection::FocusedBroad => vec![RecallMode::Focused, RecallMode::Broad],
    }
}

pub fn selected_baselines(selection: BaselineSelection) -> (out: Vec<BaselineKind>)
    ensures
        out@ == match selection {
            BaselineSelection::Keyword => seq![BaselineKind::Keyword],
            BaselineSelection::Bm25 => seq![BaselineKind::Bm25],
            BaselineSelection::TextIndex => seq![BaselineKind::TextIndex],
            BaselineSelection::PageToken => seq![BaselineKind::PageToken],
            BaselineSelection::Both => seq![BaselineKind::Keyword, BaselineKind::Bm25],
            BaselineSelection::All => seq![
                BaselineKind::Keyword,
                BaselineKind::Bm25,
                BaselineKind::TextIndex,
                BaselineKind::PageToken,
            ],
            BaselineSelection::Nothing => Seq::<BaselineKind>::empty(),
        },
{
    match selection {
        BaselineSelection::Keyword => vec![BaselineKind::Keyword],
        BaselineSelection::Bm25 => vec![BaselineKind::Bm25],
        BaselineSelection::TextIndex => vec![BaselineKind::TextIndex],
        BaselineSelection::PageToken => vec![BaselineKind::PageToken],
        BaselineSelection::Both => vec![BaselineKind::Keyword, BaselineKind::Bm25],
        BaselineSelection::All => vec![
            BaselineKind::Keyword,
            BaselineKind::Bm25,
            BaselineKind::TextIndex,
            BaselineKind::PageToken,
        ],
        BaselineSelection::Nothing => Vec::new(),
    }
}

// ---------------------------------------------------------------------------
// Validation
// ---------------------------------------------------------------------------

/// Empty after trimming whitespace.
pub open spec fn is_blank(s: Seq<char>) -> bool {
    forall|i: int| 0 <= i < s.len() ==> is_unicode_whitespace(#[trigger] s[i])
}

pub fn blank(s: &str) -> (b: bool)
    ensures
        b == is_blank(s@),
{
    let v = chars_of(s);
    let mut i: usize = 0;
    while i < v.len()
        invariant
            i <= v.len(),
            v@ == s@,
            forall|k: int| 0 <= k < i ==> is_unicode_whitespace(#[trigger] v@[k]),
        decreases v.len() - i,
    {
        if !unicode_whitespace(v[i]) {
            return false;
        }
        i += 1;
    }
    true
}

pub open spec fn memory_ids(ms: Seq<EvalMemoryView>) -> Seq<Seq<char>> {
    ms.map_values(|m: EvalMemoryView| m.id)
}

/// What is wrong with the memory at `i`, given the memories before it.
pub open spec fn memory_problem(ms: Seq<EvalMemoryView>, i: int) -> Option<Seq<char>> {
    let m = ms[i];
    if is_blank(m.id) {
        Some("memory id must not be empty"@)
    } else if memory_ids(ms.take(i)).contains(m.id) {
        Some("duplicate memory id "@ + m.id)
    } else if is_blank(m.text) {
        Some("memory "@ + m.id + " has empty text"@)
    } else {
        None
    }
}

/// The first problem among the first `n` memories.
pub open spec fn first_memory_problem(ms: Seq<EvalMemoryView>, n: int) -> Option<Seq<char>>
    decreases n,
{
    if n <= 0 {
        None
    } else {
        match first_memory_problem(ms, n - 1) {
            Some(p) => Some(p),
            None => memory_problem(ms, n - 1),
        }
    }
}

/// The first of the first `n` relevant ids that is not a memory id.
pub open spec fn first_unknown(rel: Seq<Seq<char>>, ids: Seq<Seq<char>>, n: int) -> Option<Seq<char>>
    decreases n,
{
    if n <= 0 {
        None
    } else {
        match first_unknown(rel, ids, n - 1) {
            Some(r) => Some(r),
            None => if ids.contains(rel[n - 1]) {
                None
            } else {
                Some(rel[n - 1])
            },
        }
    }
}

pub open spec fn query_problem(q: EvalQueryView, ids: Seq<Seq<char>>) -> Option<Seq<char>> {
    if is_blank(q.id) {
        Some("query id must not be empty"@)
    } else if is_blank(q.query) {
        Some("query "@ + q.id + " has empty text"@)
    } else {
        match first_unknown(q.relevant_ids, ids, q.relevant_ids.len() as int) {
            Some(r) => Some("query "@ + q.id + " references unknown relevant memory "@ + r),
            None => None,
        }
    }
}

pub open spec fn first_query_problem(qs: Seq<EvalQueryView>, ids: Seq<Seq<char>>, n: int) -> Option<
    Seq<char>,
>
    decreases n,
{
    if n <= 0 {
        None
    } else {
        match first_query_problem(qs, ids, n - 1) {
            Some(p) => Some(p),
            None => query_problem(qs[n - 1], ids),
        }
    }
}

/// The message of the first problem of a dataset, checked in order: no
/// memories, no queries, then each memory (blank id, repeated id, blank
/// text), then each query (blank id, blank text, a relevant id that names no
/// memory).
pub open spec fn dataset_problem(d: EvalDatasetView) -> Option<Seq<char>> {
    if d.memories.len() == 0 {
        Some("dataset contains no memories"@)
    } else if d.queries.len() == 0 {
        Some("dataset contains no queries"@)
    } else {
        match first_memory_problem(d.memories, d.memories.len() as int) {
            Some(p) => Some(p),
            None => first_query_problem(
                d.queries,
                memory_ids(d.memories),
                d.queries.len() as int,
            ),
        }
    }
}

proof fn lemma_first_memory_problem_stays(ms: Seq<EvalMemoryView>, m: int, n: int)
    requires
        0 <= m <= n,
    ensures
        first_memory_problem(ms, m) is Some ==> first_memory_problem(ms, n) == first_memory_problem(ms, m),
    decreases n - m,
{
    if m < n {
        lemma_first_memory_problem_stays(ms, m, n - 1);
    }
}

proof fn lemma_first_query_problem_stays(qs: Seq<EvalQueryView>, ids: Seq<Seq<char>>, m: int, n: int)
    requires
        0 <= m <= n,
    ensures
        first_query_problem(qs, ids, m) is Some ==> first_query_problem(qs, ids, n)
            == first_query_problem(qs, ids, m),
    decreases n - m,
{
    if m < n {
        lemma_first_query_problem_stays(qs, ids, m, n - 1);
    }
}

proof fn lemma_first_unknown_stays(rel: Seq<Seq<char>>, ids: Seq<Seq<char>>, m: int, n: int)
    requires
        0 <= m <= n,
    ensures
        first_unknown(rel, ids, m) is Some ==> first_unknown(rel, ids, n) == first_unknown(rel, ids, m),
    decreases n - m,
{
    if m < n {
        lemma_first_unknown_stays(rel, ids, m, n - 1);
    }
}

fn contains_string(v: &Vec<String>, s: &str) -> (b: bool)
    ensures
        b == views_of(v@).contains(s@),
{
    let t = chars_of(s);
    let mut i: usize = 0;
    while i < v.len()
        invariant
            i <= v.len(),
            t@ == s@,
            forall|k: int| 0 <= k < i ==> v@[k]@ != s@,
        decreases v.len() - i,
    {
        if chars_eq(&chars_of(v[i].as_str()), &t) {
            proof {
                assert(views_of(v@)[i as int] == s@);
            }
            return true;
        }
        i += 1;
    }
    proof {
        if views_of(v@).contains(s@) {
            let k = choose|k: int| 0 <= k < views_of(v@).len() && views_of(v@)[k] == s@;
            assert(v@[k]@ == s@);
        }
    }
    false
}

fn invalid(m: String) -> (e: MgeError)
    ensures
        e == MgeError::InvalidInput(m),
{
    MgeError::InvalidInput(m)
}

/// Checks that a dataset has memories and queries, that memory ids are
/// present and distinct, that texts are present, and that every relevant id
/// of a query names a memory. The error is the first problem found.
pub fn validate_dataset(dataset: &EvalDataset) -> (r: Result<(), MgeError>)
    ensures
        match dataset_problem(dataset@) {
            None => r is Ok,
            Some(p) => r matches Err(MgeError::InvalidInput(m)) && m@ == p,
        },
{
    if dataset.memories.len() == 0 {
        return Err(invalid(string_from("dataset contains no memories")));
    }
    if dataset.queries.len() == 0 {
        return Err(invalid(string_from("dataset contains no queries")));
    }
    let ghost ms = dataset@.memories;
    let mut seen: Vec<String> = Vec::new();
    let mut i: usize = 0;
    while i < dataset.memories.len()
        invariant
            i <= dataset.memories@.len(),
            ms == dataset@.memories,
            ms.len() == dataset.memories@.len(),
            views_of(seen@) == memory_ids(ms.take(i as int)),
            first_memory_problem(ms, i as int) is None,
            dataset.memories@.len() > 0,
            dataset.queries@.len() > 0,
        decreases dataset.memories@.len() - i,
    {
        let memory = &dataset.memories[i];
        proof {
            assert(ms[i as int] == memory@);
        }
        proof {
            lemma_first_memory_problem_stays(ms, i + 1, ms.len() as int);
        }
        if blank(memory.id.as_str()) {
            return Err(invalid(string_from("memory id must not be empty")));
        }
        if contains_string(&seen, memory.id.as_str()) {
            let mut m = string_from("duplicate memory id ");
            push_str(&mut m, memory.id.as_str());
            return Err(invalid(m));
        }
        if blank(memory.text.as_str()) {
            let mut m = string_from("memory ");
            push_str(&mut m, memory.id.as_str());
            push_str(&mut m, " has empty text");
            return Err(invalid(m));
        }
        let ghost before = seen@;
        seen.push(string_from(memory.id.as_str()));
        proof {
            assert(memory_ids(ms.take(i + 1)) =~= memory_ids(ms.take(i as int)).push(ms[i as int].id));
            assert(views_of(seen@) =~= views_of(before).push(memory.id@));
        }
        i += 1;
    }
    proof {
        assert(ms.take(i as int) =~= ms);
    }
    let ghost ids = memory_ids(ms);
    let ghost qs = dataset@.queries;
    let mut j: usize = 0;
    while j < dataset.queries.len()
        invariant
            j <= dataset.queries@.len(),
            qs == dataset@.queries,
            qs.len() == dataset.queries@.len(),
            views_of(seen@) == ids,
            first_query_problem(qs, ids, j as int) is None,
            ids == memory_ids(dataset@.memories),
            first_memory_problem(dataset@.memories, dataset@.memories.len() as int) is None,
            dataset.memories@.len() > 0,
            dataset.queries@.len() > 0,
        decreases dataset.queries@.len() - j,
    {
        let query = &dataset.queries[j];
        proof {
            assert(qs[j as int] == query@);
        }
        proof {
            lemma_first_query_problem_stays(qs, ids, j + 1, qs.len() as int);
            assert(memory_ids(ms).len() == ms.len());
        }
        if blank(query.id.as_str()) {
            return Err(invalid(string_from("query id must not be empty")));
        }
        if blank(query.query.as_str()) {
            let mut m = string_from("query ");
            push_str(&mut m, query.id.as_str());
            push_str(&mut m, " has empty text");
            return Err(invalid(m));
        }
        let ghost rel = query@.relevant_ids;
        let mut k: usize = 0;
        while k < query.relevant_ids.len()
            invariant
                k <= query.relevant_ids@.len(),
                rel == views_of(query.relevant_ids@),
                views_of(seen@) == ids,
                first_unknown(rel, ids, k as int) is None,
                query@.relevant_ids == rel,
                qs[j as int] == query@,
                j < qs.len(),
                first_query_problem(qs, ids, j as int) is None,
                qs == dataset@.queries,
                ids == memory_ids(dataset@.memories),
                first_memory_problem(dataset@.memories, dataset@.memories.len() as int) is None,
                dataset.memories@.len() > 0,
                dataset.queries@.len() > 0,
                !is_blank(query@.id),
                !is_blank(query@.query),
            decreases query.relevant_ids@.len() - k,
        {
            let relevant = &query.relevant_ids[k];
            proof {
                assert(rel[k as int] == relevant@);
            }
            proof {
                lemma_first_unknown_stays(rel, ids, k + 1, rel.len() as int);
            }
            if !contains_string(&seen, relevant.as_str()) {
                let mut m = string_from("query ");
                push_str(&mut m, query.id.as_str());
                push_str(&mut m, " references unknown relevant memory ");
                push_str(&mut m, relevant.as_str());
                proof {
                    assert(!ids.contains(rel[k as int]));
                    assert(first_unknown(rel, ids, k + 1) == Some(rel[k as int]));
                    assert(query_problem(qs[j as int], ids) == Some(
                        "query "@ + query@.id + " references unknown relevant memory "@ + rel[k as int],
                    ));
                    assert(first_query_problem(qs, ids, j + 1) == query_problem(qs[j as int], ids));
                    lemma_first_query_problem_stays(qs, ids, j + 1, qs.len() as int);
                }
                return Err(invalid(m));
            }
            k += 1;
        }
        proof {
            assert(first_query_problem(qs, ids, j + 1) == query_problem(qs[j as int], ids));
        }
        j += 1;
    }
    Ok(())
}


// ---------------------------------------------------------------------------
// Generated fixtures
// ---------------------------------------------------------------------------

/// Projects, rows per project, and the row stride at which queries are
/// asked, of each fixture size.
pub open spec fn profile_shape(p: GeneratedProfile) -> (nat, nat, nat) {
    match p {
        GeneratedProfile::Tiny => (2, 12, 4),
        GeneratedProfile::Small => (4, 48, 8),
        GeneratedProfile::Medium => (8, 160, 16),
    }
}

pub open spec fn profile_debug_name(p: GeneratedProfile) -> Seq<char> {
    match p {
        GeneratedProfile::Tiny => "Tiny"@,
        GeneratedProfile::Small => "Small"@,
        GeneratedProfile::Medium => "Medium"@,
    }
}

pub open spec fn component_name(i: nat) -> Seq<char> {
    let k = i % 8;
    if k == 0 {
        "storage"@
    } else if k == 1 {
        "security"@
    } else if k == 2 {
        "recall"@
    } else if k == 3 {
        "integration"@
    } else if k == 4 {
        "release"@
    } else if k == 5 {
        "terminal"@
    } else if k == 6 {
        "metadata"@
    } else {
        "checkpoint"@
    }
}

pub open spec fn decision_name(i: nat) -> Seq<char> {
    let k = i % 8;
    if k == 0 {
        "binary_runtime_storage"@
    } else if k == 1 {
        "marker_genome_indexing"@
    } else if k == 2 {
        "payload_encryption"@
    } else if k == 3 {
        "context_packet_output"@
    } else if k == 4 {
        "mcp_json_rpc_adapter"@
    } else if k == 5 {
        "local_first_workflow"@
    } else if k == 6 {
        "sealed_page_catalog"@
    } else {
        "deterministic_recall"@
    }
}

fn component(i: usize) -> (s: &'static str)
    ensures
        s@ == component_name(i as nat),
{
    let k = i % 8;
    if k == 0 {
        "storage"
    } else if k == 1 {
        "security"
    } else if k == 2 {
        "recall"
    } else if k == 3 {
        "integration"
    } else if k == 4 {
        "release"
    } else if k == 5 {
        "terminal"
    } else if k == 6 {
        "metadata"
    } else {
        "checkpoint"
    }
}

fn decision(i: usize) -> (s: &'static str)
    ensures
        s@ == decision_name(i as nat),
{
    let k = i % 8;
    if k == 0 {
        "binary_runtime_storage"
    } else if k == 1 {
        "marker_genome_indexing"
    } else if k == 2 {
        "payload_encryption"
    } else if k == 3 {
        "context_packet_output"
    } else if k == 4 {
        "mcp_json_rpc_adapter"
    } else if k == 5 {
        "local_first_workflow"
    } else if k == 6 {
        "sealed_page_catalog"
    } else {
        "deterministic_recall"
    }
}

pub open spec fn project_scope(p: nat) -> Seq<char> {
    "project_"@ + decimal(p)
}

/// The memory of row `r` of project `p`.
pub open spec fn generated_memory(p: nat, r: nat) -> EvalMemoryView {
    let scope = project_scope(p);
    let component = component_name(r);
    let decision = decision_name(r + p);
    EvalMemoryView {
        id: scope + ":"@ + component + ":"@ + decision + ":"@ + decimal(r),
        scope,
        subject: Some(component + " decision "@ + decimal(r)),
        text: "In "@ + scope + ", the "@ + component + " component uses "@ + decision
            + ". This memory records a project decision, expected behavior, and integration note "@
            + decimal(r) + "."@,
        markers: seq![
            "component:"@ + component,
            "decision:"@ + decision,
            "project:"@ + scope,
        ],
        kind: "project_fact"@,
        status: "active"@,
        trust: "user_confirmed"@,
        sensitivity: "private"@,
    }
}

pub open spec fn lexical_query(p: nat, r: nat) -> EvalQueryView {
    let scope = project_scope(p);
    let component = component_name(r);
    EvalQueryView {
        id: "q:lexical:"@ + scope + ":"@ + component + ":"@ + decimal(r),
        query: "In "@ + scope + ", what does integration note "@ + decimal(r) + " record for "@
            + component + " "@ + decision_name(r + p) + "?"@,
        scope: Some(scope),
        relevant_ids: seq![generated_memory(p, r).id],
        category: "lexical_single_fact"@,
    }
}

pub open spec fn paraphrase_query(p: nat, r: nat) -> EvalQueryView {
    let scope = project_scope(p);
    let component = component_name(r);
    EvalQueryView {
        id: "q:paraphrase:"@ + scope + ":"@ + component + ":"@ + decimal(r),
        query: "For "@ + scope + ", which choice is attached to "@ + component + " record number "@
            + decimal(r) + "?"@,
        scope: Some(scope),
        relevant_ids: seq![generated_memory(p, r).id],
        category: "partial_paraphrase"@,
    }
}

pub open spec fn negative_query(p: nat, r: nat) -> EvalQueryView {
    let scope = project_scope(p);
    let component = component_name(r);
    EvalQueryView {
        id: "q:negative:"@ + scope + ":"@ + component + ":"@ + decimal(r),
        query: "In "@ + scope + ", what deployment deadline is recorded for missing item "@
            + decimal(r) + "?"@,
        scope: Some(scope),
        relevant_ids: Seq::empty(),
        category: "hard_negative"@,
    }
}

pub open spec fn asks_lexical(qp: GeneratedQueryProfile) -> bool {
    qp is Lexical || qp is Mixed
}

pub open spec fn asks_paraphrase(qp: GeneratedQueryProfile) -> bool {
    qp is Paraphrase || qp is Mixed
}

pub open spec fn asks_negative(qp: GeneratedQueryProfile) -> bool {
    qp is HardNegative || qp is Mixed
}

/// The queries asked about row `r` of project `p`: on every `stride`-th row,
/// a lexical, a paraphrased and a hard-negative query, as the profile asks.
pub open spec fn row_queries(qp: GeneratedQueryProfile, p: nat, r: nat, stride: nat) -> Seq<
    EvalQueryView,
> {
    if r % stride == 0 {
        (if asks_lexical(qp) {
            seq![lexical_query(p, r)]
        } else {
            Seq::empty()
        }) + (if asks_paraphrase(qp) {
            seq![paraphrase_query(p, r)]
        } else {
            Seq::empty()
        }) + (if asks_negative(qp) {
            seq![negative_query(p, r)]
        } else {
            Seq::empty()
        })
    } else {
        Seq::empty()
    }
}

/// The memories of the first `n` rows of project `p`.
pub open spec fn project_memories(p: nat, n: nat) -> Seq<EvalMemoryView>
    decreases n,
{
    if n == 0 {
        Seq::empty()
    } else {
        project_memories(p, (n - 1) as nat).push(generated_memory(p, (n - 1) as nat))
    }
}

/// The memories of the first `n` projects, `rows` rows each.
pub open spec fn fixture_memories(n: nat, rows: nat) -> Seq<EvalMemoryView>
    decreases n,
{
    if n == 0 {
        Seq::empty()
    } else {
        fixture_memories((n - 1) as nat, rows) + project_memories((n - 1) as nat, rows)
    }
}

pub open spec fn project_queries(qp: GeneratedQueryProfile, p: nat, n: nat, stride: nat) -> Seq<
    EvalQueryView,
>
    decreases n,
{
    if n == 0 {
        Seq::empty()
    } else {
        project_queries(qp, p, (n - 1) as nat, stride) + row_queries(qp, p, (n - 1) as nat, stride)
    }
}

pub open spec fn fixture_queries(qp: GeneratedQueryProfile, n: nat, rows: nat, stride: nat) -> Seq<
    EvalQueryView,
>
    decreases n,
{
    if n == 0 {
        Seq::empty()
    } else {
        fixture_queries(qp, (n - 1) as nat, rows, stride) + project_queries(
            qp,
            (n - 1) as nat,
            rows,
            stride,
        )
    }
}

/// The generated fixture of a size and query profile.
pub open spec fn generated_dataset(p: GeneratedProfile, qp: GeneratedQueryProfile) -> EvalDatasetView {
    let (projects, rows, stride) = profile_shape(p);
    EvalDatasetView {
        name: ascii_lower_all("generated_"@ + profile_debug_name(p) + "_"@ + query_profile_name(qp)),
        source: "generated safe agent-memory-style fixture ("@ + query_profile_name(qp) + ")"@,
        memories: fixture_memories(projects, rows),
        queries: fixture_queries(qp, projects, rows, stride),
    }
}

fn scope_string(p: usize) -> (s: String)
    requires
        p < 8,
    ensures
        s@ == project_scope(p as nat),
{
    let mut s = string_from("project_");
    push_decimal_str(&mut s, p as u64);
    s
}

fn strings3(a: String, b: String, c: String) -> (v: Vec<String>)
    ensures
        views_of(v@) == seq![a@, b@, c@],
{
    let v = vec![a, b, c];
    proof {
        assert(views_of(v@) =~= seq![a@, b@, c@]);
    }
    v
}

fn make_memory(p: usize, r: usize) -> (m: EvalMemory)
    requires
        p < 8,
        r < 1000,
    ensures
        m@ == generated_memory(p as nat, r as nat),
{
    let component = component(r);
    let decision = decision(r + p);
    let scope = scope_string(p);
    let mut id = string_from(scope.as_str());
    push_str(&mut id, ":");
    push_str(&mut id, component);
    push_str(&mut id, ":");
    push_str(&mut id, decision);
    push_str(&mut id, ":");
    push_decimal_str(&mut id, r as u64);
    let mut subject = string_from(component);
    push_str(&mut subject, " decision ");
    push_decimal_str(&mut subject, r as u64);
    let mut text = string_from("In ");
    push_str(&mut text, scope.as_str());
    push_str(&mut text, ", the ");
    push_str(&mut text, component);
    push_str(&mut text, " component uses ");
    push_str(&mut text, decision);
    push_str(
        &mut text,
        ". This memory records a project decision, expected behavior, and integration note ",
    );
    push_decimal_str(&mut text, r as u64);
    push_str(&mut text, ".");
    let mut m1 = string_from("component:");
    push_str(&mut m1, component);
    let mut m2 = string_from("decision:");
    push_str(&mut m2, decision);
    let mut m3 = string_from("project:");
    push_str(&mut m3, scope.as_str());
    let markers = strings3(m1, m2, m3);
    let m = EvalMemory {
        id,
        scope,
        subject: Some(subject),
        text,
        markers,
        kind: default_kind(),
        status: default_status(),
        trust: default_trust(),
        sensitivity: default_sensitivity(),
    };
    proof {
        let g = generated_memory(p as nat, r as nat);
        assert(m@.id =~= g.id);
        assert(m@.text =~= g.text);
        assert(m@.subject == g.subject);
        assert(m@.markers =~= g.markers);
    }
    m
}

fn one_id(id: &String) -> (v: Vec<String>)
    ensures
        views_of(v@) == seq![id@],
{
    let v = vec![string_from(id.as_str())];
    proof {
        assert(views_of(v@) =~= seq![id@]);
    }
    v
}

fn query_id(prefix: &str, scope: &String, component: &str, r: usize) -> (s: String)
    ensures
        s@ == prefix@ + scope@ + ":"@ + component@ + ":"@ + decimal(r as nat),
{
    let mut s = string_from(prefix);
    push_str(&mut s, scope.as_str());
    push_str(&mut s, ":");
    push_str(&mut s, component);
    push_str(&mut s, ":");
    push_decimal_str(&mut s, r as u64);
    proof {
        assert(s@ =~= prefix@ + scope@ + ":"@ + component@ + ":"@ + decimal(r as nat));
    }
    s
}

fn push_query(queries: &mut Vec<EvalQuery>, q: EvalQuery)
    ensures
        query_views(final(queries)@) == query_views(old(queries)@).push(q@),
{
    queries.push(q);
    proof {
        assert(query_views(queries@) =~= query_views(old(queries)@).push(q@));
    }
}

fn push_row_queries(
    queries: &mut Vec<EvalQuery>,
    qp: GeneratedQueryProfile,
    p: usize,
    r: usize,
    stride: usize,
)
    requires
        p < 8,
        r < 1000,
        stride > 0,
    ensures
        query_views(final(queries)@) == query_views(old(queries)@) + row_queries(
            qp,
            p as nat,
            r as nat,
            stride as nat,
        ),
{
    let ghost q0 = query_views(queries@);
    if r % stride != 0 {
        proof {
            assert(query_views(queries@) =~= q0 + row_queries(qp, p as nat, r as nat, stride as nat));
        }
        return;
    }
    let scope = scope_string(p);
    let component = component(r);
    let decision = decision(r + p);
    let memory = make_memory(p, r);
    let lexical = match qp {
        GeneratedQueryProfile::Lexical | GeneratedQueryProfile::Mixed => true,
        _ => false,
    };
    let paraphrase = match qp {
        GeneratedQueryProfile::Paraphrase | GeneratedQueryProfile::Mixed => true,
        _ => false,
    };
    let negative = match qp {
        GeneratedQueryProfile::HardNegative | GeneratedQueryProfile::Mixed => true,
        _ => false,
    };
    let ghost q1 = query_views(queries@);
    if lexical {
        let mut text = string_from("In ");
        push_str(&mut text, scope.as_str());
        push_str(&mut text, ", what does integration note ");
        push_decimal_str(&mut text, r as u64);
        push_str(&mut text, " record for ");
        push_str(&mut text, component);
        push_str(&mut text, " ");
        push_str(&mut text, decision);
        push_str(&mut text, "?");
        let q = EvalQuery {
            id: query_id("q:lexical:", &scope, component, r),
            query: text,
            scope: Some(string_from(scope.as_str())),
            relevant_ids: one_id(&memory.id),
            category: string_from("lexical_single_fact"),
        };
        proof {
            let g = lexical_query(p as nat, r as nat);
            assert(q@.query =~= g.query);
            assert(q@.id =~= g.id);
            assert(q@ == g);
        }
        push_query(queries, q);
    }
    let ghost q2 = query_views(queries@);
    if paraphrase {
        let mut text = string_from("For ");
        push_str(&mut text, scope.as_str());
        push_str(&mut text, ", which choice is attached to ");
        push_str(&mut text, component);
        push_str(&mut text, " record number ");
        push_decimal_str(&mut text, r as u64);
        push_str(&mut text, "?");
        let q = EvalQuery {
            id: query_id("q:paraphrase:", &scope, component, r),
            query: text,
            scope: Some(string_from(scope.as_str())),
            relevant_ids: one_id(&memory.id),
            category: string_from("partial_paraphrase"),
        };
        proof {
            let g = paraphrase_query(p as nat, r as nat);
            assert(q@.query =~= g.query);
            assert(q@.id =~= g.id);
            assert(q@ == g);
        }
        push_query(queries, q);
    }
    let ghost q3 = query_views(queries@);
    if negative {
        let mut text = string_from("In ");
        push_str(&mut text, scope.as_str());
        push_str(&mut text, ", what deployment deadline is recorded for missing item ");
        push_decimal_str(&mut text, r as u64);
        push_str(&mut text, "?");
        let none: Vec<String> = Vec::new();
        let q = EvalQuery {
            id: query_id("q:negative:", &scope, component, r),
            query: text,
            scope: Some(string_from(scope.as_str())),
            relevant_ids: none,
            category: string_from("hard_negative"),
        };
        proof {
            let g = negative_query(p as nat, r as nat);
            assert(q@.query =~= g.query);
            assert(q@.id =~= g.id);
            assert(q@.relevant_ids =~= g.relevant_ids);
            assert(q@ == g);
        }
        push_query(queries, q);
    }
    proof {
        let rq = row_queries(qp, p as nat, r as nat, stride as nat);
        assert(asks_lexical(qp) == lexical);
        assert(asks_paraphrase(qp) == paraphrase);
        assert(asks_negative(qp) == negative);
        assert(query_views(queries@) =~= q0 + rq);
    }
}

/// The generated fixture: `projects` projects of `rows` records each, with
/// queries on every `stride`-th record, per the query profile.
pub fn generate_dataset_with_queries(
    profile: GeneratedProfile,
    query_profile: GeneratedQueryProfile,
) -> (d: EvalDataset)
    ensures
        d@ == generated_dataset(profile, query_profile),
{
    let (projects, rows, stride): (usize, usize, usize) = match profile {
        GeneratedProfile::Tiny => (2, 12, 4),
        GeneratedProfile::Small => (4, 48, 8),
        GeneratedProfile::Medium => (8, 160, 16),
    };
    let mut memories: Vec<EvalMemory> = Vec::new();
    let mut queries: Vec<EvalQuery> = Vec::new();
    let mut p: usize = 0;
    while p < projects
        invariant
            p <= projects,
            projects <= 8,
            rows <= 160,
            stride > 0,
            memory_views(memories@) == fixture_memories(p as nat, rows as nat),
            query_views(queries@) == fixture_queries(query_profile, p as nat, rows as nat, stride as nat),
        decreases projects - p,
    {
        let mut r: usize = 0;
        let ghost m0 = memory_views(memories@);
        let ghost q0 = query_views(queries@);
        while r < rows
            invariant
                r <= rows,
                rows <= 160,
                p < projects,
                projects <= 8,
                stride > 0,
                memory_views(memories@) == m0 + project_memories(p as nat, r as nat),
                query_views(queries@) == q0 + project_queries(
                    query_profile,
                    p as nat,
                    r as nat,
                    stride as nat,
                ),
            decreases rows - r,
        {
            let m = make_memory(p, r);
            let ghost before = memories@;
            memories.push(m);
            proof {
                assert(memory_views(memories@) =~= memory_views(before).push(m@));
                assert(m0 + project_memories(p as nat, (r + 1) as nat) =~= (m0 + project_memories(
                    p as nat,
                    r as nat,
                )).push(generated_memory(p as nat, r as nat)));
            }
            let ghost qb = query_views(queries@);
            push_row_queries(&mut queries, query_profile, p, r, stride);
            proof {
                assert(q0 + project_queries(query_profile, p as nat, (r + 1) as nat, stride as nat)
                    =~= qb + row_queries(query_profile, p as nat, r as nat, stride as nat));
            }
            r += 1;
        }
        proof {
            assert(fixture_memories((p + 1) as nat, rows as nat) =~= m0 + project_memories(
                p as nat,
                rows as nat,
            ));
            assert(fixture_queries(query_profile, (p + 1) as nat, rows as nat, stride as nat)
                =~= q0 + project_queries(query_profile, p as nat, rows as nat, stride as nat));
        }
        p += 1;
    }
    let mut raw: Vec<char> = chars_of("generated_");
    let debug_name = match profile {
        GeneratedProfile::Tiny => "Tiny",
        GeneratedProfile::Small => "Small",
        GeneratedProfile::Medium => "Medium",
    };
    let mut name_src = string_from("generated_");
    push_str(&mut name_src, debug_name);
    push_str(&mut name_src, "_");
    push_str(&mut name_src, query_profile.as_str());
    raw = chars_of(name_src.as_str());
    let lowered = ascii_lower_chars(&raw);
    let name = string_from_chars(&lowered);
    let mut source = string_from("generated safe agent-memory-style fixture (");
    push_str(&mut source, query_profile.as_str());
    push_str(&mut source, ")");
    let d = EvalDataset { name, source, memories, queries };
    proof {
        let g = generated_dataset(profile, query_profile);
        assert(d@.name =~= g.name);
        assert(d@.source =~= g.source);
    }
    d
}

/// The documented example of the dataset format.
pub fn schema_example() -> (d: EvalDataset)
    ensures
        d@.name == "example_agent_memory_eval_dataset"@,
        d@.memories.len() == 1,
        d@.queries.len() == 1,
        d@.memories[0].id == "memory-001"@,
        d@.memories[0].scope == "project_alpha"@,
        d@.memories[0].subject == Some("storage decision"@),
        d@.memories[0].text == "Project Alpha uses binary runtime storage for agent memory."@,
        d@.memories[0].markers == seq!["component:storage"@, "decision:binary_runtime_storage"@],
        d@.memories[0].kind == "project_fact"@,
        d@.memories[0].status == "active"@,
        d@.memories[0].trust == "user_confirmed"@,
        d@.memories[0].sensitivity == "private"@,
        d@.queries[0].id == "query-001"@,
        d@.queries[0].query == "What storage format does Project Alpha use?"@,
        d@.queries[0].scope == Some("project_alpha"@),
        d@.queries[0].relevant_ids == seq!["memory-001"@],
        d@.queries[0].category == "single_fact_recall"@,
        d@.source == "convert LongMemEval/LoCoMo/local traces into this neutral shape"@,
{
    let markers = vec![string_from("component:storage"), string_from("decision:binary_runtime_storage")];
    let relevant = vec![string_from("memory-001")];
    let memory = EvalMemory {
        id: string_from("memory-001"),
        scope: string_from("project_alpha"),
        subject: Some(string_from("storage decision")),
        text: string_from("Project Alpha uses binary runtime storage for agent memory."),
        markers,
        kind: string_from("project_fact"),
        status: string_from("active"),
        trust: string_from("user_confirmed"),
        sensitivity: string_from("private"),
    };
    let query = EvalQuery {
        id: string_from("query-001"),
        query: string_from("What storage format does Project Alpha use?"),
        scope: Some(string_from("project_alpha")),
        relevant_ids: relevant,
        category: string_from("single_fact_recall"),
    };
    let d = EvalDataset {
        name: string_from("example_agent_memory_eval_dataset"),
        source: string_from("convert LongMemEval/LoCoMo/local traces into this neutral shape"),
        memories: vec![memory],
        queries: vec![query],
    };
    proof {
        assert(d@.memories[0].markers =~= seq![
            "component:storage"@,
            "decision:binary_runtime_storage"@,
        ]);
        assert(d@.queries[0].relevant_ids =~= seq!["memory-001"@]);
    }
    d
}


// ---------------------------------------------------------------------------
// Word tokens
// ---------------------------------------------------------------------------

/// The runs of ASCII letters and digits longer than one character, ASCII
/// lowercased, of a list of runs.
pub open spec fn long_runs(ps: Seq<Seq<char>>) -> Seq<Seq<char>>
    decreases ps.len(),
{
    if ps.len() == 0 {
        Seq::empty()
    } else {
        let rest = long_runs(ps.drop_last());
        if ps.last().len() > 1 {
            rest.push(ascii_lower_all(ps.last()))
        } else {
            rest
        }
    }
}

/// The word tokens of a text: its runs of ASCII letters and digits that are
/// longer than one character, ASCII lowercased, in order.
pub open spec fn word_tokens(s: Seq<char>) -> Seq<Seq<char>> {
    long_runs(split_alnum(s))
}

fn push_long_run(out: &mut Vec<String>, run: &Vec<char>)
    ensures
        views_of(final(out)@) == if run@.len() > 1 {
            views_of(old(out)@).push(ascii_lower_all(run@))
        } else {
            views_of(old(out)@)
        },
{
    if run.len() > 1 {
        let lowered = ascii_lower_chars(run);
        out.push(string_from_chars(&lowered));
        proof {
            assert(views_of(out@) =~= views_of(old(out)@).push(ascii_lower_all(run@)));
        }
    }
}

/// The word tokens of a text, in order, repeats kept.
pub fn tokenize_vec(input: &str) -> (out: Vec<String>)
    ensures
        views_of(out@) == word_tokens(input@),
{
    let chars = chars_of(input);
    let mut out: Vec<String> = Vec::new();
    let mut current: Vec<char> = Vec::new();
    let mut i: usize = 0;
    proof {
        assert(chars@.take(0) =~= Seq::<char>::empty());
        assert(split_alnum(Seq::<char>::empty()).drop_last() =~= Seq::<Seq<char>>::empty());
        assert(views_of(out@) =~= Seq::<Seq<char>>::empty());
    }
    while i < chars.len()
        invariant
            i <= chars.len(),
            chars@ == input@,
            split_alnum(chars@.take(i as int)).len() >= 1,
            views_of(out@) == long_runs(split_alnum(chars@.take(i as int)).drop_last()),
            current@ == split_alnum(chars@.take(i as int)).last(),
        decreases chars.len() - i,
    {
        let ch = chars[i];
        let ghost prefix = chars@.take(i as int);
        let ghost p = split_alnum(prefix);
        proof {
            assert(chars@.take(i + 1).drop_last() == prefix);
            assert(chars@.take(i + 1).last() == ch);
        }
        if ascii_alnum(ch) {
            current.push(ch);
            proof {
                let q = split_alnum(chars@.take(i + 1));
                assert(q == p.update(p.len() - 1, p.last().push(ch)));
                assert(q.drop_last() =~= p.drop_last());
            }
        } else {
            push_long_run(&mut out, &current);
            current = Vec::new();
            proof {
                let q = split_alnum(chars@.take(i + 1));
                assert(q == p.push(Seq::empty()));
                assert(q.drop_last() =~= p);
                assert(p.drop_last().push(p.last()) =~= p);
                assert(p.drop_last() == p.drop_last().push(p.last()).drop_last());
            }
        }
        proof {
            lemma_split_alnum_nonempty(chars@.take(i + 1));
        }
        i += 1;
    }
    push_long_run(&mut out, &current);
    proof {
        assert(chars@.take(i as int) == chars@);
        let p = split_alnum(chars@);
        assert(p.drop_last().push(p.last()) =~= p);
        assert(p.drop_last() == p.drop_last().push(p.last()).drop_last());
    }
    out
}

/// The set of word tokens of a text, in lexicographic order.
pub fn tokenize(input: &str) -> (out: Vec<String>)
    ensures
        crate::text::strictly_sorted(views_of(out@)),
        views_of(out@).to_set() == word_tokens(input@).to_set(),
{
    let v = tokenize_vec(input);
    crate::text::sort_dedup_strings(&v)
}

// ---------------------------------------------------------------------------
// Keyword-scan baseline
// ---------------------------------------------------------------------------

/// The distinct elements of `s`, in order of first occurrence.
pub open spec fn distinct(s: Seq<Seq<char>>) -> Seq<Seq<char>>
    decreases s.len(),
{
    if s.len() == 0 {
        Seq::empty()
    } else {
        let d = distinct(s.drop_last());
        if d.contains(s.last()) {
            d
        } else {
            d.push(s.last())
        }
    }
}

/// How many of `qs` are in `ts`.
pub open spec fn count_in(qs: Seq<Seq<char>>, ts: Seq<Seq<char>>) -> nat
    decreases qs.len(),
{
    if qs.len() == 0 {
        0
    } else {
        count_in(qs.drop_last(), ts) + if ts.contains(qs.last()) {
            1nat
        } else {
            0nat
        }
    }
}

/// The words joined by single spaces.
pub open spec fn join_spaces(ws: Seq<Seq<char>>) -> Seq<char>
    decreases ws.len(),
{
    if ws.len() == 0 {
        Seq::empty()
    } else if ws.len() == 1 {
        ws[0]
    } else {
        join_spaces(ws.drop_last()) + " "@ + ws.last()
    }
}

/// The text that the scan matches against: subject, text and markers.
pub open spec fn scan_text(m: EvalMemoryView) -> Seq<char> {
    let subject = match m.subject {
        Some(s) => s,
        None => Seq::empty(),
    };
    subject + " "@ + m.text + " "@ + join_spaces(m.markers)
}

/// The number of distinct query tokens that occur among the memory's tokens.
pub open spec fn scan_overlap(query: Seq<char>, m: EvalMemoryView) -> nat {
    count_in(distinct(word_tokens(query)), word_tokens(scan_text(m)))
}

/// `min(n, usize::MAX)`.
pub open spec fn sat_usize(n: nat) -> nat {
    if n > usize::MAX {
        usize::MAX as nat
    } else {
        n
    }
}

/// A scored memory of the scan: id, overlap, byte length of the text.
pub type ScanScore = (Seq<char>, nat, nat);

/// The scored memories of the first `n` memories: those inside the query's
/// scope with some overlap (any overlap, for a broad recall).
pub open spec fn scan_candidates(
    ms: Seq<EvalMemoryView>,
    q: EvalQueryView,
    broad: bool,
    n: int,
) -> Seq<ScanScore>
    decreases n,
{
    if n <= 0 {
        Seq::empty()
    } else {
        let rest = scan_candidates(ms, q, broad, n - 1);
        let m = ms[n - 1];
        let in_scope = match q.scope {
            Some(sc) => m.scope == sc,
            None => true,
        };
        let overlap = scan_overlap(q.query, m);
        if in_scope && (overlap > 0 || broad) {
            rest.push((m.id, overlap, sat_usize(utf8_len(m.text))))
        } else {
            rest
        }
    }
}

/// `a` comes strictly before `b`: more overlap, then shorter text, then the
/// smaller id.
pub open spec fn scan_before(a: ScanScore, b: ScanScore) -> bool {
    a.1 > b.1 || (a.1 == b.1 && a.2 < b.2) || (a.1 == b.1 && a.2 == b.2 && seq_lt(a.0, b.0))
}

pub open spec fn scan_pos(s: Seq<ScanScore>, h: ScanScore, i: int) -> int
    decreases s.len() - i,
{
    if i >= s.len() {
        s.len() as int
    } else if scan_before(h, s[i]) {
        i
    } else {
        scan_pos(s, h, i + 1)
    }
}

/// Stable sort by `scan_before`, inserting each score in input order.
pub open spec fn scan_sort(s: Seq<ScanScore>) -> Seq<ScanScore>
    decreases s.len(),
{
    if s.len() == 0 {
        s
    } else {
        let r = scan_sort(s.drop_last());
        r.insert(scan_pos(r, s.last(), 0), s.last())
    }
}

pub open spec fn scan_ordered(s: Seq<ScanScore>) -> bool {
    forall|i: int, j: int| 0 <= i < j < s.len() ==> !scan_before(#[trigger] s[j], #[trigger] s[i])
}

proof fn lemma_scan_before_order(a: ScanScore, b: ScanScore, c: ScanScore)
    ensures
        !scan_before(a, a),
        scan_before(a, b) ==> !scan_before(b, a),
        scan_before(a, b) && scan_before(b, c) ==> scan_before(a, c),
        !scan_before(a, b) && !scan_before(b, a) ==> a == b,
{
    lemma_seq_lt_irreflexive(a.0);
    if seq_lt(a.0, b.0) && seq_lt(b.0, a.0) {
        lemma_seq_lt_transitive(a.0, b.0, a.0);
    }
    if seq_lt(a.0, b.0) && seq_lt(b.0, c.0) {
        lemma_seq_lt_transitive(a.0, b.0, c.0);
    }
    if a.0 != b.0 {
        lemma_seq_lt_total(a.0, b.0);
    }
    if b.0 != c.0 {
        lemma_seq_lt_total(b.0, c.0);
    }
    if a.0 != c.0 {
        lemma_seq_lt_total(a.0, c.0);
    }
    if seq_lt(c.0, a.0) && seq_lt(a.0, b.0) {
        lemma_seq_lt_transitive(c.0, a.0, b.0);
    }
    if seq_lt(b.0, c.0) && seq_lt(c.0, a.0) {
        lemma_seq_lt_transitive(b.0, c.0, a.0);
    }
}

proof fn lemma_scan_pos(s: Seq<ScanScore>, h: ScanScore, i: int)
    requires
        0 <= i <= s.len(),
        scan_ordered(s),
        forall|k: int| 0 <= k < i ==> !scan_before(h, #[trigger] s[k]),
    ensures
        i <= scan_pos(s, h, i) <= s.len(),
        forall|k: int| 0 <= k < scan_pos(s, h, i) ==> !scan_before(h, #[trigger] s[k]),
        forall|k: int| scan_pos(s, h, i) <= k < s.len() ==> !scan_before(#[trigger] s[k], h),
    decreases s.len() - i,
{
    if i < s.len() {
        if scan_before(h, s[i]) {
            assert forall|k: int| i <= k < s.len() implies !scan_before(#[trigger] s[k], h) by {
                lemma_scan_before_order(s[k], h, s[i]);
                lemma_scan_before_order(h, s[i], s[k]);
                if k > i {
                    assert(!scan_before(s[k], s[i]));
                }
            }
        } else {
            lemma_scan_pos(s, h, i + 1);
        }
    }
}

/// The scan order is an order of the scores it was given: no score comes
/// before an earlier one, and none is lost or added.
pub proof fn law_scan_sort(s: Seq<ScanScore>)
    ensures
        scan_ordered(scan_sort(s)),
        scan_sort(s).to_multiset() == s.to_multiset(),
        scan_sort(s).len() == s.len(),
    decreases s.len(),
{
    if s.len() > 0 {
        let d = s.drop_last();
        let h = s.last();
        law_scan_sort(d);
        let r = scan_sort(d);
        lemma_scan_pos(r, h, 0);
        let p = scan_pos(r, h, 0);
        let t = r.insert(p, h);
        assert forall|i: int, j: int| 0 <= i < j < t.len() implies !scan_before(
            #[trigger] t[j],
            #[trigger] t[i],
        ) by {
            if j < p {
            } else if i < p && j == p {
                assert(!scan_before(h, r[i]));
            } else if i < p && j > p {
                assert(t[j] == r[j - 1]);
            } else if i == p {
                assert(t[j] == r[j - 1]);
                assert(!scan_before(r[j - 1], h));
            } else {
                assert(t[i] == r[i - 1]);
                assert(t[j] == r[j - 1]);
            }
        }
        vstd::seq_lib::to_multiset_insert(r, p, h);
        assert(s =~= d.push(h));
        vstd::seq_lib::to_multiset_insert(d, d.len() as int, h);
        assert(d.insert(d.len() as int, h) =~= s);
        assert(scan_sort(s) == t);
    }
}

/// How many ids the scan returns: `top_k`, at least 20 for a broad recall.
pub open spec fn scan_limit(top_k: nat, mode: RecallMode) -> nat {
    if mode is Broad {
        if top_k > 20 {
            top_k
        } else {
            20
        }
    } else {
        top_k
    }
}

/// The ids that the keyword scan returns for a query.
pub open spec fn scan_result(d: EvalDatasetView, q: EvalQueryView, top_k: nat, mode: RecallMode) -> Seq<
    Seq<char>,
> {
    let sorted = scan_sort(scan_candidates(d.memories, q, mode is Broad, d.memories.len() as int));
    let n = if scan_limit(top_k, mode) < sorted.len() {
        scan_limit(top_k, mode)
    } else {
        sorted.len()
    };
    sorted.take(n as int).map_values(|t: ScanScore| t.0)
}


fn distinct_strings(v: &Vec<String>) -> (out: Vec<String>)
    ensures
        views_of(out@) == distinct(views_of(v@)),
{
    let mut out: Vec<String> = Vec::new();
    let mut i: usize = 0;
    proof {
        assert(views_of(v@).take(0) =~= Seq::<Seq<char>>::empty());
        assert(views_of(out@) =~= Seq::<Seq<char>>::empty());
    }
    while i < v.len()
        invariant
            i <= v.len(),
            views_of(out@) == distinct(views_of(v@).take(i as int)),
        decreases v.len() - i,
    {
        proof {
            assert(views_of(v@).take(i + 1).drop_last() =~= views_of(v@).take(i as int));
            assert(views_of(v@).take(i + 1).last() == v@[i as int]@);
        }
        if !contains_string(&out, v[i].as_str()) {
            let ghost before = out@;
            out.push(string_from(v[i].as_str()));
            proof {
                assert(views_of(out@) =~= views_of(before).push(v@[i as int]@));
            }
        }
        i += 1;
    }
    proof {
        assert(views_of(v@).take(i as int) =~= views_of(v@));
    }
    out
}

fn count_contained(qs: &Vec<String>, ts: &Vec<String>) -> (n: usize)
    ensures
        n as nat == count_in(views_of(qs@), views_of(ts@)),
{
    let mut n: usize = 0;
    let mut i: usize = 0;
    proof {
        assert(views_of(qs@).take(0) =~= Seq::<Seq<char>>::empty());
    }
    while i < qs.len()
        invariant
            i <= qs.len(),
            n <= i,
            n as nat == count_in(views_of(qs@).take(i as int), views_of(ts@)),
        decreases qs.len() - i,
    {
        proof {
            assert(views_of(qs@).take(i + 1).drop_last() =~= views_of(qs@).take(i as int));
            assert(views_of(qs@).take(i + 1).last() == qs@[i as int]@);
        }
        if contains_string(ts, qs[i].as_str()) {
            n += 1;
        }
        i += 1;
    }
    proof {
        assert(views_of(qs@).take(i as int) =~= views_of(qs@));
    }
    n
}

fn join_with_spaces(s: &mut String, ws: &Vec<String>)
    ensures
        final(s)@ == old(s)@ + join_spaces(views_of(ws@)),
{
    let mut i: usize = 0;
    proof {
        assert(views_of(ws@).take(0) =~= Seq::<Seq<char>>::empty());
        assert(old(s)@ + join_spaces(Seq::<Seq<char>>::empty()) =~= old(s)@);
    }
    while i < ws.len()
        invariant
            i <= ws.len(),
            s@ == old(s)@ + join_spaces(views_of(ws@).take(i as int)),
        decreases ws.len() - i,
    {
        let ghost t = views_of(ws@).take(i + 1);
        proof {
            assert(t.drop_last() =~= views_of(ws@).take(i as int));
            assert(t.last() == ws@[i as int]@);
        }
        if i > 0 {
            push_str(s, " ");
        }
        push_str(s, ws[i].as_str());
        proof {
            if i == 0 {
                assert(t =~= seq![ws@[0]@]);
            }
            assert(s@ =~= old(s)@ + join_spaces(t));
        }
        i += 1;
    }
    proof {
        assert(views_of(ws@).take(i as int) =~= views_of(ws@));
    }
}

fn memory_scan_text(m: &EvalMemory) -> (s: String)
    ensures
        s@ == scan_text(m@),
{
    let mut s = String::new();
    match &m.subject {
        Some(subject) => push_str(&mut s, subject.as_str()),
        None => {},
    }
    push_str(&mut s, " ");
    push_str(&mut s, m.text.as_str());
    push_str(&mut s, " ");
    join_with_spaces(&mut s, &m.markers);
    proof {
        assert(s@ =~= scan_text(m@));
    }
    s
}

/// A scored memory of the scan.
struct ScanEntry {
    id: String,
    overlap: usize,
    bytes: usize,
}

spec fn entry_score(e: ScanEntry) -> ScanScore {
    (e.id@, e.overlap as nat, e.bytes as nat)
}

spec fn entry_scores(v: Seq<ScanEntry>) -> Seq<ScanScore> {
    v.map_values(|e: ScanEntry| entry_score(e))
}

fn entry_before(a: &ScanEntry, b: &ScanEntry) -> (r: bool)
    ensures
        r == scan_before(entry_score(*a), entry_score(*b)),
{
    a.overlap > b.overlap || (a.overlap == b.overlap && a.bytes < b.bytes) || (a.overlap == b.overlap
        && a.bytes == b.bytes && chars_lt(&chars_of(a.id.as_str()), &chars_of(b.id.as_str())))
}

proof fn lemma_scan_pos_bounds(s: Seq<ScanScore>, h: ScanScore, i: int)
    requires
        0 <= i <= s.len(),
    ensures
        i <= scan_pos(s, h, i) <= s.len(),
    decreases s.len() - i,
{
    if i < s.len() && !scan_before(h, s[i]) {
        lemma_scan_pos_bounds(s, h, i + 1);
    }
}

fn sort_entries(entries: Vec<ScanEntry>) -> (out: Vec<ScanEntry>)
    ensures
        entry_scores(out@) == scan_sort(entry_scores(entries@)),
{
    let ghost all = entry_scores(entries@);
    let mut sorted: Vec<ScanEntry> = Vec::new();
    let mut rest = entries;
    let mut i: usize = 0;
    let n = rest.len();
    proof {
        assert(all.take(0) =~= Seq::<ScanScore>::empty());
        assert(entry_scores(sorted@) =~= Seq::<ScanScore>::empty());
    }
    while i < n
        invariant
            i <= n,
            n == all.len(),
            rest@.len() == n - i,
            forall|k: int| 0 <= k < n - i ==> entry_score(#[trigger] rest@[k]) == all[k + i],
            entry_scores(sorted@) == scan_sort(all.take(i as int)),
        decreases n - i,
    {
        let h = rest.remove(0);
        proof {
            assert(entry_score(h) == all[i as int]);
            law_scan_sort(all.take(i as int));
        }
        let mut j: usize = 0;
        while j < sorted.len() && !entry_before(&h, &sorted[j])
            invariant
                j <= sorted@.len(),
                scan_pos(entry_scores(sorted@), entry_score(h), 0) == scan_pos(
                    entry_scores(sorted@),
                    entry_score(h),
                    j as int,
                ),
            decreases sorted@.len() - j,
        {
            proof {
                assert(entry_scores(sorted@)[j as int] == entry_score(sorted@[j as int]));
            }
            j += 1;
        }
        proof {
            if j < sorted@.len() {
                assert(entry_scores(sorted@)[j as int] == entry_score(sorted@[j as int]));
            }
            assert(scan_pos(entry_scores(sorted@), entry_score(h), j as int) == j);
            assert(all.take(i + 1).drop_last() =~= all.take(i as int));
            assert(all.take(i + 1).last() == entry_score(h));
        }
        let ghost before = sorted@;
        let ghost hv = entry_score(h);
        sorted.insert(j, h);
        proof {
            assert(entry_scores(sorted@) =~= entry_scores(before).insert(j as int, hv));
        }
        i += 1;
    }
    proof {
        assert(all.take(i as int) =~= all);
    }
    sorted
}

/// The keyword-scan baseline: the memories in the query's scope ranked by
/// how many distinct query words they contain, then by shorter text, then
/// by id; memories sharing no word are left out, except in a broad recall.
/// Returns the ids of the first `top_k` (at least 20 when broad).
pub fn scan_baseline(dataset: &EvalDataset, query: &EvalQuery, top_k: usize, mode: RecallMode) -> (out:
    Vec<String>)
    ensures
        views_of(out@) == scan_result(dataset@, query@, top_k as nat, mode),
{
    let qtokens = tokenize_vec(query.query.as_str());
    let qdistinct = distinct_strings(&qtokens);
    let broad = match mode {
        RecallMode::Broad => true,
        _ => false,
    };
    let ghost ms = dataset@.memories;
    let ghost q = query@;
    let mut entries: Vec<ScanEntry> = Vec::new();
    let mut i: usize = 0;
    while i < dataset.memories.len()
        invariant
            i <= dataset.memories@.len(),
            ms == dataset@.memories,
            ms.len() == dataset.memories@.len(),
            q == query@,
            broad == mode is Broad,
            views_of(qdistinct@) == distinct(word_tokens(query@.query)),
            entry_scores(entries@) == scan_candidates(ms, q, broad, i as int),
        decreases dataset.memories@.len() - i,
    {
        let memory = &dataset.memories[i];
        proof {
            assert(ms[i as int] == memory@);
        }
        let in_scope = match &query.scope {
            Some(scope) => str_eq_string(&memory.scope, scope),
            None => true,
        };
        if in_scope {
            let text = memory_scan_text(memory);
            let ttokens = tokenize_vec(text.as_str());
            let overlap = count_contained(&qdistinct, &ttokens);
            if overlap > 0 || broad {
                let bytes = utf8_length(&chars_of(memory.text.as_str()));
                let ghost before = entries@;
                let e = ScanEntry { id: string_from(memory.id.as_str()), overlap, bytes };
                entries.push(e);
                proof {
                    assert(entry_scores(entries@) =~= entry_scores(before).push(entry_score(e)));
                }
            }
        }
        i += 1;
    }
    let sorted = sort_entries(entries);
    let ghost all = entry_scores(sorted@);
    proof {
        law_scan_sort(scan_candidates(ms, q, broad, ms.len() as int));
    }
    let limit: usize = if broad {
        if top_k > 20 {
            top_k
        } else {
            20
        }
    } else {
        top_k
    };
    let mut out: Vec<String> = Vec::new();
    let mut k: usize = 0;
    while k < sorted.len() && k < limit
        invariant
            k <= sorted@.len(),
            k <= limit,
            all == entry_scores(sorted@),
            out@.len() == k,
            forall|t: int| 0 <= t < k ==> #[trigger] out@[t]@ == all[t].0,
        decreases sorted@.len() - k,
    {
        out.push(string_from(sorted[k].id.as_str()));
        proof {
            assert(all[k as int] == entry_score(sorted@[k as int]));
        }
        k += 1;
    }
    proof {
        let expect = scan_result(dataset@, query@, top_k as nat, mode);
        assert(scan_limit(top_k as nat, mode) == limit);
        assert(views_of(out@) =~= expect);
    }
    out
}

fn str_eq_string(a: &String, b: &String) -> (r: bool)
    ensures
        r == (a@ == b@),
{
    chars_eq(&chars_of(a.as_str()), &chars_of(b.as_str()))
}


// ---------------------------------------------------------------------------
// Limits
// ---------------------------------------------------------------------------

/// A query stays after the memories were cut when it has relevant ids and
/// each of them names a remaining memory.
pub open spec fn query_answerable(q: EvalQueryView, ids: Seq<Seq<char>>) -> bool {
    q.relevant_ids.len() > 0 && forall|k: int|
        0 <= k < q.relevant_ids.len() ==> ids.contains(#[trigger] q.relevant_ids[k])
}

pub open spec fn answerable_queries(qs: Seq<EvalQueryView>, ids: Seq<Seq<char>>) -> Seq<EvalQueryView>
    decreases qs.len(),
{
    if qs.len() == 0 {
        qs
    } else {
        let rest = answerable_queries(qs.drop_last(), ids);
        if query_answerable(qs.last(), ids) {
            rest.push(qs.last())
        } else {
            rest
        }
    }
}

pub open spec fn take_at_most<T>(s: Seq<T>, n: nat) -> Seq<T> {
    if n < s.len() {
        s.take(n as int)
    } else {
        s
    }
}

/// The dataset cut to at most `max_memories` memories (dropping the queries
/// that are left without evidence) and at most `max_queries` queries.
pub open spec fn limited_dataset(d: EvalDatasetView, max_memories: Option<usize>, max_queries: Option<
    usize,
>) -> EvalDatasetView {
    let memories = match max_memories {
        Some(m) => take_at_most(d.memories, m as nat),
        None => d.memories,
    };
    let queries = match max_memories {
        Some(_) => answerable_queries(d.queries, memory_ids(memories)),
        None => d.queries,
    };
    EvalDatasetView {
        name: d.name,
        source: d.source,
        memories,
        queries: match max_queries {
            Some(m) => take_at_most(queries, m as nat),
            None => queries,
        },
    }
}

fn answerable(q: &EvalQuery, ids: &Vec<String>) -> (b: bool)
    ensures
        b == query_answerable(q@, views_of(ids@)),
{
    if q.relevant_ids.len() == 0 {
        return false;
    }
    let mut k: usize = 0;
    while k < q.relevant_ids.len()
        invariant
            k <= q.relevant_ids@.len(),
            forall|t: int| 0 <= t < k ==> views_of(ids@).contains(#[trigger] q@.relevant_ids[t]),
        decreases q.relevant_ids@.len() - k,
    {
        if !contains_string(ids, q.relevant_ids[k].as_str()) {
            proof {
                assert(q@.relevant_ids[k as int] == q.relevant_ids@[k as int]@);
            }
            return false;
        }
        proof {
            assert(q@.relevant_ids[k as int] == q.relevant_ids@[k as int]@);
        }
        k += 1;
    }
    true
}

/// Cuts a dataset to at most `max_memories` memories, dropping the queries
/// whose evidence is no longer all present, then to at most `max_queries`
/// queries.
pub fn apply_limits(dataset: &mut EvalDataset, max_memories: Option<usize>, max_queries: Option<usize>)
    ensures
        final(dataset)@ == limited_dataset(old(dataset)@, max_memories, max_queries),
{
    let ghost d0 = dataset@;
    match max_memories {
        Some(max) => {
            dataset.memories.truncate(max);
            proof {
                assert(memory_views(dataset.memories@) =~= take_at_most(d0.memories, max as nat));
            }
            let mut ids: Vec<String> = Vec::new();
            let mut i: usize = 0;
            while i < dataset.memories.len()
                invariant
                    i <= dataset.memories@.len(),
                    views_of(ids@) == memory_ids(memory_views(dataset.memories@).take(i as int)),
                decreases dataset.memories@.len() - i,
            {
                let ghost before = ids@;
                ids.push(string_from(dataset.memories[i].id.as_str()));
                proof {
                    let mv = memory_views(dataset.memories@);
                    assert(memory_ids(mv.take(i + 1)) =~= memory_ids(mv.take(i as int)).push(mv[i as int].id));
                    assert(views_of(ids@) =~= views_of(before).push(mv[i as int].id));
                }
                i += 1;
            }
            proof {
                assert(memory_views(dataset.memories@).take(i as int) =~= memory_views(dataset.memories@));
            }
            let mut old_queries: Vec<EvalQuery> = Vec::new();
            std::mem::swap(&mut old_queries, &mut dataset.queries);
            let ghost qs = query_views(old_queries@);
            let ghost ids_v = views_of(ids@);
            let mut kept: Vec<EvalQuery> = Vec::new();
            let mut j: usize = 0;
            let n = old_queries.len();
            proof {
                assert(qs.take(0) =~= Seq::<EvalQueryView>::empty());
                assert(query_views(kept@) =~= Seq::<EvalQueryView>::empty());
            }
            while j < n
                invariant
                    j <= n,
                    n == qs.len(),
                    old_queries@.len() == n - j,
                    forall|k: int| 0 <= k < n - j ==> (#[trigger] old_queries@[k])@ == qs[k + j],
                    views_of(ids@) == ids_v,
                    query_views(kept@) == answerable_queries(qs.take(j as int), ids_v),
                decreases n - j,
            {
                let q = old_queries.remove(0);
                proof {
                    assert(q@ == qs[j as int]);
                    assert(qs.take(j + 1).drop_last() =~= qs.take(j as int));
                    assert(qs.take(j + 1).last() == qs[j as int]);
                }
                if answerable(&q, &ids) {
                    let ghost before = kept@;
                    let ghost qv = q@;
                    kept.push(q);
                    proof {
                        assert(query_views(kept@) =~= query_views(before).push(qv));
                    }
                }
                j += 1;
            }
            proof {
                assert(qs.take(j as int) =~= qs);
                assert(qs == d0.queries);
            }
            dataset.queries = kept;
        },
        None => {},
    }
    let ghost mid = dataset@;
    match max_queries {
        Some(max) => {
            dataset.queries.truncate(max);
            proof {
                assert(query_views(dataset.queries@) =~= take_at_most(mid.queries, max as nat));
            }
        },
        None => {},
    }
    proof {
        assert(dataset@ =~= limited_dataset(d0, max_memories, max_queries));
    }
}

// ---------------------------------------------------------------------------
// Text helpers of the benchmark converters
// ---------------------------------------------------------------------------

/// A marker value made of the ASCII letters and digits of the input,
/// lowercased, with every other run of characters turned into one `_`,
/// without leading or trailing `_`; `unknown` when nothing is left.
pub open spec fn safe_marker_raw(s: Seq<char>) -> Seq<char>
    decreases s.len(),
{
    if s.len() == 0 {
        Seq::empty()
    } else {
        let r = safe_marker_raw(s.drop_last());
        let c = s.last();
        if is_ascii_alnum(c) {
            r.push(crate::text::ascii_lower(c))
        } else if r.len() > 0 && r.last() == '_' {
            r
        } else {
            r.push('_')
        }
    }
}

pub open spec fn safe_marker(s: Seq<char>) -> Seq<char> {
    let t = crate::text::trim_seq(safe_marker_raw(s), crate::text::TrimKind::Underscore);
    if t.len() == 0 {
        "unknown"@
    } else {
        t
    }
}

pub fn safe_marker_value(input: &str) -> (out: String)
    ensures
        out@ == safe_marker(input@),
{
    let chars = chars_of(input);
    let mut raw: Vec<char> = Vec::new();
    let mut last_was_separator = false;
    let mut i: usize = 0;
    proof {
        assert(chars@.take(0) =~= Seq::<char>::empty());
    }
    while i < chars.len()
        invariant
            i <= chars.len(),
            chars@ == input@,
            raw@ == safe_marker_raw(chars@.take(i as int)),
            last_was_separator == (raw@.len() > 0 && raw@.last() == '_'),
        decreases chars.len() - i,
    {
        let ch = chars[i];
        proof {
            assert(chars@.take(i + 1).drop_last() =~= chars@.take(i as int));
            assert(chars@.take(i + 1).last() == ch);
        }
        if ascii_alnum(ch) {
            let lower = if 'A' <= ch && ch <= 'Z' {
                ((ch as u32) + 32) as u8 as char
            } else {
                ch
            };
            proof {
                if 'A' <= ch && ch <= 'Z' {
                    assert(((ch as u32) + 32) as u8 as char == crate::text::ascii_lower(ch));
                }
            }
            raw.push(lower);
            last_was_separator = false;
            proof {
                assert(lower != '_');
            }
        } else if !last_was_separator {
            raw.push('_');
            last_was_separator = true;
        }
        i += 1;
    }
    proof {
        assert(chars@.take(i as int) =~= chars@);
    }
    let trimmed = crate::text::trim_chars(&raw, crate::text::TrimKind::Underscore);
    if trimmed.len() == 0 {
        string_from("unknown")
    } else {
        string_from_chars(&trimmed)
    }
}

/// Text worth storing as a memory: not blank, and not a short run (at most
/// 64 bytes) made only of characters other than ASCII letters and digits.
pub open spec fn safe_memory_text(s: Seq<char>) -> bool {
    let t = crate::text::trim_ws(s);
    t.len() > 0 && !(utf8_len(t) <= 64 && forall|i: int| 0 <= i < t.len() ==> !is_ascii_alnum(#[trigger] t[i]))
}

pub fn is_safe_memory_text(input: &str) -> (b: bool)
    ensures
        b == safe_memory_text(input@),
{
    let t = crate::text::trim_chars(&chars_of(input), crate::text::TrimKind::Whitespace);
    if t.len() == 0 {
        return false;
    }
    let bytes = utf8_length(&t);
    if bytes <= 64 {
        let mut i: usize = 0;
        while i < t.len()
            invariant
                i <= t.len(),
                t@ == crate::text::trim_ws(input@),
                forall|k: int| 0 <= k < i ==> !is_ascii_alnum(#[trigger] t@[k]),
            decreases t.len() - i,
        {
            if ascii_alnum(t[i]) {
                proof {
                    assert(t@ == crate::text::trim_ws(input@));
                    assert(is_ascii_alnum(t@[i as int]));
                }
                return true;
            }
            i += 1;
        }
        return false;
    }
    true
}

/// The integer mean of a list of durations; 0 for none.
pub fn average_u64(values: &[u64]) -> (avg: u64)
    requires
        crate::eval::sum_u64(values@) <= u64::MAX,
    ensures
        values@.len() == 0 ==> avg == 0,
        values@.len() > 0 ==> avg as int == sum_u64(values@) / (values@.len() as int),
{
    if values.len() == 0 {
        return 0;
    }
    let mut total: u64 = 0;
    let mut i: usize = 0;
    while i < values.len()
        invariant
            i <= values@.len(),
            sum_u64(values@) <= u64::MAX,
            total as int == sum_u64(values@.take(i as int)),
        decreases values@.len() - i,
    {
        proof {
            assert(values@.take(i + 1).drop_last() =~= values@.take(i as int));
            lemma_sum_prefix_le(values@, i + 1);
        }
        total = total + values[i];
        i += 1;
    }
    proof {
        assert(values@.take(i as int) =~= values@);
    }
    total / (values.len() as u64)
}

pub open spec fn sum_u64(s: Seq<u64>) -> int
    decreases s.len(),
{
    if s.len() == 0 {
        0
    } else {
        sum_u64(s.drop_last()) + s.last()
    }
}

proof fn lemma_sum_prefix_le(s: Seq<u64>, n: int)
    requires
        0 <= n <= s.len(),
    ensures
        sum_u64(s.take(n)) <= sum_u64(s),
    decreases s.len() - n,
{
    if n < s.len() {
        lemma_sum_prefix_le(s, n + 1);
        assert(s.take(n + 1).drop_last() =~= s.take(n));
    } else {
        assert(s.take(n) =~= s);
    }
}

} // verus!

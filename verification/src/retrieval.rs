//! Recall requests, cell filtering and relevance scoring, and context packet
//! assembly.
use vstd::prelude::*;
use crate::errors::MgeError;
use crate::marker_dictionary::MarkerDictionary;
use crate::markers::{canonical_value, canonicalize_marker_value, keywords, string_views, tokenize_keywords};
use crate::models::{
    plain_text, CellId, MarkerId, MemoryCell, MemoryKind, MemoryStatus, RecallMode,
    SensitivityLevel, TrustLevel,
};
use crate::packet::{ContextDebugInfo, ContextMemoryItem, ContextPacket, ContextScoreDebugItem};
use crate::security::{policy_permits, AgentCapabilities, AgentCapability, RecallPolicy};
use crate::text::{chars_of, str_eq, string_from};

verus! {

/// Anything that answers recall requests with context packets.
pub trait Retriever {
    fn recall(&self, request: RecallRequest) -> Result<ContextPacket, MgeError>;
}

pub struct RecallRequest {
    pub query: String,
    pub mode: RecallMode,
    pub markers: Vec<String>,
    pub scope: Option<String>,
    pub kind: Option<MemoryKind>,
    pub max_items: usize,
    pub include_deprecated: bool,
    pub include_secret_references: bool,
    pub policy: RecallPolicy,
    pub capabilities: AgentCapabilities,
}

/// The number of items a recall returns out of `total` candidates: the
/// request's budget when focused, at least 20 when broad, every candidate for
/// full scope.
pub open spec fn effective_max(r: RecallRequest, total: usize) -> usize {
    match r.mode {
        RecallMode::Focused => r.max_items,
        RecallMode::Broad => if r.max_items > 20 {
            r.max_items
        } else {
            20
        },
        RecallMode::FullScope => total,
    }
}

/// The policy in force: the request's policy widened by the capabilities and
/// by the request's own flags (`include_deprecated` also admits rejected cells).
pub open spec fn request_policy(r: RecallRequest) -> RecallPolicy {
    RecallPolicy {
        include_deprecated: r.policy.include_deprecated || r.capabilities.set().contains(
            AgentCapability::IncludeDeprecated,
        ) || r.include_deprecated,
        include_rejected: r.policy.include_rejected || r.capabilities.set().contains(
            AgentCapability::IncludeRejected,
        ) || r.include_deprecated,
        allow_secret_references: r.policy.allow_secret_references || r.capabilities.set().contains(
            AgentCapability::ReadSecretReferences,
        ) || r.include_secret_references,
    }
}

impl RecallRequest {
    /// A focused request for `query` with a budget of 5 items, no markers,
    /// scope or kind, the restrictive policy and no capabilities.
    pub fn new(query: &str) -> (r: RecallRequest)
        ensures
            r.query@ == query@,
            r.mode == RecallMode::Focused,
            r.markers@.len() == 0,
            r.scope is None,
            r.kind is None,
            r.max_items == 5,
            !r.include_deprecated,
            !r.include_secret_references,
            r.policy == RecallPolicy::restrictive_spec(),
            r.capabilities.set() == Set::<AgentCapability>::empty(),
    {
        RecallRequest {
            query: string_from(query),
            mode: RecallMode::Focused,
            markers: Vec::new(),
            scope: None,
            kind: None,
            max_items: 5,
            include_deprecated: false,
            include_secret_references: false,
            policy: RecallPolicy::restrictive(),
            capabilities: AgentCapabilities::empty(),
        }
    }

    pub fn effective_max_items(&self, total_candidates: usize) -> (n: usize)
        ensures
            n == effective_max(*self, total_candidates),
    {
        match self.mode {
            RecallMode::Focused => self.max_items,
            RecallMode::Broad => if self.max_items > 20 {
                self.max_items
            } else {
                20
            },
            RecallMode::FullScope => total_candidates,
        }
    }

    pub fn effective_policy(&self) -> (p: RecallPolicy)
        ensures
            p == request_policy(*self),
    {
        let capability_policy = RecallPolicy::from_capabilities(&self.capabilities);
        RecallPolicy {
            include_deprecated: self.policy.include_deprecated
                || capability_policy.include_deprecated || self.include_deprecated,
            include_rejected: self.policy.include_rejected || capability_policy.include_rejected
                || self.include_deprecated,
            allow_secret_references: self.policy.allow_secret_references
                || capability_policy.allow_secret_references || self.include_secret_references,
        }
    }
}

impl RecallPolicy {
    pub open spec fn restrictive_spec() -> RecallPolicy {
        RecallPolicy {
            include_deprecated: false,
            include_rejected: false,
            allow_secret_references: false,
        }
    }
}

/// The canonical scope a request filters on.
pub open spec fn request_scope(r: RecallRequest) -> Option<Seq<char>> {
    match r.scope {
        Some(s) => Some(canonical_value(s@)),
        None => None,
    }
}

/// A cell together with its score.
pub struct RankedCell {
    pub cell: MemoryCell,
    pub score: i64,
    pub score_detail: ContextScoreDebugItem,
}

/// The request's kind, canonical scope and policy, prepared once per recall.
pub struct RecallFilterContext {
    kind: Option<MemoryKind>,
    scope_canonical: Option<String>,
    policy: RecallPolicy,
}

/// Whether a cell passes the request's kind, scope and policy filters.
pub open spec fn filter_permits(
    kind: Option<MemoryKind>,
    scope: Option<Seq<char>>,
    policy: RecallPolicy,
    cell: MemoryCell,
) -> bool {
    &&& (kind matches Some(k) ==> cell.kind == k)
    &&& (scope matches Some(s) ==> canonical_value(cell.scope@) == s)
    &&& policy_permits(policy, cell.status, cell.sensitivity)
}

impl RecallFilterContext {
    pub closed spec fn kind_spec(&self) -> Option<MemoryKind> {
        self.kind
    }

    pub closed spec fn scope_spec(&self) -> Option<Seq<char>> {
        match self.scope_canonical {
            Some(s) => Some(s@),
            None => None,
        }
    }

    pub closed spec fn policy_spec(&self) -> RecallPolicy {
        self.policy
    }

    pub open spec fn permits_spec(&self, cell: MemoryCell) -> bool {
        filter_permits(self.kind_spec(), self.scope_spec(), self.policy_spec(), cell)
    }

    pub fn new(request: &RecallRequest) -> (f: RecallFilterContext)
        ensures
            f.kind_spec() == request.kind,
            f.scope_spec() == request_scope(*request),
            f.policy_spec() == request_policy(*request),
    {
        let scope_canonical = match &request.scope {
            Some(s) => Some(canonicalize_marker_value(s.as_str())),
            None => None,
        };
        RecallFilterContext { kind: request.kind, scope_canonical, policy: request.effective_policy() }
    }

    pub fn permits_cell(&self, cell: &MemoryCell) -> (b: bool)
        ensures
            b == self.permits_spec(*cell),
    {
        if let Some(kind) = self.kind {
            if cell.kind != kind {
                return false;
            }
        }
        if let Some(scope) = &self.scope_canonical {
            let c = canonicalize_marker_value(cell.scope.as_str());
            if !str_eq(c.as_str(), scope.as_str()) {
                return false;
            }
        }
        self.policy.permits_cell(cell)
    }
}

/// The filter together with the query's markers, tokens and canonical text.
pub struct ScoringContext {
    filter: RecallFilterContext,
    query_marker_set: Vec<MarkerId>,
    query_token_set: Vec<String>,
    query_canonical: String,
}

impl ScoringContext {
    pub closed spec fn filter_spec(&self) -> RecallFilterContext {
        self.filter
    }

    pub closed spec fn marker_set(&self) -> Set<MarkerId> {
        self.query_marker_set@.to_set()
    }

    pub closed spec fn token_set(&self) -> Set<Seq<char>> {
        string_views(self.query_token_set@).to_set()
    }

    pub closed spec fn canonical_query(&self) -> Seq<char> {
        self.query_canonical@
    }

    pub fn new(request: &RecallRequest, query_marker_ids: &[MarkerId], query_tokens: &[String]) -> (c:
        ScoringContext)
        ensures
            c.filter_spec().kind_spec() == request.kind,
            c.filter_spec().scope_spec() == request_scope(*request),
            c.filter_spec().policy_spec() == request_policy(*request),
            c.marker_set() == query_marker_ids@.to_set(),
            c.token_set() == string_views(query_tokens@).to_set(),
            c.canonical_query() == canonical_value(request.query@),
    {
        let mut markers: Vec<MarkerId> = Vec::new();
        let mut i: usize = 0;
        while i < query_marker_ids.len()
            invariant
                i <= query_marker_ids.len(),
                markers@ == query_marker_ids@.take(i as int),
            decreases query_marker_ids.len() - i,
        {
            markers.push(query_marker_ids[i]);
            proof {
                assert(query_marker_ids@.take(i + 1) =~= query_marker_ids@.take(i as int).push(
                    query_marker_ids@[i as int],
                ));
            }
            i += 1;
        }
        proof {
            assert(query_marker_ids@.take(i as int) =~= query_marker_ids@);
        }
        let mut tokens: Vec<String> = Vec::new();
        let mut j: usize = 0;
        while j < query_tokens.len()
            invariant
                j <= query_tokens.len(),
                tokens@.len() == j,
                forall|k: int| 0 <= k < j ==> #[trigger] tokens@[k]@ == query_tokens@[k]@,
            decreases query_tokens.len() - j,
        {
            tokens.push(string_from(query_tokens[j].as_str()));
            j += 1;
        }
        proof {
            assert(string_views(tokens@) =~= string_views(query_tokens@));
        }
        ScoringContext {
            filter: RecallFilterContext::new(request),
            query_marker_set: markers,
            query_token_set: tokens,
            query_canonical: canonicalize_marker_value(request.query.as_str()),
        }
    }

    pub fn permits_cell(&self, cell: &MemoryCell) -> (b: bool)
        ensures
            b == self.filter_spec().permits_spec(*cell),
    {
        self.filter.permits_cell(cell)
    }
}

// ---------------------------------------------------------------------------
// Scoring
// ---------------------------------------------------------------------------

pub open spec fn trust_bonus_spec(t: TrustLevel) -> i64 {
    match t {
        TrustLevel::UserConfirmed => 5,
        TrustLevel::ToolObserved => 4,
        TrustLevel::SystemGenerated => 2,
        TrustLevel::AgentInferred => 1,
        TrustLevel::ExternalUntrusted => -3i64,
    }
}

pub open spec fn status_bonus_spec(s: MemoryStatus) -> i64 {
    match s {
        MemoryStatus::Active => 5,
        MemoryStatus::Verified => 5,
        MemoryStatus::Temporary => 0,
        MemoryStatus::Unverified => -1i64,
        MemoryStatus::Deprecated => -10i64,
        MemoryStatus::Superseded => -10i64,
        MemoryStatus::Rejected => -100i64,
    }
}

pub open spec fn sensitivity_penalty_spec(s: SensitivityLevel) -> i64 {
    match s {
        SensitivityLevel::Public => 0,
        SensitivityLevel::Private => 1,
        SensitivityLevel::Confidential => 2,
        SensitivityLevel::SecretReference => 100,
    }
}

pub fn trust_bonus(trust: TrustLevel) -> (b: i64)
    ensures
        b == trust_bonus_spec(trust),
{
    match trust {
        TrustLevel::UserConfirmed => 5,
        TrustLevel::ToolObserved => 4,
        TrustLevel::SystemGenerated => 2,
        TrustLevel::AgentInferred => 1,
        TrustLevel::ExternalUntrusted => -3,
    }
}

pub fn status_bonus(status: MemoryStatus) -> (b: i64)
    ensures
        b == status_bonus_spec(status),
{
    match status {
        MemoryStatus::Active | MemoryStatus::Verified => 5,
        MemoryStatus::Temporary => 0,
        MemoryStatus::Unverified => -1,
        MemoryStatus::Deprecated | MemoryStatus::Superseded => -10,
        MemoryStatus::Rejected => -100,
    }
}

pub fn sensitivity_penalty(sensitivity: SensitivityLevel) -> (p: i64)
    ensures
        p == sensitivity_penalty_spec(sensitivity),
{
    match sensitivity {
        SensitivityLevel::Public => 0,
        SensitivityLevel::Private => 1,
        SensitivityLevel::Confidential => 2,
        SensitivityLevel::SecretReference => 100,
    }
}

/// Whether `left` canonicalizes to a non-empty text equal to `right_canonical`.
pub open spec fn exact_match_spec(left: Seq<char>, right_canonical: Seq<char>) -> bool {
    canonical_value(left).len() > 0 && canonical_value(left) == right_canonical
}

pub fn exact_canonical_match(left: &str, right_canonical: &str) -> (b: bool)
    ensures
        b == exact_match_spec(left@, right_canonical@),
{
    let l = canonicalize_marker_value(left);
    let lc = chars_of(l.as_str());
    lc.len() > 0 && str_eq(l.as_str(), right_canonical)
}

/// Number of elements of `s` (with repetition) that belong to `set`.
pub open spec fn count_in<T>(s: Seq<T>, set: Set<T>) -> nat
    decreases s.len(),
{
    if s.len() == 0 {
        0
    } else {
        count_in(s.drop_last(), set) + if set.contains(s.last()) {
            1nat
        } else {
            0nat
        }
    }
}

pub proof fn lemma_count_in_le<T>(s: Seq<T>, set: Set<T>)
    ensures
        count_in(s, set) <= s.len(),
    decreases s.len(),
{
    if s.len() > 0 {
        lemma_count_in_le(s.drop_last(), set);
    }
}

/// Whether every keyword of the subject is a query token (and there is one).
pub open spec fn subject_matches(subject: Option<String>, tokens: Set<Seq<char>>) -> bool {
    match subject {
        Some(s) => keywords(s@).len() > 0 && forall|i: int|
            0 <= i < keywords(s@).len() ==> tokens.contains(#[trigger] keywords(s@)[i]),
        None => false,
    }
}

/// The score breakdown of a cell for a query, or `None` when the filters
/// reject the cell or nothing relates it to the query. Marker overlap is worth
/// 10 per query marker on the cell, a subject whose keywords are all query
/// tokens 5, value keyword overlap 3 per token up to 3 tokens, and a value
/// equal to the whole query 3; trust and status bonuses are added and the
/// sensitivity penalty subtracted.
pub open spec fn score_spec(
    kind: Option<MemoryKind>,
    scope: Option<Seq<char>>,
    policy: RecallPolicy,
    markers: Set<MarkerId>,
    tokens: Set<Seq<char>>,
    canonical_query: Seq<char>,
    cell: MemoryCell,
) -> Option<ContextScoreDebugItem> {
    if !filter_permits(kind, scope, policy, cell) {
        None
    } else {
        let marker_overlap = count_in(cell.markers@, markers) as int;
        let value_text = plain_text(cell.value);
        let value_overlap = count_in(keywords(value_text), tokens) as i64;
        let exact_value_match = exact_match_spec(value_text, canonical_query);
        let exact_subject_match = subject_matches(cell.subject, tokens);
        let marker_overlap_score = marker_overlap * 10;
        let exact_subject_score: int = if exact_subject_match {
            5
        } else {
            0
        };
        let value_overlap_score: int = if value_overlap <= 0 {
            0
        } else if value_overlap > 3 {
            9
        } else {
            value_overlap * 3
        };
        let exact_value_score: int = if exact_value_match {
            3
        } else {
            0
        };
        let relevance = marker_overlap_score + exact_subject_score + value_overlap_score
            + exact_value_score;
        if relevance <= 0 {
            None
        } else {
            let trust = trust_bonus_spec(cell.trust);
            let status = status_bonus_spec(cell.status);
            let penalty = sensitivity_penalty_spec(cell.sensitivity);
            Some(
                ContextScoreDebugItem {
                    cell_id: cell.id,
                    score: (relevance + trust + status - penalty) as i64,
                    marker_overlap: marker_overlap as i64,
                    marker_overlap_score: marker_overlap_score as i64,
                    exact_subject_match,
                    exact_subject_score: exact_subject_score as i64,
                    value_overlap: value_overlap as i64,
                    value_overlap_score: value_overlap_score as i64,
                    exact_value_match,
                    exact_value_score: exact_value_score as i64,
                    trust_bonus: trust,
                    status_bonus: status,
                    sensitivity_penalty: penalty,
                },
            )
        }
    }
}

/// The bound on a cell's marker list under which scores fit in `i64`.
pub open spec fn scorable(cell: MemoryCell) -> bool {
    cell.markers@.len() <= 100_000_000_000_000_000
}

fn count_markers_in(markers: &Vec<MarkerId>, set: &Vec<MarkerId>) -> (n: usize)
    ensures
        n == count_in(markers@, set@.to_set()),
{
    let mut n: usize = 0;
    let mut i: usize = 0;
    while i < markers.len()
        invariant
            i <= markers.len(),
            n == count_in(markers@.take(i as int), set@.to_set()),
            n <= i,
        decreases markers.len() - i,
    {
        proof {
            assert(markers@.take(i + 1).drop_last() =~= markers@.take(i as int));
        }
        let mut found = false;
        let mut j: usize = 0;
        while j < set.len()
            invariant
                j <= set.len(),
                found == set@.take(j as int).contains(markers@[i as int]),
                i < markers.len(),
            decreases set.len() - j,
        {
            proof {
                let t = set@.take(j + 1);
                let u = set@.take(j as int);
                if t.contains(markers@[i as int]) {
                    let m = choose|m: int| 0 <= m < t.len() && t[m] == markers@[i as int];
                    if m < j {
                        assert(u[m] == markers@[i as int]);
                    }
                }
                if u.contains(markers@[i as int]) {
                    let m = choose|m: int| 0 <= m < u.len() && u[m] == markers@[i as int];
                    assert(t[m] == markers@[i as int]);
                }
                if set@[j as int] == markers@[i as int] {
                    assert(t[j as int] == markers@[i as int]);
                }
            }
            if set[j] == markers[i] {
                found = true;
            }
            j += 1;
        }
        proof {
            assert(set@.take(j as int) =~= set@);
        }
        if found {
            n += 1;
        }
        i += 1;
    }
    proof {
        assert(markers@.take(i as int) =~= markers@);
    }
    n
}

fn contains_str(list: &Vec<String>, t: &String) -> (b: bool)
    ensures
        b == string_views(list@).to_set().contains(t@),
{
    let mut i: usize = 0;
    while i < list.len()
        invariant
            i <= list.len(),
            forall|k: int| 0 <= k < i ==> list@[k]@ != t@,
        decreases list.len() - i,
    {
        if str_eq(list[i].as_str(), t.as_str()) {
            proof {
                assert(string_views(list@)[i as int] == t@);
            }
            return true;
        }
        i += 1;
    }
    proof {
        if string_views(list@).to_set().contains(t@) {
            let k = choose|k: int| 0 <= k < string_views(list@).len() && string_views(list@)[k] == t@;
            assert(list@[k]@ == t@);
        }
    }
    false
}

fn count_tokens_in(tokens: &Vec<String>, set: &Vec<String>) -> (n: usize)
    ensures
        n == count_in(string_views(tokens@), string_views(set@).to_set()),
{
    let mut n: usize = 0;
    let mut i: usize = 0;
    while i < tokens.len()
        invariant
            i <= tokens.len(),
            n == count_in(string_views(tokens@).take(i as int), string_views(set@).to_set()),
            n <= i,
        decreases tokens.len() - i,
    {
        proof {
            assert(string_views(tokens@).take(i + 1).drop_last() =~= string_views(tokens@).take(
                i as int,
            ));
        }
        if contains_str(set, &tokens[i]) {
            n += 1;
        }
        i += 1;
    }
    proof {
        assert(string_views(tokens@).take(i as int) =~= string_views(tokens@));
    }
    n
}

fn all_tokens_in(tokens: &Vec<String>, set: &Vec<String>) -> (b: bool)
    ensures
        b == forall|i: int|
            0 <= i < tokens@.len() ==> string_views(set@).to_set().contains(#[trigger] tokens@[i]@),
{
    let mut i: usize = 0;
    while i < tokens.len()
        invariant
            i <= tokens.len(),
            forall|k: int| 0 <= k < i ==> string_views(set@).to_set().contains(#[trigger] tokens@[k]@),
        decreases tokens.len() - i,
    {
        if !contains_str(set, &tokens[i]) {
            return false;
        }
        i += 1;
    }
    true
}

pub fn score_cell_debug_with_context(cell: &MemoryCell, context: &ScoringContext) -> (r: Option<
    ContextScoreDebugItem,
>)
    requires
        scorable(*cell),
    ensures
        r == score_spec(
            context.filter_spec().kind_spec(),
            context.filter_spec().scope_spec(),
            context.filter_spec().policy_spec(),
            context.marker_set(),
            context.token_set(),
            context.canonical_query(),
            *cell,
        ),
{
    if !context.filter.permits_cell(cell) {
        return None;
    }
    let marker_count = count_markers_in(&cell.markers, &context.query_marker_set);
    proof {
        lemma_count_in_le(cell.markers@, context.marker_set());
    }
    let marker_overlap = marker_count as i64;
    let value_text = cell.value.to_plain_text();
    let value_tokens = tokenize_keywords(value_text.as_str());
    let value_overlap_count = count_tokens_in(&value_tokens, &context.query_token_set);
    proof {
        lemma_count_in_le(string_views(value_tokens@), context.token_set());
    }
    let value_overlap = value_overlap_count as i64;
    let exact_value_match = exact_canonical_match(value_text.as_str(), context.query_canonical.as_str());
    let exact_subject_match = match &cell.subject {
        Some(subject) => {
            let subject_tokens = tokenize_keywords(subject.as_str());
            let all = all_tokens_in(&subject_tokens, &context.query_token_set);
            proof {
                assert(string_views(subject_tokens@) == keywords(subject@));
                if all && subject_tokens.len() > 0 {
                    assert forall|i: int| 0 <= i < keywords(subject@).len() implies context.token_set().contains(
                        #[trigger] keywords(subject@)[i],
                    ) by {
                        assert(keywords(subject@)[i] == subject_tokens@[i]@);
                    }
                }
                if !all {
                    let k = choose|k: int|
                        0 <= k < subject_tokens@.len() && !string_views(
                            context.query_token_set@,
                        ).to_set().contains(#[trigger] subject_tokens@[k]@);
                    assert(keywords(subject@)[k] == subject_tokens@[k]@);
                }
            }
            subject_tokens.len() > 0 && all
        },
        None => false,
    };
    let marker_overlap_score = marker_overlap * 10;
    let exact_subject_score: i64 = if exact_subject_match {
        5
    } else {
        0
    };
    let value_overlap_score: i64 = if value_overlap <= 0 {
        0
    } else if value_overlap > 3 {
        9
    } else {
        value_overlap * 3
    };
    let exact_value_score: i64 = if exact_value_match {
        3
    } else {
        0
    };
    let relevance = marker_overlap_score + exact_subject_score + value_overlap_score
        + exact_value_score;
    if relevance <= 0 {
        return None;
    }
    let trust_bonus = trust_bonus(cell.trust);
    let status_bonus = status_bonus(cell.status);
    let sensitivity_penalty = sensitivity_penalty(cell.sensitivity);
    let score = relevance + trust_bonus + status_bonus - sensitivity_penalty;
    Some(
        ContextScoreDebugItem {
            cell_id: cell.id,
            score,
            marker_overlap,
            marker_overlap_score,
            exact_subject_match,
            exact_subject_score,
            value_overlap,
            value_overlap_score,
            exact_value_match,
            exact_value_score,
            trust_bonus,
            status_bonus,
            sensitivity_penalty,
        },
    )
}

/// Score breakdown of a cell for a request and the query's marker ids and
/// tokens.
pub fn score_cell_debug(
    cell: &MemoryCell,
    request: &RecallRequest,
    query_marker_ids: &[MarkerId],
    query_tokens: &[String],
) -> (r: Option<ContextScoreDebugItem>)
    requires
        scorable(*cell),
    ensures
        r == score_spec(
            request.kind,
            request_scope(*request),
            request_policy(*request),
            query_marker_ids@.to_set(),
            string_views(query_tokens@).to_set(),
            canonical_value(request.query@),
            *cell,
        ),
{
    let context = ScoringContext::new(request, query_marker_ids, query_tokens);
    score_cell_debug_with_context(cell, &context)
}

/// The score of a cell, when it has one.
pub fn score_cell(
    cell: &MemoryCell,
    request: &RecallRequest,
    query_marker_ids: &[MarkerId],
    query_tokens: &[String],
) -> (r: Option<i64>)
    requires
        scorable(*cell),
    ensures
        r == match score_spec(
            request.kind,
            request_scope(*request),
            request_policy(*request),
            query_marker_ids@.to_set(),
            string_views(query_tokens@).to_set(),
            canonical_value(request.query@),
            *cell,
        ) {
            Some(d) => Some(d.score),
            None => None,
        },
{
    match score_cell_debug(cell, request, query_marker_ids, query_tokens) {
        Some(d) => Some(d.score),
        None => None,
    }
}


/// The breakdown used by full-scope recall: no relevance terms, only trust,
/// status and sensitivity, for every cell the filters let through.
pub open spec fn full_scope_spec(
    kind: Option<MemoryKind>,
    scope: Option<Seq<char>>,
    policy: RecallPolicy,
    cell: MemoryCell,
) -> Option<ContextScoreDebugItem> {
    if !filter_permits(kind, scope, policy, cell) {
        None
    } else {
        let trust = trust_bonus_spec(cell.trust);
        let status = status_bonus_spec(cell.status);
        let penalty = sensitivity_penalty_spec(cell.sensitivity);
        Some(
            ContextScoreDebugItem {
                cell_id: cell.id,
                score: (trust + status - penalty) as i64,
                marker_overlap: 0,
                marker_overlap_score: 0,
                exact_subject_match: false,
                exact_subject_score: 0,
                value_overlap: 0,
                value_overlap_score: 0,
                exact_value_match: false,
                exact_value_score: 0,
                trust_bonus: trust,
                status_bonus: status,
                sensitivity_penalty: penalty,
            },
        )
    }
}

pub fn full_scope_cell_debug_with_filter(cell: &MemoryCell, filter: &RecallFilterContext) -> (r:
    Option<ContextScoreDebugItem>)
    ensures
        r == full_scope_spec(filter.kind_spec(), filter.scope_spec(), filter.policy_spec(), *cell),
{
    if !filter.permits_cell(cell) {
        return None;
    }
    let trust_bonus = trust_bonus(cell.trust);
    let status_bonus = status_bonus(cell.status);
    let sensitivity_penalty = sensitivity_penalty(cell.sensitivity);
    let mut d = ContextScoreDebugItem::zero();
    d.cell_id = cell.id;
    d.score = trust_bonus + status_bonus - sensitivity_penalty;
    d.trust_bonus = trust_bonus;
    d.status_bonus = status_bonus;
    d.sensitivity_penalty = sensitivity_penalty;
    Some(d)
}

pub fn full_scope_cell_debug(cell: &MemoryCell, request: &RecallRequest) -> (r: Option<
    ContextScoreDebugItem,
>)
    ensures
        r == full_scope_spec(request.kind, request_scope(*request), request_policy(*request), *cell),
{
    let filter = RecallFilterContext::new(request);
    full_scope_cell_debug_with_filter(cell, &filter)
}

/// The breakdown a recall in `mode` gives a cell: a full-scope recall scores
/// every cell its filters let through by trust, status and sensitivity alone;
/// focused and broad recalls score relevance as well.
pub open spec fn mode_score(mode: RecallMode, context: ScoringContext, cell: MemoryCell) -> Option<
    ContextScoreDebugItem,
> {
    let f = context.filter_spec();
    match mode {
        RecallMode::FullScope => full_scope_spec(f.kind_spec(), f.scope_spec(), f.policy_spec(), cell),
        _ => score_spec(
            f.kind_spec(),
            f.scope_spec(),
            f.policy_spec(),
            context.marker_set(),
            context.token_set(),
            context.canonical_query(),
            cell,
        ),
    }
}

/// See `mode_score`.
pub fn score_in_mode(cell: &MemoryCell, mode: RecallMode, context: &ScoringContext) -> (r: Option<
    ContextScoreDebugItem,
>)
    requires
        scorable(*cell),
    ensures
        r == mode_score(mode, *context, *cell),
{
    match mode {
        RecallMode::FullScope => full_scope_cell_debug_with_filter(cell, &context.filter),
        _ => score_cell_debug_with_context(cell, context),
    }
}

// ---------------------------------------------------------------------------
// Context packets
// ---------------------------------------------------------------------------

pub open spec fn ranked_ids(s: Seq<RankedCell>) -> Set<CellId> {
    s.map_values(|r: RankedCell| r.cell.id).to_set()
}

/// The ranked cells with later repetitions of a cell id dropped.
pub open spec fn unique_ranked(s: Seq<RankedCell>) -> Seq<RankedCell>
    decreases s.len(),
{
    if s.len() == 0 {
        Seq::empty()
    } else {
        let u = unique_ranked(s.drop_last());
        if ranked_ids(u).contains(s.last().cell.id) {
            u
        } else {
            u.push(s.last())
        }
    }
}

/// Names of the marker ids that the dictionary knows, in order.
pub open spec fn marker_names(reverse: Map<MarkerId, Seq<char>>, ids: Seq<MarkerId>) -> Seq<
    Seq<char>,
>
    decreases ids.len(),
{
    if ids.len() == 0 {
        Seq::empty()
    } else if reverse.contains_key(ids.last()) {
        marker_names(reverse, ids.drop_last()).push(reverse[ids.last()])
    } else {
        marker_names(reverse, ids.drop_last())
    }
}

pub open spec fn hidden_status(s: MemoryStatus) -> bool {
    s == MemoryStatus::Deprecated || s == MemoryStatus::Rejected || s == MemoryStatus::Superseded
}

pub open spec fn any_hidden_status(items: Seq<RankedCell>) -> bool {
    exists|i: int| 0 <= i < items.len() && hidden_status(#[trigger] items[i].cell.status)
}

pub open spec fn any_secret(items: Seq<RankedCell>) -> bool {
    exists|i: int|
        0 <= i < items.len() && (#[trigger] items[i].cell.sensitivity)
            == SensitivityLevel::SecretReference
}

/// The constraints of a packet whose items come from `chosen`.
pub open spec fn packet_constraints(chosen: Seq<RankedCell>) -> Seq<Seq<char>> {
    let a: Seq<Seq<char>> = if any_hidden_status(chosen) {
        Seq::empty()
    } else {
        seq!["Do not use deprecated, rejected, or superseded memories."@]
    };
    let b: Seq<Seq<char>> = if any_secret(chosen) {
        Seq::empty()
    } else {
        seq!["Do not expose secret_reference cells."@]
    };
    a + b
}

/// The warnings of a packet whose items come from `chosen`.
pub open spec fn packet_warnings(chosen: Seq<RankedCell>) -> Seq<Seq<char>> {
    let a: Seq<Seq<char>> = if chosen.len() == 0 {
        seq!["No relevant memory matched the query."@]
    } else {
        Seq::empty()
    };
    let b: Seq<Seq<char>> = if any_hidden_status(chosen) {
        seq!["Deprecated, rejected, or superseded memories were included by explicit policy."@]
    } else {
        Seq::empty()
    };
    let c: Seq<Seq<char>> = if any_secret(chosen) {
        seq!["SecretReference cells were included by explicit policy."@]
    } else {
        Seq::empty()
    };
    a + b + c
}

pub open spec fn take_at_most<T>(s: Seq<T>, n: usize) -> Seq<T> {
    if s.len() <= n {
        s
    } else {
        s.take(n as int)
    }
}

fn push_text(out: &mut Vec<String>, t: &str)
    ensures
        final(out)@.len() == old(out)@.len() + 1,
        forall|k: int| 0 <= k < old(out)@.len() ==> #[trigger] final(out)@[k] == old(out)@[k],
        final(out)@[old(out)@.len() as int]@ == t@,
{
    out.push(string_from(t));
}

fn item_markers(dictionary: &MarkerDictionary, ids: &Vec<MarkerId>) -> (out: Vec<String>)
    requires
        dictionary.wf(),
    ensures
        string_views(out@) == marker_names(dictionary.view().reverse, ids@),
{
    let mut out: Vec<String> = Vec::new();
    let mut i: usize = 0;
    while i < ids.len()
        invariant
            dictionary.wf(),
            i <= ids.len(),
            string_views(out@) == marker_names(dictionary.view().reverse, ids@.take(i as int)),
        decreases ids.len() - i,
    {
        proof {
            assert(ids@.take(i + 1).drop_last() =~= ids@.take(i as int));
        }
        match dictionary.marker(ids[i]) {
            Some(m) => {
                let ghost before = out@;
                let st = string_from(m);
                out.push(st);
                proof {
                    assert(string_views(out@) =~= string_views(before).push(st@));
                }
            },
            None => {},
        }
        i += 1;
    }
    proof {
        assert(ids@.take(i as int) =~= ids@);
    }
    out
}

/// Builds the context packet from ranked cells: later repetitions of a cell id
/// are dropped, the first `max_items` remaining cells become the relevant
/// memory (with the dictionary names of their markers) and their score
/// breakdowns the debug details; constraints and warnings say whether hidden
/// statuses or secret references were included.
pub fn build_context_packet(
    query: String,
    ranked: &[RankedCell],
    dictionary: &MarkerDictionary,
    debug: ContextDebugInfo,
    max_items: usize,
) -> (p: ContextPacket)
    requires
        dictionary.wf(),
    ensures
        p.query == query,
        p.relevant_memory@.len() == take_at_most(unique_ranked(ranked@), max_items).len(),
        forall|k: int|
            0 <= k < p.relevant_memory@.len() ==> {
                let r = #[trigger] take_at_most(unique_ranked(ranked@), max_items)[k];
                let item = p.relevant_memory@[k];
                &&& item.kind == r.cell.kind
                &&& item.content@ == plain_text(r.cell.value)
                &&& item.trust == r.cell.trust
                &&& item.status == r.cell.status
                &&& item.scope@ == r.cell.scope@
                &&& item.sensitivity == r.cell.sensitivity
                &&& string_views(item.markers@) == marker_names(
                    dictionary.view().reverse,
                    r.cell.markers@,
                )
            },
        p.debug.score_details@ == take_at_most(unique_ranked(ranked@), max_items).map_values(
            |r: RankedCell| r.score_detail,
        ),
        string_views(p.constraints@) == packet_constraints(
            take_at_most(unique_ranked(ranked@), max_items),
        ),
        string_views(p.warnings@) == packet_warnings(take_at_most(unique_ranked(ranked@), max_items)),
        p.debug == (ContextDebugInfo {
            total_candidates: unique_ranked(ranked@).len() as usize,
            returned_items: p.relevant_memory@.len() as usize,
            score_details: p.debug.score_details,
            ..debug
        }),
{
    let mut seen: Vec<u64> = Vec::new();
    let mut unique: Vec<usize> = Vec::new();
    let mut i: usize = 0;
    proof {
        assert(ranked@.take(0) =~= Seq::<RankedCell>::empty());
        assert(ranked_ids(Seq::<RankedCell>::empty()) =~= Set::<CellId>::empty());
        assert(seen@.to_set() =~= Set::<u64>::empty());
    }
    while i < ranked.len()
        invariant
            i <= ranked.len(),
            crate::idset::strictly_increasing(seen@),
            seen@.to_set() == ranked_ids(unique_ranked(ranked@.take(i as int))),
            unique@.len() == unique_ranked(ranked@.take(i as int)).len(),
            forall|k: int|
                0 <= k < unique@.len() ==> #[trigger] unique@[k] < i && ranked@[unique@[k] as int]
                    == unique_ranked(ranked@.take(i as int))[k],
        decreases ranked.len() - i,
    {
        let id = ranked[i].cell.id;
        let ghost u = unique_ranked(ranked@.take(i as int));
        proof {
            assert(ranked@.take(i + 1).drop_last() =~= ranked@.take(i as int));
            assert(ranked@.take(i + 1).last() == ranked@[i as int]);
        }
        if !crate::idset::contains_id(&seen, id) {
            proof {
                assert(seen@.to_set().contains(id) == seen@.contains(id));
            }
            crate::idset::set_insert(&mut seen, id);
            unique.push(i);
            proof {
                let nu = u.push(ranked@[i as int]);
                assert(nu.map_values(|r: RankedCell| r.cell.id) =~= u.map_values(
                    |r: RankedCell| r.cell.id,
                ).push(id));
                crate::idset::lemma_push_to_set(u.map_values(|r: RankedCell| r.cell.id), id);
            }
        } else {
            proof {
                assert(seen@.to_set().contains(id));
            }
        }
        i += 1;
    }
    proof {
        assert(ranked@.take(i as int) =~= ranked@);
    }
    let ghost all = unique_ranked(ranked@);
    let count: usize = if unique.len() < max_items {
        unique.len()
    } else {
        max_items
    };
    let ghost chosen = take_at_most(all, max_items);
    let mut relevant_memory: Vec<ContextMemoryItem> = Vec::new();
    let mut score_details: Vec<ContextScoreDebugItem> = Vec::new();
    let mut includes_hidden = false;
    let mut includes_secret = false;
    let mut k: usize = 0;
    while k < count
        invariant
            dictionary.wf(),
            k <= count,
            count == chosen.len(),
            chosen == take_at_most(all, max_items),
            all == unique_ranked(ranked@),
            unique@.len() == all.len(),
            forall|m: int|
                0 <= m < unique@.len() ==> #[trigger] unique@[m] < ranked@.len() && ranked@[unique@[m] as int]
                    == all[m],
            relevant_memory@.len() == k,
            score_details@ == chosen.take(k as int).map_values(|r: RankedCell| r.score_detail),
            includes_hidden == any_hidden_status(chosen.take(k as int)),
            includes_secret == any_secret(chosen.take(k as int)),
            forall|m: int|
                0 <= m < k ==> {
                    let r = #[trigger] chosen[m];
                    let item = relevant_memory@[m];
                    &&& item.kind == r.cell.kind
                    &&& item.content@ == plain_text(r.cell.value)
                    &&& item.trust == r.cell.trust
                    &&& item.status == r.cell.status
                    &&& item.scope@ == r.cell.scope@
                    &&& item.sensitivity == r.cell.sensitivity
                    &&& string_views(item.markers@) == marker_names(
                        dictionary.view().reverse,
                        r.cell.markers@,
                    )
                },
        decreases count - k,
    {
        let r = &ranked[unique[k]];
        proof {
            assert(chosen[k as int] == all[k as int]);
            assert(*r == chosen[k as int]);
        }
        let markers = item_markers(dictionary, &r.cell.markers);
        let item = ContextMemoryItem {
            kind: r.cell.kind,
            content: r.cell.value.to_plain_text(),
            trust: r.cell.trust,
            status: r.cell.status,
            scope: string_from(r.cell.scope.as_str()),
            sensitivity: r.cell.sensitivity,
            markers,
        };
        let hidden = r.cell.status == MemoryStatus::Deprecated || r.cell.status
            == MemoryStatus::Rejected || r.cell.status == MemoryStatus::Superseded;
        let secret = r.cell.sensitivity == SensitivityLevel::SecretReference;
        relevant_memory.push(item);
        score_details.push(r.score_detail);
        proof {
            let t = chosen.take(k + 1);
            assert(t =~= chosen.take(k as int).push(chosen[k as int]));
            assert(score_details@ =~= t.map_values(|r: RankedCell| r.score_detail));
            if any_hidden_status(t) {
                let m = choose|m: int| 0 <= m < t.len() && hidden_status(#[trigger] t[m].cell.status);
                if m < k {
                    assert(chosen.take(k as int)[m] == t[m]);
                }
            }
            if includes_hidden {
                let m = choose|m: int|
                    0 <= m < chosen.take(k as int).len() && hidden_status(
                        #[trigger] chosen.take(k as int)[m].cell.status,
                    );
                assert(t[m] == chosen.take(k as int)[m]);
            }
            if hidden {
                assert(hidden_status(t[k as int].cell.status));
            }
            if any_secret(t) {
                let m = choose|m: int|
                    0 <= m < t.len() && (#[trigger] t[m].cell.sensitivity)
                        == SensitivityLevel::SecretReference;
                if m < k {
                    assert(chosen.take(k as int)[m] == t[m]);
                }
            }
            if includes_secret {
                let m = choose|m: int|
                    0 <= m < chosen.take(k as int).len() && (#[trigger] chosen.take(
                        k as int,
                    )[m].cell.sensitivity) == SensitivityLevel::SecretReference;
                assert(t[m] == chosen.take(k as int)[m]);
            }
            if secret {
                assert(t[k as int].cell.sensitivity == SensitivityLevel::SecretReference);
            }
        }
        includes_hidden = includes_hidden || hidden;
        includes_secret = includes_secret || secret;
        k += 1;
    }
    proof {
        assert(chosen.take(k as int) =~= chosen);
    }
    let mut constraints: Vec<String> = Vec::new();
    let mut warnings: Vec<String> = Vec::new();
    if relevant_memory.len() == 0 {
        push_text(&mut warnings, "No relevant memory matched the query.");
    }
    if includes_hidden {
        push_text(
            &mut warnings,
            "Deprecated, rejected, or superseded memories were included by explicit policy.",
        );
    } else {
        push_text(&mut constraints, "Do not use deprecated, rejected, or superseded memories.");
    }
    if includes_secret {
        push_text(&mut warnings, "SecretReference cells were included by explicit policy.");
    } else {
        push_text(&mut constraints, "Do not expose secret_reference cells.");
    }
    proof {
        assert(string_views(constraints@) =~= packet_constraints(chosen));
        assert(string_views(warnings@) =~= packet_warnings(chosen));
    }
    let returned_items = relevant_memory.len();
    let total_candidates = unique.len();
    ContextPacket {
        query,
        relevant_memory,
        constraints,
        warnings,
        debug: ContextDebugInfo { total_candidates, returned_items, score_details, ..debug },
    }
}

/// The item budget of a recall: a focused recall keeps the request's
/// `max_items`; a broad one keeps the larger of `max_items` and 20, so never
/// fewer than 20 items, whatever the candidates; a full-scope one keeps every
/// candidate.
pub proof fn law_item_budget(r: RecallRequest, total: usize)
    ensures
        r.mode == RecallMode::Focused ==> effective_max(r, total) == r.max_items,
        r.mode == RecallMode::Broad ==> effective_max(r, total) >= 20 && effective_max(r, total) >= r.max_items
            && (effective_max(r, total) == 20 || effective_max(r, total) == r.max_items),
        r.mode == RecallMode::FullScope ==> effective_max(r, total) == total,
{
}

/// A scored cell earns the subject bonus exactly when it has a subject with at
/// least one keyword and every keyword of the subject is a query token; a
/// subject with a keyword missing from the query tokens earns no bonus (its
/// match is false and its score 0).
pub proof fn law_subject_bonus(
    kind: Option<MemoryKind>,
    scope: Option<Seq<char>>,
    policy: RecallPolicy,
    markers: Set<MarkerId>,
    tokens: Set<Seq<char>>,
    canonical_query: Seq<char>,
    cell: MemoryCell,
)
    ensures
        score_spec(kind, scope, policy, markers, tokens, canonical_query, cell) matches Some(d) ==> {
            &&& d.exact_subject_match <==> (cell.subject matches Some(s) && keywords(s@).len() > 0 && forall|w: Seq<char>|
                keywords(s@).contains(w) ==> #[trigger] tokens.contains(w))
            &&& d.exact_subject_score == (if d.exact_subject_match { 5i64 } else { 0i64 })
        },
        forall|w: Seq<char>| #![trigger tokens.contains(w)]
            (cell.subject matches Some(s) && keywords(s@).contains(w) && !tokens.contains(w)) ==> (score_spec(
                kind,
                scope,
                policy,
                markers,
                tokens,
                canonical_query,
                cell,
            ) matches Some(d) ==> !d.exact_subject_match && d.exact_subject_score == 0),
{
    match cell.subject {
        Some(s) => {
            let ks = keywords(s@);
            assert((forall|i: int| 0 <= i < ks.len() ==> tokens.contains(#[trigger] ks[i])) <==> (forall|w: Seq<char>|
                ks.contains(w) ==> #[trigger] tokens.contains(w))) by {
                if forall|i: int| 0 <= i < ks.len() ==> tokens.contains(#[trigger] ks[i]) {
                    assert forall|w: Seq<char>| ks.contains(w) implies #[trigger] tokens.contains(w) by {
                        let i = choose|i: int| 0 <= i < ks.len() && ks[i] == w;
                    }
                }
                if forall|w: Seq<char>| ks.contains(w) ==> #[trigger] tokens.contains(w) {
                    assert forall|i: int| 0 <= i < ks.len() implies tokens.contains(#[trigger] ks[i]) by {
                        assert(ks.contains(ks[i]));
                    }
                }
            }
        },
        None => {},
    }
}
} // verus!

use mge_core::packet::ContextScoreDebugItem;
use mge_core::retrieval::RankedCell;
use mge_core::{
    build_context_packet, build_pages_from_cells, build_pages_with_clusterer, canonicalize_marker,
    marker_strings_for_cell_fields, score_cell_debug, tokenize_keywords, AuditEvent, AuditLogger,
    BinaryFusePageIndex, CandidatePageIndex, Compressor, ContextDebugInfo, ExactMarkerPageIndex,
    HotCandidateQuery, HotMemoryLayer, IndexKind, MarkerDictionary, MarkerGenome,
    MarkerOverlapClusterer, MemoryCell, MemoryKind, MemoryStatus, MemoryValue, MgeError,
    NoopAuditLogger, PageBuildOptions, QueryMode, RecallPolicy, RecallRequest, ScopeKindClusterer,
    SensitivityLevel, TrustLevel, ZstdCompression,
};
use mge_core::models::JsonValue;

/// Page building measures each cell; these scenarios stay far below the
/// page byte target, so a fixed size per cell stands for the encoding.
fn cell_bytes(_cell: &MemoryCell) -> usize {
    256
}

fn page_test_cell(id: u64, markers: Vec<u32>) -> MemoryCell {
    MemoryCell::new(
        id,
        MemoryKind::ProjectFact,
        Some(format!("cell_{id}")),
        MemoryValue::Text(format!("Page clustering test cell {id}")),
        "project".to_string(),
        MemoryStatus::Active,
        TrustLevel::SystemGenerated,
        SensitivityLevel::Public,
        markers,
        None,
        Vec::new(),
    )
}

#[test]
fn marker_canonicalization() {
    assert_eq!(
        canonicalize_marker("Kind: User Preference").unwrap(),
        "kind:user_preference"
    );
    assert_eq!(
        canonicalize_marker("answer style").unwrap(),
        "tag:answer_style"
    );
    assert_eq!(
        canonicalize_marker(" Scope: Rust APIs / Policies!! ").unwrap(),
        "scope:rust_apis_policies"
    );
}

#[test]
fn keyword_tokenization_normalizes_ascii_without_duplicates() {
    assert_eq!(
        tokenize_keywords("Rust APIs, APIs and policies with Tests"),
        vec!["rust", "api", "policy", "test"]
    );
}

#[test]
fn marker_dictionary_id_assignment_is_stable() {
    let mut dictionary = MarkerDictionary::new();
    let first = dictionary.get_or_insert("kind:user_preference").unwrap();
    let second = dictionary.get_or_insert("Kind: User Preference").unwrap();
    let third = dictionary.get_or_insert("scope:global").unwrap();

    assert_eq!(first, second);
    assert_ne!(first, third);
    assert_eq!(dictionary.marker(first), Some("kind:user_preference"));
}

#[test]
fn zstd_compression_roundtrips_bytes() {
    let compressor = ZstdCompression::default();
    let input = b"marker genome page bytes marker genome page bytes marker genome page bytes";

    let compressed = compressor.compress(input).unwrap();
    let decompressed = compressor.decompress(&compressed).unwrap();

    assert_eq!(decompressed, input);
}

#[test]
fn memory_cell_creation() {
    let cell = MemoryCell::new(
        1,
        MemoryKind::UserPreference,
        Some("answer_style".to_string()),
        MemoryValue::Symbol("concise_technical".to_string()),
        "global".to_string(),
        MemoryStatus::Active,
        TrustLevel::UserConfirmed,
        SensitivityLevel::Private,
        vec![1, 2, 3],
        None,
        Vec::new(),
    );

    assert_eq!(cell.id, 1);
    assert_eq!(cell.kind, MemoryKind::UserPreference);
    assert_eq!(cell.markers, vec![1, 2, 3]);
    assert_eq!(cell.marker_ids_for_indexing(), vec![1, 2, 3]);
    assert_eq!(cell.marker_genome.custom_marker_ids(), vec![1, 2, 3]);
}

#[test]
fn marker_genome_builds_from_existing_memory_input() {
    let explicit = vec![canonicalize_marker("tag:custom").unwrap()];
    let pairs = vec![
        ("scope:global".to_string(), 1),
        ("kind:user_preference".to_string(), 2),
        ("status:active".to_string(), 3),
        ("trust:user_confirmed".to_string(), 4),
        ("sensitivity:private".to_string(), 5),
        ("subject:answer_style".to_string(), 6),
        ("value:concise_technical".to_string(), 7),
        ("tag:custom".to_string(), 8),
        ("tag:technical".to_string(), 9),
    ];

    let genome = MarkerGenome::from_canonical_markers(pairs, &explicit);

    assert_eq!(genome.scope_marker(), Some(1));
    assert_eq!(genome.scope_marker_id(), Some(1));
    assert_eq!(genome.kind_marker(), Some(2));
    assert_eq!(genome.kind_marker_id(), Some(2));
    assert_eq!(genome.status_marker(), Some(3));
    assert_eq!(genome.status_marker_id(), Some(3));
    assert_eq!(genome.trust_marker(), Some(4));
    assert_eq!(genome.trust_marker_id(), Some(4));
    assert_eq!(genome.sensitivity_marker(), Some(5));
    assert_eq!(genome.sensitivity_marker_id(), Some(5));
    assert_eq!(genome.custom_marker_ids(), vec![8]);
    assert_eq!(genome.iter_custom_marker_ids().collect::<Vec<_>>(), vec![8]);
    assert_eq!(genome.system_marker_ids(), vec![1, 2, 3, 4, 5, 6, 7, 9]);
    assert_eq!(
        genome.iter_system_marker_ids().collect::<Vec<_>>(),
        vec![1, 2, 3, 4, 5, 6, 7, 9]
    );
    assert_eq!(genome.all_marker_ids(), vec![1, 2, 3, 4, 5, 6, 7, 8, 9]);
    assert_eq!(
        genome.iter_all_marker_ids().collect::<Vec<_>>(),
        vec![1, 2, 3, 4, 5, 6, 7, 9, 8]
    );
    assert_eq!(genome.fingerprint().len(), 64);
}

#[test]
fn marker_genome_separates_system_and_custom_markers_from_memory_input() {
    let marker_strings = marker_strings_for_cell_fields(
        &MemoryKind::UserPreference,
        Some("answer style"),
        &MemoryValue::Text("concise technical".to_string()),
        "global",
        &MemoryStatus::Active,
        &TrustLevel::UserConfirmed,
        &SensitivityLevel::Private,
        &["tag:custom".to_string()],
    )
    .unwrap();
    let mut dictionary = MarkerDictionary::new();
    let pairs = marker_strings
        .iter()
        .map(|marker| Ok((marker.clone(), dictionary.get_or_insert(marker)?)))
        .collect::<Result<Vec<_>, MgeError>>()
        .unwrap();
    let explicit = vec![canonicalize_marker("tag:custom").unwrap()];
    let genome = MarkerGenome::from_canonical_markers(pairs, &explicit);
    let custom_id = dictionary.lookup("tag:custom").unwrap();

    assert!(genome.scope_marker().is_some());
    assert!(genome.kind_marker().is_some());
    assert!(genome.status_marker().is_some());
    assert!(genome.trust_marker().is_some());
    assert!(genome.sensitivity_marker().is_some());
    assert_eq!(genome.custom_marker_ids(), vec![custom_id]);
    assert!(genome.all_marker_ids().contains(&custom_id));
}

#[test]
fn old_vec_marker_cells_remain_indexable_in_hot_ram() {
    let cell = MemoryCell::new(
        77,
        MemoryKind::ProjectFact,
        None,
        MemoryValue::Text("old vec marker hot memory".to_string()),
        "compat".to_string(),
        MemoryStatus::Active,
        TrustLevel::ToolObserved,
        SensitivityLevel::Public,
        vec![30, 10, 30],
        None,
        Vec::new(),
    );
    let layer = HotMemoryLayer::from_cells(vec![cell]);
    let allowed_statuses = vec![MemoryStatus::Active];
    let candidates = layer.candidate_ids(HotCandidateQuery {
        marker_ids: &[10],
        marker_mode: QueryMode::Union,
        scope: None,
        kind: None,
        allowed_statuses: &allowed_statuses,
    });

    assert_eq!(candidates, vec![77]);
}

#[test]
fn automatic_marker_generation() {
    let markers = marker_strings_for_cell_fields(
        &MemoryKind::UserPreference,
        Some("answer style"),
        &MemoryValue::Symbol("concise technical".to_string()),
        "global",
        &MemoryStatus::Active,
        &TrustLevel::UserConfirmed,
        &SensitivityLevel::Private,
        &[],
    )
    .unwrap();

    assert!(markers.contains(&"kind:user_preference".to_string()));
    assert!(markers.contains(&"subject:answer_style".to_string()));
    assert!(markers.contains(&"value:concise_technical".to_string()));
    assert!(markers.contains(&"tag:technical".to_string()));
}

#[test]
fn structured_marker_generation_extracts_shallow_tags() {
    let structured = JsonValue::Object(vec![
        (
            "max_examples".to_string(),
            JsonValue::Number("2".to_string()),
        ),
        (
            "nested".to_string(),
            JsonValue::Object(vec![(
                "mode".to_string(),
                JsonValue::Text("direct".to_string()),
            )]),
        ),
        (
            "style".to_string(),
            JsonValue::Text("concise technical".to_string()),
        ),
    ]);
    let markers = marker_strings_for_cell_fields(
        &MemoryKind::UserPreference,
        Some("answer style"),
        &MemoryValue::Structured(structured),
        "global",
        &MemoryStatus::Active,
        &TrustLevel::UserConfirmed,
        &SensitivityLevel::Private,
        &[],
    )
    .unwrap();

    assert!(markers.contains(&"tag:style".to_string()));
    assert!(markers.contains(&"tag:concise".to_string()));
    assert!(markers.contains(&"tag:technical".to_string()));
    assert!(markers.contains(&"tag:max".to_string()));
    assert!(markers.contains(&"tag:example".to_string()));
    assert!(markers.contains(&"tag:nested".to_string()));
    assert!(markers.contains(&"tag:mode".to_string()));
}

#[test]
fn recall_policy_defaults_are_restrictive() {
    let policy = RecallPolicy::default();

    assert!(!policy.include_deprecated);
    assert!(!policy.include_rejected);
    assert!(!policy.allow_secret_references);
}

#[test]
fn noop_audit_logger_accepts_events() {
    NoopAuditLogger
        .record(&AuditEvent {
            event_type: "test".to_string(),
            summary: "policy audit hook".to_string(),
        })
        .unwrap();
}

#[test]
fn marker_to_page_index_queries_candidates() {
    let cell = MemoryCell::new(
        1,
        MemoryKind::ProjectFact,
        None,
        MemoryValue::Text("Rust workspace exists".to_string()),
        "project".to_string(),
        MemoryStatus::Active,
        TrustLevel::ToolObserved,
        SensitivityLevel::Public,
        vec![10, 20],
        None,
        Vec::new(),
    );
    let pages = build_pages_from_cells(&[cell], 1, &cell_bytes);
    let index = ExactMarkerPageIndex::build(&pages).unwrap();

    assert_eq!(index.kind(), IndexKind::ExactMarkerPage);
    assert_eq!(index.index_kind, IndexKind::ExactMarkerPage);
    assert_eq!(index.query(&[10]).unwrap(), vec![1]);
    assert_eq!(index.query(&[999]).unwrap(), Vec::<u64>::new());
}

#[test]
fn binary_fuse_page_index_queries_candidates() {
    let first = page_test_cell(1, vec![10, 20, 30, 40]);
    let second = page_test_cell(2, vec![50, 60, 70, 80]);
    let pages = build_pages_with_clusterer(
        &[first, second],
        1,
        &ScopeKindClusterer,
        PageBuildOptions {
            target_page_bytes: 64 * 1024,
            max_cells_per_page: 1,
        },
        &cell_bytes,
    );
    let index = BinaryFusePageIndex::build(&pages).unwrap();

    assert_eq!(index.kind(), IndexKind::BinaryFusePage);
    assert_eq!(index.query(&[10]).unwrap(), vec![1]);
    assert_eq!(index.query(&[50]).unwrap(), vec![2]);
    assert_eq!(index.query(&[10, 20]).unwrap(), vec![1]);
    let stats = index.query_with_stats(&[10]).unwrap();
    assert_eq!(stats.page_filters_scanned, 2);
    assert!(stats.candidate_pages_returned >= 1);
}

#[test]
fn binary_fuse_candidates_cover_exact_candidates_for_same_pages() {
    let pages = build_pages_with_clusterer(
        &[
            page_test_cell(1, vec![10, 20, 30, 40]),
            page_test_cell(2, vec![50, 60, 70, 80]),
            page_test_cell(3, vec![10, 90, 91, 92]),
        ],
        1,
        &ScopeKindClusterer,
        PageBuildOptions {
            target_page_bytes: 64 * 1024,
            max_cells_per_page: 1,
        },
        &cell_bytes,
    );
    let exact = ExactMarkerPageIndex::build(&pages).unwrap();
    let binary = BinaryFusePageIndex::build(&pages).unwrap();

    let exact_candidates = exact.query(&[10, 50]).unwrap();
    let binary_candidates = binary.query(&[10, 50]).unwrap();

    assert_eq!(exact_candidates, vec![1, 2, 3]);

    for page_id in exact_candidates {
        assert!(
            binary_candidates.contains(&page_id),
            "binary fuse candidates must include exact page {page_id}"
        );
    }
}

#[test]
fn page_builder_respects_max_cells_per_page() {
    let cells = vec![
        page_test_cell(1, vec![1, 2, 3]),
        page_test_cell(2, vec![1, 2, 4]),
    ];

    let pages = build_pages_with_clusterer(
        &cells,
        1,
        &ScopeKindClusterer,
        PageBuildOptions {
            target_page_bytes: 64 * 1024,
            max_cells_per_page: 1,
        },
        &cell_bytes,
    );

    assert_eq!(pages.len(), 2);
    assert_eq!(pages[0].cell_count, 1);
    assert_eq!(pages[1].cell_count, 1);
}

#[test]
fn marker_overlap_clusterer_groups_similar_cells() {
    let cells = vec![
        page_test_cell(1, vec![1, 2, 3, 10]),
        page_test_cell(2, vec![1, 2, 3, 10, 11]),
        page_test_cell(3, vec![1, 2, 3, 90, 91]),
    ];

    let pages = build_pages_with_clusterer(
        &cells,
        10,
        &MarkerOverlapClusterer::new(4),
        PageBuildOptions {
            target_page_bytes: 64 * 1024,
            max_cells_per_page: 10,
        },
        &cell_bytes,
    );

    assert_eq!(pages.len(), 2);
    assert_eq!(pages[0].page_id, 10);
    assert_eq!(
        pages[0]
            .cells
            .iter()
            .map(|cell| cell.id)
            .collect::<Vec<_>>(),
        vec![1, 2]
    );
    assert_eq!(
        pages[1]
            .cells
            .iter()
            .map(|cell| cell.id)
            .collect::<Vec<_>>(),
        vec![3]
    );
}

#[test]
fn context_packet_prompt_text() {
    let cell = MemoryCell::new(
        1,
        MemoryKind::UserPreference,
        None,
        MemoryValue::Text("User prefers concise technical explanations".to_string()),
        "global".to_string(),
        MemoryStatus::Active,
        TrustLevel::UserConfirmed,
        SensitivityLevel::Private,
        vec![],
        None,
        Vec::new(),
    );
    let ranked = vec![RankedCell {
        cell,
        score: 10,
        score_detail: Default::default(),
    }];
    let dictionary = MarkerDictionary::new();
    let packet = build_context_packet(
        "technical answer".to_string(),
        &ranked,
        &dictionary,
        ContextDebugInfo::default(),
        5,
    );
    let text = packet.to_prompt_text();

    assert!(text.contains("Relevant memory:"));
    assert!(text.contains("Do not use deprecated, rejected, or superseded memories."));
    assert!(!text.contains("score"));
}

#[test]
fn context_packet_deduplicates_ranked_cells_by_id() {
    let cell = MemoryCell::new(
        1,
        MemoryKind::UserPreference,
        None,
        MemoryValue::Text("User prefers concise technical explanations".to_string()),
        "global".to_string(),
        MemoryStatus::Active,
        TrustLevel::UserConfirmed,
        SensitivityLevel::Private,
        vec![],
        None,
        Vec::new(),
    );
    let ranked = vec![
        RankedCell {
            cell: cell.clone(),
            score: 20,
            score_detail: ContextScoreDebugItem {
                cell_id: 1,
                score: 20,
                ..Default::default()
            },
        },
        RankedCell {
            cell,
            score: 10,
            score_detail: ContextScoreDebugItem {
                cell_id: 1,
                score: 10,
                ..Default::default()
            },
        },
    ];
    let dictionary = MarkerDictionary::new();

    let packet = build_context_packet(
        "technical answer".to_string(),
        &ranked,
        &dictionary,
        ContextDebugInfo {
            total_candidates: 2,
            ..Default::default()
        },
        5,
    );

    assert_eq!(packet.relevant_memory.len(), 1);
    assert_eq!(packet.debug.score_details.len(), 1);
    assert_eq!(packet.debug.score_details[0].score, 20);
    assert_eq!(packet.debug.total_candidates, 1);
}

#[test]
fn score_debug_explains_status_trust_and_sensitivity() {
    let cell = MemoryCell::new(
        1,
        MemoryKind::ProjectFact,
        Some("security posture".to_string()),
        MemoryValue::Text("Security posture is confidential".to_string()),
        "project".to_string(),
        MemoryStatus::Unverified,
        TrustLevel::ExternalUntrusted,
        SensitivityLevel::Confidential,
        vec![10],
        None,
        Vec::new(),
    );

    let detail = score_cell_debug(
        &cell,
        &RecallRequest::new("security posture"),
        &[10],
        &["security".to_string(), "posture".to_string()],
    )
    .unwrap();

    assert_eq!(detail.marker_overlap, 1);
    assert_eq!(detail.marker_overlap_score, 10);
    assert!(detail.exact_subject_match);
    assert_eq!(detail.exact_subject_score, 5);
    assert_eq!(detail.trust_bonus, -3);
    assert_eq!(detail.status_bonus, -1);
    assert_eq!(detail.sensitivity_penalty, 2);
    assert_eq!(
        detail.score,
        detail.marker_overlap_score
            + detail.exact_subject_score
            + detail.value_overlap_score
            + detail.exact_value_score
            + detail.trust_bonus
            + detail.status_bonus
            - detail.sensitivity_penalty
    );
}

#[test]
fn score_debug_explains_exact_value_match() {
    let cell = MemoryCell::new(
        1,
        MemoryKind::UserPreference,
        Some("answer style".to_string()),
        MemoryValue::Symbol("concise technical".to_string()),
        "global".to_string(),
        MemoryStatus::Active,
        TrustLevel::UserConfirmed,
        SensitivityLevel::Private,
        vec![10],
        None,
        Vec::new(),
    );

    let detail = score_cell_debug(
        &cell,
        &RecallRequest::new("concise technical"),
        &[10],
        &["concise".to_string(), "technical".to_string()],
    )
    .unwrap();

    assert!(detail.exact_value_match);
    assert_eq!(detail.exact_value_score, 3);
    assert_eq!(detail.value_overlap, 2);
    assert_eq!(
        detail.score,
        detail.marker_overlap_score
            + detail.exact_subject_score
            + detail.value_overlap_score
            + detail.exact_value_score
            + detail.trust_bonus
            + detail.status_bonus
            - detail.sensitivity_penalty
    );
}

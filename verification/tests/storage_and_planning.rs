use mge_core::binary::{decode_frame, decode_frame_at, encode_frame, CodecId, FileKind, HEADER_LEN};
use mge_core::checksum::{sha256_hex, to_hex_lower};
use mge_core::compression::{compress_with, decompress_with};
use mge_core::hot::{
    archive_file_name, empty_hot_log_bytes, hot_snapshot_payload, scan_hot_records, usable_snapshot_offset,
    HOT_SNAPSHOT_VERSION,
};
use mge_core::ingestion::{chunk_session_turns, SessionChunkOptions, SessionTurn};
use mge_core::pages::{marker_summary_for_cells, page_file_name};
use mge_core::store::{
    apply_storage_config_update, ensure_runtime_page_codec, is_known_index_file, page_storage_codec,
    page_storage_details_from_codec, plan_recall, should_prune_candidate_page, sort_ranked, Manifest,
    PagePruneContext, RankedCellHandle, RankedCellSource,
};
use mge_core::models::JsonValue;
use mge_core::store::remember_cell;
use mge_core::validation::{check_cell_markers_known, status_summary};
use mge_core::{
    attach_page_checksum, page_checksum_matches, CompressionKind, DurabilityPolicy, HotCandidateQuery,
    HotMemoryLayer, IndexKind, MarkerDictionary, MemoryCell, MemoryKind, MemoryPage, MemoryStatus,
    MemoryValue, MgeError, PageCatalogEntry, PageClustererKind, PageCodecKind, QueryMode, RecallMode,
    RecallPolicy, RecallRequest, RememberRequest, SensitivityLevel, StorageConfigUpdate, TrustLevel,
};

fn storage_message(result: Result<impl Sized, MgeError>) -> String {
    match result {
        Err(MgeError::StorageFormat(message)) => message,
        Err(other) => panic!("unexpected error: {other:?}"),
        Ok(_) => panic!("expected a storage format error"),
    }
}

fn input_message(result: Result<impl Sized, MgeError>) -> String {
    match result {
        Err(MgeError::InvalidInput(message)) => message,
        Err(other) => panic!("unexpected error: {other:?}"),
        Ok(_) => panic!("expected an invalid input error"),
    }
}

fn cell(id: u64, markers: Vec<u32>, status: MemoryStatus) -> MemoryCell {
    MemoryCell::new(
        id,
        MemoryKind::ProjectFact,
        None,
        MemoryValue::Text(format!("cell {id}")),
        "project".to_string(),
        status,
        TrustLevel::UserConfirmed,
        SensitivityLevel::Private,
        markers,
        None,
        Vec::new(),
    )
}

#[test]
fn frames_round_trip_their_kind_codec_and_payload() {
    let payload = b"marker genome".to_vec();
    let bytes = encode_frame(FileKind::Page, CodecId::MessagePackZstd, &payload).unwrap();
    assert_eq!(bytes.len(), HEADER_LEN + payload.len());
    assert_eq!(&bytes[..8], b"MGEFILE\0");
    let frame = decode_frame(&bytes, FileKind::Page).unwrap();
    assert_eq!(frame.kind, FileKind::Page);
    assert_eq!(frame.codec, CodecId::MessagePackZstd);
    assert_eq!(frame.payload, payload);

    let mut two = bytes.clone();
    two.extend(encode_frame(FileKind::Page, CodecId::MessagePack, b"second").unwrap());
    let (first, next) = decode_frame_at(&two, 0, FileKind::Page).unwrap();
    assert_eq!(first.payload, payload);
    assert_eq!(next, bytes.len());
    let (second, end) = decode_frame_at(&two, next, FileKind::Page).unwrap();
    assert_eq!(second.payload, b"second".to_vec());
    assert_eq!(end, two.len());
}

#[test]
fn frames_report_each_kind_of_damage() {
    let bytes = encode_frame(FileKind::Page, CodecId::MessagePack, b"abc").unwrap();
    assert_eq!(storage_message(decode_frame(&bytes[..10], FileKind::Page)), "truncated page header at byte 0");
    assert_eq!(
        storage_message(decode_frame(&bytes, FileKind::HotLog)),
        "wrong file kind: expected hot_log, found page"
    );
    let mut magic = bytes.clone();
    magic[0] = b'X';
    assert_eq!(storage_message(decode_frame(&magic, FileKind::Page)), "wrong magic for page");
    let mut version = bytes.clone();
    version[9] = 9;
    assert_eq!(storage_message(decode_frame(&version, FileKind::Page)), "unsupported version 9 for page");
    let mut codec = bytes.clone();
    codec[11] = 77;
    assert_eq!(storage_message(decode_frame(&codec, FileKind::Page)), "unknown codec id 77");
    assert_eq!(
        storage_message(decode_frame(&bytes[..bytes.len() - 1], FileKind::Page)),
        "truncated page payload: expected 3 bytes, found 2"
    );
    let mut corrupted = bytes.clone();
    let last = corrupted.len() - 1;
    corrupted[last] ^= 1;
    assert_eq!(storage_message(decode_frame(&corrupted, FileKind::Page)), "corrupted page payload checksum");
    let mut trailing = bytes.clone();
    trailing.push(0);
    assert_eq!(storage_message(decode_frame(&trailing, FileKind::Page)), "page has 1 trailing bytes after payload");
}

#[test]
fn file_kinds_and_codecs_have_stable_ids_and_names() {
    assert_eq!(FileKind::from_u8(FileKind::HotSnapshot.id()).unwrap(), FileKind::HotSnapshot);
    assert_eq!(FileKind::Page.as_str(), "page");
    assert_eq!(storage_message(FileKind::from_u8(0)), "unknown file kind id 0");
    assert_eq!(CodecId::from_u8(CodecId::MessagePackZstd.id()).unwrap(), CodecId::MessagePackZstd);
    assert_eq!(CodecId::Raw.as_str(), "none");
    assert_eq!(storage_message(CodecId::from_u8(200)), "unknown codec id 200");
}

#[test]
fn sha256_hex_matches_the_standard_test_vector() {
    assert_eq!(sha256_hex(b"abc"), "ba7816bf8f01cfea414140de5dae2223b00361a396177a9cb410ff61f20015ad");
    assert_eq!(to_hex_lower(&[0x0f, 0xa0, 0x00]), "0fa000");
}

#[test]
fn compression_kinds_round_trip_and_reject_garbage() {
    let data = b"page page page page page page page page".to_vec();
    assert_eq!(compress_with(CompressionKind::Uncompressed, &data).unwrap(), data);
    let packed = compress_with(CompressionKind::Zstd, &data).unwrap();
    assert_ne!(packed, data);
    assert_eq!(decompress_with(CompressionKind::Zstd, &packed).unwrap(), data);
    assert!(matches!(decompress_with(CompressionKind::Zstd, b"not zstd"), Err(MgeError::Io(_))));
}

#[test]
fn hot_scan_reads_records_and_stops_at_a_damaged_tail() {
    let mut log = empty_hot_log_bytes().unwrap();
    let start = log.len();
    let first = encode_frame(FileKind::HotRecord, CodecId::MessagePack, b"one").unwrap();
    let second = encode_frame(FileKind::HotRecord, CodecId::MessagePack, b"two").unwrap();
    log.extend(&first);
    log.extend(&second);
    let scan = scan_hot_records(&log, start).unwrap();
    assert_eq!(scan.records.len(), 2);
    assert_eq!(scan.records[1].offset, start + first.len());
    assert_eq!(scan.records[1].payload, b"two".to_vec());
    assert_eq!(scan.valid_log_offset, log.len());
    assert!(!scan.recovered_bad_tail);

    let mut torn = log.clone();
    torn.extend(&first[..20]);
    let scan = scan_hot_records(&torn, start).unwrap();
    assert_eq!(scan.records.len(), 2);
    assert_eq!(scan.valid_log_offset, log.len());
    assert!(scan.recovered_bad_tail);

    let mut middle = empty_hot_log_bytes().unwrap();
    let mut broken = first.clone();
    let last = broken.len() - 1;
    broken[last] ^= 1;
    middle.extend(&broken);
    middle.extend(&second);
    assert_eq!(storage_message(scan_hot_records(&middle, start)), "corrupted hot_record payload checksum");

    let encrypted = encode_frame(FileKind::HotRecord, CodecId::MessagePackEncrypted, b"x").unwrap();
    let mut locked = empty_hot_log_bytes().unwrap();
    locked.extend(&encrypted);
    assert!(matches!(scan_hot_records(&locked, start), Err(MgeError::StoreLocked(_))));
}

#[test]
fn hot_snapshots_are_used_only_when_their_offset_fits_the_log() {
    assert_eq!(usable_snapshot_offset(HOT_SNAPSHOT_VERSION, 60, 100, 52), Some(60));
    assert_eq!(usable_snapshot_offset(HOT_SNAPSHOT_VERSION, 40, 100, 52), None);
    assert_eq!(usable_snapshot_offset(HOT_SNAPSHOT_VERSION, 101, 100, 52), None);
    assert_eq!(usable_snapshot_offset(HOT_SNAPSHOT_VERSION + 1, 60, 100, 52), None);

    let snapshot = encode_frame(FileKind::HotSnapshot, CodecId::MessagePack, b"cells").unwrap();
    assert_eq!(hot_snapshot_payload(&snapshot).unwrap(), b"cells".to_vec());
    let zstd = encode_frame(FileKind::HotSnapshot, CodecId::MessagePackZstd, b"cells").unwrap();
    assert_eq!(
        storage_message(hot_snapshot_payload(&zstd)),
        "wrong codec for hot snapshot: expected messagepack or messagepack_encrypted, found messagepack_zstd"
    );
}

#[test]
fn archived_hot_logs_are_named_by_time_and_suffix() {
    assert_eq!(archive_file_name(1700000000, 0), "hot_1700000000.mgl");
    assert_eq!(archive_file_name(1700000000, 3), "hot_1700000000_3.mgl");
    assert_eq!(archive_file_name(-5, 0), "hot_-5.mgl");
    assert_eq!(page_file_name(42), "000042.mgp");
    assert_eq!(page_file_name(1234567), "1234567.mgp");
}

#[test]
fn session_chunks_respect_turn_and_byte_limits() {
    let turns = vec![
        SessionTurn::new(" user ", " hello there "),
        SessionTurn::new("assistant", "hi"),
        SessionTurn::new("user", "bye"),
    ];
    let chunks = chunk_session_turns(&turns, SessionChunkOptions { max_turns: 2, max_bytes: 4096 }).unwrap();
    assert_eq!(chunks.len(), 2);
    assert_eq!(chunks[0].text, "user: hello there\nassistant: hi");
    assert_eq!((chunks[0].start_turn, chunks[0].end_turn, chunks[0].turn_count()), (0, 2, 2));
    assert_eq!((chunks[1].index, chunks[1].start_turn, chunks[1].end_turn), (1, 2, 3));

    let by_bytes = chunk_session_turns(&turns, SessionChunkOptions { max_turns: 8, max_bytes: 23 }).unwrap();
    assert_eq!(by_bytes.iter().map(|c| c.text.as_str()).collect::<Vec<_>>(), vec![
        "user: hello there",
        "assistant: hi\nuser: bye",
    ]);

    assert_eq!(
        input_message(chunk_session_turns(&turns, SessionChunkOptions { max_turns: 0, max_bytes: 10 })),
        "session chunk max_turns must be greater than zero"
    );
    assert_eq!(
        input_message(chunk_session_turns(&turns, SessionChunkOptions { max_turns: 1, max_bytes: 0 })),
        "session chunk max_bytes must be greater than zero"
    );
    assert_eq!(
        input_message(chunk_session_turns(&[], SessionChunkOptions::default())),
        "session must contain at least one turn"
    );
    let blank = vec![SessionTurn::new("user", "x"), SessionTurn::new("  ", "y")];
    assert_eq!(
        input_message(chunk_session_turns(&blank, SessionChunkOptions::default())),
        "session turn 1 requires non-empty role and content"
    );
}

#[test]
fn storage_settings_parse_names_and_refuse_json_pages() {
    assert_eq!(DurabilityPolicy::parse(" SAFE ").unwrap(), DurabilityPolicy::Safe);
    assert_eq!(DurabilityPolicy::parse("default").unwrap(), DurabilityPolicy::Balanced);
    assert_eq!(
        input_message(DurabilityPolicy::parse("Slow")),
        "unknown durability policy: slow; supported: fast, balanced, safe"
    );
    assert_eq!(IndexKind::parse("binary_fuse").unwrap(), IndexKind::BinaryFusePage);
    assert_eq!(
        input_message(IndexKind::parse("tree")),
        "unknown index kind: tree; supported: exact_marker_page, binary_fuse_page"
    );
    let json = "json page codec is only allowed for optional debug/export paths, not runtime storage";
    assert_eq!(input_message(ensure_runtime_page_codec(PageCodecKind::Json)), json);
    assert!(ensure_runtime_page_codec(PageCodecKind::MessagePack).is_ok());
    assert_eq!(page_storage_codec(PageCodecKind::MessagePack, CompressionKind::Zstd).unwrap(), CodecId::MessagePackZstd);
    assert_eq!(input_message(page_storage_codec(PageCodecKind::Json, CompressionKind::Uncompressed)), json);
    assert_eq!(
        page_storage_details_from_codec(CodecId::MessagePack).unwrap(),
        (PageCodecKind::MessagePack, CompressionKind::Uncompressed)
    );
    assert_eq!(
        storage_message(page_storage_details_from_codec(CodecId::Raw)),
        "page frame codec none is not valid for runtime page storage"
    );
    assert!(is_known_index_file("fuse_index.mgi"));
    assert!(!is_known_index_file("notes.txt"));
}

fn manifest() -> Manifest {
    Manifest {
        version: 1,
        created_at: 10,
        updated_at: 10,
        next_cell_id: 7,
        next_page_id: 3,
        last_seal_time: None,
        page_codec: PageCodecKind::MessagePack,
        compression: CompressionKind::Uncompressed,
        index_kind: IndexKind::ExactMarkerPage,
        page_clusterer: PageClustererKind::ScopeKind,
        durability: DurabilityPolicy::Balanced,
    }
}

#[test]
fn storage_config_updates_change_only_the_named_settings() {
    let mut m = manifest();
    let update = StorageConfigUpdate { index_kind: Some(IndexKind::BinaryFusePage), ..StorageConfigUpdate::default() };
    let (previous, current) = apply_storage_config_update(&mut m, update).unwrap();
    assert_eq!(previous.index_kind, IndexKind::ExactMarkerPage);
    assert_eq!(current.index_kind, IndexKind::BinaryFusePage);
    assert_eq!(current.compression, previous.compression);
    assert_eq!(m.index_kind, IndexKind::BinaryFusePage);
    assert_eq!((m.next_cell_id, m.next_page_id), (7, 3));

    let mut untouched = manifest();
    assert_eq!(
        input_message(apply_storage_config_update(&mut untouched, StorageConfigUpdate::default())),
        "storage config update requires page_codec, compression, index_kind, page_clusterer, or durability"
    );
    let json = StorageConfigUpdate { page_codec: Some(PageCodecKind::Json), durability: Some(DurabilityPolicy::Safe), ..StorageConfigUpdate::default() };
    assert!(apply_storage_config_update(&mut untouched, json).is_err());
    assert_eq!(untouched, manifest());
}

#[test]
fn recall_plans_collect_query_scope_and_kind_markers() {
    let mut dictionary = MarkerDictionary::new();
    let scope = dictionary.get_or_insert("scope:project").unwrap();
    let tag = dictionary.get_or_insert("tag:rust").unwrap();
    let mut request = RecallRequest::new("Rust answers");
    request.scope = Some("Project".to_string());
    request.kind = Some(MemoryKind::ProjectFact);
    let plan = plan_recall(&request, &dictionary).unwrap();
    assert_eq!(plan.query_marker_strings, vec!["kind:project_fact", "scope:project", "tag:answer", "tag:rust"]);
    assert_eq!(plan.query_marker_ids, vec![scope, tag]);
    assert_eq!(plan.required_page_marker_ids, vec![scope]);
    assert_eq!(plan.scope_marker_id, Some(scope));
    assert_eq!(plan.marker_mode, QueryMode::PreferIntersection);

    let mut full = RecallRequest::new("everything");
    full.mode = RecallMode::FullScope;
    assert_eq!(
        input_message(plan_recall(&full, &dictionary)),
        "full-scope recall requires an explicit scope (--scope <scope>)"
    );
    let mut broad = RecallRequest::new("x");
    broad.mode = RecallMode::Broad;
    broad.markers = vec!["!!!".to_string()];
    assert!(matches!(plan_recall(&broad, &dictionary), Err(MgeError::InvalidMarker(_))));
}

fn catalog_entry(summary: Vec<u32>, statuses: Vec<MemoryStatus>) -> PageCatalogEntry {
    PageCatalogEntry {
        page_id: 1,
        file: "000001.mgp".to_string(),
        page_codec: PageCodecKind::MessagePack,
        compression: CompressionKind::Uncompressed,
        page_clusterer: PageClustererKind::ScopeKind,
        created_at: 0,
        cell_count: 1,
        marker_summary: summary,
        scope_marker_summary: Vec::new(),
        kind_marker_summary: Vec::new(),
        status_summary: statuses,
        sensitivity_summary: Vec::new(),
        trust_summary: Vec::new(),
        encoded_size_bytes: 0,
    }
}

#[test]
fn page_pruning_follows_required_markers_and_status_summaries() {
    let mut dictionary = MarkerDictionary::new();
    let active = dictionary.get_or_insert("status:active").unwrap();
    let deprecated = dictionary.get_or_insert("status:deprecated").unwrap();
    let topic = dictionary.get_or_insert("tag:topic").unwrap();
    let context = PagePruneContext::new(&dictionary, &[topic], &[], &[], &RecallPolicy::restrictive());
    assert_eq!(
        context.allowed_statuses,
        vec![MemoryStatus::Active, MemoryStatus::Temporary, MemoryStatus::Unverified, MemoryStatus::Verified]
    );

    assert!(!should_prune_candidate_page(&catalog_entry(vec![topic, active], vec![MemoryStatus::Active]), &context));
    assert!(should_prune_candidate_page(&catalog_entry(vec![topic, deprecated], vec![MemoryStatus::Deprecated]), &context));
    // Without a status summary the page's status markers decide.
    assert!(should_prune_candidate_page(&catalog_entry(vec![topic, deprecated], vec![]), &context));
    assert!(!should_prune_candidate_page(&catalog_entry(vec![topic, active, deprecated], vec![]), &context));
    // A page holding no query marker is skipped.
    assert!(should_prune_candidate_page(&catalog_entry(vec![active], vec![MemoryStatus::Active]), &context));

    let required = PagePruneContext::new(&dictionary, &[], &[], &[topic], &RecallPolicy::restrictive());
    assert!(should_prune_candidate_page(&catalog_entry(vec![active], vec![]), &required));
}

#[test]
fn ranked_cells_sort_by_score_then_recency_then_id() {
    let h = |cell_id: u64, updated_at: i64, score: i64| {
        let mut detail = mge_core::packet::ContextScoreDebugItem::zero();
        detail.cell_id = cell_id;
        detail.score = score;
        RankedCellHandle { source: RankedCellSource::Hot(cell_id), cell_id, updated_at, score, score_detail: detail }
    };
    let sorted = sort_ranked(vec![h(1, 5, 10), h(2, 9, 10), h(3, 9, 10), h(4, 0, 20)]);
    assert_eq!(sorted.iter().map(|r| r.cell_id).collect::<Vec<_>>(), vec![4, 2, 3, 1]);
}

#[test]
fn hot_layer_keeps_one_cell_per_id_and_selects_candidates() {
    let mut hot = HotMemoryLayer::new();
    hot.insert(cell(5, vec![1, 2], MemoryStatus::Active));
    hot.insert(cell(3, vec![2], MemoryStatus::Active));
    hot.insert(cell(9, vec![2], MemoryStatus::Deprecated));
    hot.insert(cell(5, vec![1], MemoryStatus::Active));
    assert_eq!(hot.len(), 3);
    assert_eq!(hot.cell(5).unwrap().markers, vec![1]);
    assert_eq!(hot.all_cells().iter().map(|c| c.id).collect::<Vec<_>>(), vec![3, 5, 9]);

    let statuses = [MemoryStatus::Active];
    let union = hot.candidate_ids(HotCandidateQuery {
        marker_ids: &[1, 2],
        marker_mode: QueryMode::Union,
        scope: Some("Project"),
        kind: None,
        allowed_statuses: &statuses,
    });
    assert_eq!(union, vec![3, 5]);
    hot.clear();
    assert!(hot.is_empty());
}

#[test]
fn page_checksums_follow_the_canonical_encoding() {
    let mut page = MemoryPage {
        page_id: 1,
        version: 1,
        created_at: 0,
        marker_summary: vec![],
        cell_count: 0,
        cells: vec![],
        checksum: None,
    };
    assert!(page_checksum_matches(&page, b"anything"));
    attach_page_checksum(&mut page, b"abc");
    assert_eq!(page.checksum.as_deref(), Some("ba7816bf8f01cfea414140de5dae2223b00361a396177a9cb410ff61f20015ad"));
    assert!(page_checksum_matches(&page, b"abc"));
    assert!(!page_checksum_matches(&page, b"abd"));
}

#[test]
fn page_summaries_are_ordered_and_unknown_markers_refuse_sealing() {
    let cells = vec![
        cell(1, vec![9, 3], MemoryStatus::Deprecated),
        cell(2, vec![3, 1], MemoryStatus::Active),
    ];
    assert_eq!(marker_summary_for_cells(&cells), vec![1, 3, 9]);
    assert_eq!(status_summary(&cells), vec![MemoryStatus::Active, MemoryStatus::Deprecated]);

    let mut dictionary = MarkerDictionary::new();
    let known = dictionary.get_or_insert("tag:known").unwrap();
    assert!(check_cell_markers_known(&vec![cell(1, vec![known], MemoryStatus::Active)], &dictionary).is_ok());
    assert_eq!(
        input_message(check_cell_markers_known(&vec![cell(4, vec![known, 77], MemoryStatus::Active)], &dictionary)),
        "cell 4 references unknown marker 77"
    );
}

#[test]
fn broken_dictionaries_report_each_disagreement() {
    let broken = MarkerDictionary::from_parts(vec![("kind:user_preference".to_string(), 1)], vec![], 2);
    assert_eq!(
        broken.consistency_errors(),
        vec!["marker_to_id kind:user_preference->1 is missing reverse id_to_marker entry".to_string()]
    );
    let stale = MarkerDictionary::from_parts(
        vec![("Tag X".to_string(), 0)],
        vec![(0, "Tag X".to_string()), (5, "tag:y".to_string())],
        3,
    );
    let errors = stale.consistency_errors();
    assert!(errors.contains(&"marker Tag X uses invalid id 0".to_string()));
    assert!(errors.contains(&"marker Tag X is not canonical; expected tag:tag_x".to_string()));
    assert!(errors.contains(&"id_to_marker 5->tag:y is missing forward marker_to_id entry".to_string()));
    assert_eq!(errors.last().unwrap(), "next_id 3 must be greater than max marker id 5");
    assert!(MarkerDictionary::new().consistency_errors().is_empty());
}

#[test]
fn remembering_assigns_ids_and_enters_markers() {
    let mut dictionary = MarkerDictionary::new();
    let mut next = 41;
    let mut request = RememberRequest::new(MemoryKind::Decision, MemoryValue::Text("Use Rust".to_string()));
    request.markers = vec!["Topic: Languages".to_string()];
    let cell = remember_cell(request, &mut dictionary, &mut next).unwrap();
    assert_eq!(cell.id, 41);
    assert_eq!(next, 42);
    let names: Vec<&str> = cell.marker_ids_for_indexing().into_iter().filter_map(|id| dictionary.marker(id)).collect();
    assert!(names.contains(&"kind:decision"));
    assert!(names.contains(&"scope:global"));
    assert!(names.contains(&"topic:languages"));
    assert!(names.contains(&"tag:rust"));

    let size = dictionary.len();
    let mut bad = RememberRequest::new(MemoryKind::Decision, MemoryValue::Text("x".to_string()));
    bad.markers = vec!["???".to_string()];
    assert!(matches!(remember_cell(bad, &mut dictionary, &mut next), Err(MgeError::InvalidMarker(_))));
    assert_eq!((next, dictionary.len()), (42, size));

    let mut last = u64::MAX;
    let request = RememberRequest::new(MemoryKind::Decision, MemoryValue::Text("y".to_string()));
    assert_eq!(input_message(remember_cell(request, &mut dictionary, &mut last)), "cell id overflow");
}

#[test]
fn store_reports_render_one_line_per_field() {
    let stats = mge_core::StoreStats {
        hot_cells: 2,
        sealed_pages: 1,
        sealed_cells: 3,
        marker_count: 9,
        page_count: 1,
        current_page_codec: PageCodecKind::MessagePack,
        current_compression: CompressionKind::Zstd,
        current_index_kind: IndexKind::BinaryFusePage,
        current_page_clusterer: PageClustererKind::MarkerOverlap,
        current_durability: DurabilityPolicy::Fast,
        index_type: "binary_fuse_page".to_string(),
        last_seal_time: Some(-1),
        store_size_bytes: 4096,
    };
    assert_eq!(
        stats.to_human_text(),
        "hot cells: 2\nsealed pages: 1\nsealed cells: 3\nmarker count: 9\npage count: 1\n\
current page codec: messagepack\ncurrent compression: zstd\ncurrent index kind: binary_fuse_page\n\
current page clusterer: marker_overlap\ncurrent durability: fast\nindex type: binary_fuse_page\n\
last seal time: -1\nstore size bytes: 4096\n"
    );
    let mut report = mge_core::ValidationReport::new(IndexKind::ExactMarkerPage);
    report.warning("w".to_string());
    report.error("e".to_string());
    assert_eq!(
        report.to_human_text(),
        "store valid: false\nindex kind: exact_marker_page\nchecked hot cells: 0\nchecked sealed pages: 0\n\
checked sealed cells: 0\nerrors: 1\nwarnings: 1\n- error: e\n- warning: w\n"
    );
}

#[test]
fn memory_values_render_as_plain_text() {
    assert_eq!(MemoryValue::Number("3.5".to_string()).to_plain_text(), "3.5");
    assert_eq!(MemoryValue::Boolean(true).to_plain_text(), "true");
    assert_eq!(MemoryValue::Timestamp(-42).to_plain_text(), "-42");
    let json = JsonValue::Object(vec![
        ("a".to_string(), JsonValue::Array(vec![JsonValue::Null, JsonValue::Bool(false)])),
        ("b".to_string(), JsonValue::Text("q\"x".to_string())),
    ]);
    assert_eq!(MemoryValue::Structured(json).to_plain_text(), "{\"a\":[null,false],\"b\":\"q\\\"x\"}");
}

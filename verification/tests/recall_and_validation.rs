use mge_core::indexes::{fuse_is_well_formed, BinaryFusePageIndex, CandidateIndexData, CandidatePageQueryResult, QueryMode};
use mge_core::models::PageId;
use mge_core::packet::ContextDebugInfo;
use mge_core::models::current_timestamp;
use mge_core::recall::{
    cached_page_for_recall, handles_are_consistent, pack_ranked_handles, page_is_scorable, pages_to_load,
    rank_hot_cells, rank_page_cells, recall_debug_info, DecodedPageCache, RecallCounts,
};
use mge_core::retrieval::{score_in_mode, ScoringContext};
use mge_core::store::{remember_cell, PagePruneContext, RankedCellHandle, RankedCellSource};
use mge_core::store_validation::{
    validate_store, IndexCheck, PageFileCheck, PageRead, StoreObservations,
};
use mge_core::validation::page_catalog_entry_for_existing_page;
use mge_core::{
    build_pages_from_cells, CompressionKind, ExactMarkerPageIndex, HotMemoryLayer, IndexKind,
    MarkerDictionary, MemoryCell, MemoryKind, MemoryPage, MemoryStatus, MemoryValue, MgeError,
    PageCatalog, PageCatalogEntry, PageClustererKind, PageCodecKind, RecallMode, RecallRequest,
    RememberRequest, SensitivityLevel, TrustLevel,
};

fn cell_bytes(_cell: &MemoryCell) -> usize {
    256
}

fn cell(id: u64, markers: Vec<u32>, updated_at: i64) -> MemoryCell {
    let mut c = MemoryCell::new(
        id,
        MemoryKind::ProjectFact,
        None,
        MemoryValue::Text(format!("fact number {id}")),
        "project".to_string(),
        MemoryStatus::Active,
        TrustLevel::UserConfirmed,
        SensitivityLevel::Private,
        markers,
        None,
        Vec::new(),
    );
    c.updated_at = updated_at;
    c
}

fn page(page_id: PageId, cells: Vec<MemoryCell>) -> MemoryPage {
    MemoryPage {
        page_id,
        version: 1,
        created_at: 0,
        marker_summary: Vec::new(),
        cell_count: cells.len(),
        cells,
        checksum: None,
    }
}

fn entry(page_id: PageId, file: &str, summary: Vec<u32>) -> PageCatalogEntry {
    PageCatalogEntry {
        page_id,
        file: file.to_string(),
        page_codec: PageCodecKind::MessagePack,
        compression: CompressionKind::Uncompressed,
        page_clusterer: PageClustererKind::ScopeKind,
        created_at: 0,
        cell_count: 1,
        marker_summary: summary,
        scope_marker_summary: Vec::new(),
        kind_marker_summary: Vec::new(),
        status_summary: Vec::new(),
        sensitivity_summary: Vec::new(),
        trust_summary: Vec::new(),
        encoded_size_bytes: 0,
    }
}

fn prune_context(query_marker_ids: Vec<u32>) -> PagePruneContext {
    PagePruneContext {
        query_marker_ids,
        explicit_marker_ids: Vec::new(),
        required_page_marker_ids: Vec::new(),
        allowed_statuses: vec![MemoryStatus::Active],
        all_status_marker_ids: Vec::new(),
        allowed_status_marker_ids: Vec::new(),
        allowed_sensitivities: vec![SensitivityLevel::Private],
        all_sensitivity_marker_ids: Vec::new(),
        allowed_sensitivity_marker_ids: Vec::new(),
    }
}

#[test]
fn pages_to_load_skips_unknown_and_pruned_candidates() {
    let catalog = PageCatalog {
        index_kind: IndexKind::ExactMarkerPage,
        pages: vec![entry(1, "a.mgp", vec![5]), entry(2, "b.mgp", vec![6]), entry(1, "c.mgp", vec![5, 7])],
    };
    let (load, pruned) = pages_to_load(&vec![1, 2, 3], &catalog, &prune_context(vec![5]));
    // Page 1 is read from its last catalog entry; page 2 holds no query
    // marker; page 3 is not in the catalog.
    assert_eq!(load, vec![2]);
    assert_eq!(pruned, 1);
}

#[test]
fn rank_page_cells_points_at_page_positions() {
    let request = RecallRequest::new("fact");
    let context = ScoringContext::new(&request, &[5], &["fact".to_string()]);
    let p = page(7, vec![cell(10, vec![5], 3), cell(11, vec![9], 4)]);
    let handles = rank_page_cells(&p, RecallMode::Focused, &context);
    assert_eq!(handles.len(), 2);
    assert_eq!(handles[0].source, RankedCellSource::Sealed { page_id: 7, cell_index: 0 });
    assert_eq!(handles[0].cell_id, 10);
    assert_eq!(handles[1].source, RankedCellSource::Sealed { page_id: 7, cell_index: 1 });
    // The first cell shares the query marker: 10 more than the second.
    assert_eq!(handles[0].score, handles[1].score + 10);
    assert_eq!(handles[0].updated_at, 3);
}

#[test]
fn rank_hot_cells_skips_ids_the_layer_does_not_hold() {
    let request = RecallRequest::new("fact");
    let context = ScoringContext::new(&request, &[5], &[]);
    let hot = HotMemoryLayer::from_cells(vec![cell(1, vec![5], 0), cell(2, vec![6], 0)]);
    let handles = rank_hot_cells(&hot, &vec![1, 99], RecallMode::Broad, &context);
    assert_eq!(handles.len(), 1);
    assert_eq!(handles[0].source, RankedCellSource::Hot(1));
    assert_eq!(handles[0].score_detail.marker_overlap, 1);
}

#[test]
fn full_scope_mode_scores_without_relevance() {
    let request = RecallRequest::new("unrelated words");
    let context = ScoringContext::new(&request, &[], &[]);
    let c = cell(4, vec![], 0);
    assert!(score_in_mode(&c, RecallMode::Focused, &context).is_none());
    let d = score_in_mode(&c, RecallMode::FullScope, &context).unwrap();
    assert_eq!(d.marker_overlap_score, 0);
    assert_eq!(d.score, d.trust_bonus + d.status_bonus - d.sensitivity_penalty);
}

fn handle(source: RankedCellSource, cell_id: u64, score: i64) -> RankedCellHandle {
    let mut detail = mge_core::packet::ContextScoreDebugItem::zero();
    detail.cell_id = cell_id;
    detail.score = score;
    RankedCellHandle { source, cell_id, updated_at: 0, score, score_detail: detail }
}

#[test]
fn pack_ranked_handles_drops_repeated_cells_and_counts_candidates() {
    let hot = HotMemoryLayer::from_cells(vec![cell(1, vec![], 0)]);
    let pages = vec![page(3, vec![cell(20, vec![], 0), cell(21, vec![], 0)])];
    let handles = vec![
        handle(RankedCellSource::Hot(1), 1, 30),
        handle(RankedCellSource::Sealed { page_id: 3, cell_index: 1 }, 21, 20),
        handle(RankedCellSource::Hot(1), 1, 10),
        handle(RankedCellSource::Sealed { page_id: 3, cell_index: 0 }, 20, 5),
    ];
    let dictionary = MarkerDictionary::new();
    let packet = pack_ranked_handles(
        "facts".to_string(),
        &handles,
        &hot,
        &pages,
        &dictionary,
        ContextDebugInfo::zero(),
        2,
    )
    .unwrap();
    assert_eq!(packet.relevant_memory.len(), 2);
    assert_eq!(packet.relevant_memory[0].content, "fact number 1");
    assert_eq!(packet.relevant_memory[1].content, "fact number 21");
    assert_eq!(packet.debug.total_candidates, 3);
    assert_eq!(packet.debug.returned_items, 2);
    assert_eq!(packet.debug.score_details[1].score, 20);
}

#[test]
fn pack_ranked_handles_names_a_handle_without_a_cell() {
    let hot = HotMemoryLayer::new();
    let pages = vec![page(3, vec![cell(20, vec![], 0)])];
    let dictionary = MarkerDictionary::new();
    let cases = vec![
        (handle(RankedCellSource::Hot(8), 8, 1), "ranked hot cell 8 is missing"),
        (handle(RankedCellSource::Sealed { page_id: 9, cell_index: 0 }, 20, 1), "ranked sealed page 9 is missing"),
        (
            handle(RankedCellSource::Sealed { page_id: 3, cell_index: 4 }, 20, 1),
            "ranked sealed cell index 4 is missing from page 3",
        ),
        (
            handle(RankedCellSource::Sealed { page_id: 3, cell_index: 0 }, 21, 1),
            "ranked sealed cell id mismatch on page 3: expected 21, found 20",
        ),
    ];
    for (h, expected) in cases {
        let result = pack_ranked_handles(
            "q".to_string(),
            &[h],
            &hot,
            &pages,
            &dictionary,
            ContextDebugInfo::zero(),
            5,
        );
        match result {
            Err(MgeError::InvalidInput(message)) => assert_eq!(message, expected),
            Err(other) => panic!("unexpected error: {other:?}"),
            Ok(_) => panic!("expected an error for {expected}"),
        }
    }
}

/// Two cells remembered into a dictionary, sealed into one page whose
/// catalog entry and exact index are built from it.
fn sealed_store() -> (MarkerDictionary, Vec<MemoryPage>, PageCatalogEntry, ExactMarkerPageIndex) {
    let mut dictionary = MarkerDictionary::new();
    let mut next_cell_id = 1;
    let mut cells = Vec::new();
    for text in ["Use concise answers", "Prefer Rust examples"] {
        let request = RememberRequest::new(MemoryKind::UserPreference, MemoryValue::Text(text.to_string()));
        cells.push(remember_cell(request, &mut dictionary, &mut next_cell_id).unwrap());
    }
    let pages = build_pages_from_cells(&cells, 1, &cell_bytes);
    assert_eq!(pages.len(), 1);
    let catalog_entry = page_catalog_entry_for_existing_page(
        &pages[0],
        "000001.mgp".to_string(),
        PageCodecKind::MessagePack,
        CompressionKind::Uncompressed,
        PageClustererKind::ScopeKind,
        512,
        &dictionary,
    )
    .unwrap();
    let index = ExactMarkerPageIndex::build_from_pages(&pages);
    (dictionary, pages, catalog_entry, index)
}

fn observations(
    catalog_entry: PageCatalogEntry,
    page_file: PageFileCheck,
    index: ExactMarkerPageIndex,
    next_cell_id: u64,
) -> StoreObservations {
    StoreObservations {
        deep: true,
        manifest_index_kind: IndexKind::ExactMarkerPage,
        next_page_id: 2,
        next_cell_id,
        catalog_missing: None,
        catalog: Ok(PageCatalog { index_kind: IndexKind::ExactMarkerPage, pages: vec![catalog_entry] }),
        index: IndexCheck::Loaded(CandidateIndexData::ExactMarkerPage(index)),
        hot_load_error: None,
        hot_cells: Vec::new(),
        page_files: vec![page_file],
        page_dir_files: vec!["000001.mgp".to_string()],
        index_dir_files: vec!["page_index.mgi".to_string(), "marker_index.mgi".to_string()],
    }
}

#[test]
fn validate_store_accepts_a_consistent_sealed_store() {
    let (dictionary, mut pages, catalog_entry, index) = sealed_store();
    let mut page = pages.remove(0);
    page.checksum = Some("0".repeat(64));
    let cells = page.cells.len();
    let file = PageFileCheck::Present { size: Ok(512), read: Ok(PageRead { page, checksum_check: Ok(true) }) };
    let report = validate_store(&observations(catalog_entry, file, index, 3), &dictionary);
    assert!(report.ok, "errors: {:?}", report.errors);
    assert!(report.errors.is_empty());
    assert!(report.warnings.is_empty(), "warnings: {:?}", report.warnings);
    assert_eq!(report.checked_sealed_pages, 1);
    assert_eq!(report.checked_sealed_cells, cells);
}

#[test]
fn validate_store_reports_missing_files_orphans_and_stale_ids() {
    let (dictionary, _pages, catalog_entry, index) = sealed_store();
    let mut obs = observations(catalog_entry, PageFileCheck::Missing("store/pages/000001.mgp".to_string()), index, 3);
    obs.next_page_id = 1;
    obs.page_dir_files.push("stray.mgp".to_string());
    obs.index_dir_files.push("notes.txt".to_string());
    let report = validate_store(&obs, &dictionary);
    assert!(!report.ok);
    assert_eq!(
        report.errors,
        vec![
            "missing page file for page 1: store/pages/000001.mgp".to_string(),
            "orphan page file not referenced by catalog: stray.mgp".to_string(),
            "manifest next_page_id 1 must be greater than max sealed page id 1".to_string(),
        ]
    );
    assert_eq!(report.warnings, vec!["unknown index file not managed by store: notes.txt".to_string()]);
    assert_eq!(report.checked_sealed_pages, 0);
}

#[test]
fn validate_store_reports_repeated_cell_ids_and_unknown_links() {
    let (dictionary, mut pages, catalog_entry, index) = sealed_store();
    let mut page = pages.remove(0);
    page.checksum = Some("0".repeat(64));
    let mut hot = page.cells[0].clone();
    hot.links = vec![999];
    let file = PageFileCheck::Present { size: Ok(100), read: Ok(PageRead { page, checksum_check: Ok(true) }) };
    let mut obs = observations(catalog_entry, file, index, 2);
    obs.hot_cells = vec![hot];
    obs.deep = false;
    obs.page_dir_files.push("stray.mgp".to_string());
    let report = validate_store(&obs, &dictionary);
    assert!(!report.ok);
    assert!(report.errors.contains(&"duplicate cell id 1".to_string()));
    assert!(report.errors.contains(&"catalog page 1 encoded_size_bytes 512 does not match file size 100".to_string()));
    assert!(report.errors.contains(&"manifest next_cell_id 2 must be greater than max cell id 2".to_string()));
    assert!(report.errors.contains(&"hot cell 1 links to unknown cell 999".to_string()));
    assert_eq!(report.warnings, vec!["orphan page file not referenced by catalog: stray.mgp".to_string()]);
    assert_eq!(report.checked_hot_cells, 1);
}

#[test]
fn validate_store_warns_about_an_empty_store_with_a_missing_catalog() {
    let dictionary = MarkerDictionary::new();
    let obs = StoreObservations {
        deep: false,
        manifest_index_kind: IndexKind::ExactMarkerPage,
        next_page_id: 1,
        next_cell_id: 1,
        catalog_missing: Some("store/indexes/page_index.mgi".to_string()),
        catalog: Err("io error: not found".to_string()),
        index: IndexCheck::Missing("store/indexes/marker_index.mgi".to_string()),
        hot_load_error: None,
        hot_cells: Vec::new(),
        page_files: Vec::new(),
        page_dir_files: Vec::new(),
        index_dir_files: Vec::new(),
    };
    let report = validate_store(&obs, &dictionary);
    assert_eq!(
        report.errors,
        vec![
            "page catalog load failed: io error: not found".to_string(),
            "active candidate index file missing: store/indexes/marker_index.mgi".to_string(),
        ]
    );
    assert_eq!(
        report.warnings,
        vec![
            "page catalog file missing: store/indexes/page_index.mgi".to_string(),
            "store contains no hot or sealed cells".to_string(),
        ]
    );
}

#[test]
fn hidden_cells_are_not_scored_under_the_default_policy() {
    let request = RecallRequest::new("fact");
    let context = ScoringContext::new(&request, &[5], &["fact".to_string()]);
    let mut deprecated = cell(1, vec![5], 0);
    deprecated.status = MemoryStatus::Deprecated;
    let mut secret = cell(2, vec![5], 0);
    secret.sensitivity = SensitivityLevel::SecretReference;
    for mode in [RecallMode::Focused, RecallMode::Broad, RecallMode::FullScope] {
        assert!(score_in_mode(&deprecated, mode, &context).is_none());
        assert!(score_in_mode(&secret, mode, &context).is_none());
        assert!(score_in_mode(&cell(3, vec![5], 0), mode, &context).is_some());
    }
}

#[test]
fn rebuild_order_sorts_pages_by_id() {
    assert_eq!(mge_core::store::rebuild_order(&vec![7, 2, 5]).unwrap(), vec![1, 2, 0]);
    assert_eq!(mge_core::store::rebuild_order(&vec![]).unwrap(), Vec::<usize>::new());
}

#[test]
fn rebuild_order_names_the_smallest_repeated_page_id() {
    match mge_core::store::rebuild_order(&vec![9, 4, 9, 4, 1]) {
        Err(MgeError::InvalidInput(message)) => {
            assert_eq!(message, "duplicate sealed page id 4 while rebuilding catalog/indexes")
        }
        _ => panic!("expected a duplicate page id error"),
    }
}

#[test]
fn markdown_export_lists_hot_cells_and_pages() {
    let mut dictionary = MarkerDictionary::new();
    let scope = dictionary.get_or_insert("scope:project").unwrap();
    let mut hot = cell(1, vec![scope, 999], 0);
    hot.subject = Some("style".to_string());
    let pages = vec![page(4, vec![cell(2, vec![], 0)])];
    let text = mge_core::export::export_markdown(1, IndexKind::ExactMarkerPage, 1, &vec![hot], &pages, &dictionary);
    let expected = "# Memory Genome Export\n\n## Store\n\n- version: 1\n- markers: 1\n- hot cells: 1\n- sealed pages: 1\n- index kind: exact_marker_page\n\n## Hot Memory\n\n\
#### Cell 1\n\n- kind: project_fact\n- scope: project\n- status: active\n- trust: user_confirmed\n- sensitivity: private\n- subject: style\n- markers: `scope:project`\n\nfact number 1\n\n\
## Sealed Pages\n\n### Page 4\n\n- cells: 1\n- markers: 0\n\n\
#### Cell 2\n\n- kind: project_fact\n- scope: project\n- status: active\n- trust: user_confirmed\n- sensitivity: private\n\nfact number 2\n\n";
    assert_eq!(text, expected);
    let empty = mge_core::export::export_markdown(1, IndexKind::BinaryFusePage, 0, &vec![], &vec![], &MarkerDictionary::new());
    assert!(empty.ends_with("## Hot Memory\n\n_No hot cells._\n\n## Sealed Pages\n\n_No sealed pages._\n"));
}

#[test]
fn reopening_raises_the_next_cell_id_above_recovered_cells() {
    let cells = vec![cell(4, vec![], 0), cell(9, vec![], 0), cell(2, vec![], 0)];
    assert_eq!(mge_core::store::recovered_next_cell_id(3, &cells), 10);
    assert_eq!(mge_core::store::recovered_next_cell_id(12, &cells), 12);
    assert_eq!(mge_core::store::recovered_next_cell_id(5, &vec![cell(u64::MAX, vec![], 0)]), u64::MAX);
}

#[test]
fn built_fuse_filters_are_well_formed_and_find_their_markers() {
    let mut first = page(1, vec![cell(1, vec![3, 5], 0)]);
    first.marker_summary = vec![3, 5];
    let mut second = page(2, vec![cell(2, vec![5, 9], 0)]);
    second.marker_summary = vec![5, 9];
    let pages = vec![first, second];
    let index = BinaryFusePageIndex::build_filters(&pages).unwrap();
    for f in &index.page_filters {
        assert!(fuse_is_well_formed(f.filter.as_ref().unwrap()));
    }
    assert_eq!(index.query_with_mode(&[3, 5], QueryMode::Intersection), vec![1]);
    assert!(index.query_with_mode(&[5], QueryMode::Union) == vec![1, 2]);
    assert_eq!(index.query_with_mode(&[], QueryMode::Union), vec![1, 2]);
}

#[test]
fn exact_intersection_of_no_markers_is_every_page() {
    let mut first = page(1, vec![cell(1, vec![3], 0)]);
    first.marker_summary = vec![3];
    let mut second = page(2, vec![cell(2, vec![4], 0)]);
    second.marker_summary = vec![4];
    let index = ExactMarkerPageIndex::build_from_pages(&[first, second]);
    assert_eq!(index.intersection(&[]), vec![1, 2]);
    assert_eq!(index.intersection(&[3]), vec![1]);
    assert!(index.intersection(&[3, 4]).is_empty());
}

#[test]
fn recall_debug_info_derives_the_counts() {
    let counts = RecallCounts {
        hot_total_cells: 10,
        hot_candidate_cells: 4,
        sealed_cells_scanned: 6,
        loaded_pages: 2,
        pruned_candidate_pages: 1,
        false_positive_candidate_pages: 1,
        cells_ranked: 7,
        decoded_page_cache_hits: 1,
        decoded_page_cache_misses: 1,
        scoring_cache_hits: 0,
        scoring_cache_misses: 1,
    };
    let candidates = CandidatePageQueryResult { page_ids: vec![3, 8, 9], page_filters_scanned: 5, candidate_pages_returned: 3 };
    let d = recall_debug_info(RecallMode::FullScope, 5, IndexKind::BinaryFusePage, &counts, candidates);
    assert_eq!(d.cells_scanned, 10);
    assert_eq!(d.cells_filtered, 3);
    assert_eq!(d.candidate_pages, vec![3, 8, 9]);
    assert_eq!((d.pages_considered, d.page_filters_scanned, d.loaded_pages), (3, 5, 2));
    assert_eq!((d.pruned_candidate_pages, d.pages_pruned_by_metadata, d.cells_decoded), (1, 1, 6));
    assert_eq!((d.cells_ranked, d.total_candidates, d.false_positive_candidate_pages), (7, 7, 1));
    assert!(d.full_scope_used);
    assert_eq!((d.decoded_page_cache_hits, d.decoded_page_cache_misses), (1, 1));
    assert_eq!((d.scoring_cache_hits, d.scoring_cache_misses), (0, 1));
    let many = RecallCounts { cells_ranked: 20, ..counts };
    let empty = CandidatePageQueryResult { page_ids: vec![], page_filters_scanned: 0, candidate_pages_returned: 0 };
    let d = recall_debug_info(RecallMode::Focused, 5, IndexKind::ExactMarkerPage, &many, empty);
    assert_eq!(d.cells_filtered, 0);
    assert!(!d.full_scope_used);
}

#[test]
fn the_clock_reads_after_the_epoch() {
    let now = current_timestamp().unwrap();
    assert!(now > 1_600_000_000);
}

#[test]
fn decoded_page_cache_keeps_the_most_recent_pages() {
    let mut cache = DecodedPageCache::new(2);
    assert!(cache.get(1).is_none());
    cache.insert(page(1, vec![cell(1, vec![3], 0)]), true);
    cache.insert(page(2, vec![cell(2, vec![3], 0)]), false);
    let hit = cache.get(1).unwrap();
    assert_eq!(hit.page.page_id, 1);
    assert!(hit.scored);
    assert_eq!(hit.page.cells[0].id, 1);
    cache.insert(page(3, vec![cell(3, vec![3], 0)]), false);
    assert!(cache.get(2).is_none());
    assert!(cache.get(1).is_some());
    assert!(cache.get(3).is_some());
    let (p, scoring_hit, scoring_miss) = cached_page_for_recall(&mut cache, 3, true).unwrap();
    assert_eq!((p.page_id, scoring_hit, scoring_miss), (3, false, true));
    let (_, scoring_hit, scoring_miss) = cached_page_for_recall(&mut cache, 3, true).unwrap();
    assert_eq!((scoring_hit, scoring_miss), (true, false));
    let (_, scoring_hit, scoring_miss) = cached_page_for_recall(&mut cache, 1, false).unwrap();
    assert_eq!((scoring_hit, scoring_miss), (false, false));
    assert!(cached_page_for_recall(&mut cache, 9, true).is_none());
    let mut none = DecodedPageCache::new(0);
    none.insert(page(1, vec![]), true);
    assert!(none.get(1).is_none());
}

#[test]
fn recall_preconditions_can_be_tested() {
    let p = page(1, vec![cell(1, vec![3, 4], 0)]);
    assert!(page_is_scorable(&p));
    let hot = HotMemoryLayer::from_cells(vec![cell(5, vec![1], 0)]);
    assert!(hot.all_scorable());
    let good = handle(RankedCellSource::Hot(5), 5, 1);
    let bad = handle(RankedCellSource::Hot(5), 6, 1);
    assert!(handles_are_consistent(&[good]));
    assert!(!handles_are_consistent(&[good, bad]));
}

#[test]
fn binary_fuse_index_finds_the_pages_of_its_doc_example() {
    let mut first = page(1, vec![cell(1, vec![10, 20, 30, 40], 0)]);
    first.marker_summary = vec![10, 20, 30, 40];
    let mut second = page(2, vec![cell(2, vec![50, 60, 70, 80], 0)]);
    second.marker_summary = vec![50, 60, 70, 80];
    let index = BinaryFusePageIndex::build_filters(&[first, second]).unwrap();
    assert_eq!(index.query_with_mode(&[10], QueryMode::Union), vec![1]);
    assert_eq!(index.query_with_mode(&[50], QueryMode::Union), vec![2]);
    assert_eq!(index.query_with_mode(&[10, 20], QueryMode::Union), vec![1]);
}

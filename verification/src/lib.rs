pub mod binary;
pub mod checksum;
pub mod compression;
pub mod errors;
pub mod eval;
pub mod export;
pub mod hot;
pub mod idset;
pub mod indexes;
pub mod ingestion;
pub mod marker_dictionary;
pub mod locomo;
pub mod longmemeval;
pub mod markers;
pub mod models;
pub mod packet;
pub mod pages;
pub mod recall;
pub mod retrieval;
pub mod security;
pub mod store;
pub mod store_validation;
pub mod text;
pub mod validation;

pub use compression::{CompressionKind, Compressor, NoCompression, ZstdCompression};
pub use errors::MgeError;
pub use hot::{allowed_statuses_for_policy, HotCandidateQuery, HotMemoryLayer, HotStore};
pub use indexes::{
    BinaryFusePageFilter, BinaryFusePageIndex, CandidateIndexData, CandidatePageIndex,
    CandidatePageQueryResult, ExactMarkerPageIndex, IndexKind, QueryMode,
};
pub use marker_dictionary::{MarkerDebugEntry, MarkerDictionary};
pub use markers::{
    canonicalize_marker, canonicalize_marker_value, extract_query_marker_strings,
    marker_strings_for_cell_fields, tokenize_keywords,
};
pub use models::{
    CellId, MarkerGenome, MemoryCell, MemoryKind, MemorySource, MemoryStatus, MemoryValue, PageId,
    RecallMode, SensitivityLevel, TrustLevel,
};
pub use packet::{ContextDebugInfo, ContextMemoryItem, ContextPacket};
pub use pages::{
    attach_page_checksum, build_pages_from_cells, build_pages_with_clusterer,
    build_pages_with_kind, page_checksum_matches, MarkerOverlapClusterer, MemoryPage,
    PageBuildOptions, PageCatalog, PageCatalogEntry, PageClusterer, PageClustererKind,
    PageCodecKind, ScopeKindClusterer, DEFAULT_MAX_CELLS_PER_PAGE, DEFAULT_TARGET_PAGE_BYTES,
};
pub use retrieval::{build_context_packet, score_cell, score_cell_debug, RecallRequest, Retriever};
pub use security::{
    AgentCapabilities, AgentCapability, AuditEvent, AuditLogger, NoSecurity, NoopAuditLogger,
    RecallPolicy, SecurityProvider,
};
pub use store::{
    DurabilityPolicy, HotCheckpointReport, InitOptions, RememberRequest, SealReport,
    StorageConfig, StorageConfigUpdate, StorageConfigUpdateReport, StoreStats, ValidationReport,
    DEFAULT_STORE_DIR,
};

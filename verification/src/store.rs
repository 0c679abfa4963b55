//! The store's configuration, reports, and the rules the engine applies to
//! pages and indexes.
use vstd::prelude::*;
use crate::binary::{codec_name, CodecId};
use crate::compression::{compression_name, CompressionKind};
use crate::errors::MgeError;
use crate::indexes::{index_kind_name, IndexKind};
use crate::hot::allowed_statuses_spec;
use crate::marker_dictionary::{DictionaryView, MarkerDictionary};
use crate::markers::{canonical_marker, canonicalize_marker, extract_query_marker_strings, keywords, tokenize_keywords};
use crate::models::{memory_kind_name, RecallMode};
use crate::indexes::QueryMode;
use crate::retrieval::RecallRequest;
use crate::packet::ContextScoreDebugItem;
use crate::text::{sort_dedup_strings, strictly_sorted, views_of};
use crate::pages::PageCatalogEntry;
use crate::security::RecallPolicy;
use crate::models::{
    memory_status_name, sensitivity_level_name, MarkerId,
    CellId, MemoryKind, MemorySource, MemoryStatus, MemoryValue, PageId, SensitivityLevel,
    TrustLevel,
};
use crate::pages::{page_clusterer_name, page_codec_name, PageClustererKind, PageCodecKind};
use crate::text::{
    bool_text, chars_eq, chars_of, decimal, push_bool_str, push_chars, push_decimal_str,
    push_signed_decimal, push_str, signed_decimal, string_from, trim_ascii_lower,
    trim_ascii_lower_chars,
};

verus! {

pub const DEFAULT_STORE_DIR: &'static str = ".memory-genome";

pub const MANIFEST_FILE: &'static str = "manifest.mgm";

pub const MARKER_DICTIONARY_FILE: &'static str = "markers.mgd";

pub const HOT_LOG_FILE: &'static str = "hot.mgl";

pub const PAGE_CATALOG_FILE: &'static str = "page_index.mgi";

pub const EXACT_MARKER_INDEX_FILE: &'static str = "marker_index.mgi";

pub const BINARY_FUSE_INDEX_FILE: &'static str = "fuse_index.mgi";

pub const DECODED_PAGE_CACHE_CAPACITY: usize = 64;

// ---------------------------------------------------------------------------
// Durability policy
// ---------------------------------------------------------------------------

/// How eagerly the hot log is synced to disk.
#[derive(Clone, Copy, Debug, PartialEq, Eq, Structural)]
pub enum DurabilityPolicy {
    Fast,
    Balanced,
    Safe,
}

pub open spec fn durability_name(d: DurabilityPolicy) -> Seq<char> {
    match d {
        DurabilityPolicy::Fast => "fast"@,
        DurabilityPolicy::Balanced => "balanced"@,
        DurabilityPolicy::Safe => "safe"@,
    }
}

/// The policy a name selects, after trimming and ASCII lowercasing
/// (`default` is `balanced`).
pub open spec fn durability_from_text(input: Seq<char>) -> Option<DurabilityPolicy> {
    let t = trim_ascii_lower(input);
    if t == "fast"@ {
        Some(DurabilityPolicy::Fast)
    } else if t == "balanced"@ || t == "default"@ {
        Some(DurabilityPolicy::Balanced)
    } else if t == "safe"@ {
        Some(DurabilityPolicy::Safe)
    } else {
        None
    }
}

impl Default for DurabilityPolicy {
    /// Balanced.
    fn default() -> (d: Self)
        ensures
            d == DurabilityPolicy::Balanced,
    {
        DurabilityPolicy::Balanced
    }
}

impl DurabilityPolicy {
    pub fn as_str(&self) -> (s: &'static str)
        ensures
            s@ == durability_name(*self),
    {
        match self {
            DurabilityPolicy::Fast => "fast",
            DurabilityPolicy::Balanced => "balanced",
            DurabilityPolicy::Safe => "safe",
        }
    }

    /// Parses a policy name; an unknown name is an `InvalidInput` error that
    /// quotes the trimmed, lowercased input and lists the policies.
    pub fn parse(input: &str) -> (r: Result<DurabilityPolicy, MgeError>)
        ensures
            match durability_from_text(input@) {
                Some(d) => r == Ok::<DurabilityPolicy, MgeError>(d),
                None => r matches Err(MgeError::InvalidInput(m)) && m@ == "unknown durability policy: "@
                    + trim_ascii_lower(input@) + "; supported: fast, balanced, safe"@,
            },
    {
        let t = trim_ascii_lower_chars(input);
        if chars_eq(&t, &chars_of("fast")) {
            return Ok(DurabilityPolicy::Fast);
        }
        if chars_eq(&t, &chars_of("balanced")) || chars_eq(&t, &chars_of("default")) {
            return Ok(DurabilityPolicy::Balanced);
        }
        if chars_eq(&t, &chars_of("safe")) {
            return Ok(DurabilityPolicy::Safe);
        }
        let mut m = string_from("unknown durability policy: ");
        push_chars(&mut m, &t);
        push_str(&mut m, "; supported: fast, balanced, safe");
        Err(MgeError::InvalidInput(m))
    }
}

// ---------------------------------------------------------------------------
// Manifest and storage configuration
// ---------------------------------------------------------------------------

/// The store manifest: format version, times, id counters and storage
/// configuration.
#[derive(Clone, Debug, PartialEq, Eq)]
pub struct Manifest {
    pub version: u32,
    pub created_at: i64,
    pub updated_at: i64,
    pub next_cell_id: CellId,
    pub next_page_id: PageId,
    pub last_seal_time: Option<i64>,
    pub page_codec: PageCodecKind,
    pub compression: CompressionKind,
    pub index_kind: IndexKind,
    pub page_clusterer: PageClustererKind,
    pub durability: DurabilityPolicy,
}

/// The storage configuration a store is created with.
#[derive(Clone, Copy, Debug, PartialEq, Eq, Structural)]
pub struct InitOptions {
    pub page_codec: PageCodecKind,
    pub compression: CompressionKind,
    pub index_kind: IndexKind,
    pub page_clusterer: PageClustererKind,
    pub durability: DurabilityPolicy,
}

impl Default for InitOptions {
    /// MessagePack pages without compression, the exact index, scope-kind
    /// clustering and balanced durability.
    fn default() -> (o: Self)
        ensures
            o.page_codec == PageCodecKind::MessagePack,
            o.compression == CompressionKind::Uncompressed,
            o.index_kind == IndexKind::ExactMarkerPage,
            o.page_clusterer == PageClustererKind::ScopeKind,
            o.durability == DurabilityPolicy::Balanced,
    {
        InitOptions {
            page_codec: PageCodecKind::MessagePack,
            compression: CompressionKind::Uncompressed,
            index_kind: IndexKind::ExactMarkerPage,
            page_clusterer: PageClustererKind::ScopeKind,
            durability: DurabilityPolicy::Balanced,
        }
    }
}

/// The storage configuration of a store.
#[derive(Clone, Copy, Debug, PartialEq, Eq, Structural)]
pub struct StorageConfig {
    pub page_codec: PageCodecKind,
    pub compression: CompressionKind,
    pub index_kind: IndexKind,
    pub page_clusterer: PageClustererKind,
    pub durability: DurabilityPolicy,
}

/// The settings a configuration update changes (`None` keeps a setting).
#[derive(Clone, Copy, Debug, PartialEq, Eq, Structural)]
pub struct StorageConfigUpdate {
    pub page_codec: Option<PageCodecKind>,
    pub compression: Option<CompressionKind>,
    pub index_kind: Option<IndexKind>,
    pub page_clusterer: Option<PageClustererKind>,
    pub durability: Option<DurabilityPolicy>,
}

impl Default for StorageConfigUpdate {
    /// An update that changes nothing.
    fn default() -> (u: Self)
        ensures
            u.page_codec is None && u.compression is None && u.index_kind is None
                && u.page_clusterer is None && u.durability is None,
    {
        StorageConfigUpdate {
            page_codec: None,
            compression: None,
            index_kind: None,
            page_clusterer: None,
            durability: None,
        }
    }
}

/// The configuration before and after an update.
#[derive(Clone, Debug, PartialEq, Eq)]
pub struct StorageConfigUpdateReport {
    pub previous: StorageConfig,
    pub current: StorageConfig,
    pub changed: bool,
    pub existing_pages_unchanged: usize,
}

impl Manifest {
    /// The manifest's storage configuration.
    pub fn storage_config(&self) -> (c: StorageConfig)
        ensures
            c == manifest_config(*self),
    {
        StorageConfig {
            page_codec: self.page_codec,
            compression: self.compression,
            index_kind: self.index_kind,
            page_clusterer: self.page_clusterer,
            durability: self.durability,
        }
    }
}

pub open spec fn manifest_config(m: Manifest) -> StorageConfig {
    StorageConfig {
        page_codec: m.page_codec,
        compression: m.compression,
        index_kind: m.index_kind,
        page_clusterer: m.page_clusterer,
        durability: m.durability,
    }
}

pub open spec fn keep_or<T>(v: Option<T>, old: T) -> T {
    match v {
        Some(x) => x,
        None => old,
    }
}

/// A configuration with an update applied.
pub open spec fn updated_config(c: StorageConfig, u: StorageConfigUpdate) -> StorageConfig {
    StorageConfig {
        page_codec: keep_or(u.page_codec, c.page_codec),
        compression: keep_or(u.compression, c.compression),
        index_kind: keep_or(u.index_kind, c.index_kind),
        page_clusterer: keep_or(u.page_clusterer, c.page_clusterer),
        durability: keep_or(u.durability, c.durability),
    }
}

pub open spec fn update_is_empty(u: StorageConfigUpdate) -> bool {
    u.page_codec is None && u.compression is None && u.index_kind is None && u.page_clusterer is None
        && u.durability is None
}

/// The message of the error for a JSON page codec in runtime storage.
pub open spec fn json_runtime_message() -> Seq<char> {
    "json page codec is only allowed for optional debug/export paths, not runtime storage"@
}

/// Checks that pages can be stored with this codec (JSON is for debugging
/// and export only).
pub fn ensure_runtime_page_codec(page_codec: PageCodecKind) -> (r: Result<(), MgeError>)
    ensures
        page_codec == PageCodecKind::Json ==> (r matches Err(MgeError::InvalidInput(m)) && m@
            == json_runtime_message()),
        page_codec != PageCodecKind::Json ==> r is Ok,
{
    if page_codec == PageCodecKind::Json {
        return Err(MgeError::InvalidInput(string_from(
            "json page codec is only allowed for optional debug/export paths, not runtime storage",
        )));
    }
    Ok(())
}

/// Applies a configuration update to a manifest: a JSON page codec is
/// refused, an update must change at least one setting; the result says
/// whether the configuration changed. The manifest's other fields stay.
pub fn apply_storage_config_update(manifest: &mut Manifest, update: StorageConfigUpdate) -> (r: Result<
    (StorageConfig, StorageConfig),
    MgeError,
>)
    ensures
        update.page_codec == Some(PageCodecKind::Json) ==> (r matches Err(MgeError::InvalidInput(m)) && m@
            == json_runtime_message()),
        update.page_codec != Some(PageCodecKind::Json) && update_is_empty(update) ==> (r matches Err(
            MgeError::InvalidInput(m),
        ) && m@
            == "storage config update requires page_codec, compression, index_kind, page_clusterer, or durability"@),
        r is Err ==> *final(manifest) == *old(manifest),
        update.page_codec != Some(PageCodecKind::Json) && !update_is_empty(update) ==> (r matches Ok(
            (previous, current),
        ) && previous == manifest_config(*old(manifest)) && current == updated_config(previous, update)
            && manifest_config(*final(manifest)) == current && final(manifest).version == old(
            manifest,
        ).version && final(manifest).created_at == old(manifest).created_at
            && final(manifest).updated_at == old(manifest).updated_at && final(manifest).next_cell_id
            == old(manifest).next_cell_id && final(manifest).next_page_id == old(
            manifest,
        ).next_page_id && final(manifest).last_seal_time == old(manifest).last_seal_time),
{
    if let Some(page_codec) = update.page_codec {
        if let Err(e) = ensure_runtime_page_codec(page_codec) {
            return Err(e);
        }
    }
    if update.page_codec.is_none() && update.compression.is_none() && update.index_kind.is_none()
        && update.page_clusterer.is_none() && update.durability.is_none() {
        return Err(MgeError::InvalidInput(string_from(
            "storage config update requires page_codec, compression, index_kind, page_clusterer, or durability",
        )));
    }
    let previous = manifest.storage_config();
    if let Some(page_codec) = update.page_codec {
        manifest.page_codec = page_codec;
    }
    if let Some(compression) = update.compression {
        manifest.compression = compression;
    }
    if let Some(index_kind) = update.index_kind {
        manifest.index_kind = index_kind;
    }
    if let Some(page_clusterer) = update.page_clusterer {
        manifest.page_clusterer = page_clusterer;
    }
    if let Some(durability) = update.durability {
        manifest.durability = durability;
    }
    let current = manifest.storage_config();
    Ok((previous, current))
}

/// The frame codec pages are stored with: MessagePack, compressed with zstd
/// or not; JSON is refused.
pub fn page_storage_codec(page_codec: PageCodecKind, compression: CompressionKind) -> (r: Result<CodecId, MgeError>)
    ensures
        match page_codec {
            PageCodecKind::MessagePack => r == Ok::<CodecId, MgeError>(
                if compression == CompressionKind::Zstd {
                    CodecId::MessagePackZstd
                } else {
                    CodecId::MessagePack
                },
            ),
            PageCodecKind::Json => r matches Err(MgeError::InvalidInput(m)) && m@ == json_runtime_message(),
        },
{
    match page_codec {
        PageCodecKind::MessagePack => match compression {
            CompressionKind::Uncompressed => Ok(CodecId::MessagePack),
            CompressionKind::Zstd => Ok(CodecId::MessagePackZstd),
        },
        PageCodecKind::Json => Err(MgeError::InvalidInput(string_from(
            "json page codec is only allowed for optional debug/export paths, not runtime storage",
        ))),
    }
}

/// The page codec and compression of a page frame's codec; any codec but
/// MessagePack (plain or zstd) is not a runtime page codec.
pub fn page_storage_details_from_codec(codec: CodecId) -> (r: Result<(PageCodecKind, CompressionKind), MgeError>)
    ensures
        codec == CodecId::MessagePack ==> r == Ok::<(PageCodecKind, CompressionKind), MgeError>(
            (PageCodecKind::MessagePack, CompressionKind::Uncompressed),
        ),
        codec == CodecId::MessagePackZstd ==> r == Ok::<(PageCodecKind, CompressionKind), MgeError>(
            (PageCodecKind::MessagePack, CompressionKind::Zstd),
        ),
        codec != CodecId::MessagePack && codec != CodecId::MessagePackZstd ==> (r matches Err(
            MgeError::StorageFormat(m),
        ) && m@ == "page frame codec "@ + codec_name(codec) + " is not valid for runtime page storage"@),
{
    match codec {
        CodecId::MessagePack => Ok((PageCodecKind::MessagePack, CompressionKind::Uncompressed)),
        CodecId::MessagePackZstd => Ok((PageCodecKind::MessagePack, CompressionKind::Zstd)),
        other => {
            let mut m = string_from("page frame codec ");
            push_str(&mut m, other.as_str());
            push_str(&mut m, " is not valid for runtime page storage");
            Err(MgeError::StorageFormat(m))
        },
    }
}

/// Whether a file of the index directory is one the store writes.
pub fn is_known_index_file(file_name: &str) -> (b: bool)
    ensures
        b == (file_name@ == PAGE_CATALOG_FILE@ || file_name@ == EXACT_MARKER_INDEX_FILE@
            || file_name@ == BINARY_FUSE_INDEX_FILE@),
{
    let f = chars_of(file_name);
    chars_eq(&f, &chars_of(PAGE_CATALOG_FILE)) || chars_eq(&f, &chars_of(EXACT_MARKER_INDEX_FILE))
        || chars_eq(&f, &chars_of(BINARY_FUSE_INDEX_FILE))
}

// ---------------------------------------------------------------------------
// Requests and reports
// ---------------------------------------------------------------------------

/// A request to remember one fact.
#[derive(Clone, Debug)]
pub struct RememberRequest {
    pub kind: MemoryKind,
    pub subject: Option<String>,
    pub value: MemoryValue,
    pub scope: String,
    pub status: MemoryStatus,
    pub trust: TrustLevel,
    pub sensitivity: SensitivityLevel,
    pub markers: Vec<String>,
    pub source: Option<MemorySource>,
    pub links: Vec<CellId>,
}

impl RememberRequest {
    /// An active, private, agent-inferred fact in the `global` scope.
    pub fn new(kind: MemoryKind, value: MemoryValue) -> (r: Self)
        ensures
            r.kind == kind,
            r.subject is None,
            r.value == value,
            r.scope@ == "global"@,
            r.status == MemoryStatus::Active,
            r.trust == TrustLevel::AgentInferred,
            r.sensitivity == SensitivityLevel::Private,
            r.markers@.len() == 0,
            r.source is None,
            r.links@.len() == 0,
    {
        RememberRequest {
            kind,
            subject: None,
            value,
            scope: string_from("global"),
            status: MemoryStatus::Active,
            trust: TrustLevel::AgentInferred,
            sensitivity: SensitivityLevel::Private,
            markers: Vec::new(),
            source: None,
            links: Vec::new(),
        }
    }
}

/// What a seal did; the archived hot log's path when there was one.
#[derive(Clone, Debug, PartialEq, Eq)]
pub struct SealReport {
    pub hot_cells_sealed: usize,
    pub pages_written: usize,
    pub archived_hot_log: Option<String>,
}

/// What a hot checkpoint wrote.
#[derive(Clone, Debug, PartialEq, Eq)]
pub struct HotCheckpointReport {
    pub hot_cells: usize,
    pub snapshot_path: String,
    pub hot_log_offset: u64,
    pub durability: DurabilityPolicy,
}

/// One line of a human-readable report: `label: value`.
pub open spec fn report_line(label: Seq<char>, value: Seq<char>) -> Seq<char> {
    label + ": "@ + value + "\n"@
}

fn push_line_decimal(out: &mut String, label: &str, value: u64)
    ensures
        final(out)@ == old(out)@ + report_line(label@, decimal(value as nat)),
{
    push_str(out, label);
    push_str(out, ": ");
    push_decimal_str(out, value);
    push_str(out, "\n");
    proof {
        reveal_strlit(": ");
        reveal_strlit("\n");
        assert(out@ =~= old(out)@ + report_line(label@, decimal(value as nat)));
    }
}

fn push_line_text(out: &mut String, label: &str, value: &str)
    ensures
        final(out)@ == old(out)@ + report_line(label@, value@),
{
    push_str(out, label);
    push_str(out, ": ");
    push_str(out, value);
    push_str(out, "\n");
    proof {
        reveal_strlit(": ");
        reveal_strlit("\n");
        assert(out@ =~= old(out)@ + report_line(label@, value@));
    }
}

fn push_line_bool(out: &mut String, label: &str, value: bool)
    ensures
        final(out)@ == old(out)@ + report_line(label@, bool_text(value)),
{
    push_str(out, label);
    push_str(out, ": ");
    push_bool_str(out, value);
    push_str(out, "\n");
    proof {
        reveal_strlit(": ");
        reveal_strlit("\n");
        assert(out@ =~= old(out)@ + report_line(label@, bool_text(value)));
    }
}

/// Counts and settings of a store.
#[derive(Clone, Debug, PartialEq, Eq)]
pub struct StoreStats {
    pub hot_cells: usize,
    pub sealed_pages: usize,
    pub sealed_cells: usize,
    pub marker_count: usize,
    pub page_count: usize,
    pub current_page_codec: PageCodecKind,
    pub current_compression: CompressionKind,
    pub current_index_kind: IndexKind,
    pub current_page_clusterer: PageClustererKind,
    pub current_durability: DurabilityPolicy,
    pub index_type: String,
    pub last_seal_time: Option<i64>,
    pub store_size_bytes: u64,
}

/// A seal time in decimal, or `never`.
pub open spec fn seal_time_text(t: Option<i64>) -> Seq<char> {
    match t {
        Some(v) => signed_decimal(v as int),
        None => "never"@,
    }
}

pub open spec fn stats_text(s: StoreStats) -> Seq<char> {
    report_line("hot cells"@, decimal(s.hot_cells as nat)) + report_line(
        "sealed pages"@,
        decimal(s.sealed_pages as nat),
    ) + report_line("sealed cells"@, decimal(s.sealed_cells as nat)) + report_line(
        "marker count"@,
        decimal(s.marker_count as nat),
    ) + report_line("page count"@, decimal(s.page_count as nat)) + report_line(
        "current page codec"@,
        page_codec_name(s.current_page_codec),
    ) + report_line("current compression"@, compression_name(s.current_compression)) + report_line(
        "current index kind"@,
        index_kind_name(s.current_index_kind),
    ) + report_line("current page clusterer"@, page_clusterer_name(s.current_page_clusterer))
        + report_line("current durability"@, durability_name(s.current_durability)) + report_line(
        "index type"@,
        s.index_type@,
    ) + report_line("last seal time"@, seal_time_text(s.last_seal_time)) + report_line(
        "store size bytes"@,
        decimal(s.store_size_bytes as nat),
    )
}

impl StoreStats {
    /// One `label: value` line per statistic.
    pub fn to_human_text(&self) -> (s: String)
        ensures
            s@ == stats_text(*self),
    {
        let mut s = String::new();
        push_line_decimal(&mut s, "hot cells", self.hot_cells as u64);
        push_line_decimal(&mut s, "sealed pages", self.sealed_pages as u64);
        push_line_decimal(&mut s, "sealed cells", self.sealed_cells as u64);
        push_line_decimal(&mut s, "marker count", self.marker_count as u64);
        push_line_decimal(&mut s, "page count", self.page_count as u64);
        push_line_text(&mut s, "current page codec", self.current_page_codec.as_str());
        push_line_text(&mut s, "current compression", self.current_compression.as_str());
        push_line_text(&mut s, "current index kind", self.current_index_kind.as_str());
        push_line_text(&mut s, "current page clusterer", self.current_page_clusterer.as_str());
        push_line_text(&mut s, "current durability", self.current_durability.as_str());
        push_line_text(&mut s, "index type", self.index_type.as_str());
        let ghost before = s@;
        push_str(&mut s, "last seal time: ");
        match self.last_seal_time {
            Some(t) => {
                let mut digits: Vec<char> = Vec::new();
                push_signed_decimal(&mut digits, t);
                push_chars(&mut s, &digits);
            },
            None => push_str(&mut s, "never"),
        }
        push_str(&mut s, "\n");
        proof {
            reveal_strlit("last seal time: ");
            reveal_strlit("last seal time");
            reveal_strlit(": ");
            reveal_strlit("\n");
            assert(s@ =~= before + report_line("last seal time"@, seal_time_text(self.last_seal_time)));
        }
        push_line_decimal(&mut s, "store size bytes", self.store_size_bytes);
        proof {
            assert(s@ =~= stats_text(*self));
        }
        s
    }
}

/// The outcome of validating a store: whether it is valid, what was
/// checked, and the errors and warnings found.
#[derive(Clone, Debug, PartialEq, Eq)]
pub struct ValidationReport {
    pub ok: bool,
    pub index_kind: IndexKind,
    pub checked_hot_cells: usize,
    pub checked_sealed_pages: usize,
    pub checked_sealed_cells: usize,
    pub errors: Vec<String>,
    pub warnings: Vec<String>,
}

pub open spec fn string_views(v: Seq<String>) -> Seq<Seq<char>> {
    v.map_values(|s: String| s@)
}

/// `prefix` + item + newline for each item.
pub open spec fn prefixed_lines(prefix: Seq<char>, items: Seq<Seq<char>>) -> Seq<char>
    decreases items.len(),
{
    if items.len() == 0 {
        Seq::empty()
    } else {
        prefixed_lines(prefix, items.drop_last()) + prefix + items.last() + "\n"@
    }
}

pub open spec fn validation_text(r: ValidationReport) -> Seq<char> {
    report_line("store valid"@, bool_text(r.ok)) + report_line("index kind"@, index_kind_name(r.index_kind))
        + report_line("checked hot cells"@, decimal(r.checked_hot_cells as nat)) + report_line(
        "checked sealed pages"@,
        decimal(r.checked_sealed_pages as nat),
    ) + report_line("checked sealed cells"@, decimal(r.checked_sealed_cells as nat)) + report_line(
        "errors"@,
        decimal(r.errors@.len()),
    ) + report_line("warnings"@, decimal(r.warnings@.len())) + prefixed_lines(
        "- error: "@,
        string_views(r.errors@),
    ) + prefixed_lines("- warning: "@, string_views(r.warnings@))
}

fn push_prefixed_lines(out: &mut String, prefix: &str, items: &Vec<String>)
    ensures
        final(out)@ == old(out)@ + prefixed_lines(prefix@, string_views(items@)),
{
    let mut i: usize = 0;
    proof {
        assert(string_views(items@.take(0)) =~= Seq::<Seq<char>>::empty());
    }
    while i < items.len()
        invariant
            i <= items@.len(),
            out@ == old(out)@ + prefixed_lines(prefix@, string_views(items@.take(i as int))),
        decreases items@.len() - i,
    {
        push_str(out, prefix);
        push_str(out, items[i].as_str());
        push_str(out, "\n");
        proof {
            reveal_strlit("\n");
            assert(string_views(items@.take(i + 1)).drop_last() =~= string_views(items@.take(i as int)));
            assert(string_views(items@.take(i + 1)).last() == items@[i as int]@);
            assert(out@ =~= old(out)@ + prefixed_lines(prefix@, string_views(items@.take(i + 1))));
        }
        i += 1;
    }
    proof {
        assert(items@.take(i as int) =~= items@);
    }
}

impl ValidationReport {
    /// A valid report with nothing checked yet.
    pub fn new(index_kind: IndexKind) -> (r: Self)
        ensures
            r.ok,
            r.index_kind == index_kind,
            r.checked_hot_cells == 0 && r.checked_sealed_pages == 0 && r.checked_sealed_cells == 0,
            r.errors@.len() == 0,
            r.warnings@.len() == 0,
    {
        ValidationReport {
            ok: true,
            index_kind,
            checked_hot_cells: 0,
            checked_sealed_pages: 0,
            checked_sealed_cells: 0,
            errors: Vec::new(),
            warnings: Vec::new(),
        }
    }

    /// Records an error: the store is then not valid.
    pub fn error(&mut self, message: String)
        ensures
            !final(self).ok,
            final(self).errors@ == old(self).errors@.push(message),
            final(self).warnings@ == old(self).warnings@,
            final(self).index_kind == old(self).index_kind,
            final(self).checked_hot_cells == old(self).checked_hot_cells,
            final(self).checked_sealed_pages == old(self).checked_sealed_pages,
            final(self).checked_sealed_cells == old(self).checked_sealed_cells,
    {
        self.ok = false;
        self.errors.push(message);
    }

    /// Records a warning; validity is unchanged.
    pub fn warning(&mut self, message: String)
        ensures
            final(self).ok == old(self).ok,
            final(self).warnings@ == old(self).warnings@.push(message),
            final(self).errors@ == old(self).errors@,
            final(self).index_kind == old(self).index_kind,
            final(self).checked_hot_cells == old(self).checked_hot_cells,
            final(self).checked_sealed_pages == old(self).checked_sealed_pages,
            final(self).checked_sealed_cells == old(self).checked_sealed_cells,
    {
        self.warnings.push(message);
    }

    /// Summary lines, then one line per error and per warning.
    pub fn to_human_text(&self) -> (s: String)
        ensures
            s@ == validation_text(*self),
    {
        let mut s = String::new();
        push_line_bool(&mut s, "store valid", self.ok);
        push_line_text(&mut s, "index kind", self.index_kind.as_str());
        push_line_decimal(&mut s, "checked hot cells", self.checked_hot_cells as u64);
        push_line_decimal(&mut s, "checked sealed pages", self.checked_sealed_pages as u64);
        push_line_decimal(&mut s, "checked sealed cells", self.checked_sealed_cells as u64);
        push_line_decimal(&mut s, "errors", self.errors.len() as u64);
        push_line_decimal(&mut s, "warnings", self.warnings.len() as u64);
        push_prefixed_lines(&mut s, "- error: ", &self.errors);
        push_prefixed_lines(&mut s, "- warning: ", &self.warnings);
        proof {
            assert(s@ =~= validation_text(*self));
        }
        s
    }
}

/// What rebuilding the catalog and indexes did.
#[derive(Clone, Debug, PartialEq, Eq)]
pub struct RebuildIndexesReport {
    pub index_kind: IndexKind,
    pub pages_scanned: usize,
    pub catalog_entries_written: usize,
    pub exact_index_written: bool,
    pub binary_fuse_index_written: bool,
    pub active_index_file: String,
    pub pages_unchanged: bool,
    pub hot_cells_unchanged: usize,
}

pub open spec fn rebuild_text(r: RebuildIndexesReport) -> Seq<char> {
    "rebuild indexes: ok\n"@ + report_line("index kind"@, index_kind_name(r.index_kind)) + report_line(
        "pages scanned"@,
        decimal(r.pages_scanned as nat),
    ) + report_line("catalog entries written"@, decimal(r.catalog_entries_written as nat))
        + report_line("exact index written"@, bool_text(r.exact_index_written)) + report_line(
        "binary fuse index written"@,
        bool_text(r.binary_fuse_index_written),
    ) + report_line("active index file"@, r.active_index_file@) + report_line(
        "pages unchanged"@,
        bool_text(r.pages_unchanged),
    ) + report_line("hot cells unchanged"@, decimal(r.hot_cells_unchanged as nat))
}

impl RebuildIndexesReport {
    pub fn to_human_text(&self) -> (s: String)
        ensures
            s@ == rebuild_text(*self),
    {
        let mut s = string_from("rebuild indexes: ok\n");
        push_line_text(&mut s, "index kind", self.index_kind.as_str());
        push_line_decimal(&mut s, "pages scanned", self.pages_scanned as u64);
        push_line_decimal(&mut s, "catalog entries written", self.catalog_entries_written as u64);
        push_line_bool(&mut s, "exact index written", self.exact_index_written);
        push_line_bool(&mut s, "binary fuse index written", self.binary_fuse_index_written);
        push_line_text(&mut s, "active index file", self.active_index_file.as_str());
        push_line_bool(&mut s, "pages unchanged", self.pages_unchanged);
        push_line_decimal(&mut s, "hot cells unchanged", self.hot_cells_unchanged as u64);
        proof {
            assert(s@ =~= rebuild_text(*self));
        }
        s
    }
}

// ---------------------------------------------------------------------------
// Pruning candidate pages by their catalog metadata
// ---------------------------------------------------------------------------

/// The id the dictionary gives a marker (in canonical form), if any.
pub open spec fn dict_lookup(d: DictionaryView, marker: Seq<char>) -> Option<MarkerId> {
    match canonical_marker(marker) {
        Some(c) => if d.forward.contains_key(c) {
            Some(d.forward[c])
        } else {
            None
        },
        None => None,
    }
}

/// The ids of the markers the dictionary holds, in order (absent ones are
/// skipped).
pub open spec fn known_ids(d: DictionaryView, markers: Seq<Seq<char>>) -> Seq<MarkerId>
    decreases markers.len(),
{
    if markers.len() == 0 {
        Seq::empty()
    } else {
        known_ids(d, markers.drop_last()) + match dict_lookup(d, markers.last()) {
            Some(id) => seq![id],
            None => Seq::empty(),
        }
    }
}

pub open spec fn status_markers(statuses: Seq<MemoryStatus>) -> Seq<Seq<char>> {
    Seq::new(statuses.len(), |i: int| "status:"@ + memory_status_name(statuses[i]))
}

pub open spec fn sensitivity_markers(levels: Seq<SensitivityLevel>) -> Seq<Seq<char>> {
    Seq::new(levels.len(), |i: int| "sensitivity:"@ + sensitivity_level_name(levels[i]))
}

pub open spec fn all_statuses() -> Seq<MemoryStatus> {
    seq![
        MemoryStatus::Active,
        MemoryStatus::Temporary,
        MemoryStatus::Deprecated,
        MemoryStatus::Rejected,
        MemoryStatus::Superseded,
        MemoryStatus::Unverified,
        MemoryStatus::Verified,
    ]
}

pub open spec fn all_sensitivities() -> Seq<SensitivityLevel> {
    seq![
        SensitivityLevel::Public,
        SensitivityLevel::Private,
        SensitivityLevel::Confidential,
        SensitivityLevel::SecretReference,
    ]
}

/// The sensitivities a recall may see: all but secret references, which
/// need `allow_secret_references`.
pub open spec fn allowed_sensitivities_spec(policy: RecallPolicy) -> Seq<SensitivityLevel> {
    seq![SensitivityLevel::Public, SensitivityLevel::Private, SensitivityLevel::Confidential] + if policy.allow_secret_references {
        seq![SensitivityLevel::SecretReference]
    } else {
        Seq::empty()
    }
}

/// The dictionary ids of the `status:<name>` markers of `statuses`.
pub fn status_marker_ids(dictionary: &MarkerDictionary, statuses: &[MemoryStatus]) -> (out: Vec<MarkerId>)
    requires
        dictionary.wf(),
    ensures
        out@ == known_ids(dictionary.view(), status_markers(statuses@)),
{
    let mut out: Vec<MarkerId> = Vec::new();
    let mut i: usize = 0;
    while i < statuses.len()
        invariant
            i <= statuses@.len(),
            dictionary.wf(),
            out@ == known_ids(dictionary.view(), status_markers(statuses@).take(i as int)),
        decreases statuses@.len() - i,
    {
        let mut m = string_from("status:");
        push_str(&mut m, statuses[i].as_str());
        let found = dictionary.lookup(m.as_str());
        proof {
            assert(status_markers(statuses@).take(i + 1).drop_last() =~= status_markers(statuses@).take(i as int));
            assert(status_markers(statuses@).take(i + 1).last() == m@);
        }
        match found {
            Some(id) => {
                out.push(id);
            },
            None => {},
        }
        proof {
            assert(out@ =~= known_ids(dictionary.view(), status_markers(statuses@).take(i + 1)));
        }
        i += 1;
    }
    proof {
        assert(status_markers(statuses@).take(i as int) =~= status_markers(statuses@));
    }
    out
}

/// The dictionary ids of the `sensitivity:<name>` markers of `levels`.
pub fn sensitivity_marker_ids(dictionary: &MarkerDictionary, levels: &[SensitivityLevel]) -> (out: Vec<MarkerId>)
    requires
        dictionary.wf(),
    ensures
        out@ == known_ids(dictionary.view(), sensitivity_markers(levels@)),
{
    let mut out: Vec<MarkerId> = Vec::new();
    let mut i: usize = 0;
    while i < levels.len()
        invariant
            i <= levels@.len(),
            dictionary.wf(),
            out@ == known_ids(dictionary.view(), sensitivity_markers(levels@).take(i as int)),
        decreases levels@.len() - i,
    {
        let mut m = string_from("sensitivity:");
        push_str(&mut m, levels[i].as_str());
        let found = dictionary.lookup(m.as_str());
        proof {
            assert(sensitivity_markers(levels@).take(i + 1).drop_last() =~= sensitivity_markers(levels@).take(i as int));
            assert(sensitivity_markers(levels@).take(i + 1).last() == m@);
        }
        match found {
            Some(id) => {
                out.push(id);
            },
            None => {},
        }
        proof {
            assert(out@ =~= known_ids(dictionary.view(), sensitivity_markers(levels@).take(i + 1)));
        }
        i += 1;
    }
    proof {
        assert(sensitivity_markers(levels@).take(i as int) =~= sensitivity_markers(levels@));
    }
    out
}

/// What a recall lets through, to prune candidate pages before reading them.
#[derive(Clone, Debug)]
pub struct PagePruneContext {
    pub query_marker_ids: Vec<MarkerId>,
    pub explicit_marker_ids: Vec<MarkerId>,
    pub required_page_marker_ids: Vec<MarkerId>,
    pub allowed_statuses: Vec<MemoryStatus>,
    pub all_status_marker_ids: Vec<MarkerId>,
    pub allowed_status_marker_ids: Vec<MarkerId>,
    pub allowed_sensitivities: Vec<SensitivityLevel>,
    pub all_sensitivity_marker_ids: Vec<MarkerId>,
    pub allowed_sensitivity_marker_ids: Vec<MarkerId>,
}

fn copy_marker_ids(v: &[MarkerId]) -> (out: Vec<MarkerId>)
    ensures
        out@ == v@,
{
    let mut out: Vec<MarkerId> = Vec::new();
    let mut i: usize = 0;
    while i < v.len()
        invariant
            i <= v@.len(),
            out@ == v@.take(i as int),
        decreases v@.len() - i,
    {
        out.push(v[i]);
        i += 1;
        proof {
            assert(out@ =~= v@.take(i as int));
        }
    }
    proof {
        assert(v@.take(i as int) =~= v@);
    }
    out
}

impl PagePruneContext {
    /// The prune context of a recall: its marker ids, the statuses and
    /// sensitivities its policy allows, and the dictionary ids of the
    /// status and sensitivity markers (all of them, and the allowed ones).
    pub fn new(
        dictionary: &MarkerDictionary,
        query_marker_ids: &[MarkerId],
        explicit_marker_ids: &[MarkerId],
        required_page_marker_ids: &[MarkerId],
        policy: &RecallPolicy,
    ) -> (c: Self)
        requires
            dictionary.wf(),
        ensures
            c.query_marker_ids@ == query_marker_ids@,
            c.explicit_marker_ids@ == explicit_marker_ids@,
            c.required_page_marker_ids@ == required_page_marker_ids@,
            c.allowed_statuses@ == allowed_statuses_spec(*policy),
            c.all_status_marker_ids@ == known_ids(dictionary.view(), status_markers(all_statuses())),
            c.allowed_status_marker_ids@ == known_ids(
                dictionary.view(),
                status_markers(allowed_statuses_spec(*policy)),
            ),
            c.allowed_sensitivities@ == allowed_sensitivities_spec(*policy),
            c.all_sensitivity_marker_ids@ == known_ids(dictionary.view(), sensitivity_markers(all_sensitivities())),
            c.allowed_sensitivity_marker_ids@ == known_ids(
                dictionary.view(),
                sensitivity_markers(allowed_sensitivities_spec(*policy)),
            ),
    {
        let all: [MemoryStatus; 7] = [
            MemoryStatus::Active,
            MemoryStatus::Temporary,
            MemoryStatus::Deprecated,
            MemoryStatus::Rejected,
            MemoryStatus::Superseded,
            MemoryStatus::Unverified,
            MemoryStatus::Verified,
        ];
        proof {
            assert(all@ =~= all_statuses());
        }
        let allowed = crate::hot::allowed_statuses_for_policy(policy);
        let all_levels: [SensitivityLevel; 4] = [
            SensitivityLevel::Public,
            SensitivityLevel::Private,
            SensitivityLevel::Confidential,
            SensitivityLevel::SecretReference,
        ];
        proof {
            assert(all_levels@ =~= all_sensitivities());
        }
        let mut allowed_levels: Vec<SensitivityLevel> = Vec::new();
        allowed_levels.push(SensitivityLevel::Public);
        allowed_levels.push(SensitivityLevel::Private);
        allowed_levels.push(SensitivityLevel::Confidential);
        if policy.allow_secret_references {
            allowed_levels.push(SensitivityLevel::SecretReference);
        }
        proof {
            assert(allowed_levels@ =~= allowed_sensitivities_spec(*policy));
        }
        let all_status_ids = status_marker_ids(dictionary, &all);
        let allowed_status_ids = status_marker_ids(dictionary, allowed.as_slice());
        let all_level_ids = sensitivity_marker_ids(dictionary, &all_levels);
        let allowed_level_ids = sensitivity_marker_ids(dictionary, allowed_levels.as_slice());
        PagePruneContext {
            query_marker_ids: copy_marker_ids(query_marker_ids),
            explicit_marker_ids: copy_marker_ids(explicit_marker_ids),
            required_page_marker_ids: copy_marker_ids(required_page_marker_ids),
            allowed_statuses: allowed,
            all_status_marker_ids: all_status_ids,
            allowed_status_marker_ids: allowed_status_ids,
            allowed_sensitivities: allowed_levels,
            all_sensitivity_marker_ids: all_level_ids,
            allowed_sensitivity_marker_ids: allowed_level_ids,
        }
    }
}

/// Whether some element of `a` occurs in `b`.
pub open spec fn meets<T>(a: Seq<T>, b: Seq<T>) -> bool {
    exists|i: int| 0 <= i < a.len() && b.contains(#[trigger] a[i])
}

/// A summary holds some known marker but no allowed one.
pub open spec fn known_without_allowed(summary: Seq<MarkerId>, known: Seq<MarkerId>, allowed: Seq<MarkerId>) -> bool {
    meets(summary, known) && !meets(summary, allowed)
}

/// Whether a candidate page can be skipped without reading it: it misses a
/// required marker; there are explicit markers and it holds none; by its
/// status summary (or, without one, its status markers) it holds no allowed
/// status; likewise for sensitivity; or there are query markers and it holds
/// none of them.
pub open spec fn prune_spec(e: PageCatalogEntry, c: PagePruneContext) -> bool {
    let summary = e.marker_summary@;
    ||| exists|i: int| 0 <= i < c.required_page_marker_ids@.len() && !summary.contains(#[trigger] c.required_page_marker_ids@[i])
    ||| c.explicit_marker_ids@.len() > 0 && !meets(summary, c.explicit_marker_ids@)
    ||| e.status_summary@.len() > 0 && !meets(e.status_summary@, c.allowed_statuses@)
    ||| e.status_summary@.len() == 0 && known_without_allowed(summary, c.all_status_marker_ids@, c.allowed_status_marker_ids@)
    ||| e.sensitivity_summary@.len() > 0 && !meets(e.sensitivity_summary@, c.allowed_sensitivities@)
    ||| e.sensitivity_summary@.len() == 0 && known_without_allowed(summary, c.all_sensitivity_marker_ids@, c.allowed_sensitivity_marker_ids@)
    ||| c.query_marker_ids@.len() > 0 && !meets(summary, c.query_marker_ids@)
}

fn contains_id(v: &Vec<MarkerId>, x: MarkerId) -> (b: bool)
    ensures
        b == v@.contains(x),
{
    let mut i: usize = 0;
    while i < v.len()
        invariant
            i <= v@.len(),
            forall|k: int| 0 <= k < i ==> v@[k] != x,
        decreases v@.len() - i,
    {
        if v[i] == x {
            return true;
        }
        i += 1;
    }
    false
}

fn meets_ids(a: &Vec<MarkerId>, b: &Vec<MarkerId>) -> (r: bool)
    ensures
        r == meets(a@, b@),
{
    let mut i: usize = 0;
    while i < a.len()
        invariant
            i <= a@.len(),
            forall|k: int| 0 <= k < i ==> !b@.contains(#[trigger] a@[k]),
        decreases a@.len() - i,
    {
        if contains_id(b, a[i]) {
            return true;
        }
        i += 1;
    }
    false
}

fn meets_statuses(a: &Vec<MemoryStatus>, b: &Vec<MemoryStatus>) -> (r: bool)
    ensures
        r == meets(a@, b@),
{
    let mut i: usize = 0;
    while i < a.len()
        invariant
            i <= a@.len(),
            forall|k: int| 0 <= k < i ==> !b@.contains(#[trigger] a@[k]),
        decreases a@.len() - i,
    {
        let mut j: usize = 0;
        let mut found = false;
        while j < b.len()
            invariant
                j <= b@.len(),
                i < a@.len(),
                found == exists|q: int| 0 <= q < j && b@[q] == a@[i as int],
            decreases b@.len() - j,
        {
            if b[j] == a[i] {
                found = true;
            }
            j += 1;
        }
        if found {
            return true;
        }
        i += 1;
    }
    false
}

fn meets_levels(a: &Vec<SensitivityLevel>, b: &Vec<SensitivityLevel>) -> (r: bool)
    ensures
        r == meets(a@, b@),
{
    let mut i: usize = 0;
    while i < a.len()
        invariant
            i <= a@.len(),
            forall|k: int| 0 <= k < i ==> !b@.contains(#[trigger] a@[k]),
        decreases a@.len() - i,
    {
        let mut j: usize = 0;
        let mut found = false;
        while j < b.len()
            invariant
                j <= b@.len(),
                i < a@.len(),
                found == exists|q: int| 0 <= q < j && b@[q] == a@[i as int],
            decreases b@.len() - j,
        {
            if b[j] == a[i] {
                found = true;
            }
            j += 1;
        }
        if found {
            return true;
        }
        i += 1;
    }
    false
}

/// Whether a summary holds some known marker but no allowed one.
pub fn summary_has_known_without_allowed(summary: &Vec<MarkerId>, known: &Vec<MarkerId>, allowed: &Vec<MarkerId>) -> (b: bool)
    ensures
        b == known_without_allowed(summary@, known@, allowed@),
{
    meets_ids(summary, known) && !meets_ids(summary, allowed)
}

/// See `prune_spec`.
pub fn should_prune_candidate_page(entry: &PageCatalogEntry, context: &PagePruneContext) -> (b: bool)
    ensures
        b == prune_spec(*entry, *context),
{
    let summary = &entry.marker_summary;
    let mut i: usize = 0;
    while i < context.required_page_marker_ids.len()
        invariant
            i <= context.required_page_marker_ids@.len(),
            summary@ == entry.marker_summary@,
            forall|k: int| 0 <= k < i ==> summary@.contains(#[trigger] context.required_page_marker_ids@[k]),
        decreases context.required_page_marker_ids@.len() - i,
    {
        if !contains_id(summary, context.required_page_marker_ids[i]) {
            proof {
                let r = context.required_page_marker_ids@[i as int];
                assert(!entry.marker_summary@.contains(r));
            }
            return true;
        }
        i += 1;
    }
    if context.explicit_marker_ids.len() > 0 && !meets_ids(summary, &context.explicit_marker_ids) {
        return true;
    }
    if entry.status_summary.len() > 0 && !meets_statuses(&entry.status_summary, &context.allowed_statuses) {
        return true;
    }
    if entry.status_summary.len() == 0 && summary_has_known_without_allowed(
        summary,
        &context.all_status_marker_ids,
        &context.allowed_status_marker_ids,
    ) {
        return true;
    }
    if entry.sensitivity_summary.len() > 0 && !meets_levels(&entry.sensitivity_summary, &context.allowed_sensitivities) {
        return true;
    }
    if entry.sensitivity_summary.len() == 0 && summary_has_known_without_allowed(
        summary,
        &context.all_sensitivity_marker_ids,
        &context.allowed_sensitivity_marker_ids,
    ) {
        return true;
    }
    context.query_marker_ids.len() > 0 && !meets_ids(summary, &context.query_marker_ids)
}

// ---------------------------------------------------------------------------
// Planning a recall
// ---------------------------------------------------------------------------

/// The markers and ids a recall works with.
#[derive(Debug)]
pub struct RecallPlan {
    /// Every query marker (tags of the query's keywords, explicit markers, the
    /// scope and kind markers), ordered, without repetition.
    pub query_marker_strings: Vec<String>,
    pub query_marker_ids: Vec<MarkerId>,
    pub required_page_marker_ids: Vec<MarkerId>,
    pub explicit_marker_ids: Vec<MarkerId>,
    pub scope_marker_id: Option<MarkerId>,
    pub query_tokens: Vec<String>,
    /// How marker candidates combine: by intersection first when focused,
    /// by union otherwise.
    pub marker_mode: QueryMode,
}

pub open spec fn tag_markers(query: Seq<char>) -> Seq<Seq<char>> {
    Seq::new(keywords(query).len(), |k: int| "tag:"@ + keywords(query)[k])
}

pub open spec fn scope_marker_raw(scope: Seq<char>) -> Seq<char> {
    "scope:"@ + scope
}

pub open spec fn kind_marker_raw(kind: MemoryKind) -> Seq<char> {
    "kind:"@ + memory_kind_name(kind)
}

/// The index of the first explicit marker that is not a valid marker.
pub open spec fn first_invalid(markers: Seq<String>, i: int) -> bool {
    0 <= i < markers.len() && canonical_marker(markers[i]@) is None && forall|j: int|
        0 <= j < i ==> canonical_marker(#[trigger] markers[j]@) is Some
}

pub open spec fn canonical_list(markers: Seq<String>) -> Seq<Seq<char>> {
    Seq::new(markers.len(), |i: int| canonical_marker(markers[i]@)->Some_0)
}

/// The canonical scope and kind markers a page must hold.
pub open spec fn required_markers(r: RecallRequest) -> Seq<Seq<char>> {
    (match r.scope {
        Some(s) => seq![canonical_marker(scope_marker_raw(s@))->Some_0],
        None => Seq::empty(),
    }) + (match r.kind {
        Some(k) => seq![canonical_marker(kind_marker_raw(k))->Some_0],
        None => Seq::empty(),
    })
}

pub open spec fn plan_mode(mode: RecallMode) -> QueryMode {
    match mode {
        RecallMode::Focused => QueryMode::PreferIntersection,
        _ => QueryMode::Union,
    }
}

/// Works out the markers of a recall. A full-scope recall needs a scope; an
/// explicit marker, or the scope marker, that is not a valid marker is an
/// `InvalidMarker` error quoting it.
pub fn plan_recall(request: &RecallRequest, dictionary: &MarkerDictionary) -> (r: Result<RecallPlan, MgeError>)
    requires
        dictionary.wf(),
    ensures
        request.mode == RecallMode::FullScope && request.scope is None ==> (r matches Err(MgeError::InvalidInput(m))
            && m@ == "full-scope recall requires an explicit scope (--scope <scope>)"@),
        !(request.mode == RecallMode::FullScope && request.scope is None) ==> forall|i: int|
            #[trigger] first_invalid(request.markers@, i) ==> (r matches Err(MgeError::InvalidMarker(m)) && m@
                == request.markers@[i]@),
        !(request.mode == RecallMode::FullScope && request.scope is None) && (forall|i: int|
            0 <= i < request.markers@.len() ==> canonical_marker(#[trigger] request.markers@[i]@) is Some)
            && (request.scope matches Some(s) && canonical_marker(scope_marker_raw(s@)) is None) ==> (r matches Err(
            MgeError::InvalidMarker(m),
        ) && m@ == scope_marker_raw(request.scope->Some_0@)),
        r matches Ok(plan) ==> {
            &&& forall|i: int| 0 <= i < request.markers@.len() ==> canonical_marker(#[trigger] request.markers@[i]@) is Some
            &&& (request.scope matches Some(s) ==> canonical_marker(scope_marker_raw(s@)) is Some)
            &&& (request.kind matches Some(k) ==> canonical_marker(kind_marker_raw(k)) is Some)
            &&& strictly_sorted(views_of(plan.query_marker_strings@))
            &&& views_of(plan.query_marker_strings@).to_set() == (tag_markers(request.query@) + canonical_list(
                request.markers@,
            ) + required_markers(*request)).to_set()
            &&& plan.query_marker_ids@ == known_ids(dictionary.view(), views_of(plan.query_marker_strings@))
            &&& plan.required_page_marker_ids@ == known_ids(dictionary.view(), required_markers(*request))
            &&& plan.explicit_marker_ids@ == known_ids(dictionary.view(), canonical_list(request.markers@))
            &&& plan.scope_marker_id == match request.scope {
                Some(s) => dict_lookup(dictionary.view(), canonical_marker(scope_marker_raw(s@))->Some_0),
                None => None,
            }
            &&& views_of(plan.query_tokens@) == keywords(request.query@)
            &&& plan.marker_mode == plan_mode(request.mode)
        },
        !(request.mode == RecallMode::FullScope && request.scope is None) && (forall|i: int|
            0 <= i < request.markers@.len() ==> canonical_marker(#[trigger] request.markers@[i]@) is Some) && (
        request.scope matches Some(s) ==> canonical_marker(scope_marker_raw(s@)) is Some) && (request.kind matches Some(
            k,
        ) ==> canonical_marker(kind_marker_raw(k)) is Some) ==> r is Ok,
{
    if request.mode == RecallMode::FullScope && request.scope.is_none() {
        return Err(MgeError::InvalidInput(string_from("full-scope recall requires an explicit scope (--scope <scope>)")));
    }
    let mut marker_strings = extract_query_marker_strings(request.query.as_str());
    proof {
        assert(views_of(marker_strings@) =~= tag_markers(request.query@));
    }
    let mut explicit_strings: Vec<String> = Vec::new();
    let mut i: usize = 0;
    while i < request.markers.len()
        invariant
            i <= request.markers@.len(),
            !(request.mode == RecallMode::FullScope && request.scope is None),
            forall|j: int| 0 <= j < i ==> canonical_marker(#[trigger] request.markers@[j]@) is Some,
            views_of(explicit_strings@) == canonical_list(request.markers@).take(i as int),
            views_of(marker_strings@) == tag_markers(request.query@) + canonical_list(request.markers@).take(i as int),
        decreases request.markers@.len() - i,
    {
        match canonicalize_marker(request.markers[i].as_str()) {
            Ok(m) => {
                let m2 = string_from(m.as_str());
                proof {
                    assert(m@ == canonical_list(request.markers@)[i as int]);
                    assert(canonical_list(request.markers@).take(i + 1) =~= canonical_list(request.markers@).take(
                        i as int,
                    ).push(m@));
                }
                let ghost old_markers = views_of(marker_strings@);
                explicit_strings.push(m);
                marker_strings.push(m2);
                proof {
                    assert(views_of(marker_strings@) =~= old_markers.push(m2@));
                    assert(views_of(explicit_strings@) =~= canonical_list(request.markers@).take(i + 1));
                    assert(views_of(marker_strings@) =~= tag_markers(request.query@) + canonical_list(
                        request.markers@,
                    ).take(i + 1));
                }
            },
            Err(e) => {
                proof {
                    assert(first_invalid(request.markers@, i as int));
                    assert forall|q: int| #[trigger] first_invalid(request.markers@, q) implies q == i by {
                        if q > i {
                            assert(canonical_marker(request.markers@[i as int]@) is Some);
                        }
                    }
                }
                return Err(e);
            },
        }
        i += 1;
    }
    proof {
        assert(canonical_list(request.markers@).take(i as int) =~= canonical_list(request.markers@));
        assert forall|q: int| !#[trigger] first_invalid(request.markers@, q) by {}
    }
    let mut required_strings: Vec<String> = Vec::new();
    let mut scope_string: Option<String> = None;
    match &request.scope {
        Some(scope) => {
            let mut raw = string_from("scope:");
            push_str(&mut raw, scope.as_str());
            match canonicalize_marker(raw.as_str()) {
                Ok(m) => {
                    scope_string = Some(string_from(m.as_str()));
                    required_strings.push(string_from(m.as_str()));
                    marker_strings.push(m);
                },
                Err(e) => {
                    return Err(e);
                },
            }
        },
        None => {},
    }
    match request.kind {
        Some(kind) => {
            let mut raw = string_from("kind:");
            push_str(&mut raw, kind.as_str());
            match canonicalize_marker(raw.as_str()) {
                Ok(m) => {
                    required_strings.push(string_from(m.as_str()));
                    marker_strings.push(m);
                },
                Err(e) => {
                    return Err(e);
                },
            }
        },
        None => {},
    }
    proof {
        assert(views_of(required_strings@) =~= required_markers(*request));
        assert(views_of(marker_strings@) =~= tag_markers(request.query@) + canonical_list(request.markers@)
            + required_markers(*request));
    }
    let sorted = sort_dedup_strings(&marker_strings);
    let query_marker_ids = lookup_all(dictionary, &sorted);
    let required_page_marker_ids = lookup_all(dictionary, &required_strings);
    let explicit_marker_ids = lookup_all(dictionary, &explicit_strings);
    let scope_marker_id = match &scope_string {
        Some(m) => dictionary.lookup(m.as_str()),
        None => None,
    };
    let query_tokens = tokenize_keywords(request.query.as_str());
    proof {
        assert(views_of(query_tokens@) =~= crate::markers::string_views(query_tokens@));
    }
    let marker_mode = match request.mode {
        RecallMode::Focused => QueryMode::PreferIntersection,
        _ => QueryMode::Union,
    };
    Ok(RecallPlan {
        query_marker_strings: sorted,
        query_marker_ids,
        required_page_marker_ids,
        explicit_marker_ids,
        scope_marker_id,
        query_tokens,
        marker_mode,
    })
}

/// The dictionary ids of the markers it holds, in order.
pub fn lookup_all(dictionary: &MarkerDictionary, markers: &Vec<String>) -> (out: Vec<MarkerId>)
    requires
        dictionary.wf(),
    ensures
        out@ == known_ids(dictionary.view(), views_of(markers@)),
{
    let mut out: Vec<MarkerId> = Vec::new();
    let mut i: usize = 0;
    while i < markers.len()
        invariant
            i <= markers@.len(),
            dictionary.wf(),
            out@ == known_ids(dictionary.view(), views_of(markers@).take(i as int)),
        decreases markers@.len() - i,
    {
        let found = dictionary.lookup(markers[i].as_str());
        proof {
            assert(views_of(markers@).take(i + 1).drop_last() =~= views_of(markers@).take(i as int));
            assert(views_of(markers@).take(i + 1).last() == markers@[i as int]@);
        }
        match found {
            Some(id) => {
                out.push(id);
            },
            None => {},
        }
        proof {
            assert(out@ =~= known_ids(dictionary.view(), views_of(markers@).take(i + 1)));
        }
        i += 1;
    }
    proof {
        assert(views_of(markers@).take(i as int) =~= views_of(markers@));
    }
    out
}

// ---------------------------------------------------------------------------
// Ranking
// ---------------------------------------------------------------------------

/// Where a ranked cell lives: in the hot layer, or at an index of a page.
#[derive(Clone, Copy, Debug, PartialEq, Eq, Structural)]
pub enum RankedCellSource {
    Hot(CellId),
    Sealed { page_id: PageId, cell_index: usize },
}

/// A scored cell, by reference to where it lives.
#[derive(Clone, Copy, Debug)]
pub struct RankedCellHandle {
    pub source: RankedCellSource,
    pub cell_id: CellId,
    pub updated_at: i64,
    pub score: i64,
    pub score_detail: ContextScoreDebugItem,
}

/// `a` ranks strictly before `b`: higher score, then more recently updated,
/// then smaller cell id.
pub open spec fn ranks_before(a: RankedCellHandle, b: RankedCellHandle) -> bool {
    a.score > b.score || (a.score == b.score && a.updated_at > b.updated_at) || (a.score == b.score
        && a.updated_at == b.updated_at && a.cell_id < b.cell_id)
}

/// Where a handle goes in a ranked sequence: before the first handle it
/// ranks before (after every handle of equal rank, which keeps the sort
/// stable).
pub open spec fn rank_pos(s: Seq<RankedCellHandle>, h: RankedCellHandle, i: int) -> int
    decreases s.len() - i,
{
    if i >= s.len() || i < 0 {
        s.len() as int
    } else if ranks_before(h, s[i]) {
        i
    } else {
        rank_pos(s, h, i + 1)
    }
}

/// Stable sort by rank, inserting each handle in input order.
pub open spec fn rank_sort(s: Seq<RankedCellHandle>) -> Seq<RankedCellHandle>
    decreases s.len(),
{
    if s.len() == 0 {
        Seq::empty()
    } else {
        let r = rank_sort(s.drop_last());
        r.insert(rank_pos(r, s.last(), 0), s.last())
    }
}

/// No handle ranks before an earlier one.
pub open spec fn rank_ordered(s: Seq<RankedCellHandle>) -> bool {
    forall|i: int, j: int| 0 <= i < j < s.len() ==> !ranks_before(#[trigger] s[j], #[trigger] s[i])
}

proof fn lemma_rank_pos(s: Seq<RankedCellHandle>, h: RankedCellHandle, i: int)
    requires
        0 <= i <= s.len(),
        rank_ordered(s),
        forall|k: int| 0 <= k < i ==> !ranks_before(h, #[trigger] s[k]),
    ensures
        i <= rank_pos(s, h, i) <= s.len(),
        forall|k: int| 0 <= k < rank_pos(s, h, i) ==> !ranks_before(h, #[trigger] s[k]),
        forall|k: int| rank_pos(s, h, i) <= k < s.len() ==> !ranks_before(#[trigger] s[k], h),
    decreases s.len() - i,
{
    if i < s.len() {
        if ranks_before(h, s[i]) {
            assert forall|k: int| i <= k < s.len() implies !ranks_before(#[trigger] s[k], h) by {
                if k > i {
                    assert(!ranks_before(s[k], s[i]));
                }
            }
        } else {
            lemma_rank_pos(s, h, i + 1);
        }
    }
}

/// Ranking orders the handles (a handle never ranks before an earlier one)
/// and keeps every handle.
pub proof fn law_rank_sort(s: Seq<RankedCellHandle>)
    ensures
        rank_ordered(rank_sort(s)),
        rank_sort(s).to_multiset() == s.to_multiset(),
    decreases s.len(),
{
    if s.len() > 0 {
        let d = s.drop_last();
        let h = s.last();
        law_rank_sort(d);
        let r = rank_sort(d);
        lemma_rank_pos(r, h, 0);
        let p = rank_pos(r, h, 0);
        let t = r.insert(p, h);
        assert forall|i: int, j: int| 0 <= i < j < t.len() implies !ranks_before(#[trigger] t[j], #[trigger] t[i]) by {
            if j < p {
            } else if i < p && j == p {
            } else if i < p && j > p {
                assert(t[j] == r[j - 1]);
                assert(!ranks_before(h, r[i]));
                assert(!ranks_before(r[j - 1], h));
            } else if i == p {
                assert(t[j] == r[j - 1]);
            } else {
                assert(t[i] == r[i - 1]);
                assert(t[j] == r[j - 1]);
            }
        }
        vstd::seq_lib::to_multiset_insert(r, p, h);
        assert(s =~= d.push(h));
        vstd::seq_lib::to_multiset_insert(d, d.len() as int, h);
        assert(d.insert(d.len() as int, h) =~= s);
        assert(rank_sort(s) == t);
    } else {
        assert(s =~= Seq::<RankedCellHandle>::empty());
    }
}

fn ranks_before_exec(a: &RankedCellHandle, b: &RankedCellHandle) -> (r: bool)
    ensures
        r == ranks_before(*a, *b),
{
    a.score > b.score || (a.score == b.score && a.updated_at > b.updated_at) || (a.score == b.score
        && a.updated_at == b.updated_at && a.cell_id < b.cell_id)
}

/// Sorts ranked cells: higher score first, then more recently updated, then
/// smaller id; handles of equal rank keep their order.
pub fn sort_ranked(ranked: Vec<RankedCellHandle>) -> (out: Vec<RankedCellHandle>)
    ensures
        out@ == rank_sort(ranked@),
        rank_ordered(out@),
        out@.to_multiset() == ranked@.to_multiset(),
{
    let ghost all = ranked@;
    let mut sorted: Vec<RankedCellHandle> = Vec::new();
    let mut i: usize = 0;
    proof {
        assert(all.take(0) =~= Seq::<RankedCellHandle>::empty());
    }
    while i < ranked.len()
        invariant
            i <= ranked@.len(),
            all == ranked@,
            sorted@ == rank_sort(all.take(i as int)),
        decreases ranked@.len() - i,
    {
        let h = ranked[i];
        let mut j: usize = 0;
        proof {
            lemma_rank_sort_len(all.take(i as int));
        }
        while j < sorted.len() && !ranks_before_exec(&h, &sorted[j])
            invariant
                j <= sorted@.len(),
                rank_pos(sorted@, h, 0) == rank_pos(sorted@, h, j as int),
            decreases sorted@.len() - j,
        {
            j += 1;
        }
        proof {
            assert(rank_pos(sorted@, h, j as int) == j);
            assert(all.take(i + 1).drop_last() =~= all.take(i as int));
            assert(all.take(i + 1).last() == h);
        }
        sorted.insert(j, h);
        i += 1;
    }
    proof {
        assert(all.take(i as int) =~= all);
        law_rank_sort(all);
    }
    sorted
}

proof fn lemma_rank_sort_len(s: Seq<RankedCellHandle>)
    ensures
        rank_sort(s).len() == s.len(),
    decreases s.len(),
{
    if s.len() > 0 {
        lemma_rank_sort_len(s.drop_last());
        lemma_rank_pos_bounds(rank_sort(s.drop_last()), s.last(), 0);
    }
}

proof fn lemma_rank_pos_bounds(s: Seq<RankedCellHandle>, h: RankedCellHandle, i: int)
    requires
        0 <= i <= s.len(),
    ensures
        i <= rank_pos(s, h, i) <= s.len(),
    decreases s.len() - i,
{
    if i < s.len() && !ranks_before(h, s[i]) {
        lemma_rank_pos_bounds(s, h, i + 1);
    }
}


// ---------------------------------------------------------------------------
// Remembering a fact
// ---------------------------------------------------------------------------

/// How entering markers into the dictionary went: the markers with their
/// ids, or the marker that did not canonicalize, or the id space running out.
pub enum EnterOutcome {
    Entered(Seq<(Seq<char>, MarkerId)>),
    BadMarker(Seq<char>),
    Overflow,
}

/// The dictionary after entering the first `n` markers (each canonicalized
/// again, as the dictionary does), and how it went; the markers entered
/// before a failure stay entered.
pub open spec fn enter_markers(d: DictionaryView, ms: Seq<Seq<char>>, n: int) -> (DictionaryView, EnterOutcome)
    decreases n,
{
    if n <= 0 {
        (d, EnterOutcome::Entered(Seq::empty()))
    } else {
        let (d1, r) = enter_markers(d, ms, n - 1);
        match r {
            EnterOutcome::Entered(pairs) => match canonical_marker(ms[n - 1]) {
                None => (d1, EnterOutcome::BadMarker(ms[n - 1])),
                Some(c) => match crate::marker_dictionary::dictionary_insert(d1, c) {
                    (d2, Some(id)) => (d2, EnterOutcome::Entered(pairs.push((ms[n - 1], id)))),
                    (d2, None) => (d2, EnterOutcome::Overflow),
                },
            },
            _ => (d1, r),
        }
    }
}

pub open spec fn request_marker_raws(r: RememberRequest) -> Seq<Seq<char>> {
    crate::markers::cell_field_raws(
        r.kind,
        crate::eval::opt_text(r.subject),
        r.value,
        r.scope@,
        r.status,
        r.trust,
        r.sensitivity,
        views_of(r.markers@),
    )
}

proof fn lemma_enter_failure_stays(d: DictionaryView, ms: Seq<Seq<char>>, m: int, n: int)
    requires
        0 <= m <= n,
        !(enter_markers(d, ms, m).1 is Entered),
    ensures
        enter_markers(d, ms, n) == enter_markers(d, ms, m),
    decreases n - m,
{
    if m < n {
        lemma_enter_failure_stays(d, ms, m, n - 1);
    }
}

proof fn lemma_canonical_set_all_valid(raws: Seq<Seq<char>>, n: int)
    requires
        0 <= n <= raws.len(),
        crate::markers::canonical_set_of(raws, n) is Ok,
    ensures
        forall|k: int| 0 <= k < n ==> canonical_marker(#[trigger] raws[k]) is Some,
    decreases n,
{
    if n > 0 {
        lemma_canonical_set_all_valid(raws, n - 1);
    }
}

/// The canonical forms of the explicit markers.
fn canonical_explicit(markers: &Vec<String>) -> (r: Result<Vec<String>, MgeError>)
    ensures
        match r {
            Ok(v) => views_of(v@) == canonical_list(markers@),
            Err(e) => exists|k: int| 0 <= k < markers@.len() && #[trigger] canonical_marker(markers@[k]@) is None,
        },
{
    let mut out: Vec<String> = Vec::new();
    let mut i: usize = 0;
    while i < markers.len()
        invariant
            i <= markers@.len(),
            out@.len() == i,
            forall|k: int| 0 <= k < i ==> canonical_marker(markers@[k]@) == Some(#[trigger] out@[k]@),
        decreases markers@.len() - i,
    {
        match canonicalize_marker(markers[i].as_str()) {
            Ok(c) => out.push(c),
            Err(e) => {
                return Err(e);
            },
        }
        i += 1;
    }
    proof {
        assert(views_of(out@) =~= canonical_list(markers@));
    }
    Ok(out)
}

/// Derives a remembered fact's cell: its markers (see
/// `marker_strings_for_cell_fields`) are entered into the dictionary, split
/// into system and custom (explicit) markers, and the cell takes the next
/// cell id. Fails with `InvalidMarker` for a marker that does not
/// canonicalize, and with `InvalidInput` when marker or cell ids run out.
pub fn remember_cell(
    request: RememberRequest,
    dictionary: &mut MarkerDictionary,
    next_cell_id: &mut CellId,
) -> (r: Result<crate::models::MemoryCell, MgeError>)
    requires
        old(dictionary).wf(),
    ensures
        final(dictionary).wf(),
        ({
            let raws = request_marker_raws(request);
            match crate::markers::canonical_set_of(raws, raws.len() as int) {
                Err(e) => final(dictionary).view() == old(dictionary).view() && *final(next_cell_id)
                    == *old(next_cell_id) && (r matches Err(MgeError::InvalidMarker(m)) && m@ == e),
                Ok(ms) => {
                    let (d, entered) = enter_markers(old(dictionary).view(), ms, ms.len() as int);
                    &&& final(dictionary).view() == d
                    &&& match entered {
                        EnterOutcome::BadMarker(b) => *final(next_cell_id) == *old(next_cell_id) && (
                        r matches Err(MgeError::InvalidMarker(m)) && m@ == b),
                        EnterOutcome::Overflow => *final(next_cell_id) == *old(next_cell_id) && (
                        r matches Err(MgeError::InvalidInput(m)) && m@ == "marker id overflow"@),
                        EnterOutcome::Entered(pairs) => if *old(next_cell_id) == u64::MAX {
                            *final(next_cell_id) == *old(next_cell_id) && (r matches Err(
                                MgeError::InvalidInput(m),
                            ) && m@ == "cell id overflow"@)
                        } else {
                            *final(next_cell_id) == *old(next_cell_id) + 1 && (r matches Ok(c) && {
                                let ex = canonical_list(request.markers@);
                                &&& c.id == *old(next_cell_id)
                                &&& c.kind == request.kind && c.subject == request.subject
                                &&& c.value == request.value && c.scope == request.scope
                                &&& c.status == request.status && c.trust == request.trust
                                &&& c.sensitivity == request.sensitivity
                                &&& c.source == request.source && c.links == request.links
                                &&& c.created_at == c.updated_at
                                &&& c.marker_genome.system_seq() == crate::models::system_ids(pairs, ex)
                                &&& c.marker_genome.custom_seq() == crate::models::custom_ids(pairs, ex)
                                &&& c.marker_genome.scope_spec() == crate::models::category_id(pairs, ex, "scope:"@)
                                &&& c.marker_genome.kind_spec() == crate::models::category_id(pairs, ex, "kind:"@)
                                &&& c.marker_genome.status_spec() == crate::models::category_id(pairs, ex, "status:"@)
                                &&& c.marker_genome.trust_spec() == crate::models::category_id(pairs, ex, "trust:"@)
                                &&& c.marker_genome.sensitivity_spec() == crate::models::category_id(
                                    pairs,
                                    ex,
                                    "sensitivity:"@,
                                )
                                &&& crate::idset::strictly_increasing32(c.markers@)
                                &&& c.markers@.to_set() == (crate::models::system_ids(pairs, ex)
                                    + crate::models::custom_ids(pairs, ex)).to_set()
                            })
                        },
                    }
                },
            }
        }),
{
    let ghost raws = request_marker_raws(request);
    let subject: Option<&str> = match &request.subject {
        Some(s) => Some(s.as_str()),
        None => None,
    };
    proof {
        assert(crate::markers::opt_str_view(subject) == crate::eval::opt_text(request.subject));
    }
    let markers = match crate::markers::marker_strings_for_cell_fields(
        &request.kind,
        subject,
        &request.value,
        request.scope.as_str(),
        &request.status,
        &request.trust,
        &request.sensitivity,
        request.markers.as_slice(),
    ) {
        Ok(m) => m,
        Err(e) => {
            return Err(e);
        },
    };
    let explicit = match canonical_explicit(&request.markers) {
        Ok(v) => v,
        Err(e) => {
            proof {
                lemma_canonical_set_all_valid(raws, raws.len() as int);
                let k = choose|k: int| 0 <= k < request.markers@.len() && #[trigger] canonical_marker(
                    request.markers@[k]@,
                ) is None;
                let e0 = raws.len() - request.markers@.len();
                assert(raws[e0 + k] == request.markers@[k]@);
            }
            return Err(e);
        },
    };
    let ghost ms = views_of(markers@);
    let ghost d0 = dictionary.view();
    let mut pairs: Vec<(String, MarkerId)> = Vec::new();
    let mut i: usize = 0;
    proof {
        assert(crate::models::marker_pair_views(pairs@) =~= Seq::<(Seq<char>, MarkerId)>::empty());
    }
    while i < markers.len()
        invariant
            i <= markers@.len(),
            ms == views_of(markers@),
            dictionary.wf(),
            raws == request_marker_raws(request),
            crate::markers::canonical_set_of(raws, raws.len() as int) == Ok::<Seq<Seq<char>>, Seq<char>>(ms),
            d0 == old(dictionary).view(),
            *next_cell_id == *old(next_cell_id),
            enter_markers(d0, ms, i as int) == (dictionary.view(), EnterOutcome::Entered(
                crate::models::marker_pair_views(pairs@),
            )),
        decreases markers@.len() - i,
    {
        proof {
            assert(ms[i as int] == markers@[i as int]@);
        }
        match dictionary.get_or_insert(markers[i].as_str()) {
            Ok(id) => {
                let ghost before = pairs@;
                pairs.push((string_from(markers[i].as_str()), id));
                proof {
                    assert(crate::models::marker_pair_views(pairs@) =~= crate::models::marker_pair_views(
                        before,
                    ).push((ms[i as int], id)));
                }
            },
            Err(e) => {
                proof {
                    lemma_enter_failure_stays(d0, ms, i + 1, ms.len() as int);
                }
                return Err(e);
            },
        }
        i += 1;
    }
    if *next_cell_id == u64::MAX {
        return Err(MgeError::InvalidInput(string_from("cell id overflow")));
    }
    let cell_id = *next_cell_id;
    *next_cell_id = cell_id + 1;
    let genome = crate::models::MarkerGenome::from_canonical_markers(pairs, &explicit);
    proof {
        assert(crate::models::explicit_views(explicit@) =~= views_of(explicit@));
    }
    let cell = crate::models::MemoryCell::new_with_marker_genome(
        cell_id,
        request.kind,
        request.subject,
        request.value,
        request.scope,
        request.status,
        request.trust,
        request.sensitivity,
        genome,
        request.source,
        request.links,
    );
    Ok(cell)
}

// ---------------------------------------------------------------------------
// Rebuilding the catalog
// ---------------------------------------------------------------------------

/// The smallest page id that occurs twice among the first `n` ids, if any.
pub open spec fn min_duplicate(ids: Seq<PageId>, n: int) -> Option<PageId>
    decreases n,
{
    if n <= 0 || n > ids.len() {
        None
    } else {
        let before = min_duplicate(ids, n - 1);
        if ids.take(n - 1).contains(ids[n - 1]) {
            match before {
                None => Some(ids[n - 1]),
                Some(d) => if ids[n - 1] < d {
                    Some(ids[n - 1])
                } else {
                    Some(d)
                },
            }
        } else {
            before
        }
    }
}

/// The order in which pages read back from their files enter a rebuilt
/// catalog: by page id. A page id that occurs twice is refused, naming the
/// smallest such id.
pub fn rebuild_order(ids: &Vec<PageId>) -> (r: Result<Vec<usize>, MgeError>)
    ensures
        match min_duplicate(ids@, ids@.len() as int) {
            Some(d) => r matches Err(MgeError::InvalidInput(m)) && m@ == "duplicate sealed page id "@ + decimal(
                d as nat,
            ) + " while rebuilding catalog/indexes"@,
            None => r matches Ok(order) && order@.len() == ids@.len() && (forall|k: int|
                0 <= k < order@.len() ==> #[trigger] order@[k] < ids@.len()) && (forall|a: int, b: int|
                0 <= a < b < order@.len() ==> ids@[#[trigger] order@[a] as int] < ids@[#[trigger] order@[b] as int]),
        },
{
    let mut order: Vec<usize> = Vec::new();
    let mut duplicate: Option<PageId> = None;
    let mut i: usize = 0;
    proof {
        assert(ids@.take(0).to_set() =~= Set::<PageId>::empty());
    }
    while i < ids.len()
        invariant
            i <= ids@.len(),
            duplicate == min_duplicate(ids@, i as int),
            forall|k: int| 0 <= k < order@.len() ==> #[trigger] order@[k] < i,
            forall|a: int, b: int|
                0 <= a < b < order@.len() ==> ids@[#[trigger] order@[a] as int] < ids@[#[trigger] order@[b] as int],
            forall|v: PageId| ids@.take(i as int).contains(v) <==> exists|k: int|
                0 <= k < order@.len() && ids@[#[trigger] order@[k] as int] == v,
            duplicate is None ==> order@.len() == i,
        decreases ids@.len() - i,
    {
        let id = ids[i];
        let mut p: usize = 0;
        while p < order.len() && ids[order[p]] < id
            invariant
                p <= order@.len(),
                forall|k: int| 0 <= k < order@.len() ==> #[trigger] order@[k] < i,
                i < ids@.len(),
                forall|k: int| 0 <= k < p ==> ids@[#[trigger] order@[k] as int] < id,
            decreases order@.len() - p,
        {
            p += 1;
        }
        let ghost t = ids@.take(i as int);
        let ghost next = ids@.take(i + 1);
        proof {
            assert(next =~= t.push(id));
        }
        if p < order.len() && ids[order[p]] == id {
            proof {
                assert(t.contains(id));
            }
            duplicate = match duplicate {
                None => Some(id),
                Some(d) => if id < d {
                    Some(id)
                } else {
                    Some(d)
                },
            };
            proof {
                assert forall|v: PageId| next.contains(v) <==> exists|k: int|
                    0 <= k < order@.len() && ids@[#[trigger] order@[k] as int] == v by {
                    if next.contains(v) {
                        let j = choose|j: int| 0 <= j < i + 1 && #[trigger] next[j] == v;
                        if j < i {
                            assert(t[j] == v);
                            assert(t.contains(v));
                        } else {
                            assert(ids@[order@[p as int] as int] == v);
                        }
                    }
                    if exists|k: int| 0 <= k < order@.len() && ids@[#[trigger] order@[k] as int] == v {
                        assert(t.contains(v));
                        let j = choose|j: int| 0 <= j < t.len() && #[trigger] t[j] == v;
                        assert(next[j] == v);
                    }
                }
            }
        } else {
            proof {
                if t.contains(id) {
                    let k = choose|k: int| 0 <= k < order@.len() && ids@[#[trigger] order@[k] as int] == id;
                    if k < p {
                        assert(ids@[order@[k] as int] < id);
                    } else if k > p {
                        assert(ids@[order@[p as int] as int] < ids@[order@[k] as int]);
                        assert(ids@[order@[p as int] as int] > id);
                    }
                }
                assert(!t.contains(id));
            }
            let ghost before = order@;
            order.insert(p, i);
            proof {
                assert forall|k: int| 0 <= k < order@.len() implies #[trigger] order@[k] < i + 1 by {
                    if k < p {
                        assert(order@[k] == before[k]);
                    } else if k > p {
                        assert(order@[k] == before[k - 1]);
                    }
                }
                assert forall|a: int, b: int| 0 <= a < b < order@.len() implies ids@[#[trigger] order@[a] as int]
                    < ids@[#[trigger] order@[b] as int] by {
                    if b < p {
                        assert(order@[a] == before[a] && order@[b] == before[b]);
                    } else if b == p {
                        assert(order@[a] == before[a]);
                    } else if a < p {
                        assert(order@[a] == before[a] && order@[b] == before[b - 1]);
                        if p < before.len() {
                            assert(ids@[before[p as int] as int] >= id);
                            if b - 1 > p {
                                assert(ids@[before[p as int] as int] < ids@[before[b - 1] as int]);
                            }
                        }
                    } else if a == p {
                        assert(order@[b] == before[b - 1]);
                        assert(ids@[before[p as int] as int] >= id);
                        assert(ids@[before[p as int] as int] != id);
                        if b - 1 > p {
                            assert(ids@[before[p as int] as int] < ids@[before[b - 1] as int]);
                        }
                    } else {
                        assert(order@[a] == before[a - 1] && order@[b] == before[b - 1]);
                    }
                }
                assert forall|v: PageId| next.contains(v) <==> exists|k: int|
                    0 <= k < order@.len() && ids@[#[trigger] order@[k] as int] == v by {
                    if next.contains(v) {
                        let j = choose|j: int| 0 <= j < i + 1 && #[trigger] next[j] == v;
                        if j < i {
                            assert(t[j] == v);
                            assert(t.contains(v));
                            let k = choose|k: int| 0 <= k < before.len() && ids@[#[trigger] before[k] as int] == v;
                            if k < p {
                                assert(order@[k] == before[k]);
                            } else {
                                assert(order@[k + 1] == before[k]);
                            }
                        } else {
                            assert(order@[p as int] == i);
                        }
                    }
                    if exists|k: int| 0 <= k < order@.len() && ids@[#[trigger] order@[k] as int] == v {
                        let k = choose|k: int| 0 <= k < order@.len() && ids@[#[trigger] order@[k] as int] == v;
                        if k == p {
                            assert(next[i as int] == v);
                        } else {
                            let kb = if k < p { k } else { k - 1 };
                            assert(order@[k] == before[kb]);
                            assert(t.contains(v));
                            let j = choose|j: int| 0 <= j < t.len() && #[trigger] t[j] == v;
                            assert(next[j] == v);
                        }
                    }
                }
            }
        }
        i += 1;
    }
    proof {
        assert(ids@.take(ids@.len() as int) =~= ids@);
    }
    match duplicate {
        Some(d) => {
            let mut m = string_from("duplicate sealed page id ");
            push_decimal_str(&mut m, d);
            push_str(&mut m, " while rebuilding catalog/indexes");
            Err(MgeError::InvalidInput(m))
        },
        None => Ok(order),
    }
}

// ---------------------------------------------------------------------------
// Reopening a store
// ---------------------------------------------------------------------------

/// The next cell id after recovering hot cells: the manifest's, raised above
/// every recovered cell id (an id of `u64::MAX` raises it to `u64::MAX`).
pub open spec fn recovered_next_id(next: CellId, cells: Seq<crate::models::MemoryCell>) -> CellId
    decreases cells.len(),
{
    if cells.len() == 0 {
        next
    } else {
        let before = recovered_next_id(next, cells.drop_last());
        let id = cells.last().id;
        let after: CellId = if id == u64::MAX {
            u64::MAX
        } else {
            (id + 1) as u64
        };
        if after > before {
            after
        } else {
            before
        }
    }
}

/// See `recovered_next_id`.
pub fn recovered_next_cell_id(next: CellId, cells: &Vec<crate::models::MemoryCell>) -> (r: CellId)
    ensures
        r == recovered_next_id(next, cells@),
        r >= next,
        forall|k: int| 0 <= k < cells@.len() ==> #[trigger] cells@[k].id < r || cells@[k].id == u64::MAX,
{
    let mut r = next;
    let mut i: usize = 0;
    while i < cells.len()
        invariant
            i <= cells@.len(),
            r == recovered_next_id(next, cells@.take(i as int)),
            r >= next,
            forall|k: int| 0 <= k < i ==> #[trigger] cells@[k].id < r || cells@[k].id == u64::MAX,
        decreases cells@.len() - i,
    {
        proof {
            assert(cells@.take(i + 1).drop_last() =~= cells@.take(i as int));
            assert(cells@.take(i + 1).last() == cells@[i as int]);
        }
        let after = cells[i].id.saturating_add(1);
        if after > r {
            r = after;
        }
        i += 1;
    }
    proof {
        assert(cells@.take(i as int) =~= cells@);
    }
    r
}

} // verus!

//! Sealed pages: groups of cells written together, their catalog, and the
//! rules that cut cells into pages.
use vstd::prelude::*;
use vstd::multiset::Multiset;
use crate::checksum::{hex_lower, sha256_digest, sha256_hex};
use crate::compression::CompressionKind;
use crate::errors::MgeError;
use crate::idset::{set_insert32, strictly_increasing32};
use crate::indexes::IndexKind;
use crate::models::{
    cell_copy, cell_marker_set, now_or_epoch, memory_kind_name, CellId, MarkerId, MemoryCell, MemoryStatus, PageId,
    SensitivityLevel, TrustLevel,
};
use crate::text::{
    chars_lt, lemma_seq_lt_asymmetric, lemma_seq_lt_irreflexive, lemma_seq_lt_total,
    lemma_seq_lt_transitive, seq_lt, chars_eq, chars_of, decimal, push_chars, push_decimal, push_str, string_from, string_push,
    trim_ascii_lower, trim_ascii_lower_chars, zero_pad,
};

verus! {

pub const DEFAULT_TARGET_PAGE_BYTES: usize = 65536;

pub const DEFAULT_MAX_CELLS_PER_PAGE: usize = 512;

// ---------------------------------------------------------------------------
// Page codec and clusterer kinds
// ---------------------------------------------------------------------------

#[derive(Clone, Copy, Debug, PartialEq, Eq, Structural)]
pub enum PageCodecKind {
    Json,
    MessagePack,
}

pub open spec fn page_codec_name(k: PageCodecKind) -> Seq<char> {
    match k {
        PageCodecKind::Json => "json"@,
        PageCodecKind::MessagePack => "messagepack"@,
    }
}

/// The codec a name selects, after trimming and ASCII lowercasing.
pub open spec fn page_codec_from_text(input: Seq<char>) -> Option<PageCodecKind> {
    let t = trim_ascii_lower(input);
    if t == "json"@ {
        Some(PageCodecKind::Json)
    } else if t == "messagepack"@ || t == "msgpack"@ || t == "mpack"@ {
        Some(PageCodecKind::MessagePack)
    } else {
        None
    }
}

impl Default for PageCodecKind {
    /// MessagePack is the default page codec.
    fn default() -> (k: Self)
        ensures
            k == PageCodecKind::MessagePack,
    {
        PageCodecKind::MessagePack
    }
}

impl PageCodecKind {
    pub fn as_str(&self) -> (s: &'static str)
        ensures
            s@ == page_codec_name(*self),
    {
        match self {
            PageCodecKind::Json => "json",
            PageCodecKind::MessagePack => "messagepack",
        }
    }

    /// Parses a codec name; an unknown name is an `InvalidInput` error that
    /// quotes the input as given.
    pub fn parse(input: &str) -> (r: Result<PageCodecKind, MgeError>)
        ensures
            match page_codec_from_text(input@) {
                Some(k) => r == Ok::<PageCodecKind, MgeError>(k),
                None => r matches Err(MgeError::InvalidInput(m)) && m@ == "unknown page codec kind: "@
                    + input@,
            },
    {
        let t = trim_ascii_lower_chars(input);
        if chars_eq(&t, &chars_of("json")) {
            return Ok(PageCodecKind::Json);
        }
        if chars_eq(&t, &chars_of("messagepack")) || chars_eq(&t, &chars_of("msgpack"))
            || chars_eq(&t, &chars_of("mpack")) {
            return Ok(PageCodecKind::MessagePack);
        }
        let mut m = string_from("unknown page codec kind: ");
        push_str(&mut m, input);
        Err(MgeError::InvalidInput(m))
    }
}

#[derive(Clone, Copy, Debug, PartialEq, Eq, Structural)]
pub enum PageClustererKind {
    ScopeKind,
    MarkerOverlap,
}

pub open spec fn page_clusterer_name(k: PageClustererKind) -> Seq<char> {
    match k {
        PageClustererKind::ScopeKind => "scope_kind"@,
        PageClustererKind::MarkerOverlap => "marker_overlap"@,
    }
}

/// The clusterer a name selects, after trimming and ASCII lowercasing.
pub open spec fn page_clusterer_from_text(input: Seq<char>) -> Option<PageClustererKind> {
    let t = trim_ascii_lower(input);
    if t == "scope_kind"@ || t == "scope-kind"@ || t == "scope+kind"@ || t
        == "scope_kind_clusterer"@ {
        Some(PageClustererKind::ScopeKind)
    } else if t == "marker_overlap"@ || t == "marker-overlap"@ || t
        == "marker_overlap_clusterer"@ {
        Some(PageClustererKind::MarkerOverlap)
    } else {
        None
    }
}

impl Default for PageClustererKind {
    /// Grouping by scope and kind is the default.
    fn default() -> (k: Self)
        ensures
            k == PageClustererKind::ScopeKind,
    {
        PageClustererKind::ScopeKind
    }
}

impl PageClustererKind {
    pub fn as_str(&self) -> (s: &'static str)
        ensures
            s@ == page_clusterer_name(*self),
    {
        match self {
            PageClustererKind::ScopeKind => "scope_kind",
            PageClustererKind::MarkerOverlap => "marker_overlap",
        }
    }

    /// Parses a clusterer name; an unknown name is an `InvalidInput` error that
    /// quotes the trimmed, lowercased input.
    pub fn parse(input: &str) -> (r: Result<PageClustererKind, MgeError>)
        ensures
            match page_clusterer_from_text(input@) {
                Some(k) => r == Ok::<PageClustererKind, MgeError>(k),
                None => r matches Err(MgeError::InvalidInput(m)) && m@
                    == "unknown page clusterer kind: "@ + trim_ascii_lower(input@),
            },
    {
        let t = trim_ascii_lower_chars(input);
        if chars_eq(&t, &chars_of("scope_kind")) || chars_eq(&t, &chars_of("scope-kind"))
            || chars_eq(&t, &chars_of("scope+kind")) || chars_eq(
            &t,
            &chars_of("scope_kind_clusterer"),
        ) {
            return Ok(PageClustererKind::ScopeKind);
        }
        if chars_eq(&t, &chars_of("marker_overlap")) || chars_eq(&t, &chars_of("marker-overlap"))
            || chars_eq(&t, &chars_of("marker_overlap_clusterer")) {
            return Ok(PageClustererKind::MarkerOverlap);
        }
        let mut m = string_from("unknown page clusterer kind: ");
        push_chars(&mut m, &t);
        Err(MgeError::InvalidInput(m))
    }
}

// ---------------------------------------------------------------------------
// Pages and the page catalog
// ---------------------------------------------------------------------------

/// A sealed page: a group of cells with the ordered set of their markers.
#[derive(Debug)]
pub struct MemoryPage {
    pub page_id: PageId,
    pub version: u32,
    pub created_at: i64,
    pub marker_summary: Vec<MarkerId>,
    pub cell_count: usize,
    pub cells: Vec<MemoryCell>,
    pub checksum: Option<String>,
}

/// `a` is a copy of page `b`: the same fields, with copies of its cells.
pub open spec fn page_copy(a: MemoryPage, b: MemoryPage) -> bool {
    &&& a.page_id == b.page_id
    &&& a.version == b.version
    &&& a.created_at == b.created_at
    &&& a.marker_summary@ == b.marker_summary@
    &&& a.cell_count == b.cell_count
    &&& copies(a.cells@, b.cells@)
    &&& (a.checksum is None <==> b.checksum is None)
    &&& (a.checksum matches Some(x) ==> x@ == b.checksum->0@)
}

impl Clone for MemoryPage {
    fn clone(&self) -> (p: Self)
        ensures
            page_copy(p, *self),
    {
        let mut cells: Vec<MemoryCell> = Vec::new();
        let mut i: usize = 0;
        while i < self.cells.len()
            invariant
                i <= self.cells@.len(),
                cells@.len() == i,
                forall|k: int| 0 <= k < i ==> cell_copy(#[trigger] cells@[k], self.cells@[k]),
            decreases self.cells@.len() - i,
        {
            cells.push(self.cells[i].clone());
            i += 1;
        }
        let checksum = match &self.checksum {
            Some(c) => Some(c.clone()),
            None => None,
        };
        MemoryPage {
            page_id: self.page_id,
            version: self.version,
            created_at: self.created_at,
            marker_summary: crate::models::copy_ids(&self.marker_summary),
            cell_count: self.cell_count,
            cells,
            checksum,
        }
    }
}

/// What the catalog records of one page file.
#[derive(Debug)]
pub struct PageCatalogEntry {
    pub page_id: PageId,
    pub file: String,
    pub page_codec: PageCodecKind,
    pub compression: CompressionKind,
    pub page_clusterer: PageClustererKind,
    pub created_at: i64,
    pub cell_count: usize,
    pub marker_summary: Vec<MarkerId>,
    pub scope_marker_summary: Vec<MarkerId>,
    pub kind_marker_summary: Vec<MarkerId>,
    pub status_summary: Vec<MemoryStatus>,
    pub sensitivity_summary: Vec<SensitivityLevel>,
    pub trust_summary: Vec<TrustLevel>,
    pub encoded_size_bytes: u64,
}

/// The list of sealed pages.
#[derive(Debug)]
pub struct PageCatalog {
    pub index_kind: IndexKind,
    pub pages: Vec<PageCatalogEntry>,
}

impl Default for PageCatalog {
    /// An empty catalog for the default index kind.
    fn default() -> (c: Self)
        ensures
            c.index_kind == IndexKind::ExactMarkerPage,
            c.pages@.len() == 0,
    {
        PageCatalog { index_kind: IndexKind::ExactMarkerPage, pages: Vec::new() }
    }
}

/// The limits a page is cut to.
#[derive(Clone, Copy, Debug, PartialEq, Eq, Structural)]
pub struct PageBuildOptions {
    pub target_page_bytes: usize,
    pub max_cells_per_page: usize,
}

impl Default for PageBuildOptions {
    /// 64 KiB and 512 cells per page.
    fn default() -> (o: Self)
        ensures
            o.target_page_bytes == DEFAULT_TARGET_PAGE_BYTES,
            o.max_cells_per_page == DEFAULT_MAX_CELLS_PER_PAGE,
    {
        PageBuildOptions {
            target_page_bytes: DEFAULT_TARGET_PAGE_BYTES,
            max_cells_per_page: DEFAULT_MAX_CELLS_PER_PAGE,
        }
    }
}

/// The file name of a page: its id in decimal, zero-padded to six digits,
/// with the `.mgp` extension.
pub open spec fn page_file_name_spec(page_id: PageId) -> Seq<char> {
    zero_pad(decimal(page_id as nat), 6) + ".mgp"@
}

pub fn page_file_name(page_id: PageId) -> (s: String)
    ensures
        s@ == page_file_name_spec(page_id),
{
    let mut digits: Vec<char> = Vec::new();
    push_decimal(&mut digits, page_id);
    let mut s = String::new();
    let mut pad: usize = digits.len();
    while pad < 6
        invariant
            digits.len() <= pad <= 6 || (pad == digits.len() && pad >= 6),
            s@ == Seq::new((pad - digits.len()) as nat, |i: int| '0'),
        decreases 6 - pad,
    {
        string_push(&mut s, '0');
        pad += 1;
        proof {
            assert(s@ =~= Seq::new((pad - digits.len()) as nat, |i: int| '0'));
        }
    }
    push_chars(&mut s, &digits);
    push_str(&mut s, ".mgp");
    proof {
        reveal_strlit(".mgp");
        assert(s@ =~= page_file_name_spec(page_id));
    }
    s
}

// ---------------------------------------------------------------------------
// Marker summaries and page checksums
// ---------------------------------------------------------------------------

/// The union of the indexed marker sets of `cells`.
pub open spec fn cells_marker_set(cells: Seq<MemoryCell>) -> Set<MarkerId>
    decreases cells.len(),
{
    if cells.len() == 0 {
        Set::empty()
    } else {
        cells_marker_set(cells.drop_last()).union(cell_marker_set(cells.last()))
    }
}

/// The ordered set of every marker id the cells are indexed under.
pub fn marker_summary_for_cells(cells: &[MemoryCell]) -> (v: Vec<MarkerId>)
    ensures
        strictly_increasing32(v@),
        v@.to_set() == cells_marker_set(cells@),
{
    let mut out: Vec<MarkerId> = Vec::new();
    let mut i: usize = 0;
    proof {
        assert(out@.to_set() =~= Set::<MarkerId>::empty());
        assert(cells@.take(0) =~= Seq::<MemoryCell>::empty());
    }
    while i < cells.len()
        invariant
            i <= cells.len(),
            strictly_increasing32(out@),
            out@.to_set() == cells_marker_set(cells@.take(i as int)),
        decreases cells.len() - i,
    {
        let ids = cells[i].marker_ids_for_indexing();
        let ghost before = out@.to_set();
        let mut j: usize = 0;
        while j < ids.len()
            invariant
                j <= ids.len(),
                strictly_increasing32(out@),
                out@.to_set() == before.union(ids@.take(j as int).to_set()),
            decreases ids.len() - j,
        {
            set_insert32(&mut out, ids[j]);
            proof {
                assert(ids@.take(j + 1) =~= ids@.take(j as int).push(ids@[j as int]));
                crate::idset::lemma_push_to_set32(ids@.take(j as int), ids@[j as int]);
                assert(out@.to_set() =~= before.union(ids@.take(j + 1).to_set()));
            }
            j += 1;
        }
        proof {
            assert(ids@.take(j as int) =~= ids@);
            assert(cells@.take(i + 1).drop_last() =~= cells@.take(i as int));
            assert(cells@.take(i + 1).last() == cells@[i as int]);
            assert(out@.to_set() =~= cells_marker_set(cells@.take(i + 1)));
        }
        i += 1;
    }
    proof {
        assert(cells@.take(i as int) =~= cells@);
    }
    out
}

/// The checksum of a page: the lowercase hex SHA-256 of the page's canonical
/// encoding (the page encoded with no checksum).
pub fn page_content_checksum_of(canonical_encoding: &[u8]) -> (s: String)
    ensures
        s@ == hex_lower(sha256_digest(canonical_encoding@)),
{
    sha256_hex(canonical_encoding)
}

/// Records in `page` the checksum of its canonical encoding; nothing else of
/// the page changes.
pub fn attach_page_checksum(page: &mut MemoryPage, canonical_encoding: &[u8])
    ensures
        final(page).checksum matches Some(c) && c@ == hex_lower(sha256_digest(canonical_encoding@)),
        final(page).page_id == old(page).page_id,
        final(page).version == old(page).version,
        final(page).created_at == old(page).created_at,
        final(page).marker_summary == old(page).marker_summary,
        final(page).cell_count == old(page).cell_count,
        final(page).cells == old(page).cells,
{
    page.checksum = Some(sha256_hex(canonical_encoding));
}

/// Whether a page's recorded checksum matches its canonical encoding; a page
/// without a checksum matches.
pub fn page_checksum_matches(page: &MemoryPage, canonical_encoding: &[u8]) -> (b: bool)
    ensures
        b == match page.checksum {
            Some(c) => c@ == hex_lower(sha256_digest(canonical_encoding@)),
            None => true,
        },
{
    match &page.checksum {
        None => true,
        Some(expected) => {
            let actual = sha256_hex(canonical_encoding);
            crate::text::str_eq(expected.as_str(), actual.as_str())
        },
    }
}

// ---------------------------------------------------------------------------
// Cutting a group of cells into pages
// ---------------------------------------------------------------------------

/// At least one: the effective cell and byte limits of the options.
pub open spec fn at_least_one(n: usize) -> int {
    if n == 0 {
        1
    } else {
        n as int
    }
}

/// The state after the first `n` cells of a group: the pages closed so far,
/// the page being filled and its byte count. A cell closes the open page
/// first when the page already holds `max_cells` cells, or when it is not
/// empty and the cell's bytes would take it past `target_bytes`.
pub open spec fn split_run(
    cells: Seq<MemoryCell>,
    sizes: Seq<usize>,
    max_cells: int,
    target_bytes: int,
    n: int,
) -> (Seq<Seq<MemoryCell>>, Seq<MemoryCell>, int)
    decreases n,
{
    if n <= 0 {
        (Seq::empty(), Seq::empty(), 0)
    } else {
        let (closed, open, bytes) = split_run(cells, sizes, max_cells, target_bytes, n - 1);
        let cell = cells[n - 1];
        let size = sizes[n - 1] as int;
        if open.len() >= max_cells || (open.len() > 0 && bytes + size > target_bytes) {
            (closed.push(open), seq![cell], size)
        } else {
            (closed, open.push(cell), bytes + size)
        }
    }
}

/// The pages a group is cut into under `options`, given each cell's encoded
/// size: the closed pages, then the open one if it holds any cell.
pub open spec fn split_spec(
    cells: Seq<MemoryCell>,
    sizes: Seq<usize>,
    options: PageBuildOptions,
) -> Seq<Seq<MemoryCell>> {
    let (closed, open, bytes) = split_run(
        cells,
        sizes,
        at_least_one(options.max_cells_per_page),
        at_least_one(options.target_page_bytes),
        cells.len() as int,
    );
    if open.len() > 0 {
        closed.push(open)
    } else {
        closed
    }
}

/// Concatenation of a sequence of sequences.
pub open spec fn flatten_seqs<T>(s: Seq<Seq<T>>) -> Seq<T>
    decreases s.len(),
{
    if s.len() == 0 {
        Seq::empty()
    } else {
        flatten_seqs(s.drop_last()) + s.last()
    }
}

pub open spec fn vec_views<T>(v: Seq<Vec<T>>) -> Seq<Seq<T>> {
    v.map_values(|x: Vec<T>| x@)
}

/// The elements of `v` in reverse order.
pub(crate) fn reversed<T>(v: Vec<T>) -> (out: Vec<T>)
    ensures
        out@ == v@.reverse(),
{
    let mut v = v;
    let ghost orig = v@;
    let mut out: Vec<T> = Vec::new();
    while v.len() > 0
        invariant
            v@ == orig.take(v@.len() as int),
            out@ == orig.skip(v@.len() as int).reverse(),
            v@.len() <= orig.len(),
        decreases v.len(),
    {
        let x = v.pop().unwrap();
        out.push(x);
        proof {
            assert(v@ =~= orig.take(v@.len() as int));
            assert(out@ =~= orig.skip(v@.len() as int).reverse());
        }
    }
    proof {
        assert(orig.skip(0) =~= orig);
    }
    out
}

proof fn lemma_flatten_push<T>(s: Seq<Seq<T>>, x: Seq<T>)
    ensures
        flatten_seqs(s.push(x)) == flatten_seqs(s) + x,
{
    assert(s.push(x).drop_last() =~= s);
}

/// The number of nonempty pieces is at most the number of their elements.
proof fn lemma_flatten_len<T>(s: Seq<Seq<T>>)
    requires
        forall|i: int| 0 <= i < s.len() ==> #[trigger] s[i].len() > 0,
    ensures
        s.len() <= flatten_seqs(s).len(),
    decreases s.len(),
{
    if s.len() > 0 {
        lemma_flatten_len(s.drop_last());
    }
}

proof fn lemma_split_run(
    cells: Seq<MemoryCell>,
    sizes: Seq<usize>,
    max_cells: int,
    target_bytes: int,
    n: int,
)
    requires
        0 <= n <= cells.len(),
        max_cells >= 1,
    ensures
        ({
            let (closed, open, bytes) = split_run(cells, sizes, max_cells, target_bytes, n);
            &&& flatten_seqs(closed) + open == cells.take(n)
            &&& forall|i: int| 0 <= i < closed.len() ==> 0 < #[trigger] closed[i].len() <= max_cells
            &&& open.len() <= max_cells
            &&& (n > 0 ==> open.len() > 0)
        }),
    decreases n,
{
    if n > 0 {
        lemma_split_run(cells, sizes, max_cells, target_bytes, n - 1);
        let (closed, open, bytes) = split_run(cells, sizes, max_cells, target_bytes, n - 1);
        let cell = cells[n - 1];
        let size = sizes[n - 1] as int;
        assert(cells.take(n) =~= cells.take(n - 1).push(cell));
        if open.len() >= max_cells || (open.len() > 0 && bytes + size > target_bytes) {
            lemma_flatten_push(closed, open);
            assert(flatten_seqs(closed.push(open)) + seq![cell] =~= cells.take(n));
        } else {
            assert(flatten_seqs(closed) + open.push(cell) =~= cells.take(n));
        }
    } else {
        assert(cells.take(0) =~= Seq::<MemoryCell>::empty());
    }
}

/// Cutting a group into pages keeps every cell, in order, and gives pages
/// that hold between one cell and the cell limit.
pub proof fn law_split_keeps_cells(cells: Seq<MemoryCell>, sizes: Seq<usize>, options: PageBuildOptions)
    ensures
        flatten_seqs(split_spec(cells, sizes, options)) == cells,
        forall|i: int|
            0 <= i < split_spec(cells, sizes, options).len() ==> 0 < #[trigger] split_spec(
                cells,
                sizes,
                options,
            )[i].len() <= at_least_one(options.max_cells_per_page),
        split_spec(cells, sizes, options).len() <= cells.len(),
{
    let mc = at_least_one(options.max_cells_per_page);
    let tb = at_least_one(options.target_page_bytes);
    lemma_split_run(cells, sizes, mc, tb, cells.len() as int);
    let (closed, open, bytes) = split_run(cells, sizes, mc, tb, cells.len() as int);
    assert(cells.take(cells.len() as int) =~= cells);
    if open.len() > 0 {
        lemma_flatten_push(closed, open);
        assert(split_spec(cells, sizes, options) == closed.push(open));
    } else {
        assert(open =~= Seq::<MemoryCell>::empty());
        assert(flatten_seqs(closed) + open =~= flatten_seqs(closed));
    }
    let sp = split_spec(cells, sizes, options);
    assert forall|i: int| 0 <= i < sp.len() implies 0 < #[trigger] sp[i].len() <= mc by {
        if i < closed.len() {
            assert(sp[i] == closed[i]);
        }
    }
    lemma_flatten_len(sp);
}

/// The sum of a sequence of sizes.
pub open spec fn size_sum(s: Seq<usize>) -> int
    decreases s.len(),
{
    if s.len() == 0 {
        0
    } else {
        size_sum(s.drop_last()) + s.last()
    }
}

/// Where page `i` of `pages` starts among the cells they hold together.
pub open spec fn page_start<T>(pages: Seq<Seq<T>>, i: int) -> int {
    flatten_seqs(pages.take(i)).len() as int
}

/// The total encoded size of page `i`, given each cell's size in order.
pub open spec fn page_bytes<T>(pages: Seq<Seq<T>>, sizes: Seq<usize>, i: int) -> int {
    size_sum(sizes.subrange(page_start(pages, i), page_start(pages, i) + pages[i].len()))
}

proof fn lemma_page_start_next<T>(pages: Seq<Seq<T>>, i: int)
    requires
        0 <= i < pages.len(),
    ensures
        page_start(pages, i + 1) == page_start(pages, i) + pages[i].len(),
{
    assert(pages.take(i + 1).drop_last() =~= pages.take(i));
    assert(pages.take(i + 1).last() == pages[i]);
}

proof fn lemma_page_start_push<T>(pages: Seq<Seq<T>>, x: Seq<T>, i: int)
    requires
        0 <= i <= pages.len(),
    ensures
        page_start(pages.push(x), i) == page_start(pages, i),
{
    assert(pages.push(x).take(i) =~= pages.take(i));
}

proof fn lemma_split_bytes(cells: Seq<MemoryCell>, sizes: Seq<usize>, max_cells: int, target_bytes: int, n: int)
    requires
        0 <= n <= cells.len(),
        sizes.len() == cells.len(),
        max_cells >= 1,
    ensures
        ({
            let (closed, open, bytes) = split_run(cells, sizes, max_cells, target_bytes, n);
            &&& page_start(closed, closed.len() as int) + open.len() == n
            &&& bytes == size_sum(sizes.subrange(n - open.len(), n))
            &&& (open.len() >= 2 ==> bytes <= target_bytes)
            &&& forall|i: int| 0 <= i < closed.len() && (#[trigger] closed[i]).len() >= 2 ==> page_bytes(
                closed,
                sizes,
                i,
            ) <= target_bytes
            &&& forall|i: int| 0 <= i < closed.len() ==> (#[trigger] closed[i]).len() >= max_cells || page_bytes(
                closed,
                sizes,
                i,
            ) + sizes[page_start(closed, i + 1)] > target_bytes
        }),
    decreases n,
{
    lemma_split_run(cells, sizes, max_cells, target_bytes, n);
    if n == 0 {
        assert(sizes.subrange(0, 0) =~= Seq::<usize>::empty());
        assert(Seq::<Seq<MemoryCell>>::empty().take(0) =~= Seq::<Seq<MemoryCell>>::empty());
    } else {
        lemma_split_bytes(cells, sizes, max_cells, target_bytes, n - 1);
        lemma_split_run(cells, sizes, max_cells, target_bytes, n - 1);
        let (closed, open, bytes) = split_run(cells, sizes, max_cells, target_bytes, n - 1);
        let size = sizes[n - 1] as int;
        let (c2, o2, b2) = split_run(cells, sizes, max_cells, target_bytes, n);
        if open.len() >= max_cells || (open.len() > 0 && bytes + size > target_bytes) {
            assert(c2 == closed.push(open));
            assert forall|i: int| 0 <= i <= closed.len() implies #[trigger] page_start(c2, i) == page_start(closed, i) by {
                lemma_page_start_push(closed, open, i);
            }
            lemma_page_start_next(c2, closed.len() as int);
            assert(page_start(c2, c2.len() as int) + o2.len() == n);
            assert(b2 == size);
            let one = sizes.subrange(n - 1, n);
            assert(one.drop_last() =~= Seq::<usize>::empty());
            assert(one.last() == sizes[n - 1]);
            assert(size_sum(one.drop_last()) == 0);
            assert(size_sum(one) == size);
            assert(n - o2.len() == n - 1);
            assert forall|i: int| 0 <= i < c2.len() && (#[trigger] c2[i]).len() >= 2 implies page_bytes(c2, sizes, i)
                <= target_bytes by {
                if i < closed.len() {
                    assert(c2[i] == closed[i]);
                } else {
                    assert(c2[i] == open);
                }
            }
            assert forall|i: int| 0 <= i < c2.len() implies (#[trigger] c2[i]).len() >= max_cells || page_bytes(
                c2,
                sizes,
                i,
            ) + sizes[page_start(c2, i + 1)] > target_bytes by {
                if i < closed.len() {
                    assert(c2[i] == closed[i]);
                    if i + 1 <= closed.len() {
                        assert(page_start(c2, i + 1) == page_start(closed, i + 1));
                    }
                } else {
                    assert(c2[i] == open);
                }
            }
        } else {
            assert(c2 == closed && o2 == open.push(cells[n - 1]));
            let a = n - 1 - open.len();
            assert(sizes.subrange(a, n).drop_last() =~= sizes.subrange(a, n - 1));
            assert(sizes.subrange(a, n).last() == sizes[n - 1]);
            assert(b2 == bytes + size);
            assert(size_sum(sizes.subrange(a, n)) == size_sum(sizes.subrange(a, n - 1)) + size);
            assert(n - o2.len() == a);
            if closed.len() > 0 {
                let i = closed.len() - 1;
                lemma_page_start_next(closed, i);
            }
        }
    }
}

/// Cutting a group into pages respects the byte target and fills pages
/// greedily: a page of two or more cells holds at most the target's worth of
/// encoded cells, and a page is closed only when it is full or its next cell
/// would take it past the target.
pub proof fn law_split_respects_byte_target(cells: Seq<MemoryCell>, sizes: Seq<usize>, options: PageBuildOptions)
    requires
        sizes.len() == cells.len(),
    ensures
        ({
            let sp = split_spec(cells, sizes, options);
            &&& forall|i: int| 0 <= i < sp.len() && (#[trigger] sp[i]).len() >= 2 ==> page_bytes(sp, sizes, i)
                <= at_least_one(options.target_page_bytes)
            &&& forall|i: int| 0 <= i < sp.len() - 1 ==> (#[trigger] sp[i]).len() >= at_least_one(
                options.max_cells_per_page,
            ) || page_bytes(sp, sizes, i) + sizes[page_start(sp, i + 1)] > at_least_one(options.target_page_bytes)
        }),
{
    let mc = at_least_one(options.max_cells_per_page);
    let tb = at_least_one(options.target_page_bytes);
    let n = cells.len() as int;
    lemma_split_bytes(cells, sizes, mc, tb, n);
    lemma_split_run(cells, sizes, mc, tb, n);
    let (closed, open, bytes) = split_run(cells, sizes, mc, tb, n);
    let sp = split_spec(cells, sizes, options);
    if open.len() > 0 {
        assert(sp == closed.push(open));
        assert forall|i: int| 0 <= i <= closed.len() implies #[trigger] page_start(sp, i) == page_start(closed, i) by {
            lemma_page_start_push(closed, open, i);
        }
        assert forall|i: int| 0 <= i < sp.len() && (#[trigger] sp[i]).len() >= 2 implies page_bytes(sp, sizes, i)
            <= tb by {
            if i < closed.len() {
                assert(sp[i] == closed[i]);
            } else {
                assert(sp[i] == open);
            }
        }
        assert forall|i: int| 0 <= i < sp.len() - 1 implies (#[trigger] sp[i]).len() >= mc || page_bytes(sp, sizes, i)
            + sizes[page_start(sp, i + 1)] > tb by {
            assert(sp[i] == closed[i]);
            assert(page_start(sp, i + 1) == page_start(closed, i + 1));
        }
    } else {
        assert(sp == closed);
    }
}

/// Cuts a group into pages by the cell and byte limits (`cell_bytes[i]` is
/// the encoded size of `group[i]`).
pub fn split_group_by_limits(
    group: Vec<MemoryCell>,
    cell_bytes: &Vec<usize>,
    options: PageBuildOptions,
) -> (out: Vec<Vec<MemoryCell>>)
    requires
        cell_bytes.len() == group.len(),
    ensures
        vec_views(out@) == split_spec(group@, cell_bytes@, options),
{
    let max_cells: usize = if options.max_cells_per_page == 0 {
        1
    } else {
        options.max_cells_per_page
    };
    let target: usize = if options.target_page_bytes == 0 {
        1
    } else {
        options.target_page_bytes
    };
    let ghost cells = group@;
    let n = group.len();
    let mut rest = reversed(group);
    let mut chunks: Vec<Vec<MemoryCell>> = Vec::new();
    let mut current: Vec<MemoryCell> = Vec::new();
    let mut current_bytes: usize = 0;
    let mut i: usize = 0;
    proof {
        assert(vec_views(chunks@) =~= Seq::<Seq<MemoryCell>>::empty());
        assert(cells.skip(0) =~= cells);
    }
    while i < n
        invariant
            n == cells.len(),
            cell_bytes@.len() == n,
            i <= n,
            max_cells == at_least_one(options.max_cells_per_page),
            target == at_least_one(options.target_page_bytes),
            rest@ == cells.skip(i as int).reverse(),
            split_run(cells, cell_bytes@, max_cells as int, target as int, i as int) == (
                vec_views(chunks@),
                current@,
                current_bytes as int,
            ),
            current@.len() == 0 ==> current_bytes == 0,
        decreases n - i,
    {
        proof {
            assert(rest@.len() == n - i);
            assert(rest@.last() == cells[i as int]);
        }
        let cell = rest.pop().unwrap();
        let size = cell_bytes[i];
        let exceed_cells = current.len() >= max_cells;
        let exceed_bytes = current.len() > 0 && (size > target || current_bytes > target - size);
        if exceed_cells || exceed_bytes {
            let done = current;
            proof {
                assert(vec_views(chunks@.push(done)) =~= vec_views(chunks@).push(done@));
            }
            chunks.push(done);
            current = Vec::new();
            current_bytes = 0;
        }
        current_bytes = current_bytes + size;
        current.push(cell);
        i += 1;
        proof {
            assert(rest@ =~= cells.skip(i as int).reverse());
        }
    }
    if current.len() > 0 {
        let done = current;
        proof {
            assert(vec_views(chunks@.push(done)) =~= vec_views(chunks@).push(done@));
        }
        chunks.push(done);
    }
    chunks
}

/// The pages of all groups, group after group.
pub open spec fn split_all(
    groups: Seq<Seq<MemoryCell>>,
    sizes: Seq<Seq<usize>>,
    options: PageBuildOptions,
) -> Seq<Seq<MemoryCell>>
    decreases groups.len(),
{
    if groups.len() == 0 {
        Seq::empty()
    } else {
        split_all(groups.drop_last(), sizes.drop_last(), options) + split_spec(
            groups.last(),
            sizes.last(),
            options,
        )
    }
}

/// `page` is the page numbered `id` that holds exactly `cells`.
pub open spec fn page_holds(page: MemoryPage, id: int, cells: Seq<MemoryCell>) -> bool {
    &&& page.page_id == id
    &&& page.version == 1
    &&& page.cells@ == cells
    &&& page.cell_count == cells.len()
    &&& page.checksum is None
    &&& strictly_increasing32(page.marker_summary@)
    &&& page.marker_summary@.to_set() == cells_marker_set(cells)
}

proof fn lemma_split_all_len(
    groups: Seq<Seq<MemoryCell>>,
    sizes: Seq<Seq<usize>>,
    options: PageBuildOptions,
)
    ensures
        split_all(groups, sizes, options).len() <= flatten_seqs(groups).len(),
    decreases groups.len(),
{
    if groups.len() > 0 {
        lemma_split_all_len(groups.drop_last(), sizes.drop_last(), options);
        law_split_keeps_cells(groups.last(), sizes.last(), options);
    }
}

proof fn lemma_flatten_take_len<T>(s: Seq<Seq<T>>, k: int)
    requires
        0 <= k <= s.len(),
    ensures
        flatten_seqs(s.take(k)).len() <= flatten_seqs(s).len(),
    decreases s.len() - k,
{
    if k < s.len() {
        lemma_flatten_take_len(s, k + 1);
        assert(s.take(k + 1).drop_last() =~= s.take(k));
    } else {
        assert(s.take(k) =~= s);
    }
}

/// Numbers the pages of every group from `start_page_id` on, in group order
/// (`cell_bytes[g][i]` is the encoded size of `groups[g][i]`). Each page is
/// stamped with the current time.
pub fn build_pages_from_groups(
    groups: Vec<Vec<MemoryCell>>,
    cell_bytes: Vec<Vec<usize>>,
    start_page_id: PageId,
    options: PageBuildOptions,
) -> (pages: Vec<MemoryPage>)
    requires
        groups.len() == cell_bytes.len(),
        forall|g: int| 0 <= g < groups.len() ==> #[trigger] cell_bytes@[g].len() == groups@[g].len(),
        start_page_id + flatten_seqs(vec_views(groups@)).len() <= u64::MAX,
    ensures
        pages@.len() == split_all(vec_views(groups@), vec_views(cell_bytes@), options).len(),
        forall|i: int|
            0 <= i < pages@.len() ==> page_holds(
                #[trigger] pages@[i],
                start_page_id + i,
                split_all(vec_views(groups@), vec_views(cell_bytes@), options)[i],
            ),
{
    let ghost gs = vec_views(groups@);
    let ghost ss = vec_views(cell_bytes@);
    let ng = groups.len();
    let mut rest_groups = reversed(groups);
    let mut rest_sizes = reversed(cell_bytes);
    let mut pages: Vec<MemoryPage> = Vec::new();
    let mut next_page_id: PageId = start_page_id;
    let mut g: usize = 0;
    proof {
        assert(gs.take(0) =~= Seq::<Seq<MemoryCell>>::empty());
        assert(ss.take(0) =~= Seq::<Seq<usize>>::empty());
        assert forall|k: int| 0 <= k < gs.len() implies #[trigger] ss[k].len() == gs[k].len() by {
            assert(ss[k] == cell_bytes@[k]@);
            assert(gs[k] == groups@[k]@);
            assert(cell_bytes@[k].len() == groups@[k].len());
        }
    }
    while g < ng
        invariant
            ng == gs.len(),
            ss.len() == gs.len(),
            g <= ng,
            forall|k: int| 0 <= k < gs.len() ==> #[trigger] ss[k].len() == gs[k].len(),
            vec_views(rest_groups@) == gs.skip(g as int).reverse(),
            vec_views(rest_sizes@) == ss.skip(g as int).reverse(),
            start_page_id + flatten_seqs(gs).len() <= u64::MAX,
            pages@.len() == split_all(gs.take(g as int), ss.take(g as int), options).len(),
            next_page_id == start_page_id + pages@.len(),
            forall|i: int|
                0 <= i < pages@.len() ==> page_holds(
                    #[trigger] pages@[i],
                    start_page_id + i,
                    split_all(gs.take(g as int), ss.take(g as int), options)[i],
                ),
        decreases ng - g,
    {
        let ghost old_groups = rest_groups@;
        let ghost old_sizes = rest_sizes@;
        proof {
            assert(vec_views(rest_groups@).len() == rest_groups@.len());
            assert(vec_views(rest_sizes@).len() == rest_sizes@.len());
            assert(rest_groups@.len() == ng - g);
            assert(vec_views(rest_groups@).last() == gs[g as int]);
            assert(vec_views(rest_sizes@).last() == ss[g as int]);
        }
        let group = rest_groups.pop().unwrap();
        let sizes = rest_sizes.pop().unwrap();
        proof {
            assert(rest_groups@ =~= old_groups.drop_last());
            assert(rest_sizes@ =~= old_sizes.drop_last());
            assert(vec_views(rest_groups@) =~= vec_views(old_groups).drop_last());
            assert(vec_views(rest_sizes@) =~= vec_views(old_sizes).drop_last());
            assert(vec_views(rest_groups@) =~= gs.skip(g + 1).reverse());
            assert(vec_views(rest_sizes@) =~= ss.skip(g + 1).reverse());
        }
        let chunks = split_group_by_limits(group, &sizes, options);
        let ghost chunk_views = vec_views(chunks@);
        let ghost base = pages@.len();
        let nc = chunks.len();
        let mut rest_chunks = reversed(chunks);
        let mut k: usize = 0;
        proof {
            assert(chunk_views.skip(0) =~= chunk_views);
            lemma_split_all_len(gs.take(g + 1), ss.take(g + 1), options);
            lemma_flatten_take_len(gs, g + 1);
            assert(gs.take(g + 1).drop_last() =~= gs.take(g as int));
            assert(ss.take(g + 1).drop_last() =~= ss.take(g as int));
            assert(split_all(gs.take(g + 1), ss.take(g + 1), options) == split_all(
                gs.take(g as int),
                ss.take(g as int),
                options,
            ) + chunk_views);
        }
        while k < nc
            invariant
                nc == chunk_views.len(),
                k <= nc,
                vec_views(rest_chunks@) == chunk_views.skip(k as int).reverse(),
                pages@.len() == base + k,
                next_page_id == start_page_id + pages@.len(),
                base + nc <= u64::MAX - start_page_id,
                split_all(gs.take(g + 1), ss.take(g + 1), options) == split_all(
                    gs.take(g as int),
                    ss.take(g as int),
                    options,
                ) + chunk_views,
                base == split_all(gs.take(g as int), ss.take(g as int), options).len(),
                forall|i: int|
                    0 <= i < pages@.len() ==> page_holds(
                        #[trigger] pages@[i],
                        start_page_id + i,
                        split_all(gs.take(g + 1), ss.take(g + 1), options)[i],
                    ),
            decreases nc - k,
        {
            let ghost old_chunks = rest_chunks@;
            proof {
                assert(vec_views(rest_chunks@).len() == rest_chunks@.len());
                assert(rest_chunks@.len() == nc - k);
                assert(vec_views(rest_chunks@).last() == chunk_views[k as int]);
            }
            let page_cells = rest_chunks.pop().unwrap();
            proof {
                assert(rest_chunks@ =~= old_chunks.drop_last());
                assert(vec_views(rest_chunks@) =~= vec_views(old_chunks).drop_last());
                assert(vec_views(rest_chunks@) =~= chunk_views.skip(k + 1).reverse());
            }
            let marker_summary = marker_summary_for_cells(page_cells.as_slice());
            let count = page_cells.len();
            let page = MemoryPage {
                page_id: next_page_id,
                version: 1,
                created_at: now_or_epoch(),
                marker_summary,
                cell_count: count,
                cells: page_cells,
                checksum: None,
            };
            pages.push(page);
            next_page_id = next_page_id + 1;
            k += 1;
        }
        g += 1;
    }
    proof {
        assert(gs.take(ng as int) =~= gs);
        assert(ss.take(ng as int) =~= ss);
    }
    pages
}

// ---------------------------------------------------------------------------
// Clustering cells into groups
// ---------------------------------------------------------------------------

/// Groups cells into the groups that pages are cut from.
/// Groups cells into the groups that pages are cut from. A clusterer hands
/// back as many cells as it was given.
/// The ids of a sequence of cells.
pub open spec fn cell_ids(s: Seq<MemoryCell>) -> Seq<CellId> {
    s.map_values(|c: MemoryCell| c.id)
}

/// The ids of all cells of the groups, counted with repetition.
pub open spec fn id_bag(gs: Seq<Seq<MemoryCell>>) -> Multiset<CellId>
    decreases gs.len(),
{
    if gs.len() == 0 {
        Multiset::empty()
    } else {
        id_bag(gs.drop_last()).add(cell_ids(gs.last()).to_multiset())
    }
}

proof fn lemma_id_bag_push_cell(gs: Seq<Seq<MemoryCell>>, p: int, c: MemoryCell)
    requires
        0 <= p < gs.len(),
    ensures
        id_bag(gs.update(p, gs[p].push(c))) == id_bag(gs).insert(c.id),
    decreases gs.len(),
{
    broadcast use vstd::seq_lib::to_multiset_build;
    broadcast use vstd::multiset::group_multiset_axioms;
    let g2 = gs.update(p, gs[p].push(c));
    assert(cell_ids(gs[p].push(c)) =~= cell_ids(gs[p]).push(c.id));
    if p == gs.len() - 1 {
        assert(g2.drop_last() =~= gs.drop_last());
        assert(g2.last() == gs[p].push(c));
        assert(id_bag(g2) =~= id_bag(gs).insert(c.id));
    } else {
        lemma_id_bag_push_cell(gs.drop_last(), p, c);
        assert(g2.drop_last() =~= gs.drop_last().update(p, gs.drop_last()[p].push(c)));
        assert(g2.last() == gs.last());
        assert(id_bag(g2) =~= id_bag(gs).insert(c.id));
    }
}

proof fn lemma_id_bag_insert_group(gs: Seq<Seq<MemoryCell>>, p: int, c: MemoryCell)
    requires
        0 <= p <= gs.len(),
    ensures
        id_bag(gs.insert(p, seq![c])) == id_bag(gs).insert(c.id),
    decreases gs.len(),
{
    broadcast use vstd::seq_lib::group_to_multiset_ensures;
    broadcast use vstd::multiset::group_multiset_axioms;
    let g2 = gs.insert(p, seq![c]);
    assert(cell_ids(seq![c]) =~= Seq::<CellId>::empty().push(c.id));
    assert(Seq::<CellId>::empty().to_multiset() =~= Multiset::<CellId>::empty());
    if p == gs.len() {
        assert(g2.drop_last() =~= gs);
        assert(g2.last() == seq![c]);
        assert(id_bag(g2) =~= id_bag(gs).insert(c.id));
    } else {
        lemma_id_bag_insert_group(gs.drop_last(), p, c);
        assert(g2.drop_last() =~= gs.drop_last().insert(p, seq![c]));
        assert(g2.last() == gs.last());
        assert(id_bag(g2) =~= id_bag(gs).insert(c.id));
    }
}

proof fn lemma_id_bag_concat(a: Seq<Seq<MemoryCell>>, b: Seq<Seq<MemoryCell>>)
    ensures
        id_bag(a + b) == id_bag(a).add(id_bag(b)),
    decreases b.len(),
{
    broadcast use vstd::multiset::group_multiset_axioms;
    if b.len() == 0 {
        assert(a + b =~= a);
        assert(id_bag(a + b) =~= id_bag(a).add(id_bag(b)));
    } else {
        lemma_id_bag_concat(a, b.drop_last());
        assert((a + b).drop_last() =~= a + b.drop_last());
        assert((a + b).last() == b.last());
        assert(id_bag(a + b) =~= id_bag(a).add(id_bag(b)));
    }
}

pub trait PageClusterer {
    /// Whether `groups` is a grouping this clusterer may form from `cells`.
    spec fn clusters(&self, cells: Seq<MemoryCell>, groups: Seq<Seq<MemoryCell>>) -> bool;

    fn cluster_cells(&self, cells: &[MemoryCell]) -> (out: Vec<Vec<MemoryCell>>)
        ensures
            self.clusters(cells@, vec_views(out@)),
            flatten_seqs(vec_views(out@)).len() == cells@.len(),
            id_bag(vec_views(out@)) == cell_ids(cells@).to_multiset(),
    ;
}

proof fn lemma_flatten_len_add<T>(a: Seq<Seq<T>>, b: Seq<Seq<T>>)
    ensures
        flatten_seqs(a + b).len() == flatten_seqs(a).len() + flatten_seqs(b).len(),
    decreases b.len(),
{
    if b.len() == 0 {
        assert(a + b =~= a);
    } else {
        lemma_flatten_len_add(a, b.drop_last());
        assert((a + b).drop_last() =~= a + b.drop_last());
        assert((a + b).last() == b.last());
    }
}

proof fn lemma_flatten_len_update<T>(s: Seq<Seq<T>>, p: int, x: Seq<T>)
    requires
        0 <= p < s.len(),
    ensures
        flatten_seqs(s.update(p, x)).len() == flatten_seqs(s).len() - s[p].len() + x.len(),
{
    let a = s.take(p);
    let b = s.skip(p + 1);
    assert(s =~= a + seq![s[p]] + b);
    assert(s.update(p, x) =~= a + seq![x] + b);
    lemma_flatten_len_add(a + seq![s[p]], b);
    lemma_flatten_len_add(a, seq![s[p]]);
    lemma_flatten_len_add(a + seq![x], b);
    lemma_flatten_len_add(a, seq![x]);
    assert(seq![s[p]].drop_last() =~= Seq::<Seq<T>>::empty());
    assert(seq![x].drop_last() =~= Seq::<Seq<T>>::empty());
}

proof fn lemma_flatten_len_insert<T>(s: Seq<Seq<T>>, p: int, x: Seq<T>)
    requires
        0 <= p <= s.len(),
    ensures
        flatten_seqs(s.insert(p, x)).len() == flatten_seqs(s).len() + x.len(),
{
    let a = s.take(p);
    let b = s.skip(p);
    assert(s =~= a + b);
    assert(s.insert(p, x) =~= a + seq![x] + b);
    lemma_flatten_len_add(a, b);
    lemma_flatten_len_add(a + seq![x], b);
    lemma_flatten_len_add(a, seq![x]);
    assert(seq![x].drop_last() =~= Seq::<Seq<T>>::empty());
    assert(seq![x].last() == x);
    assert(flatten_seqs(Seq::<Seq<T>>::empty()) =~= Seq::<T>::empty());
    assert(flatten_seqs(seq![x]) == flatten_seqs(seq![x].drop_last()) + seq![x].last());
    assert(flatten_seqs(seq![x]) =~= x);
}

/// The grouping key of a cell: its scope and the name of its kind.
pub open spec fn cell_key(c: MemoryCell) -> (Seq<char>, Seq<char>) {
    (c.scope@, memory_kind_name(c.kind))
}

/// Lexicographic order on keys (scope first, then kind name), each by code
/// point, which is the order of the UTF-8 strings.
pub open spec fn key_lt(a: (Seq<char>, Seq<char>), b: (Seq<char>, Seq<char>)) -> bool {
    seq_lt(a.0, b.0) || (a.0 == b.0 && seq_lt(a.1, b.1))
}

/// The cells of `cells` with key `k`, in order.
pub open spec fn with_key(cells: Seq<MemoryCell>, k: (Seq<char>, Seq<char>)) -> Seq<MemoryCell>
    decreases cells.len(),
{
    if cells.len() == 0 {
        Seq::empty()
    } else {
        let rest = with_key(cells.drop_last(), k);
        if cell_key(cells.last()) == k {
            rest.push(cells.last())
        } else {
            rest
        }
    }
}

/// `a` is a cell-by-cell copy of `b`.
pub open spec fn copies(a: Seq<MemoryCell>, b: Seq<MemoryCell>) -> bool {
    a.len() == b.len() && forall|i: int| 0 <= i < a.len() ==> cell_copy(#[trigger] a[i], b[i])
}

pub open spec fn group_key(g: Seq<MemoryCell>) -> (Seq<char>, Seq<char>) {
    cell_key(g[0])
}

/// `groups` is the grouping of `cells` by key: one nonempty group per key
/// that occurs, in increasing key order, each holding copies of the cells
/// with its key in their input order.
pub open spec fn scope_kind_groups(cells: Seq<MemoryCell>, groups: Seq<Seq<MemoryCell>>) -> bool {
    &&& forall|g: int| 0 <= g < groups.len() ==> #[trigger] groups[g].len() > 0
    &&& forall|g: int|
        0 <= g < groups.len() ==> copies(
            #[trigger] groups[g],
            with_key(cells, group_key(groups[g])),
        )
    &&& forall|g: int, h: int|
        0 <= g < h < groups.len() ==> key_lt(
            group_key(#[trigger] groups[g]),
            group_key(#[trigger] groups[h]),
        )
    &&& forall|k: (Seq<char>, Seq<char>)|
        (forall|g: int| 0 <= g < groups.len() ==> group_key(#[trigger] groups[g]) != k) ==> #[trigger] with_key(
            cells,
            k,
        ).len() == 0
}

fn key_less(a: &MemoryCell, b: &MemoryCell) -> (r: bool)
    ensures
        r == key_lt(cell_key(*a), cell_key(*b)),
{
    let sa = chars_of(a.scope.as_str());
    let sb = chars_of(b.scope.as_str());
    if chars_lt(&sa, &sb) {
        return true;
    }
    if !chars_eq(&sa, &sb) {
        return false;
    }
    chars_lt(&chars_of(a.kind.as_str()), &chars_of(b.kind.as_str()))
}

fn key_equal(a: &MemoryCell, b: &MemoryCell) -> (r: bool)
    ensures
        r == (cell_key(*a) == cell_key(*b)),
{
    let same_scope = chars_eq(&chars_of(a.scope.as_str()), &chars_of(b.scope.as_str()));
    let same_kind = chars_eq(&chars_of(a.kind.as_str()), &chars_of(b.kind.as_str()));
    same_scope && same_kind
}

proof fn lemma_key_order(a: (Seq<char>, Seq<char>), b: (Seq<char>, Seq<char>))
    ensures
        !key_lt(a, a),
        a != b ==> key_lt(a, b) || key_lt(b, a),
        key_lt(a, b) ==> !key_lt(b, a),
{
    lemma_seq_lt_irreflexive(a.0);
    lemma_seq_lt_irreflexive(a.1);
    if a.0 != b.0 {
        lemma_seq_lt_total(a.0, b.0);
    } else if a.1 != b.1 {
        lemma_seq_lt_total(a.1, b.1);
    }
    if seq_lt(a.0, b.0) {
        lemma_seq_lt_asymmetric(a.0, b.0);
    }
    if a.0 == b.0 && seq_lt(a.1, b.1) {
        lemma_seq_lt_asymmetric(a.1, b.1);
    }
}

proof fn lemma_key_lt_transitive(
    a: (Seq<char>, Seq<char>),
    b: (Seq<char>, Seq<char>),
    c: (Seq<char>, Seq<char>),
)
    requires
        key_lt(a, b),
        key_lt(b, c),
    ensures
        key_lt(a, c),
{
    if seq_lt(a.0, b.0) && seq_lt(b.0, c.0) {
        lemma_seq_lt_transitive(a.0, b.0, c.0);
    }
    if a.0 == b.0 && seq_lt(a.1, b.1) && b.0 == c.0 && seq_lt(b.1, c.1) {
        lemma_seq_lt_transitive(a.1, b.1, c.1);
    }
}

/// Groups cells by scope and kind.
#[derive(Clone, Copy, Debug, Default)]
pub struct ScopeKindClusterer;

impl PageClusterer for ScopeKindClusterer {
    open spec fn clusters(&self, cells: Seq<MemoryCell>, groups: Seq<Seq<MemoryCell>>) -> bool {
        scope_kind_groups(cells, groups)
    }

    fn cluster_cells(&self, cells: &[MemoryCell]) -> (out: Vec<Vec<MemoryCell>>)
        ensures
            scope_kind_groups(cells@, vec_views(out@)),
            flatten_seqs(vec_views(out@)).len() == cells@.len(),
    {
        group_by_scope_kind(cells)
    }
}

/// The grouping of `cells` by scope and kind (see `scope_kind_groups`).
#[verifier::spinoff_prover]
#[verifier::rlimit(40)]
pub fn group_by_scope_kind(cells: &[MemoryCell]) -> (out: Vec<Vec<MemoryCell>>)
    ensures
        scope_kind_groups(cells@, vec_views(out@)),
        flatten_seqs(vec_views(out@)).len() == cells@.len(),
        id_bag(vec_views(out@)) == cell_ids(cells@).to_multiset(),
{
    let mut groups: Vec<Vec<MemoryCell>> = Vec::new();
    let mut i: usize = 0;
    proof {
        assert(cells@.take(0) =~= Seq::<MemoryCell>::empty());
        assert(vec_views(groups@) =~= Seq::<Seq<MemoryCell>>::empty());
        assert(cell_ids(cells@.take(0)) =~= Seq::<CellId>::empty());
        broadcast use vstd::seq_lib::group_to_multiset_ensures;
    }
    while i < cells.len()
        invariant
            i <= cells@.len(),
            scope_kind_groups(cells@.take(i as int), vec_views(groups@)),
            flatten_seqs(vec_views(groups@)).len() == i,
            id_bag(vec_views(groups@)) == cell_ids(cells@.take(i as int)).to_multiset(),
        decreases cells@.len() - i,
    {
        let ghost gs = vec_views(groups@);
        let ghost prefix = cells@.take(i as int);
        let ghost next = cells@.take(i + 1);
        let ghost k = cell_key(cells@[i as int]);
        proof {
            assert(next.drop_last() =~= prefix);
            assert(next.last() == cells@[i as int]);
            assert forall|k2: (Seq<char>, Seq<char>)| k2 != k implies #[trigger] with_key(next, k2)
                == with_key(prefix, k2) by {}
            assert(with_key(next, k) == with_key(prefix, k).push(cells@[i as int]));
        }
        let mut p: usize = 0;
        proof {
            assert forall|g: int| 0 <= g < groups@.len() implies #[trigger] groups@[g]@.len() > 0 by {
                assert(gs[g] == groups@[g]@);
            }
        }
        while p < groups.len() && key_less(&groups[p][0], &cells[i])
            invariant
                p <= groups@.len(),
                gs == vec_views(groups@),
                forall|g: int| 0 <= g < gs.len() ==> #[trigger] gs[g].len() > 0,
                forall|g: int| 0 <= g < groups@.len() ==> #[trigger] groups@[g]@.len() > 0,
                i < cells@.len(),
                forall|g: int| 0 <= g < p ==> key_lt(group_key(#[trigger] gs[g]), k),
                k == cell_key(cells@[i as int]),
            decreases groups@.len() - p,
        {
            proof {
                assert(gs[p as int] == groups@[p as int]@);
                assert(groups@[p as int]@[0] == groups@[p as int][0]);
            }
            p += 1;
        }
        proof {
            if p < groups@.len() {
                assert(gs[p as int] == groups@[p as int]@);
            }
        }
        let copy = cells[i].clone();
        let found = p < groups.len() && key_equal(&groups[p][0], &cells[i]);
        if found {
            let mut group = groups.remove(p);
            group.push(copy);
            groups.insert(p, group);
            let ghost gs2 = vec_views(groups@);
            proof {
                assert(gs2 =~= gs.update(p as int, gs[p as int].push(copy)));
                lemma_flatten_len_update(gs, p as int, gs[p as int].push(copy));
                lemma_id_bag_push_cell(gs, p as int, copy);
                assert(group_key(gs2[p as int]) == group_key(gs[p as int]));
                assert forall|g: int| 0 <= g < gs2.len() implies copies(
                    #[trigger] gs2[g],
                    with_key(next, group_key(gs2[g])),
                ) by {
                    if g == p {
                        assert(group_key(gs2[g]) == k);
                        assert(gs2[g] =~= gs[g].push(copy));
                    } else {
                        assert(gs2[g] == gs[g]);
                        assert(group_key(gs[g]) != k) by {
                            if g < p {
                                lemma_key_order(group_key(gs[g]), k);
                            } else {
                                assert(key_lt(group_key(gs[p as int]), group_key(gs[g])));
                                lemma_key_order(k, group_key(gs[g]));
                            }
                        }
                    }
                }
                assert forall|g: int, h: int| 0 <= g < h < gs2.len() implies key_lt(
                    group_key(#[trigger] gs2[g]),
                    group_key(#[trigger] gs2[h]),
                ) by {
                    assert(group_key(gs2[g]) == group_key(gs[g]));
                    assert(group_key(gs2[h]) == group_key(gs[h]));
                }
                assert forall|k2: (Seq<char>, Seq<char>)|
                    (forall|g: int| 0 <= g < gs2.len() ==> group_key(#[trigger] gs2[g]) != k2) implies #[trigger] with_key(
                    next,
                    k2,
                ).len() == 0 by {
                    assert(group_key(gs2[p as int]) != k2);
                    assert forall|g: int| 0 <= g < gs.len() implies group_key(#[trigger] gs[g]) != k2 by {
                        assert(group_key(gs2[g]) == group_key(gs[g]));
                    }
                }
                assert forall|g: int| 0 <= g < gs2.len() implies #[trigger] gs2[g].len() > 0 by {
                    assert(gs2[g].len() >= gs[g].len());
                }
            }
        } else {
            let mut fresh: Vec<MemoryCell> = Vec::new();
            fresh.push(copy);
            proof {
                assert(fresh@ =~= seq![copy]);
            }
            groups.insert(p, fresh);
            let ghost gs2 = vec_views(groups@);
            proof {
                assert(gs2 =~= gs.insert(p as int, seq![copy]));
                lemma_flatten_len_insert(gs, p as int, seq![copy]);
                lemma_id_bag_insert_group(gs, p as int, copy);
                assert(group_key(gs2[p as int]) == k);
                assert forall|g: int| 0 <= g < gs.len() implies group_key(#[trigger] gs[g]) != k by {
                    if g < p {
                        lemma_key_order(group_key(gs[g]), k);
                    } else if g == p {
                        lemma_key_order(group_key(gs[g]), k);
                    } else {
                        lemma_key_order(k, group_key(gs[p as int]));
                        lemma_key_order(group_key(gs[p as int]), k);
                        lemma_key_lt_transitive(k, group_key(gs[p as int]), group_key(gs[g]));
                        lemma_key_order(k, group_key(gs[g]));
                    }
                }
                assert(with_key(prefix, k).len() == 0);
                assert(with_key(next, k) =~= seq![cells@[i as int]]);
                assert forall|g: int| 0 <= g < gs2.len() implies copies(
                    #[trigger] gs2[g],
                    with_key(next, group_key(gs2[g])),
                ) by {
                    if g < p {
                        assert(gs2[g] == gs[g]);
                    } else if g > p {
                        assert(gs2[g] == gs[g - 1]);
                    }
                }
                assert forall|g: int, h: int| 0 <= g < h < gs2.len() implies key_lt(
                    group_key(#[trigger] gs2[g]),
                    group_key(#[trigger] gs2[h]),
                ) by {
                    if p < gs.len() {
                        lemma_key_order(k, group_key(gs[p as int]));
                        lemma_key_order(group_key(gs[p as int]), k);
                    }
                    if g < p && h == p {
                    } else if g == p && h > p {
                        assert(gs2[h] == gs[h - 1]);
                        if h - 1 > p {
                            lemma_key_lt_transitive(k, group_key(gs[p as int]), group_key(gs[h - 1]));
                        }
                    } else if g < p && h > p {
                        assert(gs2[h] == gs[h - 1]);
                    } else if g > p {
                        assert(gs2[g] == gs[g - 1]);
                        assert(gs2[h] == gs[h - 1]);
                    }
                }
                assert forall|k2: (Seq<char>, Seq<char>)|
                    (forall|g: int| 0 <= g < gs2.len() ==> group_key(#[trigger] gs2[g]) != k2) implies #[trigger] with_key(
                    next,
                    k2,
                ).len() == 0 by {
                    assert(group_key(gs2[p as int]) != k2);
                    assert forall|g: int| 0 <= g < gs.len() implies group_key(#[trigger] gs[g]) != k2 by {
                        if g < p {
                            assert(gs2[g] == gs[g]);
                        } else {
                            assert(gs2[g + 1] == gs[g]);
                        }
                    }
                }
                assert forall|g: int| 0 <= g < gs2.len() implies #[trigger] gs2[g].len() > 0 by {
                    if g < p {
                        assert(gs2[g] == gs[g]);
                    } else if g > p {
                        assert(gs2[g] == gs[g - 1]);
                    }
                }
            }
        }
        proof {
            broadcast use vstd::seq_lib::group_to_multiset_ensures;
            assert(cell_ids(cells@.take(i + 1)) =~= cell_ids(cells@.take(i as int)).push(cells@[i as int].id));
        }
        i += 1;
    }
    proof {
        assert(cells@.take(cells@.len() as int) =~= cells@);
    }
    groups
}

// ---------------------------------------------------------------------------
// Marker-overlap clustering
// ---------------------------------------------------------------------------

/// The position a cell with id `id` takes in a sequence sorted by id, after
/// every cell whose id is not greater (the first position from `i` on whose
/// cell has a greater id, or the end).
pub open spec fn upper_pos(s: Seq<MemoryCell>, id: u64, i: int) -> int
    decreases s.len() - i,
{
    if i >= s.len() || i < 0 {
        s.len() as int
    } else if s[i].id > id {
        i
    } else {
        upper_pos(s, id, i + 1)
    }
}

/// Stable sort by cell id: each cell, in input order, is placed after every
/// cell placed before it whose id is not greater.
pub open spec fn sort_by_id(s: Seq<MemoryCell>) -> Seq<MemoryCell>
    decreases s.len(),
{
    if s.len() == 0 {
        Seq::empty()
    } else {
        let sorted = sort_by_id(s.drop_last());
        sorted.insert(upper_pos(sorted, s.last().id, 0), s.last())
    }
}

proof fn lemma_upper_pos_bounds(s: Seq<MemoryCell>, id: u64, i: int)
    requires
        0 <= i <= s.len(),
    ensures
        i <= upper_pos(s, id, i) <= s.len(),
    decreases s.len() - i,
{
    if i < s.len() && s[i].id <= id {
        lemma_upper_pos_bounds(s, id, i + 1);
    }
}

proof fn lemma_sort_by_id_len(s: Seq<MemoryCell>)
    ensures
        sort_by_id(s).len() == s.len(),
    decreases s.len(),
{
    if s.len() > 0 {
        lemma_sort_by_id_len(s.drop_last());
        lemma_upper_pos_bounds(sort_by_id(s.drop_last()), s.last().id, 0);
    }
}

/// Sorts a group by cell id, keeping the input order among equal ids.
fn sort_cells_by_id(group: Vec<MemoryCell>) -> (out: Vec<MemoryCell>)
    ensures
        out@ == sort_by_id(group@),
{
    let ghost cells = group@;
    let n = group.len();
    let mut rest = reversed(group);
    let mut sorted: Vec<MemoryCell> = Vec::new();
    let mut i: usize = 0;
    proof {
        assert(cells.take(0) =~= Seq::<MemoryCell>::empty());
        assert(cells.skip(0) =~= cells);
    }
    while i < n
        invariant
            n == cells.len(),
            i <= n,
            rest@ == cells.skip(i as int).reverse(),
            sorted@ == sort_by_id(cells.take(i as int)),
        decreases n - i,
    {
        proof {
            assert(rest@.last() == cells[i as int]);
        }
        let cell = rest.pop().unwrap();
        let id = cell.id;
        let mut j: usize = 0;
        proof {
            lemma_sort_by_id_len(cells.take(i as int));
            lemma_upper_pos_bounds(sorted@, id, 0);
        }
        while j < sorted.len() && sorted[j].id <= id
            invariant
                j <= sorted@.len(),
                upper_pos(sorted@, id, 0) == upper_pos(sorted@, id, j as int),
            decreases sorted@.len() - j,
        {
            j += 1;
        }
        let ghost before = sorted@;
        sorted.insert(j, cell);
        proof {
            assert(cells.take(i + 1).drop_last() =~= cells.take(i as int));
            assert(cells.take(i + 1).last() == cells[i as int]);
            assert(upper_pos(before, id, j as int) == j);
            assert(rest@ =~= cells.skip(i + 1).reverse());
        }
        i += 1;
    }
    proof {
        assert(cells.take(n as int) =~= cells);
    }
    sorted
}

/// How many markers of `ms` a cluster already holds.
pub open spec fn overlap_of(ms: Set<MarkerId>, cluster: (Set<MarkerId>, Seq<MemoryCell>)) -> nat {
    ms.intersect(cluster.0).len()
}

/// The cluster (among the first `m`) with the greatest overlap, the last one
/// among equals; -1 when there is none.
pub open spec fn best_cluster(
    clusters: Seq<(Set<MarkerId>, Seq<MemoryCell>)>,
    ms: Set<MarkerId>,
    m: int,
) -> int
    decreases m,
{
    if m <= 0 {
        -1
    } else {
        let b = best_cluster(clusters, ms, m - 1);
        if b < 0 || overlap_of(ms, clusters[m - 1]) >= overlap_of(ms, clusters[b]) {
            m - 1
        } else {
            b
        }
    }
}

/// One step of greedy clustering: a cell joins the best cluster when it
/// shares at least `min_overlap` markers with it, and starts a new cluster
/// otherwise.
pub open spec fn overlap_step(
    clusters: Seq<(Set<MarkerId>, Seq<MemoryCell>)>,
    cell: MemoryCell,
    min_overlap: usize,
) -> Seq<(Set<MarkerId>, Seq<MemoryCell>)> {
    let ms = cell_marker_set(cell);
    let b = best_cluster(clusters, ms, clusters.len() as int);
    if b >= 0 && overlap_of(ms, clusters[b]) >= min_overlap {
        clusters.update(b, (clusters[b].0.union(ms), clusters[b].1.push(cell)))
    } else {
        clusters.push((ms, seq![cell]))
    }
}

/// The clusters after the first `n` cells.
pub open spec fn overlap_run(cells: Seq<MemoryCell>, min_overlap: usize, n: int) -> Seq<
    (Set<MarkerId>, Seq<MemoryCell>),
>
    decreases n,
{
    if n <= 0 {
        Seq::empty()
    } else {
        overlap_step(overlap_run(cells, min_overlap, n - 1), cells[n - 1], min_overlap)
    }
}

/// The cell groups of the greedy clustering of one group sorted by id.
pub open spec fn overlap_clusters(group: Seq<MemoryCell>, min_overlap: usize) -> Seq<Seq<MemoryCell>> {
    let sorted = sort_by_id(group);
    cluster_members(overlap_run(sorted, min_overlap, sorted.len() as int))
}

/// The cells of each cluster.
pub open spec fn cluster_members(clusters: Seq<(Set<MarkerId>, Seq<MemoryCell>)>) -> Seq<
    Seq<MemoryCell>,
> {
    clusters.map_values(|c: (Set<MarkerId>, Seq<MemoryCell>)| c.1)
}

/// The clusters of every group, group after group.
pub open spec fn overlap_all(groups: Seq<Seq<MemoryCell>>, min_overlap: usize) -> Seq<Seq<MemoryCell>>
    decreases groups.len(),
{
    if groups.len() == 0 {
        Seq::empty()
    } else {
        overlap_all(groups.drop_last(), min_overlap) + overlap_clusters(groups.last(), min_overlap)
    }
}

proof fn lemma_best_cluster_range(clusters: Seq<(Set<MarkerId>, Seq<MemoryCell>)>, ms: Set<MarkerId>, m: int)
    requires
        0 <= m,
    ensures
        -1 <= best_cluster(clusters, ms, m) < m,
    decreases m,
{
    if m > 0 {
        lemma_best_cluster_range(clusters, ms, m - 1);
    }
}

proof fn lemma_overlap_run_bag(cells: Seq<MemoryCell>, min_overlap: usize, n: int)
    requires
        0 <= n <= cells.len(),
    ensures
        id_bag(cluster_members(overlap_run(cells, min_overlap, n))) == cell_ids(cells.take(n)).to_multiset(),
    decreases n,
{
    broadcast use vstd::seq_lib::group_to_multiset_ensures;
    if n == 0 {
        assert(cluster_members(overlap_run(cells, min_overlap, n)) =~= Seq::<Seq<MemoryCell>>::empty());
        assert(cell_ids(cells.take(0)) =~= Seq::<CellId>::empty());
    } else {
        lemma_overlap_run_bag(cells, min_overlap, n - 1);
        let cl = overlap_run(cells, min_overlap, n - 1);
        let c = cells[n - 1];
        let ms = cell_marker_set(c);
        let b = best_cluster(cl, ms, cl.len() as int);
        lemma_best_cluster_range(cl, ms, cl.len() as int);
        let mem = cluster_members(cl);
        if b >= 0 && overlap_of(ms, cl[b]) >= min_overlap {
            assert(cluster_members(overlap_run(cells, min_overlap, n)) =~= mem.update(b, mem[b].push(c)));
            lemma_id_bag_push_cell(mem, b, c);
        } else {
            assert(cluster_members(overlap_run(cells, min_overlap, n)) =~= mem.insert(mem.len() as int, seq![c]));
            lemma_id_bag_insert_group(mem, mem.len() as int, c);
        }
        assert(cell_ids(cells.take(n)) =~= cell_ids(cells.take(n - 1)).push(c.id));
    }
}

proof fn lemma_sort_by_id_bag(s: Seq<MemoryCell>)
    ensures
        cell_ids(sort_by_id(s)).to_multiset() == cell_ids(s).to_multiset(),
    decreases s.len(),
{
    broadcast use vstd::seq_lib::group_to_multiset_ensures;
    if s.len() == 0 {
        assert(cell_ids(sort_by_id(s)) =~= cell_ids(s));
    } else {
        lemma_sort_by_id_bag(s.drop_last());
        let sorted = sort_by_id(s.drop_last());
        let pos = upper_pos(sorted, s.last().id, 0);
        lemma_upper_pos_bounds(sorted, s.last().id, 0);
        assert(cell_ids(sort_by_id(s)) =~= cell_ids(sorted).insert(pos, s.last().id));
        vstd::seq_lib::to_multiset_insert(cell_ids(sorted), pos, s.last().id);
        assert(cell_ids(s) =~= cell_ids(s.drop_last()).push(s.last().id));
    }
}

/// Clustering by marker overlap keeps every cell id, as often as it occurs.
proof fn lemma_overlap_all_bag(gs: Seq<Seq<MemoryCell>>, min_overlap: usize)
    ensures
        id_bag(overlap_all(gs, min_overlap)) == id_bag(gs),
    decreases gs.len(),
{
    if gs.len() > 0 {
        lemma_overlap_all_bag(gs.drop_last(), min_overlap);
        let g = gs.last();
        let sorted = sort_by_id(g);
        lemma_sort_by_id_len(g);
        lemma_overlap_run_bag(sorted, min_overlap, sorted.len() as int);
        assert(sorted.take(sorted.len() as int) =~= sorted);
        lemma_sort_by_id_bag(g);
        lemma_id_bag_concat(overlap_all(gs.drop_last(), min_overlap), overlap_clusters(g, min_overlap));
    }
}

proof fn lemma_count_in_intersect(a: Seq<MarkerId>, s: Set<MarkerId>)
    requires
        strictly_increasing32(a),
    ensures
        crate::retrieval::count_in(a, s) == a.to_set().intersect(s).len(),
    decreases a.len(),
{
    if a.len() == 0 {
        assert(a.to_set().intersect(s) =~= Set::<MarkerId>::empty());
    } else {
        let d = a.drop_last();
        let x = a.last();
        lemma_count_in_intersect(d, s);
        crate::idset::lemma_push_to_set32(d, x);
        assert(d.push(x) =~= a);
        assert(!d.to_set().contains(x)) by {
            if d.to_set().contains(x) {
                let k = choose|k: int| 0 <= k < d.len() && d[k] == x;
                assert(a[k] < a[a.len() - 1]);
            }
        }
        let dd = d.to_set().intersect(s);
        vstd::seq_lib::seq_to_set_is_finite(d);
        vstd::set::axiom_set_intersect_finite(d.to_set(), s);
        assert(!dd.contains(x));
        if s.contains(x) {
            assert(a.to_set().intersect(s) =~= dd.insert(x));
            vstd::set::axiom_set_insert_len(dd, x);
        } else {
            assert(a.to_set().intersect(s) =~= dd);
        }
    }
}

/// The clusters held as parallel marker lists and cell lists.
pub open spec fn cluster_state(sets: Seq<Vec<MarkerId>>, members: Seq<Vec<MemoryCell>>) -> Seq<
    (Set<MarkerId>, Seq<MemoryCell>),
> {
    Seq::new(members.len(), |c: int| (sets[c]@.to_set(), members[c]@))
}

/// How many ids of `ids` occur in `set`.
fn count_contained(ids: &Vec<MarkerId>, set: &Vec<MarkerId>) -> (r: usize)
    ensures
        r == crate::retrieval::count_in(ids@, set@.to_set()),
{
    let mut r: usize = 0;
    let mut i: usize = 0;
    while i < ids.len()
        invariant
            i <= ids.len(),
            r == crate::retrieval::count_in(ids@.take(i as int), set@.to_set()),
            r <= i,
        decreases ids.len() - i,
    {
        let mut found = false;
        let mut k: usize = 0;
        while k < set.len()
            invariant
                k <= set.len(),
                i < ids.len(),
                found == exists|q: int| 0 <= q < k && set@[q] == ids@[i as int],
            decreases set.len() - k,
        {
            if set[k] == ids[i] {
                found = true;
            }
            k += 1;
        }
        proof {
            assert(ids@.take(i + 1).drop_last() =~= ids@.take(i as int));
            assert(ids@.take(i + 1).last() == ids@[i as int]);
            if set@.to_set().contains(ids@[i as int]) {
                let q = choose|q: int| 0 <= q < set@.len() && set@[q] == ids@[i as int];
            }
        }
        if found {
            r += 1;
        }
        i += 1;
    }
    proof {
        assert(ids@.take(i as int) =~= ids@);
    }
    r
}

/// Greedy marker-overlap clustering of a group already sorted by id.
fn cluster_sorted_group(sorted: Vec<MemoryCell>, min_overlap: usize) -> (out: Vec<Vec<MemoryCell>>)
    ensures
        vec_views(out@) == cluster_members(overlap_run(sorted@, min_overlap, sorted@.len() as int)),
        flatten_seqs(vec_views(out@)).len() == sorted@.len(),
{
    let ghost cells = sorted@;
    let n = sorted.len();
    let mut rest = reversed(sorted);
    let mut sets: Vec<Vec<MarkerId>> = Vec::new();
    let mut members: Vec<Vec<MemoryCell>> = Vec::new();
    let mut i: usize = 0;
    proof {
        assert(cells.skip(0) =~= cells);
        assert(cluster_state(sets@, members@) =~= overlap_run(cells, min_overlap, 0));
        assert(vec_views(members@) =~= Seq::<Seq<MemoryCell>>::empty());
    }
    while i < n
        invariant
            n == cells.len(),
            i <= n,
            rest@ == cells.skip(i as int).reverse(),
            sets@.len() == members@.len(),
            forall|c: int| 0 <= c < sets@.len() ==> strictly_increasing32(#[trigger] sets@[c]@),
            cluster_state(sets@, members@) == overlap_run(cells, min_overlap, i as int),
            flatten_seqs(vec_views(members@)).len() == i,
        decreases n - i,
    {
        proof {
            assert(rest@.last() == cells[i as int]);
        }
        let cell = rest.pop().unwrap();
        proof {
            assert(rest@ =~= cells.skip(i + 1).reverse());
        }
        let ids = cell.marker_ids_for_indexing();
        let ghost st = cluster_state(sets@, members@);
        let ghost ms = cell_marker_set(cell);
        let mut best: usize = 0;
        let mut best_overlap: usize = 0;
        let mut has_best = false;
        let mut c: usize = 0;
        while c < sets.len()
            invariant
                c <= sets@.len(),
                sets@.len() == members@.len(),
                st == cluster_state(sets@, members@),
                forall|q: int| 0 <= q < sets@.len() ==> strictly_increasing32(#[trigger] sets@[q]@),
                strictly_increasing32(ids@),
                ids@.to_set() == ms,
                has_best == (c > 0),
                has_best ==> best < c && best_cluster(st, ms, c as int) == best && best_overlap
                    == overlap_of(ms, st[best as int]),
                !has_best ==> best_cluster(st, ms, c as int) == -1,
            decreases sets@.len() - c,
        {
            let ov = count_contained(&ids, &sets[c]);
            proof {
                lemma_count_in_intersect(ids@, sets@[c as int]@.to_set());
                assert(st[c as int].0 == sets@[c as int]@.to_set());
                assert(ov == overlap_of(ms, st[c as int]));
            }
            if !has_best || ov >= best_overlap {
                best = c;
                best_overlap = ov;
                has_best = true;
            }
            c += 1;
        }
        let ghost next = overlap_run(cells, min_overlap, i + 1);
        proof {
            assert(next == overlap_step(st, cells[i as int], min_overlap));
            assert(cells[i as int] == cell);
        }
        if has_best && best_overlap >= min_overlap {
            let ghost mv = vec_views(members@);
            let mut set = sets.remove(best);
            let mut group = members.remove(best);
            let ghost old_set = set@.to_set();
            let mut k: usize = 0;
            while k < ids.len()
                invariant
                    k <= ids.len(),
                    strictly_increasing32(set@),
                    set@.to_set() == old_set.union(ids@.take(k as int).to_set()),
                decreases ids.len() - k,
            {
                set_insert32(&mut set, ids[k]);
                proof {
                    assert(ids@.take(k + 1) =~= ids@.take(k as int).push(ids@[k as int]));
                    crate::idset::lemma_push_to_set32(ids@.take(k as int), ids@[k as int]);
                    assert(set@.to_set() =~= old_set.union(ids@.take(k + 1).to_set()));
                }
                k += 1;
            }
            proof {
                assert(ids@.take(k as int) =~= ids@);
            }
            group.push(cell);
            sets.insert(best, set);
            members.insert(best, group);
            proof {
                assert(cluster_state(sets@, members@) =~= next);
                assert(vec_views(members@) =~= mv.update(best as int, mv[best as int].push(cell)));
                lemma_flatten_len_update(mv, best as int, mv[best as int].push(cell));
            }
        } else {
            let ghost mv = vec_views(members@);
            sets.push(ids);
            let mut fresh: Vec<MemoryCell> = Vec::new();
            fresh.push(cell);
            proof {
                assert(fresh@ =~= seq![cell]);
            }
            members.push(fresh);
            proof {
                assert(cluster_state(sets@, members@) =~= next);
                assert(vec_views(members@) =~= mv.push(seq![cell]));
                lemma_flatten_push(mv, seq![cell]);
            }
        }
        i += 1;
    }
    proof {
        assert(vec_views(members@) =~= cluster_members(cluster_state(sets@, members@)));
    }
    members
}

/// Clusters each group by marker overlap, group after group.
pub fn cluster_groups_by_marker_overlap(groups: Vec<Vec<MemoryCell>>, min_overlap: usize) -> (out: Vec<
    Vec<MemoryCell>,
>)
    ensures
        vec_views(out@) == overlap_all(vec_views(groups@), min_overlap),
        flatten_seqs(vec_views(out@)).len() == flatten_seqs(vec_views(groups@)).len(),
{
    let ghost gs = vec_views(groups@);
    let ng = groups.len();
    let mut rest = reversed(groups);
    let mut out: Vec<Vec<MemoryCell>> = Vec::new();
    let mut g: usize = 0;
    proof {
        assert(gs.skip(0) =~= gs);
        assert(gs.take(0) =~= Seq::<Seq<MemoryCell>>::empty());
        assert(vec_views(out@) =~= overlap_all(gs.take(0), min_overlap));
    }
    while g < ng
        invariant
            ng == gs.len(),
            g <= ng,
            vec_views(rest@) == gs.skip(g as int).reverse(),
            vec_views(out@) == overlap_all(gs.take(g as int), min_overlap),
            flatten_seqs(vec_views(out@)).len() == flatten_seqs(gs.take(g as int)).len(),
        decreases ng - g,
    {
        let ghost old_rest = rest@;
        proof {
            assert(vec_views(rest@).len() == rest@.len());
            assert(vec_views(rest@).last() == gs[g as int]);
        }
        let group = rest.pop().unwrap();
        proof {
            assert(rest@ =~= old_rest.drop_last());
            assert(vec_views(rest@) =~= vec_views(old_rest).drop_last());
            assert(vec_views(rest@) =~= gs.skip(g + 1).reverse());
        }
        let sorted = sort_cells_by_id(group);
        let mut clusters = cluster_sorted_group(sorted, min_overlap);
        let ghost before = vec_views(out@);
        let ghost added = vec_views(clusters@);
        out.append(&mut clusters);
        proof {
            assert(vec_views(out@) =~= before + added);
            assert(gs.take(g + 1).drop_last() =~= gs.take(g as int));
            assert(gs.take(g + 1).last() == gs[g as int]);
            lemma_sort_by_id_len(gs[g as int]);
            lemma_flatten_len_add(before, added);
            lemma_flatten_push(gs.take(g as int), gs[g as int]);
        }
        g += 1;
    }
    proof {
        assert(gs.take(ng as int) =~= gs);
    }
    out
}

/// Groups cells by scope and kind, then within each group (in id order)
/// gathers cells that share at least `min_overlap` markers.
#[derive(Clone, Copy, Debug)]
pub struct MarkerOverlapClusterer {
    pub min_overlap: usize,
}

impl Default for MarkerOverlapClusterer {
    /// A minimum overlap of four markers.
    fn default() -> (c: Self)
        ensures
            c.min_overlap == 4,
    {
        MarkerOverlapClusterer { min_overlap: 4 }
    }
}

impl MarkerOverlapClusterer {
    pub fn new(min_overlap: usize) -> (c: Self)
        ensures
            c.min_overlap == min_overlap,
    {
        MarkerOverlapClusterer { min_overlap }
    }
}

impl PageClusterer for MarkerOverlapClusterer {
    open spec fn clusters(&self, cells: Seq<MemoryCell>, groups: Seq<Seq<MemoryCell>>) -> bool {
        exists|base: Seq<Seq<MemoryCell>>|
            scope_kind_groups(cells, base) && groups == overlap_all(base, self.min_overlap)
    }

    fn cluster_cells(&self, cells: &[MemoryCell]) -> (out: Vec<Vec<MemoryCell>>)
        ensures
            flatten_seqs(vec_views(out@)).len() == cells@.len(),
            exists|base: Seq<Seq<MemoryCell>>|
                scope_kind_groups(cells@, base) && vec_views(out@) == overlap_all(
                    base,
                    self.min_overlap,
                ),
    {
        let base = group_by_scope_kind(cells);
        let ghost b = vec_views(base@);
        let out = cluster_groups_by_marker_overlap(base, self.min_overlap);
        proof {
            assert(scope_kind_groups(cells@, b) && vec_views(out@) == overlap_all(b, self.min_overlap));
            lemma_overlap_all_bag(b, self.min_overlap);
        }
        out
    }
}

// ---------------------------------------------------------------------------
// Building pages from cells
// ---------------------------------------------------------------------------

/// `sizes[g][i]` is what `cell_bytes` gave for `groups[g][i]`.
pub open spec fn measured<F: Fn(&MemoryCell) -> usize>(
    groups: Seq<Seq<MemoryCell>>,
    sizes: Seq<Seq<usize>>,
    cell_bytes: F,
) -> bool {
    &&& sizes.len() == groups.len()
    &&& forall|g: int| 0 <= g < groups.len() ==> #[trigger] sizes[g].len() == groups[g].len()
    &&& forall|g: int, i: int|
        0 <= g < groups.len() && 0 <= i < groups[g].len() ==> call_ensures(
            cell_bytes,
            (&groups[g][i],),
            #[trigger] sizes[g][i],
        )
}

/// `pages` are the pages holding `chunks`, numbered from `start`.
pub open spec fn pages_built(pages: Seq<MemoryPage>, start: int, chunks: Seq<Seq<MemoryCell>>) -> bool {
    &&& pages.len() == chunks.len()
    &&& forall|i: int| 0 <= i < pages.len() ==> page_holds(#[trigger] pages[i], start + i, chunks[i])
}

fn measure_groups<F: Fn(&MemoryCell) -> usize>(groups: &Vec<Vec<MemoryCell>>, cell_bytes: &F) -> (sizes:
    Vec<Vec<usize>>)
    requires
        forall|c: MemoryCell| call_requires(*cell_bytes, (&c,)),
    ensures
        measured(vec_views(groups@), vec_views(sizes@), *cell_bytes),
{
    let mut sizes: Vec<Vec<usize>> = Vec::new();
    let mut g: usize = 0;
    while g < groups.len()
        invariant
            g <= groups@.len(),
            forall|c: MemoryCell| call_requires(*cell_bytes, (&c,)),
            sizes@.len() == g,
            forall|h: int| 0 <= h < g ==> #[trigger] sizes@[h]@.len() == groups@[h]@.len(),
            forall|h: int, i: int|
                0 <= h < g && 0 <= i < groups@[h]@.len() ==> call_ensures(
                    *cell_bytes,
                    (&groups@[h]@[i],),
                    #[trigger] sizes@[h]@[i],
                ),
        decreases groups@.len() - g,
    {
        let mut row: Vec<usize> = Vec::new();
        let mut i: usize = 0;
        while i < groups[g].len()
            invariant
                g < groups@.len(),
                i <= groups@[g as int]@.len(),
                forall|c: MemoryCell| call_requires(*cell_bytes, (&c,)),
                row@.len() == i,
                forall|k: int|
                    0 <= k < i ==> call_ensures(
                        *cell_bytes,
                        (&groups@[g as int]@[k],),
                        #[trigger] row@[k],
                    ),
            decreases groups@[g as int]@.len() - i,
        {
            let b = cell_bytes(&groups[g][i]);
            row.push(b);
            i += 1;
        }
        sizes.push(row);
        g += 1;
    }
    proof {
        let gv = vec_views(groups@);
        let sv = vec_views(sizes@);
        assert forall|h: int| 0 <= h < gv.len() implies #[trigger] sv[h].len() == gv[h].len() by {
            assert(sv[h] == sizes@[h]@);
            assert(gv[h] == groups@[h]@);
        }
        assert forall|h: int, i: int|
            0 <= h < gv.len() && 0 <= i < gv[h].len() implies call_ensures(
            *cell_bytes,
            (&gv[h][i],),
            #[trigger] sv[h][i],
        ) by {
            assert(sv[h] == sizes@[h]@);
            assert(gv[h] == groups@[h]@);
        }
    }
    sizes
}

/// Cuts already-clustered groups into pages, measuring each cell with
/// `cell_bytes` (its encoded size).
fn build_pages_measured<F: Fn(&MemoryCell) -> usize>(
    groups: Vec<Vec<MemoryCell>>,
    start_page_id: PageId,
    options: PageBuildOptions,
    cell_bytes: &F,
) -> (pages: Vec<MemoryPage>)
    requires
        forall|c: MemoryCell| call_requires(*cell_bytes, (&c,)),
        start_page_id + flatten_seqs(vec_views(groups@)).len() <= u64::MAX,
    ensures
        exists|sizes: Seq<Seq<usize>>|
            measured(vec_views(groups@), sizes, *cell_bytes) && pages_built(
                pages@,
                start_page_id as int,
                split_all(vec_views(groups@), sizes, options),
            ),
{
    let sizes = measure_groups(&groups, cell_bytes);
    let ghost gv = vec_views(groups@);
    let ghost sv = vec_views(sizes@);
    proof {
        assert forall|g: int| 0 <= g < groups@.len() implies #[trigger] sizes@[g].len()
            == groups@[g].len() by {
            assert(sv[g] == sizes@[g]@);
            assert(gv[g] == groups@[g]@);
        }
    }
    let pages = build_pages_from_groups(groups, sizes, start_page_id, options);
    proof {
        assert(measured(gv, sv, *cell_bytes) && pages_built(
            pages@,
            start_page_id as int,
            split_all(gv, sv, options),
        ));
    }
    pages
}

/// Clusters `cells` with `clusterer` and cuts the groups into pages numbered
/// from `start_page_id`; `cell_bytes` gives each cell's encoded size. The
/// groups are the clusterer's, and hold every cell id as often as `cells` does.
pub fn build_pages_with_clusterer<C: PageClusterer, F: Fn(&MemoryCell) -> usize>(
    cells: &[MemoryCell],
    start_page_id: PageId,
    clusterer: &C,
    options: PageBuildOptions,
    cell_bytes: &F,
) -> (pages: Vec<MemoryPage>)
    requires
        forall|c: MemoryCell| call_requires(*cell_bytes, (&c,)),
        start_page_id + cells@.len() <= u64::MAX,
    ensures
        exists|groups: Seq<Seq<MemoryCell>>, sizes: Seq<Seq<usize>>|
            clusterer.clusters(cells@, groups) && flatten_seqs(groups).len() == cells@.len()
                && id_bag(groups) == cell_ids(cells@).to_multiset() && measured(groups, sizes, *cell_bytes)
                && pages_built(pages@, start_page_id as int, split_all(groups, sizes, options)),
{
    let groups = clusterer.cluster_cells(cells);
    let ghost gv = vec_views(groups@);
    let pages = build_pages_measured(groups, start_page_id, options, cell_bytes);
    proof {
        let sizes = choose|sizes: Seq<Seq<usize>>|
            measured(gv, sizes, *cell_bytes) && pages_built(
                pages@,
                start_page_id as int,
                split_all(gv, sizes, options),
            );
        assert(clusterer.clusters(cells@, gv) && flatten_seqs(gv).len() == cells@.len()
            && id_bag(gv) == cell_ids(cells@).to_multiset() && measured(gv, sizes, *cell_bytes)
            && pages_built(pages@, start_page_id as int, split_all(gv, sizes, options)));
    }
    pages
}

/// The groups a clusterer kind forms from `cells`.
pub open spec fn clustered_by(kind: PageClustererKind, cells: Seq<MemoryCell>, groups: Seq<Seq<MemoryCell>>) -> bool {
    match kind {
        PageClustererKind::ScopeKind => scope_kind_groups(cells, groups),
        PageClustererKind::MarkerOverlap => exists|base: Seq<Seq<MemoryCell>>|
            scope_kind_groups(cells, base) && groups == overlap_all(base, 4),
    }
}

/// Builds pages from `cells` with the clusterer of `kind` (marker overlap
/// uses its default minimum of four shared markers).
pub fn build_pages_with_kind<F: Fn(&MemoryCell) -> usize>(
    cells: &[MemoryCell],
    start_page_id: PageId,
    kind: PageClustererKind,
    options: PageBuildOptions,
    cell_bytes: &F,
) -> (pages: Vec<MemoryPage>)
    requires
        forall|c: MemoryCell| call_requires(*cell_bytes, (&c,)),
        start_page_id + cells@.len() <= u64::MAX,
    ensures
        exists|groups: Seq<Seq<MemoryCell>>, sizes: Seq<Seq<usize>>|
            clustered_by(kind, cells@, groups) && measured(groups, sizes, *cell_bytes)
                && pages_built(pages@, start_page_id as int, split_all(groups, sizes, options)),
{
    let groups = match kind {
        PageClustererKind::ScopeKind => group_by_scope_kind(cells),
        PageClustererKind::MarkerOverlap => {
            let c = MarkerOverlapClusterer::default();
            c.cluster_cells(cells)
        },
    };
    let ghost gv = vec_views(groups@);
    let pages = build_pages_measured(groups, start_page_id, options, cell_bytes);
    proof {
        let sizes = choose|sizes: Seq<Seq<usize>>|
            measured(gv, sizes, *cell_bytes) && pages_built(
                pages@,
                start_page_id as int,
                split_all(gv, sizes, options),
            );
        assert(clustered_by(kind, cells@, gv) && measured(gv, sizes, *cell_bytes) && pages_built(
            pages@,
            start_page_id as int,
            split_all(gv, sizes, options),
        ));
    }
    pages
}

/// Builds pages grouped by scope and kind, with the default limits.
pub fn build_pages_from_cells<F: Fn(&MemoryCell) -> usize>(
    cells: &[MemoryCell],
    start_page_id: PageId,
    cell_bytes: &F,
) -> (pages: Vec<MemoryPage>)
    requires
        forall|c: MemoryCell| call_requires(*cell_bytes, (&c,)),
        start_page_id + cells@.len() <= u64::MAX,
    ensures
        exists|groups: Seq<Seq<MemoryCell>>, sizes: Seq<Seq<usize>>|
            scope_kind_groups(cells@, groups) && measured(groups, sizes, *cell_bytes)
                && pages_built(
                pages@,
                start_page_id as int,
                split_all(
                    groups,
                    sizes,
                    PageBuildOptions {
                        target_page_bytes: DEFAULT_TARGET_PAGE_BYTES,
                        max_cells_per_page: DEFAULT_MAX_CELLS_PER_PAGE,
                    },
                ),
            ),
{
    build_pages_with_kind(
        cells,
        start_page_id,
        PageClustererKind::ScopeKind,
        PageBuildOptions::default(),
        cell_bytes,
    )
}

/// The same as `build_pages_from_cells`.
pub fn build_pages_with_default_clusterer<F: Fn(&MemoryCell) -> usize>(
    cells: &[MemoryCell],
    start_page_id: PageId,
    cell_bytes: &F,
) -> (pages: Vec<MemoryPage>)
    requires
        forall|c: MemoryCell| call_requires(*cell_bytes, (&c,)),
        start_page_id + cells@.len() <= u64::MAX,
    ensures
        exists|groups: Seq<Seq<MemoryCell>>, sizes: Seq<Seq<usize>>|
            scope_kind_groups(cells@, groups) && measured(groups, sizes, *cell_bytes)
                && pages_built(
                pages@,
                start_page_id as int,
                split_all(
                    groups,
                    sizes,
                    PageBuildOptions {
                        target_page_bytes: DEFAULT_TARGET_PAGE_BYTES,
                        max_cells_per_page: DEFAULT_MAX_CELLS_PER_PAGE,
                    },
                ),
            ),
{
    build_pages_from_cells(cells, start_page_id, cell_bytes)
}

} // verus!

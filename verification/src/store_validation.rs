//! Validating a whole store from what was found in its files: the catalog,
//! the candidate index, the hot cells, each catalog page's file, the files of
//! the page and index directories, and the manifest's next ids.
use vstd::prelude::*;
use crate::errors::MgeError;
use crate::idset::{contains_id, set_insert, strictly_increasing};
use crate::indexes::{index_kind_name, CandidateIndexData, CandidatePageIndex, IndexKind};
use crate::marker_dictionary::{string_views_of, DictionaryView, MarkerDictionary};
use crate::models::{cell_marker_set, copy_cell_ids, CellId, MemoryCell, PageId};
use crate::pages::{MemoryPage, PageCatalog, PageCatalogEntry};
use crate::store::{
    is_known_index_file, string_views, ValidationReport, BINARY_FUSE_INDEX_FILE,
    EXACT_MARKER_INDEX_FILE, PAGE_CATALOG_FILE,
};
use crate::text::{chars_of, decimal, push_decimal_str, push_str, str_eq, string_from};
use crate::validation::{
    add_error, add_warning, all_link_errors, all_link_warnings, appended, catalog_ids,
    cell_link_errors, cell_link_warnings, cell_marker_errors, counted, index_errors, ordered_ids,
    page_errors, page_warnings, validate_candidate_index, validate_cell_links, validate_cell_markers,
    validate_page,
};

verus! {

// ---------------------------------------------------------------------------
// What was found
// ---------------------------------------------------------------------------

/// A page read from its file, with the outcome of checking its recorded
/// checksum against its canonical encoding.
#[derive(Debug)]
pub struct PageRead {
    pub page: MemoryPage,
    pub checksum_check: Result<bool, MgeError>,
}

/// What was found of one catalog entry's page file.
#[derive(Debug)]
pub enum PageFileCheck {
    /// There is no file at the entry's path (the path, as displayed).
    Missing(String),
    /// There is a file: its size (or why it could not be had), and the page
    /// read from it (or why it could not be read).
    Present { size: Result<u64, String>, read: Result<PageRead, String> },
}

/// What was found of the active candidate index file.
#[derive(Debug)]
pub enum IndexCheck {
    /// There is no file at its path (the path, as displayed).
    Missing(String),
    /// It could not be loaded (why).
    Failed(String),
    Loaded(CandidateIndexData),
}

/// Everything a validation looks at.
#[derive(Debug)]
pub struct StoreObservations {
    /// A deep validation counts a missing catalog and orphan page files as
    /// errors.
    pub deep: bool,
    pub manifest_index_kind: IndexKind,
    pub next_page_id: PageId,
    pub next_cell_id: CellId,
    /// The catalog's path, when its file is missing.
    pub catalog_missing: Option<String>,
    /// The catalog, or why it could not be loaded.
    pub catalog: Result<PageCatalog, String>,
    pub index: IndexCheck,
    /// Why the hot log could not be read, if it could not.
    pub hot_load_error: Option<String>,
    pub hot_cells: Vec<MemoryCell>,
    /// One per catalog entry, in catalog order.
    pub page_files: Vec<PageFileCheck>,
    /// The names of the files of the page directory.
    pub page_dir_files: Vec<String>,
    /// The names of the files of the index directory.
    pub index_dir_files: Vec<String>,
}

// ---------------------------------------------------------------------------
// What is reported
// ---------------------------------------------------------------------------

pub open spec fn ids_of(cells: Seq<MemoryCell>) -> Seq<CellId> {
    Seq::new(cells.len(), |i: int| cells[i].id)
}

/// The catalog entries that validation goes through: none when the catalog
/// could not be loaded.
pub open spec fn entries_of(obs: StoreObservations) -> Seq<PageCatalogEntry> {
    match obs.catalog {
        Ok(c) => c.pages@,
        Err(_) => Seq::empty(),
    }
}

/// The pages read, in catalog order.
pub open spec fn read_pages(files: Seq<PageFileCheck>) -> Seq<MemoryPage>
    decreases files.len(),
{
    if files.len() == 0 {
        Seq::empty()
    } else {
        read_pages(files.drop_last()) + match files.last() {
            PageFileCheck::Present { read: Ok(r), .. } => seq![r.page],
            _ => Seq::empty(),
        }
    }
}

/// The cells of the pages, page after page.
pub open spec fn sealed_cells(pages: Seq<MemoryPage>) -> Seq<MemoryCell>
    decreases pages.len(),
{
    if pages.len() == 0 {
        Seq::empty()
    } else {
        sealed_cells(pages.drop_last()) + pages.last().cells@
    }
}

pub open spec fn dup_err(prior: Seq<CellId>, id: CellId) -> Seq<Seq<char>> {
    if prior.contains(id) {
        seq!["duplicate cell id "@ + decimal(id as nat)]
    } else {
        Seq::empty()
    }
}

/// A duplicate-id error for each cell whose id came before, in `prior` or
/// earlier among `cells`.
pub open spec fn cells_dup_errs(prior: Seq<CellId>, cells: Seq<MemoryCell>) -> Seq<Seq<char>>
    decreases cells.len(),
{
    if cells.len() == 0 {
        Seq::empty()
    } else {
        cells_dup_errs(prior, cells.drop_last()) + dup_err(prior + ids_of(cells.drop_last()), cells.last().id)
    }
}

/// For each hot cell: a duplicate-id error, then its unknown markers.
pub open spec fn hot_errs(cells: Seq<MemoryCell>, d: DictionaryView) -> Seq<Seq<char>>
    decreases cells.len(),
{
    if cells.len() == 0 {
        Seq::empty()
    } else {
        let c = cells.last();
        hot_errs(cells.drop_last(), d) + dup_err(ids_of(cells.drop_last()), c.id) + cell_marker_errors(
            "hot cell"@,
            c,
            d,
            ordered_ids(cell_marker_set(c)),
        )
    }
}

pub open spec fn entry_files(entries: Seq<PageCatalogEntry>) -> Seq<Seq<char>> {
    Seq::new(entries.len(), |i: int| entries[i].file@)
}

/// The error for a file size that is not the one the catalog recorded.
pub open spec fn size_errs(e: PageCatalogEntry, size: Result<u64, String>) -> Seq<Seq<char>> {
    if e.encoded_size_bytes > 0 {
        match size {
            Ok(s) => if s != e.encoded_size_bytes {
                seq![
                    "catalog page "@ + decimal(e.page_id as nat) + " encoded_size_bytes "@ + decimal(
                        e.encoded_size_bytes as nat,
                    ) + " does not match file size "@ + decimal(s as nat),
                ]
            } else {
                Seq::empty()
            },
            Err(m) => seq!["page file metadata failed for page "@ + decimal(e.page_id as nat) + ": "@ + m@],
        }
    } else {
        Seq::empty()
    }
}

/// The errors of one catalog entry's file, given the cell ids seen before.
pub open spec fn file_errs(e: PageCatalogEntry, f: PageFileCheck, prior: Seq<CellId>, d: DictionaryView) -> Seq<
    Seq<char>,
> {
    match f {
        PageFileCheck::Missing(p) => seq!["missing page file for page "@ + decimal(e.page_id as nat) + ": "@ + p@],
        PageFileCheck::Present { size, read } => size_errs(e, size) + match read {
            Ok(r) => cells_dup_errs(prior, r.page.cells@) + page_errors(e, r.page, d, r.checksum_check),
            Err(m) => seq!["failed to read page "@ + decimal(e.page_id as nat) + ": "@ + m@],
        },
    }
}

/// For each of the first `n` catalog entries: a repeated page id, a repeated
/// file, and the errors of its file.
pub open spec fn entries_errs(
    entries: Seq<PageCatalogEntry>,
    files: Seq<PageFileCheck>,
    hot_ids: Seq<CellId>,
    d: DictionaryView,
    n: int,
) -> Seq<Seq<char>>
    decreases n,
{
    if n <= 0 {
        Seq::empty()
    } else {
        let e = entries[n - 1];
        let before = entries.take(n - 1);
        entries_errs(entries, files, hot_ids, d, n - 1) + (if catalog_ids(before).contains(e.page_id) {
            seq!["duplicate page id "@ + decimal(e.page_id as nat) + " in page catalog"@]
        } else {
            Seq::empty()
        }) + (if entry_files(before).contains(e.file@) {
            seq!["duplicate page file "@ + e.file@ + " in page catalog"@]
        } else {
            Seq::empty()
        }) + file_errs(e, files[n - 1], hot_ids + ids_of(sealed_cells(read_pages(files.take(n - 1)))), d)
    }
}

/// The warnings of the pages read among the first `n` entries.
pub open spec fn entries_warns(entries: Seq<PageCatalogEntry>, files: Seq<PageFileCheck>, n: int) -> Seq<
    Seq<char>,
>
    decreases n,
{
    if n <= 0 {
        Seq::empty()
    } else {
        entries_warns(entries, files, n - 1) + match files[n - 1] {
            PageFileCheck::Present { read: Ok(r), .. } => page_warnings(entries[n - 1], r.page),
            _ => Seq::empty(),
        }
    }
}

pub open spec fn ends_with_page_suffix(f: Seq<char>) -> bool {
    f.len() >= 4 && f.subrange(f.len() - 4, f.len() as int) == ".mgp"@
}

pub open spec fn orphan_msg(f: Seq<char>) -> Seq<char> {
    "orphan page file not referenced by catalog: "@ + f
}

/// A page-directory file the catalog does not name is an error in a deep
/// validation when it is named like a page file, a warning otherwise.
pub open spec fn orphan_errs(deep: bool, dir: Seq<String>, known: Seq<Seq<char>>) -> Seq<Seq<char>>
    decreases dir.len(),
{
    if dir.len() == 0 {
        Seq::empty()
    } else {
        let f = dir.last()@;
        orphan_errs(deep, dir.drop_last(), known) + if !known.contains(f) && deep && ends_with_page_suffix(f) {
            seq![orphan_msg(f)]
        } else {
            Seq::empty()
        }
    }
}

pub open spec fn orphan_warns(deep: bool, dir: Seq<String>, known: Seq<Seq<char>>) -> Seq<Seq<char>>
    decreases dir.len(),
{
    if dir.len() == 0 {
        Seq::empty()
    } else {
        let f = dir.last()@;
        orphan_warns(deep, dir.drop_last(), known) + if !known.contains(f) && !(deep && ends_with_page_suffix(f)) {
            seq![orphan_msg(f)]
        } else {
            Seq::empty()
        }
    }
}

pub open spec fn known_index_name(f: Seq<char>) -> bool {
    f == PAGE_CATALOG_FILE@ || f == EXACT_MARKER_INDEX_FILE@ || f == BINARY_FUSE_INDEX_FILE@
}

pub open spec fn unknown_index_warns(dir: Seq<String>) -> Seq<Seq<char>>
    decreases dir.len(),
{
    if dir.len() == 0 {
        Seq::empty()
    } else {
        unknown_index_warns(dir.drop_last()) + if !known_index_name(dir.last()@) {
            seq!["unknown index file not managed by store: "@ + dir.last()@]
        } else {
            Seq::empty()
        }
    }
}

/// The largest value, 0 for none.
pub open spec fn max_of(s: Seq<u64>) -> u64
    decreases s.len(),
{
    if s.len() == 0 {
        0
    } else {
        let m = max_of(s.drop_last());
        if s.last() > m {
            s.last()
        } else {
            m
        }
    }
}

/// The manifest's next ids must be above every id in use.
pub open spec fn next_id_errs(obs: StoreObservations) -> Seq<Seq<char>> {
    let entries = entries_of(obs);
    let max_page = max_of(catalog_ids(entries));
    let max_cell = max_of(ids_of(obs.hot_cells@) + ids_of(sealed_cells(read_pages(obs.page_files@))));
    (if entries.len() > 0 && obs.next_page_id <= max_page {
        seq![
            "manifest next_page_id "@ + decimal(obs.next_page_id as nat)
                + " must be greater than max sealed page id "@ + decimal(max_page as nat),
        ]
    } else {
        Seq::empty()
    }) + (if max_cell > 0 && obs.next_cell_id <= max_cell {
        seq![
            "manifest next_cell_id "@ + decimal(obs.next_cell_id as nat) + " must be greater than max cell id "@
                + decimal(max_cell as nat),
        ]
    } else {
        Seq::empty()
    })
}

/// The cells whose links are checked, each with its label: the hot cells,
/// then the cells of the pages read.
pub open spec fn labeled_cells(obs: StoreObservations) -> Seq<(Seq<char>, MemoryCell)> {
    let hot = obs.hot_cells@;
    let sealed = sealed_cells(read_pages(obs.page_files@));
    Seq::new(hot.len(), |i: int| ("hot cell"@, hot[i])) + Seq::new(sealed.len(), |i: int| ("sealed cell"@, sealed[i]))
}

pub open spec fn labeled_link_errs(cells: Seq<(Seq<char>, MemoryCell)>, ids: Set<CellId>) -> Seq<Seq<char>>
    decreases cells.len(),
{
    if cells.len() == 0 {
        Seq::empty()
    } else {
        let (l, c) = cells.last();
        labeled_link_errs(cells.drop_last(), ids) + cell_link_errors(l, c.id, c.links@, ids, c.links@.len() as int)
    }
}

pub open spec fn labeled_link_warns(cells: Seq<(Seq<char>, MemoryCell)>) -> Seq<Seq<char>>
    decreases cells.len(),
{
    if cells.len() == 0 {
        Seq::empty()
    } else {
        let (l, c) = cells.last();
        labeled_link_warns(cells.drop_last()) + cell_link_warnings(l, c.id, c.links@, c.links@.len() as int)
    }
}

pub open spec fn all_cell_ids(obs: StoreObservations) -> Set<CellId> {
    (ids_of(obs.hot_cells@) + ids_of(sealed_cells(read_pages(obs.page_files@)))).to_set()
}

/// The errors before the catalog's entries are gone through.
pub open spec fn head_errs(obs: StoreObservations, dictionary_errors: Seq<Seq<char>>) -> Seq<Seq<char>> {
    let kind = obs.manifest_index_kind;
    let catalog_kind = match obs.catalog {
        Ok(c) => c.index_kind,
        Err(_) => IndexKind::ExactMarkerPage,
    };
    (match obs.catalog_missing {
        Some(p) => if obs.deep {
            seq!["page catalog file missing: "@ + p@]
        } else {
            Seq::empty()
        },
        None => Seq::empty(),
    }) + (match obs.catalog {
        Err(m) => seq!["page catalog load failed: "@ + m@],
        Ok(_) => Seq::empty(),
    }) + Seq::new(dictionary_errors.len(), |i: int| "marker dictionary inconsistency: "@ + dictionary_errors[i])
        + (if catalog_kind != kind {
        seq![
            "page catalog index kind "@ + index_kind_name(catalog_kind) + " does not match manifest index kind "@
                + index_kind_name(kind),
        ]
    } else {
        Seq::empty()
    }) + (match obs.index {
        IndexCheck::Missing(p) => seq!["active candidate index file missing: "@ + p@],
        IndexCheck::Failed(m) => seq!["candidate index load failed: "@ + m@],
        IndexCheck::Loaded(idx) => if index_data_kind(idx) != kind {
            seq![
                "candidate index kind "@ + index_kind_name(index_data_kind(idx))
                    + " does not match manifest index kind "@ + index_kind_name(kind),
            ]
        } else {
            Seq::empty()
        },
    }) + (match obs.hot_load_error {
        Some(m) => seq!["hot memory load failed: "@ + m@],
        None => Seq::empty(),
    })
}

pub open spec fn index_data_kind(idx: CandidateIndexData) -> IndexKind {
    match idx {
        CandidateIndexData::ExactMarkerPage(i) => i.index_kind,
        CandidateIndexData::BinaryFusePage(i) => i.index_kind,
    }
}

/// The warning for a missing catalog in a validation that is not deep.
pub open spec fn head_warns(obs: StoreObservations) -> Seq<Seq<char>> {
    match obs.catalog_missing {
        Some(p) => if obs.deep {
            Seq::empty()
        } else {
            seq!["page catalog file missing: "@ + p@]
        },
        None => Seq::empty(),
    }
}

/// The errors of a loaded candidate index against the catalog.
pub open spec fn loaded_index_errs(obs: StoreObservations, d: DictionaryView) -> Seq<Seq<char>> {
    match obs.index {
        IndexCheck::Loaded(idx) => index_errors(entries_of(obs), idx, d),
        _ => Seq::empty(),
    }
}

/// Every error a validation reports, in order.
pub open spec fn store_errors(obs: StoreObservations, d: DictionaryView, dictionary_errors: Seq<Seq<char>>) -> Seq<
    Seq<char>,
> {
    let entries = entries_of(obs);
    head_errs(obs, dictionary_errors) + hot_errs(obs.hot_cells@, d) + entries_errs(
        entries,
        obs.page_files@,
        ids_of(obs.hot_cells@),
        d,
        entries.len() as int,
    ) + orphan_errs(obs.deep, obs.page_dir_files@, entry_files(entries)) + next_id_errs(obs) + loaded_index_errs(
        obs,
        d,
    ) + labeled_link_errs(labeled_cells(obs), all_cell_ids(obs))
}

/// Every warning a validation reports, in order.
pub open spec fn store_warnings(obs: StoreObservations) -> Seq<Seq<char>> {
    let entries = entries_of(obs);
    head_warns(obs) + entries_warns(entries, obs.page_files@, entries.len() as int) + orphan_warns(
        obs.deep,
        obs.page_dir_files@,
        entry_files(entries),
    ) + unknown_index_warns(obs.index_dir_files@) + labeled_link_warns(labeled_cells(obs)) + (if entries.len()
        == 0 && obs.hot_cells@.len() == 0 {
        seq!["store contains no hot or sealed cells"@]
    } else {
        Seq::empty()
    })
}

/// The observations line up with the catalog and their counts fit.
pub open spec fn observations_fit(obs: StoreObservations) -> bool {
    &&& obs.page_files@.len() == entries_of(obs).len()
    &&& sealed_cells(read_pages(obs.page_files@)).len() + obs.hot_cells@.len() <= usize::MAX
}

// ---------------------------------------------------------------------------
// Reporting
// ---------------------------------------------------------------------------

/// `new` is `old` with `errs` and `warns` appended (the counts of what was
/// checked aside).
pub open spec fn grew(old: ValidationReport, new: ValidationReport, errs: Seq<Seq<char>>, warns: Seq<Seq<char>>) -> bool {
    &&& string_views(new.errors@) == string_views(old.errors@) + errs
    &&& string_views(new.warnings@) == string_views(old.warnings@) + warns
    &&& new.ok == (old.ok && errs.len() == 0)
    &&& new.index_kind == old.index_kind
}

proof fn lemma_grew_refl(r: ValidationReport)
    ensures
        grew(r, r, Seq::empty(), Seq::empty()),
{
    assert(string_views(r.errors@) + Seq::<Seq<char>>::empty() =~= string_views(r.errors@));
    assert(string_views(r.warnings@) + Seq::<Seq<char>>::empty() =~= string_views(r.warnings@));
}

proof fn lemma_grew_trans(
    a: ValidationReport,
    b: ValidationReport,
    c: ValidationReport,
    e1: Seq<Seq<char>>,
    w1: Seq<Seq<char>>,
    e2: Seq<Seq<char>>,
    w2: Seq<Seq<char>>,
)
    requires
        grew(a, b, e1, w1),
        grew(b, c, e2, w2),
    ensures
        grew(a, c, e1 + e2, w1 + w2),
{
    assert(string_views(a.errors@) + e1 + e2 =~= string_views(a.errors@) + (e1 + e2));
    assert(string_views(a.warnings@) + w1 + w2 =~= string_views(a.warnings@) + (w1 + w2));
}

fn error(report: &mut ValidationReport, message: String)
    ensures
        grew(*old(report), *final(report), seq![message@], Seq::empty()),
        final(report).checked_hot_cells == old(report).checked_hot_cells,
        final(report).checked_sealed_pages == old(report).checked_sealed_pages,
        final(report).checked_sealed_cells == old(report).checked_sealed_cells,
{
    add_error(report, message);
}

fn warning(report: &mut ValidationReport, message: String)
    ensures
        grew(*old(report), *final(report), Seq::empty(), seq![message@]),
        final(report).checked_hot_cells == old(report).checked_hot_cells,
        final(report).checked_sealed_pages == old(report).checked_sealed_pages,
        final(report).checked_sealed_cells == old(report).checked_sealed_cells,
{
    add_warning(report, message);
}

fn text_message(prefix: &str, text: &str) -> (m: String)
    ensures
        m@ == prefix@ + text@,
{
    let mut m = string_from(prefix);
    push_str(&mut m, text);
    m
}

fn kinds_message(prefix: &str, found: IndexKind, kind: IndexKind) -> (m: String)
    ensures
        m@ == prefix@ + index_kind_name(found) + " does not match manifest index kind "@ + index_kind_name(kind),
{
    let mut m = string_from(prefix);
    push_str(&mut m, found.as_str());
    push_str(&mut m, " does not match manifest index kind ");
    push_str(&mut m, kind.as_str());
    m
}

fn id_message(prefix: &str, id: u64, suffix: &str) -> (m: String)
    ensures
        m@ == prefix@ + decimal(id as nat) + suffix@,
{
    let mut m = string_from(prefix);
    push_decimal_str(&mut m, id);
    push_str(&mut m, suffix);
    m
}

fn check_head(
    obs: &StoreObservations,
    catalog: &PageCatalog,
    dictionary: &MarkerDictionary,
    report: &mut ValidationReport,
)
    requires
        dictionary.wf(),
        match obs.catalog {
            Ok(c) => *catalog == c,
            Err(_) => catalog.index_kind == IndexKind::ExactMarkerPage,
        },
    ensures
        grew(
            *old(report),
            *final(report),
            head_errs(*obs, dictionary.errors_spec()),
            head_warns(*obs),
        ),
        final(report).checked_hot_cells == old(report).checked_hot_cells,
        final(report).checked_sealed_pages == old(report).checked_sealed_pages,
        final(report).checked_sealed_cells == old(report).checked_sealed_cells,
{
    let ghost r0 = *report;
    let ghost mut errs: Seq<Seq<char>> = Seq::empty();
    let ghost mut warns: Seq<Seq<char>> = Seq::empty();
    proof {
        lemma_grew_refl(r0);
    }
    match &obs.catalog_missing {
        Some(p) => {
            let m = text_message("page catalog file missing: ", p.as_str());
            let ghost mid = *report;
            if obs.deep {
                error(report, m);
                proof {
                    lemma_grew_trans(r0, mid, *report, errs, warns, seq![m@], Seq::empty());
                    errs = errs + seq![m@];
                    warns = warns + Seq::empty();
                }
            } else {
                warning(report, m);
                proof {
                    lemma_grew_trans(r0, mid, *report, errs, warns, Seq::empty(), seq![m@]);
                    errs = errs + Seq::empty();
                    warns = warns + seq![m@];
                }
            }
        },
        None => {},
    }
    match &obs.catalog {
        Err(msg) => {
            let m = text_message("page catalog load failed: ", msg.as_str());
            let ghost mid = *report;
            error(report, m);
            proof {
                lemma_grew_trans(r0, mid, *report, errs, warns, seq![m@], Seq::empty());
                errs = errs + seq![m@];
                warns = warns + Seq::empty();
            }
        },
        Ok(_) => {},
    }
    let dict_errors = dictionary.consistency_errors();
    let ghost de = dictionary.errors_spec();
    let ghost before = errs;
    let mut i: usize = 0;
    while i < dict_errors.len()
        invariant
            i <= dict_errors@.len(),
            string_views_of(dict_errors@) == de,
            grew(r0, *report, before + Seq::new(i as nat, |k: int| "marker dictionary inconsistency: "@ + de[k]), warns),
            report.checked_hot_cells == r0.checked_hot_cells,
            report.checked_sealed_pages == r0.checked_sealed_pages,
            report.checked_sealed_cells == r0.checked_sealed_cells,
        decreases dict_errors@.len() - i,
    {
        let m = text_message("marker dictionary inconsistency: ", dict_errors[i].as_str());
        let ghost mid = *report;
        let ghost acc = before + Seq::new(i as nat, |k: int| "marker dictionary inconsistency: "@ + de[k]);
        error(report, m);
        proof {
            lemma_grew_trans(r0, mid, *report, acc, warns, seq![m@], Seq::empty());
            assert(de[i as int] == dict_errors@[i as int]@);
            assert(acc + seq![m@] =~= before + Seq::new((i + 1) as nat, |k: int| "marker dictionary inconsistency: "@ + de[k]));
            assert(warns + Seq::<Seq<char>>::empty() =~= warns);
        }
        i += 1;
    }
    proof {
        errs = before + Seq::new(de.len(), |k: int| "marker dictionary inconsistency: "@ + de[k]);
    }
    let kind = obs.manifest_index_kind;
    if catalog.index_kind != kind {
        let m = kinds_message("page catalog index kind ", catalog.index_kind, kind);
        let ghost mid = *report;
        error(report, m);
        proof {
            lemma_grew_trans(r0, mid, *report, errs, warns, seq![m@], Seq::empty());
            errs = errs + seq![m@];
            warns = warns + Seq::empty();
        }
    }
    match &obs.index {
        IndexCheck::Missing(p) => {
            let m = text_message("active candidate index file missing: ", p.as_str());
            let ghost mid = *report;
            error(report, m);
            proof {
                lemma_grew_trans(r0, mid, *report, errs, warns, seq![m@], Seq::empty());
                errs = errs + seq![m@];
                warns = warns + Seq::empty();
            }
        },
        IndexCheck::Failed(msg) => {
            let m = text_message("candidate index load failed: ", msg.as_str());
            let ghost mid = *report;
            error(report, m);
            proof {
                lemma_grew_trans(r0, mid, *report, errs, warns, seq![m@], Seq::empty());
                errs = errs + seq![m@];
                warns = warns + Seq::empty();
            }
        },
        IndexCheck::Loaded(idx) => {
            let found = idx.kind();
            if found != kind {
                let m = kinds_message("candidate index kind ", found, kind);
                let ghost mid = *report;
                error(report, m);
                proof {
                    lemma_grew_trans(r0, mid, *report, errs, warns, seq![m@], Seq::empty());
                    errs = errs + seq![m@];
                    warns = warns + Seq::empty();
                }
            }
        },
    }
    match &obs.hot_load_error {
        Some(msg) => {
            let m = text_message("hot memory load failed: ", msg.as_str());
            let ghost mid = *report;
            error(report, m);
            proof {
                lemma_grew_trans(r0, mid, *report, errs, warns, seq![m@], Seq::empty());
                errs = errs + seq![m@];
                warns = warns + Seq::empty();
            }
        },
        None => {},
    }
    proof {
        reveal_strlit("page catalog index kind ");
        reveal_strlit("candidate index kind ");
        assert(errs =~= head_errs(*obs, dictionary.errors_spec()));
    }
}

pub open spec fn links_view(links: Seq<(String, CellId, Vec<CellId>)>) -> Seq<(Seq<char>, CellId, Seq<CellId>)> {
    Seq::new(links.len(), |i: int| (links[i].0@, links[i].1, links[i].2@))
}

pub open spec fn labeled_view(cells: Seq<(Seq<char>, MemoryCell)>) -> Seq<(Seq<char>, CellId, Seq<CellId>)> {
    Seq::new(cells.len(), |i: int| (cells[i].0, cells[i].1.id, cells[i].1.links@))
}

pub open spec fn labeled(label: Seq<char>, cells: Seq<MemoryCell>) -> Seq<(Seq<char>, MemoryCell)> {
    Seq::new(cells.len(), |i: int| (label, cells[i]))
}

fn push_link_entry(links: &mut Vec<(String, CellId, Vec<CellId>)>, label: &str, cell: &MemoryCell)
    ensures
        links_view(final(links)@) == links_view(old(links)@).push((label@, cell.id, cell.links@)),
{
    links.push((string_from(label), cell.id, copy_cell_ids(&cell.links)));
    proof {
        assert(links_view(links@) =~= links_view(old(links)@).push((label@, cell.id, cell.links@)));
    }
}

/// Goes through the hot cells: repeated ids, unknown markers; gathers their
/// ids and links, and returns the largest id.
fn check_hot(
    hot: &Vec<MemoryCell>,
    dictionary: &MarkerDictionary,
    report: &mut ValidationReport,
    seen: &mut Vec<u64>,
    links: &mut Vec<(String, CellId, Vec<CellId>)>,
) -> (max_cell: u64)
    requires
        dictionary.wf(),
        old(seen)@.len() == 0,
        old(links)@.len() == 0,
    ensures
        grew(*old(report), *final(report), hot_errs(hot@, dictionary.view()), Seq::empty()),
        final(report).checked_hot_cells == old(report).checked_hot_cells,
        final(report).checked_sealed_pages == old(report).checked_sealed_pages,
        final(report).checked_sealed_cells == old(report).checked_sealed_cells,
        strictly_increasing(final(seen)@),
        final(seen)@.to_set() == ids_of(hot@).to_set(),
        links_view(final(links)@) == labeled_view(labeled("hot cell"@, hot@)),
        max_cell == max_of(ids_of(hot@)),
{
    let ghost r0 = *report;
    let ghost d = dictionary.view();
    let mut max_cell: u64 = 0;
    let mut k: usize = 0;
    proof {
        lemma_grew_refl(r0);
        assert(hot@.take(0) =~= Seq::<MemoryCell>::empty());
        assert(seen@.to_set() =~= Set::<u64>::empty());
        assert(ids_of(hot@.take(0)).to_set() =~= Set::<u64>::empty());
        assert(links_view(links@) =~= labeled_view(labeled("hot cell"@, hot@.take(0))));
        assert(ids_of(hot@.take(0)) =~= Seq::<u64>::empty());
    }
    while k < hot.len()
        invariant
            k <= hot@.len(),
            dictionary.wf(),
            d == dictionary.view(),
            grew(r0, *report, hot_errs(hot@.take(k as int), d), Seq::empty()),
            report.checked_hot_cells == r0.checked_hot_cells,
            report.checked_sealed_pages == r0.checked_sealed_pages,
            report.checked_sealed_cells == r0.checked_sealed_cells,
            strictly_increasing(seen@),
            seen@.to_set() == ids_of(hot@.take(k as int)).to_set(),
            links_view(links@) == labeled_view(labeled("hot cell"@, hot@.take(k as int))),
            max_cell == max_of(ids_of(hot@.take(k as int))),
        decreases hot@.len() - k,
    {
        let cell = &hot[k];
        let ghost before = hot@.take(k as int);
        let ghost after = hot@.take(k + 1);
        proof {
            assert(after.drop_last() =~= before);
            assert(after.last() == *cell);
            assert(ids_of(after).drop_last() =~= ids_of(before));
            assert(ids_of(after) =~= ids_of(before).push(cell.id));
            assert(ids_of(before).to_set().contains(cell.id) == ids_of(before).contains(cell.id));
        }
        let ghost mid0 = *report;
        let ghost e0 = hot_errs(before, d);
        if contains_id(seen, cell.id) {
            let m = id_message("duplicate cell id ", cell.id, "");
            error(report, m);
            proof {
                reveal_strlit("");
                assert(m@ =~= "duplicate cell id "@ + decimal(cell.id as nat));
                lemma_grew_trans(r0, mid0, *report, e0, Seq::empty(), dup_err(ids_of(before), cell.id), Seq::empty());
            }
        } else {
            proof {
                lemma_grew_refl(*report);
                lemma_grew_trans(r0, mid0, *report, e0, Seq::empty(), dup_err(ids_of(before), cell.id), Seq::empty());
            }
        }
        set_insert(seen, cell.id);
        proof {
            crate::idset::lemma_push_to_set(ids_of(before), cell.id);
        }
        let ghost mid1 = *report;
        validate_cell_markers("hot cell", cell, dictionary, report);
        proof {
            reveal_strlit("hot cell");
            lemma_grew_trans(
                r0,
                mid1,
                *report,
                e0 + dup_err(ids_of(before), cell.id),
                Seq::<Seq<char>>::empty() + Seq::<Seq<char>>::empty(),
                cell_marker_errors("hot cell"@, *cell, d, ordered_ids(cell_marker_set(*cell))),
                Seq::empty(),
            );
            assert(Seq::<Seq<char>>::empty() + Seq::<Seq<char>>::empty() + Seq::<Seq<char>>::empty() =~= Seq::<Seq<char>>::empty());
        }
        push_link_entry(links, "hot cell", cell);
        proof {
            assert(labeled_view(labeled("hot cell"@, after)) =~= labeled_view(labeled("hot cell"@, before)).push(
                ("hot cell"@, cell.id, cell.links@),
            ));
        }
        if cell.id > max_cell {
            max_cell = cell.id;
        }
        k += 1;
    }
    proof {
        assert(hot@.take(k as int) =~= hot@);
    }
    max_cell
}

proof fn lemma_max_push(s: Seq<u64>, x: u64)
    ensures
        max_of(s.push(x)) == if x > max_of(s) {
            x
        } else {
            max_of(s)
        },
{
    assert(s.push(x).drop_last() =~= s);
}

/// Goes through the cells of a page read: repeated ids (against `prior`
/// and the page's earlier cells); gathers their ids and links, and returns
/// the largest id so far.
fn check_page_cells(
    cells: &Vec<MemoryCell>,
    Ghost(prior): Ghost<Seq<CellId>>,
    report: &mut ValidationReport,
    seen: &mut Vec<u64>,
    links: &mut Vec<(String, CellId, Vec<CellId>)>,
    max_cell: u64,
) -> (m: u64)
    requires
        strictly_increasing(old(seen)@),
        old(seen)@.to_set() == prior.to_set(),
        max_cell == max_of(prior),
    ensures
        grew(*old(report), *final(report), cells_dup_errs(prior, cells@), Seq::empty()),
        final(report).checked_hot_cells == old(report).checked_hot_cells,
        final(report).checked_sealed_pages == old(report).checked_sealed_pages,
        final(report).checked_sealed_cells == old(report).checked_sealed_cells,
        strictly_increasing(final(seen)@),
        final(seen)@.to_set() == (prior + ids_of(cells@)).to_set(),
        links_view(final(links)@) == links_view(old(links)@) + labeled_view(labeled("sealed cell"@, cells@)),
        m == max_of(prior + ids_of(cells@)),
{
    let ghost r0 = *report;
    let ghost l0 = links_view(links@);
    let mut m = max_cell;
    let mut k: usize = 0;
    proof {
        lemma_grew_refl(r0);
        assert(cells@.take(0) =~= Seq::<MemoryCell>::empty());
        assert(prior + ids_of(cells@.take(0)) =~= prior);
        assert(l0 + labeled_view(labeled("sealed cell"@, cells@.take(0))) =~= l0);
    }
    while k < cells.len()
        invariant
            k <= cells@.len(),
            grew(r0, *report, cells_dup_errs(prior, cells@.take(k as int)), Seq::empty()),
            report.checked_hot_cells == r0.checked_hot_cells,
            report.checked_sealed_pages == r0.checked_sealed_pages,
            report.checked_sealed_cells == r0.checked_sealed_cells,
            strictly_increasing(seen@),
            seen@.to_set() == (prior + ids_of(cells@.take(k as int))).to_set(),
            links_view(links@) == l0 + labeled_view(labeled("sealed cell"@, cells@.take(k as int))),
            m == max_of(prior + ids_of(cells@.take(k as int))),
        decreases cells@.len() - k,
    {
        let cell = &cells[k];
        let ghost before = cells@.take(k as int);
        let ghost after = cells@.take(k + 1);
        let ghost p = prior + ids_of(before);
        proof {
            assert(after.drop_last() =~= before);
            assert(after.last() == *cell);
            assert(prior + ids_of(after) =~= p.push(cell.id));
            assert(p.to_set().contains(cell.id) == p.contains(cell.id));
        }
        let ghost mid0 = *report;
        let ghost e0 = cells_dup_errs(prior, before);
        if contains_id(seen, cell.id) {
            let msg = id_message("duplicate cell id ", cell.id, "");
            error(report, msg);
            proof {
                reveal_strlit("");
                assert(msg@ =~= "duplicate cell id "@ + decimal(cell.id as nat));
                lemma_grew_trans(r0, mid0, *report, e0, Seq::empty(), dup_err(p, cell.id), Seq::empty());
            }
        } else {
            proof {
                lemma_grew_refl(*report);
                lemma_grew_trans(r0, mid0, *report, e0, Seq::empty(), dup_err(p, cell.id), Seq::empty());
            }
        }
        proof {
            assert(Seq::<Seq<char>>::empty() + Seq::<Seq<char>>::empty() =~= Seq::<Seq<char>>::empty());
        }
        set_insert(seen, cell.id);
        proof {
            crate::idset::lemma_push_to_set(p, cell.id);
            lemma_max_push(p, cell.id);
        }
        push_link_entry(links, "sealed cell", cell);
        proof {
            assert(labeled_view(labeled("sealed cell"@, after)) =~= labeled_view(labeled("sealed cell"@, before)).push(
                ("sealed cell"@, cell.id, cell.links@),
            ));
            assert(l0 + labeled_view(labeled("sealed cell"@, after)) =~= (l0 + labeled_view(
                labeled("sealed cell"@, before),
            )).push(("sealed cell"@, cell.id, cell.links@)));
        }
        if cell.id > m {
            m = cell.id;
        }
        k += 1;
    }
    proof {
        assert(cells@.take(k as int) =~= cells@);
    }
    m
}

fn id_in_entries(entries: &Vec<PageCatalogEntry>, n: usize, id: PageId) -> (b: bool)
    requires
        n <= entries@.len(),
    ensures
        b == catalog_ids(entries@.take(n as int)).contains(id),
{
    let mut i: usize = 0;
    while i < n
        invariant
            i <= n <= entries@.len(),
            forall|k: int| 0 <= k < i ==> (#[trigger] entries@[k]).page_id != id,
        decreases n - i,
    {
        if entries[i].page_id == id {
            proof {
                assert(catalog_ids(entries@.take(n as int))[i as int] == id);
            }
            return true;
        }
        i += 1;
    }
    proof {
        if catalog_ids(entries@.take(n as int)).contains(id) {
            let k = choose|k: int| 0 <= k < n && catalog_ids(entries@.take(n as int))[k] == id;
            assert(entries@[k].page_id == id);
        }
    }
    false
}

fn file_in_entries(entries: &Vec<PageCatalogEntry>, n: usize, file: &str) -> (b: bool)
    requires
        n <= entries@.len(),
    ensures
        b == entry_files(entries@.take(n as int)).contains(file@),
{
    let mut i: usize = 0;
    while i < n
        invariant
            i <= n <= entries@.len(),
            forall|k: int| 0 <= k < i ==> (#[trigger] entries@[k]).file@ != file@,
        decreases n - i,
    {
        if str_eq(entries[i].file.as_str(), file) {
            proof {
                assert(entry_files(entries@.take(n as int))[i as int] == file@);
            }
            return true;
        }
        i += 1;
    }
    proof {
        if entry_files(entries@.take(n as int)).contains(file@) {
            let k = choose|k: int| 0 <= k < n && entry_files(entries@.take(n as int))[k] == file@;
            assert(entries@[k].file@ == file@);
        }
    }
    false
}

fn size_check(e: &PageCatalogEntry, size: &Result<u64, String>, report: &mut ValidationReport)
    ensures
        grew(*old(report), *final(report), size_errs(*e, *size), Seq::empty()),
        final(report).checked_hot_cells == old(report).checked_hot_cells,
        final(report).checked_sealed_pages == old(report).checked_sealed_pages,
        final(report).checked_sealed_cells == old(report).checked_sealed_cells,
{
    if e.encoded_size_bytes > 0 {
        match size {
            Ok(s) => {
                if *s != e.encoded_size_bytes {
                    let mut m = id_message("catalog page ", e.page_id, " encoded_size_bytes ");
                    push_decimal_str(&mut m, e.encoded_size_bytes);
                    push_str(&mut m, " does not match file size ");
                    push_decimal_str(&mut m, *s);
                    error(report, m);
                    return;
                }
            },
            Err(msg) => {
                let mut m = id_message("page file metadata failed for page ", e.page_id, ": ");
                push_str(&mut m, msg.as_str());
                error(report, m);
                return;
            },
        }
    }
    proof {
        lemma_grew_refl(*report);
    }
}

proof fn lemma_read_pages_concat(a: Seq<PageFileCheck>, b: Seq<PageFileCheck>)
    ensures
        read_pages(a + b) == read_pages(a) + read_pages(b),
    decreases b.len(),
{
    if b.len() == 0 {
        assert(a + b =~= a);
        assert(read_pages(a) + read_pages(b) =~= read_pages(a));
    } else {
        lemma_read_pages_concat(a, b.drop_last());
        assert((a + b).drop_last() =~= a + b.drop_last());
        assert((a + b).last() == b.last());
        assert(read_pages(a + b) =~= read_pages(a) + read_pages(b));
    }
}

proof fn lemma_sealed_concat(a: Seq<MemoryPage>, b: Seq<MemoryPage>)
    ensures
        sealed_cells(a + b) == sealed_cells(a) + sealed_cells(b),
    decreases b.len(),
{
    if b.len() == 0 {
        assert(a + b =~= a);
        assert(sealed_cells(a) + sealed_cells(b) =~= sealed_cells(a));
    } else {
        lemma_sealed_concat(a, b.drop_last());
        assert((a + b).drop_last() =~= a + b.drop_last());
        assert((a + b).last() == b.last());
        assert(sealed_cells(a + b) =~= sealed_cells(a) + sealed_cells(b));
    }
}

proof fn lemma_read_pages_len(files: Seq<PageFileCheck>)
    ensures
        read_pages(files).len() <= files.len(),
    decreases files.len(),
{
    if files.len() > 0 {
        lemma_read_pages_len(files.drop_last());
    }
}

/// Reading a prefix of the files reads a prefix of the pages.
proof fn lemma_read_prefix(files: Seq<PageFileCheck>, j: int)
    requires
        0 <= j <= files.len(),
    ensures
        read_pages(files.take(j)).len() <= read_pages(files).len(),
        sealed_cells(read_pages(files.take(j))).len() <= sealed_cells(read_pages(files)).len(),
{
    assert(files.take(j) + files.skip(j) =~= files);
    lemma_read_pages_concat(files.take(j), files.skip(j));
    lemma_sealed_concat(read_pages(files.take(j)), read_pages(files.skip(j)));
}

pub open spec fn file_read(f: PageFileCheck) -> Seq<MemoryPage> {
    match f {
        PageFileCheck::Present { read: Ok(r), .. } => seq![r.page],
        _ => Seq::empty(),
    }
}

pub open spec fn file_warns(e: PageCatalogEntry, f: PageFileCheck) -> Seq<Seq<char>> {
    match f {
        PageFileCheck::Present { read: Ok(r), .. } => page_warnings(e, r.page),
        _ => Seq::empty(),
    }
}

/// A repeated page id, then a repeated file, among the first `j` entries.
pub open spec fn entry_head_errs(entries: Seq<PageCatalogEntry>, j: int, e: PageCatalogEntry) -> Seq<Seq<char>> {
    let before = entries.take(j);
    (if catalog_ids(before).contains(e.page_id) {
        seq!["duplicate page id "@ + decimal(e.page_id as nat) + " in page catalog"@]
    } else {
        Seq::empty()
    }) + (if entry_files(before).contains(e.file@) {
        seq!["duplicate page file "@ + e.file@ + " in page catalog"@]
    } else {
        Seq::empty()
    })
}

proof fn lemma_sealed_single(p: MemoryPage)
    ensures
        sealed_cells(seq![p]) == p.cells@,
{
    assert(seq![p].drop_last() =~= Seq::<MemoryPage>::empty());
    assert(seq![p].last() == p);
    assert(sealed_cells(Seq::<MemoryPage>::empty()) == Seq::<MemoryCell>::empty());
    assert(Seq::<MemoryCell>::empty() + p.cells@ =~= p.cells@);
}

fn check_entry_head(entries: &Vec<PageCatalogEntry>, j: usize, report: &mut ValidationReport)
    requires
        j < entries@.len(),
    ensures
        grew(*old(report), *final(report), entry_head_errs(entries@, j as int, entries@[j as int]), Seq::empty()),
        final(report).checked_hot_cells == old(report).checked_hot_cells,
        final(report).checked_sealed_pages == old(report).checked_sealed_pages,
        final(report).checked_sealed_cells == old(report).checked_sealed_cells,
{
    let e = &entries[j];
    let ghost r0 = *report;
    let ghost id_errs: Seq<Seq<char>> = if catalog_ids(entries@.take(j as int)).contains(e.page_id) {
        seq!["duplicate page id "@ + decimal(e.page_id as nat) + " in page catalog"@]
    } else {
        Seq::empty()
    };
    if id_in_entries(entries, j, e.page_id) {
        let m = id_message("duplicate page id ", e.page_id, " in page catalog");
        error(report, m);
    } else {
        proof {
            lemma_grew_refl(*report);
        }
    }
    let ghost mid1 = *report;
    let ghost file_dup: Seq<Seq<char>> = if entry_files(entries@.take(j as int)).contains(e.file@) {
        seq!["duplicate page file "@ + e.file@ + " in page catalog"@]
    } else {
        Seq::empty()
    };
    if file_in_entries(entries, j, e.file.as_str()) {
        let mut m = string_from("duplicate page file ");
        push_str(&mut m, e.file.as_str());
        push_str(&mut m, " in page catalog");
        error(report, m);
    } else {
        proof {
            lemma_grew_refl(*report);
        }
    }
    proof {
        lemma_grew_trans(r0, mid1, *report, id_errs, Seq::empty(), file_dup, Seq::empty());
        assert(id_errs + file_dup == entry_head_errs(entries@, j as int, *e));
        assert(Seq::<Seq<char>>::empty() + Seq::<Seq<char>>::empty() =~= Seq::<Seq<char>>::empty());
    }
}

/// Checks a page file that is present: its size, then the page read from
/// it (see `check_page_cells` and `validate_page`).
fn check_present(
    e: &PageCatalogEntry,
    size: &Result<u64, String>,
    read: &Result<PageRead, String>,
    Ghost(prior): Ghost<Seq<CellId>>,
    dictionary: &MarkerDictionary,
    report: &mut ValidationReport,
    seen: &mut Vec<u64>,
    links: &mut Vec<(String, CellId, Vec<CellId>)>,
    max_cell: u64,
) -> (m: u64)
    requires
        dictionary.wf(),
        strictly_increasing(old(seen)@),
        old(seen)@.to_set() == prior.to_set(),
        max_cell == max_of(prior),
        old(report).checked_sealed_pages + file_read(PageFileCheck::Present { size: *size, read: *read }).len()
            <= usize::MAX,
        old(report).checked_sealed_cells + sealed_cells(
            file_read(PageFileCheck::Present { size: *size, read: *read }),
        ).len() <= usize::MAX,
    ensures
        ({
            let f = PageFileCheck::Present { size: *size, read: *read };
            &&& grew(*old(report), *final(report), file_errs(*e, f, prior, dictionary.view()), file_warns(*e, f))
            &&& final(report).checked_hot_cells == old(report).checked_hot_cells
            &&& final(report).checked_sealed_pages == old(report).checked_sealed_pages + file_read(f).len()
            &&& final(report).checked_sealed_cells == old(report).checked_sealed_cells + sealed_cells(
                file_read(f),
            ).len()
            &&& strictly_increasing(final(seen)@)
            &&& final(seen)@.to_set() == (prior + ids_of(sealed_cells(file_read(f)))).to_set()
            &&& links_view(final(links)@) == links_view(old(links)@) + labeled_view(
                labeled("sealed cell"@, sealed_cells(file_read(f))),
            )
            &&& m == max_of(prior + ids_of(sealed_cells(file_read(f))))
        }),
{
    let ghost f = PageFileCheck::Present { size: *size, read: *read };
    let ghost r0 = *report;
    let ghost d = dictionary.view();
    let ghost l0 = links_view(links@);
    size_check(e, size, report);
    let ghost mid3 = *report;
    match read {
        Ok(r) => {
            proof {
                lemma_sealed_single(r.page);
            }
            let m = check_page_cells(&r.page.cells, Ghost(prior), report, seen, links, max_cell);
            let ghost mid4 = *report;
            proof {
                lemma_grew_trans(r0, mid3, mid4, size_errs(*e, *size), Seq::empty(), cells_dup_errs(prior, r.page.cells@), Seq::empty());
            }
            validate_page(e, &r.page, dictionary, &r.checksum_check, report);
            proof {
                lemma_grew_trans(
                    r0,
                    mid4,
                    *report,
                    size_errs(*e, *size) + cells_dup_errs(prior, r.page.cells@),
                    Seq::<Seq<char>>::empty() + Seq::<Seq<char>>::empty(),
                    page_errors(*e, r.page, d, r.checksum_check),
                    page_warnings(*e, r.page),
                );
                assert(size_errs(*e, *size) + cells_dup_errs(prior, r.page.cells@) + page_errors(*e, r.page, d, r.checksum_check)
                    =~= file_errs(*e, f, prior, d));
                assert(Seq::<Seq<char>>::empty() + Seq::<Seq<char>>::empty() + page_warnings(*e, r.page) =~= page_warnings(*e, r.page));
            }
            m
        },
        Err(msg) => {
            let mut m = id_message("failed to read page ", e.page_id, ": ");
            push_str(&mut m, msg.as_str());
            error(report, m);
            proof {
                lemma_grew_trans(r0, mid3, *report, size_errs(*e, *size), Seq::empty(), seq![m@], Seq::empty());
                assert(size_errs(*e, *size) + seq![m@] =~= file_errs(*e, f, prior, d));
                assert(Seq::<Seq<char>>::empty() + Seq::<Seq<char>>::empty() =~= Seq::<Seq<char>>::empty());
                assert(sealed_cells(file_read(f)) =~= Seq::<MemoryCell>::empty());
                assert(prior + ids_of(Seq::<MemoryCell>::empty()) =~= prior);
                assert(l0 + labeled_view(labeled("sealed cell"@, Seq::<MemoryCell>::empty())) =~= l0);
            }
            max_cell
        },
    }
}

/// Checks the `j`th catalog entry and its page file.
fn check_entry(
    entries: &Vec<PageCatalogEntry>,
    j: usize,
    f: &PageFileCheck,
    Ghost(prior): Ghost<Seq<CellId>>,
    dictionary: &MarkerDictionary,
    report: &mut ValidationReport,
    seen: &mut Vec<u64>,
    links: &mut Vec<(String, CellId, Vec<CellId>)>,
    max_cell: u64,
) -> (m: u64)
    requires
        j < entries@.len(),
        dictionary.wf(),
        strictly_increasing(old(seen)@),
        old(seen)@.to_set() == prior.to_set(),
        max_cell == max_of(prior),
        old(report).checked_sealed_pages + file_read(*f).len() <= usize::MAX,
        old(report).checked_sealed_cells + sealed_cells(file_read(*f)).len() <= usize::MAX,
    ensures
        grew(
            *old(report),
            *final(report),
            entry_head_errs(entries@, j as int, entries@[j as int]) + file_errs(entries@[j as int], *f, prior, dictionary.view()),
            file_warns(entries@[j as int], *f),
        ),
        final(report).checked_hot_cells == old(report).checked_hot_cells,
        final(report).checked_sealed_pages == old(report).checked_sealed_pages + file_read(*f).len(),
        final(report).checked_sealed_cells == old(report).checked_sealed_cells + sealed_cells(file_read(*f)).len(),
        strictly_increasing(final(seen)@),
        final(seen)@.to_set() == (prior + ids_of(sealed_cells(file_read(*f)))).to_set(),
        links_view(final(links)@) == links_view(old(links)@) + labeled_view(
            labeled("sealed cell"@, sealed_cells(file_read(*f))),
        ),
        m == max_of(prior + ids_of(sealed_cells(file_read(*f)))),
{
    let e = &entries[j];
    let ghost r0 = *report;
    let ghost d = dictionary.view();
    let ghost l0 = links_view(links@);
    check_entry_head(entries, j, report);
    let ghost mid = *report;
    match f {
        PageFileCheck::Missing(p) => {
            let mut m = id_message("missing page file for page ", e.page_id, ": ");
            push_str(&mut m, p.as_str());
            error(report, m);
            proof {
                lemma_grew_trans(r0, mid, *report, entry_head_errs(entries@, j as int, *e), Seq::empty(), seq![m@], Seq::empty());
                assert(sealed_cells(file_read(*f)) =~= Seq::<MemoryCell>::empty());
                assert(prior + ids_of(Seq::<MemoryCell>::empty()) =~= prior);
                assert(l0 + labeled_view(labeled("sealed cell"@, Seq::<MemoryCell>::empty())) =~= l0);
                assert(Seq::<Seq<char>>::empty() + Seq::<Seq<char>>::empty() =~= Seq::<Seq<char>>::empty());
            }
            max_cell
        },
        PageFileCheck::Present { size, read } => {
            let m = check_present(e, size, read, Ghost(prior), dictionary, report, seen, links, max_cell);
            proof {
                lemma_grew_trans(
                    r0,
                    mid,
                    *report,
                    entry_head_errs(entries@, j as int, *e),
                    Seq::empty(),
                    file_errs(*e, *f, prior, d),
                    file_warns(*e, *f),
                );
                assert(Seq::<Seq<char>>::empty() + file_warns(*e, *f) =~= file_warns(*e, *f));
            }
            m
        },
    }
}

/// Goes through the catalog entries in order (see `check_entry`); returns
/// the largest page id and the largest cell id.
#[verifier::spinoff_prover]
#[verifier::rlimit(50)]
fn check_entries(
    entries: &Vec<PageCatalogEntry>,
    files: &Vec<PageFileCheck>,
    Ghost(hot_ids): Ghost<Seq<CellId>>,
    dictionary: &MarkerDictionary,
    report: &mut ValidationReport,
    seen: &mut Vec<u64>,
    links: &mut Vec<(String, CellId, Vec<CellId>)>,
    max_cell: u64,
) -> (r: (u64, u64))
    requires
        dictionary.wf(),
        files@.len() == entries@.len(),
        strictly_increasing(old(seen)@),
        old(seen)@.to_set() == hot_ids.to_set(),
        max_cell == max_of(hot_ids),
        old(report).checked_sealed_pages + read_pages(files@).len() <= usize::MAX,
        old(report).checked_sealed_cells + sealed_cells(read_pages(files@)).len() <= usize::MAX,
    ensures
        grew(
            *old(report),
            *final(report),
            entries_errs(entries@, files@, hot_ids, dictionary.view(), entries@.len() as int),
            entries_warns(entries@, files@, entries@.len() as int),
        ),
        final(report).checked_hot_cells == old(report).checked_hot_cells,
        final(report).checked_sealed_pages == old(report).checked_sealed_pages + read_pages(files@).len(),
        final(report).checked_sealed_cells == old(report).checked_sealed_cells + sealed_cells(
            read_pages(files@),
        ).len(),
        strictly_increasing(final(seen)@),
        final(seen)@.to_set() == (hot_ids + ids_of(sealed_cells(read_pages(files@)))).to_set(),
        links_view(final(links)@) == links_view(old(links)@) + labeled_view(
            labeled("sealed cell"@, sealed_cells(read_pages(files@))),
        ),
        r.0 == max_of(catalog_ids(entries@)),
        r.1 == max_of(hot_ids + ids_of(sealed_cells(read_pages(files@)))),
{
    let ghost r0 = *report;
    let ghost d = dictionary.view();
    let ghost l0 = links_view(links@);
    let mut max_page: u64 = 0;
    let mut max_c: u64 = max_cell;
    let mut j: usize = 0;
    proof {
        lemma_grew_refl(r0);
        assert(files@.take(0) =~= Seq::<PageFileCheck>::empty());
        assert(entries@.take(0) =~= Seq::<PageCatalogEntry>::empty());
        assert(catalog_ids(entries@.take(0)) =~= Seq::<u64>::empty());
        assert(ids_of(sealed_cells(read_pages(files@.take(0)))) =~= Seq::<u64>::empty());
        assert(hot_ids + ids_of(sealed_cells(read_pages(files@.take(0)))) =~= hot_ids);
        assert(l0 + labeled_view(labeled("sealed cell"@, sealed_cells(read_pages(files@.take(0))))) =~= l0);
    }
    while j < entries.len()
        invariant
            j <= entries@.len(),
            files@.len() == entries@.len(),
            dictionary.wf(),
            d == dictionary.view(),
            grew(r0, *report, entries_errs(entries@, files@, hot_ids, d, j as int), entries_warns(entries@, files@, j as int)),
            report.checked_hot_cells == r0.checked_hot_cells,
            report.checked_sealed_pages == r0.checked_sealed_pages + read_pages(files@.take(j as int)).len(),
            report.checked_sealed_cells == r0.checked_sealed_cells + sealed_cells(read_pages(files@.take(j as int))).len(),
            r0.checked_sealed_pages + read_pages(files@).len() <= usize::MAX,
            r0.checked_sealed_cells + sealed_cells(read_pages(files@)).len() <= usize::MAX,
            strictly_increasing(seen@),
            seen@.to_set() == (hot_ids + ids_of(sealed_cells(read_pages(files@.take(j as int))))).to_set(),
            links_view(links@) == l0 + labeled_view(labeled("sealed cell"@, sealed_cells(read_pages(files@.take(j as int))))),
            max_page == max_of(catalog_ids(entries@.take(j as int))),
            max_c == max_of(hot_ids + ids_of(sealed_cells(read_pages(files@.take(j as int))))),
        decreases entries@.len() - j,
    {
        let ghost fb = files@.take(j as int);
        let ghost fa = files@.take(j + 1);
        let ghost prior = hot_ids + ids_of(sealed_cells(read_pages(fb)));
        let ghost f = files@[j as int];
        let ghost mid = *report;
        proof {
            assert(fa.drop_last() =~= fb);
            assert(fa.last() == f);
            assert(read_pages(fa) == read_pages(fb) + file_read(f));
            lemma_sealed_concat(read_pages(fb), file_read(f));
            lemma_read_prefix(files@, j + 1);
            assert(ids_of(sealed_cells(read_pages(fa))) =~= ids_of(sealed_cells(read_pages(fb))) + ids_of(
                sealed_cells(file_read(f)),
            ));
            assert(hot_ids + ids_of(sealed_cells(read_pages(fa))) =~= prior + ids_of(sealed_cells(file_read(f))));
            assert(labeled_view(labeled("sealed cell"@, sealed_cells(read_pages(fa)))) =~= labeled_view(
                labeled("sealed cell"@, sealed_cells(read_pages(fb))),
            ) + labeled_view(labeled("sealed cell"@, sealed_cells(file_read(f)))));
            assert(entries@.take(j + 1).drop_last() =~= entries@.take(j as int));
            assert(catalog_ids(entries@.take(j + 1)) =~= catalog_ids(entries@.take(j as int)).push(entries@[j as int].page_id));
            lemma_max_push(catalog_ids(entries@.take(j as int)), entries@[j as int].page_id);
        }
        max_c = check_entry(entries, j, &files[j], Ghost(prior), dictionary, report, seen, links, max_c);
        if entries[j].page_id > max_page {
            max_page = entries[j].page_id;
        }
        proof {
            lemma_grew_trans(
                r0,
                mid,
                *report,
                entries_errs(entries@, files@, hot_ids, d, j as int),
                entries_warns(entries@, files@, j as int),
                entry_head_errs(entries@, j as int, entries@[j as int]) + file_errs(entries@[j as int], f, prior, d),
                file_warns(entries@[j as int], f),
            );
            assert(entries_errs(entries@, files@, hot_ids, d, j + 1) =~= entries_errs(entries@, files@, hot_ids, d, j as int)
                + (entry_head_errs(entries@, j as int, entries@[j as int]) + file_errs(entries@[j as int], f, prior, d)));
            assert(entries_warns(entries@, files@, j + 1) == entries_warns(entries@, files@, j as int) + file_warns(
                entries@[j as int],
                f,
            ));
            assert(l0 + labeled_view(labeled("sealed cell"@, sealed_cells(read_pages(fa)))) =~= l0 + labeled_view(
                labeled("sealed cell"@, sealed_cells(read_pages(fb))),
            ) + labeled_view(labeled("sealed cell"@, sealed_cells(file_read(f)))));
        }
        j += 1;
    }
    proof {
        assert(files@.take(j as int) =~= files@);
        assert(entries@.take(j as int) =~= entries@);
    }
    (max_page, max_c)
}

fn ends_with_page_suffix_exec(f: &str) -> (b: bool)
    ensures
        b == ends_with_page_suffix(f@),
{
    let c = chars_of(f);
    let n = c.len();
    if n < 4 {
        return false;
    }
    let b = c[n - 4] == '.' && c[n - 3] == 'm' && c[n - 2] == 'g' && c[n - 1] == 'p';
    proof {
        reveal_strlit(".mgp");
        let t = f@.subrange(f@.len() - 4, f@.len() as int);
        if b {
            assert(t =~= ".mgp"@);
        } else {
            if t == ".mgp"@ {
                assert(t[0] == '.' && t[1] == 'm' && t[2] == 'g' && t[3] == 'p');
            }
        }
    }
    b
}

/// Page-directory files the catalog does not name (see `orphan_errs`).
fn check_orphans(deep: bool, dir: &Vec<String>, entries: &Vec<PageCatalogEntry>, report: &mut ValidationReport)
    ensures
        grew(
            *old(report),
            *final(report),
            orphan_errs(deep, dir@, entry_files(entries@)),
            orphan_warns(deep, dir@, entry_files(entries@)),
        ),
        final(report).checked_hot_cells == old(report).checked_hot_cells,
        final(report).checked_sealed_pages == old(report).checked_sealed_pages,
        final(report).checked_sealed_cells == old(report).checked_sealed_cells,
{
    let ghost r0 = *report;
    let ghost known = entry_files(entries@);
    let mut i: usize = 0;
    proof {
        lemma_grew_refl(r0);
        assert(dir@.take(0) =~= Seq::<String>::empty());
        assert(entries@.take(entries@.len() as int) =~= entries@);
    }
    while i < dir.len()
        invariant
            i <= dir@.len(),
            known == entry_files(entries@),
            entries@.take(entries@.len() as int) == entries@,
            grew(r0, *report, orphan_errs(deep, dir@.take(i as int), known), orphan_warns(deep, dir@.take(i as int), known)),
            report.checked_hot_cells == r0.checked_hot_cells,
            report.checked_sealed_pages == r0.checked_sealed_pages,
            report.checked_sealed_cells == r0.checked_sealed_cells,
        decreases dir@.len() - i,
    {
        let f = &dir[i];
        let ghost before = dir@.take(i as int);
        let ghost after = dir@.take(i + 1);
        let ghost mid = *report;
        proof {
            assert(after.drop_last() =~= before);
            assert(after.last() == *f);
        }
        if !file_in_entries(entries, entries.len(), f.as_str()) {
            let m = text_message("orphan page file not referenced by catalog: ", f.as_str());
            if deep && ends_with_page_suffix_exec(f.as_str()) {
                error(report, m);
                proof {
                    lemma_grew_trans(
                        r0,
                        mid,
                        *report,
                        orphan_errs(deep, before, known),
                        orphan_warns(deep, before, known),
                        seq![m@],
                        Seq::empty(),
                    );
                }
            } else {
                warning(report, m);
                proof {
                    lemma_grew_trans(
                        r0,
                        mid,
                        *report,
                        orphan_errs(deep, before, known),
                        orphan_warns(deep, before, known),
                        Seq::empty(),
                        seq![m@],
                    );
                }
            }
        } else {
            proof {
                lemma_grew_refl(*report);
                lemma_grew_trans(
                    r0,
                    mid,
                    *report,
                    orphan_errs(deep, before, known),
                    orphan_warns(deep, before, known),
                    Seq::empty(),
                    Seq::empty(),
                );
            }
        }
        proof {
            assert(orphan_errs(deep, after, known) =~= orphan_errs(deep, before, known) + (if !known.contains(f@) && deep
                && ends_with_page_suffix(f@) {
                seq![orphan_msg(f@)]
            } else {
                Seq::empty()
            }));
            assert(orphan_warns(deep, after, known) =~= orphan_warns(deep, before, known) + (if !known.contains(f@) && !(
            deep && ends_with_page_suffix(f@)) {
                seq![orphan_msg(f@)]
            } else {
                Seq::empty()
            }));
        }
        i += 1;
    }
    proof {
        assert(dir@.take(i as int) =~= dir@);
    }
}

/// Index-directory files the store does not write.
fn check_index_dir(dir: &Vec<String>, report: &mut ValidationReport)
    ensures
        grew(*old(report), *final(report), Seq::empty(), unknown_index_warns(dir@)),
        final(report).checked_hot_cells == old(report).checked_hot_cells,
        final(report).checked_sealed_pages == old(report).checked_sealed_pages,
        final(report).checked_sealed_cells == old(report).checked_sealed_cells,
{
    let ghost r0 = *report;
    let mut i: usize = 0;
    proof {
        lemma_grew_refl(r0);
        assert(dir@.take(0) =~= Seq::<String>::empty());
    }
    while i < dir.len()
        invariant
            i <= dir@.len(),
            grew(r0, *report, Seq::empty(), unknown_index_warns(dir@.take(i as int))),
            report.checked_hot_cells == r0.checked_hot_cells,
            report.checked_sealed_pages == r0.checked_sealed_pages,
            report.checked_sealed_cells == r0.checked_sealed_cells,
        decreases dir@.len() - i,
    {
        let f = &dir[i];
        let ghost before = dir@.take(i as int);
        let ghost after = dir@.take(i + 1);
        let ghost mid = *report;
        proof {
            assert(after.drop_last() =~= before);
            assert(after.last() == *f);
            assert(Seq::<Seq<char>>::empty() + Seq::<Seq<char>>::empty() =~= Seq::<Seq<char>>::empty());
        }
        if !is_known_index_file(f.as_str()) {
            let m = text_message("unknown index file not managed by store: ", f.as_str());
            warning(report, m);
            proof {
                lemma_grew_trans(r0, mid, *report, Seq::empty(), unknown_index_warns(before), Seq::empty(), seq![m@]);
            }
        } else {
            proof {
                lemma_grew_refl(*report);
                lemma_grew_trans(r0, mid, *report, Seq::empty(), unknown_index_warns(before), Seq::empty(), Seq::empty());
                assert(unknown_index_warns(before) + Seq::<Seq<char>>::empty() =~= unknown_index_warns(before));
            }
        }
        i += 1;
    }
    proof {
        assert(dir@.take(i as int) =~= dir@);
    }
}

fn check_next_ids(
    has_pages: bool,
    next_page_id: PageId,
    max_page: u64,
    next_cell_id: CellId,
    max_cell: u64,
    report: &mut ValidationReport,
)
    ensures
        grew(
            *old(report),
            *final(report),
            (if has_pages && next_page_id <= max_page {
                seq![
                    "manifest next_page_id "@ + decimal(next_page_id as nat)
                        + " must be greater than max sealed page id "@ + decimal(max_page as nat),
                ]
            } else {
                Seq::empty()
            }) + (if max_cell > 0 && next_cell_id <= max_cell {
                seq![
                    "manifest next_cell_id "@ + decimal(next_cell_id as nat) + " must be greater than max cell id "@
                        + decimal(max_cell as nat),
                ]
            } else {
                Seq::empty()
            }),
            Seq::empty(),
        ),
        final(report).checked_hot_cells == old(report).checked_hot_cells,
        final(report).checked_sealed_pages == old(report).checked_sealed_pages,
        final(report).checked_sealed_cells == old(report).checked_sealed_cells,
{
    let ghost r0 = *report;
    let ghost e1: Seq<Seq<char>> = if has_pages && next_page_id <= max_page {
        seq![
            "manifest next_page_id "@ + decimal(next_page_id as nat) + " must be greater than max sealed page id "@
                + decimal(max_page as nat),
        ]
    } else {
        Seq::empty()
    };
    if has_pages && next_page_id <= max_page {
        let mut m = id_message("manifest next_page_id ", next_page_id, " must be greater than max sealed page id ");
        push_decimal_str(&mut m, max_page);
        error(report, m);
    } else {
        proof {
            lemma_grew_refl(*report);
        }
    }
    let ghost mid = *report;
    if max_cell > 0 && next_cell_id <= max_cell {
        let mut m = id_message("manifest next_cell_id ", next_cell_id, " must be greater than max cell id ");
        push_decimal_str(&mut m, max_cell);
        error(report, m);
        proof {
            lemma_grew_trans(r0, mid, *report, e1, Seq::empty(), seq![m@], Seq::empty());
        }
    } else {
        proof {
            lemma_grew_refl(*report);
            lemma_grew_trans(r0, mid, *report, e1, Seq::empty(), Seq::empty(), Seq::empty());
        }
    }
    proof {
        assert(Seq::<Seq<char>>::empty() + Seq::<Seq<char>>::empty() =~= Seq::<Seq<char>>::empty());
    }
}

proof fn lemma_link_msgs(links: Seq<(String, CellId, Vec<CellId>)>, cells: Seq<(Seq<char>, MemoryCell)>, ids: Set<CellId>)
    requires
        links_view(links) == labeled_view(cells),
    ensures
        all_link_errors(links, ids) == labeled_link_errs(cells, ids),
        all_link_warnings(links) == labeled_link_warns(cells),
    decreases links.len(),
{
    assert(links_view(links).len() == links.len());
    assert(labeled_view(cells).len() == cells.len());
    assert(links.len() == cells.len());
    if links.len() > 0 {
        assert forall|i: int| 0 <= i < links.len() - 1 implies links_view(links.drop_last())[i] == labeled_view(
            cells.drop_last(),
        )[i] by {
            assert(links_view(links)[i] == labeled_view(cells)[i]);
            assert(links.drop_last()[i] == links[i]);
            assert(cells.drop_last()[i] == cells[i]);
        }
        assert(links_view(links.drop_last()) =~= labeled_view(cells.drop_last()));
        lemma_link_msgs(links.drop_last(), cells.drop_last(), ids);
        let k = links.len() - 1;
        assert(links_view(links)[k] == labeled_view(cells)[k]);
    }
}

/// Validates a store from what was found in its files. The report's errors
/// are `store_errors` and its warnings `store_warnings`, in order: the
/// catalog, dictionary, index and hot-log problems; then each hot cell; then
/// each catalog entry and its page; then orphan files; the manifest's next
/// ids; the candidate index against the catalog; and the links of every
/// cell. It counts the hot cells and the pages and cells read.
pub fn validate_store(obs: &StoreObservations, dictionary: &MarkerDictionary) -> (r: ValidationReport)
    requires
        dictionary.wf(),
        observations_fit(*obs),
    ensures
        r.index_kind == obs.manifest_index_kind,
        string_views(r.errors@) == store_errors(*obs, dictionary.view(), dictionary.errors_spec()),
        string_views(r.warnings@) == store_warnings(*obs),
        r.ok == (store_errors(*obs, dictionary.view(), dictionary.errors_spec()).len() == 0),
        r.checked_hot_cells == obs.hot_cells@.len(),
        r.checked_sealed_pages == read_pages(obs.page_files@).len(),
        r.checked_sealed_cells == sealed_cells(read_pages(obs.page_files@)).len(),
{
    let ghost d = dictionary.view();
    let mut report = ValidationReport::new(obs.manifest_index_kind);
    let ghost r0 = report;
    let default_catalog = PageCatalog::default();
    let catalog: &PageCatalog = match &obs.catalog {
        Ok(c) => c,
        Err(_) => &default_catalog,
    };
    let ghost entries = entries_of(*obs);
    proof {
        assert(catalog.pages@ == entries);
    }
    check_head(obs, catalog, dictionary, &mut report);
    let ghost e1 = head_errs(*obs, dictionary.errors_spec());
    let ghost w1 = head_warns(*obs);
    report.checked_hot_cells = obs.hot_cells.len();
    let ghost m1 = report;
    let mut seen: Vec<u64> = Vec::new();
    let mut links: Vec<(String, CellId, Vec<CellId>)> = Vec::new();
    let max_hot = check_hot(&obs.hot_cells, dictionary, &mut report, &mut seen, &mut links);
    proof {
        lemma_grew_trans(r0, m1, report, e1, w1, hot_errs(obs.hot_cells@, d), Seq::empty());
    }
    let ghost m2 = report;
    let nfiles = obs.page_files.len();
    proof {
        lemma_read_pages_len(obs.page_files@);
        assert(nfiles == obs.page_files@.len());
    }
    let (max_page, max_cell) = check_entries(
        &catalog.pages,
        &obs.page_files,
        Ghost(ids_of(obs.hot_cells@)),
        dictionary,
        &mut report,
        &mut seen,
        &mut links,
        max_hot,
    );
    let ghost e3 = entries_errs(entries, obs.page_files@, ids_of(obs.hot_cells@), d, entries.len() as int);
    let ghost w3 = entries_warns(entries, obs.page_files@, entries.len() as int);
    proof {
        lemma_grew_trans(r0, m2, report, e1 + hot_errs(obs.hot_cells@, d), w1 + Seq::empty(), e3, w3);
    }
    let ghost m3 = report;
    check_orphans(obs.deep, &obs.page_dir_files, &catalog.pages, &mut report);
    let ghost e4 = orphan_errs(obs.deep, obs.page_dir_files@, entry_files(entries));
    let ghost w4 = orphan_warns(obs.deep, obs.page_dir_files@, entry_files(entries));
    proof {
        lemma_grew_trans(r0, m3, report, e1 + hot_errs(obs.hot_cells@, d) + e3, w1 + Seq::empty() + w3, e4, w4);
    }
    let ghost m4 = report;
    check_index_dir(&obs.index_dir_files, &mut report);
    let ghost w5 = unknown_index_warns(obs.index_dir_files@);
    let ghost ea = e1 + hot_errs(obs.hot_cells@, d) + e3 + e4;
    let ghost wa = w1 + Seq::empty() + w3 + w4;
    proof {
        lemma_grew_trans(r0, m4, report, ea, wa, Seq::empty(), w5);
    }
    let ghost m5 = report;
    check_next_ids(catalog.pages.len() > 0, obs.next_page_id, max_page, obs.next_cell_id, max_cell, &mut report);
    let ghost e6 = next_id_errs(*obs);
    proof {
        lemma_grew_trans(r0, m5, report, ea + Seq::empty(), wa + w5, e6, Seq::empty());
    }
    let ghost m6 = report;
    let ghost eb = ea + Seq::empty() + e6;
    let ghost wb = wa + w5 + Seq::empty();
    match &obs.index {
        IndexCheck::Loaded(idx) => {
            let _ = validate_candidate_index(catalog, idx, dictionary, &mut report);
            proof {
                lemma_grew_trans(r0, m6, report, eb, wb, index_errors(entries, *idx, d), Seq::empty());
            }
        },
        _ => {
            proof {
                lemma_grew_refl(report);
                lemma_grew_trans(r0, m6, report, eb, wb, Seq::empty(), Seq::empty());
            }
        },
    }
    let ghost e7 = loaded_index_errs(*obs, d);
    let ghost m7 = report;
    let ghost cells = labeled_cells(*obs);
    proof {
        let sealed = sealed_cells(read_pages(obs.page_files@));
        assert(labeled_view(cells) =~= labeled_view(labeled("hot cell"@, obs.hot_cells@)) + labeled_view(
            labeled("sealed cell"@, sealed),
        ));
        lemma_link_msgs(links@, cells, all_cell_ids(*obs));
    }
    validate_cell_links(&seen, &links, &mut report);
    proof {
        lemma_grew_trans(
            r0,
            m7,
            report,
            eb + e7,
            wb + Seq::empty(),
            labeled_link_errs(cells, all_cell_ids(*obs)),
            labeled_link_warns(cells),
        );
    }
    let ghost m8 = report;
    let ghost ec = eb + e7 + labeled_link_errs(cells, all_cell_ids(*obs));
    let ghost wc = wb + Seq::empty() + labeled_link_warns(cells);
    if catalog.pages.len() == 0 && obs.hot_cells.len() == 0 {
        warning(&mut report, string_from("store contains no hot or sealed cells"));
        proof {
            lemma_grew_trans(r0, m8, report, ec, wc, Seq::empty(), seq!["store contains no hot or sealed cells"@]);
        }
    } else {
        proof {
            lemma_grew_refl(report);
            lemma_grew_trans(r0, m8, report, ec, wc, Seq::empty(), Seq::empty());
        }
    }
    proof {
        assert(string_views(r0.errors@) =~= Seq::<Seq<char>>::empty());
        assert(string_views(r0.warnings@) =~= Seq::<Seq<char>>::empty());
        assert(ec + Seq::<Seq<char>>::empty() =~= store_errors(*obs, d, dictionary.errors_spec()));
        assert(string_views(report.warnings@) =~= store_warnings(*obs));
    }
    report
}

} // verus!

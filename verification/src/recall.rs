//! The steps of a recall between the reads of the store's files: which
//! candidate pages to read, which hot and sealed cells to rank, and how the
//! ranked cells become a context packet.
use vstd::prelude::*;
use crate::errors::MgeError;
use crate::hot::{hot_lookup, HotMemoryLayer};
use crate::marker_dictionary::MarkerDictionary;
use crate::markers::string_views;
use crate::models::{
    cell_copy, plain_text, CellId, MarkerId, MemoryCell, MemoryStatus, PageId, RecallMode, SensitivityLevel,
};
use crate::pages::{page_copy, MemoryPage, PageCatalog, PageCatalogEntry};
use crate::packet::{ContextDebugInfo, ContextPacket, ContextScoreDebugItem};
use crate::retrieval::{
    any_hidden_status, any_secret, build_context_packet, hidden_status, marker_names, mode_score,
    packet_constraints, packet_warnings, ranked_ids, score_in_mode, scorable, take_at_most,
    unique_ranked, RankedCell, ScoringContext,
};
use crate::text::{decimal, push_decimal_str, push_str};
use crate::indexes::{CandidatePageQueryResult, IndexKind};
use crate::store::{
    law_rank_sort, prune_spec, rank_ordered, rank_sort, should_prune_candidate_page, PagePruneContext,
    RankedCellHandle, RankedCellSource,
};

verus! {

// ---------------------------------------------------------------------------
// Candidate pages to read
// ---------------------------------------------------------------------------

/// The position of the catalog entry of page `id` among the first `n`
/// entries: the last one with that id.
pub open spec fn catalog_pos(entries: Seq<PageCatalogEntry>, id: PageId, n: int) -> Option<int>
    decreases n,
{
    if n <= 0 || n > entries.len() {
        None
    } else if entries[n - 1].page_id == id {
        Some(n - 1)
    } else {
        catalog_pos(entries, id, n - 1)
    }
}

proof fn lemma_catalog_pos(entries: Seq<PageCatalogEntry>, id: PageId, n: int)
    requires
        0 <= n <= entries.len(),
    ensures
        match catalog_pos(entries, id, n) {
            Some(p) => 0 <= p < n && entries[p].page_id == id,
            None => forall|k: int| 0 <= k < n ==> (#[trigger] entries[k]).page_id != id,
        },
    decreases n,
{
    if n > 0 && entries[n - 1].page_id != id {
        lemma_catalog_pos(entries, id, n - 1);
    }
}

/// Of the candidate pages in order: the catalog positions of those to read
/// (those in the catalog that are not pruned), and how many were pruned.
pub open spec fn load_plan(
    candidates: Seq<PageId>,
    entries: Seq<PageCatalogEntry>,
    context: PagePruneContext,
) -> (Seq<usize>, nat)
    decreases candidates.len(),
{
    if candidates.len() == 0 {
        (Seq::empty(), 0)
    } else {
        let (load, pruned) = load_plan(candidates.drop_last(), entries, context);
        match catalog_pos(entries, candidates.last(), entries.len() as int) {
            None => (load, pruned),
            Some(p) => if prune_spec(entries[p], context) {
                (load, pruned + 1)
            } else {
                (load.push(p as usize), pruned)
            },
        }
    }
}

fn find_catalog_entry(entries: &Vec<PageCatalogEntry>, id: PageId) -> (r: Option<usize>)
    ensures
        match r {
            Some(q) => catalog_pos(entries@, id, entries@.len() as int) == Some(q as int),
            None => catalog_pos(entries@, id, entries@.len() as int) is None,
        },
{
    let mut n: usize = entries.len();
    while n > 0
        invariant
            n <= entries@.len(),
            catalog_pos(entries@, id, entries@.len() as int) == catalog_pos(entries@, id, n as int),
        decreases n,
    {
        if entries[n - 1].page_id == id {
            return Some(n - 1);
        }
        n -= 1;
    }
    None
}

/// See `load_plan`.
pub fn pages_to_load(candidates: &Vec<PageId>, catalog: &PageCatalog, context: &PagePruneContext) -> (r: (
    Vec<usize>,
    usize,
))
    ensures
        r.0@ == load_plan(candidates@, catalog.pages@, *context).0,
        r.1 == load_plan(candidates@, catalog.pages@, *context).1,
        forall|k: int| 0 <= k < r.0@.len() ==> #[trigger] r.0@[k] < catalog.pages@.len(),
{
    let mut load: Vec<usize> = Vec::new();
    let mut pruned: usize = 0;
    let mut i: usize = 0;
    while i < candidates.len()
        invariant
            i <= candidates@.len(),
            load@ == load_plan(candidates@.take(i as int), catalog.pages@, *context).0,
            pruned == load_plan(candidates@.take(i as int), catalog.pages@, *context).1,
            pruned <= i,
            forall|k: int| 0 <= k < load@.len() ==> #[trigger] load@[k] < catalog.pages@.len(),
        decreases candidates@.len() - i,
    {
        let ghost next = candidates@.take(i + 1);
        proof {
            assert(next.drop_last() =~= candidates@.take(i as int));
            assert(next.last() == candidates@[i as int]);
            assert(next.len() > 0);
            lemma_catalog_pos(catalog.pages@, candidates@[i as int], catalog.pages@.len() as int);
        }
        let ghost prev = load_plan(candidates@.take(i as int), catalog.pages@, *context);
        let ghost pos = catalog_pos(catalog.pages@, candidates@[i as int], catalog.pages@.len() as int);
        proof {
            assert(load_plan(next, catalog.pages@, *context) == match pos {
                None => prev,
                Some(p) => if prune_spec(catalog.pages@[p], *context) {
                    (prev.0, prev.1 + 1)
                } else {
                    (prev.0.push(p as usize), prev.1)
                },
            });
        }
        match find_catalog_entry(&catalog.pages, candidates[i]) {
            None => {},
            Some(p) => {
                proof {
                    assert(pos == Some(p as int));
                }
                if should_prune_candidate_page(&catalog.pages[p], context) {
                    pruned += 1;
                } else {
                    load.push(p);
                }
            },
        }
        proof {
            assert(load@ == load_plan(next, catalog.pages@, *context).0);
        }
        i += 1;
    }
    proof {
        assert(candidates@.take(i as int) =~= candidates@);
    }
    (load, pruned)
}

// ---------------------------------------------------------------------------
// Ranking cells
// ---------------------------------------------------------------------------

/// The handle of a scored cell at `source`.
pub open spec fn handle_of(source: RankedCellSource, cell: MemoryCell, d: ContextScoreDebugItem) -> RankedCellHandle {
    RankedCellHandle { source, cell_id: cell.id, updated_at: cell.updated_at, score: d.score, score_detail: d }
}

/// Handles of the first `n` cells of a page that the recall scores, in page
/// order.
pub open spec fn page_handles(
    page_id: PageId,
    cells: Seq<MemoryCell>,
    n: int,
    mode: RecallMode,
    context: ScoringContext,
) -> Seq<RankedCellHandle>
    decreases n,
{
    if n <= 0 || n > cells.len() {
        Seq::empty()
    } else {
        let before = page_handles(page_id, cells, n - 1, mode, context);
        match mode_score(mode, context, cells[n - 1]) {
            Some(d) => before.push(
                handle_of(RankedCellSource::Sealed { page_id, cell_index: (n - 1) as usize }, cells[n - 1], d),
            ),
            None => before,
        }
    }
}

/// Every cell of a page is small enough to score.
pub open spec fn page_scorable(page: MemoryPage) -> bool {
    forall|i: int| 0 <= i < page.cells@.len() ==> scorable(#[trigger] page.cells@[i])
}

/// The handles of the cells of a page that a recall in `mode` scores, in
/// page order, each pointing at its page and position.
pub fn rank_page_cells(page: &MemoryPage, mode: RecallMode, context: &ScoringContext) -> (out: Vec<
    RankedCellHandle,
>)
    requires
        page_scorable(*page),
    ensures
        out@ == page_handles(page.page_id, page.cells@, page.cells@.len() as int, mode, *context),
{
    let mut out: Vec<RankedCellHandle> = Vec::new();
    let mut i: usize = 0;
    while i < page.cells.len()
        invariant
            i <= page.cells@.len(),
            page_scorable(*page),
            out@ == page_handles(page.page_id, page.cells@, i as int, mode, *context),
        decreases page.cells@.len() - i,
    {
        let cell = &page.cells[i];
        match score_in_mode(cell, mode, context) {
            Some(d) => {
                out.push(
                    RankedCellHandle {
                        source: RankedCellSource::Sealed { page_id: page.page_id, cell_index: i },
                        cell_id: cell.id,
                        updated_at: cell.updated_at,
                        score: d.score,
                        score_detail: d,
                    },
                );
            },
            None => {},
        }
        i += 1;
    }
    out
}

/// Handles of the hot cells with the first `n` of `ids` that the recall
/// scores, in the order of `ids`.
pub open spec fn hot_handles(
    cells: Seq<MemoryCell>,
    ids: Seq<CellId>,
    n: int,
    mode: RecallMode,
    context: ScoringContext,
) -> Seq<RankedCellHandle>
    decreases n,
{
    if n <= 0 || n > ids.len() {
        Seq::empty()
    } else {
        let before = hot_handles(cells, ids, n - 1, mode, context);
        match hot_lookup(cells, ids[n - 1]) {
            None => before,
            Some(c) => match mode_score(mode, context, c) {
                Some(d) => before.push(handle_of(RankedCellSource::Hot(c.id), c, d)),
                None => before,
            },
        }
    }
}

/// Every hot cell is small enough to score.
pub open spec fn hot_scorable(hot: HotMemoryLayer) -> bool {
    forall|i: int| 0 <= i < hot.cells().len() ==> scorable(#[trigger] hot.cells()[i])
}

/// The handles of the hot cells with the given ids that a recall in `mode`
/// scores, in the order of the ids; ids the layer does not hold are skipped.
pub fn rank_hot_cells(hot: &HotMemoryLayer, ids: &Vec<CellId>, mode: RecallMode, context: &ScoringContext) -> (out: Vec<
    RankedCellHandle,
>)
    requires
        hot_scorable(*hot),
    ensures
        out@ == hot_handles(hot.cells(), ids@, ids@.len() as int, mode, *context),
{
    let mut out: Vec<RankedCellHandle> = Vec::new();
    let mut i: usize = 0;
    while i < ids.len()
        invariant
            i <= ids@.len(),
            hot_scorable(*hot),
            out@ == hot_handles(hot.cells(), ids@, i as int, mode, *context),
        decreases ids@.len() - i,
    {
        match hot.cell(ids[i]) {
            Some(cell) => {
                match score_in_mode(cell, mode, context) {
                    Some(d) => {
                        out.push(
                            RankedCellHandle {
                                source: RankedCellSource::Hot(cell.id),
                                cell_id: cell.id,
                                updated_at: cell.updated_at,
                                score: d.score,
                                score_detail: d,
                            },
                        );
                    },
                    None => {},
                }
            },
            None => {},
        }
        i += 1;
    }
    out
}

// ---------------------------------------------------------------------------
// From ranked handles to a context packet
// ---------------------------------------------------------------------------

/// The cell ids of a sequence of handles.
pub open spec fn handle_ids(s: Seq<RankedCellHandle>) -> Set<CellId> {
    s.map_values(|h: RankedCellHandle| h.cell_id).to_set()
}

/// The handles with later repetitions of a cell id dropped.
pub open spec fn unique_handles(s: Seq<RankedCellHandle>) -> Seq<RankedCellHandle>
    decreases s.len(),
{
    if s.len() == 0 {
        Seq::empty()
    } else {
        let u = unique_handles(s.drop_last());
        if handle_ids(u).contains(s.last().cell_id) {
            u
        } else {
            u.push(s.last())
        }
    }
}

proof fn lemma_unique_handles_distinct(s: Seq<RankedCellHandle>)
    ensures
        forall|i: int, j: int|
            0 <= i < j < unique_handles(s).len() ==> (#[trigger] unique_handles(s)[i]).cell_id
                != (#[trigger] unique_handles(s)[j]).cell_id,
    decreases s.len(),
{
    if s.len() > 0 {
        let u = unique_handles(s.drop_last());
        lemma_unique_handles_distinct(s.drop_last());
        if !handle_ids(u).contains(s.last().cell_id) {
            let t = u.push(s.last());
            assert forall|i: int, j: int| 0 <= i < j < t.len() implies (#[trigger] t[i]).cell_id != (
            #[trigger] t[j]).cell_id by {
                if j == u.len() {
                    assert(u.map_values(|h: RankedCellHandle| h.cell_id)[i] == u[i].cell_id);
                    assert(handle_ids(u).contains(u[i].cell_id));
                } else {
                    assert(t[i] == u[i] && t[j] == u[j]);
                }
            }
        }
    }
}

/// Handles that point at a hot cell carry that cell's id.
pub open spec fn handles_consistent(s: Seq<RankedCellHandle>) -> bool {
    forall|k: int|
        0 <= k < s.len() ==> match (#[trigger] s[k]).source {
            RankedCellSource::Hot(id) => id == s[k].cell_id,
            _ => true,
        }
}

/// The position of the last of the first `n` loaded pages with id `id`.
pub open spec fn page_pos(pages: Seq<MemoryPage>, id: PageId, n: int) -> Option<int>
    decreases n,
{
    if n <= 0 || n > pages.len() {
        None
    } else if pages[n - 1].page_id == id {
        Some(n - 1)
    } else {
        page_pos(pages, id, n - 1)
    }
}

proof fn lemma_page_pos(pages: Seq<MemoryPage>, id: PageId, n: int)
    requires
        0 <= n <= pages.len(),
    ensures
        page_pos(pages, id, n) matches Some(p) ==> 0 <= p < n && pages[p].page_id == id,
    decreases n,
{
    if n > 0 && pages[n - 1].page_id != id {
        lemma_page_pos(pages, id, n - 1);
    }
}

/// The cell a handle points at: the hot cell with its id, or the cell at its
/// position on its loaded page when that cell has the handle's id.
pub open spec fn resolve_spec(h: RankedCellHandle, hot: Seq<MemoryCell>, pages: Seq<MemoryPage>) -> Option<
    MemoryCell,
> {
    match h.source {
        RankedCellSource::Hot(id) => hot_lookup(hot, id),
        RankedCellSource::Sealed { page_id, cell_index } => match page_pos(
            pages,
            page_id,
            pages.len() as int,
        ) {
            None => None,
            Some(p) => if cell_index < pages[p].cells@.len() && pages[p].cells@[cell_index as int].id
                == h.cell_id {
                Some(pages[p].cells@[cell_index as int])
            } else {
                None
            },
        },
    }
}

/// The message of the error a handle that points at no cell gives.
pub open spec fn resolve_error(h: RankedCellHandle, hot: Seq<MemoryCell>, pages: Seq<MemoryPage>) -> Seq<
    char,
> {
    match h.source {
        RankedCellSource::Hot(id) => "ranked hot cell "@ + decimal(id as nat) + " is missing"@,
        RankedCellSource::Sealed { page_id, cell_index } => match page_pos(
            pages,
            page_id,
            pages.len() as int,
        ) {
            None => "ranked sealed page "@ + decimal(page_id as nat) + " is missing"@,
            Some(p) => if cell_index >= pages[p].cells@.len() {
                "ranked sealed cell index "@ + decimal(cell_index as nat) + " is missing from page "@
                    + decimal(page_id as nat)
            } else {
                "ranked sealed cell id mismatch on page "@ + decimal(page_id as nat) + ": expected "@
                    + decimal(h.cell_id as nat) + ", found "@ + decimal(
                    pages[p].cells@[cell_index as int].id as nat,
                )
            },
        },
    }
}

fn find_page(pages: &[MemoryPage], id: PageId) -> (r: Option<usize>)
    ensures
        match r {
            Some(q) => page_pos(pages@, id, pages@.len() as int) == Some(q as int),
            None => page_pos(pages@, id, pages@.len() as int) is None,
        },
{
    let mut n: usize = pages.len();
    while n > 0
        invariant
            n <= pages@.len(),
            page_pos(pages@, id, pages@.len() as int) == page_pos(pages@, id, n as int),
        decreases n,
    {
        if pages[n - 1].page_id == id {
            return Some(n - 1);
        }
        n -= 1;
    }
    None
}

fn resolve_handle<'a>(h: &RankedCellHandle, hot: &'a HotMemoryLayer, pages: &'a [MemoryPage]) -> (r: Result<
    &'a MemoryCell,
    MgeError,
>)
    ensures
        match r {
            Ok(c) => resolve_spec(*h, hot.cells(), pages@) == Some(*c),
            Err(e) => resolve_spec(*h, hot.cells(), pages@) is None && (e matches MgeError::InvalidInput(m)
                && m@ == resolve_error(*h, hot.cells(), pages@)),
        },
{
    match h.source {
        RankedCellSource::Hot(id) => match hot.cell(id) {
            Some(c) => Ok(c),
            None => {
                let mut m = String::new();
                push_str(&mut m, "ranked hot cell ");
                push_decimal_str(&mut m, id);
                push_str(&mut m, " is missing");
                proof {
                    reveal_strlit("ranked hot cell ");
                    reveal_strlit(" is missing");
                    assert(m@ =~= resolve_error(*h, hot.cells(), pages@));
                }
                Err(MgeError::InvalidInput(m))
            },
        },
        RankedCellSource::Sealed { page_id, cell_index } => {
            proof {
                lemma_page_pos(pages@, page_id, pages@.len() as int);
            }
            match find_page(pages, page_id) {
                None => {
                    let mut m = String::new();
                    push_str(&mut m, "ranked sealed page ");
                    push_decimal_str(&mut m, page_id);
                    push_str(&mut m, " is missing");
                    proof {
                        reveal_strlit("ranked sealed page ");
                        reveal_strlit(" is missing");
                        assert(m@ =~= resolve_error(*h, hot.cells(), pages@));
                    }
                    Err(MgeError::InvalidInput(m))
                },
                Some(p) => {
                    let page = &pages[p];
                    if cell_index >= page.cells.len() {
                        let mut m = String::new();
                        push_str(&mut m, "ranked sealed cell index ");
                        push_decimal_str(&mut m, cell_index as u64);
                        push_str(&mut m, " is missing from page ");
                        push_decimal_str(&mut m, page_id);
                        proof {
                            reveal_strlit("ranked sealed cell index ");
                            reveal_strlit(" is missing from page ");
                            assert(m@ =~= resolve_error(*h, hot.cells(), pages@));
                        }
                        Err(MgeError::InvalidInput(m))
                    } else if page.cells[cell_index].id != h.cell_id {
                        let mut m = String::new();
                        push_str(&mut m, "ranked sealed cell id mismatch on page ");
                        push_decimal_str(&mut m, page_id);
                        push_str(&mut m, ": expected ");
                        push_decimal_str(&mut m, h.cell_id);
                        push_str(&mut m, ", found ");
                        push_decimal_str(&mut m, page.cells[cell_index].id);
                        proof {
                            reveal_strlit("ranked sealed cell id mismatch on page ");
                            reveal_strlit(": expected ");
                            reveal_strlit(", found ");
                            assert(m@ =~= resolve_error(*h, hot.cells(), pages@));
                        }
                        Err(MgeError::InvalidInput(m))
                    } else {
                        Ok(&page.cells[cell_index])
                    }
                },
            }
        },
    }
}

/// The ranked cells that the handles point at.
pub open spec fn resolved_ranked(chosen: Seq<RankedCellHandle>, hot: Seq<MemoryCell>, pages: Seq<MemoryPage>) -> Seq<
    RankedCell,
> {
    Seq::new(
        chosen.len(),
        |m: int|
            RankedCell {
                cell: resolve_spec(chosen[m], hot, pages)->Some_0,
                score: chosen[m].score,
                score_detail: chosen[m].score_detail,
            },
    )
}

/// Every handle points at a cell.
pub open spec fn all_resolve(chosen: Seq<RankedCellHandle>, hot: Seq<MemoryCell>, pages: Seq<MemoryPage>) -> bool {
    forall|m: int| 0 <= m < chosen.len() ==> (#[trigger] resolve_spec(chosen[m], hot, pages)) is Some
}

/// `k` is the first handle that points at no cell.
pub open spec fn first_unresolved(
    chosen: Seq<RankedCellHandle>,
    hot: Seq<MemoryCell>,
    pages: Seq<MemoryPage>,
    k: int,
) -> bool {
    &&& 0 <= k < chosen.len()
    &&& resolve_spec(chosen[k], hot, pages) is None
    &&& all_resolve(chosen.take(k), hot, pages)
}

/// The packet holds `rs` as its relevant memory (with the dictionary names of
/// their markers), their score breakdowns, the constraints and warnings they
/// call for, and `debug` with the candidate and item counts filled in.
pub open spec fn packet_holds(
    p: ContextPacket,
    query: String,
    rs: Seq<RankedCell>,
    reverse: Map<MarkerId, Seq<char>>,
    debug: ContextDebugInfo,
    total_candidates: nat,
) -> bool {
    &&& p.query == query
    &&& p.relevant_memory@.len() == rs.len()
    &&& forall|k: int|
        0 <= k < rs.len() ==> {
            let r = #[trigger] rs[k];
            let item = p.relevant_memory@[k];
            &&& item.kind == r.cell.kind
            &&& item.content@ == plain_text(r.cell.value)
            &&& item.trust == r.cell.trust
            &&& item.status == r.cell.status
            &&& item.scope@ == r.cell.scope@
            &&& item.sensitivity == r.cell.sensitivity
            &&& string_views(item.markers@) == marker_names(reverse, r.cell.markers@)
        }
    &&& p.debug.score_details@ == rs.map_values(|r: RankedCell| r.score_detail)
    &&& string_views(p.constraints@) == packet_constraints(rs)
    &&& string_views(p.warnings@) == packet_warnings(rs)
    &&& p.debug == (ContextDebugInfo {
        total_candidates: total_candidates as usize,
        returned_items: rs.len() as usize,
        score_details: p.debug.score_details,
        ..debug
    })
}

proof fn lemma_unique_ranked_of_distinct(s: Seq<RankedCell>)
    requires
        forall|i: int, j: int| 0 <= i < j < s.len() ==> (#[trigger] s[i]).cell.id != (#[trigger] s[j]).cell.id,
    ensures
        unique_ranked(s) == s,
    decreases s.len(),
{
    if s.len() > 0 {
        let d = s.drop_last();
        lemma_unique_ranked_of_distinct(d);
        assert(unique_ranked(d) == d);
        if ranked_ids(d).contains(s.last().cell.id) {
            let ids = d.map_values(|r: RankedCell| r.cell.id);
            let i = choose|i: int| 0 <= i < ids.len() && #[trigger] ids[i] == s.last().cell.id;
            assert(s[i].cell.id == s[s.len() - 1].cell.id);
        }
        assert(d.push(s.last()) =~= s);
    }
}

proof fn lemma_same_flags(a: Seq<RankedCell>, b: Seq<RankedCell>)
    requires
        a.len() == b.len(),
        forall|k: int|
            0 <= k < a.len() ==> (#[trigger] a[k]).cell.status == b[k].cell.status && a[k].cell.sensitivity
                == b[k].cell.sensitivity,
    ensures
        packet_constraints(a) == packet_constraints(b),
        packet_warnings(a) == packet_warnings(b),
{
    if any_hidden_status(a) {
        let m = choose|m: int| 0 <= m < a.len() && hidden_status(#[trigger] a[m].cell.status);
        assert(hidden_status(b[m].cell.status));
    }
    if any_hidden_status(b) {
        let m = choose|m: int| 0 <= m < b.len() && hidden_status(#[trigger] b[m].cell.status);
        assert(hidden_status(a[m].cell.status));
    }
    if any_secret(a) {
        let m = choose|m: int|
            0 <= m < a.len() && (#[trigger] a[m].cell.sensitivity) == SensitivityLevel::SecretReference;
        assert(b[m].cell.sensitivity == SensitivityLevel::SecretReference);
    }
    if any_secret(b) {
        let m = choose|m: int|
            0 <= m < b.len() && (#[trigger] b[m].cell.sensitivity) == SensitivityLevel::SecretReference;
        assert(a[m].cell.sensitivity == SensitivityLevel::SecretReference);
    }
}

/// Builds the context packet of ranked handles: later repetitions of a cell
/// id are dropped, and the first `max_items` remaining handles are looked up
/// (in the hot layer, or on the loaded pages) and become the packet's
/// relevant memory, as `build_context_packet` makes it; the number of
/// distinct cell ids is the packet's candidate count. The first of those
/// handles that points at no cell is an `InvalidInput` error naming it.
pub fn pack_ranked_handles(
    query: String,
    handles: &[RankedCellHandle],
    hot: &HotMemoryLayer,
    pages: &[MemoryPage],
    dictionary: &MarkerDictionary,
    debug: ContextDebugInfo,
    max_items: usize,
) -> (r: Result<ContextPacket, MgeError>)
    requires
        dictionary.wf(),
        handles_consistent(handles@),
    ensures
        ({
            let chosen = take_at_most(unique_handles(handles@), max_items);
            match r {
                Ok(p) => all_resolve(chosen, hot.cells(), pages@) && packet_holds(
                    p,
                    query,
                    resolved_ranked(chosen, hot.cells(), pages@),
                    dictionary.view().reverse,
                    debug,
                    unique_handles(handles@).len(),
                ),
                Err(e) => exists|k: int|
                    first_unresolved(chosen, hot.cells(), pages@, k) && (e matches MgeError::InvalidInput(m)
                        && m@ == resolve_error(chosen[k], hot.cells(), pages@)),
            }
        }),
{
    let mut seen: Vec<u64> = Vec::new();
    let mut unique: Vec<usize> = Vec::new();
    let mut i: usize = 0;
    proof {
        assert(handles@.take(0) =~= Seq::<RankedCellHandle>::empty());
        assert(handle_ids(Seq::<RankedCellHandle>::empty()) =~= Set::<CellId>::empty());
        assert(seen@.to_set() =~= Set::<u64>::empty());
    }
    while i < handles.len()
        invariant
            i <= handles.len(),
            crate::idset::strictly_increasing(seen@),
            seen@.to_set() == handle_ids(unique_handles(handles@.take(i as int))),
            unique@.len() == unique_handles(handles@.take(i as int)).len(),
            forall|k: int|
                0 <= k < unique@.len() ==> #[trigger] unique@[k] < i && handles@[unique@[k] as int]
                    == unique_handles(handles@.take(i as int))[k],
        decreases handles.len() - i,
    {
        let id = handles[i].cell_id;
        let ghost u = unique_handles(handles@.take(i as int));
        proof {
            assert(handles@.take(i + 1).drop_last() =~= handles@.take(i as int));
            assert(handles@.take(i + 1).last() == handles@[i as int]);
        }
        if !crate::idset::contains_id(&seen, id) {
            crate::idset::set_insert(&mut seen, id);
            unique.push(i);
            proof {
                let nu = u.push(handles@[i as int]);
                assert(nu.map_values(|h: RankedCellHandle| h.cell_id) =~= u.map_values(
                    |h: RankedCellHandle| h.cell_id,
                ).push(id));
                crate::idset::lemma_push_to_set(u.map_values(|h: RankedCellHandle| h.cell_id), id);
            }
        }
        i += 1;
    }
    proof {
        assert(handles@.take(i as int) =~= handles@);
        lemma_unique_handles_distinct(handles@);
    }
    let ghost all = unique_handles(handles@);
    let ghost chosen = take_at_most(all, max_items);
    let ghost hc = hot.cells();
    let total = unique.len();
    let count: usize = if unique.len() < max_items {
        unique.len()
    } else {
        max_items
    };
    let mut ranked: Vec<RankedCell> = Vec::new();
    let mut k: usize = 0;
    while k < count
        invariant
            k <= count,
            count == chosen.len(),
            chosen == take_at_most(all, max_items),
            all == unique_handles(handles@),
            handles_consistent(handles@),
            hc == hot.cells(),
            unique@.len() == all.len(),
            forall|m: int|
                0 <= m < unique@.len() ==> #[trigger] unique@[m] < handles@.len() && handles@[unique@[m] as int]
                    == all[m],
            ranked@.len() == k,
            all_resolve(chosen.take(k as int), hc, pages@),
            forall|m: int|
                0 <= m < k ==> {
                    let r = #[trigger] ranked@[m];
                    &&& cell_copy(r.cell, resolved_ranked(chosen, hc, pages@)[m].cell)
                    &&& r.score == chosen[m].score
                    &&& r.score_detail == chosen[m].score_detail
                    &&& r.cell.id == chosen[m].cell_id
                },
        decreases count - k,
    {
        let h = &handles[unique[k]];
        proof {
            assert(chosen[k as int] == all[k as int]);
            assert(*h == chosen[k as int]);
        }
        match resolve_handle(h, hot, pages) {
            Err(e) => {
                proof {
                    assert(first_unresolved(chosen, hc, pages@, k as int));
                }
                return Err(e);
            },
            Ok(c) => {
                let ghost src = resolve_spec(*h, hc, pages@)->Some_0;
                proof {
                    match h.source {
                        RankedCellSource::Hot(id) => {
                            let u = unique@[k as int] as int;
                            assert(handles@[u] == *h);
                            assert(id == h.cell_id);
                        },
                        _ => {},
                    }
                }
                ranked.push(RankedCell { cell: c.clone(), score: h.score, score_detail: h.score_detail });
                proof {
                    assert(chosen.take(k + 1) =~= chosen.take(k as int).push(chosen[k as int]));
                    assert forall|m: int| 0 <= m < chosen.take(k + 1).len() implies (#[trigger] resolve_spec(
                        chosen.take(k + 1)[m],
                        hc,
                        pages@,
                    )) is Some by {
                        if m < k {
                            assert(chosen.take(k + 1)[m] == chosen.take(k as int)[m]);
                        }
                    }
                }
            },
        }
        k += 1;
    }
    proof {
        assert(chosen.take(k as int) =~= chosen);
        assert forall|a: int, b: int| 0 <= a < b < ranked@.len() implies (#[trigger] ranked@[a]).cell.id
            != (#[trigger] ranked@[b]).cell.id by {
            assert(chosen[a] == all[a] && chosen[b] == all[b]);
        }
        lemma_unique_ranked_of_distinct(ranked@);
        assert(take_at_most(unique_ranked(ranked@), max_items) == ranked@);
        let rs = resolved_ranked(chosen, hc, pages@);
        lemma_same_flags(ranked@, rs);
        assert(ranked@.map_values(|r: RankedCell| r.score_detail) =~= rs.map_values(
            |r: RankedCell| r.score_detail,
        ));
    }
    let mut packet = build_context_packet(query, &ranked, dictionary, debug, max_items);
    packet.debug.total_candidates = total;
    Ok(packet)
}

// ---------------------------------------------------------------------------
// Laws
// ---------------------------------------------------------------------------

/// A recall in any mode gives a cell no score, so never ranks it, when the
/// policy does not let it through: a secret reference without
/// `allow_secret_references`, a deprecated or superseded cell without
/// `include_deprecated`, a rejected cell without `include_rejected`.
pub proof fn law_hidden_cells_not_scored(mode: RecallMode, context: ScoringContext, cell: MemoryCell)
    requires
        (cell.sensitivity == SensitivityLevel::SecretReference
            && !context.filter_spec().policy_spec().allow_secret_references)
        || ((cell.status == MemoryStatus::Deprecated || cell.status == MemoryStatus::Superseded)
            && !context.filter_spec().policy_spec().include_deprecated)
        || (cell.status == MemoryStatus::Rejected && !context.filter_spec().policy_spec().include_rejected),
    ensures
        mode_score(mode, context, cell) is None,
{
}

/// `h` points at a cell (see `resolve_spec`) with its id, to which a recall in
/// `mode` gives exactly the score `h` carries.
pub open spec fn handle_from(
    h: RankedCellHandle,
    hot: Seq<MemoryCell>,
    pages: Seq<MemoryPage>,
    mode: RecallMode,
    context: ScoringContext,
) -> bool {
    match resolve_spec(h, hot, pages) {
        Some(c) => c.id == h.cell_id && mode_score(mode, context, c) == Some(h.score_detail) && h.score
            == h.score_detail.score,
        None => false,
    }
}

/// The handles of the cells of the first `n` loaded pages that a recall in
/// `mode` scores, page after page.
pub open spec fn pages_handles(pages: Seq<MemoryPage>, n: int, mode: RecallMode, context: ScoringContext) -> Seq<
    RankedCellHandle,
>
    decreases n,
{
    if n <= 0 || n > pages.len() {
        Seq::empty()
    } else {
        pages_handles(pages, n - 1, mode, context) + page_handles(
            pages[n - 1].page_id,
            pages[n - 1].cells@,
            pages[n - 1].cells@.len() as int,
            mode,
            context,
        )
    }
}

/// No two loaded pages have one id.
pub open spec fn distinct_page_ids(pages: Seq<MemoryPage>) -> bool {
    forall|i: int, j: int| 0 <= i < pages.len() && 0 <= j < pages.len() && #[trigger] pages[i].page_id
        == #[trigger] pages[j].page_id ==> i == j
}

proof fn lemma_hot_handles_from(
    hot: Seq<MemoryCell>,
    ids: Seq<CellId>,
    n: int,
    pages: Seq<MemoryPage>,
    mode: RecallMode,
    context: ScoringContext,
)
    requires
        0 <= n <= ids.len(),
    ensures
        forall|k: int| 0 <= k < hot_handles(hot, ids, n, mode, context).len() ==> handle_from(
            #[trigger] hot_handles(hot, ids, n, mode, context)[k],
            hot,
            pages,
            mode,
            context,
        ),
    decreases n,
{
    if n > 0 {
        lemma_hot_handles_from(hot, ids, n - 1, pages, mode, context);
        let before = hot_handles(hot, ids, n - 1, mode, context);
        let all = hot_handles(hot, ids, n, mode, context);
        match hot_lookup(hot, ids[n - 1]) {
            None => {},
            Some(c) => {
                assert(c.id == ids[n - 1]);
                match mode_score(mode, context, c) {
                    Some(d) => {
                        assert forall|k: int| 0 <= k < all.len() implies handle_from(#[trigger] all[k], hot, pages, mode, context) by {
                            if k < before.len() {
                                assert(all[k] == before[k]);
                            } else {
                                assert(all[k] == handle_of(RankedCellSource::Hot(c.id), c, d));
                            }
                        }
                    },
                    None => {},
                }
            },
        }
    }
}

proof fn lemma_page_pos_found(pages: Seq<MemoryPage>, id: PageId, n: int, p: int)
    requires
        0 <= p < n <= pages.len(),
        pages[p].page_id == id,
        distinct_page_ids(pages),
    ensures
        page_pos(pages, id, n) == Some(p),
    decreases n,
{
    if pages[n - 1].page_id != id {
        lemma_page_pos_found(pages, id, n - 1, p);
    } else {
        assert(pages[n - 1].page_id == pages[p].page_id);
    }
}

proof fn lemma_page_handles_from(
    hot: Seq<MemoryCell>,
    pages: Seq<MemoryPage>,
    p: int,
    n: int,
    mode: RecallMode,
    context: ScoringContext,
)
    requires
        0 <= p < pages.len(),
        0 <= n <= pages[p].cells@.len(),
        distinct_page_ids(pages),
    ensures
        forall|k: int| 0 <= k < page_handles(pages[p].page_id, pages[p].cells@, n, mode, context).len()
            ==> handle_from(
            #[trigger] page_handles(pages[p].page_id, pages[p].cells@, n, mode, context)[k],
            hot,
            pages,
            mode,
            context,
        ),
    decreases n,
{
    if n > 0 {
        lemma_page_handles_from(hot, pages, p, n - 1, mode, context);
        lemma_page_pos_found(pages, pages[p].page_id, pages.len() as int, p);
        let cells = pages[p].cells@;
        let before = page_handles(pages[p].page_id, cells, n - 1, mode, context);
        let all = page_handles(pages[p].page_id, cells, n, mode, context);
        match mode_score(mode, context, cells[n - 1]) {
            Some(d) => {
                assert forall|k: int| 0 <= k < all.len() implies handle_from(#[trigger] all[k], hot, pages, mode, context) by {
                    if k < before.len() {
                        assert(all[k] == before[k]);
                    } else {
                        assert(pages[p].cells.len() == pages[p].cells@.len());
                        assert((n - 1) as usize as int == n - 1);
                        assert(all[k] == handle_of(
                            RankedCellSource::Sealed { page_id: pages[p].page_id, cell_index: (n - 1) as usize },
                            cells[n - 1],
                            d,
                        ));
                    }
                }
            },
            None => {},
        }
    }
}

proof fn lemma_pages_handles_from(
    hot: Seq<MemoryCell>,
    pages: Seq<MemoryPage>,
    n: int,
    mode: RecallMode,
    context: ScoringContext,
)
    requires
        0 <= n <= pages.len(),
        distinct_page_ids(pages),
    ensures
        forall|k: int| 0 <= k < pages_handles(pages, n, mode, context).len() ==> handle_from(
            #[trigger] pages_handles(pages, n, mode, context)[k],
            hot,
            pages,
            mode,
            context,
        ),
    decreases n,
{
    if n > 0 {
        lemma_pages_handles_from(hot, pages, n - 1, mode, context);
        let cells = pages[n - 1].cells@;
        lemma_page_handles_from(hot, pages, n - 1, cells.len() as int, mode, context);
        let a = pages_handles(pages, n - 1, mode, context);
        let b = page_handles(pages[n - 1].page_id, cells, cells.len() as int, mode, context);
        let all = pages_handles(pages, n, mode, context);
        assert(all == a + b);
        assert forall|k: int| 0 <= k < all.len() implies handle_from(#[trigger] all[k], hot, pages, mode, context) by {
            if k < a.len() {
                assert(all[k] == a[k]);
            } else {
                assert(all[k] == b[k - a.len()]);
            }
        }
    }
}

proof fn lemma_unique_handles_from(s: Seq<RankedCellHandle>)
    ensures
        forall|k: int| 0 <= k < unique_handles(s).len() ==> s.contains(#[trigger] unique_handles(s)[k]),
    decreases s.len(),
{
    if s.len() > 0 {
        lemma_unique_handles_from(s.drop_last());
        let u = unique_handles(s.drop_last());
        assert forall|k: int| 0 <= k < unique_handles(s).len() implies s.contains(#[trigger] unique_handles(s)[k]) by {
            if k < u.len() {
                assert(unique_handles(s)[k] == u[k]);
                let j = choose|j: int| 0 <= j < s.drop_last().len() && s.drop_last()[j] == u[k];
                assert(s[j] == u[k]);
            } else {
                assert(unique_handles(s)[k] == s[s.len() - 1]);
            }
        }
    }
}

proof fn lemma_unique_handles_ordered(s: Seq<RankedCellHandle>)
    requires
        rank_ordered(s),
    ensures
        rank_ordered(unique_handles(s)),
        forall|k: int| 0 <= k < unique_handles(s).len() ==> exists|j: int| 0 <= j < s.len() && s[j]
            == #[trigger] unique_handles(s)[k] && (k == unique_handles(s).len() - 1 ==> j <= s.len() - 1),
    decreases s.len(),
{
    if s.len() > 0 {
        let d = s.drop_last();
        assert(rank_ordered(d)) by {
            assert forall|i: int, j: int| 0 <= i < j < d.len() implies !crate::store::ranks_before(#[trigger] d[j], #[trigger] d[i]) by {
                assert(d[i] == s[i] && d[j] == s[j]);
            }
        }
        lemma_unique_handles_ordered(d);
        lemma_unique_handles_from(d);
        let u = unique_handles(d);
        let w = unique_handles(s);
        assert forall|k: int| 0 <= k < w.len() implies exists|j: int| 0 <= j < s.len() && s[j] == #[trigger] w[k]
            && (k == w.len() - 1 ==> j <= s.len() - 1) by {
            if k < u.len() {
                assert(w[k] == u[k]);
                let j = choose|j: int| 0 <= j < d.len() && d[j] == u[k];
                assert(s[j] == w[k]);
            } else {
                assert(s[s.len() - 1] == w[k]);
            }
        }
        if !handle_ids(u).contains(s.last().cell_id) {
            assert forall|i: int, j: int| 0 <= i < j < w.len() implies !crate::store::ranks_before(#[trigger] w[j], #[trigger] w[i]) by {
                if j < u.len() {
                    assert(w[i] == u[i] && w[j] == u[j]);
                } else {
                    assert(w[j] == s[s.len() - 1]);
                    assert(w[i] == u[i]);
                    let q = choose|q: int| 0 <= q < d.len() && d[q] == u[i];
                    assert(s[q] == w[i]);
                    assert(q < s.len() - 1);
                }
            }
        }
    }
}

/// A whole recall: of the handles it scored in the hot layer and on the loaded
/// pages (with distinct ids), ranked and cut to the budget, the packet is made
/// of at most `max_items` handles of distinct cells, in rank order, each
/// pointing at a cell to which the recall gives exactly the score it carries:
/// every one a cell that the recall's filter and policy let through.
pub proof fn law_recall_packet(
    hot: Seq<MemoryCell>,
    ids: Seq<CellId>,
    pages: Seq<MemoryPage>,
    mode: RecallMode,
    context: ScoringContext,
    max_items: usize,
)
    requires
        distinct_page_ids(pages),
    ensures
        ({
            let scored = hot_handles(hot, ids, ids.len() as int, mode, context) + pages_handles(
                pages,
                pages.len() as int,
                mode,
                context,
            );
            let chosen = take_at_most(unique_handles(rank_sort(scored)), max_items);
            &&& chosen.len() <= max_items
            &&& rank_ordered(chosen)
            &&& forall|i: int, j: int| 0 <= i < j < chosen.len() ==> (#[trigger] chosen[i]).cell_id
                != (#[trigger] chosen[j]).cell_id
            &&& forall|k: int| 0 <= k < chosen.len() ==> handle_from(#[trigger] chosen[k], hot, pages, mode, context)
        }),
{
    broadcast use vstd::seq_lib::group_to_multiset_ensures;
    let hh = hot_handles(hot, ids, ids.len() as int, mode, context);
    let ph = pages_handles(pages, pages.len() as int, mode, context);
    let scored = hh + ph;
    lemma_hot_handles_from(hot, ids, ids.len() as int, pages, mode, context);
    lemma_pages_handles_from(hot, pages, pages.len() as int, mode, context);
    assert forall|k: int| 0 <= k < scored.len() implies handle_from(#[trigger] scored[k], hot, pages, mode, context) by {
        if k < hh.len() {
            assert(scored[k] == hh[k]);
        } else {
            assert(scored[k] == ph[k - hh.len()]);
        }
    }
    law_rank_sort(scored);
    let sorted = rank_sort(scored);
    lemma_unique_handles_ordered(sorted);
    lemma_unique_handles_from(sorted);
    law_packet_budget(sorted, max_items);
    let u = unique_handles(sorted);
    let chosen = take_at_most(u, max_items);
    assert forall|k: int| 0 <= k < chosen.len() implies handle_from(#[trigger] chosen[k], hot, pages, mode, context) by {
        assert(chosen[k] == u[k]);
        assert(sorted.contains(u[k]));
        assert(sorted.to_multiset().count(u[k]) > 0);
        assert(scored.to_multiset().count(u[k]) > 0);
        assert(scored.contains(u[k]));
        let j = choose|j: int| 0 <= j < scored.len() && scored[j] == u[k];
    }
    assert(rank_ordered(chosen)) by {
        assert forall|i: int, j: int| 0 <= i < j < chosen.len() implies !crate::store::ranks_before(#[trigger] chosen[j], #[trigger] chosen[i]) by {
            assert(chosen[i] == u[i] && chosen[j] == u[j]);
        }
    }
}

/// The handles a packet is made of are at most the budget, and no two of
/// them are of one cell.
pub proof fn law_packet_budget(handles: Seq<RankedCellHandle>, max_items: usize)
    ensures
        take_at_most(unique_handles(handles), max_items).len() <= max_items,
        forall|i: int, j: int|
            0 <= i < j < take_at_most(unique_handles(handles), max_items).len() ==> (#[trigger] take_at_most(
                unique_handles(handles),
                max_items,
            )[i]).cell_id != (#[trigger] take_at_most(unique_handles(handles), max_items)[j]).cell_id,
{
    lemma_unique_handles_distinct(handles);
    let u = unique_handles(handles);
    let c = take_at_most(u, max_items);
    assert forall|i: int, j: int| 0 <= i < j < c.len() implies (#[trigger] c[i]).cell_id != (#[trigger] c[j]).cell_id by {
        assert(c[i] == u[i] && c[j] == u[j]);
    }
}


// ---------------------------------------------------------------------------
// The recall's counts
// ---------------------------------------------------------------------------

/// What a recall counted on its way: the hot layer's size and its candidates,
/// the sealed cells scanned in the pages read, the pages read and pruned, the
/// pages read that gave no rankable cell, the cells ranked, and the hits and
/// misses of the decoded-page and scoring caches.
pub struct RecallCounts {
    pub hot_total_cells: usize,
    pub hot_candidate_cells: usize,
    pub sealed_cells_scanned: usize,
    pub loaded_pages: usize,
    pub pruned_candidate_pages: usize,
    pub false_positive_candidate_pages: usize,
    pub cells_ranked: usize,
    pub decoded_page_cache_hits: usize,
    pub decoded_page_cache_misses: usize,
    pub scoring_cache_hits: usize,
    pub scoring_cache_misses: usize,
}

/// The debug record of a recall from its counts, before its timings: the
/// cells scanned are the hot candidates and the sealed cells scanned, the
/// cells filtered those of them that were not ranked (at least 0), and full
/// scope is noted for a full-scope recall.
pub fn recall_debug_info(
    mode: RecallMode,
    max_items: usize,
    index_kind: IndexKind,
    counts: &RecallCounts,
    candidates: CandidatePageQueryResult,
) -> (d: ContextDebugInfo)
    requires
        counts.hot_candidate_cells + counts.sealed_cells_scanned <= usize::MAX,
    ensures
        d.recall_mode == mode && d.max_items == max_items && d.index_kind == index_kind,
        d.hot_total_cells == counts.hot_total_cells,
        d.hot_candidate_cells == counts.hot_candidate_cells,
        d.hot_cells_scanned == counts.hot_candidate_cells,
        d.cells_scanned == counts.hot_candidate_cells + counts.sealed_cells_scanned,
        d.pages_considered == candidates.candidate_pages_returned,
        d.page_filters_scanned == candidates.page_filters_scanned,
        d.candidate_pages_returned == candidates.candidate_pages_returned,
        d.candidate_pages@ == candidates.page_ids@,
        d.loaded_pages == counts.loaded_pages,
        d.decoded_page_cache_hits == counts.decoded_page_cache_hits,
        d.decoded_page_cache_misses == counts.decoded_page_cache_misses,
        d.scoring_cache_hits == counts.scoring_cache_hits,
        d.scoring_cache_misses == counts.scoring_cache_misses,
        d.pruned_candidate_pages == counts.pruned_candidate_pages,
        d.pages_pruned_by_metadata == counts.pruned_candidate_pages,
        d.sealed_cells_scanned == counts.sealed_cells_scanned,
        d.cells_decoded == counts.sealed_cells_scanned,
        d.cells_filtered == (if counts.hot_candidate_cells + counts.sealed_cells_scanned >= counts.cells_ranked {
            counts.hot_candidate_cells + counts.sealed_cells_scanned - counts.cells_ranked
        } else {
            0
        }),
        d.cells_ranked == counts.cells_ranked,
        d.total_candidates == counts.cells_ranked,
        d.false_positive_candidate_pages == counts.false_positive_candidate_pages,
        d.full_scope_used == (mode == RecallMode::FullScope),
        d.returned_items == 0,
        d.score_details@.len() == 0,
{
    let mut d = ContextDebugInfo::zero();
    let scanned = counts.hot_candidate_cells + counts.sealed_cells_scanned;
    d.recall_mode = mode;
    d.max_items = max_items;
    d.index_kind = index_kind;
    d.hot_total_cells = counts.hot_total_cells;
    d.hot_candidate_cells = counts.hot_candidate_cells;
    d.hot_cells_scanned = counts.hot_candidate_cells;
    d.cells_scanned = scanned;
    d.pages_considered = candidates.candidate_pages_returned;
    d.page_filters_scanned = candidates.page_filters_scanned;
    d.candidate_pages_returned = candidates.candidate_pages_returned;
    d.candidate_pages = candidates.page_ids;
    d.loaded_pages = counts.loaded_pages;
    d.decoded_page_cache_hits = counts.decoded_page_cache_hits;
    d.decoded_page_cache_misses = counts.decoded_page_cache_misses;
    d.scoring_cache_hits = counts.scoring_cache_hits;
    d.scoring_cache_misses = counts.scoring_cache_misses;
    d.pruned_candidate_pages = counts.pruned_candidate_pages;
    d.pages_pruned_by_metadata = counts.pruned_candidate_pages;
    d.sealed_cells_scanned = counts.sealed_cells_scanned;
    d.cells_decoded = counts.sealed_cells_scanned;
    d.cells_filtered = if scanned >= counts.cells_ranked {
        scanned - counts.cells_ranked
    } else {
        0
    };
    d.cells_ranked = counts.cells_ranked;
    d.total_candidates = counts.cells_ranked;
    d.false_positive_candidate_pages = counts.false_positive_candidate_pages;
    d.full_scope_used = match mode {
        RecallMode::FullScope => true,
        _ => false,
    };
    d
}


// ---------------------------------------------------------------------------
// The decoded-page cache
// ---------------------------------------------------------------------------

/// How many decoded pages an engine keeps for reuse.
pub const DECODED_PAGE_CACHE_CAPACITY: usize = 64;

/// A decoded page kept for reuse, and whether its scoring cache was built.
pub struct CachedDecodedPage {
    pub page: MemoryPage,
    pub scored: bool,
}

/// The page ids of cache entries, in order.
pub open spec fn cached_ids(es: Seq<CachedDecodedPage>) -> Seq<PageId> {
    es.map_values(|e: CachedDecodedPage| e.page.page_id)
}

/// The position of the entry for `id`, or -1.
pub open spec fn cached_pos(es: Seq<CachedDecodedPage>, id: PageId) -> int
    decreases es.len(),
{
    if es.len() == 0 {
        -1
    } else if es.last().page.page_id == id {
        es.len() - 1
    } else {
        cached_pos(es.drop_last(), id)
    }
}

/// The entries with the one at `i` moved to the most recent end.
pub open spec fn touched(es: Seq<CachedDecodedPage>, i: int) -> Seq<CachedDecodedPage> {
    es.remove(i).push(es[i])
}

/// The entries after putting in `e`: an entry with its page id is dropped,
/// `e` becomes the most recent, and the least recent entry is evicted when
/// the cache would hold more than `capacity`; a cache of capacity 0 keeps
/// nothing.
pub open spec fn cache_put(es: Seq<CachedDecodedPage>, e: CachedDecodedPage, capacity: usize) -> Seq<
    CachedDecodedPage,
> {
    if capacity == 0 {
        es
    } else {
        let p = cached_pos(es, e.page.page_id);
        let kept = if p >= 0 {
            es.remove(p)
        } else {
            es
        };
        let w = kept.push(e);
        if w.len() > capacity {
            w.drop_first()
        } else {
            w
        }
    }
}

/// Decoded pages kept for reuse, least recently used first, with at most
/// `capacity` of them and no page id twice.
pub struct DecodedPageCache {
    capacity: usize,
    entries: Vec<CachedDecodedPage>,
}

proof fn lemma_cached_pos(es: Seq<CachedDecodedPage>, id: PageId)
    ensures
        -1 <= cached_pos(es, id) < es.len(),
        cached_pos(es, id) >= 0 ==> es[cached_pos(es, id)].page.page_id == id,
        cached_pos(es, id) < 0 ==> forall|k: int| 0 <= k < es.len() ==> (#[trigger] es[k]).page.page_id != id,
    decreases es.len(),
{
    if es.len() > 0 {
        lemma_cached_pos(es.drop_last(), id);
        if es.last().page.page_id != id && cached_pos(es.drop_last(), id) < 0 {
            assert forall|k: int| 0 <= k < es.len() implies (#[trigger] es[k]).page.page_id != id by {
                if k < es.len() - 1 {
                    assert(es[k] == es.drop_last()[k]);
                }
            }
        }
    }
}

impl DecodedPageCache {
    #[verifier::type_invariant]
    closed spec fn bounded(self) -> bool {
        &&& cached_ids(self.entries@).no_duplicates()
        &&& self.entries@.len() <= self.capacity
    }

    /// The entries, least recently used first.
    pub closed spec fn entries_view(&self) -> Seq<CachedDecodedPage> {
        self.entries@
    }

    pub closed spec fn capacity_spec(&self) -> usize {
        self.capacity
    }

    /// An empty cache for at most `capacity` pages.
    pub fn new(capacity: usize) -> (c: Self)
        ensures
            c.entries_view().len() == 0,
            c.capacity_spec() == capacity,
    {
        let c = DecodedPageCache { capacity, entries: Vec::new() };
        proof {
            assert(cached_ids(c.entries@) =~= Seq::<PageId>::empty());
        }
        c
    }

    fn find(&self, id: PageId) -> (r: Option<usize>)
        ensures
            match r {
                Some(i) => i == cached_pos(self.entries_view(), id),
                None => cached_pos(self.entries_view(), id) < 0,
            },
    {
        let mut i = self.entries.len();
        proof {
            assert(self.entries@.take(i as int) =~= self.entries@);
        }
        while i > 0
            invariant
                i <= self.entries@.len(),
                cached_pos(self.entries@, id) == cached_pos(self.entries@.take(i as int), id),
            decreases i,
        {
            let ghost t = self.entries@.take(i as int);
            proof {
                assert(t.drop_last() =~= self.entries@.take(i - 1));
            }
            if self.entries[i - 1].page.page_id == id {
                return Some(i - 1);
            }
            i -= 1;
        }
        None
    }

    /// A copy of the cached page `id`, made the most recently used; `None`
    /// when it is not cached.
    pub fn get(&mut self, id: PageId) -> (r: Option<CachedDecodedPage>)
        ensures
            final(self).capacity_spec() == old(self).capacity_spec(),
            ({
                let p = cached_pos(old(self).entries_view(), id);
                if p >= 0 {
                    &&& final(self).entries_view() == touched(old(self).entries_view(), p)
                    &&& r matches Some(c) && page_copy(c.page, old(self).entries_view()[p].page)
                        && c.scored == old(self).entries_view()[p].scored
                } else {
                    &&& final(self).entries_view() == old(self).entries_view()
                    &&& r is None
                }
            }),
    {
        proof {
            use_type_invariant(&*self);
            lemma_cached_pos(self.entries@, id);
        }
        match self.find(id) {
            None => None,
            Some(i) => {
                let ghost old_es = self.entries@;
                let mut es: Vec<CachedDecodedPage> = Vec::new();
                std::mem::swap(&mut es, &mut self.entries);
                let e = es.remove(i);
                let copy = CachedDecodedPage { page: e.page.clone(), scored: e.scored };
                es.push(e);
                proof {
                    assert(es@ =~= touched(old_es, i as int));
                    let ids = cached_ids(es@);
                    let oids = cached_ids(old_es);
                    assert(ids =~= oids.remove(i as int).push(oids[i as int]));
                    assert forall|a: int, b: int| 0 <= a < ids.len() && 0 <= b < ids.len() && a != b implies ids[a]
                        != ids[b] by {
                        let ia = if a == ids.len() - 1 { i as int } else if a < i { a } else { a + 1 };
                        let ib = if b == ids.len() - 1 { i as int } else if b < i { b } else { b + 1 };
                        assert(ids[a] == oids[ia]);
                        assert(ids[b] == oids[ib]);
                    }
                }
                self.entries = es;
                Some(copy)
            },
        }
    }

    /// Marks the cached page `id` as having its scoring cache; a page that is
    /// not cached is left alone.
    pub fn set_scoring(&mut self, id: PageId)
        ensures
            final(self).capacity_spec() == old(self).capacity_spec(),
            ({
                let p = cached_pos(old(self).entries_view(), id);
                if p >= 0 {
                    final(self).entries_view() == old(self).entries_view().update(
                        p,
                        CachedDecodedPage { page: old(self).entries_view()[p].page, scored: true },
                    )
                } else {
                    final(self).entries_view() == old(self).entries_view()
                }
            }),
    {
        proof {
            use_type_invariant(&*self);
            lemma_cached_pos(self.entries@, id);
        }
        match self.find(id) {
            None => {},
            Some(i) => {
                let ghost old_es = self.entries@;
                let mut es: Vec<CachedDecodedPage> = Vec::new();
                std::mem::swap(&mut es, &mut self.entries);
                let e = es.remove(i);
                es.insert(i, CachedDecodedPage { page: e.page, scored: true });
                proof {
                    assert(es@ =~= old_es.update(i as int, CachedDecodedPage { page: old_es[i as int].page, scored: true }));
                    assert(cached_ids(es@) =~= cached_ids(old_es));
                }
                self.entries = es;
            },
        }
    }

    /// Keeps `page` as the most recently used entry (see `cache_put`).
    pub fn insert(&mut self, page: MemoryPage, scored: bool)
        ensures
            final(self).capacity_spec() == old(self).capacity_spec(),
            final(self).entries_view() == cache_put(
                old(self).entries_view(),
                CachedDecodedPage { page, scored },
                old(self).capacity_spec(),
            ),
    {
        proof {
            use_type_invariant(&*self);
            lemma_cached_pos(self.entries@, page.page_id);
        }
        if self.capacity == 0 {
            return;
        }
        let id = page.page_id;
        let ghost old_es = self.entries@;
        let ghost e_new = CachedDecodedPage { page, scored };
        let mut es: Vec<CachedDecodedPage> = Vec::new();
        std::mem::swap(&mut es, &mut self.entries);
        let ghost kept;
        match self.find_in(&es, id) {
            Some(i) => {
                es.remove(i);
                proof {
                    kept = old_es.remove(i as int);
                }
            },
            None => {
                proof {
                    kept = old_es;
                }
            },
        }
        es.push(CachedDecodedPage { page, scored });
        if es.len() > self.capacity {
            es.remove(0);
        }
        proof {
            let w = kept.push(e_new);
            assert(es@ =~= (if w.len() > self.capacity { w.drop_first() } else { w }));
            let kids = cached_ids(kept);
            let oids = cached_ids(old_es);
            assert(kids.no_duplicates()) by {
                let p = cached_pos(old_es, id);
                if p >= 0 {
                    assert(kids =~= oids.remove(p));
                    assert forall|a: int, b: int| 0 <= a < kids.len() && 0 <= b < kids.len() && a != b implies kids[a]
                        != kids[b] by {
                        let ia = if a < p { a } else { a + 1 };
                        let ib = if b < p { b } else { b + 1 };
                        assert(kids[a] == oids[ia]);
                        assert(kids[b] == oids[ib]);
                    }
                } else {
                    assert(kids == oids);
                }
            }
            assert forall|k: int| 0 <= k < kids.len() implies kids[k] != id by {
                let p = cached_pos(old_es, id);
                if p >= 0 {
                    let ik = if k < p { k } else { k + 1 };
                    assert(kids[k] == oids[ik]);
                    assert(oids[p] == id);
                    assert(ik != p);
                } else {
                    assert(kids[k] == oids[k]);
                    assert(old_es[k].page.page_id != id);
                }
            }
            let wids = cached_ids(w);
            assert(wids =~= kids.push(id));
            assert(wids.no_duplicates());
            if w.len() > self.capacity {
                assert(cached_ids(w.drop_first()) =~= wids.drop_first());
            }
        }
        self.entries = es;
    }

    fn find_in(&self, es: &Vec<CachedDecodedPage>, id: PageId) -> (r: Option<usize>)
        ensures
            match r {
                Some(i) => i == cached_pos(es@, id),
                None => cached_pos(es@, id) < 0,
            },
    {
        let mut i = es.len();
        proof {
            assert(es@.take(i as int) =~= es@);
        }
        while i > 0
            invariant
                i <= es@.len(),
                cached_pos(es@, id) == cached_pos(es@.take(i as int), id),
            decreases i,
        {
            let ghost t = es@.take(i as int);
            proof {
                assert(t.drop_last() =~= es@.take(i - 1));
            }
            if es[i - 1].page.page_id == id {
                return Some(i - 1);
            }
            i -= 1;
        }
        None
    }
}

/// A page that a recall finds in the cache: a copy of it, made the most
/// recently used, with whether its scoring cache was found (a hit) or had to
/// be made now (a miss, and the entry is marked as scored). A full-scope
/// recall (`include_scoring` false) uses no scoring cache. `None` when the
/// page is not cached.
pub fn cached_page_for_recall(cache: &mut DecodedPageCache, id: PageId, include_scoring: bool) -> (r: Option<
    (MemoryPage, bool, bool),
>)
    ensures
        final(cache).capacity_spec() == old(cache).capacity_spec(),
        ({
            let es = old(cache).entries_view();
            let p = cached_pos(es, id);
            if p >= 0 {
                let t = touched(es, p);
                let scored = es[p].scored;
                &&& r matches Some((page, hit, miss)) && page_copy(page, es[p].page)
                    && hit == (include_scoring && scored) && miss == (include_scoring && !scored)
                &&& final(cache).entries_view() == (if include_scoring && !scored {
                    t.update(t.len() - 1, CachedDecodedPage { page: es[p].page, scored: true })
                } else {
                    t
                })
            } else {
                r is None && final(cache).entries_view() == es
            }
        }),
{
    match cache.get(id) {
        None => None,
        Some(c) => {
            let ghost es_mid = cache.entries_view();
            proof {
                lemma_cached_pos(es_mid, id);
                let es = old(cache).entries_view();
                let p = cached_pos(es, id);
                lemma_cached_pos(es, id);
                assert(es_mid.last() == es[p]);
                assert(cached_pos(es_mid, id) == es_mid.len() - 1);
            }
            if include_scoring {
                if c.scored {
                    Some((c.page, true, false))
                } else {
                    cache.set_scoring(id);
                    Some((c.page, false, true))
                }
            } else {
                Some((c.page, false, false))
            }
        },
    }
}

/// Whether every cell of a page can be scored (see `page_scorable`).
pub fn page_is_scorable(page: &MemoryPage) -> (b: bool)
    ensures
        b == page_scorable(*page),
{
    let mut i: usize = 0;
    while i < page.cells.len()
        invariant
            i <= page.cells@.len(),
            forall|k: int| 0 <= k < i ==> scorable(#[trigger] page.cells@[k]),
        decreases page.cells@.len() - i,
    {
        if page.cells[i].markers.len() as u64 > 100_000_000_000_000_000u64 {
            return false;
        }
        i += 1;
    }
    true
}

/// Whether every hot handle names the cell it points at (see
/// `handles_consistent`).
pub fn handles_are_consistent(handles: &[RankedCellHandle]) -> (b: bool)
    ensures
        b == handles_consistent(handles@),
{
    let mut k: usize = 0;
    while k < handles.len()
        invariant
            k <= handles@.len(),
            forall|q: int| 0 <= q < k ==> match (#[trigger] handles@[q]).source {
                RankedCellSource::Hot(id) => id == handles@[q].cell_id,
                _ => true,
            },
        decreases handles@.len() - k,
    {
        match handles[k].source {
            RankedCellSource::Hot(id) => {
                if id != handles[k].cell_id {
                    return false;
                }
            },
            _ => {},
        }
        k += 1;
    }
    true
}
} // verus!

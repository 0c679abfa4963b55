//! The hot layer: cells remembered since the last seal, held in memory and
//! logged to an append-only file of frames.
use vstd::prelude::*;
use crate::binary::{
    codec_name, decode_frame_at, encode_frame, frame_bytes, parse_frame_at, CodecId, FileKind,
    HEADER_LEN,
};
use crate::errors::MgeError;
use crate::idset::strictly_increasing;
use crate::indexes::QueryMode;
use crate::markers::{canonical_value, canonical_value_chars};
use crate::models::{cell_copy, cell_marker_set, CellId, MarkerId, MemoryCell, MemoryKind, MemoryStatus};
use crate::pages::copies;
use crate::security::RecallPolicy;
use crate::text::{chars_eq, chars_of, decimal, push_decimal_str, push_str, signed_decimal, string_from};

verus! {

/// The statuses a recall may see under a policy: active, temporary,
/// unverified and verified always; deprecated and superseded with
/// `include_deprecated`; rejected with `include_rejected`.
pub open spec fn allowed_statuses_spec(policy: RecallPolicy) -> Seq<MemoryStatus> {
    seq![
        MemoryStatus::Active,
        MemoryStatus::Temporary,
        MemoryStatus::Unverified,
        MemoryStatus::Verified,
    ] + (if policy.include_deprecated {
        seq![MemoryStatus::Deprecated, MemoryStatus::Superseded]
    } else {
        Seq::empty()
    }) + (if policy.include_rejected {
        seq![MemoryStatus::Rejected]
    } else {
        Seq::empty()
    })
}

pub fn allowed_statuses_for_policy(policy: &RecallPolicy) -> (statuses: Vec<MemoryStatus>)
    ensures
        statuses@ == allowed_statuses_spec(*policy),
{
    let mut statuses: Vec<MemoryStatus> = Vec::new();
    statuses.push(MemoryStatus::Active);
    statuses.push(MemoryStatus::Temporary);
    statuses.push(MemoryStatus::Unverified);
    statuses.push(MemoryStatus::Verified);
    if policy.include_deprecated {
        statuses.push(MemoryStatus::Deprecated);
        statuses.push(MemoryStatus::Superseded);
    }
    if policy.include_rejected {
        statuses.push(MemoryStatus::Rejected);
    }
    proof {
        assert(statuses@ =~= allowed_statuses_spec(*policy));
    }
    statuses
}

// ---------------------------------------------------------------------------
// The in-memory hot layer
// ---------------------------------------------------------------------------

/// Cell ids strictly increasing along the sequence.
pub open spec fn ids_increasing(s: Seq<MemoryCell>) -> bool {
    forall|i: int, j: int| 0 <= i < j < s.len() ==> #[trigger] s[i].id < #[trigger] s[j].id
}

/// The cell with id `id`, if any.
pub open spec fn hot_lookup(cells: Seq<MemoryCell>, id: CellId) -> Option<MemoryCell> {
    if exists|i: int| 0 <= i < cells.len() && (#[trigger] cells[i]).id == id {
        Some(cells[choose|i: int| 0 <= i < cells.len() && (#[trigger] cells[i]).id == id])
    } else {
        None
    }
}

/// The first position from `i` on whose cell id is not below `id`.
pub open spec fn lower_pos(s: Seq<MemoryCell>, id: CellId, i: int) -> int
    decreases s.len() - i,
{
    if i >= s.len() || i < 0 {
        s.len() as int
    } else if s[i].id >= id {
        i
    } else {
        lower_pos(s, id, i + 1)
    }
}

/// The cells with `c` put in: it replaces the cell with its id, or is placed
/// in id order.
pub open spec fn put_cell(s: Seq<MemoryCell>, c: MemoryCell) -> Seq<MemoryCell> {
    let p = lower_pos(s, c.id, 0);
    if p < s.len() && s[p].id == c.id {
        s.update(p, c)
    } else {
        s.insert(p, c)
    }
}

/// The cells after putting in each of `cells` in turn.
pub open spec fn put_all(s: Seq<MemoryCell>, cells: Seq<MemoryCell>) -> Seq<MemoryCell>
    decreases cells.len(),
{
    if cells.len() == 0 {
        s
    } else {
        put_cell(put_all(s, cells.drop_last()), cells.last())
    }
}

proof fn lemma_lower_pos(s: Seq<MemoryCell>, id: CellId, i: int)
    requires
        0 <= i <= s.len(),
        ids_increasing(s),
        forall|k: int| 0 <= k < i ==> (#[trigger] s[k]).id < id,
    ensures
        i <= lower_pos(s, id, i) <= s.len(),
        forall|k: int| 0 <= k < lower_pos(s, id, i) ==> (#[trigger] s[k]).id < id,
        forall|k: int| lower_pos(s, id, i) <= k < s.len() ==> (#[trigger] s[k]).id >= id,
    decreases s.len() - i,
{
    if i < s.len() {
        if s[i].id >= id {
            assert forall|k: int| i <= k < s.len() implies (#[trigger] s[k]).id >= id by {
                if k > i {
                    assert(s[i].id < s[k].id);
                }
            }
        } else {
            lemma_lower_pos(s, id, i + 1);
        }
    }
}

/// Putting a cell in keeps the ids increasing, holds the new cell, and keeps
/// every cell with another id.
pub proof fn law_put_cell(s: Seq<MemoryCell>, c: MemoryCell)
    requires
        ids_increasing(s),
    ensures
        ids_increasing(put_cell(s, c)),
        put_cell(s, c).contains(c),
        forall|i: int| 0 <= i < put_cell(s, c).len() && #[trigger] put_cell(s, c)[i].id == c.id ==> put_cell(
            s,
            c,
        )[i] == c,
        forall|x: MemoryCell| x.id != c.id ==> (#[trigger] s.contains(x) <==> put_cell(s, c).contains(x)),
        put_cell(s, c).len() == s.len() + (if exists|i: int| 0 <= i < s.len() && #[trigger] s[i].id == c.id {
            0int
        } else {
            1int
        }),
{
    lemma_lower_pos(s, c.id, 0);
    let p = lower_pos(s, c.id, 0);
    let r = put_cell(s, c);
    if p < s.len() && s[p].id == c.id {
        assert(r[p] == c);
        assert forall|x: MemoryCell| x.id != c.id implies (#[trigger] s.contains(x) <==> r.contains(x)) by {
            if s.contains(x) {
                let k = choose|k: int| 0 <= k < s.len() && s[k] == x;
                assert(r[k] == x);
            }
            if r.contains(x) {
                let k = choose|k: int| 0 <= k < r.len() && r[k] == x;
                assert(s[k] == x);
            }
        }
        assert forall|i: int| 0 <= i < r.len() && #[trigger] r[i].id == c.id implies r[i] == c by {
            if i != p {
                if i < p {
                    assert(s[i].id < c.id);
                } else {
                    assert(s[p].id < s[i].id);
                }
            }
        }
    } else {
        assert(r[p] == c);
        assert forall|i: int, j: int| 0 <= i < j < r.len() implies #[trigger] r[i].id < #[trigger] r[j].id by {
            if j < p {
            } else if i < p && j == p {
            } else if i < p && j > p {
                assert(r[j] == s[j - 1]);
            } else if i == p {
                assert(r[j] == s[j - 1]);
                assert(s[j - 1].id >= c.id);
                assert(s[j - 1].id != c.id) by {
                    if j - 1 > p {
                        assert(s[p].id < s[j - 1].id);
                        assert(s[p].id >= c.id);
                    }
                }
            } else {
                assert(r[i] == s[i - 1]);
                assert(r[j] == s[j - 1]);
            }
        }
        assert forall|x: MemoryCell| x.id != c.id implies (#[trigger] s.contains(x) <==> r.contains(x)) by {
            if s.contains(x) {
                let k = choose|k: int| 0 <= k < s.len() && s[k] == x;
                if k < p {
                    assert(r[k] == x);
                } else {
                    assert(r[k + 1] == x);
                }
            }
            if r.contains(x) {
                let k = choose|k: int| 0 <= k < r.len() && r[k] == x;
                if k < p {
                    assert(s[k] == x);
                } else if k > p {
                    assert(s[k - 1] == x);
                }
            }
        }
        assert forall|i: int| 0 <= i < r.len() && #[trigger] r[i].id == c.id implies r[i] == c by {
            if i < p {
                assert(s[i].id < c.id);
            } else if i > p {
                assert(r[i] == s[i - 1]);
                if i - 1 > p {
                    assert(s[p].id < s[i - 1].id);
                }
                assert(s[i - 1].id != c.id);
            }
        }
        assert(!exists|i: int| 0 <= i < s.len() && #[trigger] s[i].id == c.id) by {
            if exists|i: int| 0 <= i < s.len() && #[trigger] s[i].id == c.id {
                let i = choose|i: int| 0 <= i < s.len() && #[trigger] s[i].id == c.id;
                if i < p {
                } else if i > p {
                    assert(s[p].id < s[i].id);
                }
            }
        }
    }
    assert(r.contains(c)) by {
        assert(r[p] == c);
    }
}

/// Which hot cells a recall considers: a marker filter (when there are
/// markers), an optional scope (compared in canonical form), an optional
/// kind, and the allowed statuses.
pub struct HotCandidateQuery<'a> {
    pub marker_ids: &'a [MarkerId],
    pub marker_mode: QueryMode,
    pub scope: Option<&'a str>,
    pub kind: Option<MemoryKind>,
    pub allowed_statuses: &'a [MemoryStatus],
}

pub open spec fn has_all_markers(c: MemoryCell, markers: Seq<MarkerId>) -> bool {
    forall|k: int| 0 <= k < markers.len() ==> cell_marker_set(c).contains(#[trigger] markers[k])
}

pub open spec fn has_any_marker(c: MemoryCell, markers: Seq<MarkerId>) -> bool {
    exists|k: int| 0 <= k < markers.len() && cell_marker_set(c).contains(#[trigger] markers[k])
}

/// The marker filter: every marker (`Intersection`), any marker (`Union`),
/// or every marker unless no cell of the layer has them all, then any
/// (`PreferIntersection`). No markers filter nothing.
pub open spec fn hot_marker_match(
    cells: Seq<MemoryCell>,
    c: MemoryCell,
    markers: Seq<MarkerId>,
    mode: QueryMode,
) -> bool {
    if markers.len() == 0 {
        true
    } else {
        match mode {
            QueryMode::Union => has_any_marker(c, markers),
            QueryMode::Intersection => has_all_markers(c, markers),
            QueryMode::PreferIntersection => if exists|j: int|
                0 <= j < cells.len() && has_all_markers(#[trigger] cells[j], markers) {
                has_all_markers(c, markers)
            } else {
                has_any_marker(c, markers)
            },
        }
    }
}

/// Whether a hot cell is a candidate of a query.
pub open spec fn hot_candidate(
    cells: Seq<MemoryCell>,
    c: MemoryCell,
    markers: Seq<MarkerId>,
    mode: QueryMode,
    scope: Option<Seq<char>>,
    kind: Option<MemoryKind>,
    statuses: Seq<MemoryStatus>,
) -> bool {
    &&& hot_marker_match(cells, c, markers, mode)
    &&& (scope matches Some(s) ==> canonical_value(c.scope@) == canonical_value(s))
    &&& (kind matches Some(k) ==> c.kind == k)
    &&& statuses.contains(c.status)
}

pub open spec fn query_scope(q: HotCandidateQuery) -> Option<Seq<char>> {
    match q.scope {
        Some(s) => Some(s@),
        None => None,
    }
}

/// The ids of the candidate cells of a query.
pub open spec fn hot_candidate_ids(cells: Seq<MemoryCell>, q: HotCandidateQuery) -> Set<CellId> {
    Set::new(
        |id: CellId|
            exists|i: int|
                0 <= i < cells.len() && #[trigger] cells[i].id == id && hot_candidate(
                    cells,
                    cells[i],
                    q.marker_ids@,
                    q.marker_mode,
                    query_scope(q),
                    q.kind,
                    q.allowed_statuses@,
                ),
    )
}

/// The hot cells, kept in id order.
#[derive(Debug)]
pub struct HotMemoryLayer {
    cells_by_id: Vec<MemoryCell>,
}

impl HotMemoryLayer {
    #[verifier::type_invariant]
    closed spec fn ids_in_order(self) -> bool {
        ids_increasing(self.cells_by_id@)
    }

    /// The cells, in id order.
    pub closed spec fn cells(&self) -> Seq<MemoryCell> {
        self.cells_by_id@
    }

    pub fn new() -> (layer: Self)
        ensures
            layer.cells() == Seq::<MemoryCell>::empty(),
    {
        HotMemoryLayer { cells_by_id: Vec::new() }
    }

    /// The layer holding `cells`, each put in in turn (a later cell replaces
    /// an earlier one with its id).
    pub fn from_cells(cells: Vec<MemoryCell>) -> (layer: Self)
        ensures
            layer.cells() == put_all(Seq::empty(), cells@),
            ids_increasing(layer.cells()),
    {
        let mut layer = HotMemoryLayer::new();
        let n = cells.len();
        let mut rest = crate::pages::reversed(cells);
        let ghost all = rest@.reverse();
        let mut i: usize = 0;
        proof {
            assert(all =~= cells@);
            assert(cells@.take(0) =~= Seq::<MemoryCell>::empty());
            assert(rest@ =~= all.skip(0).reverse());
        }
        while i < n
            invariant
                n == all.len(),
                all == cells@,
                i <= n,
                rest@ == all.skip(i as int).reverse(),
                layer.cells() == put_all(Seq::empty(), all.take(i as int)),
            decreases n - i,
        {
            proof {
                assert(rest@.last() == all[i as int]);
            }
            let cell = rest.pop().unwrap();
            layer.insert(cell);
            proof {
                assert(all.take(i + 1).drop_last() =~= all.take(i as int));
                assert(all.take(i + 1).last() == all[i as int]);
                assert(rest@ =~= all.skip(i + 1).reverse());
            }
            i += 1;
        }
        proof {
            assert(all.take(n as int) =~= all);
            use_type_invariant(&layer);
        }
        layer
    }

    /// Puts a cell in, replacing the cell with its id.
    pub fn insert(&mut self, cell: MemoryCell)
        ensures
            final(self).cells() == put_cell(old(self).cells(), cell),
            ids_increasing(final(self).cells()),
    {
        proof {
            use_type_invariant(&*self);
        }
        let ghost s = self.cells_by_id@;
        let mut cells = Vec::new();
        std::mem::swap(&mut cells, &mut self.cells_by_id);
        let ghost c0 = cell;
        proof {
            lemma_lower_pos(s, cell.id, 0);
        }
        let mut p: usize = 0;
        while p < cells.len() && cells[p].id < cell.id
            invariant
                p <= cells@.len(),
                cells@ == s,
                lower_pos(s, c0.id, 0) == lower_pos(s, c0.id, p as int),
                cell == c0,
            decreases cells@.len() - p,
        {
            p += 1;
        }
        if p < cells.len() && cells[p].id == cell.id {
            cells.set(p, cell);
        } else {
            cells.insert(p, cell);
        }
        proof {
            law_put_cell(s, c0);
        }
        self.cells_by_id = cells;
    }

    pub fn clear(&mut self)
        ensures
            final(self).cells() == Seq::<MemoryCell>::empty(),
    {
        self.cells_by_id = Vec::new();
    }

    pub fn len(&self) -> (n: usize)
        ensures
            n == self.cells().len(),
    {
        self.cells_by_id.len()
    }

    pub fn is_empty(&self) -> (b: bool)
        ensures
            b == (self.cells().len() == 0),
    {
        self.cells_by_id.len() == 0
    }

    /// The cell with id `cell_id`, if any.
    pub fn cell(&self, cell_id: CellId) -> (r: Option<&MemoryCell>)
        ensures
            match r {
                Some(c) => self.cells().contains(*c) && c.id == cell_id,
                None => forall|i: int| 0 <= i < self.cells().len() ==> (#[trigger] self.cells()[i]).id != cell_id,
            },
            match r {
                Some(c) => hot_lookup(self.cells(), cell_id) == Some(*c),
                None => hot_lookup(self.cells(), cell_id) is None,
            },
    {
        proof {
            use_type_invariant(self);
        }
        let mut i: usize = 0;
        while i < self.cells_by_id.len()
            invariant
                i <= self.cells_by_id@.len(),
                ids_increasing(self.cells_by_id@),
                forall|k: int| 0 <= k < i ==> (#[trigger] self.cells_by_id@[k]).id != cell_id,
            decreases self.cells_by_id@.len() - i,
        {
            if self.cells_by_id[i].id == cell_id {
                proof {
                    let cells = self.cells();
                    assert(cells[i as int] == self.cells_by_id@[i as int]);
                    let w = choose|k: int| 0 <= k < cells.len() && (#[trigger] cells[k]).id == cell_id;
                    assert(0 <= w < cells.len() && cells[w].id == cell_id);
                    if w < i {
                        assert(cells[w].id < cells[i as int].id);
                    }
                    if w > i {
                        assert(cells[i as int].id < cells[w].id);
                    }
                }
                return Some(&self.cells_by_id[i]);
            }
            i += 1;
        }
        None
    }

    /// Whether every cell can be scored (see `scorable`).
    pub fn all_scorable(&self) -> (b: bool)
        ensures
            b == forall|i: int| 0 <= i < self.cells().len() ==> crate::retrieval::scorable(#[trigger] self.cells()[i]),
    {
        let mut i: usize = 0;
        while i < self.cells_by_id.len()
            invariant
                i <= self.cells_by_id@.len(),
                forall|k: int| 0 <= k < i ==> crate::retrieval::scorable(#[trigger] self.cells_by_id@[k]),
            decreases self.cells_by_id@.len() - i,
        {
            if self.cells_by_id[i].markers.len() as u64 > 100_000_000_000_000_000u64 {
                proof {
                    assert(!crate::retrieval::scorable(self.cells()[i as int]));
                }
                return false;
            }
            i += 1;
        }
        true
    }

    /// Copies of every cell, in id order.
    pub fn all_cells(&self) -> (out: Vec<MemoryCell>)
        ensures
            copies(out@, self.cells()),
    {
        let mut out: Vec<MemoryCell> = Vec::new();
        let mut i: usize = 0;
        while i < self.cells_by_id.len()
            invariant
                i <= self.cells_by_id@.len(),
                out@.len() == i,
                forall|k: int| 0 <= k < i ==> cell_copy(#[trigger] out@[k], self.cells_by_id@[k]),
            decreases self.cells_by_id@.len() - i,
        {
            out.push(self.cells_by_id[i].clone());
            i += 1;
        }
        out
    }

    /// The ids, in increasing order, of the cells a query selects (see
    /// `hot_candidate`).
    pub fn candidate_ids(&self, query: HotCandidateQuery) -> (out: Vec<CellId>)
        ensures
            strictly_increasing(out@),
            out@.to_set() == hot_candidate_ids(self.cells(), query),
    {
        proof {
            use_type_invariant(self);
        }
        let cells = &self.cells_by_id;
        let markers = query.marker_ids;
        // Whether some cell holds every query marker.
        let mut some_has_all = false;
        let mut j: usize = 0;
        while j < cells.len()
            invariant
                j <= cells@.len(),
                some_has_all == exists|q: int| 0 <= q < j && has_all_markers(#[trigger] cells@[q], markers@),
            decreases cells@.len() - j,
        {
            if has_all(&cells[j], markers) {
                some_has_all = true;
            }
            j += 1;
        }
        let scope_key: Option<Vec<char>> = match query.scope {
            Some(s) => Some(canonical_value_chars(&chars_of(s))),
            None => None,
        };
        let mut out: Vec<CellId> = Vec::new();
        let mut i: usize = 0;
        while i < cells.len()
            invariant
                i <= cells@.len(),
                ids_increasing(cells@),
                cells@ == self.cells(),
                some_has_all == exists|q: int| 0 <= q < cells@.len() && has_all_markers(#[trigger] cells@[q], markers@),
                markers == query.marker_ids,
                match scope_key {
                    Some(k) => query.scope matches Some(s) && k@ == canonical_value(s@),
                    None => query.scope is None,
                },
                strictly_increasing(out@),
                forall|k: int| 0 <= k < out@.len() ==> exists|q: int| 0 <= q < i && #[trigger] out@[k] == cells@[q].id,
                forall|k: int| 0 <= k < out@.len() ==> (#[trigger] out@[k]) < (if i < cells@.len() { cells@[i as int].id as int } else { u64::MAX + 1 }),
                forall|id: CellId| #[trigger] out@.to_set().contains(id) <==> exists|q: int|
                    0 <= q < i && #[trigger] cells@[q].id == id && hot_candidate(
                        cells@,
                        cells@[q],
                        query.marker_ids@,
                        query.marker_mode,
                        query_scope(query),
                        query.kind,
                        query.allowed_statuses@,
                    ),
            decreases cells@.len() - i,
        {
            let c = &cells[i];
            let marker_ok = if markers.len() == 0 {
                true
            } else {
                match query.marker_mode {
                    QueryMode::Union => has_any(c, markers),
                    QueryMode::Intersection => has_all(c, markers),
                    QueryMode::PreferIntersection => if some_has_all {
                        has_all(c, markers)
                    } else {
                        has_any(c, markers)
                    },
                }
            };
            let scope_ok = match &scope_key {
                Some(k) => chars_eq(&canonical_value_chars(&chars_of(c.scope.as_str())), k),
                None => true,
            };
            let kind_ok = match query.kind {
                Some(k) => c.kind == k,
                None => true,
            };
            let status_ok = status_in(c.status, query.allowed_statuses);
            let ghost before = out@;
            if marker_ok && scope_ok && kind_ok && status_ok {
                out.push(c.id);
                proof {
                    crate::idset::lemma_push_to_set(before, c.id);
                }
            }
            proof {
                let cand = hot_candidate(
                    cells@,
                    cells@[i as int],
                    query.marker_ids@,
                    query.marker_mode,
                    query_scope(query),
                    query.kind,
                    query.allowed_statuses@,
                );
                assert(cand == (marker_ok && scope_ok && kind_ok && status_ok));
                assert forall|k: int| 0 <= k < out@.len() implies (#[trigger] out@[k]) < (if i + 1 < cells@.len() {
                    cells@[i + 1].id as int
                } else {
                    u64::MAX + 1
                }) by {
                    if i + 1 < cells@.len() {
                        assert(cells@[i as int].id < cells@[i + 1].id);
                    }
                }
                assert forall|k: int| 0 <= k < out@.len() implies exists|q: int| 0 <= q < i + 1 && #[trigger] out@[k] == cells@[q].id by {
                    if k < before.len() {
                        assert(out@[k] == before[k]);
                    } else {
                        assert(out@[k] == cells@[i as int].id);
                    }
                }
                assert forall|id: CellId| #[trigger] out@.to_set().contains(id) <==> exists|q: int|
                    0 <= q < i + 1 && #[trigger] cells@[q].id == id && hot_candidate(
                        cells@,
                        cells@[q],
                        query.marker_ids@,
                        query.marker_mode,
                        query_scope(query),
                        query.kind,
                        query.allowed_statuses@,
                    ) by {
                    if exists|q: int|
                        0 <= q < i + 1 && #[trigger] cells@[q].id == id && hot_candidate(
                            cells@,
                            cells@[q],
                            query.marker_ids@,
                            query.marker_mode,
                            query_scope(query),
                            query.kind,
                            query.allowed_statuses@,
                        ) {
                        let q = choose|q: int|
                            0 <= q < i + 1 && #[trigger] cells@[q].id == id && hot_candidate(
                                cells@,
                                cells@[q],
                                query.marker_ids@,
                                query.marker_mode,
                                query_scope(query),
                                query.kind,
                                query.allowed_statuses@,
                            );
                        if q == i {
                            assert(out@.to_set().contains(id));
                        } else {
                            assert(before.to_set().contains(id));
                        }
                    }
                    if out@.to_set().contains(id) {
                        if before.to_set().contains(id) {
                        } else {
                            assert(id == cells@[i as int].id);
                        }
                    }
                }
            }
            i += 1;
        }
        proof {
            assert(out@.to_set() =~= hot_candidate_ids(self.cells(), query));
        }
        out
    }
}

fn has_all(c: &MemoryCell, markers: &[MarkerId]) -> (b: bool)
    ensures
        b == has_all_markers(*c, markers@),
{
    let mut k: usize = 0;
    while k < markers.len()
        invariant
            k <= markers@.len(),
            forall|q: int| 0 <= q < k ==> cell_marker_set(*c).contains(#[trigger] markers@[q]),
        decreases markers@.len() - k,
    {
        if !c.contains_marker(markers[k]) {
            return false;
        }
        k += 1;
    }
    true
}

fn has_any(c: &MemoryCell, markers: &[MarkerId]) -> (b: bool)
    ensures
        b == has_any_marker(*c, markers@),
{
    let mut k: usize = 0;
    while k < markers.len()
        invariant
            k <= markers@.len(),
            forall|q: int| 0 <= q < k ==> !cell_marker_set(*c).contains(#[trigger] markers@[q]),
        decreases markers@.len() - k,
    {
        if c.contains_marker(markers[k]) {
            return true;
        }
        k += 1;
    }
    false
}

fn status_in(s: MemoryStatus, statuses: &[MemoryStatus]) -> (b: bool)
    ensures
        b == statuses@.contains(s),
{
    let mut k: usize = 0;
    while k < statuses.len()
        invariant
            k <= statuses@.len(),
            forall|q: int| 0 <= q < k ==> statuses@[q] != s,
        decreases statuses@.len() - k,
    {
        if statuses[k] == s {
            return true;
        }
        k += 1;
    }
    false
}

// ---------------------------------------------------------------------------
// The hot log file
// ---------------------------------------------------------------------------

/// The hot log at a path.
#[derive(Clone, Debug)]
pub struct HotStore {
    path: String,
}

impl HotStore {
    pub fn new(path: String) -> (s: Self)
        ensures
            s.path_spec() == path@,
    {
        HotStore { path }
    }

    pub closed spec fn path_spec(&self) -> Seq<char> {
        self.path@
    }

    pub fn path(&self) -> (p: &str)
        ensures
            p@ == self.path_spec(),
    {
        self.path.as_str()
    }
}

/// A hot log with no records: just its header frame.
pub fn empty_hot_log_bytes() -> (r: Result<Vec<u8>, MgeError>)
    ensures
        r matches Ok(v) && v@ == frame_bytes(FileKind::HotLog, CodecId::Raw, Seq::empty()),
{
    let empty: [u8; 0] = [];
    proof {
        assert(empty@ =~= Seq::<u8>::empty());
    }
    encode_frame(FileKind::HotLog, CodecId::Raw, &empty)
}

/// The name of an archived hot log: `hot_<timestamp>.mgl`, or with `_<suffix>`
/// before the extension when `suffix` is not zero.
pub open spec fn archive_file_name_spec(timestamp: i64, suffix: u64) -> Seq<char> {
    "hot_"@ + signed_decimal(timestamp as int) + (if suffix == 0 {
        Seq::empty()
    } else {
        "_"@ + decimal(suffix as nat)
    }) + ".mgl"@
}

pub fn archive_file_name(timestamp: i64, suffix: u64) -> (s: String)
    ensures
        s@ == archive_file_name_spec(timestamp, suffix),
{
    let mut s = string_from("hot_");
    let mut digits: Vec<char> = Vec::new();
    crate::text::push_signed_decimal(&mut digits, timestamp);
    crate::text::push_chars(&mut s, &digits);
    if suffix != 0 {
        push_str(&mut s, "_");
        push_decimal_str(&mut s, suffix);
    }
    push_str(&mut s, ".mgl");
    proof {
        reveal_strlit("hot_");
        reveal_strlit("_");
        reveal_strlit(".mgl");
        assert(s@ =~= archive_file_name_spec(timestamp, suffix));
    }
    s
}

/// Whether some offset from `start` on begins a valid frame of `kind`.
pub open spec fn valid_frame_after(b: Seq<u8>, start: int, kind: FileKind) -> bool {
    exists|o: int| start <= o < b.len() && #[trigger] parse_frame_at(b, o, kind) is Ok
}

/// Whether some offset from `start` on begins a valid frame of `kind`.
pub fn valid_frame_exists_after(bytes: &[u8], start: usize, kind: FileKind) -> (b: bool)
    ensures
        b == valid_frame_after(bytes@, start as int, kind),
{
    let mut o = start;
    while o < bytes.len()
        invariant
            start <= o,
            forall|q: int| start <= q < o ==> !(#[trigger] parse_frame_at(bytes@, q, kind) is Ok),
        decreases bytes@.len() - o,
    {
        if decode_frame_at(bytes, o, kind).is_ok() {
            return true;
        }
        o += 1;
    }
    false
}

pub proof fn lemma_parse_next(b: Seq<u8>, offset: int, kind: FileKind)
    requires
        0 <= offset,
        parse_frame_at(b, offset, kind) is Ok,
    ensures
        offset + HEADER_LEN as int <= parse_frame_at(b, offset, kind)->Ok_0.3 <= b.len(),
{
}

/// A hot record whose frame is intact: where its frame starts and its
/// MessagePack payload.
#[derive(Debug)]
pub struct HotLogRecord {
    pub offset: usize,
    pub payload: Vec<u8>,
}

/// The intact records of a hot log from an offset on, where the valid part
/// ends, and whether a damaged tail follows it.
#[derive(Debug)]
pub struct HotFrameScan {
    pub records: Vec<HotLogRecord>,
    pub valid_log_offset: usize,
    pub recovered_bad_tail: bool,
}

/// Why a scan stops with an error: a storage-format message, or a record that
/// needs a session key.
pub enum HotScanFailure {
    Format(Seq<char>),
    Locked(Seq<char>),
}

/// Reading the hot records of `b` from `offset`: each intact MessagePack
/// record in turn. A frame that does not decode ends the scan as a damaged
/// tail, unless an intact frame follows it somewhere (then its error is the
/// result). An encrypted record needs a session key; any other codec is a
/// format error.
pub open spec fn scan_hot(b: Seq<u8>, offset: int) -> Result<(Seq<(int, Seq<u8>)>, int, bool), HotScanFailure>
    decreases b.len() - offset,
{
    if offset >= b.len() || offset < 0 {
        Ok((Seq::empty(), offset, false))
    } else {
        match parse_frame_at(b, offset, FileKind::HotRecord) {
            Err(m) => if valid_frame_after(b, offset + 1, FileKind::HotRecord) {
                Err(HotScanFailure::Format(m))
            } else {
                Ok((Seq::empty(), offset, true))
            },
            Ok((k, codec, payload, next)) => match codec {
                CodecId::MessagePack => {
                    proof {
                        lemma_parse_next(b, offset, FileKind::HotRecord);
                    }
                    match scan_hot(b, next) {
                        Ok((rest, valid, bad)) => Ok((seq![(offset, payload)] + rest, valid, bad)),
                        Err(e) => Err(e),
                    }
                },
                CodecId::MessagePackEncrypted => Err(
                    HotScanFailure::Locked("encrypted hot record requires session unlock"@),
                ),
                _ => Err(
                    HotScanFailure::Format(
                        "wrong codec for hot record: expected messagepack or messagepack_encrypted, found "@
                            + codec_name(codec),
                    ),
                ),
            },
        }
    }
}

pub open spec fn prepend_records(
    acc: Seq<(int, Seq<u8>)>,
    r: Result<(Seq<(int, Seq<u8>)>, int, bool), HotScanFailure>,
) -> Result<(Seq<(int, Seq<u8>)>, int, bool), HotScanFailure> {
    match r {
        Ok((rest, valid, bad)) => Ok((acc + rest, valid, bad)),
        Err(e) => Err(e),
    }
}

pub open spec fn record_views(rs: Seq<HotLogRecord>) -> Seq<(int, Seq<u8>)> {
    rs.map_values(|r: HotLogRecord| (r.offset as int, r.payload@))
}

/// `r` is what a scan returned for `spec`.
pub open spec fn scan_matches(r: Result<HotFrameScan, MgeError>, spec: Result<(Seq<(int, Seq<u8>)>, int, bool), HotScanFailure>) -> bool {
    match spec {
        Ok((records, valid, bad)) => r matches Ok(scan) && record_views(scan.records@) == records
            && scan.valid_log_offset == valid && scan.recovered_bad_tail == bad,
        Err(HotScanFailure::Format(m)) => r matches Err(MgeError::StorageFormat(t)) && t@ == m,
        Err(HotScanFailure::Locked(m)) => r matches Err(MgeError::StoreLocked(t)) && t@ == m,
    }
}

/// Reads the hot records of `content` from `offset` (see `scan_hot`); the
/// caller decodes each payload into a cell.
pub fn scan_hot_records(content: &[u8], start_offset: usize) -> (r: Result<HotFrameScan, MgeError>)
    ensures
        scan_matches(r, scan_hot(content@, start_offset as int)),
{
    let ghost b = content@;
    let mut records: Vec<HotLogRecord> = Vec::new();
    let mut offset = start_offset;
    let ghost start = offset;
    proof {
        assert(record_views(records@) =~= Seq::<(int, Seq<u8>)>::empty());
        assert(prepend_records(record_views(records@), scan_hot(b, offset as int)) =~= scan_hot(b, offset as int)) by {
            match scan_hot(b, offset as int) {
                Ok((rest, valid, bad)) => {
                    assert(Seq::<(int, Seq<u8>)>::empty() + rest =~= rest);
                },
                Err(e) => {},
            }
        }
    }
    while offset < content.len()
        invariant
            b == content@,
            start == start_offset,
            scan_hot(b, start as int) == prepend_records(record_views(records@), scan_hot(b, offset as int)),
        decreases b.len() - offset,
    {
        match decode_frame_at(content, offset, FileKind::HotRecord) {
            Err(err) => {
                let next_start = if offset < usize::MAX { offset + 1 } else { offset };
                proof {
                    assert(offset < usize::MAX) by {
                        assert(offset < content@.len());
                    }
                }
                if valid_frame_exists_after(content, next_start, FileKind::HotRecord) {
                    proof {
                        assert(parse_frame_at(b, offset as int, FileKind::HotRecord) is Err);
                        assert(scan_hot(b, offset as int) == Err::<(Seq<(int, Seq<u8>)>, int, bool), HotScanFailure>(
                            HotScanFailure::Format(parse_frame_at(b, offset as int, FileKind::HotRecord)->Err_0),
                        ));
                    }
                    return Err(err);
                }
                let r = HotFrameScan { records, valid_log_offset: offset, recovered_bad_tail: true };
                proof {
                    assert(record_views(r.records@) + Seq::<(int, Seq<u8>)>::empty() =~= record_views(r.records@));
                }
                return Ok(r);
            },
            Ok((frame, next)) => {
                match frame.codec {
                    CodecId::MessagePack => {
                        let ghost acc = record_views(records@);
                        proof {
                            lemma_parse_next(b, offset as int, FileKind::HotRecord);
                        }
                        records.push(HotLogRecord { offset, payload: frame.payload });
                        proof {
                            assert(record_views(records@) =~= acc.push((offset as int, frame.payload@)));
                            match scan_hot(b, next as int) {
                                Ok((rest, valid, bad)) => {
                                    assert(acc + (seq![(offset as int, frame.payload@)] + rest) =~= acc.push(
                                        (offset as int, frame.payload@),
                                    ) + rest);
                                },
                                Err(e) => {},
                            }
                        }
                        offset = next;
                    },
                    CodecId::MessagePackEncrypted => {
                        proof {
                            assert(scan_hot(b, offset as int) == Err::<(Seq<(int, Seq<u8>)>, int, bool), HotScanFailure>(
                                HotScanFailure::Locked("encrypted hot record requires session unlock"@),
                            ));
                        }
                        return Err(MgeError::StoreLocked(string_from("encrypted hot record requires session unlock")));
                    },
                    other => {
                        let mut m = string_from(
                            "wrong codec for hot record: expected messagepack or messagepack_encrypted, found ",
                        );
                        push_str(&mut m, other.as_str());
                        proof {
                            assert(scan_hot(b, offset as int) == Err::<(Seq<(int, Seq<u8>)>, int, bool), HotScanFailure>(
                                HotScanFailure::Format(m@),
                            ));
                        }
                        return Err(MgeError::StorageFormat(m));
                    },
                }
            },
        }
    }
    let r = HotFrameScan { records, valid_log_offset: offset, recovered_bad_tail: false };
    proof {
        assert(record_views(r.records@) + Seq::<(int, Seq<u8>)>::empty() =~= record_views(r.records@));
    }
    Ok(r)
}

/// The version of the hot snapshot format.
pub const HOT_SNAPSHOT_VERSION: u32 = 1;

/// The MessagePack payload of a hot snapshot file: the file must be exactly
/// one snapshot frame; an encrypted snapshot needs a session key; any other
/// codec is a format error.
pub fn hot_snapshot_payload(bytes: &[u8]) -> (r: Result<Vec<u8>, MgeError>)
    ensures
        match crate::binary::parse_frame(bytes@, FileKind::HotSnapshot) {
            Err(m) => r matches Err(MgeError::StorageFormat(t)) && t@ == m,
            Ok((k, codec, payload)) => match codec {
                CodecId::MessagePack => r matches Ok(p) && p@ == payload,
                CodecId::MessagePackEncrypted => r matches Err(MgeError::StoreLocked(t)) && t@
                    == "encrypted hot snapshot requires session unlock"@,
                _ => r matches Err(MgeError::StorageFormat(t)) && t@
                    == "wrong codec for hot snapshot: expected messagepack or messagepack_encrypted, found "@
                    + codec_name(codec),
            },
        },
{
    let frame = match crate::binary::decode_frame(bytes, FileKind::HotSnapshot) {
        Ok(f) => f,
        Err(e) => {
            return Err(e);
        },
    };
    match frame.codec {
        CodecId::MessagePack => Ok(frame.payload),
        CodecId::MessagePackEncrypted => Err(
            MgeError::StoreLocked(string_from("encrypted hot snapshot requires session unlock")),
        ),
        other => {
            let mut m = string_from(
                "wrong codec for hot snapshot: expected messagepack or messagepack_encrypted, found ",
            );
            push_str(&mut m, other.as_str());
            Err(MgeError::StorageFormat(m))
        },
    }
}

/// Where replay resumes from a snapshot: its log offset, when the snapshot
/// has the current version and its offset lies between the end of the log
/// header and the end of the log; otherwise the snapshot is not used.
pub open spec fn snapshot_offset_spec(version: u32, hot_log_offset: u64, hot_log_len: usize, log_start_offset: usize) -> Option<usize> {
    if version != HOT_SNAPSHOT_VERSION || hot_log_offset > usize::MAX || hot_log_offset < log_start_offset
        || hot_log_offset > hot_log_len {
        None
    } else {
        Some(hot_log_offset as usize)
    }
}

pub fn usable_snapshot_offset(version: u32, hot_log_offset: u64, hot_log_len: usize, log_start_offset: usize) -> (r: Option<usize>)
    ensures
        r == snapshot_offset_spec(version, hot_log_offset, hot_log_len, log_start_offset),
{
    if version != HOT_SNAPSHOT_VERSION {
        return None;
    }
    if hot_log_offset > usize::MAX as u64 {
        return None;
    }
    let offset = hot_log_offset as usize;
    if offset < log_start_offset || offset > hot_log_len {
        return None;
    }
    Some(offset)
}


impl Default for HotMemoryLayer {
    /// An empty layer.
    fn default() -> (layer: Self)
        ensures
            layer.cells() == Seq::<MemoryCell>::empty(),
    {
        HotMemoryLayer::new()
    }
}

} // verus!

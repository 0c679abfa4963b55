//! The checks `validate` runs over sealed pages, the catalog, the candidate
//! index and cell links, each adding errors and warnings to a report.
use vstd::prelude::*;
use crate::errors::{error_detail, error_prefix, MgeError};
use crate::idset::{increasing_by, lemma_increasing_unique, strictly_increasing, strictly_increasing32};
use crate::marker_dictionary::MarkerDictionary;
use crate::markers::{canonical_marker, canonicalize_marker};
use crate::models::{
    cell_marker_set, memory_kind_name, memory_status_rank, sensitivity_level_rank, trust_level_rank,
    CellId, MarkerId, MemoryCell, MemoryStatus, PageId, SensitivityLevel, TrustLevel,
};
use crate::pages::{cells_marker_set, marker_summary_for_cells, MemoryPage, PageCatalogEntry};
use crate::store::dict_lookup;
use crate::idset::{enumerates, lemma_enumeration_unique, lemma_ordered_set_of, ordered_set_of, sort_dedup};
use crate::indexes::{
    fuse_mode_pages, mode_pages, widen, BinaryFusePageIndex, CandidateIndexData, CandidatePageIndex,
    ExactMarkerPageIndex, QueryMode,
};
use crate::pages::PageCatalog;
use crate::store::{string_views, ValidationReport};
use crate::text::{decimal, push_decimal_str, push_str, string_from};

verus! {

/// `new` is `old` with `errs` and `warns` appended: validity is lost by any
/// error, nothing else changes.
pub open spec fn appended(old: ValidationReport, new: ValidationReport, errs: Seq<Seq<char>>, warns: Seq<Seq<char>>) -> bool {
    &&& string_views(new.errors@) == string_views(old.errors@) + errs
    &&& string_views(new.warnings@) == string_views(old.warnings@) + warns
    &&& new.ok == (old.ok && errs.len() == 0)
    &&& new.index_kind == old.index_kind
    &&& new.checked_hot_cells == old.checked_hot_cells
    &&& new.checked_sealed_pages == old.checked_sealed_pages
    &&& new.checked_sealed_cells == old.checked_sealed_cells
}

pub proof fn lemma_appended_refl(r: ValidationReport)
    ensures
        appended(r, r, Seq::empty(), Seq::empty()),
{
    assert(string_views(r.errors@) + Seq::<Seq<char>>::empty() =~= string_views(r.errors@));
    assert(string_views(r.warnings@) + Seq::<Seq<char>>::empty() =~= string_views(r.warnings@));
}

pub proof fn lemma_appended_trans(
    a: ValidationReport,
    b: ValidationReport,
    c: ValidationReport,
    e1: Seq<Seq<char>>,
    w1: Seq<Seq<char>>,
    e2: Seq<Seq<char>>,
    w2: Seq<Seq<char>>,
)
    requires
        appended(a, b, e1, w1),
        appended(b, c, e2, w2),
    ensures
        appended(a, c, e1 + e2, w1 + w2),
{
    assert(string_views(a.errors@) + e1 + e2 =~= string_views(a.errors@) + (e1 + e2));
    assert(string_views(a.warnings@) + w1 + w2 =~= string_views(a.warnings@) + (w1 + w2));
}

/// Records an error message.
pub fn add_error(report: &mut ValidationReport, message: String)
    ensures
        appended(*old(report), *final(report), seq![message@], Seq::empty()),
{
    let ghost before = *report;
    report.error(message);
    proof {
        assert(string_views(report.errors@) =~= string_views(before.errors@) + seq![message@]);
        assert(string_views(report.warnings@) =~= string_views(before.warnings@) + Seq::<Seq<char>>::empty());
    }
}

/// Records a warning message.
pub fn add_warning(report: &mut ValidationReport, message: String)
    ensures
        appended(*old(report), *final(report), Seq::empty(), seq![message@]),
{
    let ghost before = *report;
    report.warning(message);
    proof {
        assert(string_views(report.warnings@) =~= string_views(before.warnings@) + seq![message@]);
        assert(string_views(report.errors@) =~= string_views(before.errors@) + Seq::<Seq<char>>::empty());
    }
}

// ---------------------------------------------------------------------------
// Page id sets
// ---------------------------------------------------------------------------

/// `label is missing page <id>` for each id of `expected` not in `actual`,
/// in order.
pub open spec fn missing_page_msgs(label: Seq<char>, expected: Seq<u64>, actual: Set<u64>) -> Seq<Seq<char>>
    decreases expected.len(),
{
    if expected.len() == 0 {
        Seq::empty()
    } else {
        missing_page_msgs(label, expected.drop_last(), actual) + if actual.contains(expected.last()) {
            Seq::empty()
        } else {
            seq![label + " is missing page "@ + decimal(expected.last() as nat)]
        }
    }
}

/// `label contains unknown page <id>` for each id of `actual` not in
/// `expected`, in order.
pub open spec fn unknown_page_msgs(label: Seq<char>, actual: Seq<u64>, expected: Set<u64>) -> Seq<Seq<char>>
    decreases actual.len(),
{
    if actual.len() == 0 {
        Seq::empty()
    } else {
        unknown_page_msgs(label, actual.drop_last(), expected) + if expected.contains(actual.last()) {
            Seq::empty()
        } else {
            seq![label + " contains unknown page "@ + decimal(actual.last() as nat)]
        }
    }
}

fn contains_u64(v: &Vec<u64>, x: u64) -> (b: bool)
    ensures
        b == v@.contains(x),
{
    let mut i: usize = 0;
    while i < v.len()
        invariant
            i <= v@.len(),
            forall|k: int| 0 <= k < i ==> v@[k] != x,
        decreases v@.len() - i,
    {
        if v[i] == x {
            return true;
        }
        i += 1;
    }
    false
}

fn push_missing(report: &mut ValidationReport, label: &str, from: &Vec<u64>, other: &Vec<u64>, missing: bool)
    ensures
        appended(
            *old(report),
            *final(report),
            if missing {
                missing_page_msgs(label@, from@, other@.to_set())
            } else {
                unknown_page_msgs(label@, from@, other@.to_set())
            },
            Seq::empty(),
        ),
{
    let mut i: usize = 0;
    proof {
        lemma_appended_refl(*report);
        assert(from@.take(0) =~= Seq::<u64>::empty());
    }
    while i < from.len()
        invariant
            i <= from@.len(),
            appended(
                *old(report),
                *report,
                if missing {
                    missing_page_msgs(label@, from@.take(i as int), other@.to_set())
                } else {
                    unknown_page_msgs(label@, from@.take(i as int), other@.to_set())
                },
                Seq::empty(),
            ),
        decreases from@.len() - i,
    {
        let ghost mid = *report;
        let id = from[i];
        proof {
            assert(from@.take(i + 1).drop_last() =~= from@.take(i as int));
            assert(from@.take(i + 1).last() == id);
            assert(other@.to_set().contains(id) == other@.contains(id));
        }
        if !contains_u64(other, id) {
            let mut m = string_from(label);
            if missing {
                push_str(&mut m, " is missing page ");
            } else {
                push_str(&mut m, " contains unknown page ");
            }
            push_decimal_str(&mut m, id);
            add_error(report, m);
            proof {
                lemma_appended_trans(
                    *old(report),
                    mid,
                    *report,
                    if missing {
                        missing_page_msgs(label@, from@.take(i as int), other@.to_set())
                    } else {
                        unknown_page_msgs(label@, from@.take(i as int), other@.to_set())
                    },
                    Seq::empty(),
                    seq![m@],
                    Seq::empty(),
                );
                assert(Seq::<Seq<char>>::empty() + Seq::<Seq<char>>::empty() =~= Seq::<Seq<char>>::empty());
            }
        } else {
            proof {
                let e = if missing {
                    missing_page_msgs(label@, from@.take(i as int), other@.to_set())
                } else {
                    unknown_page_msgs(label@, from@.take(i as int), other@.to_set())
                };
                assert(e + Seq::<Seq<char>>::empty() =~= e);
            }
        }
        i += 1;
    }
    proof {
        assert(from@.take(i as int) =~= from@);
    }
}

/// Reports the pages of `expected` that `actual` misses, then the pages of
/// `actual` that `expected` does not know.
pub fn validate_page_id_set(label: &str, actual: &Vec<PageId>, expected: &Vec<PageId>, report: &mut ValidationReport)
    ensures
        appended(
            *old(report),
            *final(report),
            missing_page_msgs(label@, expected@, actual@.to_set()) + unknown_page_msgs(
                label@,
                actual@,
                expected@.to_set(),
            ),
            Seq::empty(),
        ),
{
    let ghost r0 = *report;
    push_missing(report, label, expected, actual, true);
    let ghost r1 = *report;
    push_missing(report, label, actual, expected, false);
    proof {
        lemma_appended_trans(
            r0,
            r1,
            *report,
            missing_page_msgs(label@, expected@, actual@.to_set()),
            Seq::empty(),
            unknown_page_msgs(label@, actual@, expected@.to_set()),
            Seq::empty(),
        );
        assert(Seq::<Seq<char>>::empty() + Seq::<Seq<char>>::empty() =~= Seq::<Seq<char>>::empty());
    }
}

// ---------------------------------------------------------------------------
// Cell links
// ---------------------------------------------------------------------------

pub open spec fn link_prefix(label: Seq<char>, id: CellId) -> Seq<char> {
    label + " "@ + decimal(id as nat)
}

/// The errors for link `k` of a cell: a link to itself, a link to an unknown
/// cell.
pub open spec fn link_errors(label: Seq<char>, id: CellId, links: Seq<CellId>, ids: Set<CellId>, k: int) -> Seq<Seq<char>> {
    (if links[k] == id {
        seq![link_prefix(label, id) + " links to itself"@]
    } else {
        Seq::empty()
    }) + (if !ids.contains(links[k]) {
        seq![link_prefix(label, id) + " links to unknown cell "@ + decimal(links[k] as nat)]
    } else {
        Seq::empty()
    })
}

/// The warning for link `k` of a cell: a repeated link.
pub open spec fn link_warnings(label: Seq<char>, id: CellId, links: Seq<CellId>, k: int) -> Seq<Seq<char>> {
    if links.take(k).contains(links[k]) {
        seq![link_prefix(label, id) + " repeats link "@ + decimal(links[k] as nat)]
    } else {
        Seq::empty()
    }
}

pub open spec fn cell_link_errors(label: Seq<char>, id: CellId, links: Seq<CellId>, ids: Set<CellId>, n: int) -> Seq<Seq<char>>
    decreases n,
{
    if n <= 0 {
        Seq::empty()
    } else {
        cell_link_errors(label, id, links, ids, n - 1) + link_errors(label, id, links, ids, n - 1)
    }
}

pub open spec fn cell_link_warnings(label: Seq<char>, id: CellId, links: Seq<CellId>, n: int) -> Seq<Seq<char>>
    decreases n,
{
    if n <= 0 {
        Seq::empty()
    } else {
        cell_link_warnings(label, id, links, n - 1) + link_warnings(label, id, links, n - 1)
    }
}

pub open spec fn all_link_errors(entries: Seq<(String, CellId, Vec<CellId>)>, ids: Set<CellId>) -> Seq<Seq<char>>
    decreases entries.len(),
{
    if entries.len() == 0 {
        Seq::empty()
    } else {
        let e = entries.last();
        all_link_errors(entries.drop_last(), ids) + cell_link_errors(e.0@, e.1, e.2@, ids, e.2@.len() as int)
    }
}

pub open spec fn all_link_warnings(entries: Seq<(String, CellId, Vec<CellId>)>) -> Seq<Seq<char>>
    decreases entries.len(),
{
    if entries.len() == 0 {
        Seq::empty()
    } else {
        let e = entries.last();
        all_link_warnings(entries.drop_last()) + cell_link_warnings(e.0@, e.1, e.2@, e.2@.len() as int)
    }
}

fn link_message(label: &str, id: CellId, tail: &str) -> (m: String)
    ensures
        m@ == link_prefix(label@, id) + tail@,
{
    let mut m = string_from(label);
    push_str(&mut m, " ");
    push_decimal_str(&mut m, id);
    push_str(&mut m, tail);
    proof {
        reveal_strlit(" ");
        assert(m@ =~= link_prefix(label@, id) + tail@);
    }
    m
}

/// Reports, for each `(label, cell, links)`, the links of a cell to itself
/// and to unknown cells (errors) and repeated links (warnings).
pub fn validate_cell_links(
    cell_ids: &Vec<CellId>,
    cell_links: &Vec<(String, CellId, Vec<CellId>)>,
    report: &mut ValidationReport,
)
    ensures
        appended(
            *old(report),
            *final(report),
            all_link_errors(cell_links@, cell_ids@.to_set()),
            all_link_warnings(cell_links@),
        ),
{
    let ghost ids = cell_ids@.to_set();
    let mut e: usize = 0;
    proof {
        lemma_appended_refl(*report);
        assert(cell_links@.take(0) =~= Seq::<(String, CellId, Vec<CellId>)>::empty());
    }
    while e < cell_links.len()
        invariant
            e <= cell_links@.len(),
            ids == cell_ids@.to_set(),
            appended(
                *old(report),
                *report,
                all_link_errors(cell_links@.take(e as int), ids),
                all_link_warnings(cell_links@.take(e as int)),
            ),
        decreases cell_links@.len() - e,
    {
        let label = cell_links[e].0.as_str();
        let id = cell_links[e].1;
        let links = &cell_links[e].2;
        let ghost r_entry = *report;
        let mut k: usize = 0;
        proof {
            lemma_appended_refl(*report);
        }
        while k < links.len()
            invariant
                k <= links@.len(),
                e < cell_links@.len(),
                ids == cell_ids@.to_set(),
                label@ == cell_links@[e as int].0@,
                id == cell_links@[e as int].1,
                links@ == cell_links@[e as int].2@,
                appended(
                    r_entry,
                    *report,
                    cell_link_errors(label@, id, links@, ids, k as int),
                    cell_link_warnings(label@, id, links@, k as int),
                ),
            decreases links@.len() - k,
        {
            let link = links[k];
            let ghost r_k = *report;
            let ghost e0 = cell_link_errors(label@, id, links@, ids, k as int);
            let ghost w0 = cell_link_warnings(label@, id, links@, k as int);
            let ghost mut a: Seq<Seq<char>> = Seq::empty();
            let ghost mut w: Seq<Seq<char>> = Seq::empty();
            proof {
                lemma_appended_refl(*report);
            }
            if link == id {
                let m = link_message(label, id, " links to itself");
                let ghost r1 = *report;
                add_error(report, m);
                proof {
                    lemma_appended_trans(r_k, r1, *report, a, w, seq![m@], Seq::empty());
                    a = a + seq![m@];
                    w = w + Seq::<Seq<char>>::empty();
                }
            }
            let mut seen = false;
            let mut q: usize = 0;
            while q < k
                invariant
                    q <= k,
                    k < links@.len(),
                    seen == exists|t: int| 0 <= t < q && links@[t] == links@[k as int],
                decreases k - q,
            {
                if links[q] == links[k] {
                    seen = true;
                }
                q += 1;
            }
            proof {
                if links@.take(k as int).contains(links@[k as int]) {
                    let t = choose|t: int| 0 <= t < k && links@.take(k as int)[t] == links@[k as int];
                    assert(links@[t] == links@[k as int]);
                }
                if seen {
                    let t = choose|t: int| 0 <= t < k && links@[t] == links@[k as int];
                    assert(links@.take(k as int)[t] == links@[k as int]);
                }
            }
            if seen {
                let mut m = link_message(label, id, " repeats link ");
                push_decimal_str(&mut m, link);
                let ghost r1 = *report;
                add_warning(report, m);
                proof {
                    lemma_appended_trans(r_k, r1, *report, a, w, Seq::empty(), seq![m@]);
                    a = a + Seq::<Seq<char>>::empty();
                    w = w + seq![m@];
                }
            }
            if !contains_u64(cell_ids, link) {
                let mut m = link_message(label, id, " links to unknown cell ");
                push_decimal_str(&mut m, link);
                let ghost r1 = *report;
                add_error(report, m);
                proof {
                    lemma_appended_trans(r_k, r1, *report, a, w, seq![m@], Seq::empty());
                    a = a + seq![m@];
                    w = w + Seq::<Seq<char>>::empty();
                }
            }
            proof {
                reveal_strlit(" links to itself");
                reveal_strlit(" repeats link ");
                reveal_strlit(" links to unknown cell ");
                assert(ids.contains(link) == cell_ids@.contains(link));
                assert(a =~= link_errors(label@, id, links@, ids, k as int));
                assert(w =~= link_warnings(label@, id, links@, k as int));
                lemma_appended_trans(r_entry, r_k, *report, e0, w0, a, w);
            }
            k += 1;
        }
        proof {
            let ent = cell_links@[e as int];
            assert(cell_links@.take(e + 1).drop_last() =~= cell_links@.take(e as int));
            assert(cell_links@.take(e + 1).last() == ent);
            lemma_appended_trans(
                *old(report),
                r_entry,
                *report,
                all_link_errors(cell_links@.take(e as int), ids),
                all_link_warnings(cell_links@.take(e as int)),
                cell_link_errors(label@, id, links@, ids, k as int),
                cell_link_warnings(label@, id, links@, k as int),
            );
        }
        e += 1;
    }
    proof {
        assert(cell_links@.take(e as int) =~= cell_links@);
    }
}

/// The distinct statuss of the cells.
pub open spec fn cell_statuss(cells: Seq<MemoryCell>) -> Set<MemoryStatus> {
    Set::new(|v: MemoryStatus| exists|i: int| 0 <= i < cells.len() && #[trigger] cells[i].status == v)
}

pub open spec fn status_key() -> spec_fn(MemoryStatus) -> int {
    |v: MemoryStatus| memory_status_rank(v) as int
}

/// The distinct statuss of the cells in declaration order.
pub open spec fn status_summary_spec(cells: Seq<MemoryCell>) -> Seq<MemoryStatus> {
    choose|v: Seq<MemoryStatus>| increasing_by(v, status_key()) && v.to_set() == cell_statuss(cells)
}

pub fn status_summary(cells: &[MemoryCell]) -> (out: Vec<MemoryStatus>)
    ensures
        out@ == status_summary_spec(cells@),
{
    let mut out: Vec<MemoryStatus> = Vec::new();
    let mut i: usize = 0;
    proof {
        assert(out@.to_set() =~= cell_statuss(cells@.take(0)));
    }
    while i < cells.len()
        invariant
            i <= cells@.len(),
            increasing_by(out@, status_key()),
            out@.to_set() == cell_statuss(cells@.take(i as int)),
        decreases cells@.len() - i,
    {
        let v = cells[i].status;
        let r = v.rank();
        let mut j: usize = 0;
        while j < out.len() && out[j].rank() < r
            invariant
                j <= out@.len(),
                r as nat == memory_status_rank(v),
                forall|k: int| 0 <= k < j ==> memory_status_rank(#[trigger] out@[k]) < memory_status_rank(v),
            decreases out@.len() - j,
        {
            j += 1;
        }
        let ghost before = out@;
        if j < out.len() && out[j].rank() == r {
            proof {
                assert(out@[j as int] == v);
            }
        } else {
            proof {
                assert forall|k: int| j <= k < before.len() implies memory_status_rank(v) < memory_status_rank(#[trigger] before[k]) by {
                    if k > j {
                        assert(memory_status_rank(before[j as int]) < memory_status_rank(before[k]));
                    }
                }
            }
            out.insert(j, v);
            proof {
                assert(out@ =~= before.insert(j as int, v));
                assert forall|a: int, b: int| 0 <= a < b < out@.len() implies (status_key())(#[trigger] out@[a]) < (status_key())(#[trigger] out@[b]) by {
                    if a < j && b > j {
                        assert(out@[b] == before[b - 1]);
                    } else if a == j {
                        assert(out@[b] == before[b - 1]);
                    } else if a > j {
                        assert(out@[a] == before[a - 1]);
                        assert(out@[b] == before[b - 1]);
                    }
                }
            }
        }
        proof {
            let t = cells@.take(i as int);
            let t1 = cells@.take(i + 1);
            assert forall|x: MemoryStatus| out@.to_set().contains(x) == cell_statuss(t1).contains(x) by {
                if out@.to_set().contains(x) {
                    let k = choose|k: int| 0 <= k < out@.len() && out@[k] == x;
                    if x == v {
                        assert(t1[i as int].status == x);
                    } else {
                        if before.len() < out@.len() {
                            if k < j {
                                assert(before[k] == x);
                            } else {
                                assert(before[k - 1] == x);
                            }
                        } else {
                            assert(before[k] == x);
                        }
                        assert(before.to_set().contains(x));
                        let q = choose|q: int| 0 <= q < t.len() && #[trigger] t[q].status == x;
                        assert(t1[q].status == x);
                    }
                }
                if cell_statuss(t1).contains(x) {
                    let q = choose|q: int| 0 <= q < t1.len() && #[trigger] t1[q].status == x;
                    if q < i {
                        assert(t[q].status == x);
                        assert(cell_statuss(t).contains(x));
                        assert(before.to_set().contains(x));
                        let k = choose|k: int| 0 <= k < before.len() && before[k] == x;
                        if before.len() < out@.len() {
                            if k < j {
                                assert(out@[k] == x);
                            } else {
                                assert(out@[k + 1] == x);
                            }
                        } else {
                            assert(out@[k] == x);
                        }
                    } else {
                        if before.len() < out@.len() {
                            assert(out@[j as int] == x);
                        } else {
                            assert(out@[j as int] == x);
                        }
                    }
                }
            }
            assert(out@.to_set() =~= cell_statuss(t1));
        }
        i += 1;
    }
    proof {
        assert(cells@.take(i as int) =~= cells@);
        let w = choose|w: Seq<MemoryStatus>| increasing_by(w, status_key()) && w.to_set() == cell_statuss(cells@);
        lemma_increasing_unique(out@, w, status_key());
    }
    out
}

/// The distinct sensitivitys of the cells.
pub open spec fn cell_sensitivitys(cells: Seq<MemoryCell>) -> Set<SensitivityLevel> {
    Set::new(|v: SensitivityLevel| exists|i: int| 0 <= i < cells.len() && #[trigger] cells[i].sensitivity == v)
}

pub open spec fn sensitivity_key() -> spec_fn(SensitivityLevel) -> int {
    |v: SensitivityLevel| sensitivity_level_rank(v) as int
}

/// The distinct sensitivitys of the cells in declaration order.
pub open spec fn sensitivity_summary_spec(cells: Seq<MemoryCell>) -> Seq<SensitivityLevel> {
    choose|v: Seq<SensitivityLevel>| increasing_by(v, sensitivity_key()) && v.to_set() == cell_sensitivitys(cells)
}

pub fn sensitivity_summary(cells: &[MemoryCell]) -> (out: Vec<SensitivityLevel>)
    ensures
        out@ == sensitivity_summary_spec(cells@),
{
    let mut out: Vec<SensitivityLevel> = Vec::new();
    let mut i: usize = 0;
    proof {
        assert(out@.to_set() =~= cell_sensitivitys(cells@.take(0)));
    }
    while i < cells.len()
        invariant
            i <= cells@.len(),
            increasing_by(out@, sensitivity_key()),
            out@.to_set() == cell_sensitivitys(cells@.take(i as int)),
        decreases cells@.len() - i,
    {
        let v = cells[i].sensitivity;
        let r = v.rank();
        let mut j: usize = 0;
        while j < out.len() && out[j].rank() < r
            invariant
                j <= out@.len(),
                r as nat == sensitivity_level_rank(v),
                forall|k: int| 0 <= k < j ==> sensitivity_level_rank(#[trigger] out@[k]) < sensitivity_level_rank(v),
            decreases out@.len() - j,
        {
            j += 1;
        }
        let ghost before = out@;
        if j < out.len() && out[j].rank() == r {
            proof {
                assert(out@[j as int] == v);
            }
        } else {
            proof {
                assert forall|k: int| j <= k < before.len() implies sensitivity_level_rank(v) < sensitivity_level_rank(#[trigger] before[k]) by {
                    if k > j {
                        assert(sensitivity_level_rank(before[j as int]) < sensitivity_level_rank(before[k]));
                    }
                }
            }
            out.insert(j, v);
            proof {
                assert(out@ =~= before.insert(j as int, v));
                assert forall|a: int, b: int| 0 <= a < b < out@.len() implies (sensitivity_key())(#[trigger] out@[a]) < (sensitivity_key())(#[trigger] out@[b]) by {
                    if a < j && b > j {
                        assert(out@[b] == before[b - 1]);
                    } else if a == j {
                        assert(out@[b] == before[b - 1]);
                    } else if a > j {
                        assert(out@[a] == before[a - 1]);
                        assert(out@[b] == before[b - 1]);
                    }
                }
            }
        }
        proof {
            let t = cells@.take(i as int);
            let t1 = cells@.take(i + 1);
            assert forall|x: SensitivityLevel| out@.to_set().contains(x) == cell_sensitivitys(t1).contains(x) by {
                if out@.to_set().contains(x) {
                    let k = choose|k: int| 0 <= k < out@.len() && out@[k] == x;
                    if x == v {
                        assert(t1[i as int].sensitivity == x);
                    } else {
                        if before.len() < out@.len() {
                            if k < j {
                                assert(before[k] == x);
                            } else {
                                assert(before[k - 1] == x);
                            }
                        } else {
                            assert(before[k] == x);
                        }
                        assert(before.to_set().contains(x));
                        let q = choose|q: int| 0 <= q < t.len() && #[trigger] t[q].sensitivity == x;
                        assert(t1[q].sensitivity == x);
                    }
                }
                if cell_sensitivitys(t1).contains(x) {
                    let q = choose|q: int| 0 <= q < t1.len() && #[trigger] t1[q].sensitivity == x;
                    if q < i {
                        assert(t[q].sensitivity == x);
                        assert(cell_sensitivitys(t).contains(x));
                        assert(before.to_set().contains(x));
                        let k = choose|k: int| 0 <= k < before.len() && before[k] == x;
                        if before.len() < out@.len() {
                            if k < j {
                                assert(out@[k] == x);
                            } else {
                                assert(out@[k + 1] == x);
                            }
                        } else {
                            assert(out@[k] == x);
                        }
                    } else {
                        if before.len() < out@.len() {
                            assert(out@[j as int] == x);
                        } else {
                            assert(out@[j as int] == x);
                        }
                    }
                }
            }
            assert(out@.to_set() =~= cell_sensitivitys(t1));
        }
        i += 1;
    }
    proof {
        assert(cells@.take(i as int) =~= cells@);
        let w = choose|w: Seq<SensitivityLevel>| increasing_by(w, sensitivity_key()) && w.to_set() == cell_sensitivitys(cells@);
        lemma_increasing_unique(out@, w, sensitivity_key());
    }
    out
}

/// The distinct trust levels of the cells.
pub open spec fn cell_trusts(cells: Seq<MemoryCell>) -> Set<TrustLevel> {
    Set::new(|v: TrustLevel| exists|i: int| 0 <= i < cells.len() && #[trigger] cells[i].trust == v)
}

pub open spec fn trust_key() -> spec_fn(TrustLevel) -> int {
    |v: TrustLevel| trust_level_rank(v) as int
}

/// The distinct trust levels of the cells in declaration order.
pub open spec fn trust_summary_spec(cells: Seq<MemoryCell>) -> Seq<TrustLevel> {
    choose|v: Seq<TrustLevel>| increasing_by(v, trust_key()) && v.to_set() == cell_trusts(cells)
}

pub fn trust_summary(cells: &[MemoryCell]) -> (out: Vec<TrustLevel>)
    ensures
        out@ == trust_summary_spec(cells@),
{
    let mut out: Vec<TrustLevel> = Vec::new();
    let mut i: usize = 0;
    proof {
        assert(out@.to_set() =~= cell_trusts(cells@.take(0)));
    }
    while i < cells.len()
        invariant
            i <= cells@.len(),
            increasing_by(out@, trust_key()),
            out@.to_set() == cell_trusts(cells@.take(i as int)),
        decreases cells@.len() - i,
    {
        let v = cells[i].trust;
        let r = v.rank();
        let mut j: usize = 0;
        while j < out.len() && out[j].rank() < r
            invariant
                j <= out@.len(),
                r as nat == trust_level_rank(v),
                forall|k: int| 0 <= k < j ==> trust_level_rank(#[trigger] out@[k]) < trust_level_rank(v),
            decreases out@.len() - j,
        {
            j += 1;
        }
        let ghost before = out@;
        if j < out.len() && out[j].rank() == r {
            proof {
                assert(out@[j as int] == v);
            }
        } else {
            proof {
                assert forall|k: int| j <= k < before.len() implies trust_level_rank(v) < trust_level_rank(#[trigger] before[k]) by {
                    if k > j {
                        assert(trust_level_rank(before[j as int]) < trust_level_rank(before[k]));
                    }
                }
            }
            out.insert(j, v);
            proof {
                assert(out@ =~= before.insert(j as int, v));
                assert forall|a: int, b: int| 0 <= a < b < out@.len() implies (trust_key())(#[trigger] out@[a]) < (trust_key())(#[trigger] out@[b]) by {
                    if a < j && b > j {
                        assert(out@[b] == before[b - 1]);
                    } else if a == j {
                        assert(out@[b] == before[b - 1]);
                    } else if a > j {
                        assert(out@[a] == before[a - 1]);
                        assert(out@[b] == before[b - 1]);
                    }
                }
            }
        }
        proof {
            let t = cells@.take(i as int);
            let t1 = cells@.take(i + 1);
            assert forall|x: TrustLevel| out@.to_set().contains(x) == cell_trusts(t1).contains(x) by {
                if out@.to_set().contains(x) {
                    let k = choose|k: int| 0 <= k < out@.len() && out@[k] == x;
                    if x == v {
                        assert(t1[i as int].trust == x);
                    } else {
                        if before.len() < out@.len() {
                            if k < j {
                                assert(before[k] == x);
                            } else {
                                assert(before[k - 1] == x);
                            }
                        } else {
                            assert(before[k] == x);
                        }
                        assert(before.to_set().contains(x));
                        let q = choose|q: int| 0 <= q < t.len() && #[trigger] t[q].trust == x;
                        assert(t1[q].trust == x);
                    }
                }
                if cell_trusts(t1).contains(x) {
                    let q = choose|q: int| 0 <= q < t1.len() && #[trigger] t1[q].trust == x;
                    if q < i {
                        assert(t[q].trust == x);
                        assert(cell_trusts(t).contains(x));
                        assert(before.to_set().contains(x));
                        let k = choose|k: int| 0 <= k < before.len() && before[k] == x;
                        if before.len() < out@.len() {
                            if k < j {
                                assert(out@[k] == x);
                            } else {
                                assert(out@[k + 1] == x);
                            }
                        } else {
                            assert(out@[k] == x);
                        }
                    } else {
                        if before.len() < out@.len() {
                            assert(out@[j as int] == x);
                        } else {
                            assert(out@[j as int] == x);
                        }
                    }
                }
            }
            assert(out@.to_set() =~= cell_trusts(t1));
        }
        i += 1;
    }
    proof {
        assert(cells@.take(i as int) =~= cells@);
        let w = choose|w: Seq<TrustLevel>| increasing_by(w, trust_key()) && w.to_set() == cell_trusts(cells@);
        lemma_increasing_unique(out@, w, trust_key());
    }
    out
}

// ---------------------------------------------------------------------------
// Catalog summaries against page cells
// ---------------------------------------------------------------------------

/// Items separated by `, `.
pub open spec fn joined(items: Seq<Seq<char>>) -> Seq<char>
    decreases items.len(),
{
    if items.len() == 0 {
        Seq::empty()
    } else if items.len() == 1 {
        items[0]
    } else {
        joined(items.drop_last()) + ", "@ + items.last()
    }
}

/// A list as `Debug` writes it: `[a, b, c]`.
pub open spec fn debug_list(items: Seq<Seq<char>>) -> Seq<char> {
    "["@ + joined(items) + "]"@
}

fn push_debug_list(out: &mut String, items: &Vec<String>)
    ensures
        final(out)@ == old(out)@ + debug_list(string_views(items@)),
{
    push_str(out, "[");
    let ghost start = out@;
    let mut i: usize = 0;
    while i < items.len()
        invariant
            i <= items@.len(),
            out@ == start + joined(string_views(items@).take(i as int)),
        decreases items@.len() - i,
    {
        if i > 0 {
            push_str(out, ", ");
        }
        push_str(out, items[i].as_str());
        proof {
            let t1 = string_views(items@).take(i + 1);
            assert(t1.drop_last() =~= string_views(items@).take(i as int));
            assert(t1.last() == items@[i as int]@);
            if i == 0 {
                assert(string_views(items@).take(0) =~= Seq::<Seq<char>>::empty());
                assert(t1.len() == 1);
                assert(out@ =~= start + joined(t1));
            } else {
                assert(out@ =~= start + joined(t1));
            }
        }
        i += 1;
    }
    push_str(out, "]");
    proof {
        reveal_strlit("[");
        reveal_strlit("]");
        assert(string_views(items@).take(i as int) =~= string_views(items@));
        assert(out@ =~= old(out)@ + debug_list(string_views(items@)));
    }
}

/// The error for a catalog summary that is recorded (not empty) but differs
/// from what the page's cells give.
pub open spec fn summary_msgs(label: Seq<char>, page_id: PageId, actual: Seq<Seq<char>>, expected: Seq<Seq<char>>, differs: bool) -> Seq<Seq<char>> {
    if actual.len() > 0 && differs {
        seq!["catalog "@ + label + " differs from page cells for page "@ + decimal(page_id as nat) + ": expected "@
            + debug_list(expected) + ", found "@ + debug_list(actual)]
    } else {
        Seq::empty()
    }
}

fn check_summary(
    report: &mut ValidationReport,
    label: &str,
    page_id: PageId,
    actual: &Vec<String>,
    expected: &Vec<String>,
    differs: bool,
)
    ensures
        appended(
            *old(report),
            *final(report),
            summary_msgs(label@, page_id, string_views(actual@), string_views(expected@), differs),
            Seq::empty(),
        ),
{
    if actual.len() > 0 && differs {
        let mut m = string_from("catalog ");
        push_str(&mut m, label);
        push_str(&mut m, " differs from page cells for page ");
        push_decimal_str(&mut m, page_id);
        push_str(&mut m, ": expected ");
        push_debug_list(&mut m, expected);
        push_str(&mut m, ", found ");
        push_debug_list(&mut m, actual);
        proof {
            assert(m@ =~= "catalog "@ + label@ + " differs from page cells for page "@ + decimal(page_id as nat)
                + ": expected "@ + debug_list(string_views(expected@)) + ", found "@ + debug_list(
                string_views(actual@),
            ));
        }
        add_error(report, m);
    } else {
        proof {
            lemma_appended_refl(*report);
        }
    }
}

fn decimal_texts(ids: &Vec<MarkerId>) -> (out: Vec<String>)
    ensures
        string_views(out@) == id_texts(ids@),
{
    let mut out: Vec<String> = Vec::new();
    let mut i: usize = 0;
    proof {
        assert(string_views(out@) =~= id_texts(ids@.take(0)));
    }
    while i < ids.len()
        invariant
            i <= ids@.len(),
            string_views(out@) == id_texts(ids@.take(i as int)),
        decreases ids@.len() - i,
    {
        let ghost before = string_views(out@);
        out.push(crate::text::decimal_string(ids[i] as u64));
        i += 1;
        proof {
            assert(string_views(out@) =~= before.push(decimal(ids@[i - 1] as nat)));
            assert(string_views(out@) =~= id_texts(ids@.take(i as int)));
        }
    }
    proof {
        assert(ids@.take(i as int) =~= ids@);
    }
    out
}

pub open spec fn id_texts(ids: Seq<MarkerId>) -> Seq<Seq<char>> {
    Seq::new(ids.len(), |i: int| decimal(ids[i] as nat))
}

/// The `Debug` name of a variant.
pub open spec fn status_debug(v: MemoryStatus) -> Seq<char> {
    match v {
        MemoryStatus::Active => "Active"@,
        MemoryStatus::Temporary => "Temporary"@,
        MemoryStatus::Deprecated => "Deprecated"@,
        MemoryStatus::Rejected => "Rejected"@,
        MemoryStatus::Superseded => "Superseded"@,
        MemoryStatus::Unverified => "Unverified"@,
        MemoryStatus::Verified => "Verified"@,
    }
}

pub open spec fn status_texts(v: Seq<MemoryStatus>) -> Seq<Seq<char>> {
    Seq::new(v.len(), |i: int| status_debug(v[i]))
}

fn status_debug_texts(v: &Vec<MemoryStatus>) -> (out: Vec<String>)
    ensures
        string_views(out@) == status_texts(v@),
{
    let mut out: Vec<String> = Vec::new();
    let mut i: usize = 0;
    proof {
        assert(string_views(out@) =~= status_texts(v@.take(0)));
    }
    while i < v.len()
        invariant
            i <= v@.len(),
            string_views(out@) == status_texts(v@.take(i as int)),
        decreases v@.len() - i,
    {
        let name: &str = match v[i] {
            MemoryStatus::Active => "Active",
            MemoryStatus::Temporary => "Temporary",
            MemoryStatus::Deprecated => "Deprecated",
            MemoryStatus::Rejected => "Rejected",
            MemoryStatus::Superseded => "Superseded",
            MemoryStatus::Unverified => "Unverified",
            MemoryStatus::Verified => "Verified",
        };
        let ghost before = string_views(out@);
        out.push(string_from(name));
        i += 1;
        proof {
            assert(string_views(out@) =~= before.push(status_debug(v@[i - 1])));
            assert(string_views(out@) =~= status_texts(v@.take(i as int)));
        }
    }
    proof {
        assert(v@.take(i as int) =~= v@);
    }
    out
}

fn statuss_equal(a: &Vec<MemoryStatus>, b: &Vec<MemoryStatus>) -> (r: bool)
    ensures
        r == (a@ == b@),
{
    if a.len() != b.len() {
        return false;
    }
    let mut i: usize = 0;
    while i < a.len()
        invariant
            i <= a@.len(),
            a@.len() == b@.len(),
            forall|k: int| 0 <= k < i ==> a@[k] == b@[k],
        decreases a@.len() - i,
    {
        if a[i] != b[i] {
            return false;
        }
        i += 1;
    }
    proof {
        assert(a@ =~= b@);
    }
    true
}

/// The `Debug` name of a variant.
pub open spec fn sensitivity_debug(v: SensitivityLevel) -> Seq<char> {
    match v {
        SensitivityLevel::Public => "Public"@,
        SensitivityLevel::Private => "Private"@,
        SensitivityLevel::Confidential => "Confidential"@,
        SensitivityLevel::SecretReference => "SecretReference"@,
    }
}

pub open spec fn sensitivity_texts(v: Seq<SensitivityLevel>) -> Seq<Seq<char>> {
    Seq::new(v.len(), |i: int| sensitivity_debug(v[i]))
}

fn sensitivity_debug_texts(v: &Vec<SensitivityLevel>) -> (out: Vec<String>)
    ensures
        string_views(out@) == sensitivity_texts(v@),
{
    let mut out: Vec<String> = Vec::new();
    let mut i: usize = 0;
    proof {
        assert(string_views(out@) =~= sensitivity_texts(v@.take(0)));
    }
    while i < v.len()
        invariant
            i <= v@.len(),
            string_views(out@) == sensitivity_texts(v@.take(i as int)),
        decreases v@.len() - i,
    {
        let name: &str = match v[i] {
            SensitivityLevel::Public => "Public",
            SensitivityLevel::Private => "Private",
            SensitivityLevel::Confidential => "Confidential",
            SensitivityLevel::SecretReference => "SecretReference",
        };
        let ghost before = string_views(out@);
        out.push(string_from(name));
        i += 1;
        proof {
            assert(string_views(out@) =~= before.push(sensitivity_debug(v@[i - 1])));
            assert(string_views(out@) =~= sensitivity_texts(v@.take(i as int)));
        }
    }
    proof {
        assert(v@.take(i as int) =~= v@);
    }
    out
}

fn sensitivitys_equal(a: &Vec<SensitivityLevel>, b: &Vec<SensitivityLevel>) -> (r: bool)
    ensures
        r == (a@ == b@),
{
    if a.len() != b.len() {
        return false;
    }
    let mut i: usize = 0;
    while i < a.len()
        invariant
            i <= a@.len(),
            a@.len() == b@.len(),
            forall|k: int| 0 <= k < i ==> a@[k] == b@[k],
        decreases a@.len() - i,
    {
        if a[i] != b[i] {
            return false;
        }
        i += 1;
    }
    proof {
        assert(a@ =~= b@);
    }
    true
}

/// The `Debug` name of a variant.
pub open spec fn trust_debug(v: TrustLevel) -> Seq<char> {
    match v {
        TrustLevel::UserConfirmed => "UserConfirmed"@,
        TrustLevel::AgentInferred => "AgentInferred"@,
        TrustLevel::ToolObserved => "ToolObserved"@,
        TrustLevel::ExternalUntrusted => "ExternalUntrusted"@,
        TrustLevel::SystemGenerated => "SystemGenerated"@,
    }
}

pub open spec fn trust_texts(v: Seq<TrustLevel>) -> Seq<Seq<char>> {
    Seq::new(v.len(), |i: int| trust_debug(v[i]))
}

fn trust_debug_texts(v: &Vec<TrustLevel>) -> (out: Vec<String>)
    ensures
        string_views(out@) == trust_texts(v@),
{
    let mut out: Vec<String> = Vec::new();
    let mut i: usize = 0;
    proof {
        assert(string_views(out@) =~= trust_texts(v@.take(0)));
    }
    while i < v.len()
        invariant
            i <= v@.len(),
            string_views(out@) == trust_texts(v@.take(i as int)),
        decreases v@.len() - i,
    {
        let name: &str = match v[i] {
            TrustLevel::UserConfirmed => "UserConfirmed",
            TrustLevel::AgentInferred => "AgentInferred",
            TrustLevel::ToolObserved => "ToolObserved",
            TrustLevel::ExternalUntrusted => "ExternalUntrusted",
            TrustLevel::SystemGenerated => "SystemGenerated",
        };
        let ghost before = string_views(out@);
        out.push(string_from(name));
        i += 1;
        proof {
            assert(string_views(out@) =~= before.push(trust_debug(v@[i - 1])));
            assert(string_views(out@) =~= trust_texts(v@.take(i as int)));
        }
    }
    proof {
        assert(v@.take(i as int) =~= v@);
    }
    out
}

fn trusts_equal(a: &Vec<TrustLevel>, b: &Vec<TrustLevel>) -> (r: bool)
    ensures
        r == (a@ == b@),
{
    if a.len() != b.len() {
        return false;
    }
    let mut i: usize = 0;
    while i < a.len()
        invariant
            i <= a@.len(),
            a@.len() == b@.len(),
            forall|k: int| 0 <= k < i ==> a@[k] == b@[k],
        decreases a@.len() - i,
    {
        if a[i] != b[i] {
            return false;
        }
        i += 1;
    }
    proof {
        assert(a@ =~= b@);
    }
    true
}

fn ids_equal(a: &Vec<MarkerId>, b: &Vec<MarkerId>) -> (r: bool)
    ensures
        r == (a@ == b@),
{
    if a.len() != b.len() {
        return false;
    }
    let mut i: usize = 0;
    while i < a.len()
        invariant
            i <= a@.len(),
            a@.len() == b@.len(),
            forall|k: int| 0 <= k < i ==> a@[k] == b@[k],
        decreases a@.len() - i,
    {
        if a[i] != b[i] {
            return false;
        }
        i += 1;
    }
    proof {
        assert(a@ =~= b@);
    }
    true
}

/// The ordered set of marker ids of a set.
pub open spec fn ordered_ids(s: Set<MarkerId>) -> Seq<MarkerId> {
    choose|v: Seq<MarkerId>| increasing_by(v, |x: MarkerId| x as int) && v.to_set() == s
}

proof fn lemma_ordered_ids(v: Seq<MarkerId>)
    requires
        strictly_increasing32(v),
    ensures
        ordered_ids(v.to_set()) == v,
{
    assert(increasing_by(v, |x: MarkerId| x as int));
    let w = ordered_ids(v.to_set());
    lemma_increasing_unique(v, w, |x: MarkerId| x as int);
}

/// Which category summary: the scope markers or the kind markers.
pub open spec fn category_raw(c: MemoryCell, scope: bool) -> Seq<char> {
    if scope {
        "scope:"@ + c.scope@
    } else {
        "kind:"@ + memory_kind_name(c.kind)
    }
}

pub open spec fn genome_category(c: MemoryCell, scope: bool) -> Option<MarkerId> {
    if scope {
        c.marker_genome.scope_spec()
    } else {
        c.marker_genome.kind_spec()
    }
}

/// The category marker ids of the first `n` cells: a cell's genome marker of
/// the category, else the dictionary id of its canonical category marker (if
/// the dictionary has it); a raw marker that is not valid is the error.
pub open spec fn category_run(
    cells: Seq<MemoryCell>,
    d: crate::marker_dictionary::DictionaryView,
    scope: bool,
    n: int,
) -> Result<Set<MarkerId>, Seq<char>>
    decreases n,
{
    if n <= 0 {
        Ok(Set::empty())
    } else {
        match category_run(cells, d, scope, n - 1) {
            Err(e) => Err(e),
            Ok(set) => {
                let c = cells[n - 1];
                match genome_category(c, scope) {
                    Some(id) => Ok(set.insert(id)),
                    None => match canonical_marker(category_raw(c, scope)) {
                        None => Err(category_raw(c, scope)),
                        Some(m) => match dict_lookup(d, m) {
                            Some(id) => Ok(set.insert(id)),
                            None => Ok(set),
                        },
                    },
                }
            },
        }
    }
}

proof fn lemma_category_err_persists(
    cells: Seq<MemoryCell>,
    d: crate::marker_dictionary::DictionaryView,
    scope: bool,
    i: int,
    n: int,
)
    requires
        0 <= i <= n,
        category_run(cells, d, scope, i) is Err,
    ensures
        category_run(cells, d, scope, n) == category_run(cells, d, scope, i),
    decreases n - i,
{
    if n > i {
        lemma_category_err_persists(cells, d, scope, i, n - 1);
    }
}

/// The ordered category marker ids of the cells, or the invalid raw marker.
pub fn category_marker_summary(cells: &[MemoryCell], scope: bool, dictionary: &MarkerDictionary) -> (r: Result<
    Vec<MarkerId>,
    MgeError,
>)
    requires
        dictionary.wf(),
    ensures
        match category_run(cells@, dictionary.view(), scope, cells@.len() as int) {
            Ok(set) => r matches Ok(v) && v@ == ordered_ids(set),
            Err(raw) => r matches Err(MgeError::InvalidMarker(m)) && m@ == raw,
        },
{
    let mut out: Vec<MarkerId> = Vec::new();
    let mut i: usize = 0;
    proof {
        assert(out@.to_set() =~= Set::<MarkerId>::empty());
    }
    while i < cells.len()
        invariant
            i <= cells@.len(),
            dictionary.wf(),
            strictly_increasing32(out@),
            category_run(cells@, dictionary.view(), scope, i as int) == Ok::<Set<MarkerId>, Seq<char>>(out@.to_set()),
        decreases cells@.len() - i,
    {
        let c = &cells[i];
        let g = if scope {
            c.marker_genome.scope_marker()
        } else {
            c.marker_genome.kind_marker()
        };
        let ghost before = out@;
        match g {
            Some(id) => {
                crate::idset::set_insert32(&mut out, id);
            },
            None => {
                let mut raw = if scope {
                    string_from("scope:")
                } else {
                    string_from("kind:")
                };
                if scope {
                    push_str(&mut raw, c.scope.as_str());
                } else {
                    push_str(&mut raw, c.kind.as_str());
                }
                proof {
                    assert(raw@ == category_raw(*c, scope));
                }
                match canonicalize_marker(raw.as_str()) {
                    Err(e) => {
                        proof {
                            lemma_category_err_persists(cells@, dictionary.view(), scope, i + 1, cells@.len() as int);
                        }
                        return Err(e);
                    },
                    Ok(m) => {
                        match dictionary.lookup(m.as_str()) {
                            Some(id) => {
                                crate::idset::set_insert32(&mut out, id);
                            },
                            None => {},
                        }
                    },
                }
            },
        }
        i += 1;
    }
    proof {
        lemma_ordered_ids(out@);
    }
    Ok(out)
}

// ---------------------------------------------------------------------------
// Validating one sealed page
// ---------------------------------------------------------------------------

pub open spec fn page_label(id: PageId) -> Seq<char> {
    "page "@ + decimal(id as nat)
}

/// The errors of the page's own fields against the catalog entry.
pub open spec fn page_field_errors(entry: PageCatalogEntry, page: MemoryPage) -> Seq<Seq<char>> {
    let n = page.cells@.len();
    (if page.page_id != entry.page_id {
        seq!["page file "@ + entry.file@ + " contains page id "@ + decimal(page.page_id as nat) + ", catalog expects "@
            + decimal(entry.page_id as nat)]
    } else {
        Seq::empty()
    }) + (if page.cell_count != n {
        seq![page_label(entry.page_id) + " cell_count "@ + decimal(page.cell_count as nat)
            + " does not match actual cells "@ + decimal(n)]
    } else {
        Seq::empty()
    }) + (if entry.cell_count != n {
        seq!["catalog "@ + page_label(entry.page_id) + " cell_count "@ + decimal(entry.cell_count as nat)
            + " does not match actual cells "@ + decimal(n)]
    } else {
        Seq::empty()
    }) + (if entry.marker_summary@ != page.marker_summary@ {
        seq!["catalog marker_summary differs from page marker_summary for page "@ + decimal(entry.page_id as nat)]
    } else {
        Seq::empty()
    })
}

/// The errors of a category summary (scope or kind markers).
pub open spec fn category_errors(entry: PageCatalogEntry, page: MemoryPage, d: crate::marker_dictionary::DictionaryView, scope: bool) -> Seq<Seq<char>> {
    let recorded = if scope {
        entry.scope_marker_summary@
    } else {
        entry.kind_marker_summary@
    };
    let label = if scope {
        "scope_marker_summary"@
    } else {
        "kind_marker_summary"@
    };
    let what = if scope {
        " scope marker summary validation failed: "@
    } else {
        " kind marker summary validation failed: "@
    };
    match category_run(page.cells@, d, scope, page.cells@.len() as int) {
        Ok(set) => summary_msgs(label, entry.page_id, id_texts(recorded), id_texts(ordered_ids(set)), recorded != ordered_ids(set)),
        Err(raw) => seq![page_label(entry.page_id) + what + "invalid marker: "@ + raw],
    }
}

/// The errors of the status, sensitivity and trust summaries.
pub open spec fn enum_summary_errors(entry: PageCatalogEntry, page: MemoryPage) -> Seq<Seq<char>> {
    let cells = page.cells@;
    summary_msgs(
        "status_summary"@,
        entry.page_id,
        status_texts(entry.status_summary@),
        status_texts(status_summary_spec(cells)),
        entry.status_summary@ != status_summary_spec(cells),
    ) + summary_msgs(
        "sensitivity_summary"@,
        entry.page_id,
        sensitivity_texts(entry.sensitivity_summary@),
        sensitivity_texts(sensitivity_summary_spec(cells)),
        entry.sensitivity_summary@ != sensitivity_summary_spec(cells),
    ) + summary_msgs(
        "trust_summary"@,
        entry.page_id,
        trust_texts(entry.trust_summary@),
        trust_texts(trust_summary_spec(cells)),
        entry.trust_summary@ != trust_summary_spec(cells),
    )
}

/// The error of a marker summary that is not the ordered set of the cells'
/// markers, and of a checksum that does not verify.
pub open spec fn summary_and_checksum_errors(entry: PageCatalogEntry, page: MemoryPage, checksum_check: Result<bool, MgeError>) -> Seq<Seq<char>> {
    marker_summary_errors(entry, page) + checksum_errors(entry, page, checksum_check)
}

pub open spec fn marker_summary_errors(entry: PageCatalogEntry, page: MemoryPage) -> Seq<Seq<char>> {
    if ordered_ids(cells_marker_set(page.cells@)) != page.marker_summary@ {
        seq![page_label(entry.page_id) + " marker_summary does not match page cells"@]
    } else {
        Seq::empty()
    }
}

pub open spec fn checksum_errors(entry: PageCatalogEntry, page: MemoryPage, checksum_check: Result<bool, MgeError>) -> Seq<Seq<char>> {
    match page.checksum {
        Some(_) => match checksum_check {
            Ok(true) => Seq::empty(),
            Ok(false) => seq![page_label(entry.page_id) + " checksum mismatch"@],
            Err(e) => seq![page_label(entry.page_id) + " checksum verification failed: "@ + error_prefix(e) + error_detail(e)],
        },
        None => Seq::empty(),
    }
}

/// The errors for marker ids of a cell that the dictionary does not know.
pub open spec fn cell_marker_errors(label: Seq<char>, c: MemoryCell, d: crate::marker_dictionary::DictionaryView, ids: Seq<MarkerId>) -> Seq<Seq<char>>
    decreases ids.len(),
{
    if ids.len() == 0 {
        Seq::empty()
    } else {
        cell_marker_errors(label, c, d, ids.drop_last()) + if d.reverse.contains_key(ids.last()) {
            Seq::empty()
        } else {
            seq![label + " "@ + decimal(c.id as nat) + " references unknown marker "@ + decimal(ids.last() as nat)]
        }
    }
}

pub open spec fn cells_marker_errors(label: Seq<char>, cells: Seq<MemoryCell>, d: crate::marker_dictionary::DictionaryView) -> Seq<Seq<char>>
    decreases cells.len(),
{
    if cells.len() == 0 {
        Seq::empty()
    } else {
        cells_marker_errors(label, cells.drop_last(), d) + cell_marker_errors(
            label,
            cells.last(),
            d,
            ordered_ids(cell_marker_set(cells.last())),
        )
    }
}

/// Every error validating a page reports, in order.
pub open spec fn page_errors(
    entry: PageCatalogEntry,
    page: MemoryPage,
    d: crate::marker_dictionary::DictionaryView,
    checksum_check: Result<bool, MgeError>,
) -> Seq<Seq<char>> {
    page_field_errors(entry, page) + category_errors(entry, page, d, true) + category_errors(entry, page, d, false)
        + enum_summary_errors(entry, page) + summary_and_checksum_errors(entry, page, checksum_check)
        + cells_marker_errors("sealed cell"@, page.cells@, d)
}

/// The warning validating a page reports: a page without a checksum.
pub open spec fn page_warnings(entry: PageCatalogEntry, page: MemoryPage) -> Seq<Seq<char>> {
    if page.checksum is None {
        seq![page_label(entry.page_id) + " has no checksum"@]
    } else {
        Seq::empty()
    }
}

pub open spec fn counted(r: ValidationReport, pages: int, cells: int) -> ValidationReport {
    ValidationReport {
        checked_sealed_pages: (r.checked_sealed_pages + pages) as usize,
        checked_sealed_cells: (r.checked_sealed_cells + cells) as usize,
        ..r
    }
}

fn push_page_label(m: &mut String, id: PageId)
    ensures
        final(m)@ == old(m)@ + page_label(id),
{
    push_str(m, "page ");
    push_decimal_str(m, id);
    proof {
        reveal_strlit("page ");
        assert(m@ =~= old(m)@ + page_label(id));
    }
}

pub(crate) fn validate_cell_markers(label: &str, cell: &MemoryCell, dictionary: &MarkerDictionary, report: &mut ValidationReport)
    requires
        dictionary.wf(),
    ensures
        appended(
            *old(report),
            *final(report),
            cell_marker_errors(label@, *cell, dictionary.view(), ordered_ids(cell_marker_set(*cell))),
            Seq::empty(),
        ),
{
    let ids = cell.marker_ids_for_indexing();
    proof {
        lemma_ordered_ids(ids@);
        lemma_appended_refl(*report);
        assert(ids@.take(0) =~= Seq::<MarkerId>::empty());
    }
    let mut i: usize = 0;
    while i < ids.len()
        invariant
            i <= ids@.len(),
            dictionary.wf(),
            appended(
                *old(report),
                *report,
                cell_marker_errors(label@, *cell, dictionary.view(), ids@.take(i as int)),
                Seq::empty(),
            ),
        decreases ids@.len() - i,
    {
        let ghost mid = *report;
        proof {
            assert(ids@.take(i + 1).drop_last() =~= ids@.take(i as int));
            assert(ids@.take(i + 1).last() == ids@[i as int]);
        }
        if dictionary.marker(ids[i]).is_none() {
            let mut m = string_from(label);
            push_str(&mut m, " ");
            push_decimal_str(&mut m, cell.id);
            push_str(&mut m, " references unknown marker ");
            push_decimal_str(&mut m, ids[i] as u64);
            proof {
                reveal_strlit(" ");
                assert(m@ =~= label@ + " "@ + decimal(cell.id as nat) + " references unknown marker "@ + decimal(
                    ids@[i as int] as nat,
                ));
            }
            add_error(report, m);
            proof {
                lemma_appended_trans(
                    *old(report),
                    mid,
                    *report,
                    cell_marker_errors(label@, *cell, dictionary.view(), ids@.take(i as int)),
                    Seq::empty(),
                    seq![m@],
                    Seq::empty(),
                );
                assert(Seq::<Seq<char>>::empty() + Seq::<Seq<char>>::empty() =~= Seq::<Seq<char>>::empty());
            }
        } else {
            proof {
                let e = cell_marker_errors(label@, *cell, dictionary.view(), ids@.take(i as int));
                assert(e + Seq::<Seq<char>>::empty() =~= e);
            }
        }
        i += 1;
    }
    proof {
        assert(ids@.take(i as int) =~= ids@);
    }
}

fn check_category(
    report: &mut ValidationReport,
    entry: &PageCatalogEntry,
    page: &MemoryPage,
    dictionary: &MarkerDictionary,
    scope: bool,
)
    requires
        dictionary.wf(),
    ensures
        appended(*old(report), *final(report), category_errors(*entry, *page, dictionary.view(), scope), Seq::empty()),
{
    match category_marker_summary(page.cells.as_slice(), scope, dictionary) {
        Ok(expected) => {
            let recorded = if scope {
                &entry.scope_marker_summary
            } else {
                &entry.kind_marker_summary
            };
            let differs = !ids_equal(recorded, &expected);
            let actual_texts = decimal_texts(recorded);
            let expected_texts = decimal_texts(&expected);
            let label = if scope {
                "scope_marker_summary"
            } else {
                "kind_marker_summary"
            };
            check_summary(report, label, entry.page_id, &actual_texts, &expected_texts, differs);
        },
        Err(err) => {
            let mut m = String::new();
            push_page_label(&mut m, entry.page_id);
            if scope {
                push_str(&mut m, " scope marker summary validation failed: ");
            } else {
                push_str(&mut m, " kind marker summary validation failed: ");
            }
            let text = err.message();
            push_str(&mut m, text.as_str());
            proof {
                assert(m@ =~= page_label(entry.page_id) + (if scope {
                    " scope marker summary validation failed: "@
                } else {
                    " kind marker summary validation failed: "@
                }) + "invalid marker: "@ + error_detail(err));
            }
            add_error(report, m);
        },
    }
}

fn check_enum_summaries(report: &mut ValidationReport, entry: &PageCatalogEntry, page: &MemoryPage)
    ensures
        appended(*old(report), *final(report), enum_summary_errors(*entry, *page), Seq::empty()),
{
    let ghost r0 = *report;
    let statuses = status_summary(page.cells.as_slice());
    let differs = !statuss_equal(&entry.status_summary, &statuses);
    check_summary(report, "status_summary", entry.page_id, &status_debug_texts(&entry.status_summary), &status_debug_texts(&statuses), differs);
    let ghost r1 = *report;
    let levels = sensitivity_summary(page.cells.as_slice());
    let differs = !sensitivitys_equal(&entry.sensitivity_summary, &levels);
    check_summary(report, "sensitivity_summary", entry.page_id, &sensitivity_debug_texts(&entry.sensitivity_summary), &sensitivity_debug_texts(&levels), differs);
    let ghost r2 = *report;
    let trusts = trust_summary(page.cells.as_slice());
    let differs = !trusts_equal(&entry.trust_summary, &trusts);
    check_summary(report, "trust_summary", entry.page_id, &trust_debug_texts(&entry.trust_summary), &trust_debug_texts(&trusts), differs);
    proof {
        let cells = page.cells@;
        let a = summary_msgs(
            "status_summary"@,
            entry.page_id,
            status_texts(entry.status_summary@),
            status_texts(status_summary_spec(cells)),
            entry.status_summary@ != status_summary_spec(cells),
        );
        let b = summary_msgs(
            "sensitivity_summary"@,
            entry.page_id,
            sensitivity_texts(entry.sensitivity_summary@),
            sensitivity_texts(sensitivity_summary_spec(cells)),
            entry.sensitivity_summary@ != sensitivity_summary_spec(cells),
        );
        let c = summary_msgs(
            "trust_summary"@,
            entry.page_id,
            trust_texts(entry.trust_summary@),
            trust_texts(trust_summary_spec(cells)),
            entry.trust_summary@ != trust_summary_spec(cells),
        );
        let e: Seq<Seq<char>> = Seq::empty();
        lemma_appended_trans(r0, r1, r2, a, e, b, e);
        lemma_appended_trans(r0, r2, *report, a + b, e + e, c, e);
        assert(e + e + e =~= e);
    }
}

fn check_summary_and_checksum(
    report: &mut ValidationReport,
    entry: &PageCatalogEntry,
    page: &MemoryPage,
    checksum_check: &Result<bool, MgeError>,
)
    ensures
        appended(
            *old(report),
            *final(report),
            summary_and_checksum_errors(*entry, *page, *checksum_check),
            page_warnings(*entry, *page),
        ),
{
    let ghost r0 = *report;
    let computed = marker_summary_for_cells(page.cells.as_slice());
    proof {
        lemma_ordered_ids(computed@);
    }
    let ghost a: Seq<Seq<char>> = marker_summary_errors(*entry, *page);
    if !ids_equal(&computed, &page.marker_summary) {
        let mut m = String::new();
        push_page_label(&mut m, entry.page_id);
        push_str(&mut m, " marker_summary does not match page cells");
        add_error(report, m);
    } else {
        proof {
            lemma_appended_refl(*report);
        }
    }
    let ghost r1 = *report;
    match &page.checksum {
        Some(_) => match checksum_check {
            Ok(true) => {
                proof {
                    lemma_appended_refl(*report);
                }
            },
            Ok(false) => {
                let mut m = String::new();
                push_page_label(&mut m, entry.page_id);
                push_str(&mut m, " checksum mismatch");
                add_error(report, m);
            },
            Err(err) => {
                let mut m = String::new();
                push_page_label(&mut m, entry.page_id);
                push_str(&mut m, " checksum verification failed: ");
                let text = err.message();
                push_str(&mut m, text.as_str());
                proof {
                    assert(m@ =~= page_label(entry.page_id) + " checksum verification failed: "@ + error_prefix(*err)
                        + error_detail(*err));
                }
                add_error(report, m);
            },
        },
        None => {
            let mut m = String::new();
            push_page_label(&mut m, entry.page_id);
            push_str(&mut m, " has no checksum");
            add_warning(report, m);
        },
    }
    proof {
        let b: Seq<Seq<char>> = checksum_errors(*entry, *page, *checksum_check);
        let e: Seq<Seq<char>> = Seq::empty();
        lemma_appended_trans(r0, r1, *report, a, e, b, page_warnings(*entry, *page));
        assert(e + page_warnings(*entry, *page) =~= page_warnings(*entry, *page));
    }
}

/// Validates a sealed page against its catalog entry: ids, counts and
/// summaries, the checksum (`checksum_check` is the outcome of checking the
/// page's recorded checksum against its canonical encoding, used when it has
/// one), and the markers of every cell; counts the page and its cells.
pub fn validate_page(
    entry: &PageCatalogEntry,
    page: &MemoryPage,
    dictionary: &MarkerDictionary,
    checksum_check: &Result<bool, MgeError>,
    report: &mut ValidationReport,
)
    requires
        dictionary.wf(),
        old(report).checked_sealed_pages < usize::MAX,
        old(report).checked_sealed_cells + page.cells@.len() <= usize::MAX,
    ensures
        appended(
            counted(*old(report), 1, page.cells@.len() as int),
            *final(report),
            page_errors(*entry, *page, dictionary.view(), *checksum_check),
            page_warnings(*entry, *page),
        ),
{
    report.checked_sealed_pages = report.checked_sealed_pages + 1;
    report.checked_sealed_cells = report.checked_sealed_cells + page.cells.len();
    let ghost r0 = *report;
    proof {
        assert(r0 == counted(*old(report), 1, page.cells@.len() as int));
    }
    let n = page.cells.len();
    if page.page_id != entry.page_id {
        let mut m = string_from("page file ");
        push_str(&mut m, entry.file.as_str());
        push_str(&mut m, " contains page id ");
        push_decimal_str(&mut m, page.page_id);
        push_str(&mut m, ", catalog expects ");
        push_decimal_str(&mut m, entry.page_id);
        add_error(report, m);
    } else {
        proof {
            lemma_appended_refl(*report);
        }
    }
    let ghost r1 = *report;
    if page.cell_count != n {
        let mut m = String::new();
        push_page_label(&mut m, entry.page_id);
        push_str(&mut m, " cell_count ");
        push_decimal_str(&mut m, page.cell_count as u64);
        push_str(&mut m, " does not match actual cells ");
        push_decimal_str(&mut m, n as u64);
        add_error(report, m);
    } else {
        proof {
            lemma_appended_refl(*report);
        }
    }
    let ghost r2 = *report;
    if entry.cell_count != n {
        let mut m = string_from("catalog ");
        push_page_label(&mut m, entry.page_id);
        push_str(&mut m, " cell_count ");
        push_decimal_str(&mut m, entry.cell_count as u64);
        push_str(&mut m, " does not match actual cells ");
        push_decimal_str(&mut m, n as u64);
        add_error(report, m);
    } else {
        proof {
            lemma_appended_refl(*report);
        }
    }
    let ghost r3 = *report;
    if !ids_equal(&entry.marker_summary, &page.marker_summary) {
        let mut m = string_from("catalog marker_summary differs from page marker_summary for page ");
        push_decimal_str(&mut m, entry.page_id);
        add_error(report, m);
    } else {
        proof {
            lemma_appended_refl(*report);
        }
    }
    let ghost r4 = *report;
    proof {
        let e: Seq<Seq<char>> = Seq::empty();
        let n0 = page.cells@.len();
        let a1: Seq<Seq<char>> = if page.page_id != entry.page_id {
            seq!["page file "@ + entry.file@ + " contains page id "@ + decimal(page.page_id as nat) + ", catalog expects "@
                + decimal(entry.page_id as nat)]
        } else {
            Seq::empty()
        };
        let a2: Seq<Seq<char>> = if page.cell_count != n0 {
            seq![page_label(entry.page_id) + " cell_count "@ + decimal(page.cell_count as nat)
                + " does not match actual cells "@ + decimal(n0)]
        } else {
            Seq::empty()
        };
        let a3: Seq<Seq<char>> = if entry.cell_count != n0 {
            seq!["catalog "@ + page_label(entry.page_id) + " cell_count "@ + decimal(entry.cell_count as nat)
                + " does not match actual cells "@ + decimal(n0)]
        } else {
            Seq::empty()
        };
        let a4: Seq<Seq<char>> = if entry.marker_summary@ != page.marker_summary@ {
            seq!["catalog marker_summary differs from page marker_summary for page "@ + decimal(entry.page_id as nat)]
        } else {
            Seq::empty()
        };
        lemma_appended_trans(r0, r1, r2, a1, e, a2, e);
        lemma_appended_trans(r0, r2, r3, a1 + a2, e + e, a3, e);
        lemma_appended_trans(r0, r3, r4, a1 + a2 + a3, e + e + e, a4, e);
        assert(a1 + a2 + a3 + a4 =~= page_field_errors(*entry, *page));
        assert(e + e + e + e =~= e);
    }
    check_category(report, entry, page, dictionary, true);
    let ghost r5 = *report;
    check_category(report, entry, page, dictionary, false);
    let ghost r6 = *report;
    check_enum_summaries(report, entry, page);
    let ghost r7 = *report;
    check_summary_and_checksum(report, entry, page, checksum_check);
    let ghost r8 = *report;
    let mut i: usize = 0;
    proof {
        lemma_appended_refl(*report);
        assert(page.cells@.take(0) =~= Seq::<MemoryCell>::empty());
    }
    while i < page.cells.len()
        invariant
            i <= page.cells@.len(),
            dictionary.wf(),
            appended(r8, *report, cells_marker_errors("sealed cell"@, page.cells@.take(i as int), dictionary.view()), Seq::empty()),
        decreases page.cells@.len() - i,
    {
        let ghost mid = *report;
        validate_cell_markers("sealed cell", &page.cells[i], dictionary, report);
        proof {
            reveal_strlit("sealed cell");
            assert(page.cells@.take(i + 1).drop_last() =~= page.cells@.take(i as int));
            assert(page.cells@.take(i + 1).last() == page.cells@[i as int]);
            let e: Seq<Seq<char>> = Seq::empty();
            lemma_appended_trans(
                r8,
                mid,
                *report,
                cells_marker_errors("sealed cell"@, page.cells@.take(i as int), dictionary.view()),
                e,
                cell_marker_errors("sealed cell"@, page.cells@[i as int], dictionary.view(), ordered_ids(cell_marker_set(page.cells@[i as int]))),
                e,
            );
            assert(e + e =~= e);
        }
        i += 1;
    }
    proof {
        assert(page.cells@.take(i as int) =~= page.cells@);
        let e: Seq<Seq<char>> = Seq::empty();
        let d = dictionary.view();
        lemma_appended_trans(r0, r4, r5, page_field_errors(*entry, *page), e, category_errors(*entry, *page, d, true), e);
        lemma_appended_trans(r0, r5, r6, page_field_errors(*entry, *page) + category_errors(*entry, *page, d, true), e + e, category_errors(*entry, *page, d, false), e);
        lemma_appended_trans(r0, r6, r7, page_field_errors(*entry, *page) + category_errors(*entry, *page, d, true) + category_errors(*entry, *page, d, false), e + e + e, enum_summary_errors(*entry, *page), e);
        lemma_appended_trans(r0, r7, r8, page_field_errors(*entry, *page) + category_errors(*entry, *page, d, true) + category_errors(*entry, *page, d, false) + enum_summary_errors(*entry, *page), e + e + e + e, summary_and_checksum_errors(*entry, *page, *checksum_check), page_warnings(*entry, *page));
        lemma_appended_trans(r0, r8, *report, page_field_errors(*entry, *page) + category_errors(*entry, *page, d, true) + category_errors(*entry, *page, d, false) + enum_summary_errors(*entry, *page) + summary_and_checksum_errors(*entry, *page, *checksum_check), e + e + e + e + page_warnings(*entry, *page), cells_marker_errors("sealed cell"@, page.cells@, d), e);
        assert(e + e + e + e + page_warnings(*entry, *page) + e =~= page_warnings(*entry, *page));
    }
}

// ---------------------------------------------------------------------------
// Validating the candidate index against the catalog
// ---------------------------------------------------------------------------

pub open spec fn catalog_ids(c: Seq<PageCatalogEntry>) -> Seq<PageId> {
    Seq::new(c.len(), |i: int| c[i].page_id)
}

/// The page-set errors of `label`: pages of `expected` missing from
/// `actual`, then pages of `actual` not in `expected`, each in increasing
/// order.
pub open spec fn id_set_msgs(label: Seq<char>, actual: Seq<PageId>, expected: Seq<PageId>) -> Seq<Seq<char>> {
    missing_page_msgs(label, ordered_set_of(expected), actual.to_set()) + unknown_page_msgs(
        label,
        ordered_set_of(actual),
        expected.to_set(),
    )
}

pub open spec fn exact_page_msgs(m: MarkerId, pages: Seq<PageId>, ids: Set<PageId>) -> Seq<Seq<char>>
    decreases pages.len(),
{
    if pages.len() == 0 {
        Seq::empty()
    } else {
        exact_page_msgs(m, pages.drop_last(), ids) + if ids.contains(pages.last()) {
            Seq::empty()
        } else {
            seq!["exact index marker "@ + decimal(m as nat) + " references unknown page "@ + decimal(pages.last() as nat)]
        }
    }
}

pub open spec fn exact_entry_msgs(
    entries: Seq<(MarkerId, Vec<PageId>)>,
    d: crate::marker_dictionary::DictionaryView,
    ids: Set<PageId>,
) -> Seq<Seq<char>>
    decreases entries.len(),
{
    if entries.len() == 0 {
        Seq::empty()
    } else {
        let (m, pages) = entries.last();
        exact_entry_msgs(entries.drop_last(), d, ids) + (if d.reverse.contains_key(m) {
            Seq::empty()
        } else {
            seq!["exact index references unknown marker "@ + decimal(m as nat)]
        }) + exact_page_msgs(m, pages@, ids)
    }
}

/// The catalog entry the index check uses for a page id: the last one with
/// that id, or -1.
pub open spec fn last_entry(c: Seq<PageCatalogEntry>, id: PageId) -> int
    decreases c.len(),
{
    if c.len() == 0 {
        -1
    } else if c.last().page_id == id {
        c.len() - 1
    } else {
        last_entry(c.drop_last(), id)
    }
}

pub open spec fn distinct_markers(e: PageCatalogEntry) -> nat {
    ordered_set_of(widen(e.marker_summary@)).len()
}

pub open spec fn fuse_filter_msgs(f: crate::indexes::BinaryFusePageFilter, e: PageCatalogEntry) -> Seq<Seq<char>> {
    let mc = distinct_markers(e);
    let p = "binary fuse page "@ + decimal(f.page_id as nat);
    (if f.marker_count != mc {
        seq![p + " marker_count "@ + decimal(f.marker_count as nat) + " does not match catalog marker count "@ + decimal(mc)]
    } else {
        Seq::empty()
    }) + (if mc == 0 && f.filter is Some {
        seq![p + " has a filter for an empty marker_summary"@]
    } else {
        Seq::empty()
    }) + (if mc > 0 && f.filter is None {
        seq![p + " is missing filter for non-empty marker_summary"@]
    } else {
        Seq::empty()
    })
}

pub open spec fn fuse_filters_msgs(filters: Seq<crate::indexes::BinaryFusePageFilter>, c: Seq<PageCatalogEntry>) -> Seq<Seq<char>>
    decreases filters.len(),
{
    if filters.len() == 0 {
        Seq::empty()
    } else {
        let f = filters.last();
        fuse_filters_msgs(filters.drop_last(), c) + if last_entry(c, f.page_id) >= 0 {
            fuse_filter_msgs(f, c[last_entry(c, f.page_id)])
        } else {
            Seq::empty()
        }
    }
}

/// Whether the index finds `page` for the single marker `m`.
pub open spec fn index_finds(index: CandidateIndexData, m: MarkerId, page: PageId) -> bool {
    match index {
        CandidateIndexData::ExactMarkerPage(idx) => mode_pages(idx.under(), seq![m], QueryMode::PreferIntersection).contains(page),
        CandidateIndexData::BinaryFusePage(idx) => fuse_mode_pages(idx.page_filters@, widen(seq![m]).to_set(), QueryMode::Union).contains(page),
    }
}

pub open spec fn miss_msgs_for(index: CandidateIndexData, id: PageId, markers: Seq<MarkerId>) -> Seq<Seq<char>>
    decreases markers.len(),
{
    if markers.len() == 0 {
        Seq::empty()
    } else {
        miss_msgs_for(index, id, markers.drop_last()) + if index_finds(index, markers.last(), id) {
            Seq::empty()
        } else {
            seq!["candidate index misses page "@ + decimal(id as nat) + " for marker "@ + decimal(markers.last() as nat)]
        }
    }
}

pub open spec fn miss_msgs(index: CandidateIndexData, c: Seq<PageCatalogEntry>) -> Seq<Seq<char>>
    decreases c.len(),
{
    if c.len() == 0 {
        Seq::empty()
    } else {
        miss_msgs(index, c.drop_last()) + miss_msgs_for(index, c.last().page_id, c.last().marker_summary@)
    }
}

/// Every error the index check reports, in order.
pub open spec fn index_errors(
    catalog: Seq<PageCatalogEntry>,
    index: CandidateIndexData,
    d: crate::marker_dictionary::DictionaryView,
) -> Seq<Seq<char>> {
    index_set_errors(catalog, index, d) + miss_msgs(index, catalog)
}

/// The errors of the index's page sets and of its markers or filters.
pub open spec fn index_set_errors(
    catalog: Seq<PageCatalogEntry>,
    index: CandidateIndexData,
    d: crate::marker_dictionary::DictionaryView,
) -> Seq<Seq<char>> {
    let ids = catalog_ids(catalog);
    match index {
        CandidateIndexData::ExactMarkerPage(idx) => id_set_msgs("exact index all_pages"@, idx.all_pages@, ids)
            + exact_entry_msgs(idx.marker_to_pages@, d, ids.to_set()),
        CandidateIndexData::BinaryFusePage(idx) => id_set_msgs("binary fuse index all_pages"@, idx.all_pages@, ids)
            + id_set_msgs(
            "binary fuse page filters"@,
            Seq::new(idx.page_filters@.len(), |i: int| idx.page_filters@[i].page_id),
            ids,
        ) + fuse_filters_msgs(idx.page_filters@, catalog),
    }
}

fn ordered_ids_u64(v: &Vec<PageId>) -> (out: Vec<PageId>)
    ensures
        out@ == ordered_set_of(v@),
{
    let out = sort_dedup(v);
    proof {
        lemma_ordered_set_of(v@);
        lemma_enumeration_unique(out@, ordered_set_of(v@));
    }
    out
}

fn id_set_check(label: &str, actual: &Vec<PageId>, expected: &Vec<PageId>, report: &mut ValidationReport)
    ensures
        appended(*old(report), *final(report), id_set_msgs(label@, actual@, expected@), Seq::empty()),
{
    let a = ordered_ids_u64(actual);
    let e = ordered_ids_u64(expected);
    validate_page_id_set(label, &a, &e, report);
    proof {
        lemma_ordered_set_of(actual@);
        lemma_ordered_set_of(expected@);
    }
}

fn check_exact_entries(idx: &ExactMarkerPageIndex, ids: &Vec<PageId>, dictionary: &MarkerDictionary, report: &mut ValidationReport)
    requires
        dictionary.wf(),
    ensures
        appended(*old(report), *final(report), exact_entry_msgs(idx.marker_to_pages@, dictionary.view(), ids@.to_set()), Seq::empty()),
{
    let entries = &idx.marker_to_pages;
    let ghost d = dictionary.view();
    let mut i: usize = 0;
    proof {
        lemma_appended_refl(*report);
        assert(entries@.take(0) =~= Seq::<(MarkerId, Vec<PageId>)>::empty());
    }
    while i < entries.len()
        invariant
            i <= entries@.len(),
            dictionary.wf(),
            d == dictionary.view(),
            appended(*old(report), *report, exact_entry_msgs(entries@.take(i as int), d, ids@.to_set()), Seq::empty()),
        decreases entries@.len() - i,
    {
        let m = entries[i].0;
        let pages = &entries[i].1;
        let ghost r0 = *report;
        let ghost e: Seq<Seq<char>> = Seq::empty();
        if dictionary.marker(m).is_none() {
            let mut msg = string_from("exact index references unknown marker ");
            push_decimal_str(&mut msg, m as u64);
            add_error(report, msg);
        } else {
            proof {
                lemma_appended_refl(*report);
            }
        }
        let ghost r1 = *report;
        let mut k: usize = 0;
        proof {
            lemma_appended_refl(*report);
            assert(pages@.take(0) =~= Seq::<PageId>::empty());
        }
        while k < pages.len()
            invariant
                k <= pages@.len(),
                appended(r1, *report, exact_page_msgs(m, pages@.take(k as int), ids@.to_set()), Seq::empty()),
            decreases pages@.len() - k,
        {
            let ghost mid = *report;
            let p = pages[k];
            proof {
                assert(pages@.take(k + 1).drop_last() =~= pages@.take(k as int));
                assert(pages@.take(k + 1).last() == p);
                assert(ids@.to_set().contains(p) == ids@.contains(p));
            }
            if !contains_u64(ids, p) {
                let mut msg = string_from("exact index marker ");
                push_decimal_str(&mut msg, m as u64);
                push_str(&mut msg, " references unknown page ");
                push_decimal_str(&mut msg, p);
                add_error(report, msg);
                proof {
                    lemma_appended_trans(r1, mid, *report, exact_page_msgs(m, pages@.take(k as int), ids@.to_set()), Seq::empty(), seq![msg@], Seq::empty());
                    assert(Seq::<Seq<char>>::empty() + Seq::<Seq<char>>::empty() =~= Seq::<Seq<char>>::empty());
                }
            } else {
                proof {
                    let x = exact_page_msgs(m, pages@.take(k as int), ids@.to_set());
                    assert(x + Seq::<Seq<char>>::empty() =~= x);
                }
            }
            k += 1;
        }
        proof {
            assert(pages@.take(k as int) =~= pages@);
            assert(entries@.take(i + 1).drop_last() =~= entries@.take(i as int));
            assert(entries@.take(i + 1).last() == entries@[i as int]);
            let um: Seq<Seq<char>> = if d.reverse.contains_key(m) {
                Seq::empty()
            } else {
                seq!["exact index references unknown marker "@ + decimal(m as nat)]
            };
            lemma_appended_trans(r0, r1, *report, um, e, exact_page_msgs(m, pages@, ids@.to_set()), e);
            lemma_appended_trans(*old(report), r0, *report, exact_entry_msgs(entries@.take(i as int), d, ids@.to_set()), e, um + exact_page_msgs(m, pages@, ids@.to_set()), e + e);
            assert(e + (e + e) =~= e);
            assert(exact_entry_msgs(entries@.take(i as int), d, ids@.to_set()) + (um + exact_page_msgs(m, pages@, ids@.to_set())) =~= exact_entry_msgs(entries@.take(i + 1), d, ids@.to_set()));
        }
        i += 1;
    }
    proof {
        assert(entries@.take(i as int) =~= entries@);
    }
}

proof fn lemma_last_entry_bounds(c: Seq<PageCatalogEntry>, id: PageId)
    ensures
        -1 <= last_entry(c, id) < c.len(),
    decreases c.len(),
{
    if c.len() > 0 {
        lemma_last_entry_bounds(c.drop_last(), id);
    }
}

fn find_last_entry(catalog: &Vec<PageCatalogEntry>, id: PageId) -> (r: Option<usize>)
    ensures
        match r {
            Some(k) => k as int == last_entry(catalog@, id) && k < catalog@.len(),
            None => last_entry(catalog@, id) < 0,
        },
{
    let mut k: usize = catalog.len();
    proof {
        assert(catalog@.take(k as int) =~= catalog@);
        lemma_last_entry_bounds(catalog@, id);
    }
    while k > 0
        invariant
            k <= catalog@.len(),
            last_entry(catalog@, id) == last_entry(catalog@.take(k as int), id),
        decreases k,
    {
        proof {
            assert(catalog@.take(k as int).drop_last() =~= catalog@.take(k - 1));
            assert(catalog@.take(k as int).last() == catalog@[k - 1]);
        }
        if catalog[k - 1].page_id == id {
            return Some(k - 1);
        }
        k -= 1;
    }
    None
}

fn check_fuse_filters(idx: &BinaryFusePageIndex, catalog: &Vec<PageCatalogEntry>, report: &mut ValidationReport)
    ensures
        appended(*old(report), *final(report), fuse_filters_msgs(idx.page_filters@, catalog@), Seq::empty()),
{
    let filters = &idx.page_filters;
    let mut i: usize = 0;
    proof {
        lemma_appended_refl(*report);
    }
    while i < filters.len()
        invariant
            i <= filters@.len(),
            appended(*old(report), *report, fuse_filters_msgs(filters@.take(i as int), catalog@), Seq::empty()),
        decreases filters@.len() - i,
    {
        let f = &filters[i];
        let ghost r0 = *report;
        let ghost e: Seq<Seq<char>> = Seq::empty();
        proof {
            assert(filters@.take(i + 1).drop_last() =~= filters@.take(i as int));
            assert(filters@.take(i + 1).last() == *f);
        }
        match find_last_entry(catalog, f.page_id) {
            None => {
                proof {
                    lemma_appended_refl(*report);
                    let x = fuse_filters_msgs(filters@.take(i as int), catalog@);
                    assert(x + e =~= x);
                }
            },
            Some(k) => {
                let entry = &catalog[k];
                let keys = crate::indexes::marker_keys(entry.marker_summary.as_slice());
                proof {
                    lemma_ordered_set_of(widen(entry.marker_summary@));
                    lemma_enumeration_unique(keys@, ordered_set_of(widen(entry.marker_summary@)));
                }
                let mc = keys.len();
                if f.marker_count != mc {
                    let mut m = string_from("binary fuse page ");
                    push_decimal_str(&mut m, f.page_id);
                    push_str(&mut m, " marker_count ");
                    push_decimal_str(&mut m, f.marker_count as u64);
                    push_str(&mut m, " does not match catalog marker count ");
                    push_decimal_str(&mut m, mc as u64);
                    add_error(report, m);
                } else {
                    proof {
                        lemma_appended_refl(*report);
                    }
                }
                let ghost r1 = *report;
                if mc == 0 && f.filter.is_some() {
                    let mut m = string_from("binary fuse page ");
                    push_decimal_str(&mut m, f.page_id);
                    push_str(&mut m, " has a filter for an empty marker_summary");
                    add_error(report, m);
                } else {
                    proof {
                        lemma_appended_refl(*report);
                    }
                }
                let ghost r2 = *report;
                if mc > 0 && f.filter.is_none() {
                    let mut m = string_from("binary fuse page ");
                    push_decimal_str(&mut m, f.page_id);
                    push_str(&mut m, " is missing filter for non-empty marker_summary");
                    add_error(report, m);
                } else {
                    proof {
                        lemma_appended_refl(*report);
                    }
                }
                proof {
                    let en = catalog@[k as int];
                    let mcs = distinct_markers(en);
                    let p = "binary fuse page "@ + decimal(f.page_id as nat);
                    let a: Seq<Seq<char>> = if f.marker_count != mcs {
                        seq![p + " marker_count "@ + decimal(f.marker_count as nat) + " does not match catalog marker count "@ + decimal(mcs)]
                    } else {
                        Seq::empty()
                    };
                    let b: Seq<Seq<char>> = if mcs == 0 && f.filter is Some {
                        seq![p + " has a filter for an empty marker_summary"@]
                    } else {
                        Seq::empty()
                    };
                    let c: Seq<Seq<char>> = if mcs > 0 && f.filter is None {
                        seq![p + " is missing filter for non-empty marker_summary"@]
                    } else {
                        Seq::empty()
                    };
                    lemma_appended_trans(r0, r1, r2, a, e, b, e);
                    lemma_appended_trans(r0, r2, *report, a + b, e + e, c, e);
                    assert(a + b + c =~= fuse_filter_msgs(*f, en));
                    lemma_appended_trans(*old(report), r0, *report, fuse_filters_msgs(filters@.take(i as int), catalog@), e, a + b + c, e + e + e);
                    assert(e + (e + e + e) =~= e);
                }
            },
        }
        i += 1;
    }
    proof {
        assert(filters@.take(i as int) =~= filters@);
    }
}

fn check_misses(index: &CandidateIndexData, catalog: &Vec<PageCatalogEntry>, report: &mut ValidationReport)
    ensures
        appended(*old(report), *final(report), miss_msgs(*index, catalog@), Seq::empty()),
{
    let mut i: usize = 0;
    proof {
        lemma_appended_refl(*report);
        assert(catalog@.take(0) =~= Seq::<PageCatalogEntry>::empty());
    }
    while i < catalog.len()
        invariant
            i <= catalog@.len(),
            appended(*old(report), *report, miss_msgs(*index, catalog@.take(i as int)), Seq::empty()),
        decreases catalog@.len() - i,
    {
        let entry = &catalog[i];
        let ghost r0 = *report;
        let mut k: usize = 0;
        proof {
            lemma_appended_refl(*report);
            assert(entry.marker_summary@.take(0) =~= Seq::<MarkerId>::empty());
        }
        while k < entry.marker_summary.len()
            invariant
                k <= entry.marker_summary@.len(),
                appended(r0, *report, miss_msgs_for(*index, entry.page_id, entry.marker_summary@.take(k as int)), Seq::empty()),
            decreases entry.marker_summary@.len() - k,
        {
            let m = entry.marker_summary[k];
            let ghost mid = *report;
            let one: [MarkerId; 1] = [m];
            proof {
                assert(one@ =~= seq![m]);
                assert(entry.marker_summary@.take(k + 1).drop_last() =~= entry.marker_summary@.take(k as int));
                assert(entry.marker_summary@.take(k + 1).last() == m);
            }
            let found = match index.query(&one) {
                Ok(pages) => {
                    let f = contains_u64(&pages, entry.page_id);
                    proof {
                        assert(pages@.to_set().contains(entry.page_id) == pages@.contains(entry.page_id));
                    }
                    f
                },
                Err(_) => true,
            };
            proof {
                assert(found == index_finds(*index, m, entry.page_id));
            }
            if !found {
                let mut msg = string_from("candidate index misses page ");
                push_decimal_str(&mut msg, entry.page_id);
                push_str(&mut msg, " for marker ");
                push_decimal_str(&mut msg, m as u64);
                add_error(report, msg);
                proof {
                    lemma_appended_trans(r0, mid, *report, miss_msgs_for(*index, entry.page_id, entry.marker_summary@.take(k as int)), Seq::empty(), seq![msg@], Seq::empty());
                    assert(Seq::<Seq<char>>::empty() + Seq::<Seq<char>>::empty() =~= Seq::<Seq<char>>::empty());
                }
            } else {
                proof {
                    let x = miss_msgs_for(*index, entry.page_id, entry.marker_summary@.take(k as int));
                    assert(x + Seq::<Seq<char>>::empty() =~= x);
                }
            }
            k += 1;
        }
        proof {
            assert(entry.marker_summary@.take(k as int) =~= entry.marker_summary@);
            assert(catalog@.take(i + 1).drop_last() =~= catalog@.take(i as int));
            assert(catalog@.take(i + 1).last() == *entry);
            let e: Seq<Seq<char>> = Seq::empty();
            lemma_appended_trans(*old(report), r0, *report, miss_msgs(*index, catalog@.take(i as int)), e, miss_msgs_for(*index, entry.page_id, entry.marker_summary@), e);
            assert(e + e =~= e);
        }
        i += 1;
    }
    proof {
        assert(catalog@.take(i as int) =~= catalog@);
    }
}

/// Checks the candidate index against the catalog: its page sets, its
/// markers (exact index) or filters (binary fuse index), and that a query for
/// each marker of each catalog page finds that page.
pub fn validate_candidate_index(
    catalog: &PageCatalog,
    index: &CandidateIndexData,
    dictionary: &MarkerDictionary,
    report: &mut ValidationReport,
) -> (r: Result<(), MgeError>)
    requires
        dictionary.wf(),
    ensures
        r is Ok,
        appended(*old(report), *final(report), index_errors(catalog.pages@, *index, dictionary.view()), Seq::empty()),
{
    let entries = &catalog.pages;
    let mut ids: Vec<PageId> = Vec::new();
    let mut i: usize = 0;
    while i < entries.len()
        invariant
            i <= entries@.len(),
            ids@ == catalog_ids(entries@.take(i as int)),
        decreases entries@.len() - i,
    {
        ids.push(entries[i].page_id);
        i += 1;
        proof {
            assert(ids@ =~= catalog_ids(entries@.take(i as int)));
        }
    }
    proof {
        assert(entries@.take(i as int) =~= entries@);
        assert(ids@ =~= catalog_ids(entries@));
    }
    let ghost r0 = *report;
    let ghost e: Seq<Seq<char>> = Seq::empty();
    match index {
        CandidateIndexData::ExactMarkerPage(idx) => {
            id_set_check("exact index all_pages", &idx.all_pages, &ids, report);
            let ghost r1 = *report;
            check_exact_entries(idx, &ids, dictionary, report);
            proof {
                lemma_appended_trans(r0, r1, *report, id_set_msgs("exact index all_pages"@, idx.all_pages@, ids@), e, exact_entry_msgs(idx.marker_to_pages@, dictionary.view(), ids@.to_set()), e);
            }
        },
        CandidateIndexData::BinaryFusePage(idx) => {
            id_set_check("binary fuse index all_pages", &idx.all_pages, &ids, report);
            let ghost r1 = *report;
            let mut fids: Vec<PageId> = Vec::new();
            let mut k: usize = 0;
            while k < idx.page_filters.len()
                invariant
                    k <= idx.page_filters@.len(),
                    fids@ == Seq::new(k as nat, |q: int| idx.page_filters@[q].page_id),
                decreases idx.page_filters@.len() - k,
            {
                fids.push(idx.page_filters[k].page_id);
                k += 1;
                proof {
                    assert(fids@ =~= Seq::new(k as nat, |q: int| idx.page_filters@[q].page_id));
                }
            }
            id_set_check("binary fuse page filters", &fids, &ids, report);
            let ghost r2 = *report;
            check_fuse_filters(idx, entries, report);
            proof {
                let a = id_set_msgs("binary fuse index all_pages"@, idx.all_pages@, ids@);
                let b = id_set_msgs("binary fuse page filters"@, fids@, ids@);
                lemma_appended_trans(r0, r1, r2, a, e, b, e);
                lemma_appended_trans(r0, r2, *report, a + b, e + e, fuse_filters_msgs(idx.page_filters@, entries@), e);
                assert(fids@ =~= Seq::new(idx.page_filters@.len(), |q: int| idx.page_filters@[q].page_id));
            }
        },
    }
    let ghost r3 = *report;
    check_misses(index, entries, report);
    proof {
        let first = index_set_errors(entries@, *index, dictionary.view());
        lemma_appended_trans(r0, r3, *report, first, e + e + e, miss_msgs(*index, entries@), e);
        assert(e + e + e + e =~= e);
    }
    Ok(())
}


// ---------------------------------------------------------------------------
// Catalog entries of sealed pages
// ---------------------------------------------------------------------------

/// The catalog entry of a page stored in `file` with the given codec,
/// compression and clusterer: the page's id, time, cell count and marker
/// summary, its scope and kind marker summaries, and the ordered statuses,
/// sensitivities and trust levels of its cells. A scope or kind marker that
/// does not canonicalize is an `InvalidMarker` error.
pub fn page_catalog_entry_for_existing_page(
    page: &crate::pages::MemoryPage,
    file: String,
    page_codec: crate::pages::PageCodecKind,
    compression: crate::compression::CompressionKind,
    page_clusterer: crate::pages::PageClustererKind,
    encoded_size_bytes: u64,
    dictionary: &MarkerDictionary,
) -> (r: Result<crate::pages::PageCatalogEntry, MgeError>)
    requires
        dictionary.wf(),
    ensures
        match (
            category_run(page.cells@, dictionary.view(), true, page.cells@.len() as int),
            category_run(page.cells@, dictionary.view(), false, page.cells@.len() as int),
        ) {
            (Err(raw), _) => r matches Err(MgeError::InvalidMarker(m)) && m@ == raw,
            (Ok(_), Err(raw)) => r matches Err(MgeError::InvalidMarker(m)) && m@ == raw,
            (Ok(scopes), Ok(kinds)) => r matches Ok(e) && e.page_id == page.page_id && e.file == file
                && e.page_codec == page_codec && e.compression == compression && e.page_clusterer
                == page_clusterer && e.created_at == page.created_at && e.cell_count == page.cell_count
                && e.marker_summary@ == page.marker_summary@ && e.scope_marker_summary@ == ordered_ids(
                scopes,
            ) && e.kind_marker_summary@ == ordered_ids(kinds) && e.status_summary@
                == status_summary_spec(page.cells@) && e.sensitivity_summary@ == sensitivity_summary_spec(
                page.cells@,
            ) && e.trust_summary@ == trust_summary_spec(page.cells@)
                && e.encoded_size_bytes == encoded_size_bytes,
        },
{
    let scope_summary = category_marker_summary(page.cells.as_slice(), true, dictionary)?;
    let kind_summary = category_marker_summary(page.cells.as_slice(), false, dictionary)?;
    Ok(
        crate::pages::PageCatalogEntry {
            page_id: page.page_id,
            file,
            page_codec,
            compression,
            page_clusterer,
            created_at: page.created_at,
            cell_count: page.cell_count,
            marker_summary: crate::models::copy_ids(&page.marker_summary),
            scope_marker_summary: scope_summary,
            kind_marker_summary: kind_summary,
            status_summary: status_summary(page.cells.as_slice()),
            sensitivity_summary: sensitivity_summary(page.cells.as_slice()),
            trust_summary: trust_summary(page.cells.as_slice()),
            encoded_size_bytes,
        },
    )
}

/// Every marker a cell is indexed under is known to the dictionary.
pub open spec fn cell_markers_known(c: crate::models::MemoryCell, d: crate::marker_dictionary::DictionaryView) -> bool {
    forall|m: MarkerId| crate::models::cell_marker_set(c).contains(m) ==> d.reverse.contains_key(m)
}

/// Checks, before sealing, that every marker of every cell is known; the
/// error names the first cell with an unknown marker and one such marker.
pub fn check_cell_markers_known(cells: &Vec<crate::models::MemoryCell>, dictionary: &MarkerDictionary) -> (r:
    Result<(), MgeError>)
    requires
        dictionary.wf(),
    ensures
        r is Ok <==> forall|i: int| 0 <= i < cells@.len() ==> cell_markers_known(#[trigger] cells@[i], dictionary.view()),
        r matches Err(e) ==> exists|i: int, m: MarkerId|
            #![trigger crate::models::cell_marker_set(cells@[i]).contains(m)]
            0 <= i < cells@.len() && (forall|j: int| 0 <= j < i ==> cell_markers_known(#[trigger] cells@[j], dictionary.view()))
                && crate::models::cell_marker_set(cells@[i]).contains(m) && !dictionary.view().reverse.contains_key(m)
                && (e matches MgeError::InvalidInput(msg) && msg@ == "cell "@ + decimal(cells@[i].id as nat)
                + " references unknown marker "@ + decimal(m as nat)),
{
    let mut i: usize = 0;
    while i < cells.len()
        invariant
            i <= cells@.len(),
            dictionary.wf(),
            forall|j: int| 0 <= j < i ==> cell_markers_known(#[trigger] cells@[j], dictionary.view()),
        decreases cells@.len() - i,
    {
        let ids = cells[i].marker_ids_for_indexing();
        let mut k: usize = 0;
        while k < ids.len()
            invariant
                k <= ids@.len(),
                i < cells@.len(),
                dictionary.wf(),
                forall|j: int| 0 <= j < i ==> cell_markers_known(#[trigger] cells@[j], dictionary.view()),
                ids@.to_set() == crate::models::cell_marker_set(cells@[i as int]),
                forall|t: int| 0 <= t < k ==> dictionary.view().reverse.contains_key(#[trigger] ids@[t]),
            decreases ids@.len() - k,
        {
            if dictionary.marker(ids[k]).is_none() {
                let mut msg = string_from("cell ");
                push_decimal_str(&mut msg, cells[i].id);
                push_str(&mut msg, " references unknown marker ");
                push_decimal_str(&mut msg, ids[k] as u64);
                proof {
                    assert(ids@.to_set().contains(ids@[k as int]));
                    assert(crate::models::cell_marker_set(cells@[i as int]).contains(ids@[k as int]));
                    assert(!cell_markers_known(cells@[i as int], dictionary.view()));
                }
                return Err(MgeError::InvalidInput(msg));
            }
            k += 1;
        }
        proof {
            assert forall|m: MarkerId| crate::models::cell_marker_set(cells@[i as int]).contains(m) implies dictionary.view().reverse.contains_key(m) by {
                assert(ids@.to_set().contains(m));
                let t = choose|t: int| 0 <= t < ids@.len() && ids@[t] == m;
            }
        }
        i += 1;
    }
    Ok(())
}
} // verus!

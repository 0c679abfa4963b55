//! Candidate page indexes: an exact marker-to-pages index and a per-page
//! binary fuse filter index (through the `xorf` crate).
use vstd::prelude::*;
use crate::errors::MgeError;
use crate::idset::{enumerates, lemma_ordered_set_of, ordered_set_of, set_extend, set_insert, set_intersection, sort_dedup, strictly_increasing};
use crate::models::{copy_cell_ids, has_prefix, MarkerId, PageId};
use crate::pages::MemoryPage;
use crate::text::{
    chars_eq, chars_of, decimal, push_chars, push_decimal_str, push_str, string_from, trim_ascii_lower,
    trim_ascii_lower_chars,
};
use xorf::{BinaryFuse16, Filter};
use vstd::string::StringSliceAdditionalSpecFns;

verus! {

#[derive(Clone, Copy, Debug, PartialEq, Eq, Structural)]
pub enum IndexKind {
    ExactMarkerPage,
    BinaryFusePage,
}

pub open spec fn index_kind_name(k: IndexKind) -> Seq<char> {
    match k {
        IndexKind::ExactMarkerPage => "exact_marker_page"@,
        IndexKind::BinaryFusePage => "binary_fuse_page"@,
    }
}

impl IndexKind {
    /// The default index kind: the exact marker-to-page index.
    pub fn default_kind() -> (k: IndexKind)
        ensures
            k == IndexKind::ExactMarkerPage,
    {
        IndexKind::ExactMarkerPage
    }

    pub fn as_str(&self) -> (s: &'static str)
        ensures
            s@ == index_kind_name(*self),
    {
        match self {
            IndexKind::ExactMarkerPage => "exact_marker_page",
            IndexKind::BinaryFusePage => "binary_fuse_page",
        }
    }
}

/// The index kind a name selects, after trimming and ASCII lowercasing.
pub open spec fn index_kind_from_text(input: Seq<char>) -> Option<IndexKind> {
    let t = trim_ascii_lower(input);
    if t == "exact_marker_page"@ || t == "exact"@ || t == "exact_marker_page_index"@ {
        Some(IndexKind::ExactMarkerPage)
    } else if t == "binary_fuse_page"@ || t == "binary_fuse"@ || t == "binary_fuse_page_index"@ {
        Some(IndexKind::BinaryFusePage)
    } else {
        None
    }
}

impl IndexKind {
    /// Parses an index kind name; an unknown name is an `InvalidInput` error
    /// that quotes the trimmed, lowercased input and lists the kinds.
    pub fn parse(input: &str) -> (r: Result<IndexKind, MgeError>)
        ensures
            match index_kind_from_text(input@) {
                Some(k) => r == Ok::<IndexKind, MgeError>(k),
                None => r matches Err(MgeError::InvalidInput(m)) && m@ == "unknown index kind: "@
                    + trim_ascii_lower(input@) + "; supported: exact_marker_page, binary_fuse_page"@,
            },
    {
        let t = trim_ascii_lower_chars(input);
        if chars_eq(&t, &chars_of("exact_marker_page")) || chars_eq(&t, &chars_of("exact"))
            || chars_eq(&t, &chars_of("exact_marker_page_index")) {
            return Ok(IndexKind::ExactMarkerPage);
        }
        if chars_eq(&t, &chars_of("binary_fuse_page")) || chars_eq(&t, &chars_of("binary_fuse"))
            || chars_eq(&t, &chars_of("binary_fuse_page_index")) {
            return Ok(IndexKind::BinaryFusePage);
        }
        let mut m = string_from("unknown index kind: ");
        push_chars(&mut m, &t);
        push_str(&mut m, "; supported: exact_marker_page, binary_fuse_page");
        Err(MgeError::InvalidInput(m))
    }
}

/// How the candidate sets of several query markers are combined.
#[derive(Clone, Copy, Debug, PartialEq, Eq, Structural)]
pub enum QueryMode {
    Union,
    Intersection,
    PreferIntersection,
}

/// Candidate pages of an index query with the work it took.
pub struct CandidatePageQueryResult {
    pub page_ids: Vec<PageId>,
    pub page_filters_scanned: usize,
    pub candidate_pages_returned: usize,
}


impl Default for IndexKind {
    /// The exact marker-to-page index.
    fn default() -> (k: Self)
        ensures
            k == IndexKind::ExactMarkerPage,
    {
        IndexKind::ExactMarkerPage
    }
}

// ---------------------------------------------------------------------------
// The exact marker-to-page index
// ---------------------------------------------------------------------------

/// The pages listed under marker `m` (by any entry for `m`).
pub open spec fn pages_under(entries: Seq<(MarkerId, Vec<PageId>)>, m: MarkerId) -> Set<PageId> {
    Set::new(
        |p: PageId|
            exists|i: int| 0 <= i < entries.len() && #[trigger] entries[i].0 == m && entries[i].1@.contains(p),
    )
}

/// Markers strictly increasing, each with a nonempty, strictly increasing
/// list of pages.
pub open spec fn entries_wf(entries: Seq<(MarkerId, Vec<PageId>)>) -> bool {
    &&& forall|i: int, j: int| 0 <= i < j < entries.len() ==> #[trigger] entries[i].0 < #[trigger] entries[j].0
    &&& forall|i: int| 0 <= i < entries.len() ==> strictly_increasing(#[trigger] entries[i].1@)
    &&& forall|i: int| 0 <= i < entries.len() ==> (#[trigger] entries[i].1@).len() > 0
}

/// The ids of `pages`.
pub open spec fn page_ids_of(pages: Seq<MemoryPage>) -> Set<PageId> {
    Set::new(|p: PageId| exists|i: int| 0 <= i < pages.len() && #[trigger] pages[i].page_id == p)
}

/// The ids of the pages whose marker summary holds `m`.
pub open spec fn pages_with_marker(pages: Seq<MemoryPage>, m: MarkerId) -> Set<PageId> {
    Set::new(
        |p: PageId|
            exists|i: int|
                0 <= i < pages.len() && #[trigger] pages[i].page_id == p && pages[i].marker_summary@.contains(
                    m,
                ),
    )
}

/// For each marker, the pages whose summary holds it; with every page id.
#[derive(Debug)]
pub struct ExactMarkerPageIndex {
    pub index_kind: IndexKind,
    pub marker_to_pages: Vec<(MarkerId, Vec<PageId>)>,
    pub all_pages: Vec<PageId>,
}

/// Adds page `p` under marker `m`, keeping the entries well formed.
fn add_page_under(entries: &mut Vec<(MarkerId, Vec<PageId>)>, m: MarkerId, p: PageId)
    requires
        entries_wf(old(entries)@),
    ensures
        entries_wf(final(entries)@),
        forall|m2: MarkerId|
            #[trigger] pages_under(final(entries)@, m2) == if m2 == m {
                pages_under(old(entries)@, m2).insert(p)
            } else {
                pages_under(old(entries)@, m2)
            },
{
    let ghost e0 = entries@;
    let mut k: usize = 0;
    while k < entries.len() && entries[k].0 < m
        invariant
            k <= entries@.len(),
            entries@ == e0,
            forall|i: int| 0 <= i < k ==> (#[trigger] e0[i]).0 < m,
        decreases entries@.len() - k,
    {
        k += 1;
    }
    if k < entries.len() && entries[k].0 == m {
        let (mk, mut list) = entries.remove(k);
        let ghost l0 = list@;
        set_insert(&mut list, p);
        entries.insert(k, (mk, list));
        proof {
            let e1 = entries@;
            assert(e1 =~= e0.update(k as int, (m, list)));
            assert forall|m2: MarkerId|
                #[trigger] pages_under(e1, m2) == if m2 == m {
                    pages_under(e0, m2).insert(p)
                } else {
                    pages_under(e0, m2)
                } by {
                if m2 == m {
                    assert forall|q: PageId| pages_under(e1, m2).contains(q) == pages_under(e0, m2).insert(p).contains(q) by {
                        if pages_under(e1, m2).contains(q) {
                            let i = choose|i: int| 0 <= i < e1.len() && #[trigger] e1[i].0 == m2 && e1[i].1@.contains(q);
                            if i == k {
                                if q != p {
                                    assert(e1[k as int] == (mk, list));
                                    assert(list@.to_set().contains(q));
                                    assert(l0.to_set().insert(p).contains(q));
                                    assert(l0.contains(q));
                                    assert(e0[i].0 == m2 && e0[i].1@.contains(q));
                                }
                            } else {
                                assert(e0[i] == e1[i]);
                                assert(e0[i].0 == m2 && e0[i].1@.contains(q));
                            }
                        }
                        if pages_under(e0, m2).insert(p).contains(q) {
                            if q == p {
                                assert(list@.to_set().contains(p));
                                assert(e1[k as int] == (mk, list));
                                assert(e1[k as int].0 == m2 && e1[k as int].1@.contains(q));
                            } else {
                                let i = choose|i: int| 0 <= i < e0.len() && #[trigger] e0[i].0 == m2 && e0[i].1@.contains(q);
                                if i == k {
                                    assert(l0.to_set().contains(q));
                                    assert(list@.to_set().contains(q));
                                    assert(e1[k as int] == (mk, list));
                                    assert(e1[i].0 == m2 && e1[i].1@.contains(q));
                                } else {
                                    assert(e0[i] == e1[i]);
                                    assert(e1[i].0 == m2 && e1[i].1@.contains(q));
                                }
                            }
                        }
                    }
                    assert(pages_under(e1, m2) =~= pages_under(e0, m2).insert(p));
                } else {
                    assert forall|q: PageId| pages_under(e1, m2).contains(q) == pages_under(e0, m2).contains(q) by {
                        if pages_under(e1, m2).contains(q) {
                            let i = choose|i: int| 0 <= i < e1.len() && #[trigger] e1[i].0 == m2 && e1[i].1@.contains(q);
                            assert(i != k);
                            assert(e0[i] == e1[i]);
                        }
                        if pages_under(e0, m2).contains(q) {
                            let i = choose|i: int| 0 <= i < e0.len() && #[trigger] e0[i].0 == m2 && e0[i].1@.contains(q);
                            assert(i != k);
                            assert(e0[i] == e1[i]);
                        }
                    }
                    assert(pages_under(e1, m2) =~= pages_under(e0, m2));
                }
            }
            assert forall|i: int| 0 <= i < e1.len() implies (#[trigger] e1[i].1@).len() > 0 by {
                if i == k {
                    assert(list@.to_set().contains(p));
                }
            }
        }
    } else {
        let mut list: Vec<PageId> = Vec::new();
        list.push(p);
        entries.insert(k, (m, list));
        proof {
            let e1 = entries@;
            assert(e1 =~= e0.insert(k as int, (m, list)));
            assert(list@ =~= seq![p]);
            assert forall|i: int, j: int| 0 <= i < j < e1.len() implies #[trigger] e1[i].0 < #[trigger] e1[j].0 by {
                if j == k {
                    assert(e1[i] == e0[i]);
                } else if i == k {
                    assert(e1[j] == e0[j - 1]);
                    assert(e0[k as int].0 >= m);
                    assert(e0[k as int].0 != m);
                    if j - 1 > k {
                        assert(e0[k as int].0 < e0[j - 1].0);
                    }
                } else if i < k && j > k {
                    assert(e1[j] == e0[j - 1]);
                } else if i > k {
                    assert(e1[i] == e0[i - 1]);
                    assert(e1[j] == e0[j - 1]);
                }
            }
            assert forall|m2: MarkerId|
                #[trigger] pages_under(e1, m2) == if m2 == m {
                    pages_under(e0, m2).insert(p)
                } else {
                    pages_under(e0, m2)
                } by {
                assert forall|q: PageId| pages_under(e1, m2).contains(q) == (if m2 == m {
                    pages_under(e0, m2).insert(p)
                } else {
                    pages_under(e0, m2)
                }).contains(q) by {
                    if pages_under(e1, m2).contains(q) {
                        let i = choose|i: int| 0 <= i < e1.len() && #[trigger] e1[i].0 == m2 && e1[i].1@.contains(q);
                        if i < k {
                            assert(e0[i] == e1[i]);
                            assert(e0[i].0 == m2 && e0[i].1@.contains(q));
                        } else if i > k {
                            assert(e0[i - 1] == e1[i]);
                            assert(e0[i - 1].0 == m2 && e0[i - 1].1@.contains(q));
                        } else {
                            assert(e1[k as int] == (m, list));
                            assert(list@[0] == p);
                        }
                    }
                    if pages_under(e0, m2).contains(q) {
                        let i = choose|i: int| 0 <= i < e0.len() && #[trigger] e0[i].0 == m2 && e0[i].1@.contains(q);
                        if i < k {
                            assert(e0[i] == e1[i]);
                            assert(e1[i].0 == m2 && e1[i].1@.contains(q));
                        } else {
                            assert(e0[i] == e1[i + 1]);
                            assert(e1[i + 1].0 == m2 && e1[i + 1].1@.contains(q));
                        }
                    }
                    if m2 == m && q == p {
                        assert(e1[k as int] == (m, list));
                        assert(list@[0] == p);
                        assert(e1[k as int].0 == m2 && e1[k as int].1@.contains(p));
                    }
                }
                if m2 == m {
                    assert(pages_under(e1, m2) =~= pages_under(e0, m2).insert(p));
                } else {
                    assert(pages_under(e1, m2) =~= pages_under(e0, m2));
                }
            }
            assert forall|i: int| 0 <= i < e1.len() implies strictly_increasing(#[trigger] e1[i].1@) by {
                if i < k {
                    assert(e1[i] == e0[i]);
                } else if i > k {
                    assert(e1[i] == e0[i - 1]);
                }
            }
            assert forall|i: int| 0 <= i < e1.len() implies (#[trigger] e1[i].1@).len() > 0 by {
                if i < k {
                    assert(e1[i] == e0[i]);
                } else if i > k {
                    assert(e1[i] == e0[i - 1]);
                }
            }
        }
    }
}

proof fn lemma_pages_with_marker_step(pages: Seq<MemoryPage>, i: int, m: MarkerId)
    requires
        0 <= i < pages.len(),
    ensures
        pages_with_marker(pages.take(i + 1), m) == if pages[i].marker_summary@.contains(m) {
            pages_with_marker(pages.take(i), m).insert(pages[i].page_id)
        } else {
            pages_with_marker(pages.take(i), m)
        },
{
    let a = pages.take(i);
    let b = pages.take(i + 1);
    let rhs = if pages[i].marker_summary@.contains(m) {
        pages_with_marker(a, m).insert(pages[i].page_id)
    } else {
        pages_with_marker(a, m)
    };
    assert forall|q: PageId| pages_with_marker(b, m).contains(q) == rhs.contains(q) by {
        if pages_with_marker(b, m).contains(q) {
            let k = choose|k: int|
                0 <= k < b.len() && #[trigger] b[k].page_id == q && b[k].marker_summary@.contains(m);
            if k < i {
                assert(a[k] == b[k]);
                assert(a[k].page_id == q && a[k].marker_summary@.contains(m));
            }
        }
        if pages_with_marker(a, m).contains(q) {
            let k = choose|k: int|
                0 <= k < a.len() && #[trigger] a[k].page_id == q && a[k].marker_summary@.contains(m);
            assert(b[k] == a[k]);
            assert(b[k].page_id == q && b[k].marker_summary@.contains(m));
        }
        if pages[i].marker_summary@.contains(m) && q == pages[i].page_id {
            assert(b[i] == pages[i]);
            assert(b[i].page_id == q && b[i].marker_summary@.contains(m));
        }
    }
    assert(pages_with_marker(b, m) =~= rhs);
}

proof fn lemma_page_ids_step(pages: Seq<MemoryPage>, i: int)
    requires
        0 <= i < pages.len(),
    ensures
        page_ids_of(pages.take(i + 1)) == page_ids_of(pages.take(i)).insert(pages[i].page_id),
{
    let a = pages.take(i);
    let b = pages.take(i + 1);
    assert forall|q: PageId| page_ids_of(b).contains(q) == page_ids_of(a).insert(pages[i].page_id).contains(q) by {
        if page_ids_of(b).contains(q) {
            let k = choose|k: int| 0 <= k < b.len() && #[trigger] b[k].page_id == q;
            if k < i {
                assert(a[k] == b[k]);
                assert(a[k].page_id == q);
            }
        }
        if page_ids_of(a).contains(q) {
            let k = choose|k: int| 0 <= k < a.len() && #[trigger] a[k].page_id == q;
            assert(b[k] == a[k]);
            assert(b[k].page_id == q);
        }
        if q == pages[i].page_id {
            assert(b[i].page_id == q);
        }
    }
    assert(page_ids_of(b) =~= page_ids_of(a).insert(pages[i].page_id));
}

/// The pages of a query against an index that maps each marker to its pages:
/// every page for no markers; for `Union` the pages of any marker; for
/// `Intersection` the pages of every marker; for `PreferIntersection` the
/// intersection unless it is empty, then the union.
pub open spec fn union_pages(under: spec_fn(MarkerId) -> Set<PageId>, markers: Seq<MarkerId>) -> Set<PageId> {
    Set::new(|p: PageId| exists|k: int| 0 <= k < markers.len() && #[trigger] under(markers[k]).contains(p))
}

pub open spec fn intersection_pages(under: spec_fn(MarkerId) -> Set<PageId>, markers: Seq<MarkerId>) -> Set<PageId> {
    Set::new(|p: PageId| forall|k: int| 0 <= k < markers.len() ==> #[trigger] under(markers[k]).contains(p))
}

pub open spec fn mode_pages(
    under: spec_fn(MarkerId) -> Set<PageId>,
    markers: Seq<MarkerId>,
    mode: QueryMode,
) -> Set<PageId> {
    match mode {
        QueryMode::Union => union_pages(under, markers),
        QueryMode::Intersection => intersection_pages(under, markers),
        QueryMode::PreferIntersection => if intersection_pages(under, markers) == Set::<PageId>::empty() {
            union_pages(under, markers)
        } else {
            intersection_pages(under, markers)
        },
    }
}

impl ExactMarkerPageIndex {
    pub open spec fn wf(&self) -> bool {
        entries_wf(self.marker_to_pages@) && strictly_increasing(self.all_pages@)
    }

    /// The pages the index lists under each marker.
    pub open spec fn under(&self) -> spec_fn(MarkerId) -> Set<PageId> {
        |m: MarkerId| pages_under(self.marker_to_pages@, m)
    }

    /// An empty index.
    pub fn empty() -> (idx: Self)
        ensures
            idx.index_kind == IndexKind::ExactMarkerPage,
            idx.marker_to_pages@.len() == 0,
            idx.all_pages@.len() == 0,
            idx.wf(),
    {
        ExactMarkerPageIndex {
            index_kind: IndexKind::ExactMarkerPage,
            marker_to_pages: Vec::new(),
            all_pages: Vec::new(),
        }
    }

    /// Indexes `pages`: each marker maps to the ordered ids of the pages whose
    /// summary holds it, and `all_pages` is the ordered set of page ids.
    pub fn build_from_pages(pages: &[MemoryPage]) -> (idx: Self)
        ensures
            idx.index_kind == IndexKind::ExactMarkerPage,
            idx.wf(),
            forall|m: MarkerId| #[trigger] pages_under(idx.marker_to_pages@, m) == pages_with_marker(pages@, m),
            enumerates(idx.all_pages@, page_ids_of(pages@)),
    {
        let mut entries: Vec<(MarkerId, Vec<PageId>)> = Vec::new();
        let mut all: Vec<PageId> = Vec::new();
        let mut i: usize = 0;
        proof {
            assert forall|m: MarkerId| #[trigger] pages_under(entries@, m) == pages_with_marker(pages@.take(0), m) by {
                assert(pages_under(entries@, m) =~= Set::<PageId>::empty());
                assert(pages_with_marker(pages@.take(0), m) =~= Set::<PageId>::empty());
            }
            assert(all@.to_set() =~= Set::<PageId>::empty());
            assert(page_ids_of(pages@.take(0)) =~= Set::<PageId>::empty());
        }
        while i < pages.len()
            invariant
                i <= pages@.len(),
                entries_wf(entries@),
                strictly_increasing(all@),
                all@.to_set() == page_ids_of(pages@.take(i as int)),
                forall|m: MarkerId| #[trigger] pages_under(entries@, m) == pages_with_marker(pages@.take(i as int), m),
            decreases pages@.len() - i,
        {
            let id = pages[i].page_id;
            set_insert(&mut all, id);
            proof {
                lemma_page_ids_step(pages@, i as int);
            }
            let summary = &pages[i].marker_summary;
            let ghost e0 = entries@;
            let mut j: usize = 0;
            proof {
                assert forall|m: MarkerId| #[trigger] pages_under(entries@, m) == if summary@.take(0).contains(m) {
                    pages_under(e0, m).insert(id)
                } else {
                    pages_under(e0, m)
                } by {}
            }
            while j < summary.len()
                invariant
                    j <= summary@.len(),
                    i < pages@.len(),
                    summary == &pages@[i as int].marker_summary,
                    id == pages@[i as int].page_id,
                    entries_wf(entries@),
                    forall|m: MarkerId| #[trigger] pages_under(entries@, m) == if summary@.take(j as int).contains(m) {
                        pages_under(e0, m).insert(id)
                    } else {
                        pages_under(e0, m)
                    },
                decreases summary@.len() - j,
            {
                let m = summary[j];
                let ghost e1 = entries@;
                add_page_under(&mut entries, m, id);
                proof {
                    assert(summary@.take(j + 1) =~= summary@.take(j as int).push(m));
                    assert forall|m2: MarkerId| #[trigger] pages_under(entries@, m2) == if summary@.take(j + 1).contains(m2) {
                        pages_under(e0, m2).insert(id)
                    } else {
                        pages_under(e0, m2)
                    } by {
                        assert(pages_under(entries@, m2) == if m2 == m {
                            pages_under(e1, m2).insert(id)
                        } else {
                            pages_under(e1, m2)
                        });
                        if m2 == m {
                            assert(summary@.take(j + 1)[j as int] == m2);
                            assert(summary@.take(j + 1).contains(m2));
                            if summary@.take(j as int).contains(m2) {
                                assert(pages_under(e1, m2).insert(id) =~= pages_under(e1, m2));
                            }
                        } else {
                            assert(summary@.take(j + 1).contains(m2) == summary@.take(j as int).contains(m2)) by {
                                if summary@.take(j + 1).contains(m2) {
                                    let q = choose|q: int| 0 <= q < j + 1 && #[trigger] summary@.take(j + 1)[q] == m2;
                                    assert(q < j);
                                    assert(summary@.take(j as int)[q] == m2);
                                }
                                if summary@.take(j as int).contains(m2) {
                                    let q = choose|q: int| 0 <= q < j && #[trigger] summary@.take(j as int)[q] == m2;
                                    assert(summary@.take(j + 1)[q] == m2);
                                }
                            }
                        }
                    }
                }
                j += 1;
            }
            proof {
                assert(summary@.take(j as int) =~= summary@);
                assert forall|m: MarkerId| #[trigger] pages_under(entries@, m) == pages_with_marker(pages@.take(i + 1), m) by {
                    lemma_pages_with_marker_step(pages@, i as int, m);
                }
            }
            i += 1;
        }
        proof {
            assert(pages@.take(pages@.len() as int) =~= pages@);
        }
        ExactMarkerPageIndex { index_kind: IndexKind::ExactMarkerPage, marker_to_pages: entries, all_pages: all }
    }

    /// The ordered pages listed under marker `m`.
    pub fn pages_of_marker(&self, m: MarkerId) -> (out: Vec<PageId>)
        ensures
            enumerates(out@, pages_under(self.marker_to_pages@, m)),
    {
        let entries = &self.marker_to_pages;
        let mut out: Vec<PageId> = Vec::new();
        let mut i: usize = 0;
        proof {
            assert(out@.to_set() =~= Set::<PageId>::empty());
        }
        while i < entries.len()
            invariant
                i <= entries@.len(),
                strictly_increasing(out@),
                out@.to_set() == pages_under(entries@.take(i as int), m),
            decreases entries@.len() - i,
        {
            let ghost before = out@.to_set();
            if entries[i].0 == m {
                set_extend(&mut out, &entries[i].1);
            }
            proof {
                let a = entries@.take(i as int);
                let b = entries@.take(i + 1);
                assert forall|q: PageId| pages_under(b, m).contains(q) == out@.to_set().contains(q) by {
                    if pages_under(b, m).contains(q) {
                        let k = choose|k: int| 0 <= k < b.len() && #[trigger] b[k].0 == m && b[k].1@.contains(q);
                        if k < i {
                            assert(a[k] == b[k]);
                            assert(a[k].0 == m && a[k].1@.contains(q));
                        } else {
                            assert(entries@[i as int].1@.to_set().contains(q));
                        }
                    }
                    if out@.to_set().contains(q) {
                        if before.contains(q) {
                            let k = choose|k: int| 0 <= k < a.len() && #[trigger] a[k].0 == m && a[k].1@.contains(q);
                            assert(b[k] == a[k]);
                            assert(b[k].0 == m && b[k].1@.contains(q));
                        } else {
                            assert(entries@[i as int].1@.to_set().contains(q));
                            assert(b[i as int] == entries@[i as int]);
                            assert(b[i as int].0 == m && b[i as int].1@.contains(q));
                        }
                    }
                }
                assert(pages_under(b, m) =~= out@.to_set());
            }
            i += 1;
        }
        proof {
            assert(entries@.take(i as int) =~= entries@);
        }
        out
    }

    /// The ordered pages listed under any of `markers`.
    pub fn union(&self, markers: &[MarkerId]) -> (out: Vec<PageId>)
        ensures
            enumerates(out@, union_pages(self.under(), markers@)),
    {
        let mut out: Vec<PageId> = Vec::new();
        let mut k: usize = 0;
        proof {
            assert(out@.to_set() =~= union_pages(self.under(), markers@.take(0)));
        }
        while k < markers.len()
            invariant
                k <= markers@.len(),
                strictly_increasing(out@),
                out@.to_set() == union_pages(self.under(), markers@.take(k as int)),
            decreases markers@.len() - k,
        {
            let pages = self.pages_of_marker(markers[k]);
            let ghost before = out@.to_set();
            set_extend(&mut out, &pages);
            proof {
                let a = markers@.take(k as int);
                let b = markers@.take(k + 1);
                let under = self.under();
                assert forall|p: PageId| union_pages(under, b).contains(p) == out@.to_set().contains(p) by {
                    if union_pages(under, b).contains(p) {
                        let q = choose|q: int| 0 <= q < b.len() && #[trigger] under(b[q]).contains(p);
                        if q < k {
                            assert(a[q] == b[q]);
                            assert(under(a[q]).contains(p));
                        } else {
                            assert(b[q] == markers@[k as int]);
                        }
                    }
                    if before.contains(p) {
                        let q = choose|q: int| 0 <= q < a.len() && #[trigger] under(a[q]).contains(p);
                        assert(b[q] == a[q]);
                        assert(under(b[q]).contains(p));
                    }
                    if pages@.to_set().contains(p) {
                        assert(b[k as int] == markers@[k as int]);
                        assert(under(b[k as int]).contains(p));
                    }
                }
                assert(union_pages(under, b) =~= out@.to_set());
            }
            k += 1;
        }
        proof {
            assert(markers@.take(k as int) =~= markers@);
        }
        out
    }

    /// The ordered pages listed under every one of `markers`; every page for
    /// no markers.
    pub fn intersection(&self, markers: &[MarkerId]) -> (out: Vec<PageId>)
        ensures
            markers@.len() == 0 ==> out@ == self.all_pages@,
            markers@.len() > 0 ==> enumerates(out@, intersection_pages(self.under(), markers@)),
    {
        if markers.len() == 0 {
            return copy_cell_ids(&self.all_pages);
        }
        let ghost under = self.under();
        let mut cur = self.pages_of_marker(markers[0]);
        let mut k: usize = 1;
        proof {
            assert forall|p: PageId| intersection_pages(under, markers@.take(1)).contains(p) == cur@.to_set().contains(p) by {
                if intersection_pages(under, markers@.take(1)).contains(p) {
                    assert(markers@.take(1)[0] == markers@[0]);
                    assert(under(markers@.take(1)[0]).contains(p));
                }
                if cur@.to_set().contains(p) {
                    assert forall|q: int| 0 <= q < markers@.take(1).len() implies #[trigger] under(markers@.take(1)[q]).contains(p) by {
                        assert(markers@.take(1)[q] == markers@[0]);
                    }
                }
            }
            assert(intersection_pages(under, markers@.take(1)) =~= cur@.to_set());
        }
        while k < markers.len()
            invariant
                1 <= k <= markers@.len(),
                under == self.under(),
                strictly_increasing(cur@),
                cur@.to_set() == intersection_pages(under, markers@.take(k as int)),
            decreases markers@.len() - k,
        {
            if cur.len() == 0 {
                proof {
                    assert forall|p: PageId| !intersection_pages(under, markers@).contains(p) by {
                        if intersection_pages(under, markers@).contains(p) {
                            assert forall|q: int| 0 <= q < markers@.take(k as int).len() implies #[trigger] under(markers@.take(k as int)[q]).contains(p) by {
                                assert(markers@.take(k as int)[q] == markers@[q]);
                            }
                            assert(intersection_pages(under, markers@.take(k as int)).contains(p));
                            assert(cur@.to_set().contains(p));
                        }
                    }
                    assert(intersection_pages(under, markers@) =~= cur@.to_set());
                }
                return cur;
            }
            let pages = self.pages_of_marker(markers[k]);
            let ghost before = cur@.to_set();
            cur = set_intersection(&cur, &pages);
            proof {
                let a = markers@.take(k as int);
                let b = markers@.take(k + 1);
                assert forall|p: PageId| intersection_pages(under, b).contains(p) == cur@.to_set().contains(p) by {
                    if intersection_pages(under, b).contains(p) {
                        assert forall|q: int| 0 <= q < a.len() implies #[trigger] under(a[q]).contains(p) by {
                            assert(a[q] == b[q]);
                            assert(under(b[q]).contains(p));
                        }
                        assert(before.contains(p));
                        assert(b[k as int] == markers@[k as int]);
                        assert(under(b[k as int]).contains(p));
                        assert(pages@.to_set().contains(p));
                    }
                    if cur@.to_set().contains(p) {
                        assert forall|q: int| 0 <= q < b.len() implies #[trigger] under(b[q]).contains(p) by {
                            if q < k {
                                assert(a[q] == b[q]);
                                assert(under(a[q]).contains(p));
                            } else {
                                assert(b[q] == markers@[k as int]);
                            }
                        }
                    }
                }
                assert(intersection_pages(under, b) =~= cur@.to_set());
            }
            k += 1;
        }
        proof {
            assert(markers@.take(k as int) =~= markers@);
        }
        cur
    }

    /// The pages a query selects: every page for no markers, else the pages
    /// of `mode_pages` in increasing order.
    pub fn query_with_mode(&self, markers: &[MarkerId], mode: QueryMode) -> (out: Vec<PageId>)
        ensures
            markers@.len() == 0 ==> out@ == self.all_pages@,
            markers@.len() > 0 ==> enumerates(out@, mode_pages(self.under(), markers@, mode)),
    {
        if markers.len() == 0 {
            return copy_cell_ids(&self.all_pages);
        }
        match mode {
            QueryMode::Union => self.union(markers),
            QueryMode::Intersection => self.intersection(markers),
            QueryMode::PreferIntersection => {
                let inter = self.intersection(markers);
                if inter.len() == 0 {
                    proof {
                        assert(intersection_pages(self.under(), markers@) =~= Set::<PageId>::empty());
                    }
                    self.union(markers)
                } else {
                    proof {
                        assert(inter@.to_set().contains(inter@[0]));
                    }
                    inter
                }
            },
        }
    }

}


// ---------------------------------------------------------------------------
// Binary fuse filters (xorf)
// ---------------------------------------------------------------------------

#[verifier::external_type_specification]
#[verifier::external_body]
pub struct ExBinaryFuse16(xorf::BinaryFuse16);

/// The keys for which a filter's `contains` answers true.
pub uninterp spec fn fuse_members(filter: BinaryFuse16) -> Set<u64>;

/// The shape of a filter as its fields hold it: the descriptor's segment
/// length, segment length mask and segment count length, and the number of
/// fingerprints.
pub uninterp spec fn fuse_shape(filter: BinaryFuse16) -> (u32, u32, u32, nat);

/// Whether building a filter from these keys (in this order) fails.
pub uninterp spec fn fuse_build_fails(keys: Seq<u64>) -> bool;

/// A shape under which a lookup stays inside the fingerprints and its index
/// arithmetic does not overflow: the segment length is a power of two with
/// the mask one below it, the segment count length is a non-zero multiple of
/// it, and two more segments fit both in the fingerprints and in a `u32`.
pub open spec fn shape_well_formed(s: (u32, u32, u32, nat)) -> bool {
    let seg = s.0;
    &&& seg > 0
    &&& seg & ((seg - 1) as u32) == 0
    &&& s.1 == seg - 1
    &&& s.2 >= seg
    &&& s.2 % seg == 0
    &&& s.2 + 2 * seg <= s.3
    &&& s.2 + 2 * seg <= u32::MAX
}

/// Whether a filter's shape lets a lookup run (see `shape_well_formed`).
pub open spec fn fuse_well_formed(filter: BinaryFuse16) -> bool {
    shape_well_formed(fuse_shape(filter))
}

/// Calls `BinaryFuse16::try_from(&Vec<u64>)`. The keys must be distinct (the
/// crate asserts it in debug builds) and their count must fit in a `u32`.
/// The crate's construction is deterministic (a fixed seed sequence); whether
/// it fails is named by `fuse_build_fails`. A built filter has no false
/// negatives: every key it was built from is a member; which other keys are
/// members (the false positives) is not said. The crate builds a power-of-two
/// segment length with its mask, at least one segment in the segment count
/// length, and two segments more of fingerprints, so the filter is well
/// formed.
#[verifier::external_body]
fn fuse_try_from(keys: &Vec<u64>) -> (r: Result<BinaryFuse16, &'static str>)
    requires
        strictly_increasing(keys@),
        keys@.len() < 4294967295,
    ensures
        r is Err == fuse_build_fails(keys@),
        r matches Ok(f) ==> keys@.to_set().subset_of(fuse_members(f)) && fuse_well_formed(f),
{
    BinaryFuse16::try_from(keys)
}

/// Reads the fields of a filter that its lookups index by: the descriptor's
/// segment length, mask and segment count length, and the fingerprint count.
#[verifier::external_body]
fn fuse_shape_of(filter: &BinaryFuse16) -> (s: (u32, u32, u32, usize))
    ensures
        (s.0, s.1, s.2, s.3 as nat) == fuse_shape(*filter),
{
    (
        filter.descriptor.segment_length,
        filter.descriptor.segment_length_mask,
        filter.descriptor.segment_count_length,
        filter.fingerprints.len(),
    )
}

/// Whether a filter is well formed (see `shape_well_formed`).
pub fn fuse_is_well_formed(filter: &BinaryFuse16) -> (b: bool)
    ensures
        b == fuse_well_formed(*filter),
{
    let (seg, mask, count_len, len) = fuse_shape_of(filter);
    if seg == 0 {
        return false;
    }
    if seg & (seg - 1) != 0 || mask != seg - 1 || count_len < seg || count_len % seg != 0 {
        return false;
    }
    let room: u64 = count_len as u64 + 2 * (seg as u64);
    room <= u32::MAX as u64 && room <= len as u64
}

/// Calls `Filter::contains` of `BinaryFuse16`: whether `key` is a member. The
/// lookup indexes the fingerprints at three positions derived from the
/// descriptor, so the filter must be well formed.
#[verifier::external_body]
fn fuse_contains(filter: &BinaryFuse16, key: u64) -> (b: bool)
    requires
        fuse_well_formed(*filter),
    ensures
        b == fuse_members(*filter).contains(key),
{
    filter.contains(&key)
}

/// Marker ids widened to filter keys.
pub open spec fn widen(markers: Seq<MarkerId>) -> Seq<u64> {
    markers.map_values(|m: MarkerId| m as u64)
}

/// The ordered set of markers as filter keys.
pub fn marker_keys(markers: &[MarkerId]) -> (keys: Vec<u64>)
    ensures
        enumerates(keys@, widen(markers@).to_set()),
{
    let mut wide: Vec<u64> = Vec::new();
    let mut i: usize = 0;
    while i < markers.len()
        invariant
            i <= markers@.len(),
            wide@ == widen(markers@.take(i as int)),
        decreases markers@.len() - i,
    {
        wide.push(markers[i] as u64);
        i += 1;
        proof {
            assert(wide@ =~= widen(markers@.take(i as int)));
        }
    }
    proof {
        assert(markers@.take(i as int) =~= markers@);
    }
    sort_dedup(&wide)
}

/// The ordered filter keys of a page (its summary's markers).
pub open spec fn page_keys(p: MemoryPage) -> Seq<u64> {
    ordered_set_of(widen(p.marker_summary@))
}

/// How the error for a page whose filter cannot be built begins; the crate's
/// own error text follows.
pub open spec fn fuse_failure_prefix(page_id: PageId) -> Seq<char> {
    "binary fuse index build failed for page "@ + decimal(page_id as nat) + ": "@
}

/// Whether the filter of a page cannot be built.
pub open spec fn fuse_fails_for(p: MemoryPage) -> bool {
    page_keys(p).len() > 0 && fuse_build_fails(page_keys(p))
}

/// The filter of one page, with the number of keys it holds.
#[derive(Debug)]
pub struct BinaryFusePageFilter {
    pub page_id: PageId,
    pub marker_count: usize,
    pub filter: Option<BinaryFuse16>,
}

/// `f` is the filter built for page `p`.
pub open spec fn filter_for_page(f: BinaryFusePageFilter, p: MemoryPage) -> bool {
    &&& f.page_id == p.page_id
    &&& f.marker_count == page_keys(p).len()
    &&& (f.filter is None <==> page_keys(p).len() == 0)
    &&& (f.filter matches Some(x) ==> widen(p.marker_summary@).to_set().subset_of(fuse_members(x))
        && fuse_well_formed(x))
}

/// Whether a page's filter may hold any (`all == false`) or every
/// (`all == true`) key of `keys`; a page without a filter holds none, and a
/// filter that is not well formed cannot rule any key out.
pub open spec fn filter_selects(f: BinaryFusePageFilter, keys: Set<u64>, all: bool) -> bool {
    match f.filter {
        None => false,
        Some(x) => if !fuse_well_formed(x) {
            true
        } else if all {
            keys.subset_of(fuse_members(x))
        } else {
            may_hold_any(x, keys)
        },
    }
}

/// Whether a filter may hold some key of `keys`.
pub open spec fn may_hold_any(x: BinaryFuse16, keys: Set<u64>) -> bool {
    exists|k: u64| keys.contains(k) && #[trigger] fuse_members(x).contains(k)
}

/// The ids of the pages whose filter selects `keys`, in filter order.
pub open spec fn selected_pages(filters: Seq<BinaryFusePageFilter>, keys: Set<u64>, all: bool) -> Seq<PageId>
    decreases filters.len(),
{
    if filters.len() == 0 {
        Seq::empty()
    } else {
        let rest = selected_pages(filters.drop_last(), keys, all);
        if filter_selects(filters.last(), keys, all) {
            rest.push(filters.last().page_id)
        } else {
            rest
        }
    }
}

/// Per-page binary fuse filters over the page marker summaries. A filter may
/// answer yes for a marker the page does not hold, never no for one it holds.
#[derive(Debug)]
pub struct BinaryFusePageIndex {
    pub index_kind: IndexKind,
    pub page_filters: Vec<BinaryFusePageFilter>,
    pub all_pages: Vec<PageId>,
}

pub open spec fn page_id_seq(pages: Seq<MemoryPage>) -> Seq<PageId> {
    Seq::new(pages.len(), |i: int| pages[i].page_id)
}

fn probably_contains(filter: &Option<BinaryFuse16>, keys: &Vec<u64>, all: bool) -> (b: bool)
    ensures
        b == filter_selects(
            BinaryFusePageFilter { page_id: 0, marker_count: 0, filter: *filter },
            keys@.to_set(),
            all,
        ),
{
    match filter {
        None => false,
        Some(f) => {
            proof {
                assert(*filter == Some(*f));
            }
            if !fuse_is_well_formed(f) {
                return true;
            }
            let mut i: usize = 0;
            while i < keys.len()
                invariant
                    i <= keys@.len(),
                    *filter == Some(*f),
                    fuse_well_formed(*f),
                    all ==> forall|q: int| 0 <= q < i ==> fuse_members(*f).contains(#[trigger] keys@[q]),
                    !all ==> forall|q: int| 0 <= q < i ==> !fuse_members(*f).contains(#[trigger] keys@[q]),
                decreases keys@.len() - i,
            {
                let c = fuse_contains(f, keys[i]);
                if all && !c {
                    proof {
                        assert(keys@.to_set().contains(keys@[i as int]));
                        assert(!keys@.to_set().subset_of(fuse_members(*f)));
                        assert(*filter == Some(*f));
                    }
                    return false;
                }
                if !all && c {
                    proof {
                        assert(keys@.to_set().contains(keys@[i as int]));
                        assert(fuse_members(*f).contains(keys@[i as int]));
                        assert(*filter == Some(*f));
                        let kk = keys@[i as int];
                        assert(keys@.to_set().contains(kk) && fuse_members(*f).contains(kk));
                        assert(may_hold_any(*f, keys@.to_set()));
                    }
                    return true;
                }
                i += 1;
            }
            proof {
                if all {
                    assert forall|k: u64| keys@.to_set().contains(k) implies fuse_members(*f).contains(k) by {
                        let q = choose|q: int| 0 <= q < keys@.len() && keys@[q] == k;
                    }
                } else {
                    assert forall|k: u64| keys@.to_set().contains(k) implies !#[trigger] fuse_members(*f).contains(k) by {
                        let q = choose|q: int| 0 <= q < keys@.len() && keys@[q] == k;
                    }
                    assert(!may_hold_any(*f, keys@.to_set()));
                }
            }
            all
        },
    }
}

impl BinaryFusePageIndex {
    /// An empty index.
    pub fn empty() -> (idx: Self)
        ensures
            idx.index_kind == IndexKind::BinaryFusePage,
            idx.page_filters@.len() == 0,
            idx.all_pages@.len() == 0,
    {
        BinaryFusePageIndex {
            index_kind: IndexKind::BinaryFusePage,
            page_filters: Vec::new(),
            all_pages: Vec::new(),
        }
    }

    /// Builds one filter per page from its marker summary; fails, naming the
    /// page, for the first page whose filter cannot be built.
    pub fn build_filters(pages: &[MemoryPage]) -> (r: Result<Self, MgeError>)
        requires
            forall|i: int| 0 <= i < pages@.len() ==> (#[trigger] pages@[i]).marker_summary@.len()
                < 4294967295,
        ensures
            match r {
                Ok(idx) => {
                    &&& idx.index_kind == IndexKind::BinaryFusePage
                    &&& idx.all_pages@ == page_id_seq(pages@)
                    &&& idx.page_filters@.len() == pages@.len()
                    &&& forall|i: int| 0 <= i < pages@.len() ==> filter_for_page(
                        #[trigger] idx.page_filters@[i],
                        pages@[i],
                    )
                    &&& forall|i: int| 0 <= i < pages@.len() ==> !fuse_fails_for(#[trigger] pages@[i])
                },
                Err(e) => exists|i: int|
                    0 <= i < pages@.len() && fuse_fails_for(#[trigger] pages@[i]) && (forall|j: int|
                        0 <= j < i ==> !fuse_fails_for(#[trigger] pages@[j])) && (e matches MgeError::InvalidInput(m)
                        && has_prefix(m@, fuse_failure_prefix(pages@[i].page_id))),
            },
    {
        let mut all_pages: Vec<PageId> = Vec::new();
        let mut page_filters: Vec<BinaryFusePageFilter> = Vec::new();
        let mut i: usize = 0;
        while i < pages.len()
            invariant
                i <= pages@.len(),
                forall|q: int| 0 <= q < pages@.len() ==> (#[trigger] pages@[q]).marker_summary@.len()
                    < 4294967295,
                all_pages@ == page_id_seq(pages@.take(i as int)),
                page_filters@.len() == i,
                forall|q: int| 0 <= q < i ==> filter_for_page(#[trigger] page_filters@[q], pages@[q]),
                forall|q: int| 0 <= q < i ==> !fuse_fails_for(#[trigger] pages@[q]),
            decreases pages@.len() - i,
        {
            let page = &pages[i];
            all_pages.push(page.page_id);
            let keys = marker_keys(page.marker_summary.as_slice());
            proof {
                let pk = page_keys(*page);
                lemma_ordered_set_of(widen(page.marker_summary@));
                crate::idset::lemma_enumeration_unique(keys@, pk);
                assert(keys@.len() <= page.marker_summary@.len()) by {
                    lemma_enumeration_len(keys@, page.marker_summary@);
                }
            }
            let filter = if keys.len() == 0 {
                None
            } else {
                match fuse_try_from(&keys) {
                    Ok(f) => Some(f),
                    Err(err) => {
                        let mut m = string_from("binary fuse index build failed for page ");
                        push_decimal_str(&mut m, page.page_id);
                        push_str(&mut m, ": ");
                        push_str(&mut m, err);
                        proof {
                            reveal_strlit("binary fuse index build failed for page ");
                            reveal_strlit(": ");
                            assert(fuse_fails_for(pages@[i as int]));
                            assert(m@ == fuse_failure_prefix(pages@[i as int].page_id) + err@);
                            assert(m@.take(fuse_failure_prefix(pages@[i as int].page_id).len() as int)
                                =~= fuse_failure_prefix(pages@[i as int].page_id));
                        }
                        return Err(MgeError::InvalidInput(m));
                    },
                }
            };
            let count = keys.len();
            page_filters.push(BinaryFusePageFilter { page_id: page.page_id, marker_count: count, filter });
            proof {
                assert(all_pages@ =~= page_id_seq(pages@.take(i + 1)));
            }
            i += 1;
        }
        proof {
            assert(pages@.take(i as int) =~= pages@);
        }
        Ok(BinaryFusePageIndex { index_kind: IndexKind::BinaryFusePage, page_filters, all_pages })
    }

    fn select(&self, keys: &Vec<u64>, all: bool) -> (out: Vec<PageId>)
        ensures
            out@ == selected_pages(self.page_filters@, keys@.to_set(), all),
    {
        let mut out: Vec<PageId> = Vec::new();
        let mut i: usize = 0;
        while i < self.page_filters.len()
            invariant
                i <= self.page_filters@.len(),
                out@ == selected_pages(self.page_filters@.take(i as int), keys@.to_set(), all),
            decreases self.page_filters@.len() - i,
        {
            let f = &self.page_filters[i];
            let hit = probably_contains(&f.filter, keys, all);
            proof {
                assert(self.page_filters@.take(i + 1).drop_last() =~= self.page_filters@.take(i as int));
                assert(filter_selects(*f, keys@.to_set(), all) == hit);
            }
            if hit {
                out.push(f.page_id);
            }
            i += 1;
        }
        proof {
            assert(self.page_filters@.take(i as int) =~= self.page_filters@);
        }
        out
    }

    /// The pages a query selects: every page for no markers; otherwise, in
    /// filter order, the pages whose filter may hold any marker (`Union`),
    /// every marker (`Intersection`), or every marker unless no page's does,
    /// then any (`PreferIntersection`).
    pub fn query_with_mode(&self, markers: &[MarkerId], mode: QueryMode) -> (out: Vec<PageId>)
        ensures
            markers@.len() == 0 ==> out@ == self.all_pages@,
            markers@.len() > 0 ==> out@ == fuse_mode_pages(self.page_filters@, widen(markers@).to_set(), mode),
    {
        if markers.len() == 0 {
            return copy_cell_ids(&self.all_pages);
        }
        let keys = marker_keys(markers);
        match mode {
            QueryMode::Union => self.select(&keys, false),
            QueryMode::Intersection => self.select(&keys, true),
            QueryMode::PreferIntersection => {
                let inter = self.select(&keys, true);
                if inter.len() == 0 {
                    self.select(&keys, false)
                } else {
                    inter
                }
            },
        }
    }

}

/// The pages a filter query selects under each mode.
pub open spec fn fuse_mode_pages(filters: Seq<BinaryFusePageFilter>, keys: Set<u64>, mode: QueryMode) -> Seq<PageId> {
    match mode {
        QueryMode::Union => selected_pages(filters, keys, false),
        QueryMode::Intersection => selected_pages(filters, keys, true),
        QueryMode::PreferIntersection => if selected_pages(filters, keys, true).len() == 0 {
            selected_pages(filters, keys, false)
        } else {
            selected_pages(filters, keys, true)
        },
    }
}

/// An ordered set of keys drawn from `s` is no longer than `s`.
proof fn lemma_enumeration_len(keys: Seq<u64>, s: Seq<MarkerId>)
    requires
        enumerates(keys, widen(s).to_set()),
    ensures
        keys.len() <= s.len(),
{
    assert(keys.no_duplicates()) by {
        assert forall|a: int, b: int| 0 <= a < keys.len() && 0 <= b < keys.len() && a != b implies keys[a] != keys[b] by {
            if a < b {
                assert(keys[a] < keys[b]);
            } else {
                assert(keys[b] < keys[a]);
            }
        }
    }
    keys.unique_seq_to_set();
    widen(s).lemma_cardinality_of_set();
}

/// A page index that narrows a query to candidate pages.
pub trait CandidatePageIndex {
    fn build(pages: &[MemoryPage]) -> Result<Self, MgeError> where Self: Sized
        requires
            forall|i: int| 0 <= i < pages@.len() ==> (#[trigger] pages@[i]).marker_summary@.len()
                < 4294967295,
    ;

    fn query(&self, markers: &[MarkerId]) -> Result<Vec<PageId>, MgeError>;

    fn query_with_stats(&self, markers: &[MarkerId]) -> Result<CandidatePageQueryResult, MgeError>;

    fn kind(&self) -> IndexKind;
}

impl CandidatePageIndex for ExactMarkerPageIndex {
    /// Never fails.
    fn build(pages: &[MemoryPage]) -> (r: Result<Self, MgeError>)
        ensures
            r matches Ok(idx) && idx.index_kind == IndexKind::ExactMarkerPage && idx.wf() && (forall|m: MarkerId|
                #[trigger] pages_under(idx.marker_to_pages@, m) == pages_with_marker(pages@, m))
                && enumerates(idx.all_pages@, page_ids_of(pages@)),
    {
        Ok(ExactMarkerPageIndex::build_from_pages(pages))
    }

    /// The pages under the query markers, preferring their intersection.
    fn query(&self, markers: &[MarkerId]) -> (r: Result<Vec<PageId>, MgeError>)
        ensures
            r matches Ok(out) && (markers@.len() == 0 ==> out@ == self.all_pages@) && (markers@.len() > 0
                ==> enumerates(out@, mode_pages(self.under(), markers@, QueryMode::PreferIntersection))),
    {
        Ok(self.query_with_mode(markers, QueryMode::PreferIntersection))
    }

    /// `query` with its work: no page filters are scanned.
    fn query_with_stats(&self, markers: &[MarkerId]) -> (r: Result<CandidatePageQueryResult, MgeError>)
        ensures
            r matches Ok(res) && res.page_filters_scanned == 0 && res.candidate_pages_returned
                == res.page_ids@.len() && (markers@.len() == 0 ==> res.page_ids@ == self.all_pages@) && (
            markers@.len() > 0 ==> enumerates(
                res.page_ids@,
                mode_pages(self.under(), markers@, QueryMode::PreferIntersection),
            )),
    {
        let page_ids = self.query_with_mode(markers, QueryMode::PreferIntersection);
        let n = page_ids.len();
        Ok(CandidatePageQueryResult { page_ids, page_filters_scanned: 0, candidate_pages_returned: n })
    }

    fn kind(&self) -> (k: IndexKind)
        ensures
            k == self.index_kind,
    {
        self.index_kind
    }
}

impl CandidatePageIndex for BinaryFusePageIndex {
    /// See `build_filters`.
    fn build(pages: &[MemoryPage]) -> (r: Result<Self, MgeError>)
        ensures
            r matches Ok(idx) ==> idx.index_kind == IndexKind::BinaryFusePage && idx.all_pages@ == page_id_seq(
                pages@,
            ) && idx.page_filters@.len() == pages@.len() && (forall|i: int|
                0 <= i < pages@.len() ==> filter_for_page(#[trigger] idx.page_filters@[i], pages@[i])),
            r is Ok <==> forall|i: int| 0 <= i < pages@.len() ==> !fuse_fails_for(#[trigger] pages@[i]),
    {
        BinaryFusePageIndex::build_filters(pages)
    }

    /// Union query.
    fn query(&self, markers: &[MarkerId]) -> (r: Result<Vec<PageId>, MgeError>)
        ensures
            r matches Ok(out) && (markers@.len() == 0 ==> out@ == self.all_pages@) && (markers@.len() > 0
                ==> out@ == fuse_mode_pages(self.page_filters@, widen(markers@).to_set(), QueryMode::Union)),
    {
        Ok(self.query_with_mode(markers, QueryMode::Union))
    }

    /// Union query with its work: every page filter is scanned unless there
    /// are no markers.
    fn query_with_stats(&self, markers: &[MarkerId]) -> (r: Result<CandidatePageQueryResult, MgeError>)
        ensures
            r matches Ok(res) && res.page_filters_scanned == (if markers@.len() == 0 {
                0
            } else {
                self.page_filters@.len()
            }) && res.candidate_pages_returned == res.page_ids@.len() && (markers@.len() == 0
                ==> res.page_ids@ == self.all_pages@) && (markers@.len() > 0 ==> res.page_ids@
                == fuse_mode_pages(self.page_filters@, widen(markers@).to_set(), QueryMode::Union)),
    {
        let scanned = if markers.len() == 0 {
            0
        } else {
            self.page_filters.len()
        };
        let page_ids = self.query_with_mode(markers, QueryMode::Union);
        let n = page_ids.len();
        Ok(CandidatePageQueryResult { page_ids, page_filters_scanned: scanned, candidate_pages_returned: n })
    }

    fn kind(&self) -> (k: IndexKind)
        ensures
            k == self.index_kind,
    {
        self.index_kind
    }
}

/// A candidate index of either kind.
#[derive(Debug)]
pub enum CandidateIndexData {
    ExactMarkerPage(ExactMarkerPageIndex),
    BinaryFusePage(BinaryFusePageIndex),
}

impl CandidatePageIndex for CandidateIndexData {
    /// Builds the exact index.
    fn build(pages: &[MemoryPage]) -> (r: Result<Self, MgeError>)
        ensures
            r matches Ok(CandidateIndexData::ExactMarkerPage(idx)) && idx.index_kind == IndexKind::ExactMarkerPage
                && idx.wf() && (forall|m: MarkerId|
                #[trigger] pages_under(idx.marker_to_pages@, m) == pages_with_marker(pages@, m))
                && enumerates(idx.all_pages@, page_ids_of(pages@)),
    {
        Ok(CandidateIndexData::ExactMarkerPage(ExactMarkerPageIndex::build_from_pages(pages)))
    }

    fn query(&self, markers: &[MarkerId]) -> (r: Result<Vec<PageId>, MgeError>)
        ensures
            r matches Ok(out) && match self {
                CandidateIndexData::ExactMarkerPage(idx) => (markers@.len() == 0 ==> out@ == idx.all_pages@)
                    && (markers@.len() > 0 ==> enumerates(
                    out@,
                    mode_pages(idx.under(), markers@, QueryMode::PreferIntersection),
                )),
                CandidateIndexData::BinaryFusePage(idx) => (markers@.len() == 0 ==> out@ == idx.all_pages@)
                    && (markers@.len() > 0 ==> out@ == fuse_mode_pages(
                    idx.page_filters@,
                    widen(markers@).to_set(),
                    QueryMode::Union,
                )),
            },
    {
        match self {
            CandidateIndexData::ExactMarkerPage(idx) => Ok(idx.query_with_mode(markers, QueryMode::PreferIntersection)),
            CandidateIndexData::BinaryFusePage(idx) => Ok(idx.query_with_mode(markers, QueryMode::Union)),
        }
    }

    fn query_with_stats(&self, markers: &[MarkerId]) -> (r: Result<CandidatePageQueryResult, MgeError>)
        ensures
            r matches Ok(res) && res.candidate_pages_returned == res.page_ids@.len() && match self {
                CandidateIndexData::ExactMarkerPage(idx) => res.page_filters_scanned == 0 && (markers@.len()
                    == 0 ==> res.page_ids@ == idx.all_pages@) && (markers@.len() > 0 ==> enumerates(
                    res.page_ids@,
                    mode_pages(idx.under(), markers@, QueryMode::PreferIntersection),
                )),
                CandidateIndexData::BinaryFusePage(idx) => res.page_filters_scanned == (if markers@.len() == 0 {
                    0
                } else {
                    idx.page_filters@.len()
                }) && (markers@.len() == 0 ==> res.page_ids@ == idx.all_pages@) && (markers@.len() > 0
                    ==> res.page_ids@ == fuse_mode_pages(idx.page_filters@, widen(markers@).to_set(), QueryMode::Union)),
            },
    {
        self.query_with_mode_stats(
            markers,
            match self {
                CandidateIndexData::ExactMarkerPage(_) => QueryMode::PreferIntersection,
                CandidateIndexData::BinaryFusePage(_) => QueryMode::Union,
            },
        )
    }

    fn kind(&self) -> (k: IndexKind)
        ensures
            k == match self {
                CandidateIndexData::ExactMarkerPage(idx) => idx.index_kind,
                CandidateIndexData::BinaryFusePage(idx) => idx.index_kind,
            },
    {
        match self {
            CandidateIndexData::ExactMarkerPage(idx) => idx.index_kind,
            CandidateIndexData::BinaryFusePage(idx) => idx.index_kind,
        }
    }
}

impl CandidateIndexData {
    /// A query in the given mode, with its work.
    pub fn query_with_mode_stats(&self, markers: &[MarkerId], mode: QueryMode) -> (r: Result<
        CandidatePageQueryResult,
        MgeError,
    >)
        ensures
            r matches Ok(res) && res.candidate_pages_returned == res.page_ids@.len() && match self {
                CandidateIndexData::ExactMarkerPage(idx) => res.page_filters_scanned == 0 && (markers@.len()
                    == 0 ==> res.page_ids@ == idx.all_pages@) && (markers@.len() > 0 ==> enumerates(
                    res.page_ids@,
                    mode_pages(idx.under(), markers@, mode),
                )),
                CandidateIndexData::BinaryFusePage(idx) => res.page_filters_scanned == (if markers@.len() == 0 {
                    0
                } else {
                    idx.page_filters@.len()
                }) && (markers@.len() == 0 ==> res.page_ids@ == idx.all_pages@) && (markers@.len() > 0
                    ==> res.page_ids@ == fuse_mode_pages(idx.page_filters@, widen(markers@).to_set(), mode)),
            },
    {
        match self {
            CandidateIndexData::ExactMarkerPage(idx) => {
                let page_ids = idx.query_with_mode(markers, mode);
                let n = page_ids.len();
                Ok(CandidatePageQueryResult { page_ids, page_filters_scanned: 0, candidate_pages_returned: n })
            },
            CandidateIndexData::BinaryFusePage(idx) => {
                let scanned = if markers.len() == 0 {
                    0
                } else {
                    idx.page_filters.len()
                };
                let page_ids = idx.query_with_mode(markers, mode);
                let n = page_ids.len();
                Ok(CandidatePageQueryResult { page_ids, page_filters_scanned: scanned, candidate_pages_returned: n })
            },
        }
    }
}

proof fn lemma_selected_contains(filters: Seq<BinaryFusePageFilter>, keys: Set<u64>, all: bool, i: int)
    requires
        0 <= i < filters.len(),
        filter_selects(filters[i], keys, all),
    ensures
        selected_pages(filters, keys, all).contains(filters[i].page_id),
    decreases filters.len(),
{
    let rest = selected_pages(filters.drop_last(), keys, all);
    if i == filters.len() - 1 {
        assert(selected_pages(filters, keys, all) == rest.push(filters[i].page_id));
        assert(selected_pages(filters, keys, all)[rest.len() as int] == filters[i].page_id);
    } else {
        assert(filters.drop_last()[i] == filters[i]);
        lemma_selected_contains(filters.drop_last(), keys, all, i);
        let k = choose|k: int| 0 <= k < rest.len() && rest[k] == filters[i].page_id;
        if filter_selects(filters.last(), keys, all) {
            assert(selected_pages(filters, keys, all)[k] == filters[i].page_id);
        }
    }
}

/// A binary fuse index built from the same pages as an exact index finds, for
/// a union query, every page the exact index finds (it has no false
/// negatives; it may find more).
pub proof fn law_fuse_union_covers_exact(
    pages: Seq<MemoryPage>,
    exact: ExactMarkerPageIndex,
    fuse: BinaryFusePageIndex,
    markers: Seq<MarkerId>,
    p: PageId,
)
    requires
        forall|m: MarkerId| #[trigger] pages_under(exact.marker_to_pages@, m) == pages_with_marker(pages, m),
        fuse.page_filters@.len() == pages.len(),
        forall|i: int| 0 <= i < pages.len() ==> filter_for_page(#[trigger] fuse.page_filters@[i], pages[i]),
        union_pages(exact.under(), markers).contains(p),
    ensures
        fuse_mode_pages(fuse.page_filters@, widen(markers).to_set(), QueryMode::Union).contains(p),
{
    let under = exact.under();
    let k = choose|k: int| 0 <= k < markers.len() && #[trigger] under(markers[k]).contains(p);
    let m = markers[k];
    assert(pages_under(exact.marker_to_pages@, m).contains(p));
    assert(pages_with_marker(pages, m).contains(p));
    let i = choose|i: int|
        0 <= i < pages.len() && #[trigger] pages[i].page_id == p && pages[i].marker_summary@.contains(m);
    let f = fuse.page_filters@[i];
    assert(filter_for_page(f, pages[i]));
    let key = m as u64;
    let summary = pages[i].marker_summary@;
    let q = choose|q: int| 0 <= q < summary.len() && summary[q] == m;
    assert(widen(summary)[q] == key);
    assert(widen(summary).to_set().contains(key));
    let pk = page_keys(pages[i]);
    lemma_ordered_set_of(widen(summary));
    assert(pk.to_set().contains(key));
    assert(pk.len() > 0);
    let x = f.filter->0;
    assert(fuse_members(x).contains(key));
    assert(widen(markers)[k] == key);
    assert(widen(markers).to_set().contains(key));
    assert(may_hold_any(x, widen(markers).to_set()));
    assert(filter_selects(f, widen(markers).to_set(), false));
    lemma_selected_contains(fuse.page_filters@, widen(markers).to_set(), false, i);
}

/// A binary fuse index built from the same pages as an exact index finds, for
/// an intersection query with markers, every page the exact index finds (it
/// has no false negatives; it may find more). Page ids are taken distinct.
pub proof fn law_fuse_intersection_covers_exact(
    pages: Seq<MemoryPage>,
    exact: ExactMarkerPageIndex,
    fuse: BinaryFusePageIndex,
    markers: Seq<MarkerId>,
    p: PageId,
)
    requires
        forall|i: int, j: int| 0 <= i < pages.len() && 0 <= j < pages.len() && #[trigger] pages[i].page_id
            == #[trigger] pages[j].page_id ==> i == j,
        forall|m: MarkerId| #[trigger] pages_under(exact.marker_to_pages@, m) == pages_with_marker(pages, m),
        fuse.page_filters@.len() == pages.len(),
        forall|i: int| 0 <= i < pages.len() ==> filter_for_page(#[trigger] fuse.page_filters@[i], pages[i]),
        markers.len() > 0,
        intersection_pages(exact.under(), markers).contains(p),
    ensures
        fuse_mode_pages(fuse.page_filters@, widen(markers).to_set(), QueryMode::Intersection).contains(p),
{
    let under = exact.under();
    let m0 = markers[0];
    assert(under(markers[0]).contains(p));
    assert(pages_with_marker(pages, m0).contains(p));
    let i = choose|i: int|
        0 <= i < pages.len() && #[trigger] pages[i].page_id == p && pages[i].marker_summary@.contains(m0);
    let summary = pages[i].marker_summary@;
    assert forall|k: int| 0 <= k < markers.len() implies summary.contains(#[trigger] markers[k]) by {
        assert(under(markers[k]).contains(p));
        assert(pages_with_marker(pages, markers[k]).contains(p));
        let j = choose|j: int|
            0 <= j < pages.len() && #[trigger] pages[j].page_id == p && pages[j].marker_summary@.contains(markers[k]);
        assert(pages[j].page_id == pages[i].page_id);
    }
    let f = fuse.page_filters@[i];
    assert(filter_for_page(f, pages[i]));
    let q = choose|q: int| 0 <= q < summary.len() && summary[q] == m0;
    assert(widen(summary)[q] == m0 as u64);
    assert(widen(summary).to_set().contains(m0 as u64));
    let pk = page_keys(pages[i]);
    lemma_ordered_set_of(widen(summary));
    assert(pk.to_set().contains(m0 as u64));
    assert(pk.len() > 0);
    let x = f.filter->0;
    let keys = widen(markers).to_set();
    assert forall|key: u64| keys.contains(key) implies fuse_members(x).contains(key) by {
        let k = choose|k: int| 0 <= k < widen(markers).len() && widen(markers)[k] == key;
        assert(summary.contains(markers[k]));
        let r = choose|r: int| 0 <= r < summary.len() && summary[r] == markers[k];
        assert(widen(summary)[r] == key);
        assert(widen(summary).to_set().contains(key));
    }
    assert(filter_selects(f, keys, true));
    lemma_selected_contains(fuse.page_filters@, keys, true, i);
}

proof fn lemma_selected_from(filters: Seq<BinaryFusePageFilter>, keys: Set<u64>, all: bool, id: PageId)
    requires
        selected_pages(filters, keys, all).contains(id),
    ensures
        exists|j: int| 0 <= j < filters.len() && (#[trigger] filters[j]).page_id == id && filter_selects(
            filters[j],
            keys,
            all,
        ),
    decreases filters.len(),
{
    let rest = selected_pages(filters.drop_last(), keys, all);
    let k = choose|k: int| 0 <= k < selected_pages(filters, keys, all).len() && selected_pages(filters, keys, all)[k]
        == id;
    if filter_selects(filters.last(), keys, all) && k == rest.len() {
        assert(filters[filters.len() - 1].page_id == id);
    } else {
        assert(rest[k] == id);
        lemma_selected_from(filters.drop_last(), keys, all, id);
        let j = choose|j: int| 0 <= j < filters.drop_last().len() && (#[trigger] filters.drop_last()[j]).page_id == id
            && filter_selects(filters.drop_last()[j], keys, all);
        assert(filters[j] == filters.drop_last()[j]);
    }
}

/// A binary fuse index built from pages (with distinct ids) never returns,
/// for any query, a page whose marker summary is empty: such a page has no
/// filter.
pub proof fn law_fuse_skips_empty_pages(
    pages: Seq<MemoryPage>,
    fuse: BinaryFusePageIndex,
    markers: Seq<MarkerId>,
    mode: QueryMode,
    i: int,
)
    requires
        forall|a: int, b: int| 0 <= a < pages.len() && 0 <= b < pages.len() && #[trigger] pages[a].page_id
            == #[trigger] pages[b].page_id ==> a == b,
        fuse.page_filters@.len() == pages.len(),
        forall|q: int| 0 <= q < pages.len() ==> filter_for_page(#[trigger] fuse.page_filters@[q], pages[q]),
        0 <= i < pages.len(),
        pages[i].marker_summary@.len() == 0,
    ensures
        !fuse_mode_pages(fuse.page_filters@, widen(markers).to_set(), mode).contains(pages[i].page_id),
{
    let filters = fuse.page_filters@;
    let keys = widen(markers).to_set();
    let id = pages[i].page_id;
    lemma_ordered_set_of(widen(pages[i].marker_summary@));
    assert(widen(pages[i].marker_summary@).to_set() =~= Set::<u64>::empty());
    assert(page_keys(pages[i]).to_set() =~= Set::<u64>::empty());
    if page_keys(pages[i]).len() > 0 {
        assert(page_keys(pages[i]).to_set().contains(page_keys(pages[i])[0]));
    }
    assert(filter_for_page(filters[i], pages[i]));
    assert(filters[i].filter is None);
    assert forall|all: bool| !#[trigger] selected_pages(filters, keys, all).contains(id) by {
        if selected_pages(filters, keys, all).contains(id) {
            lemma_selected_from(filters, keys, all, id);
            let j = choose|j: int| 0 <= j < filters.len() && (#[trigger] filters[j]).page_id == id && filter_selects(
                filters[j],
                keys,
                all,
            );
            assert(filter_for_page(filters[j], pages[j]));
            assert(pages[j].page_id == pages[i].page_id);
        }
    }
    assert(!selected_pages(filters, keys, true).contains(id));
    assert(!selected_pages(filters, keys, false).contains(id));
}

/// 64-bit FNV-1a over bytes.
pub open spec fn fnv1a(bytes: Seq<u8>) -> u64
    decreases bytes.len(),
{
    if bytes.len() == 0 {
        0xcbf29ce484222325u64
    } else {
        (fnv1a(bytes.drop_last()) ^ (bytes.last() as u64)).wrapping_mul(0x100000001b3u64)
    }
}

/// The FNV-1a fingerprint of a token's UTF-8 bytes.
pub fn token_fingerprint(token: &str) -> (h: u64)
    ensures
        h == fnv1a(token.spec_bytes()),
{
    let bytes = token.as_bytes();
    let mut h: u64 = 0xcbf29ce484222325;
    let mut i: usize = 0;
    while i < bytes.len()
        invariant
            i <= bytes@.len(),
            h == fnv1a(bytes@.take(i as int)),
        decreases bytes@.len() - i,
    {
        h = (h ^ (bytes[i] as u64)).wrapping_mul(0x100000001b3);
        proof {
            assert(bytes@.take(i + 1).drop_last() =~= bytes@.take(i as int));
        }
        i += 1;
    }
    proof {
        assert(bytes@.take(i as int) =~= bytes@);
    }
    h
}


impl Default for ExactMarkerPageIndex {
    /// An empty index.
    fn default() -> (idx: Self)
        ensures
            idx.index_kind == IndexKind::ExactMarkerPage,
            idx.marker_to_pages@.len() == 0,
            idx.all_pages@.len() == 0,
    {
        ExactMarkerPageIndex::empty()
    }
}

impl Default for BinaryFusePageIndex {
    /// An empty index.
    fn default() -> (idx: Self)
        ensures
            idx.index_kind == IndexKind::BinaryFusePage,
            idx.page_filters@.len() == 0,
            idx.all_pages@.len() == 0,
    {
        BinaryFusePageIndex::empty()
    }
}

} // verus!

//! The human-readable Markdown export of a store.
use vstd::prelude::*;
use crate::indexes::{index_kind_name, IndexKind};
use crate::marker_dictionary::MarkerDictionary;
use crate::models::{
    memory_kind_name, memory_status_name, plain_text, sensitivity_level_name, trust_level_name,
    MarkerId, MemoryCell,
};
use crate::pages::MemoryPage;
use crate::retrieval::marker_names;
use crate::text::{decimal, push_decimal_str, push_str};

verus! {

/// Names joined as `` a`, `b ``, for a list that opens and closes with a
/// backtick.
pub open spec fn backtick_joined(names: Seq<Seq<char>>) -> Seq<char>
    decreases names.len(),
{
    if names.len() == 0 {
        Seq::empty()
    } else if names.len() == 1 {
        names[0]
    } else {
        backtick_joined(names.drop_last()) + "`, `"@ + names.last()
    }
}

pub open spec fn line(label: Seq<char>, value: Seq<char>) -> Seq<char> {
    "- "@ + label + ": "@ + value + "\n"@
}

/// One cell: its id as a heading; kind, scope, status, trust, sensitivity,
/// subject (when it has one) and the dictionary names of its markers (when
/// any is known); then its value as plain text.
pub open spec fn cell_markdown(c: MemoryCell, reverse: Map<MarkerId, Seq<char>>) -> Seq<char> {
    let names = marker_names(reverse, c.markers@);
    "#### Cell "@ + decimal(c.id as nat) + "\n\n"@ + line("kind"@, memory_kind_name(c.kind)) + line(
        "scope"@,
        c.scope@,
    ) + line("status"@, memory_status_name(c.status)) + line("trust"@, trust_level_name(c.trust)) + line(
        "sensitivity"@,
        sensitivity_level_name(c.sensitivity),
    ) + (match c.subject {
        Some(s) => line("subject"@, s@),
        None => Seq::empty(),
    }) + (if names.len() > 0 {
        "- markers: `"@ + backtick_joined(names) + "`\n"@
    } else {
        Seq::empty()
    }) + "\n"@ + plain_text(c.value) + "\n\n"@
}

pub open spec fn cells_markdown(cells: Seq<MemoryCell>, reverse: Map<MarkerId, Seq<char>>) -> Seq<char>
    decreases cells.len(),
{
    if cells.len() == 0 {
        Seq::empty()
    } else {
        cells_markdown(cells.drop_last(), reverse) + cell_markdown(cells.last(), reverse)
    }
}

pub open spec fn page_markdown(p: MemoryPage, reverse: Map<MarkerId, Seq<char>>) -> Seq<char> {
    "### Page "@ + decimal(p.page_id as nat) + "\n\n- cells: "@ + decimal(p.cells@.len()) + "\n- markers: "@
        + decimal(p.marker_summary@.len()) + "\n\n"@ + cells_markdown(p.cells@, reverse)
}

pub open spec fn pages_markdown(pages: Seq<MemoryPage>, reverse: Map<MarkerId, Seq<char>>) -> Seq<char>
    decreases pages.len(),
{
    if pages.len() == 0 {
        Seq::empty()
    } else {
        pages_markdown(pages.drop_last(), reverse) + page_markdown(pages.last(), reverse)
    }
}

/// The whole export: a store summary, the hot cells, then each sealed page
/// with its cells.
pub open spec fn export_markdown_spec(
    version: u32,
    marker_count: usize,
    index_kind: IndexKind,
    catalog_pages: usize,
    hot: Seq<MemoryCell>,
    pages: Seq<MemoryPage>,
    reverse: Map<MarkerId, Seq<char>>,
) -> Seq<char> {
    "# Memory Genome Export\n\n## Store\n\n"@ + line("version"@, decimal(version as nat)) + line(
        "markers"@,
        decimal(marker_count as nat),
    ) + line("hot cells"@, decimal(hot.len())) + line("sealed pages"@, decimal(catalog_pages as nat))
        + line("index kind"@, index_kind_name(index_kind)) + "\n## Hot Memory\n\n"@ + (if hot.len() == 0 {
        "_No hot cells._\n\n"@
    } else {
        cells_markdown(hot, reverse)
    }) + "## Sealed Pages\n\n"@ + (if pages.len() == 0 {
        "_No sealed pages._\n"@
    } else {
        pages_markdown(pages, reverse)
    })
}

fn push_line(out: &mut String, label: &str, value: &str)
    ensures
        final(out)@ == old(out)@ + line(label@, value@),
{
    push_str(out, "- ");
    push_str(out, label);
    push_str(out, ": ");
    push_str(out, value);
    push_str(out, "\n");
    proof {
        reveal_strlit("- ");
        reveal_strlit(": ");
        reveal_strlit("\n");
        assert(out@ =~= old(out)@ + line(label@, value@));
    }
}

fn push_line_decimal(out: &mut String, label: &str, value: u64)
    ensures
        final(out)@ == old(out)@ + line(label@, decimal(value as nat)),
{
    push_str(out, "- ");
    push_str(out, label);
    push_str(out, ": ");
    push_decimal_str(out, value);
    push_str(out, "\n");
    proof {
        reveal_strlit("- ");
        reveal_strlit(": ");
        reveal_strlit("\n");
        assert(out@ =~= old(out)@ + line(label@, decimal(value as nat)));
    }
}

/// Appends the names of the known markers among `ids`, joined with
/// `` `, ` ``; returns how many there were.
fn push_marker_names(out: &mut String, ids: &Vec<MarkerId>, dictionary: &MarkerDictionary) -> (n: usize)
    requires
        dictionary.wf(),
    ensures
        n == marker_names(dictionary.view().reverse, ids@).len(),
        final(out)@ == old(out)@ + backtick_joined(marker_names(dictionary.view().reverse, ids@)),
{
    let ghost reverse = dictionary.view().reverse;
    let mut n: usize = 0;
    let mut i: usize = 0;
    proof {
        assert(ids@.take(0) =~= Seq::<MarkerId>::empty());
        assert(old(out)@ + Seq::<char>::empty() =~= old(out)@);
    }
    while i < ids.len()
        invariant
            i <= ids@.len(),
            dictionary.wf(),
            reverse == dictionary.view().reverse,
            n == marker_names(reverse, ids@.take(i as int)).len(),
            n <= i,
            out@ == old(out)@ + backtick_joined(marker_names(reverse, ids@.take(i as int))),
        decreases ids@.len() - i,
    {
        proof {
            assert(ids@.take(i + 1).drop_last() =~= ids@.take(i as int));
            assert(ids@.take(i + 1).last() == ids@[i as int]);
        }
        let ghost names = marker_names(reverse, ids@.take(i as int));
        match dictionary.marker(ids[i]) {
            Some(m) => {
                if n > 0 {
                    push_str(out, "`, `");
                }
                push_str(out, m);
                proof {
                    reveal_strlit("`, `");
                    let nn = names.push(m@);
                    assert(marker_names(reverse, ids@.take(i + 1)) == nn);
                    assert(nn.drop_last() =~= names);
                    if n == 0 {
                        assert(names.len() == 0);
                        assert(backtick_joined(names) =~= Seq::<char>::empty());
                        assert(out@ =~= old(out)@ + backtick_joined(nn));
                    } else {
                        assert(out@ =~= old(out)@ + backtick_joined(nn));
                    }
                }
                n += 1;
            },
            None => {},
        }
        i += 1;
    }
    proof {
        assert(ids@.take(i as int) =~= ids@);
    }
    n
}

fn push_cell_markdown(out: &mut String, cell: &MemoryCell, dictionary: &MarkerDictionary)
    requires
        dictionary.wf(),
    ensures
        final(out)@ == old(out)@ + cell_markdown(*cell, dictionary.view().reverse),
{
    let ghost reverse = dictionary.view().reverse;
    let ghost names = marker_names(reverse, cell.markers@);
    push_str(out, "#### Cell ");
    push_decimal_str(out, cell.id);
    push_str(out, "\n\n");
    push_line(out, "kind", cell.kind.as_str());
    push_line(out, "scope", cell.scope.as_str());
    push_line(out, "status", cell.status.as_str());
    push_line(out, "trust", cell.trust.as_str());
    push_line(out, "sensitivity", cell.sensitivity.as_str());
    match &cell.subject {
        Some(s) => push_line(out, "subject", s.as_str()),
        None => {},
    }
    let ghost before_markers = out@;
    let mut names_text = String::new();
    let n = push_marker_names(&mut names_text, &cell.markers, dictionary);
    if n > 0 {
        push_str(out, "- markers: `");
        push_str(out, names_text.as_str());
        push_str(out, "`\n");
    }
    let ghost after_markers = out@;
    push_str(out, "\n");
    let text = cell.value.to_plain_text();
    push_str(out, text.as_str());
    push_str(out, "\n\n");
    proof {
        reveal_strlit("#### Cell ");
        reveal_strlit("\n\n");
        reveal_strlit("kind");
        reveal_strlit("scope");
        reveal_strlit("status");
        reveal_strlit("trust");
        reveal_strlit("sensitivity");
        reveal_strlit("subject");
        reveal_strlit("- markers: `");
        reveal_strlit("`\n");
        reveal_strlit("\n");
        let m: Seq<char> = if names.len() > 0 {
            "- markers: `"@ + backtick_joined(names) + "`\n"@
        } else {
            Seq::empty()
        };
        assert(after_markers =~= before_markers + m);
        assert(out@ =~= old(out)@ + cell_markdown(*cell, reverse));
    }
}

fn push_cells_markdown(out: &mut String, cells: &Vec<MemoryCell>, dictionary: &MarkerDictionary)
    requires
        dictionary.wf(),
    ensures
        final(out)@ == old(out)@ + cells_markdown(cells@, dictionary.view().reverse),
{
    let mut i: usize = 0;
    proof {
        assert(cells@.take(0) =~= Seq::<MemoryCell>::empty());
        assert(old(out)@ + Seq::<char>::empty() =~= old(out)@);
    }
    while i < cells.len()
        invariant
            i <= cells@.len(),
            dictionary.wf(),
            out@ == old(out)@ + cells_markdown(cells@.take(i as int), dictionary.view().reverse),
        decreases cells@.len() - i,
    {
        proof {
            assert(cells@.take(i + 1).drop_last() =~= cells@.take(i as int));
            assert(cells@.take(i + 1).last() == cells@[i as int]);
        }
        push_cell_markdown(out, &cells[i], dictionary);
        proof {
            assert(out@ =~= old(out)@ + cells_markdown(cells@.take(i + 1), dictionary.view().reverse));
        }
        i += 1;
    }
    proof {
        assert(cells@.take(i as int) =~= cells@);
    }
}

fn push_page_markdown(out: &mut String, page: &MemoryPage, dictionary: &MarkerDictionary)
    requires
        dictionary.wf(),
    ensures
        final(out)@ == old(out)@ + page_markdown(*page, dictionary.view().reverse),
{
    push_str(out, "### Page ");
    push_decimal_str(out, page.page_id);
    push_str(out, "\n\n- cells: ");
    push_decimal_str(out, page.cells.len() as u64);
    push_str(out, "\n- markers: ");
    push_decimal_str(out, page.marker_summary.len() as u64);
    push_str(out, "\n\n");
    push_cells_markdown(out, &page.cells, dictionary);
    proof {
        reveal_strlit("### Page ");
        reveal_strlit("\n\n- cells: ");
        reveal_strlit("\n- markers: ");
        reveal_strlit("\n\n");
        assert(out@ =~= old(out)@ + page_markdown(*page, dictionary.view().reverse));
    }
}

/// The Markdown export of a store (see `export_markdown_spec`): its format
/// version, marker count, index kind and number of catalog pages, its hot
/// cells, and its sealed pages.
pub fn export_markdown(
    version: u32,
    index_kind: IndexKind,
    catalog_pages: usize,
    hot_cells: &Vec<MemoryCell>,
    pages: &Vec<MemoryPage>,
    dictionary: &MarkerDictionary,
) -> (s: String)
    requires
        dictionary.wf(),
    ensures
        s@ == export_markdown_spec(
            version,
            dictionary.view().forward.len() as usize,
            index_kind,
            catalog_pages,
            hot_cells@,
            pages@,
            dictionary.view().reverse,
        ),
{
    let ghost reverse = dictionary.view().reverse;
    let mut out = String::new();
    push_str(&mut out, "# Memory Genome Export\n\n## Store\n\n");
    push_line_decimal(&mut out, "version", version as u64);
    let marker_count = dictionary.len();
    push_line_decimal(&mut out, "markers", marker_count as u64);
    push_line_decimal(&mut out, "hot cells", hot_cells.len() as u64);
    push_line_decimal(&mut out, "sealed pages", catalog_pages as u64);
    push_line(&mut out, "index kind", index_kind.as_str());
    push_str(&mut out, "\n## Hot Memory\n\n");
    let ghost head = out@;
    if hot_cells.len() == 0 {
        push_str(&mut out, "_No hot cells._\n\n");
    } else {
        push_cells_markdown(&mut out, hot_cells, dictionary);
    }
    let ghost mid = out@;
    push_str(&mut out, "## Sealed Pages\n\n");
    let ghost before_pages = out@;
    if pages.len() == 0 {
        push_str(&mut out, "_No sealed pages._\n");
    } else {
        let mut i: usize = 0;
        proof {
            assert(pages@.take(0) =~= Seq::<MemoryPage>::empty());
            assert(before_pages + Seq::<char>::empty() =~= before_pages);
        }
        while i < pages.len()
            invariant
                i <= pages@.len(),
                dictionary.wf(),
                reverse == dictionary.view().reverse,
                out@ == before_pages + pages_markdown(pages@.take(i as int), reverse),
            decreases pages@.len() - i,
        {
            let page = &pages[i];
            push_page_markdown(&mut out, page, dictionary);
            proof {
                assert(pages@.take(i + 1).drop_last() =~= pages@.take(i as int));
                assert(pages@.take(i + 1).last() == *page);
                assert(out@ =~= before_pages + pages_markdown(pages@.take(i + 1), reverse));
            }
            i += 1;
        }
        proof {
            assert(pages@.take(i as int) =~= pages@);
        }
    }
    proof {
        reveal_strlit("# Memory Genome Export\n\n## Store\n\n");
        reveal_strlit("version");
        reveal_strlit("markers");
        reveal_strlit("hot cells");
        reveal_strlit("sealed pages");
        reveal_strlit("index kind");
        reveal_strlit("\n## Hot Memory\n\n");
        reveal_strlit("_No hot cells._\n\n");
        reveal_strlit("## Sealed Pages\n\n");
        reveal_strlit("_No sealed pages._\n");
        assert(out@ =~= export_markdown_spec(
            version,
            marker_count,
            index_kind,
            catalog_pages,
            hot_cells@,
            pages@,
            reverse,
        ));
    }
    out
}

} // verus!

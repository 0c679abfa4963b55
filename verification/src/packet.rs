//! The context packet a recall returns, and its prompt rendering.
use vstd::prelude::*;
use crate::indexes::IndexKind;
use crate::models::{
    memory_kind_name, memory_status_name, trust_level_name, CellId, MemoryKind, MemoryStatus,
    PageId, RecallMode, SensitivityLevel, TrustLevel,
};
use crate::text::push_str;

verus! {

pub struct ContextMemoryItem {
    pub kind: MemoryKind,
    pub content: String,
    pub trust: TrustLevel,
    pub status: MemoryStatus,
    pub scope: String,
    pub sensitivity: SensitivityLevel,
    pub markers: Vec<String>,
}

/// How a cell's score was made up.
#[derive(Clone, Copy, Debug, PartialEq, Eq, Structural)]
pub struct ContextScoreDebugItem {
    pub cell_id: CellId,
    pub score: i64,
    pub marker_overlap: i64,
    pub marker_overlap_score: i64,
    pub exact_subject_match: bool,
    pub exact_subject_score: i64,
    pub value_overlap: i64,
    pub value_overlap_score: i64,
    pub exact_value_match: bool,
    pub exact_value_score: i64,
    pub trust_bonus: i64,
    pub status_bonus: i64,
    pub sensitivity_penalty: i64,
}

impl ContextScoreDebugItem {
    /// All counts and scores zero, no matches, cell id 0.
    pub fn zero() -> (d: Self)
        ensures
            d == (ContextScoreDebugItem {
                cell_id: 0,
                score: 0,
                marker_overlap: 0,
                marker_overlap_score: 0,
                exact_subject_match: false,
                exact_subject_score: 0,
                value_overlap: 0,
                value_overlap_score: 0,
                exact_value_match: false,
                exact_value_score: 0,
                trust_bonus: 0,
                status_bonus: 0,
                sensitivity_penalty: 0,
            }),
    {
        ContextScoreDebugItem {
            cell_id: 0,
            score: 0,
            marker_overlap: 0,
            marker_overlap_score: 0,
            exact_subject_match: false,
            exact_subject_score: 0,
            value_overlap: 0,
            value_overlap_score: 0,
            exact_value_match: false,
            exact_value_score: 0,
            trust_bonus: 0,
            status_bonus: 0,
            sensitivity_penalty: 0,
        }
    }
}

/// Counters and timings of one recall.
pub struct ContextDebugInfo {
    pub recall_mode: RecallMode,
    pub max_items: usize,
    pub index_kind: IndexKind,
    pub hot_total_cells: usize,
    pub hot_candidate_cells: usize,
    pub hot_cells_scanned: usize,
    pub cells_scanned: usize,
    pub candidate_pages: Vec<PageId>,
    pub pages_considered: usize,
    pub page_filters_scanned: usize,
    pub candidate_pages_returned: usize,
    pub loaded_pages: usize,
    pub pruned_candidate_pages: usize,
    pub pages_pruned_by_metadata: usize,
    pub sealed_cells_scanned: usize,
    pub cells_decoded: usize,
    pub cells_filtered: usize,
    pub cells_ranked: usize,
    pub sealed_cells_skipped_before_token_scoring: usize,
    pub sealed_cells_token_scored: usize,
    pub false_positive_candidate_pages: usize,
    pub total_candidates: usize,
    pub returned_items: usize,
    pub full_scope_used: bool,
    pub query_marker_extraction_micros: u64,
    pub hot_memory_lookup_micros: u64,
    pub candidate_page_index_lookup_micros: u64,
    pub page_file_read_load_micros: u64,
    pub page_decode_micros: u64,
    pub scoring_cache_build_micros: u64,
    pub cell_filtering_micros: u64,
    pub reranking_micros: u64,
    pub context_packet_build_micros: u64,
    pub total_recall_micros: u64,
    pub decoded_page_cache_hits: usize,
    pub decoded_page_cache_misses: usize,
    pub scoring_cache_hits: usize,
    pub scoring_cache_misses: usize,
    pub score_details: Vec<ContextScoreDebugItem>,
}

impl ContextDebugInfo {
    /// Every counter zero, focused mode, the exact index kind, no pages and no
    /// score details.
    pub fn zero() -> (d: Self)
        ensures
            d.recall_mode == RecallMode::Focused,
            d.index_kind == IndexKind::ExactMarkerPage,
            d.max_items == 0 && d.total_candidates == 0 && d.returned_items == 0,
            d.candidate_pages@.len() == 0,
            d.score_details@.len() == 0,
    {
        ContextDebugInfo {
            recall_mode: RecallMode::Focused,
            max_items: 0,
            index_kind: IndexKind::ExactMarkerPage,
            hot_total_cells: 0,
            hot_candidate_cells: 0,
            hot_cells_scanned: 0,
            cells_scanned: 0,
            candidate_pages: Vec::new(),
            pages_considered: 0,
            page_filters_scanned: 0,
            candidate_pages_returned: 0,
            loaded_pages: 0,
            pruned_candidate_pages: 0,
            pages_pruned_by_metadata: 0,
            sealed_cells_scanned: 0,
            cells_decoded: 0,
            cells_filtered: 0,
            cells_ranked: 0,
            sealed_cells_skipped_before_token_scoring: 0,
            sealed_cells_token_scored: 0,
            false_positive_candidate_pages: 0,
            total_candidates: 0,
            returned_items: 0,
            full_scope_used: false,
            query_marker_extraction_micros: 0,
            hot_memory_lookup_micros: 0,
            candidate_page_index_lookup_micros: 0,
            page_file_read_load_micros: 0,
            page_decode_micros: 0,
            scoring_cache_build_micros: 0,
            cell_filtering_micros: 0,
            reranking_micros: 0,
            context_packet_build_micros: 0,
            total_recall_micros: 0,
            decoded_page_cache_hits: 0,
            decoded_page_cache_misses: 0,
            scoring_cache_hits: 0,
            scoring_cache_misses: 0,
            score_details: Vec::new(),
        }
    }
}

pub struct ContextPacket {
    pub query: String,
    pub relevant_memory: Vec<ContextMemoryItem>,
    pub constraints: Vec<String>,
    pub warnings: Vec<String>,
    pub debug: ContextDebugInfo,
}

/// `- {content} [kind=.., trust=.., status=.., scope=..]` and a newline.
pub open spec fn item_line(item: ContextMemoryItem) -> Seq<char> {
    "- "@ + item.content@ + " [kind="@ + memory_kind_name(item.kind) + ", trust="@
        + trust_level_name(item.trust) + ", status="@ + memory_status_name(item.status)
        + ", scope="@ + item.scope@ + "]\n"@
}

pub open spec fn item_lines(items: Seq<ContextMemoryItem>) -> Seq<char>
    decreases items.len(),
{
    if items.len() == 0 {
        Seq::empty()
    } else {
        item_lines(items.drop_last()) + item_line(items.last())
    }
}

/// `- {line}` and a newline for every line.
pub open spec fn bullet_lines(lines: Seq<String>) -> Seq<char>
    decreases lines.len(),
{
    if lines.len() == 0 {
        Seq::empty()
    } else {
        bullet_lines(lines.drop_last()) + "- "@ + lines.last()@ + "\n"@
    }
}

/// The prompt text of a packet: the relevant memory lines (or a line saying
/// there is none), then the constraints and the warnings when there are any.
pub open spec fn prompt_text(p: ContextPacket) -> Seq<char> {
    let memory = if p.relevant_memory@.len() == 0 {
        "- No relevant memory found.\n"@
    } else {
        item_lines(p.relevant_memory@)
    };
    let constraints = if p.constraints@.len() == 0 {
        Seq::empty()
    } else {
        "\nConstraints:\n"@ + bullet_lines(p.constraints@)
    };
    let warnings = if p.warnings@.len() == 0 {
        Seq::empty()
    } else {
        "\nWarnings:\n"@ + bullet_lines(p.warnings@)
    };
    "Relevant memory:\n"@ + memory + constraints + warnings
}

fn push_bullets(out: &mut String, lines: &Vec<String>)
    ensures
        final(out)@ == old(out)@ + bullet_lines(lines@),
{
    let mut i: usize = 0;
    while i < lines.len()
        invariant
            i <= lines.len(),
            out@ == old(out)@ + bullet_lines(lines@.take(i as int)),
        decreases lines.len() - i,
    {
        push_str(out, "- ");
        push_str(out, lines[i].as_str());
        push_str(out, "\n");
        proof {
            assert(lines@.take(i + 1).drop_last() =~= lines@.take(i as int));
            assert(out@ =~= old(out)@ + bullet_lines(lines@.take(i + 1)));
        }
        i += 1;
    }
    proof {
        assert(lines@.take(i as int) =~= lines@);
    }
}

fn push_item_line(out: &mut String, item: &ContextMemoryItem)
    ensures
        final(out)@ == old(out)@ + item_line(*item),
{
    push_str(out, "- ");
    push_str(out, item.content.as_str());
    push_str(out, " [kind=");
    push_str(out, item.kind.as_str());
    push_str(out, ", trust=");
    push_str(out, item.trust.as_str());
    let ghost mid = out@;
    push_str(out, ", status=");
    push_str(out, item.status.as_str());
    push_str(out, ", scope=");
    push_str(out, item.scope.as_str());
    push_str(out, "]\n");
    proof {
        assert(out@ =~= mid + (", status="@ + memory_status_name(item.status) + ", scope="@
            + item.scope@ + "]\n"@));
        assert(out@ =~= old(out)@ + item_line(*item));
    }
}

impl ContextPacket {
    pub fn to_prompt_text(&self) -> (s: String)
        ensures
            s@ == prompt_text(*self),
    {
        let mut out = String::new();
        push_str(&mut out, "Relevant memory:\n");
        if self.relevant_memory.len() == 0 {
            push_str(&mut out, "- No relevant memory found.\n");
        } else {
            let ghost start = out@;
            let mut i: usize = 0;
            while i < self.relevant_memory.len()
                invariant
                    i <= self.relevant_memory.len(),
                    out@ == start + item_lines(self.relevant_memory@.take(i as int)),
                decreases self.relevant_memory.len() - i,
            {
                push_item_line(&mut out, &self.relevant_memory[i]);
                proof {
                    assert(self.relevant_memory@.take(i + 1).drop_last() =~= self.relevant_memory@.take(
                        i as int,
                    ));
                    assert(out@ =~= start + item_lines(self.relevant_memory@.take(i + 1)));
                }
                i += 1;
            }
            proof {
                assert(self.relevant_memory@.take(i as int) =~= self.relevant_memory@);
            }
        }
        if self.constraints.len() > 0 {
            push_str(&mut out, "\nConstraints:\n");
            push_bullets(&mut out, &self.constraints);
        }
        if self.warnings.len() > 0 {
            push_str(&mut out, "\nWarnings:\n");
            push_bullets(&mut out, &self.warnings);
        }
        proof {
            assert(out@ =~= prompt_text(*self));
        }
        out
    }
}


impl Default for ContextScoreDebugItem {
    /// All counts and scores zero, no matches, cell id 0.
    fn default() -> (d: Self)
        ensures
            d == (ContextScoreDebugItem {
                cell_id: 0,
                score: 0,
                marker_overlap: 0,
                marker_overlap_score: 0,
                exact_subject_match: false,
                exact_subject_score: 0,
                value_overlap: 0,
                value_overlap_score: 0,
                exact_value_match: false,
                exact_value_score: 0,
                trust_bonus: 0,
                status_bonus: 0,
                sensitivity_penalty: 0,
            }),
    {
        ContextScoreDebugItem::zero()
    }
}

impl Default for ContextDebugInfo {
    /// Every counter zero, focused mode, the exact index kind, no pages and no
    /// score details.
    fn default() -> (d: Self)
        ensures
            d.recall_mode == RecallMode::Focused,
            d.index_kind == IndexKind::ExactMarkerPage,
            d.max_items == 0 && d.total_candidates == 0 && d.returned_items == 0,
            d.candidate_pages@.len() == 0,
            d.score_details@.len() == 0,
    {
        ContextDebugInfo::zero()
    }
}

} // verus!

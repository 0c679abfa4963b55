//! Turning a conversation session into memory chunks.
use vstd::prelude::*;
use crate::errors::MgeError;
use crate::models::{CellId, MemoryCell, MemoryKind, MemorySource, MemoryStatus, SensitivityLevel, TrustLevel};
use crate::text::{
    chars_of, decimal, push_chars, push_decimal_str, push_str, string_from, string_from_chars,
    trim_chars, trim_ws, TrimKind,
};

verus! {

pub const DEFAULT_SESSION_CHUNK_MAX_TURNS: usize = 8;

pub const DEFAULT_SESSION_CHUNK_MAX_BYTES: usize = 4096;

/// One turn of a session: who spoke and what was said.
#[derive(Clone, Debug, PartialEq, Eq)]
pub struct SessionTurn {
    pub role: String,
    pub content: String,
}

impl SessionTurn {
    pub fn new(role: &str, content: &str) -> (t: Self)
        ensures
            t.role@ == role@,
            t.content@ == content@,
    {
        SessionTurn { role: string_from(role), content: string_from(content) }
    }
}

/// The limits of a chunk: at most `max_turns` turns and `max_bytes` bytes
/// of text (a single longer turn still makes a chunk of its own).
#[derive(Clone, Copy, Debug, PartialEq, Eq, Structural)]
pub struct SessionChunkOptions {
    pub max_turns: usize,
    pub max_bytes: usize,
}

impl Default for SessionChunkOptions {
    /// Eight turns and 4 KiB.
    fn default() -> (o: Self)
        ensures
            o.max_turns == DEFAULT_SESSION_CHUNK_MAX_TURNS,
            o.max_bytes == DEFAULT_SESSION_CHUNK_MAX_BYTES,
    {
        SessionChunkOptions {
            max_turns: DEFAULT_SESSION_CHUNK_MAX_TURNS,
            max_bytes: DEFAULT_SESSION_CHUNK_MAX_BYTES,
        }
    }
}

/// Turns `start_turn..end_turn` of a session as text, one `role: content`
/// line per turn.
#[derive(Clone, Debug, PartialEq, Eq)]
pub struct SessionChunk {
    pub index: usize,
    pub start_turn: usize,
    pub end_turn: usize,
    pub text: String,
}

impl SessionChunk {
    /// The number of turns, zero if the range is reversed.
    pub fn turn_count(&self) -> (n: usize)
        ensures
            n == if self.end_turn >= self.start_turn {
                self.end_turn - self.start_turn
            } else {
                0
            },
    {
        self.end_turn.saturating_sub(self.start_turn)
    }
}

/// What remembering a session gives back: how many turns and chunks it had,
/// and the cell remembered for each chunk.
#[derive(Debug)]
pub struct SessionRememberReport {
    pub turns: usize,
    pub chunks: usize,
    pub cells: Vec<MemoryCell>,
}

/// A request to remember a session, chunk by chunk, with the classification
/// every chunk's cell gets.
#[derive(Clone, Debug)]
pub struct SessionRememberRequest {
    pub turns: Vec<SessionTurn>,
    pub chunk_options: SessionChunkOptions,
    pub session_id: Option<String>,
    pub kind: MemoryKind,
    pub subject: Option<String>,
    pub scope: String,
    pub status: MemoryStatus,
    pub trust: TrustLevel,
    pub sensitivity: SensitivityLevel,
    pub markers: Vec<String>,
    pub source: Option<MemorySource>,
    pub links: Vec<CellId>,
}

impl SessionRememberRequest {
    /// A request with the default chunk limits for an active, private,
    /// tool-observed project fact in the `global` scope.
    pub fn new(turns: Vec<SessionTurn>) -> (r: Self)
        ensures
            r.turns == turns,
            r.chunk_options.max_turns == DEFAULT_SESSION_CHUNK_MAX_TURNS,
            r.chunk_options.max_bytes == DEFAULT_SESSION_CHUNK_MAX_BYTES,
            r.session_id is None,
            r.kind == MemoryKind::ProjectFact,
            r.subject is None,
            r.scope@ == "global"@,
            r.status == MemoryStatus::Active,
            r.trust == TrustLevel::ToolObserved,
            r.sensitivity == SensitivityLevel::Private,
            r.markers@.len() == 0,
            r.source is None,
            r.links@.len() == 0,
    {
        SessionRememberRequest {
            turns,
            chunk_options: SessionChunkOptions::default(),
            session_id: None,
            kind: MemoryKind::ProjectFact,
            subject: None,
            scope: string_from("global"),
            status: MemoryStatus::Active,
            trust: TrustLevel::ToolObserved,
            sensitivity: SensitivityLevel::Private,
            markers: Vec::new(),
            source: None,
            links: Vec::new(),
        }
    }
}

/// The number of bytes of the UTF-8 encoding of `s`.
pub open spec fn utf8_len(s: Seq<char>) -> nat
    decreases s.len(),
{
    if s.len() == 0 {
        0
    } else {
        let c = s.last() as u32;
        utf8_len(s.drop_last()) + if c < 0x80 {
            1nat
        } else if c < 0x800 {
            2nat
        } else if c < 0x10000 {
            3nat
        } else {
            4nat
        }
    }
}

/// `a + b`, saturating at `usize::MAX`.
pub open spec fn sat_add(a: int, b: int) -> int {
    if a + b > usize::MAX {
        usize::MAX as int
    } else {
        a + b
    }
}

/// The text line of a turn: trimmed role, `": "`, trimmed content.
pub open spec fn turn_line(t: SessionTurn) -> Seq<char> {
    trim_ws(t.role@) + ": "@ + trim_ws(t.content@)
}

pub open spec fn turn_ok(t: SessionTurn) -> bool {
    trim_ws(t.role@).len() > 0 && trim_ws(t.content@).len() > 0
}

/// Chunking so far: the closed chunks `(start, end, text)`, then the open
/// chunk's text, turn count, first turn and byte count.
pub struct ChunkState {
    pub closed: Seq<(nat, nat, Seq<char>)>,
    pub text: Seq<char>,
    pub count: nat,
    pub start: nat,
    pub bytes: int,
}

/// The chunking state after the first `n` turns. A turn closes the open
/// chunk first when it is not empty and already holds `max_turns` turns, or
/// when the turn's line (after a newline separator) would take its bytes past
/// `max_bytes`.
pub open spec fn line_chunk_run(lines: Seq<Seq<char>>, options: SessionChunkOptions, n: int) -> ChunkState
    decreases n,
{
    if n <= 0 {
        ChunkState { closed: Seq::empty(), text: Seq::empty(), count: 0, start: 0, bytes: 0 }
    } else {
        let st = line_chunk_run(lines, options, n - 1);
        let line = lines[n - 1];
        let sep: int = if st.count > 0 {
            1
        } else {
            0
        };
        let exceeds = st.count >= options.max_turns || sat_add(sat_add(st.bytes, sep), utf8_len(line) as int)
            > options.max_bytes;
        let st2 = if st.count > 0 && exceeds {
            ChunkState {
                closed: st.closed.push((st.start, (n - 1) as nat, st.text)),
                text: Seq::empty(),
                count: 0,
                start: (n - 1) as nat,
                bytes: 0,
            }
        } else {
            st
        };
        let bytes1 = if st2.count > 0 {
            sat_add(st2.bytes, 1)
        } else {
            st2.bytes
        };
        ChunkState {
            closed: st2.closed,
            text: if st2.count > 0 {
                st2.text + seq!['\n'] + line
            } else {
                line
            },
            count: st2.count + 1,
            start: st2.start,
            bytes: sat_add(bytes1, utf8_len(line) as int),
        }
    }
}

/// The lines of the turns.
pub open spec fn turn_lines(turns: Seq<SessionTurn>) -> Seq<Seq<char>> {
    turns.map_values(|t: SessionTurn| turn_line(t))
}

pub open spec fn chunk_run(turns: Seq<SessionTurn>, options: SessionChunkOptions, n: int) -> ChunkState {
    line_chunk_run(turn_lines(turns), options, n)
}

/// The chunks of a sequence of lines.
pub open spec fn line_chunks(lines: Seq<Seq<char>>, options: SessionChunkOptions) -> Seq<(nat, nat, Seq<char>)> {
    let st = line_chunk_run(lines, options, lines.len() as int);
    if st.count > 0 {
        st.closed.push((st.start, lines.len(), st.text))
    } else {
        st.closed
    }
}

/// The chunks of a session whose turns are all well formed.
pub open spec fn session_chunks(turns: Seq<SessionTurn>, options: SessionChunkOptions) -> Seq<(nat, nat, Seq<char>)> {
    let st = chunk_run(turns, options, turns.len() as int);
    if st.count > 0 {
        st.closed.push((st.start, turns.len(), st.text))
    } else {
        st.closed
    }
}

pub open spec fn chunk_views(chunks: Seq<SessionChunk>) -> Seq<(nat, nat, Seq<char>)> {
    chunks.map_values(|c: SessionChunk| (c.start_turn as nat, c.end_turn as nat, c.text@))
}

/// The first ill-formed turn (empty role or content after trimming), if any.
pub open spec fn first_bad_turn(turns: Seq<SessionTurn>, i: int) -> bool {
    0 <= i < turns.len() && !turn_ok(turns[i]) && forall|j: int| 0 <= j < i ==> turn_ok(#[trigger] turns[j])
}

pub(crate) fn utf8_length(v: &Vec<char>) -> (n: usize)
    ensures
        n == if utf8_len(v@) > usize::MAX { usize::MAX as nat } else { utf8_len(v@) },
{
    let mut n: usize = 0;
    let mut i: usize = 0;
    while i < v.len()
        invariant
            i <= v@.len(),
            n == if utf8_len(v@.take(i as int)) > usize::MAX {
                usize::MAX as nat
            } else {
                utf8_len(v@.take(i as int))
            },
        decreases v@.len() - i,
    {
        let c = v[i] as u32;
        let w: usize = if c < 0x80 {
            1
        } else if c < 0x800 {
            2
        } else if c < 0x10000 {
            3
        } else {
            4
        };
        proof {
            assert(v@.take(i + 1).drop_last() =~= v@.take(i as int));
            assert(v@.take(i + 1).last() == v@[i as int]);
        }
        n = n.saturating_add(w);
        i += 1;
    }
    proof {
        assert(v@.take(i as int) =~= v@);
    }
    n
}

/// Cuts a session into chunks of consecutive turns. The limits must be
/// positive and the session not empty; a turn with an empty role or content
/// (after trimming) is an error naming its index.
pub fn chunk_session_turns(turns: &[SessionTurn], options: SessionChunkOptions) -> (r: Result<
    Vec<SessionChunk>,
    MgeError,
>)
    ensures
        options.max_turns == 0 ==> (r matches Err(MgeError::InvalidInput(m)) && m@
            == "session chunk max_turns must be greater than zero"@),
        options.max_turns > 0 && options.max_bytes == 0 ==> (r matches Err(MgeError::InvalidInput(m))
            && m@ == "session chunk max_bytes must be greater than zero"@),
        options.max_turns > 0 && options.max_bytes > 0 && turns@.len() == 0 ==> (r matches Err(
            MgeError::InvalidInput(m),
        ) && m@ == "session must contain at least one turn"@),
        forall|i: int|
            options.max_turns > 0 && options.max_bytes > 0 && #[trigger] first_bad_turn(turns@, i) ==> (r matches Err(
                MgeError::InvalidInput(m),
            ) && m@ == "session turn "@ + decimal(i as nat) + " requires non-empty role and content"@),
        options.max_turns > 0 && options.max_bytes > 0 && turns@.len() > 0 && (forall|i: int|
            0 <= i < turns@.len() ==> turn_ok(#[trigger] turns@[i])) ==> (r matches Ok(chunks) && chunk_views(
            chunks@,
        ) == session_chunks(turns@, options) && forall|k: int|
            0 <= k < chunks@.len() ==> (#[trigger] chunks@[k]).index == k),
{
    if options.max_turns == 0 {
        return Err(MgeError::InvalidInput(string_from("session chunk max_turns must be greater than zero")));
    }
    if options.max_bytes == 0 {
        return Err(MgeError::InvalidInput(string_from("session chunk max_bytes must be greater than zero")));
    }
    if turns.len() == 0 {
        return Err(MgeError::InvalidInput(string_from("session must contain at least one turn")));
    }
    let mut chunks: Vec<SessionChunk> = Vec::new();
    let mut text: Vec<char> = Vec::new();
    let mut count: usize = 0;
    let mut chunk_start: usize = 0;
    let mut bytes: usize = 0;
    let mut i: usize = 0;
    proof {
        assert(chunk_views(chunks@) =~= Seq::<(nat, nat, Seq<char>)>::empty());
    }
    while i < turns.len()
        invariant
            i <= turns@.len(),
            options.max_turns > 0,
            options.max_bytes > 0,
            forall|j: int| 0 <= j < i ==> turn_ok(#[trigger] turns@[j]),
            ({
                let st = chunk_run(turns@, options, i as int);
                &&& chunk_views(chunks@) == st.closed
                &&& text@ == st.text
                &&& count == st.count
                &&& chunk_start == st.start
                &&& bytes == st.bytes
            }),
            forall|k: int| 0 <= k < chunks@.len() ==> (#[trigger] chunks@[k]).index == k,
            count <= i,
            chunk_start <= i,
        decreases turns@.len() - i,
    {
        let role = trim_chars(&chars_of(turns[i].role.as_str()), TrimKind::Whitespace);
        let content = trim_chars(&chars_of(turns[i].content.as_str()), TrimKind::Whitespace);
        if role.len() == 0 || content.len() == 0 {
            let mut m = string_from("session turn ");
            push_decimal_str(&mut m, i as u64);
            push_str(&mut m, " requires non-empty role and content");
            proof {
                assert(first_bad_turn(turns@, i as int));
                assert forall|q: int| #[trigger] first_bad_turn(turns@, q) implies q == i by {
                    if q < i {
                    } else if q > i {
                        assert(turn_ok(turns@[i as int]));
                    }
                }
            }
            return Err(MgeError::InvalidInput(m));
        }
        let mut line: Vec<char> = Vec::new();
        crate::text::extend_chars(&mut line, &role);
        line.push(':');
        line.push(' ');
        crate::text::extend_chars(&mut line, &content);
        proof {
            reveal_strlit(": ");
            assert(line@ =~= turn_line(turns@[i as int]));
        }
        let line_bytes = utf8_length(&line);
        let sep: usize = if count > 0 {
            1
        } else {
            0
        };
        let exceeds = count >= options.max_turns || bytes.saturating_add(sep).saturating_add(line_bytes)
            > options.max_bytes;
        if count > 0 && exceeds {
            let index = chunks.len();
            let done = string_from_chars(&text);
            let ghost before = chunks@;
            chunks.push(SessionChunk { index, start_turn: chunk_start, end_turn: i, text: done });
            proof {
                assert(chunk_views(chunks@) =~= chunk_views(before).push(
                    (chunk_start as nat, i as nat, text@),
                ));
            }
            text = Vec::new();
            count = 0;
            bytes = 0;
            chunk_start = i;
        }
        if count > 0 {
            bytes = bytes.saturating_add(1);
            text.push('\n');
        }
        bytes = bytes.saturating_add(line_bytes);
        crate::text::extend_chars(&mut text, &line);
        count += 1;
        proof {
            let st = chunk_run(turns@, options, i + 1);
            assert(text@ =~= st.text);
        }
        i += 1;
    }
    if count > 0 {
        let index = chunks.len();
        let done = string_from_chars(&text);
        let ghost before = chunks@;
        chunks.push(SessionChunk { index, start_turn: chunk_start, end_turn: turns.len(), text: done });
        proof {
            assert(chunk_views(chunks@) =~= chunk_views(before).push(
                (chunk_start as nat, turns@.len() as nat, text@),
            ));
        }
    }
    proof {
        assert forall|q: int| !#[trigger] first_bad_turn(turns@, q) by {}
    }
    Ok(chunks)
}


/// The chunk state after `n >= 1` lines: the open chunk holds the last
/// `count >= 1` lines, starting at `start`; the closed chunks are non-empty,
/// consecutive, start at line 0 and end where the open chunk starts.
pub open spec fn chunk_state_ok(st: ChunkState, n: int) -> bool {
    &&& st.count >= 1
    &&& st.start + st.count == n
    &&& (st.closed.len() == 0 ==> st.start == 0)
    &&& (st.closed.len() > 0 ==> st.closed[0].0 == 0 && st.closed.last().1 == st.start)
    &&& forall|k: int| 0 <= k < st.closed.len() ==> (#[trigger] st.closed[k]).0 < st.closed[k].1
    &&& forall|k: int|
        0 <= k < st.closed.len() - 1 ==> (#[trigger] st.closed[k]).1 == st.closed[k + 1].0
}

proof fn lemma_chunk_run_ok(lines: Seq<Seq<char>>, options: SessionChunkOptions, n: int)
    requires
        1 <= n <= lines.len(),
    ensures
        chunk_state_ok(line_chunk_run(lines, options, n), n),
    decreases n,
{
    if n > 1 {
        lemma_chunk_run_ok(lines, options, n - 1);
        let st = line_chunk_run(lines, options, n - 1);
        let next = line_chunk_run(lines, options, n);
        assert(st.count > 0);
        let line = lines[n - 1];
        let exceeds = st.count >= options.max_turns || sat_add(sat_add(st.bytes, 1), utf8_len(line) as int)
            > options.max_bytes;
        if exceeds {
            let c = st.closed.push((st.start, (n - 1) as nat, st.text));
            assert(next.closed == c);
            assert(next.start == n - 1);
            assert(next.count == 1);
            assert forall|k: int| 0 <= k < c.len() - 1 implies (#[trigger] c[k]).1 == c[k + 1].0 by {
                if k < c.len() - 2 {
                    assert(c[k] == st.closed[k]);
                    assert(c[k + 1] == st.closed[k + 1]);
                } else {
                    assert(c[k] == st.closed.last());
                }
            }
            assert forall|k: int| 0 <= k < c.len() implies (#[trigger] c[k]).0 < c[k].1 by {
                if k < c.len() - 1 {
                    assert(c[k] == st.closed[k]);
                }
            }
            if st.closed.len() > 0 {
                assert(c[0] == st.closed[0]);
            }
        } else {
            assert(next.closed == st.closed);
            assert(next.start == st.start);
            assert(next.count == st.count + 1);
        }
    } else {
        let next = line_chunk_run(lines, options, n);
        assert(line_chunk_run(lines, options, 0).count == 0);
        assert(next.count == 1);
        assert(next.start == 0);
        assert(next.closed.len() == 0);
    }
}

/// The chunks of a well-formed session cover its turns exactly, in order:
/// the first starts at turn 0, each ends where the next starts, the last
/// ends at the last turn, and none is empty.
pub proof fn law_chunks_partition_turns(turns: Seq<SessionTurn>, options: SessionChunkOptions)
    requires
        turns.len() > 0,
    ensures
        ({
            let c = session_chunks(turns, options);
            &&& c.len() >= 1
            &&& c[0].0 == 0
            &&& c.last().1 == turns.len()
            &&& forall|k: int| 0 <= k < c.len() ==> (#[trigger] c[k]).0 < c[k].1
            &&& forall|k: int| 0 <= k < c.len() - 1 ==> (#[trigger] c[k]).1 == c[k + 1].0
        }),
{
    let lines = turn_lines(turns);
    lemma_chunk_run_ok(lines, options, turns.len() as int);
    let st = line_chunk_run(lines, options, turns.len() as int);
    let c = session_chunks(turns, options);
    assert(c == st.closed.push((st.start, turns.len(), st.text)));
    assert forall|k: int| 0 <= k < c.len() - 1 implies (#[trigger] c[k]).1 == c[k + 1].0 by {
        if k < c.len() - 2 {
            assert(c[k] == st.closed[k]);
            assert(c[k + 1] == st.closed[k + 1]);
        } else {
            assert(c[k] == st.closed.last());
        }
    }
    assert forall|k: int| 0 <= k < c.len() implies (#[trigger] c[k]).0 < c[k].1 by {
        if k < c.len() - 1 {
            assert(c[k] == st.closed[k]);
        }
    }
    if st.closed.len() > 0 {
        assert(c[0] == st.closed[0]);
    }
}


/// Lines `a` up to `b` joined with newlines.
pub open spec fn joined_lines(lines: Seq<Seq<char>>, a: int, b: int) -> Seq<char>
    decreases b - a,
{
    if b <= a {
        Seq::empty()
    } else if b == a + 1 {
        lines[a]
    } else {
        joined_lines(lines, a, b - 1) + seq!['\n'] + lines[b - 1]
    }
}

/// The bound on the turns of one chunk: `max_turns`, but a chunk always
/// holds at least one turn.
pub open spec fn turn_bound(options: SessionChunkOptions) -> int {
    if options.max_turns == 0 {
        1
    } else {
        options.max_turns as int
    }
}

/// The byte count of a text as a chunk counts it, saturating at `usize::MAX`.
pub open spec fn counted_bytes(text: Seq<char>) -> int {
    if utf8_len(text) > usize::MAX {
        usize::MAX as int
    } else {
        utf8_len(text) as int
    }
}

/// A chunk `(start, end, text)` of `lines` is their lines joined, holds at most
/// `turn_bound` turns, and, when it holds more than one, at most `max_bytes`
/// counted bytes.
pub open spec fn chunk_fits(lines: Seq<Seq<char>>, options: SessionChunkOptions, c: (nat, nat, Seq<char>)) -> bool {
    &&& c.2 == joined_lines(lines, c.0 as int, c.1 as int)
    &&& c.1 - c.0 <= turn_bound(options)
    &&& (c.1 - c.0 >= 2 ==> counted_bytes(c.2) <= options.max_bytes)
}

proof fn lemma_utf8_len_concat(a: Seq<char>, b: Seq<char>)
    ensures
        utf8_len(a + b) == utf8_len(a) + utf8_len(b),
    decreases b.len(),
{
    if b.len() == 0 {
        assert(a + b =~= a);
    } else {
        lemma_utf8_len_concat(a, b.drop_last());
        assert((a + b).drop_last() =~= a + b.drop_last());
    }
}

proof fn lemma_chunk_run_fits(lines: Seq<Seq<char>>, options: SessionChunkOptions, n: int)
    requires
        1 <= n <= lines.len(),
    ensures
        ({
            let st = line_chunk_run(lines, options, n);
            &&& chunk_fits(lines, options, (st.start, n as nat, st.text))
            &&& st.bytes == counted_bytes(st.text)
            &&& forall|k: int| 0 <= k < st.closed.len() ==> chunk_fits(lines, options, #[trigger] st.closed[k])
        }),
    decreases n,
{
    lemma_chunk_run_ok(lines, options, n);
    let next = line_chunk_run(lines, options, n);
    let line = lines[n - 1];
    assert(utf8_len(seq!['\n']) == 1) by {
        let nl = seq!['\n'];
        assert(nl.drop_last() =~= Seq::<char>::empty());
        assert(utf8_len(nl.drop_last()) == 0);
        assert(nl.last() == '\n');
        assert(('\n' as u32) < 0x80);
    }
    if n == 1 {
        let st = line_chunk_run(lines, options, 0);
        assert(next.text == line);
        assert(joined_lines(lines, 0, 1) == lines[0]);
        assert(next.closed.len() == 0);
    } else {
        lemma_chunk_run_fits(lines, options, n - 1);
        lemma_chunk_run_ok(lines, options, n - 1);
        let st = line_chunk_run(lines, options, n - 1);
        let exceeds = st.count >= options.max_turns || sat_add(sat_add(st.bytes, 1), utf8_len(line) as int)
            > options.max_bytes;
        if exceeds {
            let c = st.closed.push((st.start, (n - 1) as nat, st.text));
            assert(next.closed == c);
            assert(chunk_fits(lines, options, (st.start, (n - 1) as nat, st.text)));
            assert forall|k: int| 0 <= k < c.len() implies chunk_fits(lines, options, #[trigger] c[k]) by {
                if k < c.len() - 1 {
                    assert(c[k] == st.closed[k]);
                }
            }
            assert(next.text == line);
            assert(joined_lines(lines, n - 1, n) == lines[n - 1]);
        } else {
            assert(next.closed == st.closed);
            assert(next.text == st.text + seq!['\n'] + line);
            assert(joined_lines(lines, st.start as int, n) == joined_lines(lines, st.start as int, n - 1)
                + seq!['\n'] + lines[n - 1]);
            lemma_utf8_len_concat(st.text, seq!['\n']);
            lemma_utf8_len_concat(st.text + seq!['\n'], line);
        }
    }
}

/// Each chunk of a well-formed session is its turns' lines joined with
/// newlines, holds at most `max_turns` turns (at least one), and, when it
/// holds more than one turn, at most `max_bytes` counted bytes.
pub proof fn law_chunks_join_turn_lines(turns: Seq<SessionTurn>, options: SessionChunkOptions)
    requires
        turns.len() > 0,
    ensures
        forall|k: int| 0 <= k < session_chunks(turns, options).len() ==> chunk_fits(
            turn_lines(turns),
            options,
            #[trigger] session_chunks(turns, options)[k],
        ),
{
    let lines = turn_lines(turns);
    lemma_chunk_run_fits(lines, options, turns.len() as int);
    lemma_chunk_run_ok(lines, options, turns.len() as int);
    let st = line_chunk_run(lines, options, turns.len() as int);
    let c = session_chunks(turns, options);
    assert(c == st.closed.push((st.start, turns.len(), st.text)));
    assert forall|k: int| 0 <= k < c.len() implies chunk_fits(lines, options, #[trigger] c[k]) by {
        if k < c.len() - 1 {
            assert(c[k] == st.closed[k]);
        }
    }
}


/// The number of turns of the chunks together.
pub open spec fn chunk_turn_total(cs: Seq<(nat, nat, Seq<char>)>) -> int
    decreases cs.len(),
{
    if cs.len() == 0 {
        0
    } else {
        chunk_turn_total(cs.drop_last()) + (cs.last().1 - cs.last().0)
    }
}

proof fn lemma_contiguous_total(cs: Seq<(nat, nat, Seq<char>)>)
    requires
        cs.len() > 0,
        forall|k: int| 0 <= k < cs.len() - 1 ==> (#[trigger] cs[k]).1 == cs[k + 1].0,
    ensures
        chunk_turn_total(cs) == cs.last().1 - cs[0].0,
    decreases cs.len(),
{
    if cs.len() > 1 {
        let d = cs.drop_last();
        assert forall|k: int| 0 <= k < d.len() - 1 implies (#[trigger] d[k]).1 == d[k + 1].0 by {
            assert(d[k] == cs[k] && d[k + 1] == cs[k + 1]);
        }
        lemma_contiguous_total(d);
        assert(d.last() == cs[cs.len() - 2]);
        assert(d[0] == cs[0]);
        assert(cs[cs.len() - 2].1 == cs[cs.len() - 1].0);
    } else {
        assert(cs.drop_last().len() == 0);
        assert(chunk_turn_total(cs.drop_last()) == 0);
        assert(cs.last() == cs[0]);
    }
}

/// The turn counts of a well-formed session's chunks add up to its number of
/// turns, and each chunk holds at least one turn.
pub proof fn law_chunk_turns_add_up(turns: Seq<SessionTurn>, options: SessionChunkOptions)
    requires
        turns.len() > 0,
    ensures
        chunk_turn_total(session_chunks(turns, options)) == turns.len(),
        forall|k: int| 0 <= k < session_chunks(turns, options).len() ==> 1 <= (#[trigger] session_chunks(
            turns,
            options,
        )[k]).1 - session_chunks(turns, options)[k].0,
{
    law_chunks_partition_turns(turns, options);
    lemma_contiguous_total(session_chunks(turns, options));
}
} // verus!

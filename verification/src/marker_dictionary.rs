//! The marker dictionary: a two-way mapping between canonical marker strings and
//! compact numeric marker ids.
use vstd::prelude::*;
use crate::errors::MgeError;
use crate::markers::{canonical_marker, canonical_marker_chars};
use crate::models::MarkerId;
use crate::text::{
    chars_eq, chars_lt, chars_of, decimal, lemma_seq_lt_asymmetric, lemma_seq_lt_irreflexive,
    lemma_seq_lt_total, lemma_seq_lt_transitive, push_chars, push_decimal_str, push_str, seq_lt,
    string_from, string_from_chars,
};

verus! {

/// One dictionary entry as shown by `debug_view`.
pub struct MarkerDebugEntry {
    pub id: MarkerId,
    pub marker: String,
}

/// Marker strings and their ids. `marker_to_id` is ordered by marker text and
/// `id_to_marker` by id, each without repeated keys, as the ordered maps that
/// the dictionary is persisted as. The two directions are kept separately so
/// that a dictionary read from storage can be checked for disagreement.
pub struct MarkerDictionary {
    marker_to_id: Vec<(String, MarkerId)>,
    id_to_marker: Vec<(MarkerId, String)>,
    next_id: MarkerId,
}

/// Abstract state of a marker dictionary.
pub struct DictionaryView {
    pub forward: Map<Seq<char>, MarkerId>,
    pub reverse: Map<MarkerId, Seq<char>>,
    pub next_id: MarkerId,
}

pub open spec fn forward_pairs(v: Seq<(String, MarkerId)>) -> Seq<(Seq<char>, MarkerId)> {
    v.map_values(|p: (String, MarkerId)| (p.0@, p.1))
}

pub open spec fn reverse_pairs(v: Seq<(MarkerId, String)>) -> Seq<(MarkerId, Seq<char>)> {
    v.map_values(|p: (MarkerId, String)| (p.0, p.1@))
}

pub open spec fn forward_sorted(s: Seq<(Seq<char>, MarkerId)>) -> bool {
    forall|i: int, j: int| 0 <= i < j < s.len() ==> seq_lt(#[trigger] s[i].0, #[trigger] s[j].0)
}

pub open spec fn reverse_sorted(s: Seq<(MarkerId, Seq<char>)>) -> bool {
    forall|i: int, j: int| 0 <= i < j < s.len() ==> #[trigger] s[i].0 < #[trigger] s[j].0
}

pub open spec fn forward_has(s: Seq<(Seq<char>, MarkerId)>, k: Seq<char>) -> bool {
    exists|i: int| 0 <= i < s.len() && #[trigger] s[i].0 == k
}

pub open spec fn forward_map(s: Seq<(Seq<char>, MarkerId)>) -> Map<Seq<char>, MarkerId> {
    Map::new(
        |k: Seq<char>| forward_has(s, k),
        |k: Seq<char>| s[choose|i: int| 0 <= i < s.len() && #[trigger] s[i].0 == k].1,
    )
}

pub open spec fn reverse_has(s: Seq<(MarkerId, Seq<char>)>, k: MarkerId) -> bool {
    exists|i: int| 0 <= i < s.len() && #[trigger] s[i].0 == k
}

pub open spec fn reverse_map(s: Seq<(MarkerId, Seq<char>)>) -> Map<MarkerId, Seq<char>> {
    Map::new(
        |k: MarkerId| reverse_has(s, k),
        |k: MarkerId| s[choose|i: int| 0 <= i < s.len() && #[trigger] s[i].0 == k].1,
    )
}

proof fn lemma_forward_lookup(s: Seq<(Seq<char>, MarkerId)>, i: int)
    requires
        forward_sorted(s),
        0 <= i < s.len(),
    ensures
        forward_map(s).contains_key(s[i].0),
        forward_map(s)[s[i].0] == s[i].1,
{
    assert(forward_has(s, s[i].0));
    let j = choose|j: int| 0 <= j < s.len() && #[trigger] s[j].0 == s[i].0;
    if j != i {
        if j < i {
            assert(seq_lt(s[j].0, s[i].0));
        } else {
            assert(seq_lt(s[i].0, s[j].0));
        }
        lemma_seq_lt_irreflexive(s[i].0);
    }
}

proof fn lemma_reverse_lookup(s: Seq<(MarkerId, Seq<char>)>, i: int)
    requires
        reverse_sorted(s),
        0 <= i < s.len(),
    ensures
        reverse_map(s).contains_key(s[i].0),
        reverse_map(s)[s[i].0] == s[i].1,
{
    assert(reverse_has(s, s[i].0));
    let j = choose|j: int| 0 <= j < s.len() && #[trigger] s[j].0 == s[i].0;
    if j != i {
        if j < i {
            assert(s[j].0 < s[i].0);
        } else {
            assert(s[i].0 < s[j].0);
        }
    }
}

proof fn lemma_forward_insert(s: Seq<(Seq<char>, MarkerId)>, j: int, k: Seq<char>, v: MarkerId)
    requires
        forward_sorted(s),
        0 <= j <= s.len(),
        forall|i: int| 0 <= i < j ==> seq_lt(#[trigger] s[i].0, k),
        forall|i: int| j <= i < s.len() ==> seq_lt(k, #[trigger] s[i].0),
    ensures
        forward_sorted(s.insert(j, (k, v))),
        forward_map(s.insert(j, (k, v))) == forward_map(s).insert(k, v),
{
    let t = s.insert(j, (k, v));
    assert forall|a: int, b: int| 0 <= a < b < t.len() implies seq_lt(
        #[trigger] t[a].0,
        #[trigger] t[b].0,
    ) by {
        if a < j && b < j {
        } else if a < j && b == j {
        } else if a < j && b > j {
            assert(t[b] == s[b - 1]);
            lemma_seq_lt_transitive(s[a].0, k, s[b - 1].0);
        } else if a == j {
            assert(t[b] == s[b - 1]);
        } else {
            assert(t[a] == s[a - 1]);
            assert(t[b] == s[b - 1]);
        }
    }
    let m1 = forward_map(t);
    let m2 = forward_map(s).insert(k, v);
    assert forall|x: Seq<char>| m1.contains_key(x) == m2.contains_key(x) by {
        if forward_has(t, x) {
            let i = choose|i: int| 0 <= i < t.len() && #[trigger] t[i].0 == x;
            if i < j {
                assert(s[i].0 == x);
            } else if i > j {
                assert(s[i - 1].0 == x);
            }
        }
        if forward_has(s, x) {
            let i = choose|i: int| 0 <= i < s.len() && #[trigger] s[i].0 == x;
            if i < j {
                assert(t[i].0 == x);
            } else {
                assert(t[i + 1].0 == x);
            }
        }
        if x == k {
            assert(t[j].0 == x);
        }
    }
    assert forall|x: Seq<char>| m1.contains_key(x) implies m1[x] == m2[x] by {
        let i = choose|i: int| 0 <= i < t.len() && #[trigger] t[i].0 == x;
        lemma_forward_lookup(t, i);
        if i < j {
            lemma_forward_lookup(s, i);
            lemma_seq_lt_irreflexive(k);
        } else if i > j {
            lemma_forward_lookup(s, i - 1);
            lemma_seq_lt_irreflexive(k);
        }
    }
    assert(m1 =~= m2);
}

proof fn lemma_reverse_insert(s: Seq<(MarkerId, Seq<char>)>, j: int, k: MarkerId, v: Seq<char>)
    requires
        reverse_sorted(s),
        0 <= j <= s.len(),
        forall|i: int| 0 <= i < j ==> #[trigger] s[i].0 < k,
        forall|i: int| j <= i < s.len() ==> k < #[trigger] s[i].0,
    ensures
        reverse_sorted(s.insert(j, (k, v))),
        reverse_map(s.insert(j, (k, v))) == reverse_map(s).insert(k, v),
{
    let t = s.insert(j, (k, v));
    assert forall|a: int, b: int| 0 <= a < b < t.len() implies #[trigger] t[a].0
        < #[trigger] t[b].0 by {
        if a < j && b > j {
            assert(t[b] == s[b - 1]);
        } else if a == j {
            assert(t[b] == s[b - 1]);
        } else if a > j {
            assert(t[a] == s[a - 1]);
            assert(t[b] == s[b - 1]);
        }
    }
    let m1 = reverse_map(t);
    let m2 = reverse_map(s).insert(k, v);
    assert forall|x: MarkerId| m1.contains_key(x) == m2.contains_key(x) by {
        if reverse_has(t, x) {
            let i = choose|i: int| 0 <= i < t.len() && #[trigger] t[i].0 == x;
            if i < j {
                assert(s[i].0 == x);
            } else if i > j {
                assert(s[i - 1].0 == x);
            }
        }
        if reverse_has(s, x) {
            let i = choose|i: int| 0 <= i < s.len() && #[trigger] s[i].0 == x;
            if i < j {
                assert(t[i].0 == x);
            } else {
                assert(t[i + 1].0 == x);
            }
        }
        if x == k {
            assert(t[j].0 == x);
        }
    }
    assert forall|x: MarkerId| m1.contains_key(x) implies m1[x] == m2[x] by {
        let i = choose|i: int| 0 <= i < t.len() && #[trigger] t[i].0 == x;
        lemma_reverse_lookup(t, i);
        if i < j {
            lemma_reverse_lookup(s, i);
        } else if i > j {
            lemma_reverse_lookup(s, i - 1);
        }
    }
    assert(m1 =~= m2);
}

proof fn lemma_reverse_replace(s: Seq<(MarkerId, Seq<char>)>, j: int, v: Seq<char>)
    requires
        reverse_sorted(s),
        0 <= j < s.len(),
    ensures
        reverse_sorted(s.update(j, (s[j].0, v))),
        reverse_map(s.update(j, (s[j].0, v))) == reverse_map(s).insert(s[j].0, v),
{
    let t = s.update(j, (s[j].0, v));
    let k = s[j].0;
    let m1 = reverse_map(t);
    let m2 = reverse_map(s).insert(k, v);
    assert forall|x: MarkerId| m1.contains_key(x) == m2.contains_key(x) by {
        if reverse_has(t, x) {
            let i = choose|i: int| 0 <= i < t.len() && #[trigger] t[i].0 == x;
            assert(s[i].0 == x);
        }
        if reverse_has(s, x) {
            let i = choose|i: int| 0 <= i < s.len() && #[trigger] s[i].0 == x;
            assert(t[i].0 == x);
        }
    }
    assert forall|x: MarkerId| m1.contains_key(x) implies m1[x] == m2[x] by {
        let i = choose|i: int| 0 <= i < t.len() && #[trigger] t[i].0 == x;
        lemma_reverse_lookup(t, i);
        if i != j {
            lemma_reverse_lookup(s, i);
        }
    }
    assert(m1 =~= m2);
}

/// The dictionary state after `get_or_insert` of the canonical marker `c`, and
/// the id it answers (`None` when the id space is exhausted).
pub open spec fn dictionary_insert(d: DictionaryView, c: Seq<char>) -> (DictionaryView, Option<
    MarkerId,
>) {
    if d.forward.contains_key(c) {
        (d, Some(d.forward[c]))
    } else if d.next_id == u32::MAX {
        (d, None)
    } else {
        (
            DictionaryView {
                forward: d.forward.insert(c, d.next_id),
                reverse: d.reverse.insert(d.next_id, c),
                next_id: (d.next_id + 1) as MarkerId,
            },
            Some(d.next_id),
        )
    }
}

/// The two directions agree, every id is non-zero and below `next_id`.
pub open spec fn ids_consistent(d: DictionaryView) -> bool {
    &&& forall|m: Seq<char>| #[trigger]
        d.forward.contains_key(m) ==> d.reverse.contains_key(d.forward[m]) && d.reverse[d.forward[m]]
            == m
    &&& forall|id: MarkerId| #[trigger]
        d.reverse.contains_key(id) ==> d.forward.contains_key(d.reverse[id]) && d.forward[d.reverse[id]]
            == id
    &&& forall|m: Seq<char>| #[trigger]
        d.forward.contains_key(m) ==> 0 < d.forward[m] < d.next_id
    &&& forall|id: MarkerId| #[trigger] d.reverse.contains_key(id) ==> 0 < id < d.next_id
}

/// The state every dictionary built by insertions is in: both directions
/// agree, the ids in use are exactly 1 up to `next_id`, and every marker is
/// its own canonical form.
pub open spec fn sound_view(d: DictionaryView) -> bool {
    &&& ids_consistent(d)
    &&& d.next_id >= 1
    &&& forall|k: MarkerId| #[trigger] d.reverse.contains_key(k) <==> 1 <= k < d.next_id
    &&& forall|m: Seq<char>| #[trigger] d.forward.contains_key(m) ==> canonical_marker(m) == Some(m)
}

/// Inserting a canonical marker keeps a dictionary sound.
pub proof fn law_insert_keeps_soundness(d: DictionaryView, c: Seq<char>)
    requires
        sound_view(d),
        canonical_marker(c) == Some(c),
    ensures
        sound_view(dictionary_insert(d, c).0),
        dictionary_insert(d, c).1 matches Some(id) ==> dictionary_insert(d, c).0.reverse.contains_key(id)
            && dictionary_insert(d, c).0.reverse[id] == c,
{
    law_insert_keeps_consistency(d, c);
    let d1 = dictionary_insert(d, c).0;
    assert forall|k: MarkerId| #[trigger] d1.reverse.contains_key(k) <==> 1 <= k < d1.next_id by {
        assert(d.reverse.contains_key(k) <==> 1 <= k < d.next_id);
    }
}

/// Inserting a marker twice gives the same id and leaves the dictionary as the
/// first insertion left it.
pub proof fn law_insert_is_idempotent(d: DictionaryView, c: Seq<char>)
    ensures
        ({
            let (d1, id1) = dictionary_insert(d, c);
            let (d2, id2) = dictionary_insert(d1, c);
            id1 is Some ==> id2 == id1 && d2 == d1
        }),
{
}

/// In a consistent dictionary, distinct markers get distinct ids, and the
/// reverse direction maps the answered id back to the marker.
pub proof fn law_insert_ids_are_distinct(d: DictionaryView, a: Seq<char>, b: Seq<char>)
    requires
        ids_consistent(d),
        a != b,
    ensures
        ({
            let (d1, ia) = dictionary_insert(d, a);
            let (d2, ib) = dictionary_insert(d1, b);
            ia is Some && ib is Some ==> ia != ib && d2.reverse[ia->0] == a && d2.reverse[ib->0] == b
        }),
{
}

/// Insertion keeps a consistent dictionary consistent (given a non-zero next id,
/// which every dictionary this library creates or loads has).
pub proof fn law_insert_keeps_consistency(d: DictionaryView, c: Seq<char>)
    requires
        ids_consistent(d),
        d.next_id > 0,
    ensures
        ids_consistent(dictionary_insert(d, c).0),
{
    let (d1, _) = dictionary_insert(d, c);
    if !d.forward.contains_key(c) && d.next_id != u32::MAX {
        assert(!d.reverse.contains_key(d.next_id));
        assert forall|m: Seq<char>| #[trigger] d1.forward.contains_key(m) implies d1.reverse.contains_key(
            d1.forward[m],
        ) && d1.reverse[d1.forward[m]] == m by {
            if m != c {
                assert(d.forward[m] != d.next_id);
            }
        }
        assert forall|id: MarkerId| #[trigger] d1.reverse.contains_key(id) implies d1.forward.contains_key(
            d1.reverse[id],
        ) && d1.forward[d1.reverse[id]] == id by {
            if id != d.next_id {
                assert(d.reverse[id] != c);
            }
        }
        assert forall|m: Seq<char>| #[trigger] d1.forward.contains_key(m) implies 0 < d1.forward[m]
            < d1.next_id by {
            if m != c {
                assert(d.forward[m] < d.next_id);
            }
        }
        assert forall|id: MarkerId| #[trigger] d1.reverse.contains_key(id) implies 0 < id
            < d1.next_id by {
            if id != d.next_id {
                assert(id < d.next_id);
            }
        }
    }
}

impl MarkerDictionary {
    pub closed spec fn forward_seq(&self) -> Seq<(Seq<char>, MarkerId)> {
        forward_pairs(self.marker_to_id@)
    }

    pub closed spec fn reverse_seq(&self) -> Seq<(MarkerId, Seq<char>)> {
        reverse_pairs(self.id_to_marker@)
    }

    pub closed spec fn view(&self) -> DictionaryView {
        DictionaryView {
            forward: forward_map(self.forward_seq()),
            reverse: reverse_map(self.reverse_seq()),
            next_id: self.next_id,
        }
    }

    /// Both directions are ordered by key without repetition.
    pub closed spec fn wf(&self) -> bool {
        forward_sorted(self.forward_seq()) && reverse_sorted(self.reverse_seq())
    }

    /// Well formed and sound (see `sound_view`): what `new` gives and
    /// `get_or_insert` keeps.
    pub open spec fn sound(&self) -> bool {
        self.wf() && sound_view(self.view())
    }

    /// An empty dictionary whose first id is 1.
    pub fn new() -> (d: Self)
        ensures
            d.wf(),
            d.view().forward == Map::<Seq<char>, MarkerId>::empty(),
            d.view().reverse == Map::<MarkerId, Seq<char>>::empty(),
            d.view().next_id == 1,
            d.sound(),
    {
        let d = MarkerDictionary { marker_to_id: Vec::new(), id_to_marker: Vec::new(), next_id: 1 };
        proof {
            assert(d.view().forward =~= Map::<Seq<char>, MarkerId>::empty());
            assert(d.view().reverse =~= Map::<MarkerId, Seq<char>>::empty());
        }
        d
    }

    /// Builds a dictionary from its persisted parts: `marker_to_id` ordered by
    /// marker text and `id_to_marker` ordered by id, each without repeated keys.
    pub fn from_parts(
        marker_to_id: Vec<(String, MarkerId)>,
        id_to_marker: Vec<(MarkerId, String)>,
        next_id: MarkerId,
    ) -> (d: Self)
        requires
            forward_sorted(forward_pairs(marker_to_id@)),
            reverse_sorted(reverse_pairs(id_to_marker@)),
        ensures
            d.wf(),
            d.forward_seq() == forward_pairs(marker_to_id@),
            d.reverse_seq() == reverse_pairs(id_to_marker@),
            d.view().next_id == next_id,
    {
        MarkerDictionary { marker_to_id, id_to_marker, next_id }
    }

    /// The persisted parts: `(marker_to_id, id_to_marker, next_id)`.
    pub fn to_parts(&self) -> (r: (Vec<(String, MarkerId)>, Vec<(MarkerId, String)>, MarkerId))
        ensures
            forward_pairs(r.0@) == self.forward_seq(),
            reverse_pairs(r.1@) == self.reverse_seq(),
            r.2 == self.view().next_id,
    {
        let mut fwd: Vec<(String, MarkerId)> = Vec::new();
        let mut i: usize = 0;
        while i < self.marker_to_id.len()
            invariant
                i <= self.marker_to_id.len(),
                fwd@.len() == i,
                forall|k: int| 0 <= k < i ==> (#[trigger] fwd@[k]).0@ == self.marker_to_id@[k].0@
                    && fwd@[k].1 == self.marker_to_id@[k].1,
            decreases self.marker_to_id.len() - i,
        {
            let s = string_from(self.marker_to_id[i].0.as_str());
            fwd.push((s, self.marker_to_id[i].1));
            i += 1;
        }
        let mut rev: Vec<(MarkerId, String)> = Vec::new();
        let mut j: usize = 0;
        while j < self.id_to_marker.len()
            invariant
                j <= self.id_to_marker.len(),
                rev@.len() == j,
                forall|k: int| 0 <= k < j ==> (#[trigger] rev@[k]).1@ == self.id_to_marker@[k].1@
                    && rev@[k].0 == self.id_to_marker@[k].0,
            decreases self.id_to_marker.len() - j,
        {
            let s = string_from(self.id_to_marker[j].1.as_str());
            rev.push((self.id_to_marker[j].0, s));
            j += 1;
        }
        proof {
            assert(forward_pairs(fwd@) =~= forward_pairs(self.marker_to_id@));
            assert(reverse_pairs(rev@) =~= reverse_pairs(self.id_to_marker@));
        }
        (fwd, rev, self.next_id)
    }

    /// Number of markers (entries of the marker-to-id direction).
    pub fn len(&self) -> (n: usize)
        requires
            self.wf(),
        ensures
            n == self.view().forward.len(),
            self.view().forward.dom().finite(),
            self.sound() ==> n == self.view().next_id - 1,
    {
        proof {
            self.lemma_forward_len();
            if self.sound() {
                law_sound_dictionary(*self);
            }
        }
        self.marker_to_id.len()
    }

    proof fn lemma_forward_len(&self)
        requires
            self.wf(),
        ensures
            self.view().forward.dom().finite(),
            self.view().forward.len() == self.marker_to_id@.len(),
        decreases self.marker_to_id@.len(),
    {
        let s = self.forward_seq();
        let keys = s.map_values(|p: (Seq<char>, MarkerId)| p.0);
        assert forall|i: int, j: int| 0 <= i < j < keys.len() implies keys[i] != keys[j] by {
            assert(seq_lt(s[i].0, s[j].0));
            lemma_seq_lt_irreflexive(s[i].0);
        }
        assert(keys.no_duplicates());
        assert(self.view().forward.dom() =~= keys.to_set()) by {
            assert forall|k: Seq<char>| self.view().forward.dom().contains(k) implies keys.to_set().contains(k) by {
                let i = choose|i: int| 0 <= i < s.len() && #[trigger] s[i].0 == k;
                assert(keys[i] == k);
            }
            assert forall|k: Seq<char>| keys.to_set().contains(k) implies self.view().forward.dom().contains(k) by {
                let i = choose|i: int| 0 <= i < keys.len() && keys[i] == k;
                assert(s[i].0 == k);
            }
        }
        keys.unique_seq_to_set();
    }

    pub fn is_empty(&self) -> (b: bool)
        requires
            self.wf(),
        ensures
            b == (self.view().forward.len() == 0),
    {
        proof {
            self.lemma_forward_len();
        }
        self.marker_to_id.len() == 0
    }

    /// Position of canonical marker `c` in the marker-to-id direction.
    fn find_forward(&self, c: &Vec<char>) -> (r: Option<usize>)
        requires
            self.wf(),
        ensures
            match r {
                Some(i) => i < self.forward_seq().len() && self.forward_seq()[i as int].0 == c@,
                None => !self.view().forward.contains_key(c@),
            },
    {
        let mut i: usize = 0;
        while i < self.marker_to_id.len()
            invariant
                i <= self.marker_to_id.len(),
                forall|k: int| 0 <= k < i ==> self.forward_seq()[k].0 != c@,
            decreases self.marker_to_id.len() - i,
        {
            let m = chars_of(self.marker_to_id[i].0.as_str());
            if chars_eq(&m, c) {
                return Some(i);
            }
            i += 1;
        }
        proof {
            if self.view().forward.contains_key(c@) {
                let s = self.forward_seq();
                let k = choose|k: int| 0 <= k < s.len() && #[trigger] s[k].0 == c@;
                assert(s[k].0 != c@);
            }
        }
        None
    }

    /// Position of `id` in the id-to-marker direction.
    fn find_reverse(&self, id: MarkerId) -> (r: Option<usize>)
        requires
            self.wf(),
        ensures
            match r {
                Some(i) => i < self.reverse_seq().len() && self.reverse_seq()[i as int].0 == id,
                None => !self.view().reverse.contains_key(id),
            },
    {
        let mut i: usize = 0;
        while i < self.id_to_marker.len()
            invariant
                i <= self.id_to_marker.len(),
                forall|k: int| 0 <= k < i ==> self.reverse_seq()[k].0 != id,
            decreases self.id_to_marker.len() - i,
        {
            if self.id_to_marker[i].0 == id {
                proof {
                    assert(self.reverse_seq()[i as int].0 == id);
                }
                return Some(i);
            }
            proof {
                assert(self.reverse_seq()[i as int].0 == self.id_to_marker@[i as int].0);
            }
            i += 1;
        }
        proof {
            if self.view().reverse.contains_key(id) {
                let s = self.reverse_seq();
                let k = choose|k: int| 0 <= k < s.len() && #[trigger] s[k].0 == id;
                assert(s[k].0 != id);
            }
        }
        None
    }

    fn insert_forward(&mut self, c: &Vec<char>, id: MarkerId)
        requires
            old(self).wf(),
            !old(self).view().forward.contains_key(c@),
        ensures
            final(self).wf(),
            final(self).view().forward == old(self).view().forward.insert(c@, id),
            final(self).view().reverse == old(self).view().reverse,
            final(self).view().next_id == old(self).view().next_id,
    {
        let mut j: usize = 0;
        let mut done = false;
        while !done && j < self.marker_to_id.len()
            invariant
                j <= self.marker_to_id.len(),
                self.wf(),
                self == old(self),
                forall|i: int| 0 <= i < j ==> seq_lt(#[trigger] self.forward_seq()[i].0, c@),
                done ==> j < self.marker_to_id.len() && !seq_lt(self.forward_seq()[j as int].0, c@),
            decreases (self.marker_to_id.len() - j) as int + (if done { 0int } else { 1int }),
        {
            let m = chars_of(self.marker_to_id[j].0.as_str());
            if chars_lt(&m, c) {
                j += 1;
            } else {
                done = true;
            }
        }
        proof {
            let s = self.forward_seq();
            assert forall|i: int| j <= i < s.len() implies seq_lt(c@, #[trigger] s[i].0) by {
                if !forward_has(s, c@) {
                    assert(s[i].0 != c@);
                }
                assert(s[i].0 != c@);
                lemma_seq_lt_total(c@, s[j as int].0);
                if i > j {
                    assert(seq_lt(s[j as int].0, s[i].0));
                    lemma_seq_lt_transitive(c@, s[j as int].0, s[i].0);
                }
            }
            lemma_forward_insert(s, j as int, c@, id);
        }
        let entry = (string_from_chars(c), id);
        self.marker_to_id.insert(j, entry);
        proof {
            assert(self.forward_seq() =~= old(self).forward_seq().insert(j as int, (c@, id)));
        }
    }

    fn insert_reverse(&mut self, id: MarkerId, c: &Vec<char>)
        requires
            old(self).wf(),
        ensures
            final(self).wf(),
            final(self).view().reverse == old(self).view().reverse.insert(id, c@),
            final(self).view().forward == old(self).view().forward,
            final(self).view().next_id == old(self).view().next_id,
    {
        let mut j: usize = 0;
        while j < self.id_to_marker.len() && self.id_to_marker[j].0 < id
            invariant
                j <= self.id_to_marker.len(),
                self.wf(),
                self == old(self),
                forall|i: int| 0 <= i < j ==> #[trigger] self.reverse_seq()[i].0 < id,
            decreases self.id_to_marker.len() - j,
        {
            proof {
                assert(self.reverse_seq()[j as int].0 == self.id_to_marker@[j as int].0);
            }
            j += 1;
        }
        let value = string_from_chars(c);
        if j < self.id_to_marker.len() && self.id_to_marker[j].0 == id {
            proof {
                lemma_reverse_replace(self.reverse_seq(), j as int, c@);
            }
            self.id_to_marker.set(j, (id, value));
            proof {
                assert(self.reverse_seq() =~= old(self).reverse_seq().update(j as int, (id, c@)));
            }
        } else {
            proof {
                let s = self.reverse_seq();
                if j < s.len() {
                    assert(s[j as int].0 == self.id_to_marker@[j as int].0);
                }
                assert forall|i: int| j <= i < s.len() implies id < #[trigger] s[i].0 by {
                    assert(s[j as int].0 == self.id_to_marker@[j as int].0);
                    if i > j {
                        assert(s[j as int].0 < s[i].0);
                    }
                }
                lemma_reverse_insert(s, j as int, id, c@);
            }
            self.id_to_marker.insert(j, (id, value));
            proof {
                assert(self.reverse_seq() =~= old(self).reverse_seq().insert(j as int, (id, c@)));
            }
        }
    }

    /// Id of `marker` after canonicalizing it, assigning the next free id when
    /// the marker is new. Fails with `InvalidMarker` for an invalid marker and
    /// with `InvalidInput` when the id space is exhausted; the dictionary is
    /// unchanged on failure.
    pub fn get_or_insert(&mut self, marker: &str) -> (r: Result<MarkerId, MgeError>)
        requires
            old(self).wf(),
        ensures
            final(self).wf(),
            match canonical_marker(marker@) {
                None => final(self).view() == old(self).view() && (r matches Err(
                    MgeError::InvalidMarker(m),
                ) && m@ == marker@),
                Some(c) => match dictionary_insert(old(self).view(), c) {
                    (d, Some(id)) => final(self).view() == d && r == Ok::<MarkerId, MgeError>(id),
                    (d, None) => final(self).view() == d && (r matches Err(
                        MgeError::InvalidInput(m),
                    ) && m@ == "marker id overflow"@),
                },
            },
            old(self).sound() ==> final(self).sound(),
            old(self).sound() ==> (r matches Ok(id) ==> final(self).view().reverse.contains_key(id)
                && Some(final(self).view().reverse[id]) == canonical_marker(marker@)),
    {
        let raw = chars_of(marker);
        let canonical = match canonical_marker_chars(&raw) {
            Some(c) => c,
            None => {
                return Err(MgeError::InvalidMarker(string_from(marker)));
            },
        };
        proof {
            if old(self).sound() {
                law_insert_keeps_soundness(old(self).view(), canonical@);
            }
        }
        if let Some(i) = self.find_forward(&canonical) {
            proof {
                lemma_forward_lookup(self.forward_seq(), i as int);
            }
            return Ok(self.marker_to_id[i].1);
        }
        let id = self.next_id;
        if id == u32::MAX {
            return Err(MgeError::InvalidInput(string_from("marker id overflow")));
        }
        self.next_id = id + 1;
        self.insert_forward(&canonical, id);
        self.insert_reverse(id, &canonical);
        Ok(id)
    }

    /// Id of the canonical form of `marker`, if present.
    pub fn lookup(&self, marker: &str) -> (r: Option<MarkerId>)
        requires
            self.wf(),
        ensures
            r == match canonical_marker(marker@) {
                Some(c) => if self.view().forward.contains_key(c) {
                    Some(self.view().forward[c])
                } else {
                    None
                },
                None => None,
            },
    {
        let raw = chars_of(marker);
        match canonical_marker_chars(&raw) {
            Some(c) => match self.find_forward(&c) {
                Some(i) => {
                    proof {
                        lemma_forward_lookup(self.forward_seq(), i as int);
                    }
                    Some(self.marker_to_id[i].1)
                },
                None => None,
            },
            None => None,
        }
    }

    /// Marker string stored for `id`, if any.
    pub fn marker(&self, id: MarkerId) -> (r: Option<&str>)
        requires
            self.wf(),
        ensures
            match r {
                Some(s) => self.view().reverse.contains_key(id) && s@ == self.view().reverse[id],
                None => !self.view().reverse.contains_key(id),
            },
    {
        match self.find_reverse(id) {
            Some(i) => {
                proof {
                    lemma_reverse_lookup(self.reverse_seq(), i as int);
                }
                Some(self.id_to_marker[i].1.as_str())
            },
            None => None,
        }
    }

    /// All entries of the id-to-marker direction, in id order.
    pub fn debug_view(&self) -> (out: Vec<MarkerDebugEntry>)
        ensures
            out@.len() == self.reverse_seq().len(),
            forall|k: int|
                0 <= k < out@.len() ==> (#[trigger] out@[k]).id == self.reverse_seq()[k].0
                    && out@[k].marker@ == self.reverse_seq()[k].1,
            self.wf() ==> forall|k: int| 0 <= k < out@.len() ==> self.view().reverse.contains_key(
                (#[trigger] out@[k]).id,
            ) && self.view().reverse[out@[k].id] == out@[k].marker@,
            self.wf() ==> forall|a: int, b: int| 0 <= a < b < out@.len() ==> (#[trigger] out@[a]).id
                < (#[trigger] out@[b]).id,
            self.sound() ==> out@.len() == self.view().next_id - 1,
    {
        proof {
            if self.wf() {
                assert forall|k: int| 0 <= k < self.reverse_seq().len() implies self.view().reverse.contains_key(
                    (#[trigger] self.reverse_seq()[k]).0,
                ) && self.view().reverse[self.reverse_seq()[k].0] == self.reverse_seq()[k].1 by {
                    lemma_reverse_lookup(self.reverse_seq(), k);
                }
            }
            if self.sound() {
                law_sound_dictionary(*self);
            }
        }
        let mut out: Vec<MarkerDebugEntry> = Vec::new();
        let mut i: usize = 0;
        while i < self.id_to_marker.len()
            invariant
                i <= self.id_to_marker.len(),
                out@.len() == i,
                forall|k: int|
                    0 <= k < i ==> (#[trigger] out@[k]).id == self.reverse_seq()[k].0
                        && out@[k].marker@ == self.reverse_seq()[k].1,
            decreases self.id_to_marker.len() - i,
        {
            let entry = MarkerDebugEntry {
                id: self.id_to_marker[i].0,
                marker: string_from(self.id_to_marker[i].1.as_str()),
            };
            out.push(entry);
            i += 1;
        }
        out
    }
}

// ---------------------------------------------------------------------------
// Consistency checking
// ---------------------------------------------------------------------------

pub open spec fn dec(n: int) -> Seq<char> {
    decimal(n as nat)
}

/// Problems of one marker-to-id entry `m -> id`.
pub open spec fn forward_entry_errors(d: DictionaryView, m: Seq<char>, id: MarkerId) -> Seq<
    Seq<char>,
> {
    let zero: Seq<Seq<char>> = if id == 0 {
        seq!["marker "@ + m + " uses invalid id 0"@]
    } else {
        Seq::empty()
    };
    let canon: Seq<Seq<char>> = match canonical_marker(m) {
        Some(c) => if c == m {
            Seq::empty()
        } else {
            seq!["marker "@ + m + " is not canonical; expected "@ + c]
        },
        None => seq!["marker "@ + m + " is invalid"@],
    };
    let rev: Seq<Seq<char>> = if d.reverse.contains_key(id) {
        if d.reverse[id] == m {
            Seq::empty()
        } else {
            seq![
                "marker_to_id "@ + m + "->"@ + dec(id as int) + " conflicts with id_to_marker "@
                    + dec(id as int) + "->"@ + d.reverse[id],
            ]
        }
    } else {
        seq!["marker_to_id "@ + m + "->"@ + dec(id as int) + " is missing reverse id_to_marker entry"@]
    };
    zero + canon + rev
}

/// Problems of one id-to-marker entry `id -> m`.
pub open spec fn reverse_entry_errors(d: DictionaryView, id: MarkerId, m: Seq<char>) -> Seq<
    Seq<char>,
> {
    let zero: Seq<Seq<char>> = if id == 0 {
        seq!["id_to_marker uses invalid id 0 for marker "@ + m]
    } else {
        Seq::empty()
    };
    let fwd: Seq<Seq<char>> = if d.forward.contains_key(m) {
        if d.forward[m] == id {
            Seq::empty()
        } else {
            seq![
                "id_to_marker "@ + dec(id as int) + "->"@ + m + " conflicts with marker_to_id "@ + m
                    + "->"@ + dec(d.forward[m] as int),
            ]
        }
    } else {
        seq!["id_to_marker "@ + dec(id as int) + "->"@ + m + " is missing forward marker_to_id entry"@]
    };
    zero + fwd
}

pub open spec fn forward_errors(d: DictionaryView, s: Seq<(Seq<char>, MarkerId)>) -> Seq<Seq<char>>
    decreases s.len(),
{
    if s.len() == 0 {
        Seq::empty()
    } else {
        forward_errors(d, s.drop_last()) + forward_entry_errors(d, s.last().0, s.last().1)
    }
}

pub open spec fn reverse_errors(d: DictionaryView, s: Seq<(MarkerId, Seq<char>)>) -> Seq<Seq<char>>
    decreases s.len(),
{
    if s.len() == 0 {
        Seq::empty()
    } else {
        reverse_errors(d, s.drop_last()) + reverse_entry_errors(d, s.last().0, s.last().1)
    }
}

/// Largest id named in either direction, 0 when there is none.
pub open spec fn max_marker_id(f: Seq<(Seq<char>, MarkerId)>, r: Seq<(MarkerId, Seq<char>)>) -> nat
    decreases f.len() + r.len(),
{
    if r.len() > 0 {
        let rest = max_marker_id(f, r.drop_last());
        if r.last().0 > rest {
            r.last().0 as nat
        } else {
            rest
        }
    } else if f.len() > 0 {
        let rest = max_marker_id(f.drop_last(), r);
        if f.last().1 > rest {
            f.last().1 as nat
        } else {
            rest
        }
    } else {
        0
    }
}

impl MarkerDictionary {
    /// The problems `consistency_errors` reports, in its order: every
    /// marker-to-id entry in marker order, every id-to-marker entry in id
    /// order, then the `next_id` bound.
    pub closed spec fn errors_spec(&self) -> Seq<Seq<char>> {
        let d = self.view();
        let max = max_marker_id(self.forward_seq(), self.reverse_seq());
        let tail: Seq<Seq<char>> = if max >= self.next_id {
            seq![
                "next_id "@ + dec(self.next_id as int) + " must be greater than max marker id "@
                    + dec(max as int),
            ]
        } else {
            Seq::empty()
        };
        forward_errors(d, self.forward_seq()) + reverse_errors(d, self.reverse_seq()) + tail
    }

    fn push_message(out: &mut Vec<String>, msg: String)
        ensures
            final(out)@.len() == old(out)@.len() + 1,
            forall|k: int| 0 <= k < old(out)@.len() ==> #[trigger] final(out)@[k] == old(out)@[k],
            final(out)@[old(out)@.len() as int]@ == msg@,
    {
        out.push(msg);
    }

    fn forward_entry_check(&self, out: &mut Vec<String>, i: usize)
        requires
            self.wf(),
            i < self.forward_seq().len(),
        ensures
            string_views_of(final(out)@) == string_views_of(old(out)@) + forward_entry_errors(
                self.view(),
                self.forward_seq()[i as int].0,
                self.forward_seq()[i as int].1,
            ),
    {
        let ghost start = string_views_of(out@);
        let m = chars_of(self.marker_to_id[i].0.as_str());
        let id = self.marker_to_id[i].1;
        let ghost d = self.view();
        proof {
            assert(m@ == self.forward_seq()[i as int].0);
        }
        let ghost e0: Seq<Seq<char>> = if id == 0 {
            seq!["marker "@ + m@ + " uses invalid id 0"@]
        } else {
            Seq::empty()
        };
        if id == 0 {
            let mut msg = string_from("marker ");
            push_chars(&mut msg, &m);
            push_str(&mut msg, " uses invalid id 0");
            Self::push_message(out, msg);
        }
        proof {
            assert(string_views_of(out@) =~= start + e0);
        }
        let ghost e1: Seq<Seq<char>> = match canonical_marker(m@) {
            Some(c) => if c == m@ {
                Seq::empty()
            } else {
                seq!["marker "@ + m@ + " is not canonical; expected "@ + c]
            },
            None => seq!["marker "@ + m@ + " is invalid"@],
        };
        match canonical_marker_chars(&m) {
            Some(c) => {
                if !chars_eq(&c, &m) {
                    let mut msg = string_from("marker ");
                    push_chars(&mut msg, &m);
                    push_str(&mut msg, " is not canonical; expected ");
                    push_chars(&mut msg, &c);
                    Self::push_message(out, msg);
                }
            },
            None => {
                let mut msg = string_from("marker ");
                push_chars(&mut msg, &m);
                push_str(&mut msg, " is invalid");
                Self::push_message(out, msg);
            },
        }
        proof {
            assert(string_views_of(out@) =~= start + e0 + e1);
        }
        let ghost e2: Seq<Seq<char>> = if d.reverse.contains_key(id) {
            if d.reverse[id] == m@ {
                Seq::empty()
            } else {
                seq![
                    "marker_to_id "@ + m@ + "->"@ + dec(id as int) + " conflicts with id_to_marker "@
                        + dec(id as int) + "->"@ + d.reverse[id],
                ]
            }
        } else {
            seq!["marker_to_id "@ + m@ + "->"@ + dec(id as int) + " is missing reverse id_to_marker entry"@]
        };
        match self.find_reverse(id) {
            Some(j) => {
                proof {
                    lemma_reverse_lookup(self.reverse_seq(), j as int);
                }
                let r = chars_of(self.id_to_marker[j].1.as_str());
                if !chars_eq(&r, &m) {
                    let mut msg = string_from("marker_to_id ");
                    push_chars(&mut msg, &m);
                    push_str(&mut msg, "->");
                    push_decimal_str(&mut msg, id as u64);
                    push_str(&mut msg, " conflicts with id_to_marker ");
                    push_decimal_str(&mut msg, id as u64);
                    push_str(&mut msg, "->");
                    push_chars(&mut msg, &r);
                    Self::push_message(out, msg);
                }
            },
            None => {
                let mut msg = string_from("marker_to_id ");
                push_chars(&mut msg, &m);
                push_str(&mut msg, "->");
                push_decimal_str(&mut msg, id as u64);
                push_str(&mut msg, " is missing reverse id_to_marker entry");
                Self::push_message(out, msg);
            },
        }
        proof {
            assert(string_views_of(out@) =~= start + e0 + e1 + e2);
            assert(e0 + e1 + e2 =~= forward_entry_errors(d, m@, id));
        }
    }

    fn reverse_entry_check(&self, out: &mut Vec<String>, i: usize)
        requires
            self.wf(),
            i < self.reverse_seq().len(),
        ensures
            string_views_of(final(out)@) == string_views_of(old(out)@) + reverse_entry_errors(
                self.view(),
                self.reverse_seq()[i as int].0,
                self.reverse_seq()[i as int].1,
            ),
    {
        let ghost start = string_views_of(out@);
        let m = chars_of(self.id_to_marker[i].1.as_str());
        let id = self.id_to_marker[i].0;
        let ghost d = self.view();
        proof {
            assert(m@ == self.reverse_seq()[i as int].1);
        }
        let ghost e0: Seq<Seq<char>> = if id == 0 {
            seq!["id_to_marker uses invalid id 0 for marker "@ + m@]
        } else {
            Seq::empty()
        };
        if id == 0 {
            let mut msg = string_from("id_to_marker uses invalid id 0 for marker ");
            push_chars(&mut msg, &m);
            Self::push_message(out, msg);
        }
        proof {
            assert(string_views_of(out@) =~= start + e0);
        }
        let ghost e1: Seq<Seq<char>> = if d.forward.contains_key(m@) {
            if d.forward[m@] == id {
                Seq::empty()
            } else {
                seq![
                    "id_to_marker "@ + dec(id as int) + "->"@ + m@ + " conflicts with marker_to_id "@
                        + m@ + "->"@ + dec(d.forward[m@] as int),
                ]
            }
        } else {
            seq!["id_to_marker "@ + dec(id as int) + "->"@ + m@ + " is missing forward marker_to_id entry"@]
        };
        match self.find_forward(&m) {
            Some(j) => {
                proof {
                    lemma_forward_lookup(self.forward_seq(), j as int);
                }
                let f = self.marker_to_id[j].1;
                if f != id {
                    let mut msg = string_from("id_to_marker ");
                    push_decimal_str(&mut msg, id as u64);
                    push_str(&mut msg, "->");
                    push_chars(&mut msg, &m);
                    push_str(&mut msg, " conflicts with marker_to_id ");
                    push_chars(&mut msg, &m);
                    push_str(&mut msg, "->");
                    push_decimal_str(&mut msg, f as u64);
                    Self::push_message(out, msg);
                }
            },
            None => {
                let mut msg = string_from("id_to_marker ");
                push_decimal_str(&mut msg, id as u64);
                push_str(&mut msg, "->");
                push_chars(&mut msg, &m);
                push_str(&mut msg, " is missing forward marker_to_id entry");
                Self::push_message(out, msg);
            },
        }
        proof {
            assert(string_views_of(out@) =~= start + e0 + e1);
            assert(e0 + e1 =~= reverse_entry_errors(d, id, m@));
        }
    }

    /// Every disagreement between the two directions, invalid or non-canonical
    /// markers, id 0, and a `next_id` that is not above every id.
    pub fn consistency_errors(&self) -> (out: Vec<String>)
        requires
            self.wf(),
        ensures
            string_views_of(out@) == self.errors_spec(),
            self.sound() ==> out@.len() == 0,
    {
        proof {
            if self.sound() {
                law_sound_dictionary(*self);
            }
        }
        let mut out: Vec<String> = Vec::new();
        let mut i: usize = 0;
        while i < self.marker_to_id.len()
            invariant
                self.wf(),
                i <= self.marker_to_id.len(),
                string_views_of(out@) == forward_errors(
                    self.view(),
                    self.forward_seq().take(i as int),
                ),
            decreases self.marker_to_id.len() - i,
        {
            self.forward_entry_check(&mut out, i);
            proof {
                assert(self.forward_seq().take(i + 1).drop_last() =~= self.forward_seq().take(
                    i as int,
                ));
            }
            i += 1;
        }
        proof {
            assert(self.forward_seq().take(i as int) =~= self.forward_seq());
        }
        let ghost mid = string_views_of(out@);
        let mut j: usize = 0;
        while j < self.id_to_marker.len()
            invariant
                self.wf(),
                j <= self.id_to_marker.len(),
                string_views_of(out@) == mid + reverse_errors(
                    self.view(),
                    self.reverse_seq().take(j as int),
                ),
            decreases self.id_to_marker.len() - j,
        {
            self.reverse_entry_check(&mut out, j);
            proof {
                assert(self.reverse_seq().take(j + 1).drop_last() =~= self.reverse_seq().take(
                    j as int,
                ));
                let a = reverse_errors(self.view(), self.reverse_seq().take(j as int));
                let b = reverse_entry_errors(
                    self.view(),
                    self.reverse_seq()[j as int].0,
                    self.reverse_seq()[j as int].1,
                );
                assert(mid + a + b =~= mid + (a + b));
            }
            j += 1;
        }
        proof {
            assert(self.reverse_seq().take(j as int) =~= self.reverse_seq());
        }
        let mut max: MarkerId = 0;
        let mut k: usize = 0;
        while k < self.marker_to_id.len()
            invariant
                k <= self.marker_to_id.len(),
                max == max_marker_id(self.forward_seq().take(k as int), Seq::empty()),
            decreases self.marker_to_id.len() - k,
        {
            proof {
                assert(self.forward_seq().take(k + 1).drop_last() =~= self.forward_seq().take(
                    k as int,
                ));
            }
            if self.marker_to_id[k].1 > max {
                max = self.marker_to_id[k].1;
            }
            k += 1;
        }
        proof {
            assert(self.forward_seq().take(k as int) =~= self.forward_seq());
            assert(self.reverse_seq().take(0) =~= Seq::<(MarkerId, Seq<char>)>::empty());
        }
        let mut r: usize = 0;
        while r < self.id_to_marker.len()
            invariant
                r <= self.id_to_marker.len(),
                max == max_marker_id(self.forward_seq(), self.reverse_seq().take(r as int)),
            decreases self.id_to_marker.len() - r,
        {
            proof {
                assert(self.reverse_seq().take(r + 1).drop_last() =~= self.reverse_seq().take(
                    r as int,
                ));
            }
            if self.id_to_marker[r].0 > max {
                max = self.id_to_marker[r].0;
            }
            r += 1;
        }
        proof {
            assert(self.reverse_seq().take(r as int) =~= self.reverse_seq());
        }
        let ghost before = string_views_of(out@);
        if max >= self.next_id {
            let mut msg = string_from("next_id ");
            push_decimal_str(&mut msg, self.next_id as u64);
            push_str(&mut msg, " must be greater than max marker id ");
            push_decimal_str(&mut msg, max as u64);
            Self::push_message(&mut out, msg);
        }
        proof {
            assert(string_views_of(out@) =~= self.errors_spec());
        }
        out
    }
}

pub open spec fn string_views_of(v: Seq<String>) -> Seq<Seq<char>> {
    Seq::new(v.len(), |k: int| v[k]@)
}


proof fn lemma_forward_errors_empty(d: DictionaryView, s: Seq<(Seq<char>, MarkerId)>, i: int)
    requires
        forward_errors(d, s).len() == 0,
        0 <= i < s.len(),
    ensures
        forward_entry_errors(d, s[i].0, s[i].1).len() == 0,
    decreases s.len(),
{
    if i < s.len() - 1 {
        assert(s.drop_last()[i] == s[i]);
        lemma_forward_errors_empty(d, s.drop_last(), i);
    }
}

proof fn lemma_reverse_errors_empty(d: DictionaryView, s: Seq<(MarkerId, Seq<char>)>, i: int)
    requires
        reverse_errors(d, s).len() == 0,
        0 <= i < s.len(),
    ensures
        reverse_entry_errors(d, s[i].0, s[i].1).len() == 0,
    decreases s.len(),
{
    if i < s.len() - 1 {
        assert(s.drop_last()[i] == s[i]);
        lemma_reverse_errors_empty(d, s.drop_last(), i);
    }
}

proof fn lemma_max_marker_id(f: Seq<(Seq<char>, MarkerId)>, r: Seq<(MarkerId, Seq<char>)>)
    ensures
        forall|i: int| 0 <= i < f.len() ==> (#[trigger] f[i]).1 <= max_marker_id(f, r),
        forall|i: int| 0 <= i < r.len() ==> (#[trigger] r[i]).0 <= max_marker_id(f, r),
    decreases f.len() + r.len(),
{
    if r.len() > 0 {
        lemma_max_marker_id(f, r.drop_last());
        assert forall|i: int| 0 <= i < r.len() implies (#[trigger] r[i]).0 <= max_marker_id(f, r) by {
            if i < r.len() - 1 {
                assert(r.drop_last()[i] == r[i]);
            }
        }
    } else if f.len() > 0 {
        lemma_max_marker_id(f.drop_last(), r);
        assert forall|i: int| 0 <= i < f.len() implies (#[trigger] f[i]).1 <= max_marker_id(f, r) by {
            if i < f.len() - 1 {
                assert(f.drop_last()[i] == f[i]);
            }
        }
    }
}

/// A dictionary for which `consistency_errors` reports nothing is consistent:
/// both directions agree, and every id lies between 1 and `next_id`.
pub proof fn law_no_errors_means_consistent(d: MarkerDictionary)
    requires
        d.wf(),
        d.errors_spec().len() == 0,
    ensures
        ids_consistent(d.view()),
{
    let v = d.view();
    let f = d.forward_seq();
    let r = d.reverse_seq();
    let max = max_marker_id(f, r);
    assert(forward_errors(v, f).len() == 0);
    assert(reverse_errors(v, r).len() == 0);
    assert(max < d.next_id);
    lemma_max_marker_id(f, r);
    assert forall|m: Seq<char>| #[trigger] v.forward.contains_key(m) implies v.reverse.contains_key(v.forward[m])
        && v.reverse[v.forward[m]] == m && 0 < v.forward[m] < v.next_id by {
        let i = choose|i: int| 0 <= i < f.len() && #[trigger] f[i].0 == m;
        lemma_forward_lookup(f, i);
        lemma_forward_errors_empty(v, f, i);
    }
    assert forall|id: MarkerId| #[trigger] v.reverse.contains_key(id) implies v.forward.contains_key(v.reverse[id])
        && v.forward[v.reverse[id]] == id && 0 < id < v.next_id by {
        let i = choose|i: int| 0 <= i < r.len() && #[trigger] r[i].0 == id;
        lemma_reverse_lookup(r, i);
        lemma_reverse_errors_empty(v, r, i);
    }
}

/// The dictionary reached from the empty one (first id 1) by inserting the
/// canonical markers `cs` in turn, stopping at nothing.
pub open spec fn inserted_all(cs: Seq<Seq<char>>) -> DictionaryView
    decreases cs.len(),
{
    if cs.len() == 0 {
        DictionaryView {
            forward: Map::<Seq<char>, MarkerId>::empty(),
            reverse: Map::<MarkerId, Seq<char>>::empty(),
            next_id: 1,
        }
    } else {
        dictionary_insert(inserted_all(cs.drop_last()), cs.last()).0
    }
}

/// Every dictionary reached from a new one by insertions is consistent, its
/// ids are exactly 1 up to `next_id`, and each inserted marker is found under
/// an id that maps back to it, unless the ids ran out.
pub proof fn law_dictionary_from_new(cs: Seq<Seq<char>>)
    ensures
        ids_consistent(inserted_all(cs)),
        inserted_all(cs).next_id >= 1,
        forall|k: MarkerId| #[trigger] inserted_all(cs).reverse.contains_key(k) <==> 1 <= k < inserted_all(
            cs,
        ).next_id,
        inserted_all(cs).next_id < u32::MAX ==> forall|i: int| 0 <= i < cs.len() ==> #[trigger]
            inserted_all(cs).forward.contains_key(cs[i]),
    decreases cs.len(),
{
    if cs.len() > 0 {
        let p = cs.drop_last();
        law_dictionary_from_new(p);
        let d = inserted_all(p);
        law_insert_keeps_consistency(d, cs.last());
        let d1 = inserted_all(cs);
        assert(d1 == dictionary_insert(d, cs.last()).0);
        assert forall|k: MarkerId| #[trigger] d1.reverse.contains_key(k) <==> 1 <= k < d1.next_id by {
            assert(d.reverse.contains_key(k) <==> 1 <= k < d.next_id);
        }
        if d1.next_id < u32::MAX {
            assert forall|i: int| 0 <= i < cs.len() implies #[trigger] d1.forward.contains_key(cs[i]) by {
                if i < cs.len() - 1 {
                    assert(p[i] == cs[i]);
                    assert(d.forward.contains_key(p[i]));
                }
            }
        }
    } else {
        assert(inserted_all(cs).reverse =~= Map::<MarkerId, Seq<char>>::empty());
    }
}

proof fn lemma_forward_errors_none(d: DictionaryView, s: Seq<(Seq<char>, MarkerId)>)
    requires
        forall|i: int| 0 <= i < s.len() ==> (#[trigger] forward_entry_errors(d, s[i].0, s[i].1)).len() == 0,
    ensures
        forward_errors(d, s).len() == 0,
    decreases s.len(),
{
    if s.len() > 0 {
        let t = s.drop_last();
        assert forall|i: int| 0 <= i < t.len() implies (#[trigger] forward_entry_errors(d, t[i].0, t[i].1)).len() == 0 by {
            assert(t[i] == s[i]);
        }
        lemma_forward_errors_none(d, t);
        assert(forward_entry_errors(d, s[s.len() - 1].0, s[s.len() - 1].1).len() == 0);
    }
}

proof fn lemma_reverse_errors_none(d: DictionaryView, s: Seq<(MarkerId, Seq<char>)>)
    requires
        forall|i: int| 0 <= i < s.len() ==> (#[trigger] reverse_entry_errors(d, s[i].0, s[i].1)).len() == 0,
    ensures
        reverse_errors(d, s).len() == 0,
    decreases s.len(),
{
    if s.len() > 0 {
        let t = s.drop_last();
        assert forall|i: int| 0 <= i < t.len() implies (#[trigger] reverse_entry_errors(d, t[i].0, t[i].1)).len() == 0 by {
            assert(t[i] == s[i]);
        }
        lemma_reverse_errors_none(d, t);
        assert(reverse_entry_errors(d, s[s.len() - 1].0, s[s.len() - 1].1).len() == 0);
    }
}

proof fn lemma_max_attained(f: Seq<(Seq<char>, MarkerId)>, r: Seq<(MarkerId, Seq<char>)>)
    ensures
        max_marker_id(f, r) == 0 || (exists|i: int| 0 <= i < f.len() && (#[trigger] f[i]).1 == max_marker_id(f, r))
            || (exists|i: int| 0 <= i < r.len() && (#[trigger] r[i]).0 == max_marker_id(f, r)),
    decreases f.len() + r.len(),
{
    if r.len() > 0 {
        lemma_max_attained(f, r.drop_last());
        let m = max_marker_id(f, r);
        if r.last().0 > max_marker_id(f, r.drop_last()) {
            assert(r[r.len() - 1].0 == m);
        } else if max_marker_id(f, r.drop_last()) != 0 {
            if exists|i: int| 0 <= i < r.drop_last().len() && (#[trigger] r.drop_last()[i]).0 == m {
                let i = choose|i: int| 0 <= i < r.drop_last().len() && (#[trigger] r.drop_last()[i]).0 == m;
                assert(r[i] == r.drop_last()[i]);
            }
        }
    } else if f.len() > 0 {
        lemma_max_attained(f.drop_last(), r);
        let m = max_marker_id(f, r);
        if f.last().1 > max_marker_id(f.drop_last(), r) {
            assert(f[f.len() - 1].1 == m);
        } else if max_marker_id(f.drop_last(), r) != 0 {
            if exists|i: int| 0 <= i < f.drop_last().len() && (#[trigger] f.drop_last()[i]).1 == m {
                let i = choose|i: int| 0 <= i < f.drop_last().len() && (#[trigger] f.drop_last()[i]).1 == m;
                assert(f[i] == f.drop_last()[i]);
            }
        }
    }
}

impl MarkerDictionary {
    proof fn lemma_reverse_len(&self)
        requires
            self.wf(),
        ensures
            self.view().reverse.dom().finite(),
            self.view().reverse.len() == self.id_to_marker@.len(),
    {
        let s = self.reverse_seq();
        let keys = s.map_values(|p: (MarkerId, Seq<char>)| p.0);
        assert forall|i: int, j: int| 0 <= i < j < keys.len() implies keys[i] != keys[j] by {
            assert(s[i].0 < s[j].0);
        }
        assert(keys.no_duplicates());
        assert(self.view().reverse.dom() =~= keys.to_set()) by {
            assert forall|k: MarkerId| self.view().reverse.dom().contains(k) implies keys.to_set().contains(k) by {
                let i = choose|i: int| 0 <= i < s.len() && #[trigger] s[i].0 == k;
                assert(keys[i] == k);
            }
            assert forall|k: MarkerId| keys.to_set().contains(k) implies self.view().reverse.dom().contains(k) by {
                let i = choose|i: int| 0 <= i < keys.len() && keys[i] == k;
                assert(s[i].0 == k);
            }
        }
        keys.unique_seq_to_set();
    }
}

/// What holds of every sound dictionary (every one that `new` and
/// `get_or_insert` build): an id has a marker exactly when it lies between 1
/// and `next_id`; each id's marker is canonical and maps back to the id; the
/// dictionary holds `next_id - 1` markers, which `debug_view` lists in
/// increasing id order with their markers; and `consistency_errors` reports
/// nothing.
pub proof fn law_sound_dictionary(d: MarkerDictionary)
    requires
        d.sound(),
    ensures
        forall|k: MarkerId| #[trigger] d.view().reverse.contains_key(k) <==> 1 <= k < d.view().next_id,
        forall|k: MarkerId| #[trigger] d.view().reverse.contains_key(k) ==> d.view().forward.contains_key(
            d.view().reverse[k],
        ) && d.view().forward[d.view().reverse[k]] == k && canonical_marker(d.view().reverse[k]) == Some(
            d.view().reverse[k],
        ),
        d.view().forward.len() == d.view().next_id - 1,
        d.reverse_seq().len() == d.view().next_id - 1,
        forall|i: int| 0 <= i < d.reverse_seq().len() ==> d.view().reverse.contains_key(
            (#[trigger] d.reverse_seq()[i]).0,
        ) && d.view().reverse[d.reverse_seq()[i].0] == d.reverse_seq()[i].1,
        forall|i: int, j: int| 0 <= i < j < d.reverse_seq().len() ==> (#[trigger] d.reverse_seq()[i]).0
            < (#[trigger] d.reverse_seq()[j]).0,
        d.errors_spec().len() == 0,
{
    let v = d.view();
    let f = d.forward_seq();
    let r = d.reverse_seq();
    d.lemma_forward_len();
    d.lemma_reverse_len();
    // The ids in use are exactly 1 up to next_id.
    let ids = v.reverse.dom();
    let ints = ids.map(|k: MarkerId| k as int);
    assert(ints =~= vstd::set_lib::set_int_range(1, v.next_id as int)) by {
        assert forall|x: int| ints.contains(x) implies vstd::set_lib::set_int_range(1, v.next_id as int).contains(x) by {
            let k = choose|k: MarkerId| ids.contains(k) && k as int == x;
        }
        assert forall|x: int| vstd::set_lib::set_int_range(1, v.next_id as int).contains(x) implies ints.contains(x) by {
            let k = x as MarkerId;
            assert(ids.contains(k));
            assert(k as int == x);
        }
    }
    vstd::set_lib::lemma_int_range(1, v.next_id as int);
    assert(vstd::relations::injective_on(|k: MarkerId| k as int, ids));
    vstd::set_lib::lemma_map_size(ids, ints, |k: MarkerId| k as int);
    // The markers correspond one to one with the ids.
    let fk = v.forward.dom();
    let fmap = |m: Seq<char>| v.forward[m];
    assert(fk.map(fmap) =~= ids) by {
        assert forall|k: MarkerId| fk.map(fmap).contains(k) implies ids.contains(k) by {
            let m = choose|m: Seq<char>| fk.contains(m) && fmap(m) == k;
        }
        assert forall|k: MarkerId| ids.contains(k) implies fk.map(fmap).contains(k) by {
            let m = v.reverse[k];
            assert(fk.contains(m) && fmap(m) == k);
        }
    }
    assert(vstd::relations::injective_on(fmap, fk)) by {
        assert forall|a: Seq<char>, b: Seq<char>| fk.contains(a) && fk.contains(b) && #[trigger] fmap(a) == #[trigger] fmap(b)
            implies a == b by {
            assert(v.reverse[v.forward[a]] == a);
            assert(v.reverse[v.forward[b]] == b);
        }
    }
    vstd::set_lib::lemma_map_size(fk, ids, fmap);
    // The listing.
    assert forall|i: int| 0 <= i < r.len() implies v.reverse.contains_key((#[trigger] r[i]).0) && v.reverse[r[i].0]
        == r[i].1 by {
        lemma_reverse_lookup(r, i);
    }
    // No problems to report.
    assert forall|i: int| 0 <= i < f.len() implies (#[trigger] forward_entry_errors(v, f[i].0, f[i].1)).len() == 0 by {
        lemma_forward_lookup(f, i);
    }
    lemma_forward_errors_none(v, f);
    assert forall|i: int| 0 <= i < r.len() implies (#[trigger] reverse_entry_errors(v, r[i].0, r[i].1)).len() == 0 by {
        lemma_reverse_lookup(r, i);
    }
    lemma_reverse_errors_none(v, r);
    lemma_max_attained(f, r);
    let mx = max_marker_id(f, r);
    if mx != 0 {
        if exists|i: int| 0 <= i < f.len() && (#[trigger] f[i]).1 == mx {
            let i = choose|i: int| 0 <= i < f.len() && (#[trigger] f[i]).1 == mx;
            lemma_forward_lookup(f, i);
        } else {
            let i = choose|i: int| 0 <= i < r.len() && (#[trigger] r[i]).0 == mx;
            lemma_reverse_lookup(r, i);
        }
    }
    assert(mx < d.next_id);
}

impl Default for MarkerDictionary {
    /// An empty dictionary whose first id is 1.
    fn default() -> (d: Self)
        ensures
            d.wf(),
            d.view().forward == Map::<Seq<char>, MarkerId>::empty(),
            d.view().reverse == Map::<MarkerId, Seq<char>>::empty(),
            d.view().next_id == 1,
    {
        MarkerDictionary::new()
    }
}

} // verus!

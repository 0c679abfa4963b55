//! Ordered sets of numeric ids, held as strictly increasing vectors (the
//! iteration order of an ordered set).
use vstd::prelude::*;

verus! {

pub open spec fn strictly_increasing(s: Seq<u64>) -> bool {
    forall|i: int, j: int| 0 <= i < j < s.len() ==> #[trigger] s[i] < #[trigger] s[j]
}

/// `s` is the ordered enumeration of the set `set`.
pub open spec fn enumerates(s: Seq<u64>, set: Set<u64>) -> bool {
    strictly_increasing(s) && s.to_set() == set
}

/// Two strictly increasing sequences with the same elements are equal.
pub proof fn lemma_enumeration_unique(a: Seq<u64>, b: Seq<u64>)
    requires
        strictly_increasing(a),
        strictly_increasing(b),
        a.to_set() == b.to_set(),
    ensures
        a == b,
    decreases a.len() + b.len(),
{
    if a.len() > 0 && b.len() > 0 {
        assert(a.to_set().contains(a[0]));
        assert(b.to_set().contains(b[0]));
        let i = choose|i: int| 0 <= i < b.len() && b[i] == a[0];
        let j = choose|j: int| 0 <= j < a.len() && a[j] == b[0];
        if i > 0 {
            assert(b[0] < b[i]);
            if j > 0 {
                assert(a[0] < a[j]);
            }
        }
        assert(a[0] == b[0]);
        let a1 = a.drop_first();
        let b1 = b.drop_first();
        assert forall|x: u64| a1.to_set().contains(x) implies b1.to_set().contains(x) by {
            let k = choose|k: int| 0 <= k < a1.len() && a1[k] == x;
            assert(a.to_set().contains(x));
            let m = choose|m: int| 0 <= m < b.len() && b[m] == x;
            assert(a[k + 1] > a[0]);
            assert(m != 0);
            assert(b1[m - 1] == x);
        }
        assert forall|x: u64| b1.to_set().contains(x) implies a1.to_set().contains(x) by {
            let k = choose|k: int| 0 <= k < b1.len() && b1[k] == x;
            assert(b.to_set().contains(x));
            let m = choose|m: int| 0 <= m < a.len() && a[m] == x;
            assert(b[k + 1] > b[0]);
            assert(m != 0);
            assert(a1[m - 1] == x);
        }
        assert(a1.to_set() =~= b1.to_set());
        lemma_enumeration_unique(a1, b1);
        assert(a =~= seq![a[0]] + a1);
        assert(b =~= seq![b[0]] + b1);
    } else if a.len() > 0 {
        assert(a.to_set().contains(a[0]));
    } else if b.len() > 0 {
        assert(b.to_set().contains(b[0]));
    } else {
        assert(a =~= b);
    }
}

pub proof fn lemma_push_to_set(s: Seq<u64>, x: u64)
    ensures
        s.push(x).to_set() == s.to_set().insert(x),
{
    let t = s.push(x);
    assert forall|y: u64| t.to_set().contains(y) == s.to_set().insert(x).contains(y) by {
        if t.to_set().contains(y) {
            let k = choose|k: int| 0 <= k < t.len() && t[k] == y;
            if k < s.len() {
                assert(s[k] == y);
            }
        }
        if s.to_set().contains(y) {
            let k = choose|k: int| 0 <= k < s.len() && s[k] == y;
            assert(t[k] == y);
        }
        if y == x {
            assert(t[s.len() as int] == x);
        }
    }
    assert(t.to_set() =~= s.to_set().insert(x));
}

/// Whether `x` occurs in `v`.
pub fn contains_id(v: &Vec<u64>, x: u64) -> (b: bool)
    ensures
        b == v@.contains(x),
{
    let mut i: usize = 0;
    while i < v.len()
        invariant
            i <= v.len(),
            forall|k: int| 0 <= k < i ==> v@[k] != x,
        decreases v.len() - i,
    {
        if v[i] == x {
            proof {
                assert(v@[i as int] == x);
            }
            return true;
        }
        i += 1;
    }
    false
}

/// Inserts `x` into the ordered set `v`.
pub fn set_insert(v: &mut Vec<u64>, x: u64)
    requires
        strictly_increasing(old(v)@),
    ensures
        strictly_increasing(final(v)@),
        final(v)@.to_set() == old(v)@.to_set().insert(x),
{
    let mut j: usize = 0;
    while j < v.len() && v[j] < x
        invariant
            j <= v.len(),
            v@ == old(v)@,
            forall|k: int| 0 <= k < j ==> v@[k] < x,
        decreases v.len() - j,
    {
        j += 1;
    }
    if j < v.len() && v[j] == x {
        proof {
            assert(v@.to_set() =~= old(v)@.to_set().insert(x));
        }
        return ;
    }
    proof {
        assert forall|k: int| j <= k < v@.len() implies x < v@[k] by {
            if k > j {
                assert(v@[j as int] < v@[k]);
            }
        }
    }
    v.insert(j, x);
    proof {
        let s = v@;
        assert(s == old(v)@.insert(j as int, x));
        assert forall|a: int, b: int| 0 <= a < b < s.len() implies #[trigger] s[a] < #[trigger] s[b] by {
            if a < j as int && b > j as int {
                assert(s[b] == old(v)@[b - 1]);
            } else if a == j as int {
                assert(s[b] == old(v)@[b - 1]);
            } else if a > j as int {
                assert(s[a] == old(v)@[a - 1]);
                assert(s[b] == old(v)@[b - 1]);
            }
        }
        assert forall|y: u64| s.to_set().contains(y) == old(v)@.to_set().insert(x).contains(y) by {
            if s.to_set().contains(y) {
                let k = choose|k: int| 0 <= k < s.len() && s[k] == y;
                if k < j as int {
                    assert(old(v)@[k] == y);
                } else if k > j as int {
                    assert(old(v)@[k - 1] == y);
                }
            }
            if old(v)@.to_set().contains(y) {
                let k = choose|k: int| 0 <= k < old(v)@.len() && old(v)@[k] == y;
                if k < j as int {
                    assert(s[k] == y);
                } else {
                    assert(s[k + 1] == y);
                }
            }
            if y == x {
                assert(s[j as int] == x);
            }
        }
        assert(s.to_set() =~= old(v)@.to_set().insert(x));
    }
}

/// The ordered set of the elements of `v` (sorted, duplicates removed).
pub fn sort_dedup(v: &Vec<u64>) -> (out: Vec<u64>)
    ensures
        enumerates(out@, v@.to_set()),
{
    let mut out: Vec<u64> = Vec::new();
    let mut i: usize = 0;
    proof {
        assert(v@.take(0).to_set() =~= Set::<u64>::empty());
        assert(out@.to_set() =~= Set::<u64>::empty());
    }
    while i < v.len()
        invariant
            i <= v.len(),
            strictly_increasing(out@),
            out@.to_set() == v@.take(i as int).to_set(),
        decreases v.len() - i,
    {
        set_insert(&mut out, v[i]);
        proof {
            assert(v@.take(i + 1) =~= v@.take(i as int).push(v@[i as int]));
            lemma_push_to_set(v@.take(i as int), v@[i as int]);
        }
        i += 1;
    }
    proof {
        assert(v@.take(i as int) =~= v@);
    }
    out
}

/// Adds every element of `more` to the ordered set `v`.
pub fn set_extend(v: &mut Vec<u64>, more: &Vec<u64>)
    requires
        strictly_increasing(old(v)@),
    ensures
        strictly_increasing(final(v)@),
        final(v)@.to_set() == old(v)@.to_set().union(more@.to_set()),
{
    let mut i: usize = 0;
    proof {
        assert(more@.take(0).to_set() =~= Set::<u64>::empty());
        assert(v@.to_set() =~= old(v)@.to_set().union(Set::<u64>::empty()));
    }
    while i < more.len()
        invariant
            i <= more.len(),
            strictly_increasing(v@),
            v@.to_set() == old(v)@.to_set().union(more@.take(i as int).to_set()),
        decreases more.len() - i,
    {
        set_insert(v, more[i]);
        proof {
            assert(more@.take(i + 1) =~= more@.take(i as int).push(more@[i as int]));
            lemma_push_to_set(more@.take(i as int), more@[i as int]);
            assert(v@.to_set() =~= old(v)@.to_set().union(more@.take(i + 1).to_set()));
        }
        i += 1;
    }
    proof {
        assert(more@.take(i as int) =~= more@);
    }
}

/// The ordered set of elements of `a` that also occur in `b`.
pub fn set_intersection(a: &Vec<u64>, b: &Vec<u64>) -> (out: Vec<u64>)
    requires
        strictly_increasing(a@),
    ensures
        enumerates(out@, a@.to_set().intersect(b@.to_set())),
{
    let mut out: Vec<u64> = Vec::new();
    let mut i: usize = 0;
    while i < a.len()
        invariant
            i <= a.len(),
            strictly_increasing(a@),
            out@.len() <= i,
            forall|k: int| 0 <= k < out@.len() ==> a@.take(i as int).contains(#[trigger] out@[k]),
            strictly_increasing(out@),
            out@.len() > 0 ==> (forall|k: int| i <= k < a@.len() ==> out@.last() < #[trigger] a@[k]),
            out@.to_set() == a@.take(i as int).to_set().intersect(b@.to_set()),
        decreases a.len() - i,
    {
        let x = a[i];
        let ghost before = out@;
        if contains_id(b, x) {
            out.push(x);
            proof {
                assert forall|p: int, q: int| 0 <= p < q < out@.len() implies #[trigger] out@[p]
                    < #[trigger] out@[q] by {
                    if q == out@.len() - 1 && p < q {
                        assert(before.last() < a@[i as int]) by {
                            if before.len() > 0 {
                            }
                        }
                        if p < before.len() - 1 {
                            assert(before[p] < before.last());
                        }
                    }
                }
            }
        }
        proof {
            assert(a@.take(i + 1) =~= a@.take(i as int).push(x));
            lemma_push_to_set(a@.take(i as int), x);
            assert forall|k: int| 0 <= k < out@.len() implies a@.take(i + 1).contains(
                #[trigger] out@[k],
            ) by {
                if k < before.len() {
                    assert(a@.take(i as int).contains(before[k]));
                    let m = choose|m: int| 0 <= m < i && a@.take(i as int)[m] == before[k];
                    assert(a@.take(i + 1)[m] == before[k]);
                } else {
                    assert(a@.take(i + 1)[i as int] == x);
                }
            }
            assert forall|k: int| out@.len() > 0 && i + 1 <= k < a@.len() implies out@.last()
                < #[trigger] a@[k] by {
                if out@.len() > before.len() {
                    assert(a@[i as int] < a@[k]);
                } else if out@.len() > 0 {
                    assert(out@.last() == before.last());
                }
            }
            if out@.len() > before.len() {
                assert(out@ == before.push(x));
                lemma_push_to_set(before, x);
                assert(b@.to_set().contains(x));
            } else {
                assert(out@ == before);
                assert(!b@.to_set().contains(x)) by {
                    if b@.to_set().contains(x) {
                        let k = choose|k: int| 0 <= k < b@.len() && b@[k] == x;
                        assert(b@.contains(x));
                    }
                }
            }
            assert(out@.to_set() =~= a@.take(i + 1).to_set().intersect(b@.to_set()));
        }
        i += 1;
    }
    proof {
        assert(a@.take(i as int) =~= a@);
    }
    out
}

// Ordered sets of 32-bit ids.

/// `x` put into its place in the ordered set `e`.
pub open spec fn ordered_insert(e: Seq<u64>, x: u64) -> Seq<u64>
    decreases e.len(),
{
    if e.len() == 0 {
        seq![x]
    } else if x < e[0] {
        seq![x] + e
    } else if x == e[0] {
        e
    } else {
        seq![e[0]] + ordered_insert(e.drop_first(), x)
    }
}

/// The ordered set of the elements of `s`.
pub open spec fn ordered_set_of(s: Seq<u64>) -> Seq<u64>
    decreases s.len(),
{
    if s.len() == 0 {
        Seq::empty()
    } else {
        ordered_insert(ordered_set_of(s.drop_last()), s.last())
    }
}

pub proof fn lemma_ordered_insert(e: Seq<u64>, x: u64)
    requires
        strictly_increasing(e),
    ensures
        strictly_increasing(ordered_insert(e, x)),
        ordered_insert(e, x).to_set() == e.to_set().insert(x),
        forall|i: int|
            0 <= i < ordered_insert(e, x).len() ==> #[trigger] ordered_insert(e, x)[i] == x || e.contains(
                ordered_insert(e, x)[i],
            ),
    decreases e.len(),
{
    let r = ordered_insert(e, x);
    if e.len() == 0 {
        assert(r == seq![x]);
        assert(e.to_set() =~= Set::<u64>::empty());
        assert forall|y: u64| r.to_set().contains(y) == e.to_set().insert(x).contains(y) by {
            if r.to_set().contains(y) {
                let k = choose|k: int| 0 <= k < r.len() && r[k] == y;
                assert(k == 0);
            }
            if y == x {
                assert(r[0] == x);
            }
        }
        assert(r.to_set() =~= e.to_set().insert(x));
    } else if x < e[0] {
        assert(r.to_set() =~= e.to_set().insert(x)) by {
            assert forall|y: u64| r.to_set().contains(y) == e.to_set().insert(x).contains(y) by {
                if r.to_set().contains(y) {
                    let k = choose|k: int| 0 <= k < r.len() && r[k] == y;
                    if k > 0 {
                        assert(e[k - 1] == y);
                    }
                }
                if e.to_set().contains(y) {
                    let k = choose|k: int| 0 <= k < e.len() && e[k] == y;
                    assert(r[k + 1] == y);
                }
                if y == x {
                    assert(r[0] == y);
                }
            }
        }
        assert forall|i: int, j: int| 0 <= i < j < r.len() implies #[trigger] r[i] < #[trigger] r[j] by {
            if i > 0 {
                assert(e[i - 1] < e[j - 1]);
            } else {
                assert(e[0] <= e[j - 1]) by {
                    if j - 1 > 0 {
                        assert(e[0] < e[j - 1]);
                    }
                }
            }
        }
        assert forall|i: int| 0 <= i < r.len() implies #[trigger] r[i] == x || e.contains(r[i]) by {
            if i > 0 {
                assert(r[i] == e[i - 1]);
            }
        }
    } else if x == e[0] {
        assert(r.to_set() =~= e.to_set().insert(x)) by {
            assert(e.to_set().contains(x));
        }
    } else {
        let d = e.drop_first();
        assert(strictly_increasing(d)) by {
            assert forall|i: int, j: int| 0 <= i < j < d.len() implies #[trigger] d[i] < #[trigger] d[j] by {
                assert(e[i + 1] < e[j + 1]);
            }
        }
        lemma_ordered_insert(d, x);
        let t = ordered_insert(d, x);
        assert(r == seq![e[0]] + t);
        assert forall|i: int, j: int| 0 <= i < j < r.len() implies #[trigger] r[i] < #[trigger] r[j] by {
            if i > 0 {
                assert(t[i - 1] < t[j - 1]);
            } else {
                assert(r[j] == t[j - 1]);
                if t[j - 1] != x {
                    assert(d.contains(t[j - 1]));
                    let k = choose|k: int| 0 <= k < d.len() && d[k] == t[j - 1];
                    assert(e[0] < e[k + 1]);
                }
            }
        }
        assert forall|i: int| 0 <= i < r.len() implies #[trigger] r[i] == x || e.contains(r[i]) by {
            if i > 0 {
                assert(r[i] == t[i - 1]);
                if t[i - 1] != x {
                    assert(d.contains(t[i - 1]));
                    let k = choose|k: int| 0 <= k < d.len() && d[k] == t[i - 1];
                    assert(e[k + 1] == r[i]);
                }
            } else {
                assert(e[0] == r[0]);
            }
        }
        assert(r.to_set() =~= e.to_set().insert(x)) by {
            assert forall|y: u64| r.to_set().contains(y) == e.to_set().insert(x).contains(y) by {
                if r.to_set().contains(y) {
                    let k = choose|k: int| 0 <= k < r.len() && r[k] == y;
                    assert(r[k] == x || e.contains(r[k]));
                }
                if e.to_set().contains(y) {
                    let k = choose|k: int| 0 <= k < e.len() && e[k] == y;
                    if k == 0 {
                        assert(r[0] == y);
                    } else {
                        assert(d[k - 1] == y);
                        assert(d.to_set().contains(y));
                        assert(t.to_set().contains(y));
                        let q = choose|q: int| 0 <= q < t.len() && t[q] == y;
                        assert(r[q + 1] == y);
                    }
                }
                if y == x {
                    assert(t.to_set().contains(x));
                    let q = choose|q: int| 0 <= q < t.len() && t[q] == x;
                    assert(r[q + 1] == x);
                }
            }
        }
    }
}

/// `ordered_set_of(s)` enumerates the elements of `s`.
pub proof fn lemma_ordered_set_of(s: Seq<u64>)
    ensures
        enumerates(ordered_set_of(s), s.to_set()),
    decreases s.len(),
{
    if s.len() == 0 {
        assert(s.to_set() =~= Set::<u64>::empty());
        assert(ordered_set_of(s).to_set() =~= Set::<u64>::empty());
    } else {
        lemma_ordered_set_of(s.drop_last());
        lemma_ordered_insert(ordered_set_of(s.drop_last()), s.last());
        lemma_push_to_set(s.drop_last(), s.last());
        assert(s.drop_last().push(s.last()) =~= s);
    }
}

pub open spec fn strictly_increasing32(s: Seq<u32>) -> bool {
    forall|i: int, j: int| 0 <= i < j < s.len() ==> #[trigger] s[i] < #[trigger] s[j]
}

pub proof fn lemma_push_to_set32(s: Seq<u32>, x: u32)
    ensures
        s.push(x).to_set() == s.to_set().insert(x),
{
    let t = s.push(x);
    assert forall|y: u32| t.to_set().contains(y) == s.to_set().insert(x).contains(y) by {
        if t.to_set().contains(y) {
            let k = choose|k: int| 0 <= k < t.len() && t[k] == y;
            if k < s.len() {
                assert(s[k] == y);
            }
        }
        if s.to_set().contains(y) {
            let k = choose|k: int| 0 <= k < s.len() && s[k] == y;
            assert(t[k] == y);
        }
        if y == x {
            assert(t[s.len() as int] == x);
        }
    }
    assert(t.to_set() =~= s.to_set().insert(x));
}

/// Inserts `x` into the ordered set `v`.
pub fn set_insert32(v: &mut Vec<u32>, x: u32)
    requires
        strictly_increasing32(old(v)@),
    ensures
        strictly_increasing32(final(v)@),
        final(v)@.to_set() == old(v)@.to_set().insert(x),
{
    let mut j: usize = 0;
    while j < v.len() && v[j] < x
        invariant
            j <= v.len(),
            v@ == old(v)@,
            forall|k: int| 0 <= k < j ==> v@[k] < x,
        decreases v.len() - j,
    {
        j += 1;
    }
    if j < v.len() && v[j] == x {
        proof {
            assert(v@.to_set() =~= old(v)@.to_set().insert(x));
        }
        return ;
    }
    proof {
        assert forall|k: int| j <= k < v@.len() implies x < v@[k] by {
            if k > j {
                assert(v@[j as int] < v@[k]);
            }
        }
    }
    v.insert(j, x);
    proof {
        let s = v@;
        assert(s == old(v)@.insert(j as int, x));
        assert forall|a: int, b: int| 0 <= a < b < s.len() implies #[trigger] s[a] < #[trigger] s[b] by {
            if a < j as int && b > j as int {
                assert(s[b] == old(v)@[b - 1]);
            } else if a == j as int {
                assert(s[b] == old(v)@[b - 1]);
            } else if a > j as int {
                assert(s[a] == old(v)@[a - 1]);
                assert(s[b] == old(v)@[b - 1]);
            }
        }
        assert forall|y: u32| s.to_set().contains(y) == old(v)@.to_set().insert(x).contains(y) by {
            if s.to_set().contains(y) {
                let k = choose|k: int| 0 <= k < s.len() && s[k] == y;
                if k < j as int {
                    assert(old(v)@[k] == y);
                } else if k > j as int {
                    assert(old(v)@[k - 1] == y);
                }
            }
            if old(v)@.to_set().contains(y) {
                let k = choose|k: int| 0 <= k < old(v)@.len() && old(v)@[k] == y;
                if k < j as int {
                    assert(s[k] == y);
                } else {
                    assert(s[k + 1] == y);
                }
            }
            if y == x {
                assert(s[j as int] == x);
            }
        }
        assert(s.to_set() =~= old(v)@.to_set().insert(x));
    }
}

/// The ordered set of the elements of `v` (sorted, duplicates removed).
pub fn sort_dedup32(v: &Vec<u32>) -> (out: Vec<u32>)
    ensures
        strictly_increasing32(out@) && out@.to_set() == v@.to_set(),
{
    let mut out: Vec<u32> = Vec::new();
    let mut i: usize = 0;
    proof {
        assert(v@.take(0).to_set() =~= Set::<u32>::empty());
        assert(out@.to_set() =~= Set::<u32>::empty());
    }
    while i < v.len()
        invariant
            i <= v.len(),
            strictly_increasing32(out@),
            out@.to_set() == v@.take(i as int).to_set(),
        decreases v.len() - i,
    {
        set_insert32(&mut out, v[i]);
        proof {
            assert(v@.take(i + 1) =~= v@.take(i as int).push(v@[i as int]));
            lemma_push_to_set32(v@.take(i as int), v@[i as int]);
        }
        i += 1;
    }
    proof {
        assert(v@.take(i as int) =~= v@);
    }
    out
}


/// Strictly increasing by `key`.
pub open spec fn increasing_by<T>(s: Seq<T>, key: spec_fn(T) -> int) -> bool {
    forall|i: int, j: int| 0 <= i < j < s.len() ==> key(#[trigger] s[i]) < key(#[trigger] s[j])
}

/// Two sequences strictly increasing by the same key, with the same
/// elements, are equal.
pub proof fn lemma_increasing_unique<T>(a: Seq<T>, b: Seq<T>, key: spec_fn(T) -> int)
    requires
        increasing_by(a, key),
        increasing_by(b, key),
        a.to_set() == b.to_set(),
    ensures
        a == b,
    decreases a.len() + b.len(),
{
    if a.len() > 0 && b.len() > 0 {
        assert(a.to_set().contains(a[0]));
        assert(b.to_set().contains(b[0]));
        let i = choose|i: int| 0 <= i < b.len() && b[i] == a[0];
        let j = choose|j: int| 0 <= j < a.len() && a[j] == b[0];
        if i > 0 {
            assert(key(b[0]) < key(b[i]));
            if j > 0 {
                assert(key(a[0]) < key(a[j]));
            }
        }
        assert(a[0] == b[0]);
        let a1 = a.drop_first();
        let b1 = b.drop_first();
        assert forall|x: T| a1.to_set().contains(x) implies b1.to_set().contains(x) by {
            let k = choose|k: int| 0 <= k < a1.len() && a1[k] == x;
            assert(a.to_set().contains(x));
            let m = choose|m: int| 0 <= m < b.len() && b[m] == x;
            assert(key(a[k + 1]) > key(a[0]));
            assert(m != 0);
            assert(b1[m - 1] == x);
        }
        assert forall|x: T| b1.to_set().contains(x) implies a1.to_set().contains(x) by {
            let k = choose|k: int| 0 <= k < b1.len() && b1[k] == x;
            assert(b.to_set().contains(x));
            let m = choose|m: int| 0 <= m < a.len() && a[m] == x;
            assert(key(b[k + 1]) > key(b[0]));
            assert(m != 0);
            assert(a1[m - 1] == x);
        }
        assert(a1.to_set() =~= b1.to_set());
        assert(increasing_by(a1, key)) by {
            assert forall|p: int, q: int| 0 <= p < q < a1.len() implies key(#[trigger] a1[p]) < key(#[trigger] a1[q]) by {
                assert(key(a[p + 1]) < key(a[q + 1]));
            }
        }
        assert(increasing_by(b1, key)) by {
            assert forall|p: int, q: int| 0 <= p < q < b1.len() implies key(#[trigger] b1[p]) < key(#[trigger] b1[q]) by {
                assert(key(b[p + 1]) < key(b[q + 1]));
            }
        }
        lemma_increasing_unique(a1, b1, key);
        assert(a =~= seq![a[0]] + a1);
        assert(b =~= seq![b[0]] + b1);
    } else if a.len() > 0 {
        assert(a.to_set().contains(a[0]));
    } else if b.len() > 0 {
        assert(b.to_set().contains(b[0]));
    } else {
        assert(a =~= b);
    }
}

} // verus!

use std::collections::BTreeMap;
use vstd::prelude::*;

verus! {

broadcast use vstd::std_specs::btree::group_btree_axioms;

// ---------------------------------------------------------------------------
// Span maps whose value is the span's end
// ---------------------------------------------------------------------------

/// A span map keys each half-open span `[b, e)` by its start `b`, with value
/// `e`. It is well formed when every span is non-empty and spans are
/// pairwise disjoint.
pub open spec fn spans_wf(m: Map<u64, u64>) -> bool {
    &&& forall|b: u64| #[trigger] m.contains_key(b) ==> b < m[b]
    &&& forall|b1: u64, b2: u64|
        #![trigger m.contains_key(b1), m.contains_key(b2)]
        m.contains_key(b1) && m.contains_key(b2) && b1 < b2 ==> m[b1] <= b2
}

/// Position `x` lies in some span of `m`.
pub open spec fn spans_cover(m: Map<u64, u64>, x: int) -> bool {
    exists|b: u64| #[trigger] m.contains_key(b) && b <= x < m[b]
}

/// The entry with the largest key not above `k`, if any.
fn floor_entry<V: Copy>(map: &BTreeMap<u64, V>, k: u64) -> (r: Option<(u64, V)>)
    ensures
        match r {
            Some((b, e)) => {
                &&& map@.contains_key(b)
                &&& map@[b] == e
                &&& b <= k
                &&& forall|c: u64| #[trigger] map@.contains_key(c) && c <= k ==> c <= b
            },
            None => forall|c: u64| #[trigger] map@.contains_key(c) ==> k < c,
        },
{
    let mut best: Option<(u64, V)> = None;
    for (kk, vv) in it: map.iter()
        invariant
            match best {
                Some((b, e)) => {
                    &&& map@.contains_key(b)
                    &&& map@[b] == e
                    &&& b <= k
                    &&& forall|i: int|
                        0 <= i < it.index() && *it.seq()[i].0 <= k ==> *it.seq()[i].0 <= b
                },
                None => forall|i: int| 0 <= i < it.index() ==> k < *it.seq()[i].0,
            },
    {
        if *kk <= k {
            match best {
                Some((b, _)) => {
                    if *kk > b {
                        best = Some((*kk, *vv));
                    }
                },
                None => {
                    best = Some((*kk, *vv));
                },
            }
        }
    }
    best
}

/// The entry with the smallest key above `k`, if any.
fn next_entry<V: Copy>(map: &BTreeMap<u64, V>, k: u64) -> (r: Option<(u64, V)>)
    ensures
        match r {
            Some((b, e)) => {
                &&& map@.contains_key(b)
                &&& map@[b] == e
                &&& k < b
                &&& forall|c: u64| #[trigger] map@.contains_key(c) && k < c ==> b <= c
            },
            None => forall|c: u64| #[trigger] map@.contains_key(c) ==> c <= k,
        },
{
    let mut best: Option<(u64, V)> = None;
    for (kk, vv) in it: map.iter()
        invariant
            match best {
                Some((b, e)) => {
                    &&& map@.contains_key(b)
                    &&& map@[b] == e
                    &&& k < b
                    &&& forall|i: int|
                        0 <= i < it.index() && k < *it.seq()[i].0 ==> b <= *it.seq()[i].0
                },
                None => forall|i: int| 0 <= i < it.index() ==> *it.seq()[i].0 <= k,
            },
    {
        if *kk > k {
            match best {
                Some((b, _)) => {
                    if *kk < b {
                        best = Some((*kk, *vv));
                    }
                },
                None => {
                    best = Some((*kk, *vv));
                },
            }
        }
    }
    best
}

/// `b` is the start of the span of `m` that contains `c`.
pub open spec fn contains_at(m: Map<u64, u64>, c: u64, b: u64) -> bool {
    m.contains_key(b) && b <= c && c < m[b]
}

/// `b` is the smallest span start of `m` above `c`.
pub open spec fn next_start(m: Map<u64, u64>, c: u64, b: u64) -> bool {
    &&& m.contains_key(b)
    &&& c < b
    &&& forall|k: u64| #[trigger] m.contains_key(k) && c < k ==> b <= k
}

/// What `remove_span` leaves when it resumes at position `c` (looking first
/// for a span that contains `c`) while cutting up to `t`.
pub open spec fn remove_from(m: Map<u64, u64>, c: u64, t: u64) -> Map<u64, u64>
    decreases t - c, 1int,
{
    if exists|b: u64| contains_at(m, c, b) {
        let b = choose|b: u64| contains_at(m, c, b);
        let e = m[b];
        let m1 = if b < c {
            m.insert(b, c)
        } else {
            m.remove(b)
        };
        if t < e {
            m1.insert(t, e)
        } else if t == e {
            m1
        } else {
            remove_after(m1, e, t)
        }
    } else {
        remove_after(m, c, t)
    }
}

/// What `remove_span` leaves when it resumes at position `c` looking only at
/// spans that start above `c`, while cutting up to `t`.
pub open spec fn remove_after(m: Map<u64, u64>, c: u64, t: u64) -> Map<u64, u64>
    decreases t - c, 0int,
{
    if exists|b: u64| next_start(m, c, b) {
        let b = choose|b: u64| next_start(m, c, b);
        let e = m[b];
        if b <= t {
            if t < e {
                m.remove(b).insert(t, e)
            } else if c < e {
                remove_from(m.remove(b), e, t)
            } else {
                m
            }
        } else {
            m
        }
    } else {
        m
    }
}

proof fn lemma_contains_unique(m: Map<u64, u64>, c: u64, b1: u64, b2: u64)
    requires
        spans_wf(m),
        contains_at(m, c, b1),
        contains_at(m, c, b2),
    ensures
        b1 == b2,
{
    if b1 < b2 {
        assert(m[b1] <= b2);
    } else if b2 < b1 {
        assert(m[b2] <= b1);
    }
}

/// Removes `[sbeg, send)` from the spans of `map`, cutting the spans that
/// meet it. A span that starts exactly where the span containing the
/// current position ends is passed over (see `remove_from`). Spans are only
/// cut, never made or joined; when no two spans touch, exactly
/// `[sbeg, send)` is removed, and still no two spans touch.
pub fn remove_span(sbeg: u64, send: u64, map: &mut BTreeMap<u64, u64>)
    requires
        spans_wf(old(map)@),
        sbeg <= send,
    ensures
        spans_wf(final(map)@),
        final(map)@ == remove_from(old(map)@, sbeg, send),
        spans_within(old(map)@, final(map)@),
        spans_separated(old(map)@) ==> forall|x: int| #[trigger]
            spans_cover(final(map)@, x) <==> spans_cover(old(map)@, x) && !(sbeg <= x < send),
        spans_separated(old(map)@) && sbeg < send ==> spans_separated(final(map)@),
{
    proof {
        broadcast use vstd::std_specs::btree::axiom_btree_map_view_finite_dom;
        assert(map@.dom().finite());
        lemma_remove_span_within(map@, sbeg, send);
        if spans_separated(map@) {
            lemma_remove_span_exact(map@, sbeg, send);
            if sbeg < send {
                lemma_remove_keeps_separated(map@, sbeg, send);
            }
        }
    }
    cut_span(sbeg, send, map);
}

/// Cuts `[sbeg, send)` out of the spans of `map` (see `remove_from`).
fn cut_span(sbeg: u64, send: u64, map: &mut BTreeMap<u64, u64>)
    requires
        spans_wf(old(map)@),
        sbeg <= send,
    ensures
        spans_wf(final(map)@),
        final(map)@ == remove_from(old(map)@, sbeg, send),
{
    let ghost target = remove_from(map@, sbeg, send);
    let mut cur = sbeg;
    loop
        invariant
            target == remove_from(old(map)@, sbeg, send),
            spans_wf(map@),
            cur <= send,
            remove_from(map@, cur, send) == target,
        decreases send - cur,
    {
        // find the span starting at or before cur
        let lb = floor_entry(map, cur);
        let ghost m = map@;
        let mut advanced = false;
        if let Some((lbeg, lend)) = lb {
            if cur < lend {
                // lbeg <= cur < lend: cut [cur, min(lend, send))
                proof {
                    assert(contains_at(m, cur, lbeg));
                    let b = choose|b: u64| contains_at(m, cur, b);
                    lemma_contains_unique(m, cur, b, lbeg);
                }
                if lbeg < cur {
                    map.insert(lbeg, cur);
                } else {
                    map.remove(&lbeg);
                }
                if send < lend {
                    map.insert(send, lend);
                    assert(map@ == target);
                    return;
                } else if send == lend {
                    assert(map@ == target);
                    return;
                } else {
                    cur = lend;
                    advanced = true;
                }
            } else {
                proof {
                    assert forall|b: u64| !contains_at(m, cur, b) by {
                        if contains_at(m, cur, b) {
                            assert(b <= lbeg);
                            if b < lbeg {
                                assert(m[b] <= lbeg);
                            }
                        }
                    }
                }
            }
        }
        assert(remove_after(map@, cur, send) == target);
        // find the next span starting after cur
        let ub = next_entry(map, cur);
        let ghost m2 = map@;
        if let Some((ubeg, uend)) = ub {
            proof {
                assert(next_start(m2, cur, ubeg));
                let b = choose|b: u64| next_start(m2, cur, b);
                assert(b <= ubeg && ubeg <= b);
            }
            if ubeg <= send {
                // cur < ubeg <= send
                map.remove(&ubeg);
                if send < uend {
                    map.insert(send, uend);
                    assert(map@ == target);
                    return;
                } else {
                    cur = uend;
                }
            } else {
                assert(map@ == target);
                return;
            }
        } else {
            assert(map@ == target);
            return;
        }
    }
}

/// No two spans of `m` touch: between two spans there is always a gap.
pub open spec fn spans_separated(m: Map<u64, u64>) -> bool {
    forall|b1: u64, b2: u64|
        #![trigger m.contains_key(b1), m.contains_key(b2)]
        m.contains_key(b1) && m.contains_key(b2) && b1 < b2 ==> m[b1] < b2
}

proof fn lemma_cover_remove(m: Map<u64, u64>, k: u64, x: int)
    requires
        spans_wf(m),
        m.contains_key(k),
    ensures
        spans_wf(m.remove(k)),
        spans_cover(m.remove(k), x) <==> spans_cover(m, x) && !(k <= x < m[k]),
{
    if spans_cover(m, x) && !(k <= x < m[k]) {
        let b = choose|b: u64| m.contains_key(b) && b <= x < m[b];
        assert(m.remove(k).contains_key(b));
    }
    if spans_cover(m.remove(k), x) {
        let b = choose|b: u64| m.remove(k).contains_key(b) && b <= x < m.remove(k)[b];
        assert(m.contains_key(b));
        if k <= x < m[k] {
            if b < k {
                assert(m[b] <= k);
            } else {
                assert(m[k] <= b);
            }
        }
    }
}

proof fn lemma_cover_insert(m: Map<u64, u64>, k: u64, e: u64, x: int)
    requires
        spans_wf(m),
        spans_wf(m.insert(k, e)),
    ensures
        spans_cover(m.insert(k, e), x) <==> (k <= x < e) || (spans_cover(m, x) && !(
        m.contains_key(k) && k <= x < m[k])),
{
    let m1 = m.insert(k, e);
    if spans_cover(m1, x) && !(k <= x < e) {
        let b = choose|b: u64| m1.contains_key(b) && b <= x < m1[b];
        assert(b != k);
        assert(m.contains_key(b));
        if m.contains_key(k) && k <= x < m[k] {
            if b < k {
                assert(m[b] <= k);
            } else {
                assert(m[k] <= b);
            }
        }
    }
    if k <= x < e {
        assert(m1.contains_key(k));
    } else if spans_cover(m, x) && !(m.contains_key(k) && k <= x < m[k]) {
        let b = choose|b: u64| m.contains_key(b) && b <= x < m[b];
        assert(b != k);
        assert(m1.contains_key(b));
    }
}

/// Progress of `remove_span` cutting `[s, t)` out of `m0`: outside `[c, t)`
/// the coverage is final, inside it is untouched, and spans starting at or
/// after `c` are those of `m0`.
pub open spec fn cut_progress(m0: Map<u64, u64>, s: u64, t: u64, m: Map<u64, u64>, c: u64) -> bool {
    &&& spans_wf(m)
    &&& m.dom().finite()
    &&& spans_wf(m0)
    &&& spans_separated(m0)
    &&& s <= c <= t
    &&& forall|x: int|
        (x < c || t <= x) ==> (#[trigger] spans_cover(m, x) <==> spans_cover(m0, x) && !(s <= x < t))
    &&& forall|x: int| c <= x < t ==> (#[trigger] spans_cover(m, x) <==> spans_cover(m0, x))
    &&& forall|k: u64| c <= k ==> (#[trigger] m.contains_key(k) <==> m0.contains_key(k))
    &&& forall|k: u64| c <= k && #[trigger] m.contains_key(k) ==> m[k] == m0[k]
}

proof fn lemma_remove_from_cover(m0: Map<u64, u64>, s: u64, t: u64, m: Map<u64, u64>, c: u64)
    requires
        cut_progress(m0, s, t, m, c),
        c == s ==> m == m0,
    ensures
        spans_wf(remove_from(m, c, t)),
        forall|x: int| #[trigger]
            spans_cover(remove_from(m, c, t), x) <==> spans_cover(m0, x) && !(s <= x < t),
    decreases t - c, 1int,
{
    if exists|b: u64| contains_at(m, c, b) {
        let b = choose|b: u64| contains_at(m, c, b);
        let e = m[b];
        let m1 = if b < c {
            m.insert(b, c)
        } else {
            m.remove(b)
        };
        // the span containing c is a span of m0
        if c > s && b < c {
            assert(spans_cover(m, c - 1));
        }
        assert(m0.contains_key(b) && m0[b] == e);
        assert forall|x: int| #[trigger] spans_cover(m1, x) <==> spans_cover(m, x) && !(c <= x < e) by {
            if b < c {
                lemma_cover_insert(m, b, c, x);
            } else {
                lemma_cover_remove(m, b, x);
            }
        }
        if b < c {
            lemma_cover_insert(m, b, c, 0);
        } else {
            lemma_cover_remove(m, b, 0);
        }
        if t < e {
            let m2 = m1.insert(t, e);
            assert(remove_from(m, c, t) == m2);
            assert forall|x: int| #[trigger]
                spans_cover(m2, x) <==> spans_cover(m0, x) && !(s <= x < t) by {
                lemma_cover_insert(m1, t, e, x);
                if c <= x < e {
                    lemma_cover_remove(m, b, x);
                }
            }
        } else if t == e {
            assert(remove_from(m, c, t) == m1);
            assert forall|x: int| #[trigger]
                spans_cover(m1, x) <==> spans_cover(m0, x) && !(s <= x < t) by {
                if c <= x < e {
                    assert(!spans_cover(m1, x));
                }
            }
        } else {
            // no span of m0 starts right at e, so passing over e loses nothing
            assert(!m0.contains_key(e));
            assert forall|k: u64| #[trigger] m1.contains_key(k) && k < e implies m1[k] <= e by {
                if k < b {
                    assert(m[k] <= b);
                }
            }
            assert(cut_progress(m0, s, t, m1, e));
            lemma_remove_after_cover(m0, s, t, m1, e);
            assert(remove_from(m, c, t) == remove_after(m1, e, t));
        }
    } else {
        assert forall|k: u64| #[trigger] m.contains_key(k) && k <= c implies m[k] <= c by {
            assert(!contains_at(m, c, k));
        }
        lemma_remove_after_cover(m0, s, t, m, c);
        assert(remove_from(m, c, t) == remove_after(m, c, t));
    }
}

proof fn lemma_remove_after_cover(m0: Map<u64, u64>, s: u64, t: u64, m: Map<u64, u64>, c: u64)
    requires
        cut_progress(m0, s, t, m, c),
        forall|k: u64| #[trigger] m.contains_key(k) && k <= c ==> m[k] <= c,
    ensures
        spans_wf(remove_after(m, c, t)),
        forall|x: int| #[trigger]
            spans_cover(remove_after(m, c, t), x) <==> spans_cover(m0, x) && !(s <= x < t),
    decreases t - c, 0int,
{
    let has_next = exists|b: u64| next_start(m, c, b);
    if !has_next {
        if exists|k: u64| m.contains_key(k) && c < k {
            let k = choose|k: u64| m.contains_key(k) && c < k;
            lemma_least_key_above(m.dom(), c, k);
            let b = choose|b: u64| least_above(m.dom(), c, b);
            assert(next_start(m, c, b));
        }
    }
    let nb: u64 = if has_next {
        choose|b: u64| next_start(m, c, b)
    } else {
        0
    };
    // from c up to the next span start nothing is covered
    assert forall|x: int| c <= x && (!has_next || x < nb) implies !#[trigger] spans_cover(m, x) by {
        if spans_cover(m, x) {
            let b = choose|b: u64| m.contains_key(b) && b <= x < m[b];
            if b <= c {
                assert(m[b] <= c);
            } else if has_next {
                assert(nb <= b);
            }
        }
    }
    if has_next {
        let b = nb;
        let e = m[b];
        if b <= t {
            let m1 = m.remove(b);
            lemma_cover_remove(m, b, 0);
            if t < e {
                let m2 = m1.insert(t, e);
                assert(remove_after(m, c, t) == m2);
                assert forall|x: int| #[trigger]
                    spans_cover(m2, x) <==> spans_cover(m0, x) && !(s <= x < t) by {
                    lemma_cover_insert(m1, t, e, x);
                    lemma_cover_remove(m, b, x);
                }
            } else {
                assert forall|x: int| #[trigger] spans_cover(m1, x) <==> spans_cover(m, x) && !(b
                    <= x < e) by {
                    lemma_cover_remove(m, b, x);
                }
                assert(cut_progress(m0, s, t, m1, e));
                lemma_remove_from_cover(m0, s, t, m1, e);
                assert(remove_after(m, c, t) == remove_from(m1, e, t));
            }
        } else {
            assert(remove_after(m, c, t) == m);
            assert forall|x: int| #[trigger]
                spans_cover(m, x) <==> spans_cover(m0, x) && !(s <= x < t) by {
                if c <= x < t {
                    assert(!spans_cover(m, x));
                }
            }
        }
    } else {
        assert forall|x: int| #[trigger]
            spans_cover(m, x) <==> spans_cover(m0, x) && !(s <= x < t) by {
            if c <= x < t {
                assert(!spans_cover(m, x));
            }
        }
    }
}

/// Law of `remove_span`: when no two spans of `m` touch, cutting `[s, t)`
/// uncovers exactly the positions of `[s, t)` and keeps every other covered
/// position covered.
pub proof fn lemma_remove_span_exact(m: Map<u64, u64>, s: u64, t: u64)
    requires
        spans_wf(m),
        m.dom().finite(),
        spans_separated(m),
        s <= t,
    ensures
        spans_wf(remove_from(m, s, t)),
        forall|x: int| #[trigger]
            spans_cover(remove_from(m, s, t), x) <==> spans_cover(m, x) && !(s <= x < t),
{
    lemma_remove_from_cover(m, s, t, m, s);
}

/// Every span of `m` is a span of `m0`, ends within `[s, t]`, or starts at
/// `t`: the shapes the spans take while `[s, t)` is cut out of `m0`.
spec fn cut_shape(m0: Map<u64, u64>, s: u64, t: u64, m: Map<u64, u64>) -> bool {
    forall|k: u64|
        #[trigger] m.contains_key(k) ==> (m0.contains_key(k) && m0[k] == m[k]) || (s <= m[k]
            <= t) || k == t
}

proof fn lemma_remove_from_shape(m0: Map<u64, u64>, s: u64, t: u64, m: Map<u64, u64>, c: u64)
    requires
        cut_shape(m0, s, t, m),
        s <= c <= t,
    ensures
        cut_shape(m0, s, t, remove_from(m, c, t)),
    decreases t - c, 1int,
{
    if exists|b: u64| contains_at(m, c, b) {
        let b = choose|b: u64| contains_at(m, c, b);
        let e = m[b];
        let m1 = if b < c {
            m.insert(b, c)
        } else {
            m.remove(b)
        };
        assert(cut_shape(m0, s, t, m1));
        if t < e {
            assert(cut_shape(m0, s, t, m1.insert(t, e)));
        } else if t > e {
            lemma_remove_after_shape(m0, s, t, m1, e);
        }
    } else {
        lemma_remove_after_shape(m0, s, t, m, c);
    }
}

proof fn lemma_remove_after_shape(m0: Map<u64, u64>, s: u64, t: u64, m: Map<u64, u64>, c: u64)
    requires
        cut_shape(m0, s, t, m),
        s <= c <= t,
    ensures
        cut_shape(m0, s, t, remove_after(m, c, t)),
    decreases t - c, 0int,
{
    if exists|b: u64| next_start(m, c, b) {
        let b = choose|b: u64| next_start(m, c, b);
        let e = m[b];
        if b <= t {
            if t < e {
                assert(cut_shape(m0, s, t, m.remove(b).insert(t, e)));
            } else if c < e {
                assert(cut_shape(m0, s, t, m.remove(b)));
                lemma_remove_from_shape(m0, s, t, m.remove(b), e);
            }
        }
    }
}

/// Every span of `m` lies inside some span of `m0`.
pub open spec fn spans_within(m0: Map<u64, u64>, m: Map<u64, u64>) -> bool {
    forall|k: u64|
        #[trigger] m.contains_key(k) ==> exists|k0: u64|
            #[trigger] m0.contains_key(k0) && k0 <= k && m[k] <= m0[k0]
}

/// A span `[b, e)` inside a span of `m`, which lies inside a span of `m0`,
/// lies inside that span of `m0`.
proof fn lemma_within_step(m0: Map<u64, u64>, m: Map<u64, u64>, k: u64, b: u64, e: u64)
    requires
        spans_within(m0, m),
        m.contains_key(k),
        k <= b,
        e <= m[k],
    ensures
        exists|k0: u64| #[trigger] m0.contains_key(k0) && k0 <= b && e <= m0[k0],
{
    let k0 = choose|k0: u64| #[trigger] m0.contains_key(k0) && k0 <= k && m[k] <= m0[k0];
    assert(m0.contains_key(k0) && k0 <= b && e <= m0[k0]);
}

proof fn lemma_remove_from_within(m0: Map<u64, u64>, m: Map<u64, u64>, c: u64, t: u64)
    requires
        spans_within(m0, m),
        c <= t,
    ensures
        spans_within(m0, remove_from(m, c, t)),
    decreases t - c, 1int,
{
    if exists|b: u64| contains_at(m, c, b) {
        let b = choose|b: u64| contains_at(m, c, b);
        let e = m[b];
        let m1 = if b < c {
            m.insert(b, c)
        } else {
            m.remove(b)
        };
        assert(spans_within(m0, m1)) by {
            assert forall|k: u64| #[trigger] m1.contains_key(k) implies exists|k0: u64|
                #[trigger] m0.contains_key(k0) && k0 <= k && m1[k] <= m0[k0] by {
                if k == b && b < c {
                    lemma_within_step(m0, m, b, b, c);
                } else {
                    lemma_within_step(m0, m, k, k, m1[k]);
                }
            }
        }
        if t < e {
            let m2 = m1.insert(t, e);
            assert(spans_within(m0, m2)) by {
                assert forall|k: u64| #[trigger] m2.contains_key(k) implies exists|k0: u64|
                    #[trigger] m0.contains_key(k0) && k0 <= k && m2[k] <= m0[k0] by {
                    if k == t {
                        lemma_within_step(m0, m, b, t, e);
                    } else {
                        assert(m1.contains_key(k) && m2[k] == m1[k]);
                    }
                }
            }
        } else if t > e {
            lemma_remove_after_within(m0, m1, e, t);
        }
    } else {
        lemma_remove_after_within(m0, m, c, t);
    }
}

proof fn lemma_remove_after_within(m0: Map<u64, u64>, m: Map<u64, u64>, c: u64, t: u64)
    requires
        spans_within(m0, m),
        c <= t,
    ensures
        spans_within(m0, remove_after(m, c, t)),
    decreases t - c, 0int,
{
    if exists|b: u64| next_start(m, c, b) {
        let b = choose|b: u64| next_start(m, c, b);
        let e = m[b];
        if b <= t {
            let m1 = m.remove(b);
            assert(spans_within(m0, m1)) by {
                assert forall|k: u64| #[trigger] m1.contains_key(k) implies exists|k0: u64|
                    #[trigger] m0.contains_key(k0) && k0 <= k && m1[k] <= m0[k0] by {
                    lemma_within_step(m0, m, k, k, m1[k]);
                }
            }
            if t < e {
                let m2 = m1.insert(t, e);
                assert(spans_within(m0, m2)) by {
                    assert forall|k: u64| #[trigger] m2.contains_key(k) implies exists|k0: u64|
                        #[trigger] m0.contains_key(k0) && k0 <= k && m2[k] <= m0[k0] by {
                        if k == t {
                            lemma_within_step(m0, m, b, t, e);
                        } else {
                            assert(m1.contains_key(k) && m2[k] == m1[k]);
                        }
                    }
                }
            } else if c < e {
                lemma_remove_from_within(m0, m1, e, t);
            }
        }
    }
}

/// Law of `remove_span`: spans are only cut, never made or joined: every
/// span left after cutting `[s, t)` out of `m` lies inside a span of `m`.
pub proof fn lemma_remove_span_within(m: Map<u64, u64>, s: u64, t: u64)
    requires
        s <= t,
    ensures
        spans_within(m, remove_from(m, s, t)),
{
    assert forall|k: u64| #[trigger] m.contains_key(k) implies exists|k0: u64|
        #[trigger] m.contains_key(k0) && k0 <= k && m[k] <= m[k0] by {
        assert(m.contains_key(k) && k <= k && m[k] <= m[k]);
    }
    lemma_remove_from_within(m, m, s, t);
}

/// Law of `remove_span`: cutting a non-empty range out of a span map whose
/// spans never touch leaves spans that never touch.
pub proof fn lemma_remove_keeps_separated(m: Map<u64, u64>, s: u64, t: u64)
    requires
        spans_wf(m),
        m.dom().finite(),
        spans_separated(m),
        s < t,
    ensures
        spans_separated(remove_from(m, s, t)),
{
    let r = remove_from(m, s, t);
    lemma_remove_from_shape(m, s, t, m, s);
    lemma_remove_span_exact(m, s, t);
    assert forall|b1: u64, b2: u64|
        r.contains_key(b1) && r.contains_key(b2) && b1 < b2 implies r[b1] < b2 by {
        if r[b1] == b2 {
            assert(spans_cover(r, b2 as int));
            assert(spans_cover(r, b2 - 1));
            assert(spans_cover(m, b2 as int));
            assert(spans_cover(m, b2 - 1));
            let k2 = choose|k: u64| #[trigger] m.contains_key(k) && k <= b2 < m[k];
            let k1 = choose|k: u64| #[trigger] m.contains_key(k) && k <= b2 - 1 < m[k];
            if k1 != k2 {
                if k1 < k2 {
                    assert(m[k1] <= k2);
                } else {
                    assert(m[k2] <= k1);
                }
            }
        }
    }
}

// ---------------------------------------------------------------------------
// Span maps whose value is the span's end and a label
// ---------------------------------------------------------------------------

/// A labelled span map keys each span `[b, e)` by `b`, with value `(e, v)`
/// where `v` is the span's label. Spans are non-empty and pairwise disjoint.
pub open spec fn labelled_wf(m: Map<u64, (u64, u64)>) -> bool {
    &&& forall|b: u64| #[trigger] m.contains_key(b) ==> b < m[b].0
    &&& forall|b1: u64, b2: u64|
        #![trigger m.contains_key(b1), m.contains_key(b2)]
        m.contains_key(b1) && m.contains_key(b2) && b1 < b2 ==> m[b1].0 <= b2
}

/// `b` is the start of the labelled span that contains `c`.
pub open spec fn labelled_contains_at(m: Map<u64, (u64, u64)>, c: int, b: u64) -> bool {
    m.contains_key(b) && b <= c && c < m[b].0
}

/// The label of the span that contains `x`, if any.
pub open spec fn label_at(m: Map<u64, (u64, u64)>, x: int) -> Option<u64> {
    if exists|b: u64| labelled_contains_at(m, x, b) {
        Some(m[choose|b: u64| labelled_contains_at(m, x, b)].1)
    } else {
        None
    }
}

/// `b` is the start of a labelled span that ends at `c`.
pub open spec fn labelled_ends_at(m: Map<u64, (u64, u64)>, c: u64, b: u64) -> bool {
    m.contains_key(b) && m[b].0 == c
}

/// `b` is the smallest labelled span start above `c`.
pub open spec fn labelled_next_start(m: Map<u64, (u64, u64)>, c: u64, b: u64) -> bool {
    &&& m.contains_key(b)
    &&& c < b
    &&& forall|k: u64| #[trigger] m.contains_key(k) && c < k ==> b <= k
}

/// What `insert_span` leaves when it resumes at position `c`, filling up to
/// `t` with label `v`: a span that already covers `c` is kept and passed
/// over; otherwise filling starts at `c`, or at the start of a span with
/// label `v` that ends at `c` (which the filled part then extends).
pub open spec fn insert_from(m: Map<u64, (u64, u64)>, c: u64, t: u64, v: u64) -> Map<u64, (u64, u64)>
    decreases t - c, 1int,
{
    if exists|b: u64| labelled_contains_at(m, c as int, b) {
        let b = choose|b: u64| labelled_contains_at(m, c as int, b);
        let e = m[b].0;
        if t <= e {
            m
        } else {
            insert_from(m, e, t, v)
        }
    } else if exists|b: u64| labelled_ends_at(m, c, b) && m[b].1 == v {
        let b = choose|b: u64| labelled_ends_at(m, c, b) && m[b].1 == v;
        insert_next(m, b, c, t, v)
    } else {
        insert_next(m, c, c, t, v)
    }
}

/// What `insert_span` leaves when it fills from `from` (with `from <= c`,
/// and `[from, c)` already labelled `v` when `from < c`) towards `t`: the
/// filling stops at the next span start above `from`, merging with that span
/// when it has label `v`, and resumes after it.
pub open spec fn insert_next(m: Map<u64, (u64, u64)>, from: u64, c: u64, t: u64, v: u64) -> Map<
    u64,
    (u64, u64),
>
    decreases t - c, 0int,
{
    if exists|b: u64| labelled_next_start(m, from, b) {
        let b = choose|b: u64| labelled_next_start(m, from, b);
        let (ue, uv) = m[b];
        if b <= t {
            let m1 = if uv == v {
                m.remove(b).insert(from, (ue, v))
            } else {
                m.insert(from, (b, v))
            };
            if ue < t && c < ue {
                insert_from(m1, ue, t, v)
            } else {
                m1
            }
        } else {
            m.insert(from, (t, v))
        }
    } else {
        m.insert(from, (t, v))
    }
}

proof fn lemma_labelled_contains_unique(m: Map<u64, (u64, u64)>, c: int, b1: u64, b2: u64)
    requires
        labelled_wf(m),
        labelled_contains_at(m, c, b1),
        labelled_contains_at(m, c, b2),
    ensures
        b1 == b2,
{
    if b1 < b2 {
        assert(m[b1].0 <= b2);
    } else if b2 < b1 {
        assert(m[b2].0 <= b1);
    }
}

/// What labelling the empty or reversed range `[c, t)` (`t <= c`) with `v`
/// leaves: nothing changes where a span holds `c`; a span labelled `v` that
/// ends at `c` is made to end at `t`; otherwise the entry `c -> (t, v)` is
/// stored as it is.
pub open spec fn insert_reversed(m: Map<u64, (u64, u64)>, c: u64, t: u64, v: u64) -> Map<
    u64,
    (u64, u64),
> {
    if exists|b: u64| labelled_contains_at(m, c as int, b) {
        m
    } else if exists|b: u64| labelled_ends_at(m, c, b) && m[b].1 == v {
        let b = choose|b: u64| labelled_ends_at(m, c, b) && m[b].1 == v;
        m.insert(b, (t, v))
    } else {
        m.insert(c, (t, v))
    }
}

/// Labels the parts of `[sbeg, send)` that no span of `map` covers yet with
/// `val`, joining them with neighbouring spans labelled `val`. Spans already
/// in the map keep their labels (`lemma_insert_span_labels`). An empty or
/// reversed range is stored as it is given (see `insert_reversed`).
pub fn insert_span(sbeg: u64, send: u64, val: u64, map: &mut BTreeMap<u64, (u64, u64)>)
    requires
        labelled_wf(old(map)@),
    ensures
        sbeg < send ==> labelled_wf(final(map)@),
        sbeg < send ==> final(map)@ == insert_from(old(map)@, sbeg, send, val),
        sbeg >= send ==> final(map)@ == insert_reversed(old(map)@, sbeg, send, val),
        sbeg < send ==> forall|x: int| #[trigger]
            label_at(final(map)@, x) == filled_label(old(map)@, sbeg, send, val, x),
        sbeg < send && spans_merged(old(map)@) ==> spans_merged(final(map)@),
{
    proof {
        broadcast use vstd::std_specs::btree::axiom_btree_map_view_finite_dom;
        assert(map@.dom().finite());
        if sbeg < send {
            lemma_insert_span_labels(map@, sbeg, send, val);
            if spans_merged(map@) {
                lemma_insert_span_merges(map@, sbeg, send, val);
            }
        }
    }
    label_span(sbeg, send, val, map);
}

/// Labels `[sbeg, send)` with `val` where no span covers it yet (see
/// `insert_from` and `insert_reversed`).
fn label_span(sbeg: u64, send: u64, val: u64, map: &mut BTreeMap<u64, (u64, u64)>)
    requires
        labelled_wf(old(map)@),
    ensures
        sbeg < send ==> labelled_wf(final(map)@),
        sbeg < send ==> final(map)@ == insert_from(old(map)@, sbeg, send, val),
        sbeg >= send ==> final(map)@ == insert_reversed(old(map)@, sbeg, send, val),
{
    if sbeg >= send {
        let lb = floor_entry(map, sbeg);
        if let Some((lbeg, (lend, lv))) = lb {
            if sbeg < lend {
                // a span already holds sbeg
                assert(labelled_contains_at(map@, sbeg as int, lbeg));
                return;
            }
            proof {
                assert forall|b: u64| !labelled_contains_at(map@, sbeg as int, b) by {
                    if labelled_contains_at(map@, sbeg as int, b) {
                        assert(b <= lbeg);
                        if b < lbeg {
                            assert(map@[b].0 <= lbeg);
                        }
                    }
                }
            }
            if sbeg == lend && lv == val {
                // the span with label val that ends at sbeg now ends at send
                assert(labelled_ends_at(map@, sbeg, lbeg) && map@[lbeg].1 == val);
                proof {
                    let b = choose|b: u64| labelled_ends_at(map@, sbeg, b) && map@[b].1 == val;
                    if b != lbeg {
                        if b < lbeg {
                            assert(map@[b].0 <= lbeg);
                        } else {
                            assert(b <= sbeg);
                        }
                    }
                }
                map.insert(lbeg, (send, val));
                return;
            }
            proof {
                assert forall|b: u64| !(labelled_ends_at(map@, sbeg, b) && map@[b].1 == val) by {
                    if labelled_ends_at(map@, sbeg, b) && map@[b].1 == val {
                        assert(b < sbeg);
                        assert(b <= lbeg);
                        if b < lbeg {
                            assert(map@[b].0 <= lbeg);
                        }
                    }
                }
            }
        } else {
            proof {
                assert forall|b: u64| !labelled_contains_at(map@, sbeg as int, b) by {}
                assert forall|b: u64| !(labelled_ends_at(map@, sbeg, b) && map@[b].1 == val) by {
                    if labelled_ends_at(map@, sbeg, b) {
                        assert(b < map@[b].0);
                    }
                }
            }
        }
        map.insert(sbeg, (send, val));
        return;
    }
    let ghost target = insert_from(map@, sbeg, send, val);
    let mut cur = sbeg;
    loop
        invariant
            sbeg < send,
            target == insert_from(old(map)@, sbeg, send, val),
            labelled_wf(map@),
            cur < send,
            insert_from(map@, cur, send, val) == target,
        decreases send - cur,
    {
        let ghost m = map@;
        let ghost c = cur;
        let mut from = cur;
        // find the span starting at or before cur
        let lb = floor_entry(map, cur);
        if let Some((lbeg, (lend, lv))) = lb {
            if cur < lend {
                proof {
                    assert(labelled_contains_at(m, cur as int, lbeg));
                    let b = choose|b: u64| labelled_contains_at(m, cur as int, b);
                    lemma_labelled_contains_unique(m, cur as int, b, lbeg);
                }
                // lbeg <= cur < lend
                if send <= lend {
                    // [cur, send) is already covered
                    return;
                } else {
                    // skip to the end of the covering span
                    cur = lend;
                    continue;
                }
            } else {
                proof {
                    assert forall|b: u64| !labelled_contains_at(m, cur as int, b) by {
                        if labelled_contains_at(m, cur as int, b) {
                            assert(b <= lbeg);
                            if b < lbeg {
                                assert(m[b].0 <= lbeg);
                            }
                        }
                    }
                }
                if cur == lend && val == lv {
                    // merge with the preceding span of the same label
                    proof {
                        assert(labelled_ends_at(m, cur, lbeg) && m[lbeg].1 == val);
                        let b = choose|b: u64| labelled_ends_at(m, cur, b) && m[b].1 == val;
                        if b < lbeg {
                            assert(m[b].0 <= lbeg);
                        } else if lbeg < b {
                            assert(b <= cur);
                        }
                    }
                    from = lbeg;
                } else {
                    proof {
                        assert forall|b: u64| !(labelled_ends_at(m, cur, b) && m[b].1 == val) by {
                            if labelled_ends_at(m, cur, b) && m[b].1 == val {
                                assert(b < cur);
                                assert(b <= lbeg);
                                if b < lbeg {
                                    assert(m[b].0 <= lbeg);
                                }
                            }
                        }
                    }
                }
            }
        } else {
            proof {
                assert forall|b: u64| !(labelled_ends_at(m, cur, b) && m[b].1 == val) by {
                    if labelled_ends_at(m, cur, b) {
                        assert(b < m[b].0);
                    }
                }
            }
        }
        assert(insert_next(map@, from, cur, send, val) == target);
        // find the next span starting after from
        let ub = next_entry(map, from);
        if let Some((ubeg, (uend, uv))) = ub {
            proof {
                assert(labelled_next_start(m, from, ubeg));
                let b = choose|b: u64| labelled_next_start(m, from, b);
                assert(b <= ubeg && ubeg <= b);
            }
            if ubeg <= send {
                if uv == val {
                    // merge with the following span of the same label
                    map.remove(&ubeg);
                    map.insert(from, (uend, val));
                } else {
                    // fill up to the following span
                    map.insert(from, (ubeg, val));
                }
                if uend < send {
                    cur = uend;
                } else {
                    return;
                }
            } else {
                map.insert(from, (send, val));
                return;
            }
        } else {
            map.insert(from, (send, val));
            return;
        }
    }
}

/// The label `insert_span(s, t, v, ..)` should give position `x`: the label
/// `x` already has, or `v` when `x` is uncovered and in `[s, t)`.
pub open spec fn filled_label(m0: Map<u64, (u64, u64)>, s: u64, t: u64, v: u64, x: int) -> Option<
    u64,
> {
    if label_at(m0, x) is Some {
        label_at(m0, x)
    } else if s <= x < t {
        Some(v)
    } else {
        None
    }
}

pub(crate) proof fn lemma_label_at(m: Map<u64, (u64, u64)>, x: int, b: u64)
    requires
        labelled_wf(m),
        labelled_contains_at(m, x, b),
    ensures
        label_at(m, x) == Some(m[b].1),
{
    let b2 = choose|b2: u64| labelled_contains_at(m, x, b2);
    lemma_labelled_contains_unique(m, x, b2, b);
}

proof fn lemma_label_insert(m: Map<u64, (u64, u64)>, k: u64, e: u64, w: u64, x: int)
    requires
        labelled_wf(m),
        labelled_wf(m.insert(k, (e, w))),
    ensures
        label_at(m.insert(k, (e, w)), x) == if k <= x < e {
            Some(w)
        } else if m.contains_key(k) && k <= x < m[k].0 {
            None
        } else {
            label_at(m, x)
        },
{
    let m1 = m.insert(k, (e, w));
    if k <= x < e {
        lemma_label_at(m1, x, k);
    } else if m.contains_key(k) && k <= x < m[k].0 {
        assert forall|b: u64| !labelled_contains_at(m1, x, b) by {
            if labelled_contains_at(m1, x, b) && b != k {
                lemma_labelled_contains_unique(m, x, b, k);
            }
        }
    } else if exists|b: u64| labelled_contains_at(m, x, b) {
        let b = choose|b: u64| labelled_contains_at(m, x, b);
        lemma_label_at(m, x, b);
        assert(b != k);
        lemma_label_at(m1, x, b);
    } else {
        assert forall|b: u64| !labelled_contains_at(m1, x, b) by {
            if labelled_contains_at(m1, x, b) {
                assert(b != k);
                assert(labelled_contains_at(m, x, b));
            }
        }
    }
}

proof fn lemma_label_remove(m: Map<u64, (u64, u64)>, k: u64, x: int)
    requires
        labelled_wf(m),
    ensures
        labelled_wf(m.remove(k)),
        label_at(m.remove(k), x) == if m.contains_key(k) && k <= x < m[k].0 {
            None
        } else {
            label_at(m, x)
        },
{
    let m1 = m.remove(k);
    if m.contains_key(k) && k <= x < m[k].0 {
        assert forall|b: u64| !labelled_contains_at(m1, x, b) by {
            if labelled_contains_at(m1, x, b) {
                lemma_labelled_contains_unique(m, x, b, k);
            }
        }
    } else if exists|b: u64| labelled_contains_at(m, x, b) {
        let b = choose|b: u64| labelled_contains_at(m, x, b);
        lemma_label_at(m, x, b);
        lemma_label_at(m1, x, b);
    } else {
        assert forall|b: u64| !labelled_contains_at(m1, x, b) by {
            if labelled_contains_at(m1, x, b) {
                assert(labelled_contains_at(m, x, b));
            }
        }
    }
}

/// Progress of `insert_span` towards the labels `filled_label` describes:
/// everything outside `[c, t)` is done, and `[c, t)` is as it was.
pub open spec fn fill_progress(
    m0: Map<u64, (u64, u64)>,
    s: u64,
    t: u64,
    v: u64,
    m: Map<u64, (u64, u64)>,
    c: u64,
) -> bool {
    &&& labelled_wf(m)
    &&& m.dom().finite()
    &&& s <= c < t
    &&& forall|x: int| (x < c || t <= x) ==> #[trigger] label_at(m, x) == filled_label(m0, s, t, v, x)
    &&& forall|x: int| c <= x < t ==> #[trigger] label_at(m, x) == label_at(m0, x)
}

proof fn lemma_insert_from_labels(
    m0: Map<u64, (u64, u64)>,
    s: u64,
    t: u64,
    v: u64,
    m: Map<u64, (u64, u64)>,
    c: u64,
)
    requires
        fill_progress(m0, s, t, v, m, c),
    ensures
        labelled_wf(insert_from(m, c, t, v)),
        forall|x: int| #[trigger]
            label_at(insert_from(m, c, t, v), x) == filled_label(m0, s, t, v, x),
    decreases t - c, 1int,
{
    if exists|b: u64| labelled_contains_at(m, c as int, b) {
        let b = choose|b: u64| labelled_contains_at(m, c as int, b);
        let e = m[b].0;
        assert forall|x: int| c <= x < e implies #[trigger] label_at(m, x) == Some(m[b].1) by {
            lemma_label_at(m, x, b);
        }
        if t <= e {
            assert forall|x: int| #[trigger]
                label_at(m, x) == filled_label(m0, s, t, v, x) by {
                if c <= x < t {
                    assert(label_at(m, x) == Some(m[b].1));
                }
            }
        } else {
            assert(fill_progress(m0, s, t, v, m, e)) by {
                assert forall|x: int| (x < e || t <= x) implies #[trigger] label_at(m, x)
                    == filled_label(m0, s, t, v, x) by {
                    if c <= x < e {
                        assert(label_at(m, x) == Some(m[b].1));
                    }
                }
            }
            lemma_insert_from_labels(m0, s, t, v, m, e);
        }
    } else if exists|b: u64| labelled_ends_at(m, c, b) && m[b].1 == v {
        let b = choose|b: u64| labelled_ends_at(m, c, b) && m[b].1 == v;
        lemma_insert_next_labels(m0, s, t, v, m, b, c);
    } else {
        lemma_insert_next_labels(m0, s, t, v, m, c, c);
    }
}

proof fn lemma_insert_next_labels(
    m0: Map<u64, (u64, u64)>,
    s: u64,
    t: u64,
    v: u64,
    m: Map<u64, (u64, u64)>,
    from: u64,
    c: u64,
)
    requires
        fill_progress(m0, s, t, v, m, c),
        forall|b: u64| !labelled_contains_at(m, c as int, b),
        from <= c,
        from < c ==> m.contains_key(from) && m[from] == (c, v),
    ensures
        labelled_wf(insert_next(m, from, c, t, v)),
        forall|x: int| #[trigger]
            label_at(insert_next(m, from, c, t, v), x) == filled_label(m0, s, t, v, x),
    decreases t - c, 0int,
{
    // every key below `from` ends by `from`, and nothing starts in (from, c]
    assert forall|k: u64| #[trigger] m.contains_key(k) && k < from implies m[k].0 <= from by {
        if from < c {
            assert(m[k].0 <= from);
        } else {
            assert(!labelled_contains_at(m, c as int, k));
        }
    }
    // positions from c up to the next start are uncovered, so they get v
    let has_next = exists|b: u64| labelled_next_start(m, from, b);
    if !has_next {
        if exists|k: u64| m.contains_key(k) && from < k {
            let k = choose|k: u64| m.contains_key(k) && from < k;
            lemma_least_key_above(m.dom(), from, k);
            let b = choose|b: u64| least_above(m.dom(), from, b);
            assert(labelled_next_start(m, from, b));
        }
    }
    let nb: u64 = if has_next {
        choose|b: u64| labelled_next_start(m, from, b)
    } else {
        0
    };
    assert forall|x: int| c <= x && (!has_next || x < nb) implies #[trigger] label_at(m, x)
        is None by {
        assert forall|b: u64| !labelled_contains_at(m, x, b) by {
            if labelled_contains_at(m, x, b) {
                if b < from {
                    assert(m[b].0 <= from);
                } else if b == from {
                    if from < c {
                        assert(m[b].0 == c);
                    } else {
                        assert(labelled_contains_at(m, c as int, b));
                    }
                } else {
                    if has_next {
                        assert(nb <= b);
                    }
                }
            }
        }
    }
    if from < c {
        assert forall|x: int| from <= x < c implies #[trigger] label_at(m, x) == Some(v) by {
            lemma_label_at(m, x, from);
        }
    }
    if has_next {
        let b = nb;
        let (ue, uv) = m[b];
        if b <= t {
            if uv == v {
                let m2 = m.remove(b);
                let m1 = m2.insert(from, (ue, v));
                lemma_label_remove(m, b, 0);
                assert(labelled_wf(m1));
                assert forall|x: int| #[trigger] label_at(m1, x) == if from <= x < ue {
                    Some(v)
                } else {
                    label_at(m, x)
                } by {
                    lemma_label_remove(m, b, x);
                    lemma_label_insert(m2, from, ue, v, x);
                }
                assert forall|x: int| b <= x < ue implies #[trigger] label_at(m, x) == Some(v) by {
                    lemma_label_at(m, x, b);
                }
                if ue < t && c < ue {
                    assert(fill_progress(m0, s, t, v, m1, ue));
                    lemma_insert_from_labels(m0, s, t, v, m1, ue);
                } else {
                    assert forall|x: int| #[trigger]
                        label_at(m1, x) == filled_label(m0, s, t, v, x) by {
                        if c <= x < t {
                            assert(label_at(m, x) == label_at(m0, x));
                        }
                    }
                }
            } else {
                let m1 = m.insert(from, (b, v));
                assert(labelled_wf(m1));
                assert forall|x: int| #[trigger] label_at(m1, x) == if from <= x < b {
                    Some(v)
                } else {
                    label_at(m, x)
                } by {
                    lemma_label_insert(m, from, b, v, x);
                }
                assert forall|x: int| b <= x < ue implies #[trigger] label_at(m, x) == Some(uv) by {
                    lemma_label_at(m, x, b);
                }
                if ue < t && c < ue {
                    assert(fill_progress(m0, s, t, v, m1, ue));
                    lemma_insert_from_labels(m0, s, t, v, m1, ue);
                } else {
                    assert forall|x: int| #[trigger]
                        label_at(m1, x) == filled_label(m0, s, t, v, x) by {
                        if c <= x < t {
                            assert(label_at(m, x) == label_at(m0, x));
                        }
                    }
                }
            }
        } else {
            let m1 = m.insert(from, (t, v));
            assert(labelled_wf(m1));
            assert forall|x: int| #[trigger]
                label_at(m1, x) == filled_label(m0, s, t, v, x) by {
                lemma_label_insert(m, from, t, v, x);
            }
        }
    } else {
        let m1 = m.insert(from, (t, v));
        assert(labelled_wf(m1));
        assert forall|x: int| #[trigger] label_at(m1, x) == filled_label(m0, s, t, v, x) by {
            lemma_label_insert(m, from, t, v, x);
        }
    }
}

/// Spans of a map that touch carry different labels: touching spans with
/// equal labels are joined into one.
pub open spec fn spans_merged(m: Map<u64, (u64, u64)>) -> bool {
    forall|b1: u64, b2: u64|
        #![trigger m.contains_key(b1), m.contains_key(b2)]
        m.contains_key(b1) && m.contains_key(b2) && m[b1].0 == b2 ==> m[b1].1 != m[b2].1
}

proof fn lemma_insert_from_merged(m: Map<u64, (u64, u64)>, c: u64, t: u64, v: u64)
    requires
        labelled_wf(m),
        m.dom().finite(),
        spans_merged(m),
        c < t,
    ensures
        spans_merged(insert_from(m, c, t, v)),
    decreases t - c, 1int,
{
    if exists|b: u64| labelled_contains_at(m, c as int, b) {
        let b = choose|b: u64| labelled_contains_at(m, c as int, b);
        let e = m[b].0;
        if t > e {
            lemma_insert_from_merged(m, e, t, v);
        }
    } else if exists|b: u64| labelled_ends_at(m, c, b) && m[b].1 == v {
        let b = choose|b: u64| labelled_ends_at(m, c, b) && m[b].1 == v;
        lemma_insert_next_merged(m, b, c, t, v);
    } else {
        lemma_insert_next_merged(m, c, c, t, v);
    }
}

proof fn lemma_insert_next_merged(m: Map<u64, (u64, u64)>, from: u64, c: u64, t: u64, v: u64)
    requires
        labelled_wf(m),
        m.dom().finite(),
        spans_merged(m),
        c < t,
        forall|b: u64| !labelled_contains_at(m, c as int, b),
        from <= c,
        from < c ==> m.contains_key(from) && m[from] == (c, v),
        from == c ==> !(exists|b: u64| labelled_ends_at(m, c, b) && m[b].1 == v),
    ensures
        spans_merged(insert_next(m, from, c, t, v)),
    decreases t - c, 0int,
{
    // every key below `from` ends by `from`
    assert forall|k: u64| #[trigger] m.contains_key(k) && k < from implies m[k].0 <= from by {
        if from < c {
            assert(m[k].0 <= from);
        } else {
            assert(!labelled_contains_at(m, c as int, k));
        }
    }
    // a span that ends at `from` has another label than `v`
    assert forall|k: u64| #[trigger] m.contains_key(k) && m[k].0 == from && k != from implies m[k].1
        != v by {
        if from < c {
            assert(m.contains_key(from));
        } else {
            assert(labelled_ends_at(m, c, k));
        }
    }
    let has_next = exists|b: u64| labelled_next_start(m, from, b);
    if !has_next {
        if exists|k: u64| m.contains_key(k) && from < k {
            let k = choose|k: u64| m.contains_key(k) && from < k;
            lemma_least_key_above(m.dom(), from, k);
            let b = choose|b: u64| least_above(m.dom(), from, b);
            assert(labelled_next_start(m, from, b));
        }
    }
    if has_next {
        let b = choose|b: u64| labelled_next_start(m, from, b);
        let (ue, uv) = m[b];
        // nothing starts in (from, c]
        assert(c < b) by {
            if b <= c {
                assert(from < c);
                assert(m.contains_key(from) && m.contains_key(b) && from < b);
                assert(m[from].0 <= b);
                assert(b == c);
                assert(labelled_contains_at(m, c as int, b));
            }
        }
        if b <= t {
            let m1 = if uv == v {
                m.remove(b).insert(from, (ue, v))
            } else {
                m.insert(from, (b, v))
            };
            assert(labelled_wf(m1)) by {
                assert forall|k: u64| #[trigger] m1.contains_key(k) implies k < m1[k].0 by {}
                assert forall|k1: u64, k2: u64|
                    #![trigger m1.contains_key(k1), m1.contains_key(k2)]
                    m1.contains_key(k1) && m1.contains_key(k2) && k1 < k2 implies m1[k1].0 <= k2 by {
                    if k2 == from {
                        assert(m[k1].0 <= from);
                    } else if k1 == from {
                        assert(b <= k2);
                        if uv == v {
                            assert(k2 != b);
                            assert(m[b].0 <= k2);
                        }
                    }
                }
            }
            assert(spans_merged(m1)) by {
                assert forall|k1: u64, k2: u64|
                    #![trigger m1.contains_key(k1), m1.contains_key(k2)]
                    m1.contains_key(k1) && m1.contains_key(k2) && m1[k1].0 == k2 implies m1[k1].1
                        != m1[k2].1 by {
                    if k1 == from {
                        if uv == v {
                            assert(m.contains_key(k2) && m[b].0 == k2);
                        }
                    } else if k2 == from {
                        assert(m[k1].0 == from);
                    } else {
                        assert(m.contains_key(k1) && m.contains_key(k2));
                    }
                }
            }
            if ue < t && c < ue {
                assert(m1.dom().finite());
                lemma_insert_from_merged(m1, ue, t, v);
            }
        } else {
            let m1 = m.insert(from, (t, v));
            assert(spans_merged(m1)) by {
                assert forall|k1: u64, k2: u64|
                    #![trigger m1.contains_key(k1), m1.contains_key(k2)]
                    m1.contains_key(k1) && m1.contains_key(k2) && m1[k1].0 == k2 implies m1[k1].1
                        != m1[k2].1 by {
                    if k1 == from {
                        assert(k2 == t);
                        assert(!(from < k2 && k2 < b));
                    } else if k2 == from {
                        assert(m[k1].0 == from);
                    }
                }
            }
        }
    } else {
        let m1 = m.insert(from, (t, v));
        assert(spans_merged(m1)) by {
            assert forall|k1: u64, k2: u64|
                #![trigger m1.contains_key(k1), m1.contains_key(k2)]
                m1.contains_key(k1) && m1.contains_key(k2) && m1[k1].0 == k2 implies m1[k1].1
                    != m1[k2].1 by {
                if k1 == from {
                    assert(k2 == t);
                    assert(!(m.contains_key(k2) && from < k2));
                } else if k2 == from {
                    assert(m[k1].0 == from);
                }
            }
        }
    }
}

/// Law of `insert_span`: spans that touch keep different labels. A map
/// whose touching spans carry different labels keeps that property when a
/// range is labelled: a new span that meets a span with its label is joined
/// to it.
pub proof fn lemma_insert_span_merges(m: Map<u64, (u64, u64)>, s: u64, t: u64, v: u64)
    requires
        labelled_wf(m),
        m.dom().finite(),
        spans_merged(m),
        s < t,
    ensures
        spans_merged(insert_from(m, s, t, v)),
{
    lemma_insert_from_merged(m, s, t, v);
}

/// `b` is the least element of `dom` above `c`.
pub open spec fn least_above(dom: Set<u64>, c: u64, b: u64) -> bool {
    &&& dom.contains(b)
    &&& c < b
    &&& forall|k: u64| #[trigger] dom.contains(k) && c < k ==> b <= k
}

proof fn lemma_least_key_above(dom: Set<u64>, c: u64, k: u64)
    requires
        dom.finite(),
        dom.contains(k),
        c < k,
    ensures
        exists|b: u64| least_above(dom, c, b),
    decreases dom.len(),
{
    let rest = dom.remove(k);
    assert(rest.len() < dom.len());
    if exists|k2: u64| rest.contains(k2) && c < k2 {
        let k2 = choose|k2: u64| rest.contains(k2) && c < k2;
        lemma_least_key_above(rest, c, k2);
        let b = choose|b: u64| least_above(rest, c, b);
        if k < b {
            assert(least_above(dom, c, k));
        } else {
            assert(least_above(dom, c, b));
        }
    } else {
        assert(least_above(dom, c, k));
    }
}

/// Law of `insert_span`: afterwards every position keeps the label it had,
/// and the positions of `[s, t)` that were not covered carry `v`; nothing
/// else becomes covered.
pub proof fn lemma_insert_span_labels(m: Map<u64, (u64, u64)>, s: u64, t: u64, v: u64)
    requires
        labelled_wf(m),
        m.dom().finite(),
        s < t,
    ensures
        labelled_wf(insert_from(m, s, t, v)),
        forall|x: int| #[trigger]
            label_at(insert_from(m, s, t, v), x) == filled_label(m, s, t, v, x),
{
    assert forall|x: int| (x < s || t <= x) implies #[trigger] label_at(m, x) == filled_label(
        m,
        s,
        t,
        v,
        x,
    ) by {}
    lemma_insert_from_labels(m, s, t, v, m, s);
}

} // verus!

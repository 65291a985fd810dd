//! Associative set from an interval to some value. The intervals are always
//! disjunct but there is a possibility they will touch.

use vstd::prelude::*;
use crate::endpoint::Endpoint;
use crate::bound::{lo_lt, hi_lt};
use crate::interval::{Interval, IntervalRelation, relation_of, lemma_relation_splits};

verus! {

#[derive(Debug, PartialEq, Eq)]
pub struct IntervalMap<K, V> {
    pub intervals: Vec<(Interval<K>, V)>,
}

/// The two values handed to the unification function where an inserted
/// entry meets an existing one.
pub struct Unification<V> {
    pub existing: V,
    pub inserted: V,
}

/// `b` is `a` or a clone of it.
pub open spec fn copy_of<V: Clone>(a: V, b: V) -> bool {
    b == a || cloned(a, b)
}

/// `w` is what `unify` may answer for copies of `existing` and `inserted`.
pub open spec fn unified_by<V: Clone, F: Fn(Unification<V>) -> V>(unify: F, existing: V, inserted: V, w: V) -> bool {
    exists|e: V, i: V|
        copy_of(existing, e) && copy_of(inserted, i) && call_ensures(
            unify,
            (Unification { existing: e, inserted: i },),
            w,
        )
}

/// The value that a point receives on insertion, given whether the existing
/// entry and the inserted key hold it.
pub open spec fn value_after<V: Clone, F: Fn(Unification<V>) -> V>(
    unify: F,
    in_existing: bool,
    in_inserted: bool,
    existing: V,
    inserted: V,
    w: V,
) -> bool {
    if in_existing && in_inserted {
        unified_by(unify, existing, inserted, w)
    } else if in_existing {
        copy_of(existing, w)
    } else {
        copy_of(inserted, w)
    }
}

/// The keys are proper, sorted and never overlap (they may touch).
pub open spec fn sorted_wf<K: Endpoint, V>(s: Seq<(Interval<K>, V)>) -> bool {
    &&& forall|i: int| 0 <= i < s.len() ==> (#[trigger] s[i]).0.is_proper()
    &&& forall|i: int, j: int| 0 <= i < j < s.len() ==> (#[trigger] s[i]).0.spec_before((#[trigger] s[j]).0)
}

/// The keys that hold a point come first, sorted and never overlapping
/// (they may touch); the keys that hold no point follow them, in the order
/// they were inserted.
pub open spec fn map_wf<K: Endpoint, V>(s: Seq<(Interval<K>, V)>) -> bool {
    forall|i: int, j: int|
        0 <= i < j < s.len() && (#[trigger] s[j]).0.is_proper() ==> (#[trigger] s[i]).0.is_proper() && s[i].0.spec_before(
            s[j].0,
        )
}

/// Some key of `s` holds the point `p`.
pub open spec fn map_covers<K: Endpoint, V>(s: Seq<(Interval<K>, V)>, p: int) -> bool {
    exists|i: int| 0 <= i < s.len() && (#[trigger] s[i]).0.has_point(p)
}

/// The key of `s` holding `p` maps to `w`.
pub open spec fn maps_to<K: Endpoint, V>(s: Seq<(Interval<K>, V)>, p: int, w: V) -> bool {
    exists|i: int| 0 <= i < s.len() && (#[trigger] s[i]).0.has_point(p) && s[i].1 == w
}

/// The intervals share a point (for proper intervals).
pub open spec fn intersects<K: Endpoint>(a: Interval<K>, b: Interval<K>) -> bool {
    !a.spec_before(b) && !b.spec_before(a)
}

/// What the pieces replacing one existing entry `(ei, ev)` met by an inserted
/// entry `(ki, kv)` satisfy.
pub open spec fn pieces_replace<K: Endpoint, V: Clone, F: Fn(Unification<V>) -> V>(
    unify: F,
    ei: Interval<K>,
    ev: V,
    ki: Interval<K>,
    kv: V,
    ps: Seq<(Interval<K>, V)>,
) -> bool {
    &&& sorted_wf(ps)
    &&& forall|p: int| #![trigger map_covers(ps, p)] map_covers(ps, p) <==> (ei.has_point(p) || ki.has_point(p))
    &&& forall|a: int, p: int|
        0 <= a < ps.len() && #[trigger] ps[a].0.has_point(p) ==> value_after(
            unify,
            ei.has_point(p),
            ki.has_point(p),
            ev,
            kv,
            ps[a].1,
        )
    &&& forall|a: int|
        0 <= a < ps.len() ==> (!lo_lt((#[trigger] ps[a]).0.lo(), ei.lo()) || !lo_lt(ps[a].0.lo(), ki.lo()))
            && (!hi_lt(ei.hi(), ps[a].0.hi()) || !hi_lt(ki.hi(), ps[a].0.hi()))
}

/// The exact pieces that replace an existing entry `(ei, ev)` met by an
/// inserted entry `(ki, kv)`: the part before the later start, owned by the
/// entry that starts first; the shared part, with the unified value; and the
/// part after the earlier end, owned by the entry that ends last. The outer
/// pieces are there only where the two starts, or the two ends, differ.
pub open spec fn pieces_exact<K: Endpoint, V: Clone, F: Fn(Unification<V>) -> V>(
    unify: F,
    ei: Interval<K>,
    ev: V,
    ki: Interval<K>,
    kv: V,
    ps: Seq<(Interval<K>, V)>,
) -> bool {
    let has_head = ei.lo() != ki.lo();
    let head_existing = lo_lt(ei.lo(), ki.lo());
    let has_tail = ei.hi() != ki.hi();
    let tail_existing = hi_lt(ki.hi(), ei.hi());
    let mid_lo = if head_existing { ki.lo() } else { ei.lo() };
    let mid_hi = if tail_existing { ki.hi() } else { ei.hi() };
    let m: int = if has_head { 1 } else { 0 };
    &&& ps.len() == m + 1 + (if has_tail { 1int } else { 0 })
    &&& has_head ==> {
        &&& ps[0].0.lo() == (if head_existing { ei.lo() } else { ki.lo() })
        &&& ps[0].0.hi() == mid_lo
        &&& copy_of(if head_existing { ev } else { kv }, ps[0].1)
    }
    &&& ps[m].0.lo() == mid_lo
    &&& ps[m].0.hi() == mid_hi
    &&& unified_by(unify, ev, kv, ps[m].1)
    &&& has_tail ==> {
        &&& ps[m + 1].0.lo() == mid_hi
        &&& ps[m + 1].0.hi() == (if tail_existing { ei.hi() } else { ki.hi() })
        &&& copy_of(if tail_existing { ev } else { kv }, ps[m + 1].1)
    }
}

/// Calls `unify` on the two values and records what the answer is.
fn call_unify<V: Clone, F: Fn(Unification<V>) -> V>(unify: &F, existing: V, inserted: V, e0: Ghost<V>, i0: Ghost<V>) -> (w: V)
    requires
        forall|u: Unification<V>| call_requires(*unify, (u,)),
        copy_of(e0@, existing),
        copy_of(i0@, inserted),
    ensures
        unified_by(*unify, e0@, i0@, w),
{
    let ghost e = existing;
    let ghost i = inserted;
    let w = unify(Unification { existing, inserted });
    assert(copy_of(e0@, e) && copy_of(i0@, i) && call_ensures(*unify, (Unification { existing: e, inserted: i },), w));
    w
}

/// Splits the existing entry `(ei, ev)` and the inserted entry `(ki, kv)`,
/// which share at least one point, into the pieces that replace the existing
/// entry: the shared part gets the unified value, the other parts keep the
/// value of the entry they come from.
fn split_entry<K: Endpoint, V: Clone, F: Fn(Unification<V>) -> V>(
    ei: Interval<K>,
    ev: V,
    ki: Interval<K>,
    kv: V,
    unify: &F,
) -> (ps: Vec<(Interval<K>, V)>)
    requires
        ei.is_proper(),
        ki.is_proper(),
        intersects(ei, ki),
        forall|u: Unification<V>| call_requires(*unify, (u,)),
    ensures
        pieces_replace(*unify, ei, ev, ki, kv, ps@),
        pieces_exact(*unify, ei, ev, ki, kv, ps@),
{
    let ghost gev = ev;
    let ghost gkv = kv;
    let rel = ei.relates(&ki);
    proof {
        lemma_relation_splits(ei, ki, rel);
        Interval::lemma_cuts_injective(ei, ki);
    }
    let mut ps: Vec<(Interval<K>, V)> = Vec::new();
    match rel {
        IntervalRelation::Equal(_) => {
            let e = ev.clone();
            let u = call_unify(unify, e, kv, Ghost(gev), Ghost(gkv));
            ps.push((ei, u));
        },
        IntervalRelation::Containing { first_disjunct, overlapping, second_disjunct } => {
            if ei.lower.same(&overlapping.lower) {
                // The newly added interval completely covers the existing one
                let e = ev.clone();
                let k = kv.clone();
                let u = call_unify(unify, e, k, Ghost(gev), Ghost(gkv));
                let k2 = kv.clone();
                ps.push((first_disjunct, kv));
                ps.push((ei, u));
                ps.push((second_disjunct, k2));
            } else {
                // The newly added interval is completely inside the existing one
                let ex = ev.clone();
                let e = ev.clone();
                let k = kv.clone();
                let u = call_unify(unify, e, k, Ghost(gev), Ghost(gkv));
                ps.push((Interval::with_bounds(ei.lower, first_disjunct.upper), ev));
                ps.push((overlapping, u));
                ps.push((second_disjunct, ex));
            }
        },
        IntervalRelation::Overlapping { first_disjunct, overlapping, second_disjunct } => {
            if ei.lower.same(&first_disjunct.lower) {
                // The existing interval comes first
                let ex = ev.clone();
                let k = kv.clone();
                let u = call_unify(unify, ex, k, Ghost(gev), Ghost(gkv));
                ps.push((Interval::with_bounds(ei.lower, first_disjunct.upper), ev));
                ps.push((overlapping, u));
                ps.push((second_disjunct, kv));
            } else {
                // The inserted interval comes first
                let ex = ev.clone();
                let k = kv.clone();
                let u = call_unify(unify, ex, k, Ghost(gev), Ghost(gkv));
                ps.push((first_disjunct, kv));
                ps.push((overlapping, u));
                ps.push((Interval::with_bounds(second_disjunct.lower, ei.upper), ev));
            }
        },
        IntervalRelation::Starting { overlapping, disjunct } => {
            if ei.upper.same(&overlapping.upper) {
                // The existing interval is the shorter one
                let e = ev.clone();
                let k = kv.clone();
                let u = call_unify(unify, e, k, Ghost(gev), Ghost(gkv));
                ps.push((ei, u));
                ps.push((disjunct, kv));
            } else {
                // The inserted interval is the shorter one
                let ex = ev.clone();
                let e = ev.clone();
                let k = kv.clone();
                let u = call_unify(unify, e, k, Ghost(gev), Ghost(gkv));
                ps.push((overlapping, u));
                ps.push((disjunct, ex));
            }
        },
        IntervalRelation::Finishing { disjunct, overlapping } => {
            if ei.lower.same(&disjunct.lower) {
                // The existing interval is the longer one
                let ex = ev.clone();
                let e = ev.clone();
                let u = call_unify(unify, e, kv, Ghost(gev), Ghost(gkv));
                ps.push((disjunct, ex));
                ps.push((overlapping, u));
            } else {
                // The existing interval is the shorter one
                let ex = ev.clone();
                let k = kv.clone();
                let u = call_unify(unify, ex, k, Ghost(gev), Ghost(gkv));
                ps.push((disjunct, kv));
                ps.push((ei, u));
            }
        },
        IntervalRelation::Touching { .. } | IntervalRelation::Disjunct { .. } => {
            proof {
                assert(false);
            }
        },
    }
    proof {
        assert forall|p: int| #![trigger map_covers(ps@, p)] map_covers(ps@, p) <==> (ei.has_point(p) || ki.has_point(p)) by {
            if map_covers(ps@, p) {
                let a = choose|a: int| 0 <= a < ps@.len() && (#[trigger] ps@[a]).0.has_point(p);
                assert(ps@[a].0.has_point(p));
            }
            if ei.has_point(p) || ki.has_point(p) {
                if ps@[0].0.has_point(p) {
                } else if ps@[1].0.has_point(p) {
                } else {
                    assert(ps@[2].0.has_point(p));
                }
            }
        }
    }
    ps
}

/// The range of indices of the entries whose keys share a point with `key`.
fn intersecting_index_range<K: Endpoint, V>(intervals: &Vec<(Interval<K>, V)>, key: &Interval<K>) -> (r:
    std::ops::Range<usize>)
    requires
        sorted_wf(intervals@),
        key.is_proper(),
    ensures
        r.start <= r.end <= intervals@.len(),
        forall|i: int| 0 <= i < r.start ==> (#[trigger] intervals@[i]).0.spec_before(*key),
        forall|i: int| r.start <= i < r.end ==> intersects((#[trigger] intervals@[i]).0, *key),
        forall|i: int| r.end <= i < intervals@.len() ==> key.spec_before((#[trigger] intervals@[i]).0),
{
    let mut start: usize = 0;
    while start < intervals.len() && intervals[start].0.is_before(key)
        invariant
            start <= intervals@.len(),
            forall|i: int| 0 <= i < start ==> (#[trigger] intervals@[i]).0.spec_before(*key),
        decreases intervals@.len() - start,
    {
        start = start + 1;
    }
    let mut end: usize = start;
    while end < intervals.len() && !key.is_before(&intervals[end].0)
        invariant
            start <= end <= intervals@.len(),
            sorted_wf(intervals@),
            key.is_proper(),
            start < intervals@.len() ==> !intervals@[start as int].0.spec_before(*key),
            forall|i: int| start <= i < end ==> intersects((#[trigger] intervals@[i]).0, *key),
        decreases intervals@.len() - end,
    {
        assert(!intervals@[end as int].0.spec_before(*key)) by {
            if end > start {
                assert(intervals@[start as int].0.spec_before(intervals@[end as int].0));
                assert(intervals@[end as int].0.is_proper());
            }
        }
        end = end + 1;
    }
    assert forall|i: int| end <= i < intervals@.len() implies key.spec_before((#[trigger] intervals@[i]).0) by {
        if i > end {
            assert(intervals@[end as int].0.spec_before(intervals@[i].0));
            assert(intervals@[end as int].0.is_proper());
        }
    }
    start..end
}

/// What a point maps to after inserting `key => value` into `old`: where the
/// key holds it, the unified value if the map held it, else a copy of
/// `value`; elsewhere a copy of what the map held.
pub open spec fn inserted_value<K: Endpoint, V: Clone, F: Fn(Unification<V>) -> V>(
    unify: F,
    old: Seq<(Interval<K>, V)>,
    key: Interval<K>,
    value: V,
    p: int,
    w: V,
) -> bool {
    if key.has_point(p) {
        if map_covers(old, p) {
            exists|e: V| maps_to(old, p, e) && unified_by(unify, e, value, w)
        } else {
            copy_of(value, w)
        }
    } else {
        exists|e: V| maps_to(old, p, e) && copy_of(e, w)
    }
}

/// Replacing the entry at `idx`, the only one that meets `key`, by the pieces
/// of the split keeps the map well-formed and gives every point its value.
proof fn lemma_splice<K: Endpoint, V: Clone, F: Fn(Unification<V>) -> V>(
    unify: F,
    s: Seq<(Interval<K>, V)>,
    idx: int,
    key: Interval<K>,
    value: V,
    ps: Seq<(Interval<K>, V)>,
)
    requires
        sorted_wf(s),
        key.is_proper(),
        0 <= idx < s.len(),
        forall|i: int| 0 <= i < idx ==> (#[trigger] s[i]).0.spec_before(key),
        intersects(s[idx].0, key),
        forall|i: int| idx < i < s.len() ==> key.spec_before((#[trigger] s[i]).0),
        pieces_replace(unify, s[idx].0, s[idx].1, key, value, ps),
    ensures
        sorted_wf(s.take(idx) + ps + s.skip(idx + 1)),
        forall|p: int| #![trigger map_covers(s.take(idx) + ps + s.skip(idx + 1), p)] map_covers(s.take(idx) + ps + s.skip(idx + 1), p) <==> (map_covers(s, p) || key.has_point(p)),
        forall|p: int, w: V| #![trigger maps_to(s.take(idx) + ps + s.skip(idx + 1), p, w)] maps_to(s.take(idx) + ps + s.skip(idx + 1), p, w) ==> inserted_value(unify, s, key, value, p, w),
{
    let r = s.take(idx) + ps + s.skip(idx + 1);
    let n = ps.len() as int;
    let ei = s[idx].0;
    assert(r.len() == idx + n + s.len() - idx - 1);
    assert forall|k: int| 0 <= k < r.len() implies r[k] == (if k < idx { s[k] } else if k < idx + n { ps[k - idx] } else { s[k - idx - n + idx + 1] }) by {
    }
    assert(ei.is_proper());
    // A point of an entry other than `idx` is not in the key.
    assert forall|i: int, p: int| 0 <= i < s.len() && i != idx && #[trigger] s[i].0.has_point(p) implies !key.has_point(p) && !ei.has_point(p) by {
        if i < idx {
            assert(s[i].0.spec_before(ei));
        } else {
            assert(ei.spec_before(s[i].0));
        }
    }
    assert forall|p: int| #![trigger map_covers(r, p)] map_covers(r, p) <==> (map_covers(s, p) || key.has_point(p)) by {
        if map_covers(r, p) {
            let k = choose|k: int| 0 <= k < r.len() && (#[trigger] r[k]).0.has_point(p);
            if k < idx {
                assert(s[k].0.has_point(p));
            } else if k < idx + n {
                assert(map_covers(ps, p));
                if ei.has_point(p) {
                    assert(s[idx].0.has_point(p));
                }
            } else {
                assert(s[k - n + 1].0.has_point(p));
            }
        }
        if map_covers(s, p) || key.has_point(p) {
            if key.has_point(p) || ei.has_point(p) {
                assert(map_covers(ps, p));
                let a = choose|a: int| 0 <= a < ps.len() && (#[trigger] ps[a]).0.has_point(p);
                assert(r[idx + a].0.has_point(p));
            } else {
                let i = choose|i: int| 0 <= i < s.len() && (#[trigger] s[i]).0.has_point(p);
                if i < idx {
                    assert(r[i].0.has_point(p));
                } else {
                    assert(r[i - 1 + n].0.has_point(p));
                }
            }
        }
    }
    assert forall|p: int, w: V| maps_to(r, p, w) implies inserted_value(unify, s, key, value, p, w) by {
        let k = choose|k: int| 0 <= k < r.len() && (#[trigger] r[k]).0.has_point(p) && r[k].1 == w;
        if k < idx {
            assert(s[k].0.has_point(p));
            assert(!key.has_point(p));
            assert(maps_to(s, p, w) && copy_of(w, w));
        } else if k < idx + n {
            let a = k - idx;
            assert(ps[a].0.has_point(p));
            assert(value_after(unify, ei.has_point(p), key.has_point(p), s[idx].1, value, w));
            if ei.has_point(p) {
                assert(s[idx].0.has_point(p));
                assert(maps_to(s, p, s[idx].1));
                assert(map_covers(s, p));
            } else {
                if map_covers(s, p) {
                    let i = choose|i: int| 0 <= i < s.len() && (#[trigger] s[i]).0.has_point(p);
                    assert(s[i].0.has_point(p));
                }
                assert(!map_covers(s, p));
            }
        } else {
            assert(s[k - n + 1].0.has_point(p));
            assert(!key.has_point(p));
            assert(maps_to(s, p, w) && copy_of(w, w));
        }
    }
    assert forall|k: int| 0 <= k < r.len() implies (#[trigger] r[k]).0.is_proper() by {
        if k < idx {
            assert(s[k].0.is_proper());
        } else if k < idx + n {
            assert(ps[k - idx].0.is_proper());
        } else {
            assert(s[k - n + 1].0.is_proper());
        }
    }
    assert forall|i: int, j: int| 0 <= i < j < r.len() implies (#[trigger] r[i]).0.spec_before((#[trigger] r[j]).0) by {
        if j < idx {
            assert(s[i].0.spec_before(s[j].0));
        } else if i < idx && j < idx + n {
            assert(s[i].0.spec_before(ei));
            assert(s[i].0.spec_before(key));
            assert(ps[j - idx].0.lo() == r[j].0.lo());
        } else if i < idx {
            assert(s[i].0.spec_before(s[j - n + 1].0));
        } else if j < idx + n {
            assert(ps[i - idx].0.spec_before(ps[j - idx].0));
        } else if i < idx + n {
            assert(ei.spec_before(s[j - n + 1].0));
            assert(key.spec_before(s[j - n + 1].0));
            assert(ps[i - idx].0.hi() == r[i].0.hi());
        } else {
            assert(s[i - n + 1].0.spec_before(s[j - n + 1].0));
        }
    }
}

/// Placing an entry whose key meets no other key at `idx` keeps the map
/// well-formed and gives every point its value.
proof fn lemma_insert_apart<K: Endpoint, V: Clone, F: Fn(Unification<V>) -> V>(
    unify: F,
    s: Seq<(Interval<K>, V)>,
    idx: int,
    key: Interval<K>,
    value: V,
    r: Seq<(Interval<K>, V)>,
)
    requires
        sorted_wf(s),
        key.is_proper(),
        0 <= idx <= s.len(),
        r == s.insert(idx, (key, value)),
        forall|i: int| 0 <= i < idx ==> (#[trigger] s[i]).0.spec_before(key),
        forall|i: int| idx <= i < s.len() ==> key.spec_before((#[trigger] s[i]).0),
    ensures
        sorted_wf(r),
        forall|p: int| #![trigger map_covers(r, p)] map_covers(r, p) <==> (map_covers(s, p) || key.has_point(p)),
        forall|p: int, w: V| #![trigger maps_to(r, p, w)] maps_to(r, p, w) ==> inserted_value(unify, s, key, value, p, w),
{
    assert forall|i: int, p: int| 0 <= i < s.len() && #[trigger] s[i].0.has_point(p) implies !key.has_point(p) by {
        if i < idx {
            assert(s[i].0.spec_before(key));
        } else {
            assert(key.spec_before(s[i].0));
            assert(s[i].0.is_proper());
        }
    }
    assert forall|p: int| #![trigger map_covers(r, p)] map_covers(r, p) <==> (map_covers(s, p) || key.has_point(p)) by {
        if map_covers(r, p) {
            let k = choose|k: int| 0 <= k < r.len() && (#[trigger] r[k]).0.has_point(p);
            if k < idx {
                assert(s[k].0.has_point(p));
            } else if k > idx {
                assert(s[k - 1].0.has_point(p));
            }
        }
        if map_covers(s, p) {
            let i = choose|i: int| 0 <= i < s.len() && (#[trigger] s[i]).0.has_point(p);
            if i < idx {
                assert(r[i].0.has_point(p));
            } else {
                assert(r[i + 1].0.has_point(p));
            }
        }
        if key.has_point(p) {
            assert(r[idx].0.has_point(p));
        }
    }
    assert forall|p: int, w: V| maps_to(r, p, w) implies inserted_value(unify, s, key, value, p, w) by {
        let k = choose|k: int| 0 <= k < r.len() && (#[trigger] r[k]).0.has_point(p) && r[k].1 == w;
        if k < idx {
            assert(s[k].0.has_point(p));
            assert(maps_to(s, p, w) && copy_of(w, w));
        } else if k > idx {
            assert(s[k - 1].0.has_point(p));
            assert(maps_to(s, p, w) && copy_of(w, w));
        } else {
            if map_covers(s, p) {
                let i = choose|i: int| 0 <= i < s.len() && (#[trigger] s[i]).0.has_point(p);
                assert(s[i].0.has_point(p));
            }
        }
    }
    assert forall|k: int| 0 <= k < r.len() implies (#[trigger] r[k]).0.is_proper() by {
        if k < idx {
            assert(s[k].0.is_proper());
        } else if k > idx {
            assert(s[k - 1].0.is_proper());
        }
    }
    assert forall|i: int, j: int| 0 <= i < j < r.len() implies (#[trigger] r[i]).0.spec_before((#[trigger] r[j]).0) by {
        if j < idx {
            assert(s[i].0.spec_before(s[j].0));
        } else if j == idx {
            assert(s[i].0.spec_before(key));
        } else if i < idx {
            assert(s[i].0.spec_before(s[j - 1].0));
        } else if i == idx {
            assert(key.spec_before(s[j - 1].0));
        } else {
            assert(s[i - 1].0.spec_before(s[j - 1].0));
        }
    }
}

/// `r` is `s` with its entry at `i` replaced by the exact pieces of splitting
/// it with `key => value`; the entries before and after stay as they are.
pub open spec fn replaced_at<K: Endpoint, V: Clone, F: Fn(Unification<V>) -> V>(
    unify: F,
    s: Seq<(Interval<K>, V)>,
    i: int,
    key: Interval<K>,
    value: V,
    r: Seq<(Interval<K>, V)>,
) -> bool {
    let n = r.len() - s.len() + 1;
    &&& 1 <= n
    &&& r.take(i) == s.take(i)
    &&& r.skip(i + n) == s.skip(i + 1)
    &&& pieces_exact(unify, s[i].0, s[i].1, key, value, r.subrange(i, i + n))
}

/// At most one key of `s` that holds a point meets `key`.
pub open spec fn meets_at_most_one<K: Endpoint, V>(s: Seq<(Interval<K>, V)>, key: Interval<K>) -> bool {
    forall|i: int, j: int|
        0 <= i < j < s.len() && (#[trigger] s[i]).0.is_proper() && (#[trigger] s[j]).0.is_proper() && intersects(s[i].0, key)
            ==> !intersects(s[j].0, key)
}

/// Keys that hold no point change no point's value.
proof fn lemma_pointless_tail<K: Endpoint, V>(a: Seq<(Interval<K>, V)>, t: Seq<(Interval<K>, V)>)
    requires
        forall|i: int| 0 <= i < t.len() ==> !(#[trigger] t[i]).0.is_proper(),
    ensures
        forall|p: int| #[trigger] map_covers(a + t, p) == map_covers(a, p),
        forall|p: int, w: V| #[trigger] maps_to(a + t, p, w) == maps_to(a, p, w),
{
    assert forall|p: int| #[trigger] map_covers(a + t, p) == map_covers(a, p) by {
        if map_covers(a + t, p) {
            let i = choose|i: int| 0 <= i < (a + t).len() && (#[trigger] (a + t)[i]).0.has_point(p);
            if i >= a.len() {
                assert(t[i - a.len()].0.has_point(p));
            } else {
                assert(a[i].0.has_point(p));
            }
        }
        if map_covers(a, p) {
            let i = choose|i: int| 0 <= i < a.len() && (#[trigger] a[i]).0.has_point(p);
            assert((a + t)[i] == a[i]);
        }
    }
    assert forall|p: int, w: V| #[trigger] maps_to(a + t, p, w) == maps_to(a, p, w) by {
        if maps_to(a + t, p, w) {
            let i = choose|i: int| 0 <= i < (a + t).len() && (#[trigger] (a + t)[i]).0.has_point(p) && (a + t)[i].1 == w;
            if i >= a.len() {
                assert(t[i - a.len()].0.has_point(p));
            } else {
                assert(a[i].0.has_point(p));
            }
        }
        if maps_to(a, p, w) {
            let i = choose|i: int| 0 <= i < a.len() && (#[trigger] a[i]).0.has_point(p) && a[i].1 == w;
            assert((a + t)[i] == a[i]);
        }
    }
}

impl<K: Endpoint, V: Clone> IntervalMap<K, V> {
    pub fn new() -> (r: Self)
        ensures
            r.intervals@ == Seq::<(Interval<K>, V)>::empty(),
            sorted_wf(r.intervals@),
            map_wf(r.intervals@),
    {
        IntervalMap { intervals: Vec::new() }
    }

    /// Replaces the entry at `idx`, which meets `key` and is the only one to,
    /// by the pieces of splitting it with `key => value`.
    fn insert_and_unify_single<F: Fn(Unification<V>) -> V>(entries: Vec<(Interval<K>, V)>, idx: usize, key: Interval<K>, value: V, unify: &F) -> (r: Vec<(Interval<K>, V)>)
        requires
            sorted_wf(entries@),
            key.is_proper(),
            idx < entries@.len(),
            forall|i: int| 0 <= i < idx ==> (#[trigger] entries@[i]).0.spec_before(key),
            intersects(entries@[idx as int].0, key),
            forall|i: int| idx < i < entries@.len() ==> key.spec_before((#[trigger] entries@[i]).0),
            forall|u: Unification<V>| call_requires(*unify, (u,)),
        ensures
            sorted_wf(r@),
            forall|p: int| #![trigger map_covers(r@, p)] map_covers(r@, p) <==> (map_covers(entries@, p) || key.has_point(p)),
            forall|p: int, w: V| #![trigger maps_to(r@, p, w)] maps_to(r@, p, w) ==> inserted_value(*unify, entries@, key, value, p, w),
            replaced_at(*unify, entries@, idx as int, key, value, r@),
    {
        let mut intervals = entries;
        let ghost s = intervals@;
        let n = intervals.len();
        let mut tail = intervals.split_off(idx + 1);
        let existing = intervals.pop();
        let (existing_key, existing_value) = existing.unwrap();
        proof {
            assert(s[idx as int].0.is_proper());
            assert(intervals@ == s.take(idx as int));
            assert(tail@ == s.skip(idx + 1));
        }
        let mut pieces = split_entry(existing_key, existing_value, key, value, unify);
        let ghost ps = pieces@;
        intervals.append(&mut pieces);
        intervals.append(&mut tail);
        proof {
            assert(intervals@ == s.take(idx as int) + ps + s.skip(idx + 1));
            lemma_splice(*unify, s, idx as int, key, value, ps);
            let n = ps.len() as int;
            assert(intervals@.take(idx as int) =~= s.take(idx as int));
            assert(intervals@.skip(idx + n) =~= s.skip(idx + 1));
            assert(intervals@.subrange(idx as int, idx + n) =~= ps);
        }
        intervals
    }

    /// Inserts `key => value`, which holds a point, among keys that all do.
    fn insert_sorted<F: Fn(Unification<V>) -> V>(&mut self, key: Interval<K>, value: V, unify: F)
        requires
            sorted_wf(old(self).intervals@),
            meets_at_most_one(old(self).intervals@, key),
            forall|u: Unification<V>| call_requires(unify, (u,)),
        ensures
            sorted_wf(final(self).intervals@),
            forall|p: int| #![trigger map_covers(final(self).intervals@, p)] map_covers(final(self).intervals@, p) <==> (map_covers(old(self).intervals@, p) || key.has_point(p)),
            forall|p: int, w: V| #![trigger maps_to(final(self).intervals@, p, w)] maps_to(final(self).intervals@, p, w) ==> inserted_value(unify, old(self).intervals@, key, value, p, w),
            !key.is_proper() ==> final(self).intervals@ == old(self).intervals@,
            key.is_proper() && (forall|i: int| 0 <= i < old(self).intervals@.len() ==> !intersects(#[trigger] old(self).intervals@[i].0, key))
                ==> exists|i: int| 0 <= i <= old(self).intervals@.len() && final(self).intervals@ == old(self).intervals@.insert(i, (key, value)),
            forall|i: int| 0 <= i < old(self).intervals@.len() && key.is_proper() && intersects(#[trigger] old(self).intervals@[i].0, key)
                ==> replaced_at(unify, old(self).intervals@, i, key, value, final(self).intervals@),
    {
        let ghost s = self.intervals@;
        if key.upper.is_before_lower(&key.lower) {
            // The key holds no point: nothing changes
            proof {
                assert forall|p: int| !key.has_point(p) by {
                }
                assert forall|p: int, w: V| maps_to(s, p, w) implies inserted_value(unify, s, key, value, p, w) by {
                    assert(copy_of(w, w));
                }
            }
            return;
        }
        let range = intersecting_index_range(&self.intervals, &key);
        if range.start == range.end {
            // Intersects nothing, just insert
            self.intervals.insert(range.start, (key, value));
            proof {
                let ghost r = self.intervals@;
                lemma_insert_apart(unify, s, range.start as int, key, value, r);
            }
        } else {
            // Intersects with one entry
            proof {
                if range.end > range.start + 1 {
                    assert(intersects(s[range.start as int].0, key));
                    assert(intersects(s[range.start + 1].0, key));
                }
            }
            let mut intervals = Vec::new();
            std::mem::swap(&mut intervals, &mut self.intervals);
            self.intervals = Self::insert_and_unify_single(intervals, range.start, key, value, &unify);
        }
    }

    /// Inserts `key => value`. Where the key meets an existing entry, that
    /// part gets `unify` of the existing and the inserted value, and the
    /// rest of both keeps its own value. A key that holds no point is kept
    /// as an entry of its own, after the others.
    #[verifier::spinoff_prover]
    #[verifier::rlimit(80)]
    pub fn insert_and_unify<F: Fn(Unification<V>) -> V>(&mut self, key: Interval<K>, value: V, unify: F)
        requires
            map_wf(old(self).intervals@),
            meets_at_most_one(old(self).intervals@, key),
            forall|u: Unification<V>| call_requires(unify, (u,)),
        ensures
            map_wf(final(self).intervals@),
            sorted_wf(old(self).intervals@) && key.is_proper() ==> sorted_wf(final(self).intervals@),
            forall|j: int| 0 <= j < final(self).intervals@.len() && !(#[trigger] final(self).intervals@[j]).0.is_proper()
                ==> final(self).intervals@[j] == (key, value) || old(self).intervals@.contains(final(self).intervals@[j]),
            forall|p: int| #![trigger map_covers(final(self).intervals@, p)] map_covers(final(self).intervals@, p) <==> (map_covers(old(self).intervals@, p) || key.has_point(p)),
            forall|p: int, w: V| #![trigger maps_to(final(self).intervals@, p, w)] maps_to(final(self).intervals@, p, w) ==> inserted_value(unify, old(self).intervals@, key, value, p, w),
            !key.is_proper() ==> final(self).intervals@ == old(self).intervals@.push((key, value)),
            key.is_proper() && (forall|i: int| 0 <= i < old(self).intervals@.len() && (#[trigger] old(self).intervals@[i]).0.is_proper() ==> !intersects(old(self).intervals@[i].0, key))
                ==> exists|i: int| 0 <= i <= old(self).intervals@.len() && final(self).intervals@ == old(self).intervals@.insert(i, (key, value)),
            forall|i: int| 0 <= i < old(self).intervals@.len() && key.is_proper() && (#[trigger] old(self).intervals@[i]).0.is_proper() && intersects(old(self).intervals@[i].0, key)
                ==> replaced_at(unify, old(self).intervals@, i, key, value, final(self).intervals@),
    {
        let ghost s = self.intervals@;
        if key.upper.is_before_lower(&key.lower) {
            // The key holds no point: it goes after the others
            self.intervals.push((key, value));
            proof {
                assert forall|p: int| !key.has_point(p) by {
                }
                assert(self.intervals@ == s + seq![(key, value)]);
                lemma_pointless_tail(s, seq![(key, value)]);
                assert forall|p: int, w: V| maps_to(s, p, w) implies inserted_value(unify, s, key, value, p, w) by {
                    assert(copy_of(w, w));
                }
                assert forall|i: int, j: int|
                    0 <= i < j < self.intervals@.len() && (#[trigger] self.intervals@[j]).0.is_proper() implies
                    (#[trigger] self.intervals@[i]).0.is_proper() && self.intervals@[i].0.spec_before(self.intervals@[j].0) by {
                    assert(j < s.len());
                    assert(self.intervals@[i] == s[i] && self.intervals@[j] == s[j]);
                }
                assert forall|j: int| 0 <= j < self.intervals@.len() && !(#[trigger] self.intervals@[j]).0.is_proper()
                    implies self.intervals@[j] == (key, value) || s.contains(self.intervals@[j]) by {
                    if j < s.len() {
                        assert(self.intervals@[j] == s[j]);
                    }
                }
            }
            return;
        }
        // The keys that hold a point come first
        let mut k: usize = 0;
        while k < self.intervals.len() && !self.intervals[k].0.upper.is_before_lower(&self.intervals[k].0.lower)
            invariant
                self.intervals@ == s,
                k <= s.len(),
                forall|i: int| 0 <= i < k ==> (#[trigger] s[i]).0.is_proper(),
            decreases s.len() - k,
        {
            k = k + 1;
        }
        let mut tail = self.intervals.split_off(k);
        let ghost head = self.intervals@;
        let ghost t = tail@;
        proof {
            assert(head == s.take(k as int));
            assert(t == s.skip(k as int));
            assert forall|i: int| 0 <= i < t.len() implies !(#[trigger] t[i]).0.is_proper() by {
                assert(t[i] == s[k + i]);
                if s[k + i].0.is_proper() {
                    assert(s[k as int].0.is_proper());
                }
            }
            assert(s =~= head + t);
            assert(sorted_wf(head)) by {
                assert forall|i: int, j: int| 0 <= i < j < head.len() implies (#[trigger] head[i]).0.spec_before((#[trigger] head[j]).0) by {
                    assert(head[i] == s[i] && head[j] == s[j]);
                    assert(s[j].0.is_proper());
                }
            }
            assert(meets_at_most_one(head, key)) by {
                assert forall|i: int, j: int|
                    0 <= i < j < head.len() && (#[trigger] head[i]).0.is_proper() && (#[trigger] head[j]).0.is_proper() && intersects(head[i].0, key)
                    implies !intersects(head[j].0, key) by {
                    assert(head[i] == s[i] && head[j] == s[j]);
                }
            }
            lemma_pointless_tail(head, t);
        }
        self.insert_sorted(key, value, unify);
        let ghost r = self.intervals@;
        self.intervals.append(&mut tail);
        proof {
            assert(self.intervals@ == r + t);
            lemma_pointless_tail(r, t);
            assert forall|j: int| 0 <= j < self.intervals@.len() && !(#[trigger] self.intervals@[j]).0.is_proper()
                implies self.intervals@[j] == (key, value) || s.contains(self.intervals@[j]) by {
                if j < r.len() {
                    assert(self.intervals@[j] == r[j]);
                    assert(r[j].0.is_proper());
                } else {
                    assert(self.intervals@[j] == t[j - r.len()]);
                    assert(s[k + j - r.len()] == t[j - r.len()]);
                }
            }
            assert forall|p: int, w: V| #[trigger] maps_to(self.intervals@, p, w) implies inserted_value(unify, s, key, value, p, w) by {
                assert(maps_to(r, p, w));
                assert(inserted_value(unify, head, key, value, p, w));
                if key.has_point(p) {
                    if map_covers(head, p) {
                        let e = choose|e: V| maps_to(head, p, e) && unified_by(unify, e, value, w);
                        assert(maps_to(s, p, e));
                        assert(map_covers(s, p));
                    } else {
                        assert(!map_covers(s, p));
                    }
                } else {
                    let e = choose|e: V| maps_to(head, p, e) && copy_of(e, w);
                    assert(maps_to(s, p, e));
                }
            }
            assert forall|i: int, j: int|
                0 <= i < j < self.intervals@.len() && (#[trigger] self.intervals@[j]).0.is_proper() implies
                (#[trigger] self.intervals@[i]).0.is_proper() && self.intervals@[i].0.spec_before(self.intervals@[j].0) by {
                if j >= r.len() {
                    assert(self.intervals@[j] == t[j - r.len()]);
                } else {
                    assert(self.intervals@[i] == r[i] && self.intervals@[j] == r[j]);
                }
            }
            if key.is_proper() && (forall|i: int| 0 <= i < s.len() && (#[trigger] s[i]).0.is_proper() ==> !intersects(s[i].0, key)) {
                assert forall|i: int| 0 <= i < head.len() implies !intersects(#[trigger] head[i].0, key) by {
                    assert(head[i] == s[i]);
                }
                let i = choose|i: int| 0 <= i <= head.len() && r == head.insert(i, (key, value));
                assert(self.intervals@ =~= s.insert(i, (key, value)));
            }
            assert forall|i: int| 0 <= i < s.len() && key.is_proper() && (#[trigger] s[i]).0.is_proper() && intersects(s[i].0, key)
                implies replaced_at(unify, s, i, key, value, self.intervals@) by {
                assert(i < k);
                assert(head[i] == s[i]);
                assert(replaced_at(unify, head, i, key, value, r));
                let n = r.len() - head.len() + 1;
                assert(self.intervals@.take(i) =~= r.take(i));
                assert(s.take(i) =~= head.take(i));
                assert(self.intervals@.skip(i + n) =~= r.skip(i + n) + t);
                assert(s.skip(i + 1) =~= head.skip(i + 1) + t);
                assert(self.intervals@.subrange(i, i + n) =~= r.subrange(i, i + n));
            }
            if sorted_wf(s) && key.is_proper() {
                assert(t.len() == 0) by {
                    if t.len() > 0 {
                        assert(s[k as int] == t[0]);
                    }
                }
                assert(self.intervals@ =~= r);
            }
        }
    }
}


/// Two proper intervals that meet share a point.
pub proof fn lemma_meeting_share_point<T: Endpoint>(a: Interval<T>, b: Interval<T>) -> (p: int)
    requires
        a.is_proper(),
        b.is_proper(),
        !a.spec_before(b),
        !b.spec_before(a),
    ensures
        a.has_point(p),
        b.has_point(p),
{
    match (a.lo(), b.lo()) {
        (Some(x), Some(y)) => if x < y { y } else { x },
        (Some(x), None) => x,
        (None, Some(y)) => y,
        (None, None) => match (a.hi(), b.hi()) {
            (Some(x), Some(y)) => if x < y { x - 1 } else { y - 1 },
            (Some(x), None) => x - 1,
            (None, Some(y)) => y - 1,
            (None, None) => 0,
        },
    }
}

} // verus!

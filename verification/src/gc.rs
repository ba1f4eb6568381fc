//! The generational garbage collector: it owns the object heap, the shape
//! table and the string interner, tracks objects in a young and an old
//! generation, keeps a registered root set, and reclaims what the roots
//! no longer reach by mark/sweep, promoting externally shared survivors.
//!
//! The heap is an arena: an object's identity is its index, indices are
//! never reused, and a freed slot stays empty. Finalizers are recorded as
//! host tokens: destroying an object appends its token (exactly once) to
//! `pending_finalizers`, which the host boundary drains and invokes.

use vstd::prelude::*;
use crate::object::{JSObject, JSObjectHandle, JSObjectType, JSValue, spec_get, spec_has_key, type_code};
use crate::shape::ShapeTable;
use crate::string_interner::{StringInterner, entry_bytes, sat_add};

verus! {

/// Base size charged for every object in the size estimate.
pub const OBJECT_BASE_SIZE: usize = 64;

/// Size charged per property slot in the size estimate.
pub const SLOT_OVERHEAD: usize = 16;

/// Configuration options for the garbage collector.
#[derive(Clone, Copy, Debug, PartialEq, Eq, Structural)]
pub struct GCConfiguration {
    /// Size threshold (KB) above which an allocation triggers a young
    /// collection.
    pub young_gen_threshold_kb: usize,
    /// Size threshold (KB) below which a major collection is skipped.
    pub old_gen_threshold_kb: usize,
    /// Maximum pause time in milliseconds; advisory only.
    pub max_pause_ms: u64,
    /// Reserved for a future incremental collector; not honored.
    pub incremental: bool,
    /// Whether the host should log collection boundaries.
    pub verbose: bool,
}

impl Default for GCConfiguration {
    /// The default configuration: 256 KB young threshold, 4 MB old
    /// threshold, 10 ms advisory pause budget.
    fn default() -> (c: Self)
        ensures
            c.young_gen_threshold_kb == 256,
            c.old_gen_threshold_kb == 4096,
            c.max_pause_ms == 10,
            c.incremental == true,
            c.verbose == false,
    {
        GCConfiguration {
            young_gen_threshold_kb: 256,
            old_gen_threshold_kb: 4096,
            max_pause_ms: 10,
            incremental: true,
            verbose: false,
        }
    }
}

/// Statistics about garbage collection.
///
/// `allocation_count` and `collection_count` never decrease: every
/// operation of [`GarbageCollector`] either states their exact new value
/// (an increment on `create_object` and `collect`) or leaves `stats`
/// unchanged, so monotonicity is carried by each contract in turn.
#[derive(Clone, Copy, Debug, PartialEq, Eq, Structural)]
pub struct GCStatistics {
    /// Total number of allocations.
    pub allocation_count: usize,
    /// Total number of full collections performed.
    pub collection_count: usize,
    /// Total number of objects released from tracking.
    pub objects_freed: usize,
    /// Current size estimate of the young generation in bytes.
    pub young_generation_size: usize,
    /// Current size estimate of the old generation in bytes.
    pub old_generation_size: usize,
}

impl Default for GCStatistics {
    /// All counters start at zero.
    fn default() -> (s: Self)
        ensures
            s.allocation_count == 0,
            s.collection_count == 0,
            s.objects_freed == 0,
            s.young_generation_size == 0,
            s.old_generation_size == 0,
    {
        GCStatistics {
            allocation_count: 0,
            collection_count: 0,
            objects_freed: 0,
            young_generation_size: 0,
            old_generation_size: 0,
        }
    }
}

/// The byte contribution of a value to the size estimate: string values
/// count their content bytes, everything else counts nothing beyond the
/// slot overhead.
pub open spec fn value_string_bytes(v: JSValue) -> usize {
    match v {
        JSValue::String(s) => entry_bytes(s.text@),
        _ => 0,
    }
}

/// The estimated size of an object with value vector `values`, of whose
/// slots the first `count` are properties: a base charge, a per-property
/// slot charge, and the bytes of string-valued slots, accumulated with
/// saturating addition.
pub open spec fn size_estimate_rec(values: Seq<JSValue>, count: int, upto: int) -> usize
    decreases upto,
{
    if upto <= 0 {
        OBJECT_BASE_SIZE
    } else {
        sat_add(
            sat_add(
                size_estimate_rec(values, count, upto - 1),
                if upto - 1 < count {
                    SLOT_OVERHEAD
                } else {
                    0
                },
            ),
            value_string_bytes(values[upto - 1]),
        )
    }
}



/// Number of live unmarked objects among the first `upto` heap slots;
/// the termination measure of the mark phase.
pub open spec fn count_unmarked(objs: Seq<Option<JSObject>>, upto: int) -> int
    decreases upto,
{
    if upto <= 0 {
        0
    } else {
        count_unmarked(objs, upto - 1) + (match objs[upto - 1] {
            Some(o) => if o.inner.marked {
                0int
            } else {
                1int
            },
            None => 0int,
        })
    }
}

proof fn lemma_count_unmarked_nonneg(objs: Seq<Option<JSObject>>, upto: int)
    ensures
        count_unmarked(objs, upto) >= 0,
    decreases upto,
{
    if upto > 0 {
        lemma_count_unmarked_nonneg(objs, upto - 1);
    }
}

/// Marking one live unmarked object decreases the unmarked count by one.
proof fn lemma_count_unmarked_mark(
    objs: Seq<Option<JSObject>>,
    objs2: Seq<Option<JSObject>>,
    t: int,
    upto: int,
)
    requires
        0 <= t < objs.len(),
        objs2.len() == objs.len(),
        forall|i: int| 0 <= i < objs.len() && i != t ==> objs2[i] == objs[i],
        objs[t] is Some,
        !objs[t]->0.inner.marked,
        objs2[t] is Some,
        objs2[t]->0.inner.marked,
        upto <= objs.len(),
    ensures
        count_unmarked(objs2, upto) == count_unmarked(objs, upto) - (if t < upto {
            1int
        } else {
            0int
        }),
    decreases upto,
{
    if upto > 0 {
        lemma_count_unmarked_mark(objs, objs2, t, upto - 1);
    }
}

/// The two heaps agree on everything an object holds except the mark
/// bits, and on all collector structure around the heap's contents.
pub open spec fn objs_equal_except_marks(g1: GarbageCollector, g2: GarbageCollector) -> bool {
    &&& g2.objects@.len() == g1.objects@.len()
    &&& forall|i: int| g1.live(i) <==> #[trigger] g2.live(i)
    &&& forall|i: int|
        g1.live(i) ==> {
            let o1 = g1.obj(i);
            let o2 = #[trigger] g2.obj(i);
            &&& o2.inner.obj_type == o1.inner.obj_type
            &&& o2.inner.shape == o1.inner.shape
            &&& o2.inner.values == o1.inner.values
            &&& o2.inner.finalizer == o1.inner.finalizer
            &&& o2.external_refs == o1.external_refs
            &&& o2.in_generation == o1.in_generation
        }
}


proof fn lemma_objs_equal_trans(g1: GarbageCollector, g2: GarbageCollector, g3: GarbageCollector)
    requires
        objs_equal_except_marks(g1, g2),
        objs_equal_except_marks(g2, g3),
    ensures
        objs_equal_except_marks(g1, g3),
{
    assert forall|i: int| g1.live(i) <==> #[trigger] g3.live(i) by {
        assert(g1.live(i) <==> g2.live(i));
    }
    assert forall|i: int|
        g1.live(i) implies {
        let o1 = g1.obj(i);
        let o2 = #[trigger] g3.obj(i);
        &&& o2.inner.obj_type == o1.inner.obj_type
        &&& o2.inner.shape == o1.inner.shape
        &&& o2.inner.values == o1.inner.values
        &&& o2.inner.finalizer == o1.inner.finalizer
        &&& o2.external_refs == o1.external_refs
        &&& o2.in_generation == o1.in_generation
    } by {
        assert(g2.live(i));
        assert(g2.obj(i).inner.values == g1.obj(i).inner.values);
        assert(g3.obj(i).inner.values == g2.obj(i).inner.values);
    }
}

/// Heaps equal up to mark bits have the same property edges.
proof fn lemma_edges_equiv(g1: GarbageCollector, g2: GarbageCollector)
    requires
        objs_equal_except_marks(g1, g2),
    ensures
        forall|c: int, d: int| g1.edge(c, d) == g2.edge(c, d),
{
    assert forall|c: int, d: int| #[trigger] g1.edge(c, d) implies g2.edge(c, d) by {
        let k = choose|k: int|
            0 <= k < g1.obj(c).inner.values@.len() && ((#[trigger] g1.obj(c).inner.values@[k])
                matches JSValue::Object(o) && o == d);
        assert(g2.obj(c).inner.values@[k] == g1.obj(c).inner.values@[k]);
    }
    assert forall|c: int, d: int| #[trigger] g2.edge(c, d) implies g1.edge(c, d) by {
        let k = choose|k: int|
            0 <= k < g2.obj(c).inner.values@.len() && ((#[trigger] g2.obj(c).inner.values@[k])
                matches JSValue::Object(o) && o == d);
        assert(g1.obj(c).inner.values@[k] == g2.obj(c).inner.values@[k]);
    }
}

/// Reachability ignores the mark bits.
proof fn lemma_reachable_equiv(g1: GarbageCollector, g2: GarbageCollector, a: int, b: int)
    requires
        objs_equal_except_marks(g1, g2),
    ensures
        g1.reachable(a, b) == g2.reachable(a, b),
{
    lemma_edges_equiv(g1, g2);
    if g1.reachable(a, b) {
        let p = choose|p: Seq<int>|
            #[trigger] g1.is_edge_path(p) && p.len() >= 1 && p[0] == a && p.last() == b
                && g1.live(a) && g1.live(b);
        assert(g2.is_edge_path(p)) by {
            assert forall|i: int| #![trigger p[i]] 0 <= i < p.len() - 1 implies g2.edge(
                p[i],
                p[i + 1],
            ) by {
                assert(g1.edge(p[i], p[i + 1]));
            }
        }
    }
    if g2.reachable(a, b) {
        let p = choose|p: Seq<int>|
            #[trigger] g2.is_edge_path(p) && p.len() >= 1 && p[0] == a && p.last() == b
                && g2.live(a) && g2.live(b);
        assert(g1.is_edge_path(p)) by {
            assert forall|i: int| #![trigger p[i]] 0 <= i < p.len() - 1 implies g1.edge(
                p[i],
                p[i + 1],
            ) by {
                assert(g2.edge(p[i], p[i + 1]));
            }
        }
    }
}

/// Every live object reaches itself.
proof fn lemma_reachable_refl(g: GarbageCollector, a: int)
    requires
        g.live(a),
    ensures
        g.reachable(a, a),
{
    let p = seq![a];
    assert(g.is_edge_path(p));
    assert(p[0] == a && p.last() == a);
}

/// Reachability extends across one more property edge.
proof fn lemma_reachable_step(g: GarbageCollector, a: int, b: int, c: int)
    requires
        g.reachable(a, b),
        g.edge(b, c),
    ensures
        g.reachable(a, c),
{
    let p = choose|p: Seq<int>|
        #[trigger] g.is_edge_path(p) && p.len() >= 1 && p[0] == a && p.last() == b && g.live(a)
            && g.live(b);
    let q = p.push(c);
    assert(g.is_edge_path(q)) by {
        assert forall|i: int| #![trigger q[i]] 0 <= i < q.len() - 1 implies g.edge(q[i], q[i + 1]) by {
            if i < p.len() - 1 {
                assert(g.edge(p[i], p[i + 1]));
                assert(q[i] == p[i] && q[i + 1] == p[i + 1]);
            } else {
                assert(q[i] == p.last() && q[i + 1] == c);
            }
        }
    }
    assert(q.len() >= 1 && q[0] == a && q.last() == c);
}

proof fn lemma_path_covers(g: GarbageCollector, p: Seq<int>)
    requires
        g.marked_closed(),
        g.is_edge_path(p),
        p.len() >= 1,
        g.marked(p[0]),
    ensures
        g.marked(p.last()),
    decreases p.len(),
{
    if p.len() > 1 {
        assert(g.edge(p[0], p[1]));
        let q = p.subrange(1, p.len() as int);
        assert(g.is_edge_path(q)) by {
            assert forall|i: int| #![trigger q[i]] 0 <= i < q.len() - 1 implies g.edge(
                q[i],
                q[i + 1],
            ) by {
                assert(g.edge(p[i + 1], p[i + 2]));
            }
        }
        assert(q[0] == p[1] && q.last() == p.last());
        lemma_path_covers(g, q);
    }
}

/// Mark transitivity: when the marked set is closed under property edges
/// and a root is marked, every object reachable from that root through
/// object-valued properties is marked.
pub proof fn lemma_mark_transitivity(g: GarbageCollector, root: int, o: int)
    requires
        g.marked_closed(),
        g.marked(root),
        g.reachable(root, o),
    ensures
        g.marked(o),
{
    let p = choose|p: Seq<int>|
        #[trigger] g.is_edge_path(p) && p.len() >= 1 && p[0] == root && p.last() == o && g.live(
            root,
        ) && g.live(o);
    lemma_path_covers(g, p);
}


/// The finalizer tokens recorded while sweeping `lst` front to back: one
/// token for each condemned live object with a finalizer, in list order.
pub open spec fn finalizer_tokens(
    g: GarbageCollector,
    lst: Seq<usize>,
    upto: int,
    doomed: spec_fn(int) -> bool,
) -> Seq<u64>
    decreases upto,
{
    if upto <= 0 {
        Seq::empty()
    } else {
        let rest = finalizer_tokens(g, lst, upto - 1, doomed);
        let id = lst[upto - 1] as int;
        if doomed(id) && g.live(id) && g.obj(id).inner.finalizer is Some {
            rest.push(g.obj(id).inner.finalizer->0)
        } else {
            rest
        }
    }
}

/// The identities that contribute to [`finalizer_tokens`], in the same
/// order.
pub open spec fn finalized_ids(
    g: GarbageCollector,
    lst: Seq<usize>,
    upto: int,
    doomed: spec_fn(int) -> bool,
) -> Seq<usize>
    decreases upto,
{
    if upto <= 0 {
        Seq::empty()
    } else {
        let rest = finalized_ids(g, lst, upto - 1, doomed);
        let id = lst[upto - 1] as int;
        if doomed(id) && g.live(id) && g.obj(id).inner.finalizer is Some {
            rest.push(lst[upto - 1])
        } else {
            rest
        }
    }
}

/// How many of the first `upto` entries of `lst` satisfy `p`.
pub open spec fn count_matching(lst: Seq<usize>, upto: int, p: spec_fn(int) -> bool) -> int
    decreases upto,
{
    if upto <= 0 {
        0
    } else {
        count_matching(lst, upto - 1, p) + (if p(lst[upto - 1] as int) {
            1int
        } else {
            0int
        })
    }
}

/// How often `x` occurs among the first `upto` entries of `s`.
pub open spec fn occurrences(s: Seq<usize>, upto: int, x: usize) -> int
    decreases upto,
{
    if upto <= 0 {
        0
    } else {
        occurrences(s, upto - 1, x) + (if s[upto - 1] == x {
            1int
        } else {
            0int
        })
    }
}

proof fn lemma_finalized_ids_occurrences(
    g: GarbageCollector,
    lst: Seq<usize>,
    upto: int,
    doomed: spec_fn(int) -> bool,
    id: usize,
)
    requires
        0 <= upto <= lst.len(),
        g.live(id as int),
        doomed(id as int),
        g.obj(id as int).inner.finalizer is Some,
    ensures
        occurrences(
            finalized_ids(g, lst, upto, doomed),
            finalized_ids(g, lst, upto, doomed).len() as int,
            id,
        ) == occurrences(lst, upto, id),
    decreases upto,
{
    if upto > 0 {
        lemma_finalized_ids_occurrences(g, lst, upto - 1, doomed, id);
        let rest = finalized_ids(g, lst, upto - 1, doomed);
        let cur = finalized_ids(g, lst, upto, doomed);
        if cur != rest {
            assert(cur == rest.push(lst[upto - 1]));
            assert(cur.len() == rest.len() + 1);
            assert(cur[rest.len() as int] == lst[upto - 1]);
            assert(occurrences(cur, cur.len() as int, id) == occurrences(cur, rest.len() as int, id)
                + (if cur[rest.len() as int] == id {
                1int
            } else {
                0int
            }));
            lemma_occurrences_prefix(rest, cur, rest.len() as int);
            assert(occurrences(cur, rest.len() as int, id) == occurrences(
                rest,
                rest.len() as int,
                id,
            ));
        } else {
            assert(lst[upto - 1] != id) by {
                if lst[upto - 1] == id {
                    assert(doomed(id as int) && g.live(id as int) && g.obj(
                        id as int,
                    ).inner.finalizer is Some);
                }
            }
        }
    }
}

proof fn lemma_occurrences_prefix(s1: Seq<usize>, s2: Seq<usize>, upto: int)
    requires
        0 <= upto <= s1.len(),
        s1.len() <= s2.len(),
        forall|i: int| 0 <= i < s1.len() ==> s1[i] == s2[i],
    ensures
        forall|x: usize| occurrences(s1, upto, x) == #[trigger] occurrences(s2, upto, x),
    decreases upto,
{
    if upto > 0 {
        lemma_occurrences_prefix(s1, s2, upto - 1);
        assert forall|x: usize|
            occurrences(s1, upto, x) == #[trigger] occurrences(s2, upto, x) by {
            assert(occurrences(s1, upto - 1, x) == occurrences(s2, upto - 1, x));
            assert(s1[upto - 1] == s2[upto - 1]);
        }
    }
}

proof fn lemma_occurrences_unique(s: Seq<usize>, upto: int, x: usize, w: int)
    requires
        0 <= upto <= s.len(),
        forall|a: int, b: int| 0 <= a < b < s.len() ==> s[a] != s[b],
        0 <= w < s.len(),
        s[w] == x,
    ensures
        occurrences(s, upto, x) == if w < upto {
            1int
        } else {
            0int
        },
    decreases upto,
{
    if upto > 0 {
        lemma_occurrences_unique(s, upto - 1, x, w);
    }
}

/// Finalizer exactly-once: while sweeping a duplicate-free list, a
/// condemned live object with a finalizer is recorded for finalization
/// exactly once.
pub proof fn lemma_finalizer_exactly_once(
    g: GarbageCollector,
    lst: Seq<usize>,
    doomed: spec_fn(int) -> bool,
    id: usize,
)
    requires
        forall|a: int, b: int| 0 <= a < b < lst.len() ==> lst[a] != lst[b],
        lst.contains(id),
        g.live(id as int),
        doomed(id as int),
        g.obj(id as int).inner.finalizer is Some,
    ensures
        ({
            let ids = finalized_ids(g, lst, lst.len() as int, doomed);
            occurrences(ids, ids.len() as int, id) == 1
        }),
{
    let w = choose|w: int| 0 <= w < lst.len() && lst[w] == id;
    lemma_occurrences_unique(lst, lst.len() as int, id, w);
    lemma_finalized_ids_occurrences(g, lst, lst.len() as int, doomed, id);
}


/// The sweep condemnation predicate: unmarked and externally unshared.
pub open spec fn sweep_doomed(g: GarbageCollector) -> spec_fn(int) -> bool {
    |id: int| !g.marked(id) && g.obj(id).external_refs == 0
}

/// The sweep release predicate: unmarked (released from tracking whether
/// or not an external share keeps the object alive).
pub open spec fn sweep_unmarked(g: GarbageCollector) -> spec_fn(int) -> bool {
    |id: int| !g.marked(id)
}

proof fn lemma_take_contains(s: Seq<usize>, i: int, x: usize)
    requires
        0 <= i < s.len(),
    ensures
        s.take(i + 1).contains(x) <==> (s.take(i).contains(x) || s[i] == x),
{
    if s.take(i).contains(x) {
        let w = choose|w: int| 0 <= w < i && s.take(i)[w] == x;
        assert(s.take(i + 1)[w] == x);
    }
    if s[i] == x {
        assert(s.take(i + 1)[i] == x);
    }
    if s.take(i + 1).contains(x) {
        let w = choose|w: int| 0 <= w < i + 1 && #[trigger] s.take(i + 1)[w] == x;
        if w < i {
            assert(s.take(i)[w] == x);
        }
    }
}


/// The summed size estimate depends only on the heap contents and shape
/// table, not on the rest of the collector state.
proof fn lemma_list_size_congruence(g1: GarbageCollector, g2: GarbageCollector, lst: Seq<usize>)
    requires
        g1.objects == g2.objects,
        g1.shapes == g2.shapes,
    ensures
        g1.list_size_spec(lst) == g2.list_size_spec(lst),
    decreases lst.len(),
{
    if lst.len() > 0 {
        lemma_list_size_congruence(g1, g2, lst.drop_last());
        assert(g1.obj(lst.last() as int) == g2.obj(lst.last() as int));
    }
}

/// Whether the current size of a generation, in bytes, stays below a
/// threshold given in kilobytes.
pub open spec fn kb_to_bytes(kb: usize) -> usize {
    if kb * 1024 > usize::MAX {
        usize::MAX
    } else {
        (kb * 1024) as usize
    }
}



/// Root reachability ignores the mark bits and everything outside the
/// heap contents and root list.
proof fn lemma_root_reachable_equiv(g1: GarbageCollector, g2: GarbageCollector)
    requires
        objs_equal_except_marks(g1, g2),
        g1.roots == g2.roots,
    ensures
        forall|o: int| g1.root_reachable(o) == g2.root_reachable(o),
{
    assert forall|o: int| g1.root_reachable(o) implies g2.root_reachable(o) by {
        let ri = choose|ri: int|
            0 <= ri < g1.roots@.len() && g1.reachable(#[trigger] g1.roots@[ri] as int, o);
        lemma_reachable_equiv(g1, g2, g1.roots@[ri] as int, o);
        assert(g2.reachable(g2.roots@[ri] as int, o));
    }
    assert forall|o: int| g2.root_reachable(o) implies g1.root_reachable(o) by {
        let ri = choose|ri: int|
            0 <= ri < g2.roots@.len() && g2.reachable(#[trigger] g2.roots@[ri] as int, o);
        lemma_reachable_equiv(g1, g2, g2.roots@[ri] as int, o);
        assert(g1.reachable(g1.roots@[ri] as int, o));
    }
}


/// Condemned by a full collection: unreachable from every registered
/// root and externally unshared.
pub open spec fn collect_doomed(g: GarbageCollector) -> spec_fn(int) -> bool {
    |id: int| !g.root_reachable(id) && g.obj(id).external_refs == 0
}

/// Released from tracking by a full collection: unreachable from every
/// registered root.
pub open spec fn collect_unreached(g: GarbageCollector) -> spec_fn(int) -> bool {
    |id: int| !g.root_reachable(id)
}

/// Whether an allocation pushes the young generation's size estimate
/// past its threshold, so that `create_object` runs a minor collection
/// before returning.
pub open spec fn alloc_triggers(g: GarbageCollector) -> bool {
    sat_add(g.stats.young_generation_size, OBJECT_BASE_SIZE) > kb_to_bytes(
        g.config.young_gen_threshold_kb,
    )
}

/// Counting matches depends only on how the predicate decides the listed
/// identities.
proof fn lemma_count_matching_congruence(
    lst: Seq<usize>,
    upto: int,
    p1: spec_fn(int) -> bool,
    p2: spec_fn(int) -> bool,
)
    requires
        forall|j: int| 0 <= j < upto ==> p1(#[trigger] lst[j] as int) == p2(lst[j] as int),
    ensures
        count_matching(lst, upto, p1) == count_matching(lst, upto, p2),
    decreases upto,
{
    if upto > 0 {
        lemma_count_matching_congruence(lst, upto - 1, p1, p2);
    }
}

/// The recorded finalizer tokens depend only on the listed identities'
/// liveness, finalizers, and condemnation.
proof fn lemma_finalizer_tokens_congruence(
    g1: GarbageCollector,
    g2: GarbageCollector,
    lst: Seq<usize>,
    upto: int,
    d1: spec_fn(int) -> bool,
    d2: spec_fn(int) -> bool,
)
    requires
        forall|j: int|
            0 <= j < upto ==> {
                let id = #[trigger] lst[j] as int;
                &&& g1.live(id) == g2.live(id)
                &&& (g1.live(id) ==> g1.obj(id).inner.finalizer == g2.obj(id).inner.finalizer)
                &&& d1(id) == d2(id)
            },
    ensures
        finalizer_tokens(g1, lst, upto, d1) == finalizer_tokens(g2, lst, upto, d2),
    decreases upto,
{
    if upto > 0 {
        lemma_finalizer_tokens_congruence(g1, g2, lst, upto - 1, d1, d2);
    }
}

/// Adding a fresh object with no properties — which nothing can
/// reference, since every existing slot stays inside the old heap —
/// changes no other object's root reachability.
proof fn lemma_root_reachable_fresh_object(g1: GarbageCollector, g2: GarbageCollector, fresh: int)
    requires
        g2.roots == g1.roots,
        g2.objects@.len() == g1.objects@.len() + 1,
        fresh == g1.objects@.len(),
        forall|i: int| 0 <= i < g1.objects@.len() ==> g2.objects@[i] == g1.objects@[i],
        g2.live(fresh),
        g2.obj(fresh).inner.values@.len() == 0,
        forall|i: int|
            g1.live(i) ==> (#[trigger] g1.obj(i)).inner.values_in_bounds(g1.objects@.len() as int),
    ensures
        forall|o: int| o != fresh ==> g2.root_reachable(o) == g1.root_reachable(o),
{
    assert forall|a: int, b: int|
        a != fresh && b != fresh implies g1.edge(a, b) == g2.edge(a, b) by {
        if 0 <= a < g1.objects@.len() {
            assert(g2.objects@[a] == g1.objects@[a]);
        }
        if 0 <= b < g1.objects@.len() {
            assert(g2.objects@[b] == g1.objects@[b]);
        }
    }
    assert forall|a: int| !(#[trigger] g2.edge(a, fresh)) by {
        if g2.edge(a, fresh) {
            let k = choose|k: int|
                0 <= k < g2.obj(a).inner.values@.len() && ((#[trigger] g2.obj(a).inner.values@[k])
                    matches JSValue::Object(v) && v == fresh);
            if a == fresh {
                assert(g2.obj(a).inner.values@.len() == 0);
            } else {
                assert(g2.objects@[a] == g1.objects@[a]);
                assert(g1.live(a));
                assert(g1.obj(a).inner.values_in_bounds(g1.objects@.len() as int));
                assert(g1.obj(a).inner.values@[k] matches JSValue::Object(v) ==> v
                    < g1.objects@.len());
            }
        }
    }
    assert forall|b: int| !(#[trigger] g2.edge(fresh, b)) by {
        if g2.edge(fresh, b) {
            let k = choose|k: int|
                0 <= k < g2.obj(fresh).inner.values@.len() && ((#[trigger] g2.obj(
                    fresh,
                ).inner.values@[k]) matches JSValue::Object(v) && v == b);
        }
    }
    assert forall|o: int| o != fresh implies g2.root_reachable(o) == g1.root_reachable(o) by {
        if g1.root_reachable(o) {
            let ri = choose|ri: int|
                0 <= ri < g1.roots@.len() && g1.reachable(#[trigger] g1.roots@[ri] as int, o);
            let p = choose|p: Seq<int>|
                #[trigger] g1.is_edge_path(p) && p.len() >= 1 && p[0] == g1.roots@[ri] as int
                    && p.last() == o && g1.live(g1.roots@[ri] as int) && g1.live(o);
            // every element of a path in the old heap lies inside it
            assert(g2.is_edge_path(p)) by {
                assert forall|k: int| #![trigger p[k]] 0 <= k < p.len() - 1 implies g2.edge(
                    p[k],
                    p[k + 1],
                ) by {
                    assert(g1.edge(p[k], p[k + 1]));
                    assert(p[k] != fresh && p[k + 1] != fresh);
                }
            }
            assert(g2.live(p[0]) && g2.live(o)) by {
                assert(g2.objects@[p[0]] == g1.objects@[p[0]]);
                assert(g2.objects@[o] == g1.objects@[o]);
            }
            assert(g2.reachable(g2.roots@[ri] as int, o));
        }
        if g2.root_reachable(o) {
            let ri = choose|ri: int|
                0 <= ri < g2.roots@.len() && g2.reachable(#[trigger] g2.roots@[ri] as int, o);
            let p = choose|p: Seq<int>|
                #[trigger] g2.is_edge_path(p) && p.len() >= 1 && p[0] == g2.roots@[ri] as int
                    && p.last() == o && g2.live(g2.roots@[ri] as int) && g2.live(o);
            // the path cannot visit the fresh object: nothing leads into
            // it, and starting there stops at once
            assert forall|k: int| 0 <= k < p.len() implies #[trigger] p[k] != fresh by {
                if p[k] == fresh {
                    if k > 0 {
                        assert(g2.edge(p[k - 1], p[k]));
                    } else {
                        if p.len() > 1 {
                            assert(g2.edge(p[0], p[1]));
                        } else {
                            assert(o == fresh);
                        }
                    }
                }
            }
            assert(g1.is_edge_path(p)) by {
                assert forall|k: int| #![trigger p[k]] 0 <= k < p.len() - 1 implies g1.edge(
                    p[k],
                    p[k + 1],
                ) by {
                    assert(g2.edge(p[k], p[k + 1]));
                    assert(p[k] != fresh && p[k + 1] != fresh);
                }
            }
            assert(g1.live(p[0]) && g1.live(o)) by {
                assert(p[0] != fresh && o != fresh);
                assert(g2.objects@[p[0]] == g1.objects@[p[0]]);
                assert(g2.objects@[o] == g1.objects@[o]);
            }
            assert(g1.reachable(g1.roots@[ri] as int, o));
        }
    }
}

/// Structural well-formedness does not depend on the statistics, the
/// configuration, the re-entrancy flag or the finalizer queue.
proof fn lemma_wf_core_frame(g1: GarbageCollector, g2: GarbageCollector)
    requires
        g1.wf_core(),
        g2.objects == g1.objects,
        g2.young_generation == g1.young_generation,
        g2.old_generation == g1.old_generation,
        g2.roots == g1.roots,
        g2.shapes == g1.shapes,
        g2.interner == g1.interner,
    ensures
        g2.wf_core(),
{
    assert forall|id: int| g2.live(id) implies #[trigger] g2.obj_wf(id) by {
        assert(g1.live(id));
        assert(g1.obj_wf(id));
        assert(g2.obj(id) == g1.obj(id));
    }
    assert(g2.gen_lists_wf()) by {
        assert forall|k: int|
            0 <= k < g2.young_generation@.len() implies g2.live(
            #[trigger] g2.young_generation@[k] as int,
        ) by {
            assert(g1.live(g1.young_generation@[k] as int));
        }
        assert forall|k: int|
            0 <= k < g2.old_generation@.len() implies g2.live(
            #[trigger] g2.old_generation@[k] as int,
        ) by {
            assert(g1.live(g1.old_generation@[k] as int));
        }
    }
}

/// Whether the old generation's size estimate has crossed the major
/// collection threshold.
pub open spec fn major_gate(g: GarbageCollector) -> bool {
    g.stats.old_generation_size >= kb_to_bytes(g.config.old_gen_threshold_kb)
}

/// The generational garbage collector. It owns the heap arena and, as the
/// process-wide facade, the shape table and the string interner that its
/// objects' properties refer to.
pub struct GarbageCollector {
    /// The object arena; `None` marks a destroyed object. Identities are
    /// indices and are never reused.
    pub objects: Vec<Option<JSObject>>,
    /// Identities tracked in the young generation.
    pub young_generation: Vec<usize>,
    /// Identities tracked in the old generation.
    pub old_generation: Vec<usize>,
    /// Registered root identities; unconditionally marked.
    pub roots: Vec<usize>,
    /// Configuration options.
    pub config: GCConfiguration,
    /// Collection statistics.
    pub stats: GCStatistics,
    /// Whether a collection is currently running (re-entrancy guard).
    pub collecting: bool,
    /// The shape table shared by every object of this collector.
    pub shapes: ShapeTable,
    /// The process-wide string interner.
    pub interner: StringInterner,
    /// Finalizer tokens of destroyed objects, in destruction order,
    /// awaiting invocation by the host boundary.
    pub pending_finalizers: Vec<u64>,
}

impl GarbageCollector {
    /// `id` denotes a live (not destroyed) object of this heap.
    pub open spec fn live(self, id: int) -> bool {
        0 <= id < self.objects@.len() && self.objects@[id] is Some
    }

    /// The object at `id`.
    pub open spec fn obj(self, id: int) -> JSObject {
        self.objects@[id]->0
    }

    /// A property edge: some slot of the live object `a` references the
    /// live object `b`.
    pub open spec fn edge(self, a: int, b: int) -> bool {
        &&& self.live(a)
        &&& self.live(b)
        &&& exists|k: int|
            0 <= k < self.obj(a).inner.values@.len() && ((#[trigger] self.obj(
                a,
            ).inner.values@[k]) matches JSValue::Object(o) && o == b)
    }

    /// Consecutive elements of `p` are property edges.
    pub open spec fn is_edge_path(self, p: Seq<int>) -> bool {
        forall|i: int| #![trigger p[i]] 0 <= i < p.len() - 1 ==> self.edge(p[i], p[i + 1])
    }

    /// `b` is reachable from `a` through property edges: some edge path
    /// leads from `a` to `b`.
    pub open spec fn reachable(self, a: int, b: int) -> bool {
        exists|p: Seq<int>|
            #[trigger] self.is_edge_path(p) && p.len() >= 1 && p[0] == a && p.last() == b
                && self.live(a) && self.live(b)
    }

    /// `b` is reachable from some registered root.
    pub open spec fn root_reachable(self, b: int) -> bool {
        exists|ri: int|
            0 <= ri < self.roots@.len() && self.reachable(#[trigger] self.roots@[ri] as int, b)
    }

    /// `id` is live and carries the mark bit.
    pub open spec fn marked(self, id: int) -> bool {
        self.live(id) && self.obj(id).inner.marked
    }

    /// No live object carries the mark bit; holds between collections.
    pub open spec fn all_unmarked(self) -> bool {
        forall|id: int| self.live(id) ==> !(#[trigger] self.obj(id)).inner.marked
    }

    /// The marked set is closed under property edges.
    pub open spec fn marked_closed(self) -> bool {
        forall|a: int, b: int| #[trigger] self.edge(a, b) && self.marked(a) ==> self.marked(b)
    }

    /// Per-object consistency: the object agrees with the shape table and
    /// interner, its references stay inside the heap, and its
    /// `in_generation` flag mirrors the generation lists.
    pub open spec fn obj_wf(self, id: int) -> bool {
        &&& self.obj(id).inner.wf(self.shapes)
        &&& self.obj(id).inner.names_valid(self.shapes, self.interner)
        &&& self.obj(id).inner.values_in_bounds(self.objects@.len() as int)
        &&& self.obj(id).in_generation == (self.young_generation@.contains(id as usize)
            || self.old_generation@.contains(id as usize))
    }

    /// The generation lists hold live identities, without duplicates and
    /// without overlap.
    pub open spec fn gen_lists_wf(self) -> bool {
        &&& forall|k: int|
            0 <= k < self.young_generation@.len() ==> self.live(
                #[trigger] self.young_generation@[k] as int,
            )
        &&& forall|k: int|
            0 <= k < self.old_generation@.len() ==> self.live(
                #[trigger] self.old_generation@[k] as int,
            )
        &&& forall|a: int, b: int|
            0 <= a < b < self.young_generation@.len() ==> self.young_generation@[a]
                != self.young_generation@[b]
        &&& forall|a: int, b: int|
            0 <= a < b < self.old_generation@.len() ==> self.old_generation@[a]
                != self.old_generation@[b]
        &&& forall|a: int, b: int|
            0 <= a < self.young_generation@.len() && 0 <= b < self.old_generation@.len()
                ==> self.young_generation@[a] != self.old_generation@[b]
    }

    /// Structural well-formedness, independent of the mark bits.
    pub open spec fn wf_core(self) -> bool {
        &&& self.shapes.wf()
        &&& self.interner.wf()
        &&& forall|id: int| self.live(id) ==> #[trigger] self.obj_wf(id)
        &&& self.gen_lists_wf()
        &&& forall|a: int, b: int|
            0 <= a < b < self.roots@.len() ==> self.roots@[a] != self.roots@[b]
    }

    /// Well-formedness between collections: structure plus cleared marks.
    pub open spec fn wf(self) -> bool {
        &&& self.wf_core()
        &&& self.all_unmarked()
    }

    /// The estimated size of the live object `id`.
    pub open spec fn object_size_of(self, id: int) -> usize {
        size_estimate_rec(
            self.obj(id).inner.values@,
            self.shapes.names_of(self.obj(id).inner.shape as int).len() as int,
            self.obj(id).inner.values@.len() as int,
        )
    }

    /// The summed size estimate of a list of live objects.
    pub open spec fn list_size_spec(self, lst: Seq<usize>) -> usize
        decreases lst.len(),
    {
        if lst.len() == 0 {
            0
        } else {
            sat_add(self.list_size_spec(lst.drop_last()), self.object_size_of(lst.last() as int))
        }
    }

    /// A fresh collector: empty heap, empty generations and roots,
    /// default configuration, zeroed statistics, a root-only shape table
    /// and an empty interner.
    pub fn new() -> (r: Self)
        ensures
            r.wf(),
            r.objects@.len() == 0,
            r.young_generation@.len() == 0,
            r.old_generation@.len() == 0,
            r.roots@.len() == 0,
            r.config.young_gen_threshold_kb == 256,
            r.config.old_gen_threshold_kb == 4096,
            r.config.max_pause_ms == 10,
            r.config.incremental == true,
            r.config.verbose == false,
            r.stats.allocation_count == 0,
            r.stats.collection_count == 0,
            r.stats.objects_freed == 0,
            r.stats.young_generation_size == 0,
            r.stats.old_generation_size == 0,
            r.collecting == false,
            r.pending_finalizers@.len() == 0,
            r.interner.contents().len() == 0,
    {
        GarbageCollector {
            objects: Vec::new(),
            young_generation: Vec::new(),
            old_generation: Vec::new(),
            roots: Vec::new(),
            config: GCConfiguration::default(),
            stats: GCStatistics::default(),
            collecting: false,
            shapes: ShapeTable::new(),
            interner: StringInterner::new(),
            pending_finalizers: Vec::new(),
        }
    }

    /// Replace the configuration.
    pub fn configure(&mut self, config: GCConfiguration)
        ensures
            final(self).config == config,
            *final(self) == (GarbageCollector { config, ..*old(self) }),
    {
        self.config = config;
    }

    /// A snapshot of the statistics counters.
    pub fn statistics(&self) -> (s: GCStatistics)
        ensures
            s == self.stats,
    {
        self.stats
    }

    /// Estimate the memory size of the live object `id`: a base charge,
    /// a charge per property slot, and the bytes of string-valued slots.
    /// The estimate only drives the collection thresholds.
    pub fn estimate_object_size(&self, id: usize) -> (r: usize)
        requires
            self.live(id as int),
            self.obj(id as int).inner.shape < self.shapes.shapes@.len(),
        ensures
            r == self.object_size_of(id as int),
    {
        match &self.objects[id] {
            Some(o) => {
                let count: usize = self.shapes.shapes[o.inner.shape].property_count();
                let n: usize = o.inner.values.len();
                let mut acc: usize = OBJECT_BASE_SIZE;
                let mut k: usize = 0;
                while k < n
                    invariant
                        n == o.inner.values@.len(),
                        count == self.shapes.names_of(o.inner.shape as int).len(),
                        k <= n,
                        acc == size_estimate_rec(o.inner.values@, count as int, k as int),
                    decreases n - k,
                {
                    let slot: usize = if k < count {
                        SLOT_OVERHEAD
                    } else {
                        0
                    };
                    let sbytes: usize = match &o.inner.values[k] {
                        JSValue::String(s) => s.as_str().len(),
                        _ => 0,
                    };
                    acc = acc.saturating_add(slot).saturating_add(sbytes);
                    k = k + 1;
                }
                acc
            },
            None => 0,
        }
    }


    /// Mark `id` and, transitively, every object reachable from it
    /// through object-valued properties. Idempotent: already-marked
    /// objects are not descended into, so marking terminates on cyclic
    /// object graphs.
    #[verifier::loop_isolation(false)]
    #[verifier::rlimit(100)]
    pub fn mark(&mut self, id: usize)
        requires
            old(self).wf_core(),
            old(self).marked_closed(),
        ensures
            final(self).wf_core(),
            final(self).marked_closed(),
            objs_equal_except_marks(*old(self), *final(self)),
            final(self).young_generation == old(self).young_generation,
            final(self).old_generation == old(self).old_generation,
            final(self).roots == old(self).roots,
            final(self).config == old(self).config,
            final(self).stats == old(self).stats,
            final(self).collecting == old(self).collecting,
            final(self).shapes == old(self).shapes,
            final(self).interner == old(self).interner,
            final(self).pending_finalizers == old(self).pending_finalizers,
            forall|o: int|
                final(self).marked(o) <==> (old(self).marked(o) || (old(self).live(id as int)
                    && old(self).reachable(id as int, o))),
    {
        if id >= self.objects.len() {
            return ;
        }
        let id_live: bool = match &self.objects[id] {
            Some(_) => true,
            None => false,
        };
        if !id_live {
            return ;
        }
        let ghost g0: GarbageCollector = *old(self);
        let mut stack: Vec<usize> = Vec::new();
        stack.push(id);
        proof {
            lemma_reachable_refl(g0, id as int);
            assert(stack@[0] == id);
            assert(stack@.contains(id));
        }
        while stack.len() > 0
            invariant
                self.wf_core(),
                objs_equal_except_marks(g0, *self),
                self.young_generation == g0.young_generation,
                self.old_generation == g0.old_generation,
                self.roots == g0.roots,
                self.config == g0.config,
                self.stats == g0.stats,
                self.collecting == g0.collecting,
                self.shapes == g0.shapes,
                self.interner == g0.interner,
                self.pending_finalizers == g0.pending_finalizers,
                forall|o: int| g0.marked(o) ==> self.marked(o),
                forall|o: int|
                    self.marked(o) ==> g0.marked(o) || g0.reachable(id as int, o),
                forall|k: int|
                    0 <= k < stack@.len() ==> g0.live(#[trigger] stack@[k] as int) && g0.reachable(
                        id as int,
                        stack@[k] as int,
                    ),
                forall|a: int, b: int|
                    #[trigger] self.edge(a, b) && self.marked(a) ==> self.marked(b)
                        || stack@.contains(b as usize),
                self.marked(id as int) || stack@.contains(id),
            decreases count_unmarked(self.objects@, self.objects@.len() as int), stack@.len(),
        {
            let ghost stack_pre: Seq<usize> = stack@;
            let ghost s_entry: GarbageCollector = *self;
            let popped: Option<usize> = stack.pop();
            let top: usize = match popped {
                Some(t) => t,
                None => 0,
            };
            let ghost stack_popped: Seq<usize> = stack@;
            proof {
                assert(stack_pre[stack_pre.len() - 1] == top);
                assert(g0.live(top as int) && g0.reachable(id as int, top as int));
                assert(self.live(top as int));
            }
            let top_marked: bool = match &self.objects[top] {
                Some(o) => o.inner.marked,
                None => true,
            };
            if !top_marked {
                let ghost s0: GarbageCollector = *self;
                let ghost objs_pre: Seq<Option<JSObject>> = self.objects@;
                if let Some(o) = &mut self.objects[top] {
                    o.inner.marked = true;
                }
                proof {
                    lemma_count_unmarked_mark(
                        objs_pre,
                        self.objects@,
                        top as int,
                        objs_pre.len() as int,
                    );
                    assert forall|i: int| self.live(i) <==> s0.live(i) by {
                        if i != top as int && 0 <= i < self.objects@.len() {
                            assert(self.objects@[i] == s0.objects@[i]);
                        }
                    }
                    assert forall|i: int| self.live(i) implies #[trigger] self.obj_wf(i) by {
                        assert(s0.live(i));
                        assert(s0.obj_wf(i));
                        if i == top as int {
                            assert(self.obj(i).inner.shape == s0.obj(i).inner.shape);
                            assert(self.obj(i).inner.values@ == s0.obj(i).inner.values@);
                            assert(self.obj(i).in_generation == s0.obj(i).in_generation);
                        } else {
                            assert(self.objects@[i] == s0.objects@[i]);
                        }
                    }
                    assert(self.gen_lists_wf()) by {
                        assert forall|k: int|
                            0 <= k < self.young_generation@.len() implies self.live(
                            #[trigger] self.young_generation@[k] as int,
                        ) by {
                            assert(s0.live(s0.young_generation@[k] as int));
                        }
                        assert forall|k: int|
                            0 <= k < self.old_generation@.len() implies self.live(
                            #[trigger] self.old_generation@[k] as int,
                        ) by {
                            assert(s0.live(s0.old_generation@[k] as int));
                        }
                    }
                    assert(objs_equal_except_marks(g0, *self)) by {
                        assert forall|i: int| g0.live(i) <==> #[trigger] self.live(i) by {
                            assert(g0.live(i) <==> s0.live(i));
                        }
                        assert forall|i: int|
                            g0.live(i) implies {
                            let o1 = g0.obj(i);
                            let o2 = #[trigger] self.obj(i);
                            &&& o2.inner.obj_type == o1.inner.obj_type
                            &&& o2.inner.shape == o1.inner.shape
                            &&& o2.inner.values == o1.inner.values
                            &&& o2.inner.finalizer == o1.inner.finalizer
                            &&& o2.external_refs == o1.external_refs
                            &&& o2.in_generation == o1.in_generation
                        } by {
                            if i != top as int {
                                assert(self.objects@[i] == s0.objects@[i]);
                            } else {
                                assert(s0.obj(i).inner.obj_type == g0.obj(i).inner.obj_type);
                                assert(s0.obj(i).inner.shape == g0.obj(i).inner.shape);
                                assert(s0.obj(i).inner.values == g0.obj(i).inner.values);
                                assert(s0.obj(i).inner.finalizer == g0.obj(i).inner.finalizer);
                                assert(s0.obj(i).external_refs == g0.obj(i).external_refs);
                                assert(s0.obj(i).in_generation == g0.obj(i).in_generation);
                                assert(self.obj(i).inner.obj_type == s0.obj(i).inner.obj_type);
                                assert(self.obj(i).inner.shape == s0.obj(i).inner.shape);
                                assert(self.obj(i).inner.values == s0.obj(i).inner.values);
                                assert(self.obj(i).inner.finalizer == s0.obj(i).inner.finalizer);
                                assert(self.obj(i).external_refs == s0.obj(i).external_refs);
                                assert(self.obj(i).in_generation == s0.obj(i).in_generation);
                            }
                        }
                    }
                    assert forall|o: int| g0.marked(o) implies self.marked(o) by {
                        assert(s0.marked(o) ==> self.marked(o)) by {
                            if o != top as int && s0.marked(o) {
                                assert(self.objects@[o] == s0.objects@[o]);
                            }
                        }
                    }
                    assert forall|o: int|
                        self.marked(o) implies g0.marked(o) || g0.reachable(id as int, o) by {
                        if o != top as int {
                            assert(self.objects@[o] == s0.objects@[o]);
                        }
                    }
                }
                let vlen: usize = match &self.objects[top] {
                    Some(o) => o.inner.values.len(),
                    None => 0,
                };
                let ghost stack_before: Seq<usize> = stack@;
                let mut k: usize = 0;
                while k < vlen
                    invariant
                        k <= vlen,
                        vlen == self.obj(top as int).inner.values@.len(),
                        stack_before.is_prefix_of(stack@),
                        forall|j: int|
                            0 <= j < stack@.len() ==> g0.live(#[trigger] stack@[j] as int)
                                && g0.reachable(id as int, stack@[j] as int),
                        forall|j: int|
                            0 <= j < k ==> ((#[trigger] self.obj(top as int).inner.values@[j])
                                matches JSValue::Object(o) ==> (self.live(o as int) ==> self.marked(
                                o as int,
                            ) || stack@.contains(o))),
                    decreases vlen - k,
                {
                    let child_opt: Option<usize> = match &self.objects[top] {
                        Some(o) => match &o.inner.values[k] {
                            JSValue::Object(v) => Some(*v),
                            _ => None,
                        },
                        None => None,
                    };
                    if let Some(v) = child_opt {
                        if v < self.objects.len() {
                            let child_live: bool = match &self.objects[v] {
                                Some(_) => true,
                                None => false,
                            };
                            if child_live {
                                proof {
                                    assert(self.edge(top as int, v as int));
                                    lemma_edges_equiv(g0, *self);
                                    assert(g0.edge(top as int, v as int));
                                    lemma_reachable_step(g0, id as int, top as int, v as int);
                                }
                                let ghost stack_mid: Seq<usize> = stack@;
                                stack.push(v);
                                proof {
                                    assert forall|j: int|
                                        0 <= j < k + 1 implies ((#[trigger] self.obj(
                                        top as int,
                                    ).inner.values@[j]) matches JSValue::Object(o) ==> (self.live(
                                        o as int,
                                    ) ==> self.marked(o as int) || stack@.contains(o))) by {
                                        if j < k {
                                            match self.obj(top as int).inner.values@[j] {
                                                JSValue::Object(o) => {
                                                    if self.live(o as int) && !self.marked(
                                                        o as int,
                                                    ) {
                                                        let w = choose|w: int|
                                                            0 <= w < stack_mid.len()
                                                                && stack_mid[w] == o;
                                                        assert(stack@[w] == o);
                                                    }
                                                },
                                                _ => {},
                                            }
                                        } else {
                                            assert(stack@[stack@.len() - 1] == v);
                                        }
                                    }
                                }
                            }
                        }
                    }
                    k = k + 1;
                }
            }
            proof {
                // whatever left the stack is marked or still on it
                assert forall|x: usize| stack_pre.contains(x) implies x == top || stack@.contains(
                    x,
                ) by {
                    let w = choose|w: int| 0 <= w < stack_pre.len() && stack_pre[w] == x;
                    if w < stack_pre.len() - 1 {
                        assert(stack_popped[w] == x);
                        assert(stack@[w] == x);
                    }
                }
                assert(self.marked(top as int));
                assert(self.marked(id as int) || stack@.contains(id)) by {
                    if !self.marked(id as int) {
                        assert(s_entry.marked(id as int) ==> self.marked(id as int));
                        assert(stack_pre.contains(id));
                        assert(id != top);
                    }
                }
                assert forall|a: int, b: int|
                    #[trigger] self.edge(a, b) && self.marked(a) implies self.marked(b)
                        || stack@.contains(b as usize) by {
                    if a == top as int {
                        if !self.marked(b) {
                            let j = choose|j: int|
                                0 <= j < self.obj(a).inner.values@.len() && ((#[trigger] self.obj(
                                    a,
                                ).inner.values@[j]) matches JSValue::Object(o) && o == b);
                        }
                    } else {
                        assert(s_entry.edge(a, b)) by {
                            lemma_edges_equiv(g0, *self);
                            lemma_edges_equiv(g0, s_entry);
                        }
                        assert(s_entry.marked(a)) by {
                            if 0 <= a < self.objects@.len() && a != top as int {
                                assert(self.objects@[a] == s_entry.objects@[a]);
                            }
                        }
                        assert(s_entry.marked(b) || stack_pre.contains(b as usize));
                        if s_entry.marked(b) {
                            assert(self.marked(b)) by {
                                if b != top as int {
                                    assert(self.objects@[b] == s_entry.objects@[b]);
                                }
                            }
                        }
                    }
                }
                lemma_count_unmarked_nonneg(self.objects@, self.objects@.len() as int);
                if !top_marked {
                    assert(count_unmarked(self.objects@, self.objects@.len() as int)
                        < count_unmarked(s_entry.objects@, s_entry.objects@.len() as int));
                } else {
                    assert(self.objects@ == s_entry.objects@);
                    assert(stack@.len() < stack_pre.len());
                }
            }
        }
        proof {
            assert forall|o: int|
                g0.live(id as int) && g0.reachable(id as int, o) implies self.marked(o) by {
                lemma_reachable_equiv(g0, *self, id as int, o);
                lemma_mark_transitivity(*self, id as int, o);
            }
        }
    }


    /// Sweep the young generation against the current marks: marked
    /// objects survive (promoted to the old generation when externally
    /// shared), unmarked objects are released from tracking and, when no
    /// external share remains, destroyed with their finalizer recorded.
    #[verifier::rlimit(100)]
    fn sweep_young(&mut self)
        requires
            old(self).wf_core(),
        ensures
            final(self).wf_core(),
            final(self).roots == old(self).roots,
            final(self).config == old(self).config,
            final(self).collecting == old(self).collecting,
            final(self).shapes == old(self).shapes,
            final(self).interner == old(self).interner,
            final(self).objects@.len() == old(self).objects@.len(),
            final(self).stats.allocation_count == old(self).stats.allocation_count,
            final(self).stats.collection_count == old(self).stats.collection_count,
            final(self).stats.objects_freed == sat_add(
                old(self).stats.objects_freed,
                count_matching(
                    old(self).young_generation@,
                    old(self).young_generation@.len() as int,
                    sweep_unmarked(*old(self)),
                ) as usize,
            ),
            final(self).stats.young_generation_size == final(self).list_size_spec(
                final(self).young_generation@,
            ),
            final(self).stats.old_generation_size == final(self).list_size_spec(
                final(self).old_generation@,
            ),
            forall|id: int|
                final(self).live(id) <==> (old(self).live(id) && !(old(self).young_generation@.contains(id as usize) && !old(self).marked(id) && old(self).obj(
                    id,
                ).external_refs == 0)),
            forall|id: int|
                final(self).live(id) ==> {
                    let o1 = old(self).obj(id);
                    let o2 = final(self).obj(id);
                    &&& o2.inner.obj_type == o1.inner.obj_type
                    &&& o2.inner.shape == o1.inner.shape
                    &&& o2.inner.values == o1.inner.values
                    &&& o2.inner.finalizer == o1.inner.finalizer
                    &&& o2.external_refs == o1.external_refs
                    &&& o2.inner.marked == (if old(self).young_generation@.contains(id as usize) {
                        false
                    } else {
                        o1.inner.marked
                    })
                    &&& o2.in_generation == (if old(self).young_generation@.contains(id as usize) {
                        o1.inner.marked
                    } else {
                        o1.in_generation
                    })
                },
            forall|x: usize|
                #[trigger] final(self).young_generation@.contains(x) <==> (old(self).young_generation@.contains(x) && old(self).marked(x as int) && old(self).obj(
                    x as int,
                ).external_refs == 0),
            old(self).old_generation@.is_prefix_of(final(self).old_generation@),
            forall|x: usize|
                #[trigger] final(self).old_generation@.contains(x) <==> (old(self).old_generation@.contains(x) || (old(self).young_generation@.contains(x) && old(self).marked(x as int) && old(self).obj(x as int).external_refs > 0)),
            final(self).pending_finalizers@ == old(self).pending_finalizers@ + finalizer_tokens(
                *old(self),
                old(self).young_generation@,
                old(self).young_generation@.len() as int,
                sweep_doomed(*old(self)),
            ),
    {
        let ghost pre: GarbageCollector = *old(self);
        let ghost yg: Seq<usize> = pre.young_generation@;
        let heap_len: usize = self.objects.len();
        let n: usize = self.young_generation.len();
        let mut survivors: Vec<usize> = Vec::new();
        let mut freed: usize = 0;
        let mut i: usize = 0;
        while i < n
            invariant
                pre.wf_core(),
                yg == pre.young_generation@,
                i <= n,
                n == yg.len(),
                heap_len == pre.objects@.len(),
                self.young_generation == pre.young_generation,
                self.roots == pre.roots,
                self.config == pre.config,
                self.collecting == pre.collecting,
                self.shapes == pre.shapes,
                self.interner == pre.interner,
                self.stats == pre.stats,
                self.objects@.len() == pre.objects@.len(),
                forall|id2: int|
                    0 <= id2 < pre.objects@.len() && !yg.take(i as int).contains(id2 as usize)
                        ==> self.objects@[id2] == pre.objects@[id2],
                forall|j: int|
                    0 <= j < i ==> {
                        let id2 = #[trigger] yg[j] as int;
                        &&& (pre.marked(id2) ==> self.live(id2) && {
                            let o1 = pre.obj(id2);
                            let o2 = self.obj(id2);
                            &&& o2.inner.obj_type == o1.inner.obj_type
                            &&& o2.inner.shape == o1.inner.shape
                            &&& o2.inner.values == o1.inner.values
                            &&& o2.inner.finalizer == o1.inner.finalizer
                            &&& o2.external_refs == o1.external_refs
                            &&& o2.inner.marked == false
                            &&& o2.in_generation == true
                        })
                        &&& (!pre.marked(id2) && pre.obj(id2).external_refs > 0 ==> self.live(id2)
                            && {
                            let o1 = pre.obj(id2);
                            let o2 = self.obj(id2);
                            &&& o2.inner.obj_type == o1.inner.obj_type
                            &&& o2.inner.shape == o1.inner.shape
                            &&& o2.inner.values == o1.inner.values
                            &&& o2.inner.finalizer == o1.inner.finalizer
                            &&& o2.external_refs == o1.external_refs
                            &&& o2.inner.marked == o1.inner.marked
                            &&& o2.in_generation == false
                        })
                        &&& (!pre.marked(id2) && pre.obj(id2).external_refs == 0 ==> !self.live(
                            id2,
                        ))
                    },
                forall|x: usize|
                    #[trigger] survivors@.contains(x) <==> (yg.take(i as int).contains(x)
                        && pre.marked(x as int) && pre.obj(x as int).external_refs == 0),
                forall|a: int, b: int| 0 <= a < b < survivors@.len() ==> survivors@[a]
                    != survivors@[b],
                pre.old_generation@.is_prefix_of(self.old_generation@),
                forall|x: usize|
                    #[trigger] self.old_generation@.contains(x) <==> (
                    pre.old_generation@.contains(x) || (yg.take(i as int).contains(x)
                        && pre.marked(x as int) && pre.obj(x as int).external_refs > 0)),
                forall|a: int, b: int| 0 <= a < b < self.old_generation@.len()
                    ==> self.old_generation@[a] != self.old_generation@[b],
                self.pending_finalizers@ == pre.pending_finalizers@ + finalizer_tokens(
                    pre,
                    yg,
                    i as int,
                    sweep_doomed(pre),
                ),
                freed == count_matching(yg, i as int, sweep_unmarked(pre)),
                freed <= i,
            decreases n - i,
        {
            let id: usize = self.young_generation[i];
            proof {
                assert(survivors@.contains(0usize) <==> (yg.take(i as int).contains(0usize)
                    && pre.marked(0int) && pre.obj(0int).external_refs == 0));
                assert(yg[i as int] == id);
                assert(pre.live(id as int));
                assert(!yg.take(i as int).contains(id)) by {
                    if yg.take(i as int).contains(id) {
                        let w = choose|w: int| 0 <= w < i && yg.take(i as int)[w] == id;
                        assert(yg[w] == yg[i as int]);
                    }
                }
                assert(self.objects@[id as int] == pre.objects@[id as int]);
                lemma_take_contains(yg, i as int, id);
                assert(!pre.old_generation@.contains(id)) by {
                    if pre.old_generation@.contains(id) {
                        let w = choose|w: int|
                            0 <= w < pre.old_generation@.len() && pre.old_generation@[w] == id;
                        assert(pre.young_generation@[i as int] != pre.old_generation@[w]);
                    }
                }
            }
            let rec: (bool, usize, Option<u64>) = match &self.objects[id] {
                Some(o) => (o.inner.marked, o.external_refs, o.inner.finalizer),
                None => (false, 0, None),
            };
            let is_marked: bool = rec.0;
            let ext: usize = rec.1;
            let fin: Option<u64> = rec.2;
            proof {
                assert(is_marked == pre.obj(id as int).inner.marked);
                assert(ext == pre.obj(id as int).external_refs);
                assert(fin == pre.obj(id as int).inner.finalizer);
                assert(pre.marked(id as int) == is_marked);
            }
            let ghost s_before: GarbageCollector = *self;
            if is_marked {
                if let Some(o) = &mut self.objects[id] {
                    o.inner.marked = false;
                }
                if ext > 0 {
                    let ghost og0: Seq<usize> = self.old_generation@;
                    self.old_generation.push(id);
                    proof {
                        assert(self.old_generation@ == og0.push(id));
                        assert forall|x: usize|
                            #[trigger] self.old_generation@.contains(x) <==> (
                            pre.old_generation@.contains(x) || (yg.take(i + 1).contains(x)
                                && pre.marked(x as int) && pre.obj(x as int).external_refs > 0)) by {
                            lemma_take_contains(yg, i as int, x);
                            assert(og0.contains(x) <==> (pre.old_generation@.contains(x) || (
                            yg.take(i as int).contains(x) && pre.marked(x as int) && pre.obj(
                                x as int,
                            ).external_refs > 0)));
                            if self.old_generation@.contains(x) {
                                let w = choose|w: int|
                                    0 <= w < self.old_generation@.len() && self.old_generation@[w]
                                        == x;
                                if w < og0.len() {
                                    assert(og0[w] == x);
                                    assert(og0.contains(x));
                                } else {
                                    assert(x == id);
                                }
                            }
                            if og0.contains(x) {
                                let w = choose|w: int| 0 <= w < og0.len() && og0[w] == x;
                                assert(self.old_generation@[w] == x);
                                assert(self.old_generation@.contains(x));
                            }
                            if x == id {
                                assert(self.old_generation@[self.old_generation@.len() - 1] == id);
                                assert(self.old_generation@.contains(x));
                            }
                        }
                        assert forall|a: int, b: int|
                            0 <= a < b < self.old_generation@.len() implies self.old_generation@[a]
                                != self.old_generation@[b] by {
                            if b == self.old_generation@.len() - 1 {
                                assert(self.old_generation@[a] == og0[a]);
                                if self.old_generation@[a] == id {
                                    assert(og0.contains(id));
                                }
                            }
                        }
                        assert forall|x: usize|
                            #[trigger] survivors@.contains(x) <==> (yg.take(i + 1).contains(x)
                                && pre.marked(x as int) && pre.obj(x as int).external_refs == 0) by {
                            lemma_take_contains(yg, i as int, x);
                        }
                    }
                } else {
                    let ghost sv0: Seq<usize> = survivors@;
                    survivors.push(id);
                    proof {
                        assert(survivors@ == sv0.push(id));
                        assert forall|x: usize|
                            #[trigger] survivors@.contains(x) <==> (yg.take(i + 1).contains(x)
                                && pre.marked(x as int) && pre.obj(x as int).external_refs == 0) by {
                            lemma_take_contains(yg, i as int, x);
                            assert(sv0.contains(x) <==> (yg.take(i as int).contains(x)
                                && pre.marked(x as int) && pre.obj(x as int).external_refs == 0));
                            if survivors@.contains(x) {
                                let w = choose|w: int|
                                    0 <= w < survivors@.len() && survivors@[w] == x;
                                if w < sv0.len() {
                                    assert(sv0[w] == x);
                                    assert(sv0.contains(x));
                                } else {
                                    assert(x == id);
                                }
                            }
                            if sv0.contains(x) {
                                let w = choose|w: int| 0 <= w < sv0.len() && sv0[w] == x;
                                assert(survivors@[w] == x);
                                assert(survivors@.contains(x));
                            }
                            if x == id {
                                assert(survivors@[survivors@.len() - 1] == id);
                                assert(survivors@.contains(x));
                            }
                        }
                        assert forall|a: int, b: int|
                            0 <= a < b < survivors@.len() implies survivors@[a] != survivors@[b] by {
                            if b == survivors@.len() - 1 {
                                assert(survivors@[a] == sv0[a]);
                                if survivors@[a] == id {
                                    assert(sv0.contains(id));
                                }
                            }
                        }
                        assert forall|x: usize|
                        self.old_generation@.contains(x) <==> (pre.old_generation@.contains(x) || (
                        yg.take(i + 1).contains(x) && pre.marked(x as int) && pre.obj(
                            x as int,
                        ).external_refs > 0)) by {
                        lemma_take_contains(yg, i as int, x);
                    }
                    }
                }
            } else {
                freed = freed + 1;
                if ext == 0 {
                    match fin {
                        Some(t) => {
                            self.pending_finalizers.push(t);
                        },
                        None => {},
                    }
                    self.objects[id] = None;
                } else {
                    if let Some(o) = &mut self.objects[id] {
                        o.in_generation = false;
                    }
                }
                proof {
                    assert forall|x: usize|
                        survivors@.contains(x) <==> (yg.take(i + 1).contains(x) && pre.marked(
                            x as int,
                        ) && pre.obj(x as int).external_refs == 0) by {
                        lemma_take_contains(yg, i as int, x);
                    }
                    assert forall|x: usize|
                        self.old_generation@.contains(x) <==> (pre.old_generation@.contains(x) || (
                        yg.take(i + 1).contains(x) && pre.marked(x as int) && pre.obj(
                            x as int,
                        ).external_refs > 0)) by {
                        lemma_take_contains(yg, i as int, x);
                        assert(self.old_generation@ == s_before.old_generation@);
                        assert(s_before.old_generation@.contains(x) <==> (
                        pre.old_generation@.contains(x) || (yg.take(i as int).contains(x)
                            && pre.marked(x as int) && pre.obj(x as int).external_refs > 0)));
                    }
                }
            }
            proof {
                assert forall|id2: int|
                    0 <= id2 < pre.objects@.len() && !yg.take(i + 1).contains(id2 as usize)
                        implies self.objects@[id2] == pre.objects@[id2] by {
                    lemma_take_contains(yg, i as int, id2 as usize);
                }
                assert(pre.obj_wf(id as int));
                assert(pre.young_generation@.contains(id));
                assert(pre.obj(id as int).in_generation == true);
                assert forall|j: int|
                    0 <= j < i + 1 implies {
                    let id2 = #[trigger] yg[j] as int;
                    &&& (pre.marked(id2) ==> self.live(id2) && {
                        let o1 = pre.obj(id2);
                        let o2 = self.obj(id2);
                        &&& o2.inner.obj_type == o1.inner.obj_type
                        &&& o2.inner.shape == o1.inner.shape
                        &&& o2.inner.values == o1.inner.values
                        &&& o2.inner.finalizer == o1.inner.finalizer
                        &&& o2.external_refs == o1.external_refs
                        &&& o2.inner.marked == false
                        &&& o2.in_generation == true
                    })
                    &&& (!pre.marked(id2) && pre.obj(id2).external_refs > 0 ==> self.live(id2) && {
                        let o1 = pre.obj(id2);
                        let o2 = self.obj(id2);
                        &&& o2.inner.obj_type == o1.inner.obj_type
                        &&& o2.inner.shape == o1.inner.shape
                        &&& o2.inner.values == o1.inner.values
                        &&& o2.inner.finalizer == o1.inner.finalizer
                        &&& o2.external_refs == o1.external_refs
                        &&& o2.inner.marked == o1.inner.marked
                        &&& o2.in_generation == false
                    })
                    &&& (!pre.marked(id2) && pre.obj(id2).external_refs == 0 ==> !self.live(id2))
                } by {
                    if j < i {
                        if yg[j] as int == id as int {
                            assert(yg[j] != yg[i as int]);
                            assert(false);
                        } else {
                            assert(self.objects@[yg[j] as int] == s_before.objects@[yg[j] as int]);
                        }
                    } else {
                        assert(yg[j] == id);
                        assert(s_before.objects@[id as int] == pre.objects@[id as int]);
                    }
                }
            }
            i = i + 1;
        }
        proof {
            assert(yg.take(n as int) =~= yg);
        }
        let ghost surv: Seq<usize> = survivors@;
        self.young_generation = survivors;
        proof {
            assert(self.young_generation@ == surv);
            assert forall|x: usize|
                #[trigger] self.young_generation@.contains(x) <==> (yg.contains(x) && pre.marked(
                    x as int,
                ) && pre.obj(x as int).external_refs == 0) by {
                assert(surv.contains(x) <==> (yg.take(i as int).contains(x) && pre.marked(x as int)
                    && pre.obj(x as int).external_refs == 0));
                assert(yg.take(i as int) == yg.take(n as int));
            }
            // every listed object is live with a valid shape
            assert forall|k: int|
                0 <= k < self.young_generation@.len() implies self.live(
                #[trigger] self.young_generation@[k] as int,
            ) && self.obj(self.young_generation@[k] as int).inner.shape
                < self.shapes.shapes@.len() by {
                let x = self.young_generation@[k];
                assert(self.young_generation@.contains(x));
                let w = choose|w: int| 0 <= w < yg.len() && yg[w] == x;
                assert(pre.live(pre.young_generation@[w] as int));
                assert(pre.obj_wf(x as int));
            }
            assert forall|k: int|
                0 <= k < self.old_generation@.len() implies self.live(
                #[trigger] self.old_generation@[k] as int,
            ) && self.obj(self.old_generation@[k] as int).inner.shape
                < self.shapes.shapes@.len() by {
                let x = self.old_generation@[k];
                assert(self.old_generation@.contains(x));
                if pre.old_generation@.contains(x) && !yg.contains(x) {
                    assert(self.objects@[x as int] == pre.objects@[x as int]);
                    let w = choose|w: int|
                        0 <= w < pre.old_generation@.len() && pre.old_generation@[w] == x;
                    assert(pre.live(pre.old_generation@[w] as int));
                    assert(pre.obj_wf(x as int));
                } else {
                    if pre.old_generation@.contains(x) && yg.contains(x) {
                        let w1 = choose|w1: int| 0 <= w1 < yg.len() && yg[w1] == x;
                        let w2 = choose|w2: int|
                            0 <= w2 < pre.old_generation@.len() && pre.old_generation@[w2] == x;
                        assert(pre.young_generation@[w1] != pre.old_generation@[w2]);
                        assert(false);
                    }
                    let w = choose|w: int| 0 <= w < yg.len() && yg[w] == x;
                    assert(pre.live(pre.young_generation@[w] as int));
                    assert(pre.obj_wf(x as int));
                }
            }
        }
        let freed_total: usize = self.stats.objects_freed.saturating_add(freed);
        self.stats.objects_freed = freed_total;
        let ghost s_y: GarbageCollector = *self;
        let ysize: usize = self.list_size(&self.young_generation);
        self.stats.young_generation_size = ysize;
        let ghost s_o: GarbageCollector = *self;
        let osize: usize = self.list_size(&self.old_generation);
        self.stats.old_generation_size = osize;
        proof {
            lemma_list_size_congruence(s_y, *self, self.young_generation@);
            lemma_list_size_congruence(s_o, *self, self.old_generation@);
            assert(self.wf_core()) by {
                assert forall|id2: int| self.live(id2) implies #[trigger] self.obj_wf(id2) by {
                    if yg.contains(id2 as usize) {
                        let w = choose|w: int| 0 <= w < yg.len() && yg[w] == id2 as usize;
                        assert(pre.live(pre.young_generation@[w] as int));
                        assert(pre.live(id2));
                        assert(pre.obj_wf(id2));
                        assert(pre.obj(id2).in_generation == true);
                        if pre.marked(id2) {
                            if pre.obj(id2).external_refs == 0 {
                                assert(self.young_generation@.contains(id2 as usize));
                                assert(!self.old_generation@.contains(id2 as usize)) by {
                                    if self.old_generation@.contains(id2 as usize) {
                                        assert(pre.old_generation@.contains(id2 as usize) || (
                                        yg.contains(id2 as usize) && pre.marked(id2) && pre.obj(
                                            id2,
                                        ).external_refs > 0));
                                        if pre.old_generation@.contains(id2 as usize) {
                                            let w2 = choose|w2: int|
                                                0 <= w2 < pre.old_generation@.len()
                                                    && pre.old_generation@[w2] == id2 as usize;
                                            assert(pre.young_generation@[w]
                                                != pre.old_generation@[w2]);
                                        }
                                    }
                                }
                            } else {
                                assert(self.old_generation@.contains(id2 as usize));
                                assert(!self.young_generation@.contains(id2 as usize));
                            }
                        } else {
                            assert(pre.obj(id2).external_refs > 0);
                            assert(!self.young_generation@.contains(id2 as usize));
                            assert(!self.old_generation@.contains(id2 as usize)) by {
                                if self.old_generation@.contains(id2 as usize) {
                                    assert(pre.old_generation@.contains(id2 as usize));
                                    let w2 = choose|w2: int|
                                        0 <= w2 < pre.old_generation@.len()
                                            && pre.old_generation@[w2] == id2 as usize;
                                    assert(pre.young_generation@[w] != pre.old_generation@[w2]);
                                }
                            }
                        }
                    } else {
                        assert(self.objects@[id2] == pre.objects@[id2]);
                        assert(pre.live(id2));
                        assert(pre.obj_wf(id2));
                        assert(!self.young_generation@.contains(id2 as usize));
                        assert(self.old_generation@.contains(id2 as usize)
                            <==> pre.old_generation@.contains(id2 as usize));
                        assert(!pre.young_generation@.contains(id2 as usize)) by {
                            if pre.young_generation@.contains(id2 as usize) {
                                let w = choose|w: int|
                                    0 <= w < yg.len() && pre.young_generation@[w] == id2 as usize;
                                assert(yg[w] == id2 as usize);
                            }
                        }
                    }
                }
                assert forall|k: int|
                    0 <= k < self.young_generation@.len() implies self.live(
                    #[trigger] self.young_generation@[k] as int,
                ) by {
                    let x = self.young_generation@[k];
                    assert(self.young_generation@.contains(x));
                    let w = choose|w: int| 0 <= w < yg.len() && yg[w] == x;
                    assert(pre.live(pre.young_generation@[w] as int));
                }
                assert forall|k: int|
                    0 <= k < self.old_generation@.len() implies self.live(
                    #[trigger] self.old_generation@[k] as int,
                ) by {
                    let x = self.old_generation@[k];
                    assert(self.old_generation@.contains(x));
                    if pre.old_generation@.contains(x) && !yg.contains(x) {
                        assert(self.objects@[x as int] == pre.objects@[x as int]);
                        let w = choose|w: int|
                            0 <= w < pre.old_generation@.len() && pre.old_generation@[w] == x;
                        assert(pre.live(pre.old_generation@[w] as int));
                    } else {
                        if pre.old_generation@.contains(x) && yg.contains(x) {
                            let w1 = choose|w1: int| 0 <= w1 < yg.len() && yg[w1] == x;
                            let w2 = choose|w2: int|
                                0 <= w2 < pre.old_generation@.len() && pre.old_generation@[w2]
                                    == x;
                            assert(pre.young_generation@[w1] != pre.old_generation@[w2]);
                            assert(false);
                        }
                        let w = choose|w: int| 0 <= w < yg.len() && yg[w] == x;
                        assert(pre.live(pre.young_generation@[w] as int));
                    }
                }
                assert forall|a: int, b: int|
                    0 <= a < self.young_generation@.len() && 0 <= b < self.old_generation@.len()
                        implies self.young_generation@[a] != self.old_generation@[b] by {
                    let x = self.young_generation@[a];
                    assert(self.young_generation@.contains(x));
                    if self.old_generation@[b] == x {
                        assert(self.old_generation@.contains(x));
                        assert(pre.old_generation@.contains(x) || pre.obj(x as int).external_refs
                            > 0);
                        if pre.old_generation@.contains(x) {
                            let w1 = choose|w1: int| 0 <= w1 < yg.len() && yg[w1] == x;
                            let w2 = choose|w2: int|
                                0 <= w2 < pre.old_generation@.len() && pre.old_generation@[w2]
                                    == x;
                            assert(pre.young_generation@[w1] != pre.old_generation@[w2]);
                        }
                    }
                }
            }
        }
    }


    /// Clear every mark bit, restoring the between-collections state.
    #[verifier::loop_isolation(false)]
    #[verifier::rlimit(100)]
    fn clear_marks(&mut self)
        requires
            old(self).wf_core(),
        ensures
            final(self).wf_core(),
            final(self).all_unmarked(),
            objs_equal_except_marks(*old(self), *final(self)),
            final(self).young_generation == old(self).young_generation,
            final(self).old_generation == old(self).old_generation,
            final(self).roots == old(self).roots,
            final(self).config == old(self).config,
            final(self).stats == old(self).stats,
            final(self).collecting == old(self).collecting,
            final(self).shapes == old(self).shapes,
            final(self).interner == old(self).interner,
            final(self).pending_finalizers == old(self).pending_finalizers,
    {
        let ghost pre: GarbageCollector = *old(self);
        let n: usize = self.objects.len();
        let mut i: usize = 0;
        while i < n
            invariant
                i <= n,
                n == self.objects@.len(),
                self.wf_core(),
                objs_equal_except_marks(pre, *self),
                self.young_generation == pre.young_generation,
                self.old_generation == pre.old_generation,
                self.roots == pre.roots,
                self.config == pre.config,
                self.stats == pre.stats,
                self.collecting == pre.collecting,
                self.shapes == pre.shapes,
                self.interner == pre.interner,
                self.pending_finalizers == pre.pending_finalizers,
                forall|id: int| 0 <= id < i && self.live(id) ==> !(#[trigger] self.obj(
                    id,
                )).inner.marked,
            decreases n - i,
        {
            let ghost s0: GarbageCollector = *self;
            if let Some(o) = &mut self.objects[i] {
                o.inner.marked = false;
            }
            proof {
                assert forall|id: int| self.live(id) <==> s0.live(id) by {
                    if id != i as int && 0 <= id < self.objects@.len() {
                        assert(self.objects@[id] == s0.objects@[id]);
                    }
                }
                assert forall|id: int| self.live(id) implies #[trigger] self.obj_wf(id) by {
                    assert(s0.obj_wf(id));
                    if id != i as int {
                        assert(self.objects@[id] == s0.objects@[id]);
                    }
                }
                assert(self.gen_lists_wf()) by {
                    assert forall|k: int|
                        0 <= k < self.young_generation@.len() implies self.live(
                        #[trigger] self.young_generation@[k] as int,
                    ) by {
                        assert(s0.live(s0.young_generation@[k] as int));
                    }
                    assert forall|k: int|
                        0 <= k < self.old_generation@.len() implies self.live(
                        #[trigger] self.old_generation@[k] as int,
                    ) by {
                        assert(s0.live(s0.old_generation@[k] as int));
                    }
                }
                assert(objs_equal_except_marks(pre, *self)) by {
                    assert forall|id: int| pre.live(id) <==> #[trigger] self.live(id) by {
                        assert(pre.live(id) <==> s0.live(id));
                    }
                    assert forall|id: int|
                        pre.live(id) implies {
                        let o1 = pre.obj(id);
                        let o2 = #[trigger] self.obj(id);
                        &&& o2.inner.obj_type == o1.inner.obj_type
                        &&& o2.inner.shape == o1.inner.shape
                        &&& o2.inner.values == o1.inner.values
                        &&& o2.inner.finalizer == o1.inner.finalizer
                        &&& o2.external_refs == o1.external_refs
                        &&& o2.in_generation == o1.in_generation
                    } by {
                        if id != i as int {
                            assert(self.objects@[id] == s0.objects@[id]);
                        } else {
                            assert(s0.obj(id).inner.values == pre.obj(id).inner.values);
                            assert(self.obj(id).inner.values == s0.obj(id).inner.values);
                        }
                    }
                }
                assert(self.live(i as int) ==> !self.obj(i as int).inner.marked);
                assert forall|id: int|
                    0 <= id < i + 1 && self.live(id) implies !(#[trigger] self.obj(
                    id,
                )).inner.marked by {
                    if id != i as int {
                        assert(self.objects@[id] == s0.objects@[id]);
                        assert(s0.live(id));
                        assert(s0.obj(id).inner.marked == false);
                    }
                }
            }
            i = i + 1;
        }
    }

    /// Mark every object reachable from a registered root, as of this
    /// moment's root set.
    #[verifier::loop_isolation(false)]
    #[verifier::rlimit(100)]
    fn mark_roots(&mut self)
        requires
            old(self).wf(),
        ensures
            final(self).wf_core(),
            final(self).marked_closed(),
            objs_equal_except_marks(*old(self), *final(self)),
            final(self).young_generation == old(self).young_generation,
            final(self).old_generation == old(self).old_generation,
            final(self).roots == old(self).roots,
            final(self).config == old(self).config,
            final(self).stats == old(self).stats,
            final(self).collecting == old(self).collecting,
            final(self).shapes == old(self).shapes,
            final(self).interner == old(self).interner,
            final(self).pending_finalizers == old(self).pending_finalizers,
            forall|o: int| final(self).marked(o) <==> old(self).root_reachable(o),
    {
        let ghost pre: GarbageCollector = *old(self);
        let n: usize = self.roots.len();
        let mut i: usize = 0;
        proof {
            assert forall|o: int| self.marked(o) implies false by {
                assert(!self.obj(o).inner.marked);
            }
        }
        while i < n
            invariant
                i <= n,
                n == self.roots@.len(),
                self.wf_core(),
                self.marked_closed(),
                objs_equal_except_marks(pre, *self),
                self.young_generation == pre.young_generation,
                self.old_generation == pre.old_generation,
                self.roots == pre.roots,
                self.config == pre.config,
                self.stats == pre.stats,
                self.collecting == pre.collecting,
                self.shapes == pre.shapes,
                self.interner == pre.interner,
                self.pending_finalizers == pre.pending_finalizers,
                forall|o: int|
                    self.marked(o) <==> exists|ri: int|
                        0 <= ri < i && pre.reachable(#[trigger] pre.roots@[ri] as int, o),
            decreases n - i,
        {
            let r: usize = self.roots[i];
            let ghost s0: GarbageCollector = *self;
            self.mark(r);
            proof {
                assert forall|o: int|
                    self.marked(o) <==> exists|ri: int|
                        0 <= ri < i + 1 && pre.reachable(#[trigger] pre.roots@[ri] as int, o) by {
                    if self.marked(o) {
                        if s0.marked(o) {
                            let ri = choose|ri: int|
                                0 <= ri < i && pre.reachable(#[trigger] pre.roots@[ri] as int, o);
                            assert(pre.reachable(pre.roots@[ri] as int, o));
                        } else {
                            assert(s0.live(r as int) && s0.reachable(r as int, o));
                            lemma_reachable_equiv(pre, s0, r as int, o);
                            assert(pre.reachable(pre.roots@[i as int] as int, o));
                        }
                    }
                    if exists|ri: int|
                        0 <= ri < i + 1 && pre.reachable(#[trigger] pre.roots@[ri] as int, o) {
                        let ri = choose|ri: int|
                            0 <= ri < i + 1 && pre.reachable(#[trigger] pre.roots@[ri] as int, o);
                        if ri < i {
                            assert(s0.marked(o));
                        } else {
                            assert(pre.reachable(r as int, o));
                            assert(pre.live(r as int));
                            lemma_reachable_equiv(pre, s0, r as int, o);
                            assert(s0.live(r as int) && s0.reachable(r as int, o));
                        }
                    }
                }
                assert(objs_equal_except_marks(pre, *self)) by {
                    lemma_objs_equal_trans(pre, s0, *self);
                }
            }
            i = i + 1;
        }
        proof {
            assert forall|o: int| self.marked(o) <==> pre.root_reachable(o) by {
                if self.marked(o) {
                    let ri = choose|ri: int|
                        0 <= ri < i && pre.reachable(#[trigger] pre.roots@[ri] as int, o);
                    assert(pre.reachable(pre.roots@[ri] as int, o));
                }
                if pre.root_reachable(o) {
                    let ri = choose|ri: int|
                        0 <= ri < pre.roots@.len() && pre.reachable(
                            #[trigger] pre.roots@[ri] as int,
                            o,
                        );
                }
            }
        }
    }


    /// Sweep the old generation against the current marks: marked objects
    /// are retained with their bits cleared; unmarked ones are released
    /// from tracking and, when no external share remains, destroyed with
    /// their finalizer recorded.
    #[verifier::rlimit(100)]
    fn sweep_old(&mut self)
        requires
            old(self).wf_core(),
        ensures
            final(self).wf_core(),
            final(self).roots == old(self).roots,
            final(self).config == old(self).config,
            final(self).collecting == old(self).collecting,
            final(self).shapes == old(self).shapes,
            final(self).interner == old(self).interner,
            final(self).objects@.len() == old(self).objects@.len(),
            final(self).young_generation == old(self).young_generation,
            final(self).stats.allocation_count == old(self).stats.allocation_count,
            final(self).stats.collection_count == old(self).stats.collection_count,
            final(self).stats.young_generation_size == old(self).stats.young_generation_size,
            final(self).stats.objects_freed == sat_add(
                old(self).stats.objects_freed,
                count_matching(
                    old(self).old_generation@,
                    old(self).old_generation@.len() as int,
                    sweep_unmarked(*old(self)),
                ) as usize,
            ),
            final(self).stats.old_generation_size == final(self).list_size_spec(
                final(self).old_generation@,
            ),
            forall|id: int|
                final(self).live(id) <==> (old(self).live(id) && !(old(self).old_generation@.contains(id as usize) && !old(self).marked(id) && old(self).obj(
                    id,
                ).external_refs == 0)),
            forall|id: int|
                final(self).live(id) ==> {
                    let o1 = old(self).obj(id);
                    let o2 = final(self).obj(id);
                    &&& o2.inner.obj_type == o1.inner.obj_type
                    &&& o2.inner.shape == o1.inner.shape
                    &&& o2.inner.values == o1.inner.values
                    &&& o2.inner.finalizer == o1.inner.finalizer
                    &&& o2.external_refs == o1.external_refs
                    &&& o2.inner.marked == (if old(self).old_generation@.contains(id as usize) {
                        false
                    } else {
                        o1.inner.marked
                    })
                    &&& o2.in_generation == (if old(self).old_generation@.contains(id as usize) {
                        o1.inner.marked
                    } else {
                        o1.in_generation
                    })
                },
            forall|x: usize|
                #[trigger] final(self).old_generation@.contains(x) <==> (old(self).old_generation@.contains(x) && old(self).marked(x as int)),
            final(self).pending_finalizers@ == old(self).pending_finalizers@ + finalizer_tokens(
                *old(self),
                old(self).old_generation@,
                old(self).old_generation@.len() as int,
                sweep_doomed(*old(self)),
            ),
    {
        let ghost pre: GarbageCollector = *old(self);
        let ghost og: Seq<usize> = pre.old_generation@;
        let heap_len: usize = self.objects.len();
        let n: usize = self.old_generation.len();
        let mut survivors: Vec<usize> = Vec::new();
        let mut freed: usize = 0;
        let mut i: usize = 0;
        while i < n
            invariant
                pre.wf_core(),
                og == pre.old_generation@,
                i <= n,
                n == og.len(),
                heap_len == pre.objects@.len(),
                self.old_generation == pre.old_generation,
                self.young_generation == pre.young_generation,
                self.roots == pre.roots,
                self.config == pre.config,
                self.collecting == pre.collecting,
                self.shapes == pre.shapes,
                self.interner == pre.interner,
                self.stats == pre.stats,
                self.objects@.len() == pre.objects@.len(),
                forall|id2: int|
                    0 <= id2 < pre.objects@.len() && !og.take(i as int).contains(id2 as usize)
                        ==> self.objects@[id2] == pre.objects@[id2],
                forall|j: int|
                    0 <= j < i ==> {
                        let id2 = #[trigger] og[j] as int;
                        &&& (pre.marked(id2) ==> self.live(id2) && {
                            let o1 = pre.obj(id2);
                            let o2 = self.obj(id2);
                            &&& o2.inner.obj_type == o1.inner.obj_type
                            &&& o2.inner.shape == o1.inner.shape
                            &&& o2.inner.values == o1.inner.values
                            &&& o2.inner.finalizer == o1.inner.finalizer
                            &&& o2.external_refs == o1.external_refs
                            &&& o2.inner.marked == false
                            &&& o2.in_generation == true
                        })
                        &&& (!pre.marked(id2) && pre.obj(id2).external_refs > 0 ==> self.live(id2)
                            && {
                            let o1 = pre.obj(id2);
                            let o2 = self.obj(id2);
                            &&& o2.inner.obj_type == o1.inner.obj_type
                            &&& o2.inner.shape == o1.inner.shape
                            &&& o2.inner.values == o1.inner.values
                            &&& o2.inner.finalizer == o1.inner.finalizer
                            &&& o2.external_refs == o1.external_refs
                            &&& o2.inner.marked == o1.inner.marked
                            &&& o2.in_generation == false
                        })
                        &&& (!pre.marked(id2) && pre.obj(id2).external_refs == 0 ==> !self.live(
                            id2,
                        ))
                    },
                forall|x: usize|
                    #[trigger] survivors@.contains(x) <==> (og.take(i as int).contains(x)
                        && pre.marked(x as int)),
                forall|a: int, b: int| 0 <= a < b < survivors@.len() ==> survivors@[a]
                    != survivors@[b],
                self.pending_finalizers@ == pre.pending_finalizers@ + finalizer_tokens(
                    pre,
                    og,
                    i as int,
                    sweep_doomed(pre),
                ),
                freed == count_matching(og, i as int, sweep_unmarked(pre)),
                freed <= i,
            decreases n - i,
        {
            let id: usize = self.old_generation[i];
            proof {
                assert(og[i as int] == id);
                assert(pre.live(id as int));
                assert(!og.take(i as int).contains(id)) by {
                    if og.take(i as int).contains(id) {
                        let w = choose|w: int| 0 <= w < i && og.take(i as int)[w] == id;
                        assert(og[w] == og[i as int]);
                    }
                }
                assert(self.objects@[id as int] == pre.objects@[id as int]);
                lemma_take_contains(og, i as int, id);
            }
            let rec: (bool, usize, Option<u64>) = match &self.objects[id] {
                Some(o) => (o.inner.marked, o.external_refs, o.inner.finalizer),
                None => (false, 0, None),
            };
            let is_marked: bool = rec.0;
            let ext: usize = rec.1;
            let fin: Option<u64> = rec.2;
            proof {
                assert(is_marked == pre.obj(id as int).inner.marked);
                assert(ext == pre.obj(id as int).external_refs);
                assert(fin == pre.obj(id as int).inner.finalizer);
                assert(pre.marked(id as int) == is_marked);
            }
            let ghost s_before: GarbageCollector = *self;
            if is_marked {
                if let Some(o) = &mut self.objects[id] {
                    o.inner.marked = false;
                }
                let ghost sv0: Seq<usize> = survivors@;
                survivors.push(id);
                proof {
                    assert(survivors@ == sv0.push(id));
                    assert forall|x: usize|
                        #[trigger] survivors@.contains(x) <==> (og.take(i + 1).contains(x)
                            && pre.marked(x as int)) by {
                        lemma_take_contains(og, i as int, x);
                        assert(sv0.contains(x) <==> (og.take(i as int).contains(x) && pre.marked(
                            x as int,
                        )));
                        if survivors@.contains(x) {
                            let w = choose|w: int| 0 <= w < survivors@.len() && survivors@[w] == x;
                            if w < sv0.len() {
                                assert(sv0[w] == x);
                                assert(sv0.contains(x));
                            } else {
                                assert(x == id);
                            }
                        }
                        if sv0.contains(x) {
                            let w = choose|w: int| 0 <= w < sv0.len() && sv0[w] == x;
                            assert(survivors@[w] == x);
                            assert(survivors@.contains(x));
                        }
                        if x == id {
                            assert(survivors@[survivors@.len() - 1] == id);
                            assert(survivors@.contains(x));
                        }
                    }
                    assert forall|a: int, b: int|
                        0 <= a < b < survivors@.len() implies survivors@[a] != survivors@[b] by {
                        if b == survivors@.len() - 1 {
                            assert(survivors@[a] == sv0[a]);
                            if survivors@[a] == id {
                                assert(sv0.contains(id));
                            }
                        }
                    }
                }
            } else {
                freed = freed + 1;
                if ext == 0 {
                    match fin {
                        Some(t) => {
                            self.pending_finalizers.push(t);
                        },
                        None => {},
                    }
                    self.objects[id] = None;
                } else {
                    if let Some(o) = &mut self.objects[id] {
                        o.in_generation = false;
                    }
                }
                proof {
                    assert forall|x: usize|
                        #[trigger] survivors@.contains(x) <==> (og.take(i + 1).contains(x)
                            && pre.marked(x as int)) by {
                        lemma_take_contains(og, i as int, x);
                    }
                }
            }
            proof {
                assert forall|id2: int|
                    0 <= id2 < pre.objects@.len() && !og.take(i + 1).contains(id2 as usize)
                        implies self.objects@[id2] == pre.objects@[id2] by {
                    lemma_take_contains(og, i as int, id2 as usize);
                }
                assert(pre.obj_wf(id as int));
                assert(pre.old_generation@.contains(id));
                assert(pre.obj(id as int).in_generation == true);
                assert forall|j: int|
                    0 <= j < i + 1 implies {
                    let id2 = #[trigger] og[j] as int;
                    &&& (pre.marked(id2) ==> self.live(id2) && {
                        let o1 = pre.obj(id2);
                        let o2 = self.obj(id2);
                        &&& o2.inner.obj_type == o1.inner.obj_type
                        &&& o2.inner.shape == o1.inner.shape
                        &&& o2.inner.values == o1.inner.values
                        &&& o2.inner.finalizer == o1.inner.finalizer
                        &&& o2.external_refs == o1.external_refs
                        &&& o2.inner.marked == false
                        &&& o2.in_generation == true
                    })
                    &&& (!pre.marked(id2) && pre.obj(id2).external_refs > 0 ==> self.live(id2) && {
                        let o1 = pre.obj(id2);
                        let o2 = self.obj(id2);
                        &&& o2.inner.obj_type == o1.inner.obj_type
                        &&& o2.inner.shape == o1.inner.shape
                        &&& o2.inner.values == o1.inner.values
                        &&& o2.inner.finalizer == o1.inner.finalizer
                        &&& o2.external_refs == o1.external_refs
                        &&& o2.inner.marked == o1.inner.marked
                        &&& o2.in_generation == false
                    })
                    &&& (!pre.marked(id2) && pre.obj(id2).external_refs == 0 ==> !self.live(id2))
                } by {
                    if j < i {
                        if og[j] as int == id as int {
                            assert(og[j] != og[i as int]);
                            assert(false);
                        } else {
                            assert(self.objects@[og[j] as int] == s_before.objects@[og[j] as int]);
                        }
                    } else {
                        assert(og[j] == id);
                        assert(s_before.objects@[id as int] == pre.objects@[id as int]);
                    }
                }
            }
            i = i + 1;
        }
        proof {
            assert(og.take(n as int) =~= og);
        }
        let ghost surv: Seq<usize> = survivors@;
        self.old_generation = survivors;
        proof {
            assert(self.old_generation@ == surv);
            assert forall|x: usize|
                #[trigger] self.old_generation@.contains(x) <==> (og.contains(x) && pre.marked(
                    x as int,
                )) by {
                assert(surv.contains(x) <==> (og.take(i as int).contains(x) && pre.marked(
                    x as int,
                )));
                assert(og.take(i as int) == og.take(n as int));
            }
            assert forall|k: int|
                0 <= k < self.old_generation@.len() implies self.live(
                #[trigger] self.old_generation@[k] as int,
            ) && self.obj(self.old_generation@[k] as int).inner.shape
                < self.shapes.shapes@.len() by {
                let x = self.old_generation@[k];
                assert(self.old_generation@.contains(x));
                let w = choose|w: int| 0 <= w < og.len() && og[w] == x;
                assert(pre.live(pre.old_generation@[w] as int));
                assert(pre.obj_wf(x as int));
            }
        }
        let freed_total: usize = self.stats.objects_freed.saturating_add(freed);
        self.stats.objects_freed = freed_total;
        let ghost s_o: GarbageCollector = *self;
        let osize: usize = self.list_size(&self.old_generation);
        self.stats.old_generation_size = osize;
        proof {
            lemma_list_size_congruence(s_o, *self, self.old_generation@);
            assert(self.wf_core()) by {
                assert forall|id2: int| self.live(id2) implies #[trigger] self.obj_wf(id2) by {
                    if og.contains(id2 as usize) {
                        let w = choose|w: int| 0 <= w < og.len() && og[w] == id2 as usize;
                        assert(pre.live(pre.old_generation@[w] as int));
                        assert(pre.live(id2));
                        assert(pre.obj_wf(id2));
                        assert(pre.obj(id2).in_generation == true);
                        assert(!pre.young_generation@.contains(id2 as usize)) by {
                            if pre.young_generation@.contains(id2 as usize) {
                                let w1 = choose|w1: int|
                                    0 <= w1 < pre.young_generation@.len()
                                        && pre.young_generation@[w1] == id2 as usize;
                                assert(pre.young_generation@[w1] != pre.old_generation@[w]);
                            }
                        }
                        if pre.marked(id2) {
                            assert(self.old_generation@.contains(id2 as usize));
                            assert(!self.young_generation@.contains(id2 as usize));
                        } else {
                            assert(pre.obj(id2).external_refs > 0);
                            assert(!self.old_generation@.contains(id2 as usize));
                            assert(!self.young_generation@.contains(id2 as usize));
                        }
                    } else {
                        assert(self.objects@[id2] == pre.objects@[id2]);
                        assert(pre.live(id2));
                        assert(pre.obj_wf(id2));
                        assert(!self.old_generation@.contains(id2 as usize));
                        assert(self.young_generation@.contains(id2 as usize)
                            <==> pre.young_generation@.contains(id2 as usize));
                        assert(!pre.old_generation@.contains(id2 as usize)) by {
                            if pre.old_generation@.contains(id2 as usize) {
                                let w = choose|w: int|
                                    0 <= w < og.len() && pre.old_generation@[w] == id2 as usize;
                                assert(og[w] == id2 as usize);
                            }
                        }
                    }
                }
                assert forall|k: int|
                    0 <= k < self.young_generation@.len() implies self.live(
                    #[trigger] self.young_generation@[k] as int,
                ) by {
                    let x = self.young_generation@[k];
                    assert(pre.live(pre.young_generation@[k] as int));
                    assert(self.objects@[x as int] == pre.objects@[x as int]) by {
                        if og.contains(x) {
                            let w1 = choose|w1: int| 0 <= w1 < og.len() && og[w1] == x;
                            assert(pre.young_generation@[k] != pre.old_generation@[w1]);
                        }
                    }
                }
                assert forall|k: int|
                    0 <= k < self.old_generation@.len() implies self.live(
                    #[trigger] self.old_generation@[k] as int,
                ) by {
                    let x = self.old_generation@[k];
                    assert(self.old_generation@.contains(x));
                    let w = choose|w: int| 0 <= w < og.len() && og[w] == x;
                    assert(pre.live(pre.old_generation@[w] as int));
                }
                assert forall|a: int, b: int|
                    0 <= a < self.young_generation@.len() && 0 <= b < self.old_generation@.len()
                        implies self.young_generation@[a] != self.old_generation@[b] by {
                    let x = self.old_generation@[b];
                    assert(self.old_generation@.contains(x));
                    let w = choose|w: int| 0 <= w < og.len() && og[w] == x;
                    if self.young_generation@[a] == x {
                        assert(pre.young_generation@[a] != pre.old_generation@[w]);
                    }
                }
            }
        }
    }


    /// A full collection: mark from the registered roots, sweep the old
    /// generation when its size estimate has crossed the threshold, sweep
    /// the young generation (promoting externally shared survivors), and
    /// clear every mark. A re-entrant call is a no-op.
    ///
    /// Sweep safety: every object reachable from a registered root, held
    /// by an external share, or already released from tracking survives
    /// with its contents intact; what is destroyed is exactly the tracked,
    /// unshared, unreachable part of the swept generations.
    #[verifier::rlimit(100)]
    pub fn collect(&mut self)
        requires
            old(self).wf(),
        ensures
            final(self).wf(),
            old(self).collecting ==> *final(self) == *old(self),
            final(self).roots == old(self).roots,
            final(self).config == old(self).config,
            final(self).shapes == old(self).shapes,
            final(self).interner == old(self).interner,
            final(self).stats.allocation_count == old(self).stats.allocation_count,
            final(self).stats.collection_count >= old(self).stats.collection_count,
            final(self).stats.objects_freed >= old(self).stats.objects_freed,
            !old(self).collecting ==> final(self).stats.collection_count == sat_add(
                old(self).stats.collection_count,
                1,
            ),
            final(self).collecting == old(self).collecting,
            old(self).pending_finalizers@.is_prefix_of(final(self).pending_finalizers@),
            forall|o: int|
                final(self).live(o) ==> old(self).live(o) && {
                    let o1 = old(self).obj(o);
                    let o2 = final(self).obj(o);
                    &&& o2.inner.obj_type == o1.inner.obj_type
                    &&& o2.inner.shape == o1.inner.shape
                    &&& o2.inner.values == o1.inner.values
                    &&& o2.inner.finalizer == o1.inner.finalizer
                    &&& o2.external_refs == o1.external_refs
                    &&& o2.inner.marked == false
                },
            !old(self).collecting ==> (forall|o: int|
                final(self).live(o) <==> (old(self).live(o) && !(old(self).obj(o).external_refs
                    == 0 && !old(self).root_reachable(o) && (old(self).young_generation@.contains(o as usize) || (major_gate(*old(self)) && old(self).old_generation@.contains(o as usize)))))),
            // exact accounting: objects_freed grows by the number of
            // root-unreachable objects in the swept lists
            !old(self).collecting ==> final(self).stats.objects_freed == sat_add(
                sat_add(
                    old(self).stats.objects_freed,
                    if major_gate(*old(self)) {
                        count_matching(
                            old(self).old_generation@,
                            old(self).old_generation@.len() as int,
                            collect_unreached(*old(self)),
                        ) as usize
                    } else {
                        0
                    },
                ),
                count_matching(
                    old(self).young_generation@,
                    old(self).young_generation@.len() as int,
                    collect_unreached(*old(self)),
                ) as usize,
            ),
            // exact finalizer record: the appended tokens are those of the
            // condemned objects with finalizers, in sweep order
            !old(self).collecting ==> final(self).pending_finalizers@ == old(self).pending_finalizers@ + (if major_gate(*old(self)) {
                finalizer_tokens(
                    *old(self),
                    old(self).old_generation@,
                    old(self).old_generation@.len() as int,
                    collect_doomed(*old(self)),
                )
            } else {
                Seq::<u64>::empty()
            }) + finalizer_tokens(
                *old(self),
                old(self).young_generation@,
                old(self).young_generation@.len() as int,
                collect_doomed(*old(self)),
            ),
            // generation lists after the collection
            !old(self).collecting ==> (forall|x: usize|
                final(self).young_generation@.contains(x) <==> (old(self).young_generation@.contains(x) && old(self).root_reachable(x as int) && old(self).obj(x as int).external_refs == 0)),
            !old(self).collecting ==> (forall|x: usize|
                final(self).old_generation@.contains(x) <==> ((old(self).old_generation@.contains(x) && (major_gate(*old(self)) ==> old(self).root_reachable(x as int))) || (old(self).young_generation@.contains(x) && old(self).root_reachable(x as int) && old(self).obj(x as int).external_refs > 0))),
    {
        if self.collecting {
            return ;
        }
        let ghost m0: GarbageCollector = *old(self);
        self.collecting = true;
        proof {
            lemma_wf_core_frame(m0, *self);
            assert(self.all_unmarked()) by {
                assert forall|o: int| self.live(o) implies !(#[trigger] self.obj(
                    o,
                )).inner.marked by {
                    assert(m0.live(o) && !m0.obj(o).inner.marked);
                }
            }
            assert(objs_equal_except_marks(m0, *self)) by {
                assert forall|i: int| m0.live(i) <==> #[trigger] self.live(i) by {}
            }
        }
        let gate: bool = {
            let threshold: usize = match self.config.old_gen_threshold_kb.checked_mul(1024) {
                Some(v) => v,
                None => usize::MAX,
            };
            self.stats.old_generation_size >= threshold
        };
        proof {
            assert(gate == major_gate(m0));
        }
        let ghost m0b: GarbageCollector = *self;
        self.mark_roots();
        let ghost m1: GarbageCollector = *self;
        proof {
            lemma_root_reachable_equiv(m0, m0b);
            assert(forall|o: int| m1.marked(o) <==> m0.root_reachable(o));
            lemma_objs_equal_trans(m0, m0b, m1);
        }
        if gate {
            self.sweep_old();
        }
        let ghost m2: GarbageCollector = *self;
        proof {
            // liveness and state after the (possibly skipped) major sweep
            assert forall|o: int|
                m2.live(o) <==> (m0.live(o) && !(gate && m0.old_generation@.contains(o as usize)
                    && !m0.root_reachable(o) && m0.obj(o).external_refs == 0)) by {
                if gate {
                    assert(m2.live(o) <==> (m1.live(o) && !(m1.old_generation@.contains(o as usize)
                        && !m1.marked(o) && m1.obj(o).external_refs == 0)));
                }
            }
            assert forall|o: int|
                m2.live(o) implies {
                let o1 = m0.obj(o);
                let o2 = m2.obj(o);
                &&& o2.inner.obj_type == o1.inner.obj_type
                &&& o2.inner.shape == o1.inner.shape
                &&& o2.inner.values == o1.inner.values
                &&& o2.inner.finalizer == o1.inner.finalizer
                &&& o2.external_refs == o1.external_refs
                &&& (m2.young_generation@.contains(o as usize) ==> o2.inner.marked == m1.marked(o)
                    && o2.in_generation == o1.in_generation)
            } by {
                assert(m1.live(o));
                assert(m1.obj(o).inner.values == m0.obj(o).inner.values);
                if gate && m2.young_generation@.contains(o as usize) {
                    assert(!m1.old_generation@.contains(o as usize)) by {
                        if m1.old_generation@.contains(o as usize) {
                            let w1 = choose|w1: int|
                                0 <= w1 < m1.young_generation@.len() && m1.young_generation@[w1]
                                    == o as usize;
                            let w2 = choose|w2: int|
                                0 <= w2 < m1.old_generation@.len() && m1.old_generation@[w2]
                                    == o as usize;
                            assert(m1.young_generation@[w1] != m1.old_generation@[w2]);
                        }
                    }
                }
            }
            assert(m2.young_generation == m0.young_generation);
        }
        self.sweep_young();
        let ghost m3: GarbageCollector = *self;
        self.clear_marks();
        let ghost m3c: GarbageCollector = *self;
        self.stats.collection_count = self.stats.collection_count.saturating_add(1);
        self.collecting = false;
        proof {
            let m4 = *self;
            lemma_wf_core_frame(m3c, m4);
            assert forall|o: int| #[trigger] m4.live(o) == m3.live(o) by {
                assert(m3.live(o) <==> m3c.live(o));
            }
            assert(m4.all_unmarked()) by {
                assert forall|o: int| m4.live(o) implies !(#[trigger] m4.obj(o)).inner.marked by {
                    assert(m3c.live(o));
                    assert(!m3c.obj(o).inner.marked);
                }
            }
            // liveness composition through the young sweep
            assert forall|o: int|
                m4.live(o) <==> (m0.live(o) && !(m0.obj(o).external_refs == 0
                    && !m0.root_reachable(o) && (m0.young_generation@.contains(o as usize) || (gate
                    && m0.old_generation@.contains(o as usize))))) by {
                assert(m3.live(o) <==> (m2.live(o) && !(m2.young_generation@.contains(o as usize)
                    && !m2.marked(o) && m2.obj(o).external_refs == 0)));
                assert(m4.live(o) == m3.live(o));
                if m2.live(o) && m2.young_generation@.contains(o as usize) {
                    assert(m2.marked(o) == m1.marked(o));
                    assert(m1.marked(o) <==> m0.root_reachable(o));
                    assert(m2.obj(o).external_refs == m0.obj(o).external_refs);
                }
                if m0.live(o) && !m2.live(o) {
                    assert(gate && m0.old_generation@.contains(o as usize)
                        && !m0.root_reachable(o) && m0.obj(o).external_refs == 0);
                }
            }
            // record preservation for survivors
            assert forall|o: int|
                m4.live(o) implies {
                let o1 = m0.obj(o);
                let o2 = m4.obj(o);
                &&& o2.inner.obj_type == o1.inner.obj_type
                &&& o2.inner.shape == o1.inner.shape
                &&& o2.inner.values == o1.inner.values
                &&& o2.inner.finalizer == o1.inner.finalizer
                &&& o2.external_refs == o1.external_refs
                &&& o2.inner.marked == false
            } by {
                assert(m3.live(o) && m2.live(o) && m1.live(o));
                assert(m3c.live(o));
                assert(m3.obj(o).inner.values == m2.obj(o).inner.values);
                assert(m2.obj(o).inner.values == m0.obj(o).inner.values);
                assert(m3c.obj(o).inner.values == m3.obj(o).inner.values);
                assert(m4.obj(o).inner.values == m3c.obj(o).inner.values);
                assert(!m4.obj(o).inner.marked);
            }
            // the finalizer queue only grows
            assert(m0.pending_finalizers@.is_prefix_of(self.pending_finalizers@)) by {
                assert(m3.pending_finalizers@ == m2.pending_finalizers@ + finalizer_tokens(
                    m2,
                    m2.young_generation@,
                    m2.young_generation@.len() as int,
                    sweep_doomed(m2),
                ));
                assert(m0.pending_finalizers@.len() <= self.pending_finalizers@.len());
                assert(self.pending_finalizers@.subrange(0, m0.pending_finalizers@.len() as int)
                    =~= m0.pending_finalizers@);
            }
            // pointwise translation of the sweeps' predicates to the
            // pre-collection state
            let yg = m0.young_generation@;
            let og = m0.old_generation@;
            assert forall|j: int|
                0 <= j < yg.len() implies {
                let id = #[trigger] yg[j] as int;
                &&& m2.live(id)
                &&& m0.live(id)
                &&& m2.obj(id).inner.finalizer == m0.obj(id).inner.finalizer
                &&& m2.obj(id).external_refs == m0.obj(id).external_refs
                &&& m2.marked(id) == m0.root_reachable(id)
            } by {
                let id = yg[j] as int;
                assert(m0.live(m0.young_generation@[j] as int));
                assert(!m1.old_generation@.contains(id as usize)) by {
                    if m1.old_generation@.contains(id as usize) {
                        let w = choose|w: int|
                            0 <= w < m1.old_generation@.len() && m1.old_generation@[w]
                                == id as usize;
                        assert(m1.young_generation@[j] != m1.old_generation@[w]);
                    }
                }
                assert(m1.live(id));
                assert(m2.live(id));
                assert(m2.obj(id).inner.finalizer == m1.obj(id).inner.finalizer);
                assert(m1.obj(id).inner.finalizer == m0.obj(id).inner.finalizer);
                assert(m2.obj(id).inner.marked == m1.obj(id).inner.marked);
                assert(m1.marked(id) <==> m0.root_reachable(id));
            }
            let cu = collect_unreached(m0);
            let cd = collect_doomed(m0);
            assert forall|j: int|
                0 <= j < yg.len() implies sweep_unmarked(m2)(#[trigger] yg[j] as int) == cu(
                yg[j] as int,
            ) && sweep_doomed(m2)(yg[j] as int) == cd(yg[j] as int) by {}
            lemma_count_matching_congruence(yg, yg.len() as int, sweep_unmarked(m2), cu);
            lemma_finalizer_tokens_congruence(m2, m0, yg, yg.len() as int, sweep_doomed(m2), cd);
            if gate {
                assert forall|j: int|
                    0 <= j < og.len() implies {
                    let id = #[trigger] og[j] as int;
                    &&& m1.live(id)
                    &&& m0.live(id)
                    &&& m1.obj(id).inner.finalizer == m0.obj(id).inner.finalizer
                    &&& m1.obj(id).external_refs == m0.obj(id).external_refs
                    &&& m1.marked(id) == m0.root_reachable(id)
                } by {
                    assert(m0.live(m0.old_generation@[j] as int));
                    assert(m1.live(og[j] as int));
                    assert(m1.obj(og[j] as int).inner.finalizer == m0.obj(
                        og[j] as int,
                    ).inner.finalizer);
                }
                assert forall|j: int|
                    0 <= j < og.len() implies sweep_unmarked(m1)(#[trigger] og[j] as int) == cu(
                    og[j] as int,
                ) && sweep_doomed(m1)(og[j] as int) == cd(og[j] as int) by {}
                lemma_count_matching_congruence(og, og.len() as int, sweep_unmarked(m1), cu);
                lemma_finalizer_tokens_congruence(
                    m1,
                    m0,
                    og,
                    og.len() as int,
                    sweep_doomed(m1),
                    cd,
                );
            } else {
                assert(m0.pending_finalizers@ + Seq::<u64>::empty() =~= m0.pending_finalizers@);
            }
            // generation list membership, over the pre-collection state
            assert forall|x: usize|
                self.young_generation@.contains(x) <==> (yg.contains(x) && m0.root_reachable(
                    x as int,
                ) && m0.obj(x as int).external_refs == 0) by {
                assert(m3.young_generation@.contains(x) <==> (m2.young_generation@.contains(x)
                    && m2.marked(x as int) && m2.obj(x as int).external_refs == 0));
                if yg.contains(x) {
                    let w = choose|w: int| 0 <= w < yg.len() && yg[w] == x;
                    assert(m2.marked(yg[w] as int) == m0.root_reachable(yg[w] as int));
                    assert(m2.obj(yg[w] as int).external_refs == m0.obj(
                        yg[w] as int,
                    ).external_refs);
                }
            }
            assert forall|x: usize|
                self.old_generation@.contains(x) <==> ((og.contains(x) && (gate
                    ==> m0.root_reachable(x as int))) || (yg.contains(x) && m0.root_reachable(
                    x as int,
                ) && m0.obj(x as int).external_refs > 0)) by {
                assert(m3.old_generation@.contains(x) <==> (m2.old_generation@.contains(x) || (
                m2.young_generation@.contains(x) && m2.marked(x as int) && m2.obj(
                    x as int,
                ).external_refs > 0)));
                if gate {
                    assert(m2.old_generation@.contains(x) <==> (m1.old_generation@.contains(x)
                        && m1.marked(x as int)));
                }
                if yg.contains(x) {
                    let w = choose|w: int| 0 <= w < yg.len() && yg[w] == x;
                    assert(m2.marked(yg[w] as int) == m0.root_reachable(yg[w] as int));
                    assert(m2.obj(yg[w] as int).external_refs == m0.obj(
                        yg[w] as int,
                    ).external_refs);
                }
                if og.contains(x) {
                    let w = choose|w: int| 0 <= w < og.len() && og[w] == x;
                    if gate {
                        assert(m1.marked(og[w] as int) == m0.root_reachable(og[w] as int));
                    }
                }
            }
        }
    }


    /// A minor collection: mark from the roots, sweep the young
    /// generation, clear the marks.
    #[verifier::rlimit(100)]
    fn collect_young(&mut self)
        requires
            old(self).wf(),
        ensures
            final(self).wf(),
            final(self).roots == old(self).roots,
            final(self).config == old(self).config,
            final(self).shapes == old(self).shapes,
            final(self).interner == old(self).interner,
            final(self).collecting == old(self).collecting,
            final(self).stats.allocation_count == old(self).stats.allocation_count,
            final(self).stats.collection_count == old(self).stats.collection_count,
            final(self).stats.objects_freed >= old(self).stats.objects_freed,
            final(self).objects@.len() == old(self).objects@.len(),
            old(self).pending_finalizers@.is_prefix_of(final(self).pending_finalizers@),
            forall|o: int|
                #[trigger] final(self).live(o) <==> (old(self).live(o) && !(old(self).obj(
                    o,
                ).external_refs == 0 && !old(self).root_reachable(o) && old(self).young_generation@.contains(o as usize))),
            forall|o: int|
                final(self).live(o) ==> {
                    let o1 = old(self).obj(o);
                    let o2 = final(self).obj(o);
                    &&& o2.inner.obj_type == o1.inner.obj_type
                    &&& o2.inner.shape == o1.inner.shape
                    &&& o2.inner.values == o1.inner.values
                    &&& o2.inner.finalizer == o1.inner.finalizer
                    &&& o2.external_refs == o1.external_refs
                    &&& o2.inner.marked == false
                },
    {
        let ghost m0: GarbageCollector = *old(self);
        self.mark_roots();
        let ghost m1: GarbageCollector = *self;
        proof {
            lemma_root_reachable_equiv(m0, m1);
            assert(forall|o: int| m1.marked(o) <==> m0.root_reachable(o));
        }
        self.sweep_young();
        let ghost m3: GarbageCollector = *self;
        self.clear_marks();
        let ghost m3c: GarbageCollector = *self;
        proof {
            let m4 = *self;
            assert forall|o: int| #[trigger] m4.live(o) == m3.live(o) by {
                assert(m3.live(o) <==> m3c.live(o));
            }
            assert forall|o: int|
                m4.live(o) <==> (m0.live(o) && !(m0.obj(o).external_refs == 0
                    && !m0.root_reachable(o) && m0.young_generation@.contains(o as usize))) by {
                assert(m3.live(o) <==> (m1.live(o) && !(m1.young_generation@.contains(o as usize)
                    && !m1.marked(o) && m1.obj(o).external_refs == 0)));
                if m1.live(o) {
                    assert(m1.obj(o).external_refs == m0.obj(o).external_refs);
                }
            }
            assert forall|o: int|
                m4.live(o) implies {
                let o1 = m0.obj(o);
                let o2 = m4.obj(o);
                &&& o2.inner.obj_type == o1.inner.obj_type
                &&& o2.inner.shape == o1.inner.shape
                &&& o2.inner.values == o1.inner.values
                &&& o2.inner.finalizer == o1.inner.finalizer
                &&& o2.external_refs == o1.external_refs
                &&& o2.inner.marked == false
            } by {
                assert(m3.live(o) && m1.live(o) && m3c.live(o));
                assert(m1.obj(o).inner.values == m0.obj(o).inner.values);
                assert(m3.obj(o).inner.values == m1.obj(o).inner.values);
                assert(m3c.obj(o).inner.values == m3.obj(o).inner.values);
                assert(m4.obj(o).inner.values == m3c.obj(o).inner.values);
                assert(!m3c.obj(o).inner.marked);
            }
            assert(m0.pending_finalizers@.is_prefix_of(self.pending_finalizers@)) by {
                assert(m0.pending_finalizers@.len() <= self.pending_finalizers@.len());
                assert(self.pending_finalizers@.subrange(0, m0.pending_finalizers@.len() as int)
                    =~= m0.pending_finalizers@);
            }
        }
    }

    /// Allocate a fresh object of the given type, track it in the young
    /// generation, and hand out a handle carrying one external share. If
    /// the young generation's size estimate then exceeds its threshold, a
    /// minor collection runs before returning.
    #[verifier::rlimit(100)]
    pub fn create_object(&mut self, obj_type: JSObjectType) -> (h: JSObjectHandle)
        requires
            old(self).wf(),
        ensures
            final(self).wf(),
            h.id == old(self).objects@.len(),
            final(self).objects@.len() == old(self).objects@.len() + 1,
            final(self).live(h.id as int),
            final(self).obj(h.id as int).inner.obj_type == obj_type,
            final(self).obj(h.id as int).inner.shape == 0,
            final(self).obj(h.id as int).inner.values@.len() == 0,
            final(self).obj(h.id as int).inner.finalizer is None,
            final(self).obj(h.id as int).external_refs == 1,
            final(self).stats.allocation_count == sat_add(old(self).stats.allocation_count, 1),
            final(self).stats.collection_count == old(self).stats.collection_count,
            final(self).stats.objects_freed >= old(self).stats.objects_freed,
            final(self).obj(h.id as int).inner.marked == false,
            // below the threshold: the fresh object is tracked in the
            // young generation, its estimate is charged, and nothing else
            // changes
            !alloc_triggers(*old(self)) ==> {
                &&& final(self).young_generation@ == old(self).young_generation@.push(h.id)
                &&& final(self).old_generation == old(self).old_generation
                &&& final(self).obj(h.id as int).in_generation == true
                &&& final(self).stats.young_generation_size == sat_add(
                    old(self).stats.young_generation_size,
                    OBJECT_BASE_SIZE,
                )
                &&& final(self).stats.objects_freed == old(self).stats.objects_freed
                &&& final(self).pending_finalizers == old(self).pending_finalizers
                &&& (forall|o: int|
                    #[trigger] final(self).live(o) <==> (old(self).live(o) || o == h.id as int))
            },
            // above the threshold a minor collection runs before
            // returning: pre-existing objects survive it exactly when
            // shared, untracked, or reachable from a root
            alloc_triggers(*old(self)) ==> (forall|o: int|
                o != h.id as int ==> ((#[trigger] final(self).live(o)) <==> (old(self).live(o)
                    && !(old(self).obj(o).external_refs == 0 && !old(self).root_reachable(o)
                    && old(self).young_generation@.contains(o as usize))))),
            final(self).roots == old(self).roots,
            final(self).config == old(self).config,
            final(self).shapes == old(self).shapes,
            final(self).interner == old(self).interner,
            forall|o: int|
                o != h.id as int && final(self).live(o) ==> old(self).live(o) && {
                    let o1 = old(self).obj(o);
                    let o2 = final(self).obj(o);
                    &&& o2.inner.obj_type == o1.inner.obj_type
                    &&& o2.inner.shape == o1.inner.shape
                    &&& o2.inner.values == o1.inner.values
                    &&& o2.inner.finalizer == o1.inner.finalizer
                    &&& o2.external_refs == o1.external_refs
                },
            forall|o: int|
                old(self).live(o) && (old(self).root_reachable(o) || old(self).obj(
                    o,
                ).external_refs > 0 || !old(self).obj(o).in_generation) ==> final(self).live(o),
    {
        let ghost m0: GarbageCollector = *old(self);
        let id: usize = self.objects.len();
        let mut obj = JSObject::new(obj_type);
        obj.external_refs = 1;
        obj.in_generation = true;
        self.objects.push(Some(obj));
        self.young_generation.push(id);
        self.stats.allocation_count = self.stats.allocation_count.saturating_add(1);
        proof {
            assert forall|i: int| self.live(i) implies #[trigger] self.obj_wf(i) by {
                if i < id {
                    assert(m0.live(i));
                    assert(m0.obj_wf(i));
                    assert(self.objects@[i] == m0.objects@[i]);
                    assert(self.obj(i).inner.values_in_bounds(self.objects@.len() as int)) by {
                        assert(m0.obj(i).inner.values_in_bounds(m0.objects@.len() as int));
                    }
                    assert(self.young_generation@.contains(i as usize)
                        <==> m0.young_generation@.contains(i as usize)) by {
                        if self.young_generation@.contains(i as usize) {
                            let w = choose|w: int|
                                0 <= w < self.young_generation@.len() && self.young_generation@[w]
                                    == i as usize;
                            if w < m0.young_generation@.len() {
                                assert(m0.young_generation@[w] == i as usize);
                            } else {
                                assert(i == id as int);
                            }
                        }
                        if m0.young_generation@.contains(i as usize) {
                            let w = choose|w: int|
                                0 <= w < m0.young_generation@.len() && m0.young_generation@[w]
                                    == i as usize;
                            assert(self.young_generation@[w] == i as usize);
                        }
                    }
                } else {
                    assert(i == id as int);
                    assert(self.young_generation@.last() == id);
                    assert(self.young_generation@.contains(id));
                    assert(self.shapes.shapes@.len() >= 1);
                    assert(self.shapes.record_wf(0));
                    assert(self.shapes.names_of(0).len() == 0);
                }
            }
            assert(self.gen_lists_wf()) by {
                assert forall|k: int|
                    0 <= k < self.young_generation@.len() implies self.live(
                    #[trigger] self.young_generation@[k] as int,
                ) by {
                    if k < m0.young_generation@.len() {
                        assert(m0.live(m0.young_generation@[k] as int));
                    }
                }
                assert forall|k: int|
                    0 <= k < self.old_generation@.len() implies self.live(
                    #[trigger] self.old_generation@[k] as int,
                ) by {
                    assert(m0.live(m0.old_generation@[k] as int));
                }
                assert forall|a: int, b: int|
                    0 <= a < b < self.young_generation@.len()
                        implies self.young_generation@[a] != self.young_generation@[b] by {
                    if b == self.young_generation@.len() - 1 {
                        assert(m0.live(m0.young_generation@[a] as int));
                    }
                }
                assert forall|a: int, b: int|
                    0 <= a < self.young_generation@.len() && 0 <= b < self.old_generation@.len()
                        implies self.young_generation@[a] != self.old_generation@[b] by {
                    if a == self.young_generation@.len() - 1 {
                        assert(m0.live(m0.old_generation@[b] as int));
                    }
                }
            }
            assert(self.all_unmarked()) by {
                assert forall|o: int| self.live(o) implies !(#[trigger] self.obj(
                    o,
                )).inner.marked by {
                    if o != id as int {
                        assert(m0.live(o) && !m0.obj(o).inner.marked);
                    }
                }
            }
        }
        let ghost s_push: GarbageCollector = *self;
        proof {
            assert(s_push.wf_core());
        }
        let est: usize = self.estimate_object_size(id);
        let new_size: usize = self.stats.young_generation_size.saturating_add(est);
        self.stats.young_generation_size = new_size;
        let ghost m1: GarbageCollector = *self;
        proof {
            lemma_wf_core_frame(s_push, m1);
            assert(m1.all_unmarked()) by {
                assert forall|o: int| m1.live(o) implies !(#[trigger] m1.obj(o)).inner.marked by {
                    assert(s_push.live(o) && !s_push.obj(o).inner.marked);
                }
            }
            assert(m1.wf());
            // the fresh object has no incoming edges; old reachability is
            // preserved verbatim
            assert forall|o: int|
                m0.live(o) && m0.root_reachable(o) implies m1.root_reachable(o) by {
                let ri = choose|ri: int|
                    0 <= ri < m0.roots@.len() && m0.reachable(#[trigger] m0.roots@[ri] as int, o);
                let p = choose|p: Seq<int>|
                    #[trigger] m0.is_edge_path(p) && p.len() >= 1 && p[0] == m0.roots@[ri] as int
                        && p.last() == o && m0.live(m0.roots@[ri] as int) && m0.live(o);
                assert(m1.is_edge_path(p)) by {
                    assert forall|k: int| #![trigger p[k]] 0 <= k < p.len() - 1 implies m1.edge(
                        p[k],
                        p[k + 1],
                    ) by {
                        assert(m0.edge(p[k], p[k + 1]));
                        assert(self.objects@[p[k]] == m0.objects@[p[k]]);
                        assert(self.objects@[p[k + 1]] == m0.objects@[p[k + 1]]);
                    }
                }
                assert(m1.reachable(m1.roots@[ri] as int, o));
            }
        }
        let threshold: usize = match self.config.young_gen_threshold_kb.checked_mul(1024) {
            Some(v) => v,
            None => usize::MAX,
        };
        proof {
            assert(est == OBJECT_BASE_SIZE);
            assert(threshold == kb_to_bytes(m0.config.young_gen_threshold_kb));
            assert((self.stats.young_generation_size > threshold) == alloc_triggers(m0));
        }
        if self.stats.young_generation_size > threshold {
            self.collect_young();
            proof {
                assert(self.live(id as int)) by {
                    assert(m1.obj(id as int).external_refs == 1);
                }
                assert forall|i: int|
                    m0.live(i) implies (#[trigger] m0.obj(i)).inner.values_in_bounds(
                    m0.objects@.len() as int,
                ) by {
                    assert(m0.obj_wf(i));
                }
                lemma_root_reachable_fresh_object(m0, m1, id as int);
                assert forall|o: int|
                    o != id as int implies ((#[trigger] self.live(o)) <==> (m0.live(o) && !(
                    m0.obj(o).external_refs == 0 && !m0.root_reachable(o)
                        && m0.young_generation@.contains(o as usize)))) by {
                    assert(self.live(o) <==> (m1.live(o) && !(m1.obj(o).external_refs == 0
                        && !m1.root_reachable(o) && m1.young_generation@.contains(o as usize))));
                    assert(m1.live(o) == m0.live(o)) by {
                        if 0 <= o < m0.objects@.len() {
                            assert(m1.objects@[o] == m0.objects@[o]);
                        }
                    }
                    if m0.live(o) {
                        assert(m1.objects@[o] == m0.objects@[o]);
                        assert(m1.root_reachable(o) == m0.root_reachable(o));
                        assert(m1.young_generation@.contains(o as usize)
                            == m0.young_generation@.contains(o as usize)) by {
                            if m1.young_generation@.contains(o as usize) {
                                let w = choose|w: int|
                                    0 <= w < m1.young_generation@.len()
                                        && m1.young_generation@[w] == o as usize;
                                if w < m0.young_generation@.len() {
                                    assert(m0.young_generation@[w] == o as usize);
                                } else {
                                    assert(o == id as int);
                                }
                            }
                            if m0.young_generation@.contains(o as usize) {
                                let w = choose|w: int|
                                    0 <= w < m0.young_generation@.len()
                                        && m0.young_generation@[w] == o as usize;
                                assert(m1.young_generation@[w] == o as usize);
                            }
                        }
                    }
                }
                assert(self.objects@.len() == m1.objects@.len());
                assert forall|o: int|
                    m0.live(o) && (m0.root_reachable(o) || m0.obj(o).external_refs > 0
                        || !m0.obj(o).in_generation) implies self.live(o) by {
                    assert(m1.live(o));
                    assert(m1.objects@[o] == m0.objects@[o]);
                    if m0.root_reachable(o) {
                        assert(m1.root_reachable(o));
                    } else if m0.obj(o).external_refs > 0 {
                        assert(m1.obj(o).external_refs > 0);
                    } else {
                        assert(!m1.obj(o).in_generation);
                        assert(m1.obj_wf(o));
                        assert(!m1.young_generation@.contains(o as usize));
                    }
                }
                assert forall|o: int|
                    o != id as int && self.live(o) implies m0.live(o) && {
                    let o1 = m0.obj(o);
                    let o2 = self.obj(o);
                    &&& o2.inner.obj_type == o1.inner.obj_type
                    &&& o2.inner.shape == o1.inner.shape
                    &&& o2.inner.values == o1.inner.values
                    &&& o2.inner.finalizer == o1.inner.finalizer
                    &&& o2.external_refs == o1.external_refs
                } by {
                    assert(m1.live(o));
                    assert(0 <= o < m0.objects@.len());
                    assert(m1.objects@[o] == m0.objects@[o]);
                    assert(self.obj(o).inner.values == m1.obj(o).inner.values);
                }
            }
        } else {
            proof {
                assert forall|o: int|
                    (#[trigger] self.live(o)) <==> (m0.live(o) || o == id as int) by {
                    if o != id as int && 0 <= o < m0.objects@.len() {
                        assert(self.objects@[o] == m0.objects@[o]);
                    }
                }
            }
        }
        JSObjectHandle { id }
    }

    /// Register `id` as a root; registering a present root is a no-op.
    #[verifier::loop_isolation(false)]
    pub fn add_root(&mut self, id: usize)
        requires
            old(self).wf(),
        ensures
            final(self).wf(),
            forall|x: usize|
                final(self).roots@.contains(x) <==> (old(self).roots@.contains(x) || x == id),
            final(self).objects == old(self).objects,
            final(self).young_generation == old(self).young_generation,
            final(self).old_generation == old(self).old_generation,
            final(self).config == old(self).config,
            final(self).stats == old(self).stats,
            final(self).shapes == old(self).shapes,
            final(self).interner == old(self).interner,
            final(self).pending_finalizers == old(self).pending_finalizers,
    {
        let ghost pre: GarbageCollector = *old(self);
        let n: usize = self.roots.len();
        let mut i: usize = 0;
        while i < n
            invariant
                pre.wf(),
                i <= n,
                *self == pre,
                n == self.roots@.len(),
                forall|j: int| 0 <= j < i ==> self.roots@[j] != id,
            decreases n - i,
        {
            if self.roots[i] == id {
                proof {
                    assert(self.roots@.contains(id));
                }
                return ;
            }
            i = i + 1;
        }
        let ghost r0: Seq<usize> = self.roots@;
        self.roots.push(id);
        proof {
            assert(self.roots@ == r0.push(id));
            assert forall|x: usize|
                #[trigger] self.roots@.contains(x) <==> (r0.contains(x) || x == id) by {
                if self.roots@.contains(x) {
                    let w = choose|w: int| 0 <= w < self.roots@.len() && self.roots@[w] == x;
                    if w < r0.len() {
                        assert(r0[w] == x);
                        assert(r0.contains(x));
                    }
                }
                if r0.contains(x) {
                    let w = choose|w: int| 0 <= w < r0.len() && r0[w] == x;
                    assert(self.roots@[w] == x);
                }
                if x == id {
                    assert(self.roots@[self.roots@.len() - 1] == id);
                }
            }
            assert forall|a: int, b: int|
                0 <= a < b < self.roots@.len() implies self.roots@[a] != self.roots@[b] by {
                if b == self.roots@.len() - 1 {
                    assert(self.roots@[a] == r0[a]);
                }
            }
            assert(self.wf_core()) by {
                assert forall|id2: int| self.live(id2) implies #[trigger] self.obj_wf(id2) by {
                    assert(pre.obj_wf(id2));
                    assert(self.obj(id2) == pre.obj(id2));
                }
                assert(self.gen_lists_wf()) by {
                    assert forall|k: int|
                        0 <= k < self.young_generation@.len() implies self.live(
                        #[trigger] self.young_generation@[k] as int,
                    ) by {
                        assert(pre.live(pre.young_generation@[k] as int));
                    }
                    assert forall|k: int|
                        0 <= k < self.old_generation@.len() implies self.live(
                        #[trigger] self.old_generation@[k] as int,
                    ) by {
                        assert(pre.live(pre.old_generation@[k] as int));
                    }
                }
            }
            assert(self.all_unmarked()) by {
                assert forall|o: int| self.live(o) implies !(#[trigger] self.obj(
                    o,
                )).inner.marked by {
                    assert(pre.live(o) && !pre.obj(o).inner.marked);
                }
            }
        }
    }

    /// Remove `id` from the root set; removing an absent root is a no-op.
    #[verifier::loop_isolation(false)]
    pub fn remove_root(&mut self, id: usize)
        requires
            old(self).wf(),
        ensures
            final(self).wf(),
            forall|x: usize|
                final(self).roots@.contains(x) <==> (old(self).roots@.contains(x) && x != id),
            final(self).objects == old(self).objects,
            final(self).young_generation == old(self).young_generation,
            final(self).old_generation == old(self).old_generation,
            final(self).config == old(self).config,
            final(self).stats == old(self).stats,
            final(self).shapes == old(self).shapes,
            final(self).interner == old(self).interner,
            final(self).pending_finalizers == old(self).pending_finalizers,
    {
        let ghost pre: GarbageCollector = *old(self);
        let n: usize = self.roots.len();
        let mut i: usize = 0;
        while i < n
            invariant
                pre.wf(),
                i <= n,
                *self == pre,
                n == self.roots@.len(),
                forall|j: int| 0 <= j < i ==> self.roots@[j] != id,
            decreases n - i,
        {
            if self.roots[i] == id {
                let ghost r0: Seq<usize> = self.roots@;
                self.roots.remove(i);
                proof {
                    assert(self.roots@ =~= r0.take(i as int) + r0.skip(i + 1));
                    assert forall|x: usize|
                        #[trigger] self.roots@.contains(x) <==> (r0.contains(x) && x != id) by {
                        if self.roots@.contains(x) {
                            let w = choose|w: int|
                                0 <= w < self.roots@.len() && self.roots@[w] == x;
                            if w < i {
                                assert(r0[w] == x);
                            } else {
                                assert(r0[w + 1] == x);
                            }
                            assert(r0.contains(x));
                            assert(x != id) by {
                                if x == id {
                                    if w < i {
                                        assert(r0[w] != id);
                                    } else {
                                        assert(r0[w + 1] == id && r0[i as int] == id);
                                        assert(r0[w + 1] != r0[i as int]);
                                    }
                                }
                            }
                        }
                        if r0.contains(x) && x != id {
                            let w = choose|w: int| 0 <= w < r0.len() && r0[w] == x;
                            assert(w != i);
                            if w < i {
                                assert(self.roots@[w] == x);
                            } else {
                                assert(self.roots@[w - 1] == x);
                            }
                        }
                    }
                    assert forall|a: int, b: int|
                        0 <= a < b < self.roots@.len() implies self.roots@[a] != self.roots@[b] by {
                        let ra: int = if a < i {
                            a
                        } else {
                            a + 1
                        };
                        let rb: int = if b < i {
                            b
                        } else {
                            b + 1
                        };
                        assert(self.roots@[a] == r0[ra]);
                        assert(self.roots@[b] == r0[rb]);
                    }
                    assert(self.wf_core()) by {
                        assert forall|id2: int| self.live(id2) implies #[trigger] self.obj_wf(
                            id2,
                        ) by {
                            assert(pre.obj_wf(id2));
                        }
                        assert(self.gen_lists_wf()) by {
                            assert forall|k: int|
                                0 <= k < self.young_generation@.len() implies self.live(
                                #[trigger] self.young_generation@[k] as int,
                            ) by {
                                assert(pre.live(pre.young_generation@[k] as int));
                            }
                            assert forall|k: int|
                                0 <= k < self.old_generation@.len() implies self.live(
                                #[trigger] self.old_generation@[k] as int,
                            ) by {
                                assert(pre.live(pre.old_generation@[k] as int));
                            }
                        }
                    }
                    assert(self.all_unmarked()) by {
                        assert forall|o: int| self.live(o) implies !(#[trigger] self.obj(
                            o,
                        )).inner.marked by {
                            assert(pre.live(o) && !pre.obj(o).inner.marked);
                        }
                    }
                }
                return ;
            }
            i = i + 1;
        }
        proof {
            assert forall|x: usize|
                self.roots@.contains(x) <==> (pre.roots@.contains(x) && x != id) by {
                if self.roots@.contains(x) {
                    let w = choose|w: int| 0 <= w < self.roots@.len() && self.roots@[w] == x;
                }
            }
        }
    }


    /// Write a property on the object `id`. Returns whether the handle
    /// referred to a live object; on a dead handle nothing changes.
    #[verifier::rlimit(100)]
    pub fn set_property(&mut self, id: usize, key: &str, value: JSValue) -> (r: bool)
        requires
            old(self).wf(),
            value matches JSValue::Object(v) ==> v < old(self).objects@.len(),
        ensures
            final(self).wf(),
            r == old(self).live(id as int),
            final(self).objects@.len() == old(self).objects@.len(),
            forall|o: int| final(self).live(o) == old(self).live(o),
            forall|o: int|
                o != id as int && old(self).live(o) ==> final(self).obj(o) == old(self).obj(o),
            final(self).young_generation == old(self).young_generation,
            final(self).old_generation == old(self).old_generation,
            final(self).roots == old(self).roots,
            final(self).config == old(self).config,
            final(self).stats == old(self).stats,
            final(self).pending_finalizers == old(self).pending_finalizers,
            // the shape table only grows, and no existing shape's names
            // change
            old(self).shapes.shapes@.len() <= final(self).shapes.shapes@.len() <= old(self).shapes.shapes@.len() + 1,
            forall|i: int|
                old(self).shapes.valid_shape(i) ==> final(self).shapes.names_of(i) == old(self).shapes.names_of(i),
            // the interner is preserved up to the one possible new entry
            old(self).interner.contents().len() <= final(self).interner.contents().len() <= old(self).interner.contents().len() + 1,
            forall|i: int|
                0 <= i < old(self).interner.contents().len() ==> final(self).interner.contents()[i] == old(self).interner.contents()[i],
            old(self).interner.has_content(key@) ==> final(self).interner.contents() == old(self).interner.contents(),
            // every other object's property view is untouched
            forall|o: int, k2: Seq<char>|
                o != id as int && old(self).live(o) ==> #[trigger] spec_get(
                    final(self).obj(o).inner,
                    final(self).shapes,
                    final(self).interner,
                    k2,
                ) == spec_get(old(self).obj(o).inner, old(self).shapes, old(self).interner, k2),
            !old(self).live(id as int) ==> *final(self) == *old(self),
            old(self).live(id as int) ==> {
                &&& spec_get(
                    final(self).obj(id as int).inner,
                    final(self).shapes,
                    final(self).interner,
                    key@,
                ) == value
                &&& (forall|k2: Seq<char>|
                    k2 != key@ ==> spec_get(
                        final(self).obj(id as int).inner,
                        final(self).shapes,
                        final(self).interner,
                        k2,
                    ) == spec_get(
                        old(self).obj(id as int).inner,
                        old(self).shapes,
                        old(self).interner,
                        k2,
                    ))
                &&& (spec_has_key(
                    old(self).obj(id as int).inner,
                    old(self).shapes,
                    old(self).interner,
                    key@,
                ) ==> final(self).obj(id as int).inner.shape == old(self).obj(
                    id as int,
                ).inner.shape)
                &&& final(self).obj(id as int).inner.obj_type == old(self).obj(
                    id as int,
                ).inner.obj_type
                &&& final(self).obj(id as int).inner.finalizer == old(self).obj(
                    id as int,
                ).inner.finalizer
                &&& final(self).obj(id as int).external_refs == old(self).obj(
                    id as int,
                ).external_refs
            },
    {
        let ghost pre: GarbageCollector = *old(self);
        if id >= self.objects.len() {
            return false;
        }
        let heap_len: usize = self.objects.len();
        let is_live: bool = match &self.objects[id] {
            Some(_) => true,
            None => false,
        };
        if !is_live {
            return false;
        }
        proof {
            assert(pre.obj_wf(id as int));
        }
        match &mut self.objects[id] {
            Some(o) => {
                o.set_property(&mut self.shapes, &mut self.interner, key, value);
            },
            None => {},
        }
        proof {
            assert(self.live(id as int));
            assert forall|o: int| self.live(o) == pre.live(o) by {
                if o != id as int && 0 <= o < self.objects@.len() {
                    assert(self.objects@[o] == pre.objects@[o]);
                }
            }
            assert forall|o: int| self.live(o) implies #[trigger] self.obj_wf(o) by {
                assert(pre.obj_wf(o));
                if o != id as int {
                    assert(self.objects@[o] == pre.objects@[o]);
                    assert(self.obj(o).inner.wf(self.shapes)) by {
                        assert(self.shapes.names_of(self.obj(o).inner.shape as int) == pre.shapes.names_of(
                            pre.obj(o).inner.shape as int,
                        ));
                    }
                    assert(self.obj(o).inner.names_valid(self.shapes, self.interner)) by {
                        assert forall|k: int|
                            0 <= k < self.shapes.names_of(self.obj(o).inner.shape as int).len()
                                implies self.shapes.names_of(self.obj(o).inner.shape as int)[k]
                                < self.interner.contents().len() by {
                            assert(pre.shapes.names_of(pre.obj(o).inner.shape as int)[k]
                                < pre.interner.contents().len());
                        }
                    }
                } else {
                    assert(self.obj(o).inner.values_in_bounds(self.objects@.len() as int)) by {
                        assert(pre.obj(o).inner.values_in_bounds(heap_len as int));
                    }
                    assert(self.obj(o).in_generation == pre.obj(o).in_generation);
                }
            }
            assert(self.gen_lists_wf()) by {
                assert forall|k: int|
                    0 <= k < self.young_generation@.len() implies self.live(
                    #[trigger] self.young_generation@[k] as int,
                ) by {
                    assert(pre.live(pre.young_generation@[k] as int));
                }
                assert forall|k: int|
                    0 <= k < self.old_generation@.len() implies self.live(
                    #[trigger] self.old_generation@[k] as int,
                ) by {
                    assert(pre.live(pre.old_generation@[k] as int));
                }
            }
            assert(self.all_unmarked()) by {
                assert forall|o: int| self.live(o) implies !(#[trigger] self.obj(
                    o,
                )).inner.marked by {
                    assert(pre.live(o) && !pre.obj(o).inner.marked);
                    if o != id as int {
                        assert(self.objects@[o] == pre.objects@[o]);
                    }
                }
            }
            assert forall|o: int, k2: Seq<char>|
                o != id as int && pre.live(o) implies #[trigger] spec_get(
                    self.obj(o).inner,
                    self.shapes,
                    self.interner,
                    k2,
                ) == spec_get(pre.obj(o).inner, pre.shapes, pre.interner, k2) by {
                assert(self.objects@[o] == pre.objects@[o]);
                assert(pre.obj_wf(o));
                let names = pre.shapes.names_of(pre.obj(o).inner.shape as int);
                assert(self.shapes.names_of(self.obj(o).inner.shape as int) == names);
                crate::object::lemma_key_slot_extend(
                    names,
                    pre.interner.contents(),
                    self.interner.contents(),
                    k2,
                );
            }
        }
        true
    }

    /// Read a property from the object `id`; dead handles and absent
    /// properties read as `Undefined`. The key is interned, so the
    /// interner may grow by one entry.
    pub fn get_property(&mut self, id: usize, key: &str) -> (r: JSValue)
        requires
            old(self).wf(),
        ensures
            final(self).wf(),
            final(self).objects == old(self).objects,
            final(self).young_generation == old(self).young_generation,
            final(self).old_generation == old(self).old_generation,
            final(self).roots == old(self).roots,
            final(self).config == old(self).config,
            final(self).stats == old(self).stats,
            final(self).shapes == old(self).shapes,
            final(self).pending_finalizers == old(self).pending_finalizers,
            // the interner is preserved up to the one possible new entry
            // for the interned key
            old(self).interner.contents().len() <= final(self).interner.contents().len() <= old(self).interner.contents().len() + 1,
            forall|i: int|
                0 <= i < old(self).interner.contents().len() ==> final(self).interner.contents()[i] == old(self).interner.contents()[i],
            old(self).interner.has_content(key@) ==> final(self).interner.contents() == old(self).interner.contents(),
            old(self).live(id as int) ==> r == spec_get(
                old(self).obj(id as int).inner,
                old(self).shapes,
                old(self).interner,
                key@,
            ),
            !old(self).live(id as int) ==> r == JSValue::Undefined && *final(self) == *old(self),
    {
        let ghost pre: GarbageCollector = *old(self);
        if id >= self.objects.len() {
            return JSValue::Undefined;
        }
        let r: JSValue = match &self.objects[id] {
            Some(o) => {
                proof {
                    assert(pre.obj_wf(id as int));
                }
                o.get_property(&self.shapes, &mut self.interner, key)
            },
            None => {
                return JSValue::Undefined;
            },
        };
        proof {
            assert forall|o: int| self.live(o) implies #[trigger] self.obj_wf(o) by {
                assert(pre.obj_wf(o));
                assert(self.obj(o).inner.names_valid(self.shapes, self.interner)) by {
                    assert forall|k: int|
                        0 <= k < self.shapes.names_of(self.obj(o).inner.shape as int).len()
                            implies self.shapes.names_of(self.obj(o).inner.shape as int)[k]
                            < self.interner.contents().len() by {
                        assert(pre.shapes.names_of(pre.obj(o).inner.shape as int)[k]
                            < pre.interner.contents().len());
                    }
                }
            }
            assert(self.gen_lists_wf()) by {
                assert forall|k: int|
                    0 <= k < self.young_generation@.len() implies self.live(
                    #[trigger] self.young_generation@[k] as int,
                ) by {
                    assert(pre.live(pre.young_generation@[k] as int));
                }
                assert forall|k: int|
                    0 <= k < self.old_generation@.len() implies self.live(
                    #[trigger] self.old_generation@[k] as int,
                ) by {
                    assert(pre.live(pre.old_generation@[k] as int));
                }
            }
            assert(self.all_unmarked()) by {
                assert forall|o: int| self.live(o) implies !(#[trigger] self.obj(
                    o,
                )).inner.marked by {
                    assert(pre.live(o) && !pre.obj(o).inner.marked);
                }
            }
        }
        r
    }

    /// Install a finalizer token on the object `id`; a later call
    /// replaces the earlier one. Returns whether the handle was live.
    pub fn set_finalizer(&mut self, id: usize, token: u64) -> (r: bool)
        requires
            old(self).wf(),
        ensures
            final(self).wf(),
            r == old(self).live(id as int),
            !old(self).live(id as int) ==> *final(self) == *old(self),
            forall|o: int| final(self).live(o) == old(self).live(o),
            forall|o: int|
                o != id as int && old(self).live(o) ==> final(self).obj(o) == old(self).obj(o),
            old(self).live(id as int) ==> final(self).obj(id as int).inner.finalizer == Some(token)
                && final(self).obj(id as int).inner.obj_type == old(self).obj(
                id as int,
            ).inner.obj_type && final(self).obj(id as int).inner.shape == old(self).obj(
                id as int,
            ).inner.shape && final(self).obj(id as int).inner.values == old(self).obj(
                id as int,
            ).inner.values && final(self).obj(id as int).external_refs == old(self).obj(
                id as int,
            ).external_refs,
            final(self).young_generation == old(self).young_generation,
            final(self).old_generation == old(self).old_generation,
            final(self).roots == old(self).roots,
            final(self).shapes == old(self).shapes,
            final(self).interner == old(self).interner,
            final(self).stats == old(self).stats,
            final(self).pending_finalizers == old(self).pending_finalizers,
    {
        let ghost pre: GarbageCollector = *old(self);
        if id >= self.objects.len() {
            return false;
        }
        let is_live: bool = match &self.objects[id] {
            Some(_) => true,
            None => false,
        };
        if !is_live {
            return false;
        }
        let r: bool = match &mut self.objects[id] {
            Some(o) => {
                o.set_finalizer(token);
                true
            },
            None => false,
        };
        proof {
            assert forall|o: int| self.live(o) == pre.live(o) by {
                if o != id as int && 0 <= o < self.objects@.len() {
                    assert(self.objects@[o] == pre.objects@[o]);
                }
            }
            assert forall|o: int| self.live(o) implies #[trigger] self.obj_wf(o) by {
                assert(pre.obj_wf(o));
                if o != id as int {
                    assert(self.objects@[o] == pre.objects@[o]);
                } else {
                    assert(self.obj(o).inner.values == pre.obj(o).inner.values);
                    assert(self.obj(o).inner.shape == pre.obj(o).inner.shape);
                    assert(self.obj(o).in_generation == pre.obj(o).in_generation);
                }
            }
            assert(self.gen_lists_wf()) by {
                assert forall|k: int|
                    0 <= k < self.young_generation@.len() implies self.live(
                    #[trigger] self.young_generation@[k] as int,
                ) by {
                    assert(pre.live(pre.young_generation@[k] as int));
                }
                assert forall|k: int|
                    0 <= k < self.old_generation@.len() implies self.live(
                    #[trigger] self.old_generation@[k] as int,
                ) by {
                    assert(pre.live(pre.old_generation@[k] as int));
                }
            }
            assert(self.all_unmarked()) by {
                assert forall|o: int| self.live(o) implies !(#[trigger] self.obj(
                    o,
                )).inner.marked by {
                    assert(pre.live(o) && !pre.obj(o).inner.marked);
                    if o != id as int {
                        assert(self.objects@[o] == pre.objects@[o]);
                    }
                }
            }
        }
        r
    }

    /// Take one more external share of the object `id` (as the host
    /// boundary does when it hands out another handle).
    pub fn retain_object(&mut self, id: usize) -> (r: bool)
        requires
            old(self).wf(),
        ensures
            final(self).wf(),
            r == old(self).live(id as int),
            !old(self).live(id as int) ==> *final(self) == *old(self),
            forall|o: int| final(self).live(o) == old(self).live(o),
            forall|o: int|
                o != id as int && old(self).live(o) ==> final(self).obj(o) == old(self).obj(o),
            old(self).live(id as int) ==> final(self).obj(id as int).external_refs == sat_add(
                old(self).obj(id as int).external_refs,
                1,
            ) && final(self).obj(id as int).inner == old(self).obj(id as int).inner,
            final(self).young_generation == old(self).young_generation,
            final(self).old_generation == old(self).old_generation,
            final(self).roots == old(self).roots,
            final(self).shapes == old(self).shapes,
            final(self).interner == old(self).interner,
            final(self).stats == old(self).stats,
            final(self).pending_finalizers == old(self).pending_finalizers,
    {
        let ghost pre: GarbageCollector = *old(self);
        if id >= self.objects.len() {
            return false;
        }
        let is_live: bool = match &self.objects[id] {
            Some(_) => true,
            None => false,
        };
        if !is_live {
            return false;
        }
        let r: bool = match &mut self.objects[id] {
            Some(o) => {
                o.external_refs = o.external_refs.saturating_add(1);
                true
            },
            None => false,
        };
        proof {
            assert forall|o: int| self.live(o) == pre.live(o) by {
                if o != id as int && 0 <= o < self.objects@.len() {
                    assert(self.objects@[o] == pre.objects@[o]);
                }
            }
            assert forall|o: int| self.live(o) implies #[trigger] self.obj_wf(o) by {
                assert(pre.obj_wf(o));
                if o != id as int {
                    assert(self.objects@[o] == pre.objects@[o]);
                } else {
                    assert(self.obj(o).inner == pre.obj(o).inner);
                    assert(self.obj(o).in_generation == pre.obj(o).in_generation);
                }
            }
            assert(self.gen_lists_wf()) by {
                assert forall|k: int|
                    0 <= k < self.young_generation@.len() implies self.live(
                    #[trigger] self.young_generation@[k] as int,
                ) by {
                    assert(pre.live(pre.young_generation@[k] as int));
                }
                assert forall|k: int|
                    0 <= k < self.old_generation@.len() implies self.live(
                    #[trigger] self.old_generation@[k] as int,
                ) by {
                    assert(pre.live(pre.old_generation@[k] as int));
                }
            }
            assert(self.all_unmarked()) by {
                assert forall|o: int| self.live(o) implies !(#[trigger] self.obj(
                    o,
                )).inner.marked by {
                    assert(pre.live(o) && !pre.obj(o).inner.marked);
                    if o != id as int {
                        assert(self.objects@[o] == pre.objects@[o]);
                    }
                }
            }
        }
        r
    }

    /// Release one external share of the object `id`. When the last share
    /// goes and the collector no longer tracks the object, it is
    /// destroyed at once and its finalizer recorded.
    #[verifier::rlimit(100)]
    pub fn release_object(&mut self, id: usize)
        requires
            old(self).wf(),
        ensures
            final(self).wf(),
            !old(self).live(id as int) ==> *final(self) == *old(self),
            forall|o: int| o != id as int ==> final(self).live(o) == old(self).live(o),
            forall|o: int|
                o != id as int && old(self).live(o) ==> final(self).obj(o) == old(self).obj(o),
            old(self).live(id as int) ==> {
                let was = old(self).obj(id as int);
                if was.external_refs <= 1 && !was.in_generation {
                    &&& !final(self).live(id as int)
                    &&& final(self).pending_finalizers@ == (match was.inner.finalizer {
                        Some(t) => old(self).pending_finalizers@.push(t),
                        None => old(self).pending_finalizers@,
                    })
                } else {
                    &&& final(self).live(id as int)
                    &&& final(self).obj(id as int).inner == was.inner
                    &&& final(self).obj(id as int).external_refs == (if was.external_refs > 0 {
                        (was.external_refs - 1) as usize
                    } else {
                        0
                    })
                    &&& final(self).pending_finalizers == old(self).pending_finalizers
                }
            },
            final(self).young_generation == old(self).young_generation,
            final(self).old_generation == old(self).old_generation,
            final(self).roots == old(self).roots,
            final(self).shapes == old(self).shapes,
            final(self).interner == old(self).interner,
            final(self).stats == old(self).stats,
    {
        let ghost pre: GarbageCollector = *old(self);
        if id >= self.objects.len() {
            return ;
        }
        let rec: (bool, usize, bool, Option<u64>) = match &self.objects[id] {
            Some(o) => (true, o.external_refs, o.in_generation, o.inner.finalizer),
            None => (false, 0, false, None),
        };
        if !rec.0 {
            return ;
        }
        let ext: usize = rec.1;
        let new_ext: usize = if ext > 0 {
            ext - 1
        } else {
            0
        };
        if new_ext == 0 && !rec.2 {
            match rec.3 {
                Some(t) => {
                    self.pending_finalizers.push(t);
                },
                None => {},
            }
            self.objects[id] = None;
        } else {
            match &mut self.objects[id] {
                Some(o) => {
                    o.external_refs = new_ext;
                },
                None => {},
            }
        }
        proof {
            assert forall|o: int| o != id as int implies self.live(o) == pre.live(o) by {
                if 0 <= o < self.objects@.len() {
                    assert(self.objects@[o] == pre.objects@[o]);
                }
            }
            assert forall|o: int| self.live(o) implies #[trigger] self.obj_wf(o) by {
                assert(pre.live(o));
                assert(pre.obj_wf(o));
                if o != id as int {
                    assert(self.objects@[o] == pre.objects@[o]);
                    assert(self.obj(o).inner.values_in_bounds(self.objects@.len() as int)) by {
                        assert(pre.obj(o).inner.values_in_bounds(pre.objects@.len() as int));
                    }
                } else {
                    assert(self.obj(o).inner == pre.obj(o).inner);
                    assert(self.obj(o).in_generation == pre.obj(o).in_generation);
                }
            }
            assert(self.gen_lists_wf()) by {
                assert forall|k: int|
                    0 <= k < self.young_generation@.len() implies self.live(
                    #[trigger] self.young_generation@[k] as int,
                ) by {
                    assert(pre.live(pre.young_generation@[k] as int));
                    if pre.young_generation@[k] == id {
                        assert(pre.obj_wf(id as int));
                        assert(pre.young_generation@.contains(id));
                        assert(pre.obj(id as int).in_generation == true);
                    }
                }
                assert forall|k: int|
                    0 <= k < self.old_generation@.len() implies self.live(
                    #[trigger] self.old_generation@[k] as int,
                ) by {
                    assert(pre.live(pre.old_generation@[k] as int));
                    if pre.old_generation@[k] == id {
                        assert(pre.obj_wf(id as int));
                        assert(pre.old_generation@.contains(id));
                        assert(pre.obj(id as int).in_generation == true);
                    }
                }
            }
            assert(self.all_unmarked()) by {
                assert forall|o: int| self.live(o) implies !(#[trigger] self.obj(
                    o,
                )).inner.marked by {
                    assert(pre.live(o) && !pre.obj(o).inner.marked);
                    if o != id as int {
                        assert(self.objects@[o] == pre.objects@[o]);
                    }
                }
            }
        }
    }

    /// The host type code of the object `id`, or -1 for a dead handle.
    pub fn get_object_type(&self, id: usize) -> (c: i32)
        ensures
            self.live(id as int) ==> c == type_code(self.obj(id as int).inner.obj_type),
            !self.live(id as int) ==> c == -1,
    {
        if id >= self.objects.len() {
            return -1;
        }
        match &self.objects[id] {
            Some(o) => o.inner.obj_type.code(),
            None => -1,
        }
    }

    /// Drain the finalizer tokens recorded by destructions since the last
    /// drain; the host boundary invokes the corresponding callbacks.
    pub fn take_pending_finalizers(&mut self) -> (r: Vec<u64>)
        requires
            old(self).wf(),
        ensures
            final(self).wf(),
            r == old(self).pending_finalizers,
            final(self).pending_finalizers@.len() == 0,
            final(self).objects == old(self).objects,
            final(self).young_generation == old(self).young_generation,
            final(self).old_generation == old(self).old_generation,
            final(self).roots == old(self).roots,
            final(self).shapes == old(self).shapes,
            final(self).interner == old(self).interner,
            final(self).stats == old(self).stats,
            final(self).config == old(self).config,
    {
        let ghost pre: GarbageCollector = *old(self);
        let mut out: Vec<u64> = Vec::new();
        core::mem::swap(&mut out, &mut self.pending_finalizers);
        proof {
            lemma_wf_core_frame(pre, *self);
            assert(self.all_unmarked()) by {
                assert forall|o: int| self.live(o) implies !(#[trigger] self.obj(
                    o,
                )).inner.marked by {
                    assert(pre.live(o) && !pre.obj(o).inner.marked);
                }
            }
        }
        out
    }

    /// The summed size estimate of a list of live objects.
    fn list_size(&self, lst: &Vec<usize>) -> (r: usize)
        requires
            forall|k: int|
                0 <= k < lst@.len() ==> self.live(#[trigger] lst@[k] as int) && self.obj(
                    lst@[k] as int,
                ).inner.shape < self.shapes.shapes@.len(),
        ensures
            r == self.list_size_spec(lst@),
    {
        let n: usize = lst.len();
        let mut acc: usize = 0;
        let mut k: usize = 0;
        while k < n
            invariant
                n == lst@.len(),
                k <= n,
                forall|j: int|
                    0 <= j < lst@.len() ==> self.live(#[trigger] lst@[j] as int) && self.obj(
                        lst@[j] as int,
                    ).inner.shape < self.shapes.shapes@.len(),
                acc == self.list_size_spec(lst@.take(k as int)),
            decreases n - k,
        {
            let id: usize = lst[k];
            acc = acc.saturating_add(self.estimate_object_size(id));
            proof {
                assert(lst@.take(k + 1).drop_last() =~= lst@.take(k as int));
                assert(lst@.take(k + 1).last() == lst@[k as int]);
            }
            k = k + 1;
        }
        proof {
            assert(lst@.take(n as int) =~= lst@);
        }
        acc
    }
}

} // verus!

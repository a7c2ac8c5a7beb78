//! Laws of the ring reconstructor: a relation whose usable member ways
//! form one closed polygon — split into arbitrarily ordered, arbitrarily
//! directed segments — stitches into exactly one closed ring; two disjoint
//! closed polygons stitch into exactly two closed rings.
//!
//! A "closed polygon split into segments" is formalized as a *cycle
//! arrangement*: an ordering of the way IDs with a direction for each,
//! such that every oriented segment ends on the node the next one starts
//! on, all the way around, and the junction nodes are pairwise distinct
//! (the polygon does not touch itself).

use vstd::prelude::*;

use crate::classify::spec_way_type;
use crate::index::no_dup;
use crate::rings::{
    chain_all, chain_from, collect_ids, extend_loop, lemma_collect_ids_usable,
    lemma_find_next_none, lemma_find_next_some, seed_loop, spec_extract_loops, touches, usable,
};
use crate::{LoopV, WayV};

verus! {

/// The node sequence of way `id`, forward or reversed.
pub open spec fn oriented(ways: Map<u64, WayV>, id: u64, fwd: bool) -> Seq<u64> {
    if fwd {
        ways[id].nd
    } else {
        ways[id].nd.reverse()
    }
}

/// Segment `k` of an arrangement: way `ws[k]` oriented by `dir[k]`.
pub open spec fn seg(ways: Map<u64, WayV>, ws: Seq<u64>, dir: Seq<bool>, k: int) -> Seq<u64>
    recommends
        0 <= k < ws.len(),
        dir.len() == ws.len(),
{
    oriented(ways, ws[k], dir[k])
}

/// Junction node `k` of an arrangement: the node segment `k` starts on
/// (indices taken around the circle).
pub open spec fn joint(ways: Map<u64, WayV>, ws: Seq<u64>, dir: Seq<bool>, k: int) -> u64
    recommends
        ws.len() > 0,
        dir.len() == ws.len(),
{
    let m = k % (ws.len() as int);
    seg(ways, ws, dir, m).first()
}

/// Do `ws` and `dir` arrange distinct usable ways into one closed polygon?
/// Every oriented segment ends on the node the next one starts on, around
/// the full circle, and the junction nodes are pairwise distinct.
pub open spec fn single_cycle(ways: Map<u64, WayV>, ws: Seq<u64>, dir: Seq<bool>) -> bool {
    &&& ws.len() >= 1
    &&& dir.len() == ws.len()
    &&& no_dup(ws)
    &&& forall|k: int| 0 <= k < ws.len() ==> usable(ways, #[trigger] ws[k])
    &&& forall|k: int|
        0 <= k < ws.len() ==> (#[trigger] seg(ways, ws, dir, k)).last() == joint(
            ways,
            ws,
            dir,
            k + 1,
        )
    &&& forall|k: int, l: int|
        0 <= k < l < ws.len() ==> #[trigger] joint(ways, ws, dir, k) != #[trigger] joint(
            ways,
            ws,
            dir,
            l,
        )
}

/// Does this way sit outside the cycle entirely: not one of its ways, and
/// touching none of its junction nodes?
pub open spec fn avoids_cycle(ways: Map<u64, WayV>, ws: Seq<u64>, dir: Seq<bool>, id: u64) -> bool {
    &&& !ws.contains(id)
    &&& forall|m: int| 0 <= m < ws.len() ==> !touches(#[trigger] joint(ways, ws, dir, m), ways[id])
}

/// The ring the first `k` segments of the arrangement concatenate to.
pub open spec fn ring_nodes(ways: Map<u64, WayV>, ws: Seq<u64>, dir: Seq<bool>, k: int) -> Seq<u64>
    decreases k,
{
    if k <= 0 {
        Seq::<u64>::empty()
    } else {
        ring_nodes(ways, ws, dir, k - 1) + seg(ways, ws, dir, k - 1)
    }
}

/// In a cycle arrangement, a way of the cycle touches a node exactly when
/// the node is one of the way's two junctions.
pub proof fn lemma_touches_cycle_way(
    ways: Map<u64, WayV>,
    ws: Seq<u64>,
    dir: Seq<bool>,
    m: int,
    n: u64,
)
    requires
        single_cycle(ways, ws, dir),
        0 <= m < ws.len(),
    ensures
        touches(n, ways[ws[m]]) <==> n == joint(ways, ws, dir, m) || n == joint(
            ways,
            ws,
            dir,
            m + 1,
        ),
{
    let s = seg(ways, ws, dir, m);
    let nd = ways[ws[m]].nd;
    assert(usable(ways, ws[m]));
    assert(m % (ws.len() as int) == m) by {
        vstd::arithmetic::div_mod::lemma_small_mod(m as nat, ws.len());
    }
    assert(joint(ways, ws, dir, m) == s.first());
    assert(s.last() == joint(ways, ws, dir, m + 1));
    if dir[m as int] {
        assert(s == nd);
    } else {
        assert(s == nd.reverse());
        assert(s.first() == nd.last());
        assert(s.last() == nd.first());
    }
}

/// The partial ring of a cycle arrangement starts on junction 0 and, after
/// `k` segments, ends on junction `k`.
pub proof fn lemma_ring_nodes_ends(ways: Map<u64, WayV>, ws: Seq<u64>, dir: Seq<bool>, k: int)
    requires
        single_cycle(ways, ws, dir),
        1 <= k <= ws.len(),
    ensures
        ring_nodes(ways, ws, dir, k).len() >= 1,
        ring_nodes(ways, ws, dir, k).first() == joint(ways, ws, dir, 0),
        ring_nodes(ways, ws, dir, k).last() == joint(ways, ws, dir, k),
    decreases k,
{
    let s = seg(ways, ws, dir, k - 1);
    assert(usable(ways, ws[k - 1]));
    assert(s.len() >= 2);
    assert(s.last() == joint(ways, ws, dir, k));
    if k == 1 {
        assert(0int % (ws.len() as int) == 0) by {
            vstd::arithmetic::div_mod::lemma_small_mod(0nat, ws.len());
        }
        assert(ring_nodes(ways, ws, dir, 0) =~= Seq::<u64>::empty());
        assert(ring_nodes(ways, ws, dir, 1) =~= s);
        assert(ring_nodes(ways, ws, dir, 1).first() == s.first());
        assert(s.first() == joint(ways, ws, dir, 0));
    } else {
        lemma_ring_nodes_ends(ways, ws, dir, k - 1);
        let prev = ring_nodes(ways, ws, dir, k - 1);
        assert(ring_nodes(ways, ws, dir, k) == prev + s);
        assert((prev + s).first() == prev.first());
        assert((prev + s).last() == s.last());
    }
}

/// Removing one position: the remaining elements keep their order.
pub proof fn lemma_remove_index<A>(s: Seq<A>, i: int)
    requires
        0 <= i < s.len(),
    ensures
        s.remove(i).len() == s.len() - 1,
        forall|p: int| 0 <= p < i ==> s.remove(i)[p] == s[p],
        forall|p: int| i <= p < s.len() - 1 ==> s.remove(i)[p] == s[p + 1],
{
}

/// A filter that rejects every element filters to the empty sequence.
pub proof fn lemma_filter_none<A>(s: Seq<A>, p: spec_fn(A) -> bool)
    requires
        forall|k: int| 0 <= k < s.len() ==> !p(s[k]),
    ensures
        s.filter(p) == Seq::<A>::empty(),
    decreases s.len(),
{
    reveal(Seq::filter);
    if s.len() > 0 {
        lemma_filter_none(s.drop_last(), p);
    }
}

/// A filter that accepts every element filters to the sequence itself.
pub proof fn lemma_filter_all<A>(s: Seq<A>, p: spec_fn(A) -> bool)
    requires
        forall|k: int| 0 <= k < s.len() ==> p(s[k]),
    ensures
        s.filter(p) == s,
    decreases s.len(),
{
    reveal(Seq::filter);
    if s.len() > 0 {
        lemma_filter_all(s.drop_last(), p);
        assert(s.drop_last().push(s.last()) =~= s);
    }
}

/// Removing an element the filter rejects leaves the filtered image
/// unchanged.
pub proof fn lemma_filter_remove<A>(s: Seq<A>, p: spec_fn(A) -> bool, i: int)
    requires
        0 <= i < s.len(),
        !p(s[i]),
    ensures
        s.remove(i).filter(p) == s.filter(p),
{
    let front = s.take(i);
    let back = s.skip(i + 1);
    assert(s =~= front + (seq![s[i]] + back));
    assert(s.remove(i) =~= front + back);
    Seq::filter_distributes_over_add(front, seq![s[i]] + back, p);
    Seq::filter_distributes_over_add(seq![s[i]], back, p);
    Seq::filter_distributes_over_add(front, back, p);
    assert(seq![s[i]].filter(p) =~= Seq::<A>::empty()) by {
        reveal(Seq::filter);
        assert(seq![s[i]].drop_last() =~= Seq::<A>::empty());
        assert(Seq::<A>::empty().filter(p) =~= Seq::<A>::empty());
        assert(seq![s[i]].last() == s[i]);
        assert(seq![s[i]].filter(p) == seq![s[i]].drop_last().filter(p));
    }
    assert(s.filter(p) =~= front.filter(p) + back.filter(p));
}

/// A pending way other than the cycle's next segment never touches the
/// junction the ring currently ends on.
proof fn lemma_only_next_touches(
    ways: Map<u64, WayV>,
    ws: Seq<u64>,
    dir: Seq<bool>,
    k: int,
    id: u64,
)
    requires
        single_cycle(ways, ws, dir),
        1 <= k < ws.len(),
        ws.skip(k).contains(id) || avoids_cycle(ways, ws, dir, id),
        id != ws[k],
    ensures
        !touches(joint(ways, ws, dir, k), ways[id]),
{
    let len = ws.len() as int;
    let n = joint(ways, ws, dir, k);
    if ws.skip(k).contains(id) {
        let q = choose|q: int| 0 <= q < ws.skip(k).len() && ws.skip(k)[q] == id;
        let m = k + q;
        assert(ws[m] == id);
        assert(m != k);
        lemma_touches_cycle_way(ways, ws, dir, m, n);
        assert(joint(ways, ws, dir, m) != joint(ways, ws, dir, k));
        if m + 1 < len {
            assert(joint(ways, ws, dir, m + 1) != joint(ways, ws, dir, k));
        } else {
            assert(m + 1 == len);
            assert(len % len == 0) by {
                vstd::arithmetic::div_mod::lemma_mod_self_0(len);
            }
            assert(0int % len == 0) by {
                vstd::arithmetic::div_mod::lemma_small_mod(0nat, ws.len());
            }
            assert(joint(ways, ws, dir, m + 1) == joint(ways, ws, dir, 0));
            assert(joint(ways, ws, dir, 0) != joint(ways, ws, dir, k));
        }
    } else {
        assert(!touches(joint(ways, ws, dir, k), ways[id]));
    }
}

/// Extending the partial ring with the cycle's next way appends exactly
/// the cycle's next oriented segment.
#[verifier::rlimit(100)]
#[verifier::spinoff_prover]
proof fn lemma_extend_matches_segment(
    ways: Map<u64, WayV>,
    ws: Seq<u64>,
    dir: Seq<bool>,
    k: int,
    cur: LoopV,
)
    requires
        single_cycle(ways, ws, dir),
        1 <= k < ws.len(),
        cur.nodes == ring_nodes(ways, ws, dir, k),
    ensures
        extend_loop(cur, ways[ws[k]]).nodes == ring_nodes(ways, ws, dir, k + 1),
        extend_loop(cur, ways[ws[k]]).member_type == cur.member_type,
        extend_loop(cur, ways[ws[k]]).way_id == None::<u64>,
{
    let len = ws.len() as int;
    lemma_ring_nodes_ends(ways, ws, dir, k);
    let last = cur.nodes.last();
    assert(k % len == k) by {
        vstd::arithmetic::div_mod::lemma_small_mod(k as nat, ws.len());
    }
    assert(last == joint(ways, ws, dir, k));
    let nd = ways[ws[k]].nd;
    let s = seg(ways, ws, dir, k);
    assert(usable(ways, ws[k]));
    assert(s.first() == joint(ways, ws, dir, k));
    assert(s.last() == joint(ways, ws, dir, k + 1));
    if dir[k] {
        assert(s == nd);
        assert(nd.first() == last);
        assert(extend_loop(cur, ways[ws[k]]).nodes == cur.nodes + nd);
    } else {
        assert(s == nd.reverse());
        assert(s.first() == nd.last());
        assert(s.last() == nd.first());
        assert(nd.first() == joint(ways, ws, dir, k + 1));
        if k + 1 < len {
            assert(joint(ways, ws, dir, k + 1) != joint(ways, ws, dir, k));
        } else {
            assert(len % len == 0) by {
                vstd::arithmetic::div_mod::lemma_mod_self_0(len);
            }
            assert(0int % len == 0) by {
                vstd::arithmetic::div_mod::lemma_small_mod(0nat, ws.len());
            }
            assert(joint(ways, ws, dir, k + 1) == joint(ways, ws, dir, 0));
            assert(joint(ways, ws, dir, 0) != joint(ways, ws, dir, k));
        }
        assert(nd.first() != last);
        assert(extend_loop(cur, ways[ws[k]]).nodes == cur.nodes + nd.reverse());
    }
    assert(extend_loop(cur, ways[ws[k]]).nodes == ring_nodes(ways, ws, dir, k + 1));
}

/// Consuming the cycle's next way keeps the pending list in shape for the
/// next step of the walk.
proof fn lemma_pending_step(
    ways: Map<u64, WayV>,
    ws: Seq<u64>,
    dir: Seq<bool>,
    k: int,
    pending: Seq<u64>,
    idx: int,
)
    requires
        single_cycle(ways, ws, dir),
        1 <= k < ws.len(),
        no_dup(pending),
        forall|p: int| 0 <= p < pending.len() ==> usable(ways, #[trigger] pending[p]),
        forall|m: int| k <= m < ws.len() ==> pending.contains(#[trigger] ws[m]),
        forall|p: int|
            0 <= p < pending.len() ==> ws.skip(k).contains(#[trigger] pending[p]) || avoids_cycle(
                ways,
                ws,
                dir,
                pending[p],
            ),
        0 <= idx < pending.len(),
        pending[idx] == ws[k],
    ensures
        no_dup(pending.remove(idx)),
        forall|p: int|
            0 <= p < pending.remove(idx).len() ==> usable(ways, #[trigger] pending.remove(idx)[p]),
        forall|m: int| k + 1 <= m < ws.len() ==> pending.remove(idx).contains(#[trigger] ws[m]),
        forall|p: int|
            0 <= p < pending.remove(idx).len() ==> ws.skip(k + 1).contains(
                #[trigger] pending.remove(idx)[p],
            ) || avoids_cycle(ways, ws, dir, pending.remove(idx)[p]),
{
    let pending2 = pending.remove(idx);
    lemma_remove_index(pending, idx);
    assert forall|p: int, q: int|
        0 <= p < q < pending2.len() implies pending2[p] != pending2[q] by {
        let po = if p < idx {
            p
        } else {
            p + 1
        };
        let qo = if q < idx {
            q
        } else {
            q + 1
        };
        assert(pending2[p] == pending[po] && pending2[q] == pending[qo]);
    }
    assert forall|p: int| 0 <= p < pending2.len() implies usable(ways, #[trigger] pending2[p]) by {
        let po = if p < idx {
            p
        } else {
            p + 1
        };
        assert(pending2[p] == pending[po]);
    }
    assert forall|m: int| k + 1 <= m < ws.len() implies pending2.contains(#[trigger] ws[m]) by {
        assert(pending.contains(ws[m]));
        let q = choose|q: int| 0 <= q < pending.len() && pending[q] == ws[m];
        assert(q != idx);
        if q < idx {
            assert(pending2[q] == ws[m]);
        } else {
            assert(pending2[q - 1] == ws[m]);
        }
    }
    assert forall|p: int| 0 <= p < pending2.len() implies ws.skip(k + 1).contains(
        #[trigger] pending2[p],
    ) || avoids_cycle(ways, ws, dir, pending2[p]) by {
        let po = if p < idx {
            p
        } else {
            p + 1
        };
        assert(pending2[p] == pending[po]);
        assert(pending[po] != ws[k]);
        if ws.skip(k).contains(pending[po]) {
            let q = choose|q: int| 0 <= q < ws.skip(k).len() && ws.skip(k)[q] == pending[po];
            assert(ws[k + q] == pending[po]);
            assert(q != 0);
            assert(ws.skip(k + 1)[q - 1] == ws[k + q]);
            assert(ws.skip(k + 1).contains(pending[po]));
        }
    }
}

/// The main walk: with the first `k` segments of a cycle already stitched
/// into the current ring, and the pending list holding exactly the cycle's
/// remaining ways plus ways that sit outside the cycle, greedy chaining
/// first completes the cycle into one closed ring — consuming the cycle's
/// ways in cycle order — and then stitches the outside ways on their own.
#[verifier::rlimit(60)]
pub proof fn lemma_walk(
    ways: Map<u64, WayV>,
    ws: Seq<u64>,
    dir: Seq<bool>,
    k: int,
    pending: Seq<u64>,
    cur: LoopV,
)
    requires
        single_cycle(ways, ws, dir),
        1 <= k <= ws.len(),
        cur.nodes == ring_nodes(ways, ws, dir, k),
        no_dup(pending),
        forall|p: int| 0 <= p < pending.len() ==> usable(ways, #[trigger] pending[p]),
        forall|m: int| k <= m < ws.len() ==> pending.contains(#[trigger] ws[m]),
        forall|p: int|
            0 <= p < pending.len() ==> ws.skip(k).contains(#[trigger] pending[p]) || avoids_cycle(
                ways,
                ws,
                dir,
                pending[p],
            ),
    ensures
        chain_from(ways, pending, cur) == seq![
            LoopV {
                member_type: cur.member_type,
                nodes: ring_nodes(ways, ws, dir, ws.len() as int),
                way_id: if k == ws.len() {
                    cur.way_id
                } else {
                    None
                },
            },
        ] + chain_all(ways, pending.filter(|id: u64| !ws.contains(id))),
    decreases ws.len() - k,
{
    let len = ws.len() as int;
    lemma_ring_nodes_ends(ways, ws, dir, k);
    let last = cur.nodes.last();
    assert(last == joint(ways, ws, dir, k));
    if k == len {
        // Junction `len` is junction 0, and every pending way avoids it.
        assert(len % len == 0) by {
            vstd::arithmetic::div_mod::lemma_mod_self_0(len);
        }
        assert(0int % len == 0) by {
            vstd::arithmetic::div_mod::lemma_small_mod(0nat, ws.len());
        }
        assert(joint(ways, ws, dir, len) == joint(ways, ws, dir, 0));
        assert(ws.skip(len) =~= Seq::<u64>::empty());
        assert forall|j: int| 0 <= j < pending.len() implies !touches(
            last,
            ways[#[trigger] pending[j]],
        ) by {
            assert(!ws.skip(len).contains(pending[j]));
            assert(avoids_cycle(ways, ws, dir, pending[j]));
            assert(!touches(joint(ways, ws, dir, 0), ways[pending[j]]));
        }
        lemma_find_next_none(ways, pending, last);
        let ring = LoopV {
            member_type: cur.member_type,
            nodes: ring_nodes(ways, ws, dir, len),
            way_id: cur.way_id,
        };
        assert(cur == ring);
        if pending.len() == 0 {
            assert(chain_from(ways, pending, cur) == seq![cur]);
            lemma_filter_none(pending, |id: u64| !ws.contains(id));
            assert(seq![ring] + chain_all(ways, Seq::<u64>::empty()) =~= seq![ring]);
        } else {
            assert(chain_from(ways, pending, cur) == seq![cur] + chain_from(
                ways,
                pending.drop_first(),
                seed_loop(ways[pending[0]]),
            ));
            assert forall|p: int| 0 <= p < pending.len() implies !ws.contains(
                #[trigger] pending[p],
            ) by {
                assert(!ws.skip(len).contains(pending[p]));
                assert(avoids_cycle(ways, ws, dir, pending[p]));
            }
            lemma_filter_all(pending, |id: u64| !ws.contains(id));
            assert(chain_all(ways, pending) == chain_from(
                ways,
                pending.drop_first(),
                seed_loop(ways[pending[0]]),
            ));
        }
    } else {
        // The one pending way that touches the ring's last node is the
        // cycle's next segment; greedy chaining picks it and appends it as
        // the cycle's next oriented segment.
        assert(k % len == k) by {
            vstd::arithmetic::div_mod::lemma_small_mod(k as nat, ws.len());
        }
        assert(pending.contains(ws[k]));
        let idx = choose|idx: int| 0 <= idx < pending.len() && pending[idx] == ws[k];
        lemma_touches_cycle_way(ways, ws, dir, k, last);
        assert(touches(last, ways[ws[k]]));
        assert forall|j: int| 0 <= j < idx implies !touches(
            last,
            ways[#[trigger] pending[j]],
        ) by {
            assert(pending[j] != ws[k]);
            lemma_only_next_touches(ways, ws, dir, k, pending[j]);
        }
        lemma_find_next_some(ways, pending, last, idx);
        let cur2 = extend_loop(cur, ways[pending[idx]]);
        assert(chain_from(ways, pending, cur) == chain_from(ways, pending.remove(idx), cur2));
        lemma_extend_matches_segment(ways, ws, dir, k, cur);
        lemma_pending_step(ways, ws, dir, k, pending, idx);
        lemma_walk(ways, ws, dir, k + 1, pending.remove(idx), cur2);
        assert(ws.contains(ws[k]));
        lemma_filter_remove(pending, |id: u64| !ws.contains(id), idx);
    }
}

/// Two sequences with the same multiset hold the same elements.
proof fn lemma_same_multiset_contains(a: Seq<u64>, b: Seq<u64>, x: u64)
    requires
        a.to_multiset() == b.to_multiset(),
        a.contains(x),
    ensures
        b.contains(x),
{
    a.to_multiset_ensures();
    b.to_multiset_ensures();
    assert(a.to_multiset().count(x) > 0);
    assert(b.to_multiset().count(x) > 0);
}

/// Ring closure: a relation whose usable member ways form a single closed
/// polygon — split into arbitrarily ordered, arbitrarily directed segments
/// sharing endpoints — stitches into exactly one ring, whose nodes are the
/// cycle's segments concatenated in order and direction-consistently, and
/// whose first node equals its last node.
///
/// The arrangement `ws`, `dir` exhibits the polygon. It lists the same
/// ways as the stitched ID list `ids` and starts from the first listed way
/// in its forward direction; any closed polygon through that way can be
/// rotated and reflected into this form.
pub proof fn lemma_ring_closure(ways: Map<u64, WayV>, ids: Seq<u64>, ws: Seq<u64>, dir: Seq<bool>)
    requires
        single_cycle(ways, ws, dir),
        no_dup(ids),
        ids.to_multiset() == ws.to_multiset(),
        ids.len() >= 1,
        ws[0] == ids[0],
        dir[0] == true,
    ensures
        chain_all(ways, ids).len() == 1,
        chain_all(ways, ids)[0].nodes == ring_nodes(ways, ws, dir, ws.len() as int),
        chain_all(ways, ids)[0].nodes.first() == chain_all(ways, ids)[0].nodes.last(),
        chain_all(ways, ids)[0].member_type == spec_way_type(ways[ids[0]]),
    decreases 0int,
{
    let len = ws.len() as int;
    ids.to_multiset_ensures();
    ws.to_multiset_ensures();
    assert(ids.len() == ws.len());

    let pending = ids.drop_first();
    let cur = seed_loop(ways[ids[0]]);
    assert(chain_all(ways, ids) == chain_from(ways, pending, cur));

    // The seed ring is the cycle's first segment.
    assert(0int % len == 0) by {
        vstd::arithmetic::div_mod::lemma_small_mod(0nat, ws.len());
    }
    assert(seg(ways, ws, dir, 0) == ways[ws[0]].nd);
    assert(ring_nodes(ways, ws, dir, 0) =~= Seq::<u64>::empty());
    assert(ring_nodes(ways, ws, dir, 1) =~= seg(ways, ws, dir, 0));
    assert(cur.nodes == ring_nodes(ways, ws, dir, 1));

    // The pending list holds exactly the cycle's remaining ways.
    assert forall|m: int| 1 <= m < len implies pending.contains(#[trigger] ws[m]) by {
        assert(ws[m] == ws[m]);
        assert(ws.contains(ws[m]));
        lemma_same_multiset_contains(ws, ids, ws[m]);
        let q = choose|q: int| 0 <= q < ids.len() && ids[q] == ws[m];
        assert(ws[0] != ws[m]);
        assert(q != 0);
        assert(pending[q - 1] == ids[q]);
        assert(pending.contains(ws[m]));
    }
    assert forall|p: int, q: int|
        0 <= p < q < pending.len() implies pending[p] != pending[q] by {
        assert(pending[p] == ids[p + 1] && pending[q] == ids[q + 1]);
    }
    assert forall|p: int| 0 <= p < pending.len() implies usable(
        ways,
        #[trigger] pending[p],
    ) && ws.skip(1).contains(pending[p]) by {
        assert(pending[p] == ids[p + 1]);
        assert(ids.contains(ids[p + 1]));
        lemma_same_multiset_contains(ids, ws, pending[p]);
        let m = choose|m: int| 0 <= m < ws.len() && ws[m] == pending[p];
        assert(usable(ways, ws[m]));
        assert(ids[p + 1] != ids[0]);
        assert(m != 0);
        assert(ws.skip(1)[m - 1] == ws[m]);
        assert(ws.skip(1).contains(pending[p]));
    }
    lemma_walk(ways, ws, dir, 1, pending, cur);

    // Nothing is left over after the cycle closes.
    assert forall|p: int| 0 <= p < pending.len() implies !(!ws.contains(
        #[trigger] pending[p],
    )) by {
        assert(ws.contains(pending[p]));
    }
    lemma_filter_none(pending, |id: u64| !ws.contains(id));
    let ring = LoopV {
        member_type: cur.member_type,
        nodes: ring_nodes(ways, ws, dir, len),
        way_id: if 1 == len {
            cur.way_id
        } else {
            None
        },
    };
    assert(chain_from(ways, pending, cur) =~= seq![ring]);

    // The ring is closed: it starts and ends on junction 0.
    lemma_ring_nodes_ends(ways, ws, dir, len);
    assert(len % len == 0) by {
        vstd::arithmetic::div_mod::lemma_mod_self_0(len);
    }
    assert(joint(ways, ws, dir, len) == joint(ways, ws, dir, 0));
}

/// Ring multiplicity: a relation whose usable member ways form two closed
/// polygons with no shared endpoint node stitches into exactly two rings,
/// each closed. The first polygon's ways are listed before the second's;
/// within each polygon the order and directions are arbitrary.
pub proof fn lemma_ring_multiplicity(
    ways: Map<u64, WayV>,
    ids_a: Seq<u64>,
    ids_b: Seq<u64>,
    ws_a: Seq<u64>,
    dir_a: Seq<bool>,
    ws_b: Seq<u64>,
    dir_b: Seq<bool>,
)
    requires
        single_cycle(ways, ws_a, dir_a),
        single_cycle(ways, ws_b, dir_b),
        no_dup(ids_a + ids_b),
        ids_a.to_multiset() == ws_a.to_multiset(),
        ids_b.to_multiset() == ws_b.to_multiset(),
        ids_a.len() >= 1,
        ids_b.len() >= 1,
        ws_a[0] == ids_a[0],
        dir_a[0] == true,
        ws_b[0] == ids_b[0],
        dir_b[0] == true,
        forall|m: int, n: int|
            0 <= m < ws_a.len() && 0 <= n < ws_b.len() ==> !touches(
                #[trigger] joint(ways, ws_a, dir_a, m),
                ways[#[trigger] ws_b[n]],
            ),
    ensures
        chain_all(ways, ids_a + ids_b).len() == 2,
        chain_all(ways, ids_a + ids_b)[0].nodes.first() == chain_all(ways, ids_a + ids_b)[0].nodes.last(),
        chain_all(ways, ids_a + ids_b)[1].nodes.first() == chain_all(ways, ids_a + ids_b)[1].nodes.last(),
{
    let ids = ids_a + ids_b;
    let len_a = ws_a.len() as int;
    ids_a.to_multiset_ensures();
    ids_b.to_multiset_ensures();
    ws_a.to_multiset_ensures();
    ws_b.to_multiset_ensures();
    assert(ids_a.len() == ws_a.len());
    assert(ids_b.len() == ws_b.len());
    assert(ids[0] == ids_a[0]);

    let pending = ids.drop_first();
    let cur = seed_loop(ways[ids[0]]);
    assert(ids.len() >= 1);
    assert(chain_all(ways, ids) == chain_from(ways, pending, cur));

    // The seed ring is cycle A's first segment.
    assert(0int % len_a == 0) by {
        vstd::arithmetic::div_mod::lemma_small_mod(0nat, ws_a.len());
    }
    assert(seg(ways, ws_a, dir_a, 0) == ways[ws_a[0]].nd);
    assert(ring_nodes(ways, ws_a, dir_a, 0) =~= Seq::<u64>::empty());
    assert(ring_nodes(ways, ws_a, dir_a, 1) =~= seg(ways, ws_a, dir_a, 0));
    assert(cur.nodes == ring_nodes(ways, ws_a, dir_a, 1));

    // The two cycles share no way.
    assert forall|x: u64| ws_a.contains(x) implies !ws_b.contains(x) by {
        if ws_b.contains(x) {
            lemma_same_multiset_contains(ws_a, ids_a, x);
            lemma_same_multiset_contains(ws_b, ids_b, x);
            assert(ids_a.contains(x) && ids_b.contains(x));
            let qa = choose|qa: int| 0 <= qa < ids_a.len() && ids_a[qa] == x;
            let qb = choose|qb: int| 0 <= qb < ids_b.len() && ids_b[qb] == x;
            assert(ids[qa] == x && ids[ids_a.len() + qb] == x);
        }
    }

    // The pending list: cycle A's remaining ways, plus cycle B's ways,
    // which sit outside cycle A entirely.
    assert forall|m: int| 1 <= m < len_a implies pending.contains(#[trigger] ws_a[m]) by {
        assert(ws_a.contains(ws_a[m]));
        lemma_same_multiset_contains(ws_a, ids_a, ws_a[m]);
        let q = choose|q: int| 0 <= q < ids_a.len() && ids_a[q] == ws_a[m];
        assert(ws_a[0] != ws_a[m]);
        assert(ids[q] == ids_a[q]);
        assert(ids_a[0] == ids[0]);
        assert(q != 0);
        assert(pending[q - 1] == ids[q]);
        assert(pending.contains(ws_a[m]));
    }
    assert forall|p: int, q: int|
        0 <= p < q < pending.len() implies pending[p] != pending[q] by {
        assert(pending[p] == ids[p + 1] && pending[q] == ids[q + 1]);
    }
    assert forall|p: int| 0 <= p < pending.len() implies usable(ways, #[trigger] pending[p]) && (
    ws_a.skip(1).contains(pending[p]) || avoids_cycle(ways, ws_a, dir_a, pending[p])) by {
        assert(pending[p] == ids[p + 1]);
        if p + 1 < ids_a.len() {
            assert(pending[p] == ids_a[p + 1]);
            assert(ids_a.contains(pending[p]));
            lemma_same_multiset_contains(ids_a, ws_a, pending[p]);
            let m = choose|m: int| 0 <= m < ws_a.len() && ws_a[m] == pending[p];
            assert(usable(ways, ws_a[m]));
            assert(ids_a[p + 1] != ids_a[0]);
            assert(m != 0);
            assert(ws_a.skip(1)[m - 1] == ws_a[m]);
            assert(ws_a.skip(1).contains(pending[p]));
        } else {
            assert(pending[p] == ids_b[p + 1 - ids_a.len()]);
            assert(ids_b.contains(pending[p]));
            lemma_same_multiset_contains(ids_b, ws_b, pending[p]);
            let n = choose|n: int| 0 <= n < ws_b.len() && ws_b[n] == pending[p];
            assert(usable(ways, ws_b[n]));
            assert(!ws_a.contains(pending[p]));
            assert forall|m: int| 0 <= m < ws_a.len() implies !touches(
                #[trigger] joint(ways, ws_a, dir_a, m),
                ways[pending[p]],
            ) by {
                assert(!touches(joint(ways, ws_a, dir_a, m), ways[ws_b[n]]));
            }
            assert(avoids_cycle(ways, ws_a, dir_a, pending[p]));
        }
    }
    lemma_walk(ways, ws_a, dir_a, 1, pending, cur);

    // What is left over after cycle A closes is exactly cycle B's ways.
    let tail_a = ids_a.drop_first();
    assert(pending =~= tail_a + ids_b);
    Seq::filter_distributes_over_add(tail_a, ids_b, |id: u64| !ws_a.contains(id));
    assert forall|p: int| 0 <= p < tail_a.len() implies !(!ws_a.contains(
        #[trigger] tail_a[p],
    )) by {
        assert(tail_a[p] == ids_a[p + 1]);
        assert(ids_a.contains(ids_a[p + 1]));
        lemma_same_multiset_contains(ids_a, ws_a, tail_a[p]);
    }
    lemma_filter_none(tail_a, |id: u64| !ws_a.contains(id));
    assert forall|p: int| 0 <= p < ids_b.len() implies !ws_a.contains(#[trigger] ids_b[p]) by {
        assert(ids_b.contains(ids_b[p]));
        lemma_same_multiset_contains(ids_b, ws_b, ids_b[p]);
        if ws_a.contains(ids_b[p]) {
            assert(!ws_b.contains(ids_b[p]));
        }
    }
    lemma_filter_all(ids_b, |id: u64| !ws_a.contains(id));
    assert(pending.filter(|id: u64| !ws_a.contains(id)) =~= ids_b);

    // Cycle B stitches into its own single closed ring.
    assert forall|p: int, q: int| 0 <= p < q < ids_b.len() implies ids_b[p] != ids_b[q] by {
        assert(ids[ids_a.len() + p] == ids_b[p] && ids[ids_a.len() + q] == ids_b[q]);
    }
    lemma_ring_closure(ways, ids_b, ws_b, dir_b);

    // Assemble: one ring for each cycle, both closed.
    let ring_a = LoopV {
        member_type: cur.member_type,
        nodes: ring_nodes(ways, ws_a, dir_a, len_a),
        way_id: if 1 == len_a {
            cur.way_id
        } else {
            None
        },
    };
    assert(chain_all(ways, ids) == seq![ring_a] + chain_all(ways, ids_b));
    assert(chain_all(ways, ids_b).len() == 1);
    assert(chain_all(ways, ids).len() == 2);
    assert(chain_all(ways, ids)[0] == ring_a);
    assert(chain_all(ways, ids)[1] == chain_all(ways, ids_b)[0]);
    lemma_ring_nodes_ends(ways, ws_a, dir_a, len_a);
    assert(len_a % len_a == 0) by {
        vstd::arithmetic::div_mod::lemma_mod_self_0(len_a);
    }
    assert(0int % len_a == 0) by {
        vstd::arithmetic::div_mod::lemma_small_mod(0nat, ws_a.len());
    }
    assert(joint(ways, ws_a, dir_a, len_a) == joint(ways, ws_a, dir_a, 0));
}

/// The arrangement rotated left by `r`: positions `r..` first, then `..r`.
pub open spec fn rotate<A>(s: Seq<A>, r: int) -> Seq<A>
    recommends
        0 <= r <= s.len(),
{
    s.skip(r) + s.take(r)
}

/// Rotation keeps the length and the elements, and maps position `k` to
/// position `k + r` around the circle.
proof fn lemma_rotate_basics<A>(s: Seq<A>, r: int)
    requires
        0 <= r <= s.len(),
    ensures
        rotate(s, r).len() == s.len(),
        forall|k: int| 0 <= k < s.len() - r ==> rotate(s, r)[k] == s[k + r],
        forall|k: int| s.len() - r <= k < s.len() ==> rotate(s, r)[k] == s[k + r - s.len()],
        rotate(s, r).to_multiset() == s.to_multiset(),
{
    broadcast use vstd::multiset::group_multiset_axioms;

    vstd::seq_lib::lemma_multiset_commutative(s.skip(r), s.take(r));
    vstd::seq_lib::lemma_multiset_commutative(s.take(r), s.skip(r));
    assert(s.take(r) + s.skip(r) =~= s);
    assert(rotate(s, r).to_multiset() =~= s.to_multiset());
}

/// Around a circle of `len` positions, stepping `r` from `k` lands on
/// `k + r` or wraps to `k + r - len`.
proof fn lemma_index_mod(len: int, k: int, r: int)
    requires
        len >= 1,
        0 <= k < len,
        0 <= r < len,
    ensures
        (k + r) % len == if k + r < len {
            k + r
        } else {
            k + r - len
        },
{
    if k + r < len {
        vstd::arithmetic::div_mod::lemma_small_mod((k + r) as nat, len as nat);
    } else {
        vstd::arithmetic::div_mod::lemma_mod_multiples_vanish(1, k + r - len, len);
        vstd::arithmetic::div_mod::lemma_small_mod((k + r - len) as nat, len as nat);
    }
}

/// Junctions depend on the position around the circle only.
proof fn lemma_joint_mod(ways: Map<u64, WayV>, ws: Seq<u64>, dir: Seq<bool>, a: int, b: int)
    requires
        ws.len() >= 1,
        a % (ws.len() as int) == b % (ws.len() as int),
    ensures
        joint(ways, ws, dir, a) == joint(ways, ws, dir, b),
{
}

/// A rotated cycle arrangement is again a cycle arrangement of the same
/// ways; its junctions are the original junctions, shifted.
/// Position `k` of a rotation by `r` shows position `(k + r) % len` of
/// the original arrangement.
#[verifier::rlimit(100)]
#[verifier::spinoff_prover]
proof fn lemma_rotate_seg_at(ways: Map<u64, WayV>, ws: Seq<u64>, dir: Seq<bool>, r: int, k: int)
    requires
        ws.len() >= 1,
        dir.len() == ws.len(),
        1 <= r < ws.len(),
        0 <= k < ws.len(),
    ensures
        rotate(ws, r).len() == ws.len(),
        rotate(dir, r).len() == ws.len(),
        rotate(ws, r)[k] == ws[(k + r) % (ws.len() as int)],
        rotate(dir, r)[k] == dir[(k + r) % (ws.len() as int)],
        seg(ways, rotate(ws, r), rotate(dir, r), k) == seg(
            ways,
            ws,
            dir,
            (k + r) % (ws.len() as int),
        ),
{
    lemma_rotate_basics(ws, r);
    lemma_rotate_basics(dir, r);
    lemma_index_mod(ws.len() as int, k, r);
}

/// Junction `k` of a rotation by `r` is junction `(k + r) % len` of the
/// original arrangement.
#[verifier::rlimit(100)]
#[verifier::spinoff_prover]
proof fn lemma_rotate_joint_at(ways: Map<u64, WayV>, ws: Seq<u64>, dir: Seq<bool>, r: int, k: int)
    requires
        ws.len() >= 1,
        dir.len() == ws.len(),
        1 <= r < ws.len(),
        0 <= k < ws.len(),
    ensures
        joint(ways, rotate(ws, r), rotate(dir, r), k) == joint(
            ways,
            ws,
            dir,
            (k + r) % (ws.len() as int),
        ),
{
    let len = ws.len() as int;
    lemma_rotate_seg_at(ways, ws, dir, r, k);
    vstd::arithmetic::div_mod::lemma_small_mod(k as nat, len as nat);
    let m = (k + r) % len;
    vstd::arithmetic::div_mod::lemma_small_mod(m as nat, len as nat);
    assert(joint(ways, rotate(ws, r), rotate(dir, r), k) == seg(
        ways,
        rotate(ws, r),
        rotate(dir, r),
        k,
    ).first());
    assert(joint(ways, ws, dir, m) == seg(ways, ws, dir, m).first());
}

/// One step of the chain property, after rotation.
#[verifier::rlimit(100)]
#[verifier::spinoff_prover]
proof fn lemma_rotate_chain_at(ways: Map<u64, WayV>, ws: Seq<u64>, dir: Seq<bool>, r: int, k: int)
    requires
        single_cycle(ways, ws, dir),
        1 <= r < ws.len(),
        0 <= k < ws.len(),
    ensures
        seg(ways, rotate(ws, r), rotate(dir, r), k).last() == joint(
            ways,
            rotate(ws, r),
            rotate(dir, r),
            k + 1,
        ),
{
    let len = ws.len() as int;
    let ws2 = rotate(ws, r);
    let dir2 = rotate(dir, r);
    lemma_rotate_seg_at(ways, ws, dir, r, k);
    let m = (k + r) % len;
    assert(seg(ways, ws2, dir2, k).last() == seg(ways, ws, dir, m).last());
    assert(seg(ways, ws, dir, m).last() == joint(ways, ws, dir, m + 1));
    if k + 1 < len {
        lemma_rotate_joint_at(ways, ws, dir, r, k + 1);
        assert((m + 1) % len == (k + 1 + r) % len) by {
            vstd::arithmetic::div_mod::lemma_add_mod_noop(k + r, 1, len);
            vstd::arithmetic::div_mod::lemma_mod_twice(k + r, len);
            vstd::arithmetic::div_mod::lemma_small_mod(1nat, len as nat);
        }
        assert(((k + 1 + r) % len) % len == (k + 1 + r) % len) by {
            vstd::arithmetic::div_mod::lemma_mod_twice(k + 1 + r, len);
        }
        lemma_joint_mod(ways, ws, dir, m + 1, (k + 1 + r) % len);
    } else {
        assert(k == len - 1);
        lemma_index_mod(len, k, r);
        assert(m == r - 1);
        assert(joint(ways, ws2, dir2, k + 1) == joint(ways, ws2, dir2, 0)) by {
            vstd::arithmetic::div_mod::lemma_mod_self_0(len);
            vstd::arithmetic::div_mod::lemma_small_mod(0nat, len as nat);
            lemma_joint_mod(ways, ws2, dir2, len, 0);
        }
        lemma_rotate_joint_at(ways, ws, dir, r, 0);
        vstd::arithmetic::div_mod::lemma_small_mod(r as nat, len as nat);
        assert(joint(ways, ws2, dir2, 0) == joint(ways, ws, dir, r));
        assert(joint(ways, ws, dir, m + 1) == joint(ways, ws, dir, r));
    }
}

/// A rotated cycle arrangement is again a cycle arrangement of the same
/// ways, starting from the way at the rotation point.
#[verifier::rlimit(100)]
#[verifier::spinoff_prover]
proof fn lemma_cycle_rotate(ways: Map<u64, WayV>, ws: Seq<u64>, dir: Seq<bool>, r: int)
    requires
        single_cycle(ways, ws, dir),
        0 <= r < ws.len(),
    ensures
        single_cycle(ways, rotate(ws, r), rotate(dir, r)),
        rotate(ws, r).to_multiset() == ws.to_multiset(),
        rotate(ws, r)[0] == ws[r],
        rotate(dir, r)[0] == dir[r],
        joints_among(ways, rotate(ws, r), rotate(dir, r), ws, dir),
{
    let len = ws.len() as int;
    let ws2 = rotate(ws, r);
    let dir2 = rotate(dir, r);
    lemma_rotate_basics(ws, r);
    lemma_rotate_basics(dir, r);
    if r == 0 {
        assert(ws2 =~= ws);
        assert(dir2 =~= dir);
        assert forall|k: int| 0 <= k < ws2.len() implies is_joint(
            ways,
            ws,
            dir,
            #[trigger] joint(ways, ws2, dir2, k),
        ) by {
            assert(joint(ways, ws2, dir2, k) == joint(ways, ws, dir, k));
        }
        return ;
    }
    assert forall|k: int| 0 <= k < ws2.len() implies is_joint(
        ways,
        ws,
        dir,
        #[trigger] joint(ways, ws2, dir2, k),
    ) by {
        lemma_rotate_joint_at(ways, ws, dir, r, k);
        assert(0 <= (k + r) % len < len);
        assert(joint(ways, ws2, dir2, k) == joint(ways, ws, dir, (k + r) % len));
    }
    assert forall|k: int| 0 <= k < len implies usable(ways, #[trigger] ws2[k]) by {
        lemma_rotate_seg_at(ways, ws, dir, r, k);
    }
    assert forall|k: int, l: int| 0 <= k < l < len implies ws2[k] != ws2[l] by {
        lemma_rotate_seg_at(ways, ws, dir, r, k);
        lemma_rotate_seg_at(ways, ws, dir, r, l);
        lemma_index_mod(len, k, r);
        lemma_index_mod(len, l, r);
    }
    assert forall|k: int| 0 <= k < len implies (#[trigger] seg(ways, ws2, dir2, k)).last()
        == joint(ways, ws2, dir2, k + 1) by {
        lemma_rotate_chain_at(ways, ws, dir, r, k);
    }
    assert forall|k: int, l: int|
        0 <= k < l < len implies #[trigger] joint(ways, ws2, dir2, k) != #[trigger] joint(
        ways,
        ws2,
        dir2,
        l,
    ) by {
        lemma_rotate_joint_at(ways, ws, dir, r, k);
        lemma_rotate_joint_at(ways, ws, dir, r, l);
        lemma_index_mod(len, k, r);
        lemma_index_mod(len, l, r);
        let mk = (k + r) % len;
        let ml = (l + r) % len;
        assert(mk != ml);
        if mk < ml {
            assert(joint(ways, ws, dir, mk) != joint(ways, ws, dir, ml));
        } else {
            assert(joint(ways, ws, dir, ml) != joint(ways, ws, dir, mk));
        }
    }
}

/// The reflection of an arrangement: the same first way, then the rest in
/// reverse order, every direction flipped. It walks the same polygon the
/// other way around.
pub open spec fn reflect_ws(ws: Seq<u64>) -> Seq<u64>
    recommends
        ws.len() >= 1,
{
    Seq::new(
        ws.len(),
        |k: int|
            if k == 0 {
                ws[0]
            } else {
                ws[ws.len() - k]
            },
    )
}

/// The directions of the reflected arrangement.
pub open spec fn reflect_dir(dir: Seq<bool>) -> Seq<bool>
    recommends
        dir.len() >= 1,
{
    Seq::new(
        dir.len(),
        |k: int|
            if k == 0 {
                !dir[0]
            } else {
                !dir[dir.len() - k]
            },
    )
}

/// Position `k` of the reflection shows the matching original segment,
/// reversed; it starts on that segment's end junction.
#[verifier::rlimit(100)]
#[verifier::spinoff_prover]
proof fn lemma_reflect_seg_at(ways: Map<u64, WayV>, ws: Seq<u64>, dir: Seq<bool>, k: int)
    requires
        single_cycle(ways, ws, dir),
        0 <= k < ws.len(),
    ensures
        reflect_ws(ws).len() == ws.len(),
        reflect_dir(dir).len() == ws.len(),
        reflect_ws(ws)[k] == ws[if k == 0 {
            0int
        } else {
            ws.len() - k
        }],
        seg(ways, reflect_ws(ws), reflect_dir(dir), k) == seg(
            ways,
            ws,
            dir,
            if k == 0 {
                0int
            } else {
                ws.len() - k
            },
        ).reverse(),
        joint(ways, reflect_ws(ws), reflect_dir(dir), k) == joint(
            ways,
            ws,
            dir,
            (if k == 0 {
                0int
            } else {
                ws.len() - k
            }) + 1,
        ),
{
    let len = ws.len() as int;
    let ws2 = reflect_ws(ws);
    let dir2 = reflect_dir(dir);
    let m = if k == 0 {
        0int
    } else {
        len - k
    };
    assert(usable(ways, ws[m]));
    let nd = ways[ws[m]].nd;
    if dir[m] {
        assert(seg(ways, ws, dir, m) == nd);
        assert(seg(ways, ws2, dir2, k) == nd.reverse());
    } else {
        assert(seg(ways, ws, dir, m) == nd.reverse());
        assert(seg(ways, ws2, dir2, k) == nd);
        assert(nd.reverse().reverse() =~= nd);
    }
    vstd::arithmetic::div_mod::lemma_small_mod(k as nat, len as nat);
    assert(seg(ways, ws2, dir2, k).first() == seg(ways, ws, dir, m).reverse().first());
    assert(seg(ways, ws, dir, m).reverse().first() == seg(ways, ws, dir, m).last());
    assert(seg(ways, ws, dir, m).last() == joint(ways, ws, dir, m + 1));
}

/// The chain property survives reflection: walked backwards, every
/// reflected segment still ends where the next begins.
#[verifier::rlimit(100)]
#[verifier::spinoff_prover]
proof fn lemma_reflect_chain_at(ways: Map<u64, WayV>, ws: Seq<u64>, dir: Seq<bool>, k: int)
    requires
        single_cycle(ways, ws, dir),
        0 <= k < ws.len(),
    ensures
        seg(ways, reflect_ws(ws), reflect_dir(dir), k).last() == joint(
            ways,
            reflect_ws(ws),
            reflect_dir(dir),
            k + 1,
        ),
{
    let len = ws.len() as int;
    let ws2 = reflect_ws(ws);
    let dir2 = reflect_dir(dir);
    let m = if k == 0 {
        0int
    } else {
        len - k
    };
    assert(len % len == 0) by {
        vstd::arithmetic::div_mod::lemma_mod_self_0(len);
    }
    assert(0int % len == 0) by {
        vstd::arithmetic::div_mod::lemma_small_mod(0nat, len as nat);
    }
    lemma_reflect_seg_at(ways, ws, dir, k);
    assert(usable(ways, ws[m]));
    assert(seg(ways, ws2, dir2, k).last() == seg(ways, ws, dir, m).reverse().last());
    assert(seg(ways, ws, dir, m).reverse().last() == seg(ways, ws, dir, m).first());
    vstd::arithmetic::div_mod::lemma_small_mod(m as nat, len as nat);
    assert(seg(ways, ws, dir, m).first() == joint(ways, ws, dir, m));
    if k + 1 < len {
        lemma_reflect_seg_at(ways, ws, dir, k + 1);
        let m1 = if k + 1 == 0 {
            0int
        } else {
            len - (k + 1)
        };
        assert(joint(ways, ws2, dir2, k + 1) == joint(ways, ws, dir, m1 + 1));
        assert(m1 + 1 == len - k);
        if k == 0 {
            // junction `len` is junction 0
            lemma_joint_mod(ways, ws, dir, len, 0);
        }
    } else {
        assert(k == len - 1);
        assert(m == 1 || len == 1);
        lemma_joint_mod(ways, ws2, dir2, len, 0);
        lemma_reflect_seg_at(ways, ws, dir, 0);
        assert(joint(ways, ws2, dir2, 0) == joint(ways, ws, dir, 1));
        if len == 1 {
            lemma_joint_mod(ways, ws, dir, 1, 0);
            lemma_joint_mod(ways, ws, dir, 0, 1);
        }
    }
}

/// Junction distinctness survives reflection: the junction map is
/// injective around the circle.
#[verifier::rlimit(100)]
#[verifier::spinoff_prover]
proof fn lemma_reflect_distinct_at(
    ways: Map<u64, WayV>,
    ws: Seq<u64>,
    dir: Seq<bool>,
    k: int,
    l: int,
)
    requires
        single_cycle(ways, ws, dir),
        0 <= k < l < ws.len(),
    ensures
        joint(ways, reflect_ws(ws), reflect_dir(dir), k) != joint(
            ways,
            reflect_ws(ws),
            reflect_dir(dir),
            l,
        ),
{
    let len = ws.len() as int;
    let src = |k: int|
        if k == 0 {
            0int
        } else {
            len - k
        };
    lemma_reflect_seg_at(ways, ws, dir, k);
    lemma_reflect_seg_at(ways, ws, dir, l);
    let jk = if src(k) + 1 == len {
        0int
    } else {
        src(k) + 1
    };
    let jl = if src(l) + 1 == len {
        0int
    } else {
        src(l) + 1
    };
    assert(len % len == 0) by {
        vstd::arithmetic::div_mod::lemma_mod_self_0(len);
    }
    assert(0int % len == 0) by {
        vstd::arithmetic::div_mod::lemma_small_mod(0nat, len as nat);
    }
    lemma_joint_mod(ways, ws, dir, src(k) + 1, jk);
    lemma_joint_mod(ways, ws, dir, src(l) + 1, jl);
    assert(jk != jl);
    if jk < jl {
        assert(joint(ways, ws, dir, jk) != joint(ways, ws, dir, jl));
    } else {
        assert(joint(ways, ws, dir, jl) != joint(ways, ws, dir, jk));
    }
}

/// A reflected cycle arrangement is again a cycle arrangement of the same
/// ways, starting from the same way in the opposite direction.
#[verifier::rlimit(100)]
#[verifier::spinoff_prover]
proof fn lemma_cycle_reflect(ways: Map<u64, WayV>, ws: Seq<u64>, dir: Seq<bool>)
    requires
        single_cycle(ways, ws, dir),
    ensures
        single_cycle(ways, reflect_ws(ws), reflect_dir(dir)),
        reflect_ws(ws).to_multiset() == ws.to_multiset(),
        reflect_ws(ws)[0] == ws[0],
        reflect_dir(dir)[0] == !dir[0],
        joints_among(ways, reflect_ws(ws), reflect_dir(dir), ws, dir),
{
    let len = ws.len() as int;
    let ws2 = reflect_ws(ws);
    let dir2 = reflect_dir(dir);
    let src = |k: int|
        if k == 0 {
            0int
        } else {
            len - k
        };

    assert(len % len == 0) by {
        vstd::arithmetic::div_mod::lemma_mod_self_0(len);
    }
    assert(0int % len == 0) by {
        vstd::arithmetic::div_mod::lemma_small_mod(0nat, len as nat);
    }

    assert forall|k: int| 0 <= k < len implies is_joint(
        ways,
        ws,
        dir,
        #[trigger] joint(ways, ws2, dir2, k),
    ) by {
        lemma_reflect_seg_at(ways, ws, dir, k);
        let t = src(k) + 1;
        assert(joint(ways, ws2, dir2, k) == joint(ways, ws, dir, t));
        if t == len {
            lemma_joint_mod(ways, ws, dir, t, 0);
            assert(joint(ways, ws2, dir2, k) == joint(ways, ws, dir, 0));
        }
    }
    assert forall|k: int| 0 <= k < len implies usable(ways, #[trigger] ws2[k]) by {
        lemma_reflect_seg_at(ways, ws, dir, k);
    }
    assert forall|k: int, l: int| 0 <= k < l < len implies ws2[k] != ws2[l] by {
        lemma_reflect_seg_at(ways, ws, dir, k);
        lemma_reflect_seg_at(ways, ws, dir, l);
        assert(src(k) != src(l));
        if src(k) < src(l) {
            assert(ws[src(k)] != ws[src(l)]);
        } else {
            assert(ws[src(l)] != ws[src(k)]);
        }
    }
    assert forall|k: int| 0 <= k < len implies (#[trigger] seg(ways, ws2, dir2, k)).last()
        == joint(ways, ws2, dir2, k + 1) by {
        lemma_reflect_chain_at(ways, ws, dir, k);
    }
    assert forall|k: int, l: int|
        0 <= k < l < len implies #[trigger] joint(ways, ws2, dir2, k) != #[trigger] joint(
        ways,
        ws2,
        dir2,
        l,
    ) by {
        lemma_reflect_distinct_at(ways, ws, dir, k, l);
    }

    // The reflection is a permutation: the first way, then the rest
    // reversed.
    assert(ws2 =~= seq![ws[0]] + ws.skip(1).reverse());
    vstd::seq_lib::lemma_multiset_commutative(seq![ws[0]], ws.skip(1).reverse());
    ws.skip(1).lemma_reverse_to_multiset();
    assert(ws =~= seq![ws[0]] + ws.skip(1));
    vstd::seq_lib::lemma_multiset_commutative(seq![ws[0]], ws.skip(1));
    assert(ws2.to_multiset() =~= ws.to_multiset());
}

/// Every cycle arrangement can be normalized to start at any of its ways,
/// walked in that way's forward direction: rotate the circle, and reflect
/// it when the walk runs against that way's node order. The returned pair
/// is the normalized arrangement.
pub proof fn lemma_cycle_normalize(ways: Map<u64, WayV>, ws: Seq<u64>, dir: Seq<bool>, x: u64) -> (
    res: (Seq<u64>, Seq<bool>))
    requires
        single_cycle(ways, ws, dir),
        ws.contains(x),
    ensures
        single_cycle(ways, res.0, res.1),
        res.0.to_multiset() == ws.to_multiset(),
        res.0[0] == x,
        res.1[0] == true,
        joints_among(ways, res.0, res.1, ws, dir),
{
    let r = choose|r: int| 0 <= r < ws.len() && ws[r] == x;
    lemma_cycle_rotate(ways, ws, dir, r);
    let ws1 = rotate(ws, r);
    let dir1 = rotate(dir, r);
    if dir1[0] {
        (ws1, dir1)
    } else {
        lemma_cycle_reflect(ways, ws1, dir1);
        let ws2 = reflect_ws(ws1);
        let dir2 = reflect_dir(dir1);
        assert forall|k: int| 0 <= k < ws2.len() implies is_joint(
            ways,
            ws,
            dir,
            #[trigger] joint(ways, ws2, dir2, k),
        ) by {
            assert(joints_among(ways, ws2, dir2, ws1, dir1));
            assert(is_joint(ways, ws1, dir1, joint(ways, ws2, dir2, k)));
            let m1 = choose|m1: int|
                0 <= m1 < ws1.len() && joint(ways, ws2, dir2, k) == joint(ways, ws1, dir1, m1);
            assert(joints_among(ways, ws1, dir1, ws, dir));
            assert(is_joint(ways, ws, dir, joint(ways, ws1, dir1, m1)));
            let m2 = choose|m2: int|
                0 <= m2 < ws.len() && joint(ways, ws1, dir1, m1) == joint(ways, ws, dir, m2);
            assert(joint(ways, ws2, dir2, k) == joint(ways, ws, dir, m2));
        }
        (ws2, dir2)
    }
}

/// Is this node one of the arrangement's junctions?
pub open spec fn is_joint(ways: Map<u64, WayV>, ws: Seq<u64>, dir: Seq<bool>, n: u64) -> bool {
    exists|m: int| 0 <= m < ws.len() && n == #[trigger] joint(ways, ws, dir, m)
}

/// Every junction of the normalized arrangement is a junction of the
/// original one: rotation shifts the junctions around the circle and
/// reflection re-reads them backwards, but neither invents a node.
pub open spec fn joints_among(
    ways: Map<u64, WayV>,
    ws2: Seq<u64>,
    dir2: Seq<bool>,
    ws: Seq<u64>,
    dir: Seq<bool>,
) -> bool {
    forall|k: int|
        0 <= k < ws2.len() ==> is_joint(ways, ws, dir, #[trigger] joint(ways, ws2, dir2, k))
}

/// Ring closure, from any exhibited arrangement: a relation's usable
/// member ways that form a single closed polygon — split into arbitrarily
/// ordered, arbitrarily directed segments sharing endpoints — stitch into
/// exactly one ring, closed, in the seed way's category. The arrangement
/// is rotated and reflected internally to start at the stitching's seed
/// way; the returned pair is that normalized arrangement, whose segment
/// concatenation is the ring's node sequence.
pub proof fn lemma_ring_closure_general(
    ways: Map<u64, WayV>,
    ids: Seq<u64>,
    ws: Seq<u64>,
    dir: Seq<bool>,
) -> (res: (Seq<u64>, Seq<bool>))
    requires
        single_cycle(ways, ws, dir),
        no_dup(ids),
        ids.to_multiset() == ws.to_multiset(),
        ids.len() >= 1,
    ensures
        single_cycle(ways, res.0, res.1),
        res.0.to_multiset() == ws.to_multiset(),
        res.0[0] == ids[0],
        res.1[0] == true,
        joints_among(ways, res.0, res.1, ws, dir),
        chain_all(ways, ids).len() == 1,
        chain_all(ways, ids)[0].nodes == ring_nodes(ways, res.0, res.1, res.0.len() as int),
        chain_all(ways, ids)[0].nodes.first() == chain_all(ways, ids)[0].nodes.last(),
        chain_all(ways, ids)[0].member_type == spec_way_type(ways[ids[0]]),
{
    assert(ids.contains(ids[0]));
    lemma_same_multiset_contains(ids, ws, ids[0]);
    let (ws2, dir2) = lemma_cycle_normalize(ways, ws, dir, ids[0]);
    ids.to_multiset_ensures();
    ws.to_multiset_ensures();
    ws2.to_multiset_ensures();
    lemma_ring_closure(ways, ids, ws2, dir2);
    (ws2, dir2)
}

/// Ring multiplicity, from any exhibited arrangements: a relation whose
/// usable member ways form two closed polygons sharing no junction node —
/// the first polygon's ways listed before the second's — stitches into
/// exactly two rings, each closed. Both arrangements are normalized
/// internally.
pub proof fn lemma_ring_multiplicity_general(
    ways: Map<u64, WayV>,
    ids_a: Seq<u64>,
    ids_b: Seq<u64>,
    ws_a: Seq<u64>,
    dir_a: Seq<bool>,
    ws_b: Seq<u64>,
    dir_b: Seq<bool>,
)
    requires
        single_cycle(ways, ws_a, dir_a),
        single_cycle(ways, ws_b, dir_b),
        no_dup(ids_a + ids_b),
        ids_a.to_multiset() == ws_a.to_multiset(),
        ids_b.to_multiset() == ws_b.to_multiset(),
        ids_a.len() >= 1,
        ids_b.len() >= 1,
        forall|m: int, n: int|
            0 <= m < ws_a.len() && 0 <= n < ws_b.len() ==> !touches(
                #[trigger] joint(ways, ws_a, dir_a, m),
                ways[#[trigger] ws_b[n]],
            ),
    ensures
        chain_all(ways, ids_a + ids_b).len() == 2,
        chain_all(ways, ids_a + ids_b)[0].nodes.first() == chain_all(
            ways,
            ids_a + ids_b,
        )[0].nodes.last(),
        chain_all(ways, ids_a + ids_b)[1].nodes.first() == chain_all(
            ways,
            ids_a + ids_b,
        )[1].nodes.last(),
{
    assert(ids_a.contains(ids_a[0]));
    lemma_same_multiset_contains(ids_a, ws_a, ids_a[0]);
    let (ws_a2, dir_a2) = lemma_cycle_normalize(ways, ws_a, dir_a, ids_a[0]);
    assert(ids_b.contains(ids_b[0]));
    lemma_same_multiset_contains(ids_b, ws_b, ids_b[0]);
    let (ws_b2, dir_b2) = lemma_cycle_normalize(ways, ws_b, dir_b, ids_b[0]);

    // The normalized arrangements still share no junction node: every
    // normalized junction of the first polygon is an original one, and
    // every way of the normalized second polygon is an original one.
    assert forall|m: int, n: int|
        0 <= m < ws_a2.len() && 0 <= n < ws_b2.len() implies !touches(
        #[trigger] joint(ways, ws_a2, dir_a2, m),
        ways[#[trigger] ws_b2[n]],
    ) by {
        assert(is_joint(ways, ws_a, dir_a, joint(ways, ws_a2, dir_a2, m)));
        let m2 = choose|m2: int|
            0 <= m2 < ws_a.len() && joint(ways, ws_a2, dir_a2, m) == joint(ways, ws_a, dir_a, m2);
        assert(ws_b2.contains(ws_b2[n]));
        lemma_same_multiset_contains(ws_b2, ws_b, ws_b2[n]);
        let n2 = choose|n2: int| 0 <= n2 < ws_b.len() && ws_b[n2] == ws_b2[n];
        assert(!touches(joint(ways, ws_a, dir_a, m2), ways[ws_b[n2]]));
    }
    lemma_ring_multiplicity(ways, ids_a, ids_b, ws_a2, dir_a2, ws_b2, dir_b2);
}

/// Ring closure, stated for a relation: when the relation's usable member
/// ways form a single closed polygon — exhibited by any cycle arrangement,
/// in any order and directions — ring reconstruction yields exactly one
/// ring, and that ring is closed.
pub proof fn lemma_relation_ring_closure(
    rel: crate::RelationV,
    ways: Map<u64, WayV>,
    ws: Seq<u64>,
    dir: Seq<bool>,
)
    requires
        single_cycle(ways, ws, dir),
        collect_ids(rel.member, ways).to_multiset() == ws.to_multiset(),
        collect_ids(rel.member, ways).len() >= 1,
    ensures
        spec_extract_loops(rel, ways).len() == 1,
        spec_extract_loops(rel, ways)[0].nodes.first() == spec_extract_loops(
            rel,
            ways,
        )[0].nodes.last(),
{
    let ids = collect_ids(rel.member, ways);
    lemma_collect_ids_usable(rel.member, ways);
    lemma_ring_closure_general(ways, ids, ws, dir);
}

/// Ring multiplicity, stated for a relation: when the relation's usable
/// member ways form two closed polygons sharing no junction node — each
/// exhibited by any cycle arrangement, the first polygon's ways listed
/// before the second's — ring reconstruction yields exactly two rings,
/// each closed.
pub proof fn lemma_relation_ring_multiplicity(
    rel: crate::RelationV,
    ways: Map<u64, WayV>,
    ids_a: Seq<u64>,
    ids_b: Seq<u64>,
    ws_a: Seq<u64>,
    dir_a: Seq<bool>,
    ws_b: Seq<u64>,
    dir_b: Seq<bool>,
)
    requires
        single_cycle(ways, ws_a, dir_a),
        single_cycle(ways, ws_b, dir_b),
        collect_ids(rel.member, ways) == ids_a + ids_b,
        ids_a.to_multiset() == ws_a.to_multiset(),
        ids_b.to_multiset() == ws_b.to_multiset(),
        ids_a.len() >= 1,
        ids_b.len() >= 1,
        forall|m: int, n: int|
            0 <= m < ws_a.len() && 0 <= n < ws_b.len() ==> !touches(
                #[trigger] joint(ways, ws_a, dir_a, m),
                ways[#[trigger] ws_b[n]],
            ),
    ensures
        spec_extract_loops(rel, ways).len() == 2,
        spec_extract_loops(rel, ways)[0].nodes.first() == spec_extract_loops(
            rel,
            ways,
        )[0].nodes.last(),
        spec_extract_loops(rel, ways)[1].nodes.first() == spec_extract_loops(
            rel,
            ways,
        )[1].nodes.last(),
{
    lemma_collect_ids_usable(rel.member, ways);
    lemma_ring_multiplicity_general(ways, ids_a, ids_b, ws_a, dir_a, ws_b, dir_b);
}

} // verus!

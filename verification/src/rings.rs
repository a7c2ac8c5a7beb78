//! Ring reconstructor: stitches a relation's member ways — disjoint,
//! arbitrarily ordered, possibly reversed line segments — into one or more
//! node-ID rings ready for fill or stroke rendering.
//!
//! The algorithm chains greedily: a ring starts from the first usable
//! member way and repeatedly appends the first not-yet-consumed way that
//! touches the ring's last node (reversing the way when it touches with its
//! far end). When no way touches, the ring is complete and a new one starts
//! from the first way still pending. Both choices take the *first*
//! candidate in member order: any deterministic tie-break is acceptable,
//! and this one makes rendering reproducible across runs.
//!
//! Member references that resolve to no way, members of other kinds, and
//! degenerate ways with fewer than two node references are skipped
//! silently; a relation with no usable member way yields no rings at all.

use vstd::prelude::*;

use crate::classify::{check_way_type, spec_way_type};
use crate::{LoopV, LoopWithType, MemberV, Relation, RelationV, Way, WayV};

verus! {

broadcast use vstd::std_specs::hash::group_hash_axioms;

/// Can this way take part in ring stitching: does the ID resolve, and has
/// the way the two endpoints the chaining step reads?
pub open spec fn usable(ways: Map<u64, WayV>, id: u64) -> bool {
    ways.contains_key(id) && ways[id].nd.len() >= 2
}

/// The view of an ID-to-way lookup table.
pub open spec fn ways_map_view(m: Map<u64, Way>) -> Map<u64, WayV> {
    Map::new(|k: u64| m.contains_key(k), |k: u64| m[k]@)
}

/// The IDs of the relation's usable `way`-kind members, in member order,
/// first occurrence only.
pub open spec fn collect_ids(members: Seq<MemberV>, ways: Map<u64, WayV>) -> Seq<u64>
    decreases members.len(),
{
    if members.len() == 0 {
        Seq::<u64>::empty()
    } else {
        let rest = collect_ids(members.drop_last(), ways);
        let m = members.last();
        if m.member_type == "way"@ && usable(ways, m.member_ref) && !rest.contains(m.member_ref) {
            rest.push(m.member_ref)
        } else {
            rest
        }
    }
}

/// Does the way touch this node with either endpoint?
pub open spec fn touches(node: u64, w: WayV) -> bool {
    w.nd.first() == node || w.nd.last() == node
}

/// The position of the first pending way that touches `node`, if any.
pub open spec fn find_next(ways: Map<u64, WayV>, pending: Seq<u64>, node: u64) -> Option<int>
    decreases pending.len(),
{
    if pending.len() == 0 {
        None
    } else if touches(node, ways[pending[0]]) {
        Some(0int)
    } else {
        match find_next(ways, pending.drop_first(), node) {
            Some(i) => Some(i + 1),
            None => None,
        }
    }
}

/// A fresh ring holding exactly the seed way: its nodes in original order,
/// its category, and its ID — the ID is kept only while the ring is this
/// single way.
pub open spec fn seed_loop(w: WayV) -> LoopV {
    LoopV { member_type: spec_way_type(w), nodes: w.nd, way_id: Some(w.id) }
}

/// The ring extended by one way: the way's nodes are appended in the
/// direction that keeps the ring contiguous, and the ring is no longer a
/// single unmodified way, so it loses its originating way ID.
pub open spec fn extend_loop(l: LoopV, w: WayV) -> LoopV {
    let seg = if w.nd.first() == l.nodes.last() {
        w.nd
    } else {
        w.nd.reverse()
    };
    LoopV { member_type: l.member_type, nodes: l.nodes + seg, way_id: None }
}

/// Stitch every pending way into rings, continuing the current ring:
/// append the first pending way that touches the ring's last node; when
/// none does, the ring is complete and the first way still pending seeds
/// the next one.
pub open spec fn chain_from(ways: Map<u64, WayV>, pending: Seq<u64>, cur: LoopV) -> Seq<LoopV>
    decreases pending.len(),
{
    if pending.len() == 0 {
        seq![cur]
    } else {
        match find_next(ways, pending, cur.nodes.last()) {
            Some(i) => {
                if 0 <= i < pending.len() {
                    chain_from(ways, pending.remove(i), extend_loop(cur, ways[pending[i]]))
                } else {
                    // never reached: find_next stays in range
                    seq![cur]
                }
            },
            None => seq![cur] + chain_from(
                ways,
                pending.drop_first(),
                seed_loop(ways[pending[0]]),
            ),
        }
    }
}

/// Stitch a list of way IDs into rings from a standing start: the first
/// ID seeds the first ring; an empty list yields no rings.
pub open spec fn chain_all(ways: Map<u64, WayV>, ids: Seq<u64>) -> Seq<LoopV> {
    if ids.len() == 0 {
        Seq::<LoopV>::empty()
    } else {
        chain_from(ways, ids.drop_first(), seed_loop(ways[ids[0]]))
    }
}

/// The rings of a relation: its usable member ways stitched greedily, in
/// member order; no usable member way means no rings.
pub open spec fn spec_extract_loops(rel: RelationV, ways: Map<u64, WayV>) -> Seq<LoopV> {
    chain_all(ways, collect_ids(rel.member, ways))
}

/// Every collected ID is usable, and the collected IDs are distinct.
pub proof fn lemma_collect_ids_usable(members: Seq<MemberV>, ways: Map<u64, WayV>)
    ensures
        forall|k: int|
            0 <= k < collect_ids(members, ways).len() ==> usable(
                ways,
                #[trigger] collect_ids(members, ways)[k],
            ),
        forall|k: int, l: int|
            0 <= k < l < collect_ids(members, ways).len() ==> collect_ids(members, ways)[k]
                != collect_ids(members, ways)[l],
    decreases members.len(),
{
    if members.len() > 0 {
        lemma_collect_ids_usable(members.drop_last(), ways);
        let rest = collect_ids(members.drop_last(), ways);
        let m = members.last();
        if m.member_type == "way"@ && usable(ways, m.member_ref) && !rest.contains(m.member_ref) {
            assert(collect_ids(members, ways) == rest.push(m.member_ref));
            assert forall|k: int, l: int|
                0 <= k < l < collect_ids(members, ways).len() implies collect_ids(members, ways)[k]
                != collect_ids(members, ways)[l] by {
                if l == rest.len() {
                    assert(rest[k] == collect_ids(members, ways)[k]);
                    assert(!rest.contains(m.member_ref));
                }
            }
        }
    }
}

/// `find_next` returns the first touching position.
pub proof fn lemma_find_next_some(ways: Map<u64, WayV>, pending: Seq<u64>, node: u64, i: int)
    requires
        0 <= i < pending.len(),
        touches(node, ways[pending[i]]),
        forall|j: int| 0 <= j < i ==> !touches(node, ways[#[trigger] pending[j]]),
    ensures
        find_next(ways, pending, node) == Some(i),
    decreases pending.len(),
{
    if i == 0 {
        assert(touches(node, ways[pending[0]]));
    } else {
        assert(!touches(node, ways[pending[0]]));
        let rest = pending.drop_first();
        assert forall|j: int| 0 <= j < i - 1 implies !touches(node, ways[#[trigger] rest[j]]) by {
            assert(rest[j] == pending[j + 1]);
        }
        assert(rest[i - 1] == pending[i]);
        lemma_find_next_some(ways, rest, node, i - 1);
    }
}

/// When no pending way touches the node, `find_next` finds none.
pub proof fn lemma_find_next_none(ways: Map<u64, WayV>, pending: Seq<u64>, node: u64)
    requires
        forall|j: int| 0 <= j < pending.len() ==> !touches(node, ways[#[trigger] pending[j]]),
    ensures
        find_next(ways, pending, node) == None::<int>,
    decreases pending.len(),
{
    if pending.len() > 0 {
        let rest = pending.drop_first();
        assert forall|j: int| 0 <= j < rest.len() implies !touches(node, ways[#[trigger] rest[j]])
            by {
            assert(rest[j] == pending[j + 1]);
        }
        lemma_find_next_none(ways, rest, node);
    }
}

/// Append a way's node IDs to the ring in original order.
#[verifier::loop_isolation(false)]
fn append_forward(cur: &mut LoopWithType, w: &Way)
    ensures
        final(cur)@.nodes == old(cur)@.nodes + w@.nd,
        final(cur)@.member_type == old(cur)@.member_type,
        final(cur)@.way_id == old(cur)@.way_id,
{
    let ghost base = cur@.nodes;
    let mut j: usize = 0;
    while j < w.nd.len()
        invariant
            0 <= j <= w.nd.len(),
            cur.memeber_loop@ =~= base + w@.nd.take(j as int),
            cur.member_type == old(cur).member_type,
            cur.way_id == old(cur).way_id,
        decreases w.nd.len() - j,
    {
        proof {
            assert(w@.nd[j as int] == w.nd@[j as int].reference);
            assert(base + w@.nd.take(j + 1) =~= (base + w@.nd.take(j as int)).push(
                w@.nd[j as int],
            ));
        }
        cur.memeber_loop.push(w.nd[j].reference);
        j = j + 1;
    }
    proof {
        assert(cur@.nodes =~= base + w@.nd);
    }
}

/// Append a way's node IDs to the ring in reverse order.
#[verifier::loop_isolation(false)]
fn append_reversed(cur: &mut LoopWithType, w: &Way)
    ensures
        final(cur)@.nodes == old(cur)@.nodes + w@.nd.reverse(),
        final(cur)@.member_type == old(cur)@.member_type,
        final(cur)@.way_id == old(cur)@.way_id,
{
    let ghost base = cur@.nodes;
    let mut k: usize = w.nd.len();
    while k > 0
        invariant
            0 <= k <= w.nd.len(),
            cur.memeber_loop@ =~= base + w@.nd.subrange(k as int, w@.nd.len() as int).reverse(),
            cur.member_type == old(cur).member_type,
            cur.way_id == old(cur).way_id,
        decreases k,
    {
        k = k - 1;
        proof {
            assert(w@.nd[k as int] == w.nd@[k as int].reference);
            assert(w@.nd.subrange(k as int, w@.nd.len() as int).reverse() =~= w@.nd.subrange(
                k + 1,
                w@.nd.len() as int,
            ).reverse().push(w@.nd[k as int]));
        }
        cur.memeber_loop.push(w.nd[k].reference);
    }
    proof {
        assert(w@.nd.subrange(0, w@.nd.len() as int) =~= w@.nd);
        assert(cur@.nodes =~= base + w@.nd.reverse());
    }
}

/// A fresh ring holding exactly this way.
fn seed_loop_exec(w: &Way) -> (res: LoopWithType)
    ensures
        res@ == seed_loop(w@),
{
    let mut res = LoopWithType::new_with_type(w.id, check_way_type(w));
    append_forward(&mut res, w);
    proof {
        assert(Seq::<u64>::empty() + w@.nd =~= w@.nd);
    }
    res
}

/// Extend the ring by one touching way, keeping the ring contiguous.
fn extend_loop_exec(cur: &mut LoopWithType, w: &Way)
    requires
        old(cur)@.nodes.len() >= 1,
        w@.nd.len() >= 1,
    ensures
        final(cur)@ == extend_loop(old(cur)@, w@),
{
    let last = cur.memeber_loop[cur.memeber_loop.len() - 1];
    proof {
        assert(last == cur@.nodes.last());
        assert(w@.nd[0] == w.nd@[0].reference);
    }
    if w.nd[0].reference == last {
        append_forward(cur, w);
    } else {
        append_reversed(cur, w);
    }
    cur.way_id = None;
}

/// Stitch the relation's usable member ways into rings: greedy chaining
/// with direction reversal, first-candidate tie-break, silent skipping of
/// unresolved or degenerate members. A relation with no usable member way
/// yields an empty ring list.
#[verifier::loop_isolation(false)]
pub fn extract_loops_to_render(
    relation: &Relation,
    id_to_ways: &std::collections::HashMap<u64, Way>,
) -> (res: Vec<LoopWithType>)
    ensures
        res@.map_values(|l: LoopWithType| l@) == spec_extract_loops(
            relation@,
            ways_map_view(id_to_ways@),
        ),
{
    let ghost wmv = ways_map_view(id_to_ways@);

    // Collect the usable `way`-kind member IDs, first occurrence only.
    let way_kind = "way".to_owned();
    let mut ids = Vec::<u64>::new();
    let mut i: usize = 0;
    proof {
        assert(relation@.member.take(0) =~= Seq::<MemberV>::empty());
        assert(collect_ids(Seq::<MemberV>::empty(), wmv) =~= Seq::<u64>::empty());
    }
    while i < relation.member.len()
        invariant
            0 <= i <= relation.member.len(),
            way_kind@ == "way"@,
            ids@ == collect_ids(relation@.member.take(i as int), wmv),
        decreases relation.member.len() - i,
    {
        let m = &relation.member[i];
        let ghost prefix = relation@.member.take(i as int);
        proof {
            assert(m@ == relation@.member[i as int]);
            assert(relation@.member.take(i + 1).drop_last() =~= prefix);
            assert(relation@.member.take(i + 1).last() == m@);
        }
        if m.member_type == way_kind {
            match id_to_ways.get(&m.member_ref) {
                Some(way) => {
                    proof {
                        assert(wmv.contains_key(m.member_ref) && wmv[m.member_ref] == way@);
                        assert(way@.nd.len() == way.nd@.len());
                    }
                    if way.nd.len() >= 2 {
                        if !crate::contains_u64(&ids, m.member_ref) {
                            ids.push(m.member_ref);
                        }
                    }
                },
                None => {
                    proof {
                        assert(!wmv.contains_key(m.member_ref));
                    }
                },
            }
        }
        i = i + 1;
    }
    proof {
        assert(relation@.member.take(relation.member.len() as int) =~= relation@.member);
        lemma_collect_ids_usable(relation@.member, wmv);
    }

    let mut res = Vec::<LoopWithType>::new();
    if ids.len() == 0 {
        proof {
            assert(res@.map_values(|l: LoopWithType| l@) =~= Seq::<LoopV>::empty());
        }
        return res;
    }

    // Seed the first ring and queue the rest.
    let first_id = ids[0];
    let first_way = id_to_ways.get(&first_id).unwrap();
    let mut cur = seed_loop_exec(first_way);
    let mut pending = Vec::<u64>::new();
    let mut q: usize = 1;
    while q < ids.len()
        invariant
            1 <= q <= ids.len(),
            pending@ =~= ids@.subrange(1, q as int),
        decreases ids.len() - q,
    {
        proof {
            assert(ids@.subrange(1, q + 1) =~= ids@.subrange(1, q as int).push(ids@[q as int]));
        }
        pending.push(ids[q]);
        q = q + 1;
    }
    proof {
        assert(pending@ =~= ids@.drop_first());
        assert(cur@ == seed_loop(wmv[ids@[0]]));
    }

    // Chain greedily until every pending way is consumed.
    while pending.len() > 0
        invariant
            spec_extract_loops(relation@, wmv) == res@.map_values(|l: LoopWithType| l@)
                + chain_from(wmv, pending@, cur@),
            forall|k: int| 0 <= k < pending@.len() ==> usable(wmv, #[trigger] pending@[k]),
            cur@.nodes.len() >= 1,
        decreases pending.len(),
    {
        let last = cur.memeber_loop[cur.memeber_loop.len() - 1];
        proof {
            assert(last == cur@.nodes.last());
        }

        // Find the first pending way touching the ring's last node.
        let mut idx: usize = 0;
        let mut found: bool = false;
        while !found && idx < pending.len()
            invariant
                0 <= idx <= pending.len(),
                forall|j: int| 0 <= j < idx ==> !touches(last, wmv[#[trigger] pending@[j]]),
                found ==> idx < pending.len() && touches(last, wmv[pending@[idx as int]]),
            decreases pending.len() - idx, if found { 0int } else { 1int },
        {
            let pid = pending[idx];
            let way = id_to_ways.get(&pid).unwrap();
            proof {
                assert(usable(wmv, pid));
                assert(way@ == wmv[pid]);
                assert(way@.nd[0] == way.nd@[0].reference);
                assert(way@.nd[way@.nd.len() - 1] == way.nd@[way.nd@.len() - 1].reference);
            }
            let first_nd = way.nd[0].reference;
            let last_nd = way.nd[way.nd.len() - 1].reference;
            if first_nd == last || last_nd == last {
                found = true;
            } else {
                idx = idx + 1;
            }
        }

        if found {
            // Extend the current ring with the touching way.
            proof {
                lemma_find_next_some(wmv, pending@, last, idx as int);
                assert(chain_from(wmv, pending@, cur@) == chain_from(
                    wmv,
                    pending@.remove(idx as int),
                    extend_loop(cur@, wmv[pending@[idx as int]]),
                ));
            }
            let pid = pending.remove(idx);
            let way = id_to_ways.get(&pid).unwrap();
            extend_loop_exec(&mut cur, way);
        } else {
            // The ring is complete; seed a new one from the first pending way.
            proof {
                lemma_find_next_none(wmv, pending@, last);
                assert(chain_from(wmv, pending@, cur@) == seq![cur@] + chain_from(
                    wmv,
                    pending@.drop_first(),
                    seed_loop(wmv[pending@[0]]),
                ));
            }
            let ghost old_res = res@;
            let ghost old_cur = cur@;
            let ghost old_pending = pending@;
            let pid = pending.remove(0);
            let way = id_to_ways.get(&pid).unwrap();
            res.push(cur);
            cur = seed_loop_exec(way);
            proof {
                assert(pending@ =~= old_pending.drop_first());
                assert(res@.map_values(|l: LoopWithType| l@) =~= old_res.map_values(
                    |l: LoopWithType| l@,
                ) + seq![old_cur]);
            }
        }
    }

    // The last ring is complete too.
    proof {
        assert(chain_from(wmv, pending@, cur@) == seq![cur@]);
    }
    let ghost old_res = res@;
    let ghost old_cur = cur@;
    res.push(cur);
    proof {
        assert(res@.map_values(|l: LoopWithType| l@) =~= old_res.map_values(
            |l: LoopWithType| l@,
        ).push(old_cur));
    }
    res
}

} // verus!

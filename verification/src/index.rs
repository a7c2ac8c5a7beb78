//! Per-zoom tile index: buckets of feature IDs keyed by integer tile
//! coordinates, plus the node-to-pixel mapping for that zoom.
//!
//! Every way and relation is inserted into the bucket of each tile one of
//! its nodes projects into. Beyond zoom 15 it is also inserted into the
//! eight neighboring tiles, so that strokes and labels that bleed across a
//! tile border are still drawn by the neighbor; at lower zooms this
//! duplication is skipped to bound the index size.

use vstd::prelude::*;

use crate::rings::ways_map_view;
use crate::tile::{
    convert_to_int_tile, lemma_spec_pixel_bounded, lemma_spec_tile_bounded, scale_plane_to_pixel,
    spec_pixel, spec_tile, PIXEL_LIMIT,
};
use crate::{contains_u64, Relation, RelationV, Way, WayV, MAX_ZOOM, PLANE_LIMIT};

verus! {

broadcast use vstd::std_specs::hash::group_hash_axioms;

/// Zoom level beyond which features are duplicated into the eight
/// neighboring tiles.
pub const NEIGHBOR_ZOOM: u8 = 15;

/// Largest magnitude a tile coordinate of an indexed node can have:
/// `PIXEL_LIMIT / TILE_SIZE`. One step outward from such a tile still
/// fits an `i32`.
pub const TILE_BOUND: i32 = 0x40_0000;

/// No ID appears twice.
pub open spec fn no_dup(s: Seq<u64>) -> bool {
    forall|k: int, l: int| 0 <= k < l < s.len() ==> s[k] != s[l]
}

/// The mathematical value of the inner map of a bucket table.
pub open spec fn inner_view(h: std::collections::HashMap<i32, Vec<u64>>) -> Map<i32, Seq<u64>> {
    Map::new(|ty: i32| h@.contains_key(ty), |ty: i32| h@[ty]@)
}

/// Does the bucket table hold `id` in the bucket of tile `(tx, ty)`?
pub open spec fn tb_has(v: Map<i32, Map<i32, Seq<u64>>>, tx: i32, ty: i32, id: u64) -> bool {
    v.contains_key(tx) && v[tx].contains_key(ty) && v[tx][ty].contains(id)
}

/// The bucket of tile `(tx, ty)`: empty when no feature touched it.
pub open spec fn tb_seq(v: Map<i32, Map<i32, Seq<u64>>>, tx: i32, ty: i32) -> Seq<u64> {
    if v.contains_key(tx) && v[tx].contains_key(ty) {
        v[tx][ty]
    } else {
        Seq::<u64>::empty()
    }
}

/// Every bucket holds each ID at most once.
pub open spec fn tb_wf(v: Map<i32, Map<i32, Seq<u64>>>) -> bool {
    forall|a: i32, b: i32| v.contains_key(a) && v[a].contains_key(b) ==> no_dup(#[trigger] v[a][b])
}

/// Is tile `(tx, ty)` the tile `(cx, cy)` itself, or — beyond the
/// duplication zoom — one of its eight neighbors?
pub open spec fn tile_near(cx: int, cy: int, tx: int, ty: int, zoom: u8) -> bool {
    (cx == tx && cy == ty) || (zoom > NEIGHBOR_ZOOM && cx - 1 <= tx <= cx + 1 && cy - 1 <= ty <= cy
        + 1)
}

/// Feature IDs bucketed by tile coordinate.
pub struct TileBuckets {
    pub map: std::collections::HashMap<i32, std::collections::HashMap<i32, Vec<u64>>>,
}

impl View for TileBuckets {
    type V = Map<i32, Map<i32, Seq<u64>>>;

    open spec fn view(&self) -> Map<i32, Map<i32, Seq<u64>>> {
        Map::new(|tx: i32| self.map@.contains_key(tx), |tx: i32| inner_view(self.map@[tx]))
    }
}

impl TileBuckets {
    /// An empty bucket table.
    pub fn new() -> (res: TileBuckets)
        ensures
            res@ =~= Map::<i32, Map<i32, Seq<u64>>>::empty(),
            tb_wf(res@),
    {
        TileBuckets { map: std::collections::HashMap::new() }
    }

    /// Record that feature `id` touches tile `(tx, ty)`. A feature already
    /// recorded for that tile is not recorded twice.
    pub fn insert(&mut self, tx: i32, ty: i32, id: u64)
        ensures
            forall|a: i32, b: i32, w: u64|
                tb_has(final(self)@, a, b, w) <==> tb_has(old(self)@, a, b, w) || (a == tx && b
                    == ty && w == id),
            tb_wf(old(self)@) ==> tb_wf(final(self)@),
    {
        let ghost v0 = self@;
        let mut inner = match self.map.remove(&tx) {
            Some(m) => m,
            None => std::collections::HashMap::new(),
        };
        let ghost iv0 = inner_view(inner);
        proof {
            assert(iv0 =~= if v0.contains_key(tx) {
                v0[tx]
            } else {
                Map::<i32, Seq<u64>>::empty()
            });
        }
        let mut ids = match inner.remove(&ty) {
            Some(v) => v,
            None => Vec::<u64>::new(),
        };
        let ghost s0 = ids@;
        proof {
            assert(s0 =~= if iv0.contains_key(ty) {
                iv0[ty]
            } else {
                Seq::<u64>::empty()
            });
        }
        if !contains_u64(&ids, id) {
            ids.push(id);
        }
        proof {
            assert forall|w: u64| ids@.contains(w) <==> s0.contains(w) || w == id by {
                if !s0.contains(id) {
                    assert(ids@ == s0.push(id));
                    if ids@.contains(w) {
                        let k = choose|k: int| 0 <= k < ids@.len() && ids@[k] == w;
                        if k < s0.len() {
                            assert(s0[k] == w);
                        }
                    }
                    if s0.contains(w) {
                        let k = choose|k: int| 0 <= k < s0.len() && s0[k] == w;
                        assert(ids@[k] == w);
                    }
                    if w == id {
                        assert(ids@[s0.len() as int] == id);
                    }
                }
            }
            assert(no_dup(s0) ==> no_dup(ids@));
        }
        inner.insert(ty, ids);
        self.map.insert(tx, inner);
        proof {
            let v1 = self@;
            let iv1 = inner_view(self.map@[tx]);
            assert forall|a: i32, b: i32, w: u64|
                tb_has(v1, a, b, w) <==> tb_has(v0, a, b, w) || (a == tx && b == ty && w
                    == id) by {
                if a == tx {
                    assert(v1.contains_key(a) && v1[a] == iv1);
                    if b != ty {
                        assert(iv1.contains_key(b) ==> iv1[b] == iv0[b]);
                        assert(iv0.contains_key(b) <==> iv1.contains_key(b));
                    }
                } else {
                    assert(v1.contains_key(a) <==> v0.contains_key(a));
                    assert(v1.contains_key(a) ==> v1[a] == v0[a]);
                }
            }
            if tb_wf(v0) {
                assert forall|a: i32, b: i32|
                    v1.contains_key(a) && v1[a].contains_key(b) implies no_dup(
                    #[trigger] v1[a][b],
                ) by {
                    if a == tx && b == ty {
                        assert(v1[a][b] == ids@);
                        assert(no_dup(s0));
                    } else if a == tx {
                        assert(v1[a][b] == iv0[b]);
                    } else {
                        assert(v1[a][b] == v0[a][b]);
                    }
                }
            }
        }
    }

    /// Record that feature `id` touches tile `(tx, ty)`, duplicating the
    /// record into the eight neighboring tiles beyond the duplication zoom.
    pub fn insert_with_neighbors(&mut self, tx: i32, ty: i32, id: u64, zoom: u8)
        requires
            -TILE_BOUND - 1 <= tx <= TILE_BOUND + 1,
            -TILE_BOUND - 1 <= ty <= TILE_BOUND + 1,
        ensures
            forall|a: i32, b: i32, w: u64|
                tb_has(final(self)@, a, b, w) <==> tb_has(old(self)@, a, b, w) || (w == id
                    && tile_near(tx as int, ty as int, a as int, b as int, zoom)),
            tb_wf(old(self)@) ==> tb_wf(final(self)@),
    {
        self.insert(tx, ty, id);
        if zoom > NEIGHBOR_ZOOM {
            self.insert(tx + 1, ty + 1, id);
            self.insert(tx + 1, ty, id);
            self.insert(tx, ty + 1, id);
            self.insert(tx + 1, ty - 1, id);
            self.insert(tx - 1, ty - 1, id);
            self.insert(tx - 1, ty, id);
            self.insert(tx, ty - 1, id);
            self.insert(tx - 1, ty + 1, id);
        }
    }

    /// The feature IDs recorded for tile `(tx, ty)`, empty when none.
    pub fn ids_in(&self, tx: i32, ty: i32) -> (res: Vec<u64>)
        ensures
            res@ == tb_seq(self@, tx, ty),
    {
        match self.map.get(&tx) {
            Some(inner) => match inner.get(&ty) {
                Some(ids) => {
                    let mut res = Vec::<u64>::new();
                    let mut i: usize = 0;
                    while i < ids.len()
                        invariant
                            0 <= i <= ids.len(),
                            res@ =~= ids@.take(i as int),
                        decreases ids.len() - i,
                    {
                        res.push(ids[i]);
                        i = i + 1;
                    }
                    proof {
                        assert(res@ =~= ids@);
                        assert(tb_seq(self@, tx, ty) == ids@);
                    }
                    res
                },
                None => {
                    proof {
                        assert(tb_seq(self@, tx, ty) =~= Seq::<u64>::empty());
                    }
                    Vec::<u64>::new()
                },
            },
            None => {
                proof {
                    assert(tb_seq(self@, tx, ty) =~= Seq::<u64>::empty());
                }
                Vec::<u64>::new()
            },
        }
    }
}

/// The node-to-pixel mapping of a zoom level: every listed node scaled to
/// that zoom's pixel plane, later entries overriding earlier ones with the
/// same ID.
pub open spec fn spec_px_map(nodes: Seq<(u64, i64, i64)>, zoom: nat) -> Map<u64, (i64, i64)>
    decreases nodes.len(),
{
    if nodes.len() == 0 {
        Map::<u64, (i64, i64)>::empty()
    } else {
        let rest = spec_px_map(nodes.drop_last(), zoom);
        let n = nodes.last();
        rest.insert(n.0, (spec_pixel(n.1 as int, zoom) as i64, spec_pixel(n.2 as int, zoom) as i64))
    }
}

/// With every listed plane coordinate in bounds, every mapped pixel
/// coordinate is in bounds.
pub proof fn lemma_px_map_bounded(nodes: Seq<(u64, i64, i64)>, zoom: nat)
    requires
        zoom <= MAX_ZOOM,
        forall|k: int|
            0 <= k < nodes.len() ==> -PLANE_LIMIT <= (#[trigger] nodes[k]).1 <= PLANE_LIMIT
                && -PLANE_LIMIT <= nodes[k].2 <= PLANE_LIMIT,
    ensures
        forall|id: u64|
            #[trigger] spec_px_map(nodes, zoom).contains_key(id) ==> -PIXEL_LIMIT <= spec_px_map(
                nodes,
                zoom,
            )[id].0 <= PIXEL_LIMIT && -PIXEL_LIMIT <= spec_px_map(nodes, zoom)[id].1 <= PIXEL_LIMIT,
    decreases nodes.len(),
{
    if nodes.len() > 0 {
        assert forall|k: int| 0 <= k < nodes.drop_last().len() implies -PLANE_LIMIT <= (
        #[trigger] nodes.drop_last()[k]).1 <= PLANE_LIMIT && -PLANE_LIMIT <= nodes.drop_last()[k].2
            <= PLANE_LIMIT by {
            assert(nodes.drop_last()[k] == nodes[k]);
        }
        lemma_px_map_bounded(nodes.drop_last(), zoom);
        let rest = spec_px_map(nodes.drop_last(), zoom);
        let n = nodes.last();
        assert(-PLANE_LIMIT <= n.1 <= PLANE_LIMIT && -PLANE_LIMIT <= n.2 <= PLANE_LIMIT);
        lemma_spec_pixel_bounded(n.1 as int, zoom);
        lemma_spec_pixel_bounded(n.2 as int, zoom);
        assert forall|id: u64| #[trigger] spec_px_map(nodes, zoom).contains_key(id) implies
            -PIXEL_LIMIT <= spec_px_map(nodes, zoom)[id].0 <= PIXEL_LIMIT && -PIXEL_LIMIT
            <= spec_px_map(nodes, zoom)[id].1 <= PIXEL_LIMIT by {
            if id != n.0 {
                assert(rest.contains_key(id));
                assert(spec_px_map(nodes, zoom)[id] == rest[id]);
            }
        }
    }
}


/// Does node reference `j` of the way resolve to a pixel position whose
/// tile reaches tile `(a, b)` at this zoom?
pub open spec fn way_node_hits(
    w: WayV,
    j: int,
    coords: Map<u64, (i64, i64)>,
    zoom: u8,
    a: i32,
    b: i32,
) -> bool {
    0 <= j < w.nd.len() && coords.contains_key(w.nd[j]) && tile_near(
        spec_tile(coords[w.nd[j]].0 as int),
        spec_tile(coords[w.nd[j]].1 as int),
        a as int,
        b as int,
        zoom,
    )
}

/// Does one of the way's first `j` node references hit tile `(a, b)`?
pub open spec fn way_hits_upto(
    w: WayV,
    j: int,
    coords: Map<u64, (i64, i64)>,
    zoom: u8,
    a: i32,
    b: i32,
) -> bool {
    exists|q: int| q < j && way_node_hits(w, q, coords, zoom, a, b)
}

/// Does the way hit tile `(a, b)` with any of its node references?
pub open spec fn way_hits(w: WayV, coords: Map<u64, (i64, i64)>, zoom: u8, a: i32, b: i32) -> bool {
    way_hits_upto(w, w.nd.len() as int, coords, zoom, a, b)
}

/// Does some way of the list carry ID `wid` and hit tile `(a, b)`?
pub open spec fn way_in_tile(
    ways: Seq<WayV>,
    coords: Map<u64, (i64, i64)>,
    zoom: u8,
    wid: u64,
    a: i32,
    b: i32,
) -> bool {
    exists|i: int| 0 <= i < ways.len() && (#[trigger] ways[i]).id == wid && way_hits(ways[i], coords, zoom, a, b)
}

/// Does one of the relation's first `j` members resolve to a way that hits
/// tile `(a, b)`?
pub open spec fn member_hits_upto(
    r: RelationV,
    j: int,
    wm: Map<u64, WayV>,
    coords: Map<u64, (i64, i64)>,
    zoom: u8,
    a: i32,
    b: i32,
) -> bool {
    exists|p: int|
        0 <= p < j && wm.contains_key((#[trigger] r.member[p]).member_ref) && way_hits(
            wm[r.member[p].member_ref],
            coords,
            zoom,
            a,
            b,
        )
}

/// Does some relation of the list carry ID `rid` and reach tile `(a, b)`
/// through one of its resolved member ways?
pub open spec fn relation_in_tile(
    rels: Seq<RelationV>,
    wm: Map<u64, WayV>,
    coords: Map<u64, (i64, i64)>,
    zoom: u8,
    rid: u64,
    a: i32,
    b: i32,
) -> bool {
    exists|i: int|
        0 <= i < rels.len() && (#[trigger] rels[i]).id == rid && member_hits_upto(
            rels[i],
            rels[i].member.len() as int,
            wm,
            coords,
            zoom,
            a,
            b,
        )
}

/// One more node reference seen: the way's hits grow by exactly that
/// node's hit, if any.
pub proof fn lemma_way_hits_upto_step(
    w: WayV,
    j: int,
    coords: Map<u64, (i64, i64)>,
    zoom: u8,
)
    ensures
        forall|a: i32, b: i32|
            #[trigger] way_hits_upto(w, j + 1, coords, zoom, a, b) <==> way_hits_upto(
                w,
                j,
                coords,
                zoom,
                a,
                b,
            ) || way_node_hits(w, j, coords, zoom, a, b),
{
    assert forall|a: i32, b: i32|
        #[trigger] way_hits_upto(w, j + 1, coords, zoom, a, b) <==> way_hits_upto(
            w,
            j,
            coords,
            zoom,
            a,
            b,
        ) || way_node_hits(w, j, coords, zoom, a, b) by {
        if way_hits_upto(w, j + 1, coords, zoom, a, b) {
            let q = choose|q: int| q < j + 1 && way_node_hits(w, q, coords, zoom, a, b);
            if q < j {
                assert(way_hits_upto(w, j, coords, zoom, a, b));
            }
        }
        if way_hits_upto(w, j, coords, zoom, a, b) {
            let q = choose|q: int| q < j && way_node_hits(w, q, coords, zoom, a, b);
            assert(q < j + 1 && way_node_hits(w, q, coords, zoom, a, b));
            assert(way_hits_upto(w, j + 1, coords, zoom, a, b));
        }
        if way_node_hits(w, j, coords, zoom, a, b) {
            assert(way_hits_upto(w, j + 1, coords, zoom, a, b));
        }
    }
}

/// One more member seen: the relation's hits grow by exactly that member's
/// way's hits, if it resolves.
pub proof fn lemma_member_hits_upto_step(
    r: RelationV,
    j: int,
    wm: Map<u64, WayV>,
    coords: Map<u64, (i64, i64)>,
    zoom: u8,
)
    requires
        0 <= j,
    ensures
        forall|a: i32, b: i32|
            #[trigger] member_hits_upto(r, j + 1, wm, coords, zoom, a, b) <==> member_hits_upto(
                r,
                j,
                wm,
                coords,
                zoom,
                a,
                b,
            ) || (wm.contains_key(r.member[j].member_ref) && way_hits(
                wm[r.member[j].member_ref],
                coords,
                zoom,
                a,
                b,
            )),
{
    assert forall|a: i32, b: i32|
        #[trigger] member_hits_upto(r, j + 1, wm, coords, zoom, a, b) <==> member_hits_upto(
            r,
            j,
            wm,
            coords,
            zoom,
            a,
            b,
        ) || (wm.contains_key(r.member[j].member_ref) && way_hits(
            wm[r.member[j].member_ref],
            coords,
            zoom,
            a,
            b,
        )) by {
        if member_hits_upto(r, j + 1, wm, coords, zoom, a, b) {
            let p = choose|p: int|
                0 <= p < j + 1 && wm.contains_key((#[trigger] r.member[p]).member_ref) && way_hits(
                    wm[r.member[p].member_ref],
                    coords,
                    zoom,
                    a,
                    b,
                );
            if p < j {
                assert(member_hits_upto(r, j, wm, coords, zoom, a, b));
            }
        }
        if member_hits_upto(r, j, wm, coords, zoom, a, b) {
            let p = choose|p: int|
                0 <= p < j && wm.contains_key((#[trigger] r.member[p]).member_ref) && way_hits(
                    wm[r.member[p].member_ref],
                    coords,
                    zoom,
                    a,
                    b,
                );
            assert(member_hits_upto(r, j + 1, wm, coords, zoom, a, b));
        }
        if wm.contains_key(r.member[j].member_ref) && way_hits(
            wm[r.member[j].member_ref],
            coords,
            zoom,
            a,
            b,
        ) {
            assert(member_hits_upto(r, j + 1, wm, coords, zoom, a, b));
        }
    }
}

/// Appending one way extends tile membership by that way's hits exactly.
pub proof fn lemma_way_in_tile_push(
    ways: Seq<WayV>,
    w: WayV,
    coords: Map<u64, (i64, i64)>,
    zoom: u8,
)
    ensures
        forall|a: i32, b: i32, wid: u64|
            #[trigger] way_in_tile(ways.push(w), coords, zoom, wid, a, b) <==> way_in_tile(
                ways,
                coords,
                zoom,
                wid,
                a,
                b,
            ) || (w.id == wid && way_hits(w, coords, zoom, a, b)),
{
    assert forall|a: i32, b: i32, wid: u64|
        #[trigger] way_in_tile(ways.push(w), coords, zoom, wid, a, b) <==> way_in_tile(
            ways,
            coords,
            zoom,
            wid,
            a,
            b,
        ) || (w.id == wid && way_hits(w, coords, zoom, a, b)) by {
        if way_in_tile(ways.push(w), coords, zoom, wid, a, b) {
            let i = choose|i: int|
                0 <= i < ways.push(w).len() && (#[trigger] ways.push(w)[i]).id == wid && way_hits(
                    ways.push(w)[i],
                    coords,
                    zoom,
                    a,
                    b,
                );
            if i < ways.len() {
                assert(ways[i] == ways.push(w)[i]);
                assert(way_in_tile(ways, coords, zoom, wid, a, b));
            } else {
                assert(ways.push(w)[i] == w);
            }
        }
        if way_in_tile(ways, coords, zoom, wid, a, b) {
            let i = choose|i: int|
                0 <= i < ways.len() && (#[trigger] ways[i]).id == wid && way_hits(
                    ways[i],
                    coords,
                    zoom,
                    a,
                    b,
                );
            assert(ways.push(w)[i] == ways[i]);
            assert(way_in_tile(ways.push(w), coords, zoom, wid, a, b));
        }
        if w.id == wid && way_hits(w, coords, zoom, a, b) {
            assert(ways.push(w)[ways.len() as int] == w);
            assert(way_in_tile(ways.push(w), coords, zoom, wid, a, b));
        }
    }
}

/// Appending one relation extends tile membership by that relation's hits
/// exactly.
pub proof fn lemma_relation_in_tile_push(
    rels: Seq<RelationV>,
    r: RelationV,
    wm: Map<u64, WayV>,
    coords: Map<u64, (i64, i64)>,
    zoom: u8,
)
    ensures
        forall|a: i32, b: i32, rid: u64|
            #[trigger] relation_in_tile(rels.push(r), wm, coords, zoom, rid, a, b)
                <==> relation_in_tile(rels, wm, coords, zoom, rid, a, b) || (r.id == rid
                && member_hits_upto(r, r.member.len() as int, wm, coords, zoom, a, b)),
{
    assert forall|a: i32, b: i32, rid: u64|
        #[trigger] relation_in_tile(rels.push(r), wm, coords, zoom, rid, a, b) <==> relation_in_tile(
            rels,
            wm,
            coords,
            zoom,
            rid,
            a,
            b,
        ) || (r.id == rid && member_hits_upto(r, r.member.len() as int, wm, coords, zoom, a, b)) by {
        if relation_in_tile(rels.push(r), wm, coords, zoom, rid, a, b) {
            let i = choose|i: int|
                0 <= i < rels.push(r).len() && (#[trigger] rels.push(r)[i]).id == rid
                    && member_hits_upto(
                    rels.push(r)[i],
                    rels.push(r)[i].member.len() as int,
                    wm,
                    coords,
                    zoom,
                    a,
                    b,
                );
            if i < rels.len() {
                assert(rels[i] == rels.push(r)[i]);
                assert(relation_in_tile(rels, wm, coords, zoom, rid, a, b));
            } else {
                assert(rels.push(r)[i] == r);
            }
        }
        if relation_in_tile(rels, wm, coords, zoom, rid, a, b) {
            let i = choose|i: int|
                0 <= i < rels.len() && (#[trigger] rels[i]).id == rid && member_hits_upto(
                    rels[i],
                    rels[i].member.len() as int,
                    wm,
                    coords,
                    zoom,
                    a,
                    b,
                );
            assert(rels.push(r)[i] == rels[i]);
            assert(relation_in_tile(rels.push(r), wm, coords, zoom, rid, a, b));
        }
        if r.id == rid && member_hits_upto(r, r.member.len() as int, wm, coords, zoom, a, b) {
            assert(rels.push(r)[rels.len() as int] == r);
            assert(relation_in_tile(rels.push(r), wm, coords, zoom, rid, a, b));
        }
    }
}

/// The spatial index of one zoom level.
pub struct Index {
    /// Relation IDs bucketed by the tiles their member ways touch.
    pub relations_to_tile: TileBuckets,
    /// Standalone way IDs bucketed by the tiles they touch.
    pub ways_to_tile: TileBuckets,
    /// Every node's pixel position on this zoom's plane.
    pub node_to_tile_zoom_coordinates: std::collections::HashMap<u64, (i64, i64)>,
    /// The zoom level this index was built for.
    pub zoom: u8,
}

/// Everything the built index promises, relative to the inputs it was
/// built from: the node mapping is the zoom's pixel projection, and each
/// bucket holds exactly the features that reach its tile — the way buckets
/// over the standalone ways, the relation buckets over the relations'
/// resolved member ways.
pub open spec fn index_built(
    idx: Index,
    nodes: Seq<(u64, i64, i64)>,
    ways: Seq<WayV>,
    rels: Seq<RelationV>,
    wm: Map<u64, WayV>,
    zoom: u8,
) -> bool {
    let coords = spec_px_map(nodes, zoom as nat);
    &&& idx.zoom == zoom
    &&& idx.node_to_tile_zoom_coordinates@ == coords
    &&& forall|a: i32, b: i32, w: u64|
        tb_has(idx.ways_to_tile@, a, b, w) <==> way_in_tile(ways, coords, zoom, w, a, b)
    &&& forall|a: i32, b: i32, r: u64|
        tb_has(idx.relations_to_tile@, a, b, r) <==> relation_in_tile(
            rels,
            wm,
            coords,
            zoom,
            r,
            a,
            b,
        )
    &&& tb_wf(idx.ways_to_tile@)
    &&& tb_wf(idx.relations_to_tile@)
}

/// Build the spatial index of one zoom level: project every node to the
/// zoom's pixel plane, then bucket every standalone way and every relation
/// by the tiles their resolved nodes fall into, duplicating into neighbor
/// tiles beyond the duplication zoom. Unresolved node and way references
/// are skipped silently.
#[verifier::loop_isolation(false)]
pub fn build_index_for_zoom(
    nodes_to_tile: &Vec<(u64, i64, i64)>,
    ways: &Vec<Way>,
    relations: &Vec<Relation>,
    id_to_ways: &std::collections::HashMap<u64, Way>,
    zoom: u8,
) -> (res: Index)
    requires
        zoom <= MAX_ZOOM,
        forall|k: int|
            0 <= k < nodes_to_tile@.len() ==> -PLANE_LIMIT <= (#[trigger] nodes_to_tile@[k]).1
                <= PLANE_LIMIT && -PLANE_LIMIT <= nodes_to_tile@[k].2 <= PLANE_LIMIT,
    ensures
        index_built(
            res,
            nodes_to_tile@,
            ways@.map_values(|w: Way| w@),
            relations@.map_values(|r: Relation| r@),
            ways_map_view(id_to_ways@),
            zoom,
        ),
{
    let ghost coords = spec_px_map(nodes_to_tile@, zoom as nat);
    let ghost waysv = ways@.map_values(|w: Way| w@);
    let ghost relsv = relations@.map_values(|r: Relation| r@);
    let ghost wm = ways_map_view(id_to_ways@);

    // Project every node to this zoom's pixel plane.
    let mut node_px = std::collections::HashMap::<u64, (i64, i64)>::new();
    let mut n: usize = 0;
    proof {
        assert(nodes_to_tile@.take(0) =~= Seq::<(u64, i64, i64)>::empty());
        assert(node_px@ =~= spec_px_map(nodes_to_tile@.take(0), zoom as nat));
    }
    while n < nodes_to_tile.len()
        invariant
            0 <= n <= nodes_to_tile.len(),
            node_px@ == spec_px_map(nodes_to_tile@.take(n as int), zoom as nat),
        decreases nodes_to_tile.len() - n,
    {
        let (id, x, y) = nodes_to_tile[n];
        let px = scale_plane_to_pixel(x, zoom);
        let py = scale_plane_to_pixel(y, zoom);
        proof {
            assert(nodes_to_tile@.take(n + 1).drop_last() =~= nodes_to_tile@.take(n as int));
            assert(nodes_to_tile@.take(n + 1).last() == nodes_to_tile@[n as int]);
        }
        node_px.insert(id, (px, py));
        n = n + 1;
    }
    proof {
        assert(nodes_to_tile@.take(nodes_to_tile.len() as int) =~= nodes_to_tile@);
        lemma_px_map_bounded(nodes_to_tile@, zoom as nat);
    }

    // Bucket every standalone way by the tiles its nodes fall into.
    let mut ways_to_tile = TileBuckets::new();
    let mut i: usize = 0;
    proof {
        assert(waysv.take(0) =~= Seq::<WayV>::empty());
    }
    while i < ways.len()
        invariant
            0 <= i <= ways.len(),
            tb_wf(ways_to_tile@),
            forall|a: i32, b: i32, w: u64|
                tb_has(ways_to_tile@, a, b, w) <==> way_in_tile(
                    waysv.take(i as int),
                    coords,
                    zoom,
                    w,
                    a,
                    b,
                ),
        decreases ways.len() - i,
    {
        let way = &ways[i];
        proof {
            assert(way@ == waysv[i as int]);
        }
        let mut j: usize = 0;
        proof {
            assert forall|a: i32, b: i32| !way_hits_upto(way@, 0, coords, zoom, a, b) by {
                if way_hits_upto(way@, 0, coords, zoom, a, b) {
                    let q = choose|q: int| q < 0 && way_node_hits(way@, q, coords, zoom, a, b);
                }
            }
        }
        while j < way.nd.len()
            invariant
                0 <= j <= way.nd.len(),
                tb_wf(ways_to_tile@),
                forall|a: i32, b: i32, w: u64|
                    tb_has(ways_to_tile@, a, b, w) <==> way_in_tile(
                        waysv.take(i as int),
                        coords,
                        zoom,
                        w,
                        a,
                        b,
                    ) || (w == way@.id && way_hits_upto(way@, j as int, coords, zoom, a, b)),
            decreases way.nd.len() - j,
        {
            let nd_ref = way.nd[j].reference;
            proof {
                assert(way@.nd[j as int] == nd_ref);
                lemma_way_hits_upto_step(way@, j as int, coords, zoom);
            }
            match node_px.get(&nd_ref) {
                Some(p) => {
                    let (px, py) = (p.0, p.1);
                    proof {
                        assert(coords.contains_key(nd_ref) && coords[nd_ref] == (px, py));
                    }
                    let (tx, ty) = convert_to_int_tile(px, py);
                    proof {
                        lemma_spec_tile_bounded(px as int);
                        lemma_spec_tile_bounded(py as int);
                    }
                    ways_to_tile.insert_with_neighbors(tx, ty, way.id, zoom);
                    proof {
                        assert forall|a: i32, b: i32|
                            way_node_hits(way@, j as int, coords, zoom, a, b) <==> tile_near(
                                tx as int,
                                ty as int,
                                a as int,
                                b as int,
                                zoom,
                            ) by {}
                    }
                },
                None => {
                    proof {
                        assert(!coords.contains_key(nd_ref));
                        assert forall|a: i32, b: i32|
                            !way_node_hits(way@, j as int, coords, zoom, a, b) by {}
                    }
                },
            }
            j = j + 1;
        }
        proof {
            assert(waysv.take(i + 1) =~= waysv.take(i as int).push(way@));
            lemma_way_in_tile_push(waysv.take(i as int), way@, coords, zoom);
            assert(way_hits(way@, coords, zoom, 0i32, 0i32) == way_hits_upto(
                way@,
                way@.nd.len() as int,
                coords,
                zoom,
                0i32,
                0i32,
            ));
        }
        i = i + 1;
    }
    proof {
        assert(waysv.take(ways.len() as int) =~= waysv);
    }

    // Bucket every relation by the tiles its member ways' nodes fall into.
    let mut relations_to_tile = TileBuckets::new();
    let mut r: usize = 0;
    proof {
        assert(relsv.take(0) =~= Seq::<RelationV>::empty());
    }
    while r < relations.len()
        invariant
            0 <= r <= relations.len(),
            tb_wf(relations_to_tile@),
            forall|a: i32, b: i32, w: u64|
                tb_has(relations_to_tile@, a, b, w) <==> relation_in_tile(
                    relsv.take(r as int),
                    wm,
                    coords,
                    zoom,
                    w,
                    a,
                    b,
                ),
        decreases relations.len() - r,
    {
        let relation = &relations[r];
        proof {
            assert(relation@ == relsv[r as int]);
        }
        let mut j: usize = 0;
        proof {
            assert forall|a: i32, b: i32|
                !member_hits_upto(relation@, 0, wm, coords, zoom, a, b) by {
                if member_hits_upto(relation@, 0, wm, coords, zoom, a, b) {
                    let p = choose|p: int|
                        0 <= p < 0 && wm.contains_key(
                            (#[trigger] relation@.member[p]).member_ref,
                        ) && way_hits(wm[relation@.member[p].member_ref], coords, zoom, a, b);
                }
            }
        }
        while j < relation.member.len()
            invariant
                0 <= j <= relation.member.len(),
                tb_wf(relations_to_tile@),
                forall|a: i32, b: i32, w: u64|
                    tb_has(relations_to_tile@, a, b, w) <==> relation_in_tile(
                        relsv.take(r as int),
                        wm,
                        coords,
                        zoom,
                        w,
                        a,
                        b,
                    ) || (w == relation@.id && member_hits_upto(
                        relation@,
                        j as int,
                        wm,
                        coords,
                        zoom,
                        a,
                        b,
                    )),
            decreases relation.member.len() - j,
        {
            let member_ref = relation.member[j].member_ref;
            proof {
                assert(relation@.member[j as int] == relation.member@[j as int]@);
                assert(relation@.member[j as int].member_ref == member_ref);
                lemma_member_hits_upto_step(relation@, j as int, wm, coords, zoom);
            }
            match id_to_ways.get(&member_ref) {
                Some(way) => {
                    proof {
                        assert(wm.contains_key(member_ref) && wm[member_ref] == way@);
                    }
                    let mut k: usize = 0;
                    proof {
                        assert forall|a: i32, b: i32|
                            !way_hits_upto(way@, 0, coords, zoom, a, b) by {
                            if way_hits_upto(way@, 0, coords, zoom, a, b) {
                                let q = choose|q: int|
                                    q < 0 && way_node_hits(way@, q, coords, zoom, a, b);
                            }
                        }
                    }
                    while k < way.nd.len()
                        invariant
                            0 <= k <= way.nd.len(),
                            tb_wf(relations_to_tile@),
                            forall|a: i32, b: i32, w: u64|
                                tb_has(relations_to_tile@, a, b, w) <==> relation_in_tile(
                                    relsv.take(r as int),
                                    wm,
                                    coords,
                                    zoom,
                                    w,
                                    a,
                                    b,
                                ) || (w == relation@.id && member_hits_upto(
                                    relation@,
                                    j as int,
                                    wm,
                                    coords,
                                    zoom,
                                    a,
                                    b,
                                )) || (w == relation@.id && way_hits_upto(
                                    way@,
                                    k as int,
                                    coords,
                                    zoom,
                                    a,
                                    b,
                                )),
                        decreases way.nd.len() - k,
                    {
                        let nd_ref = way.nd[k].reference;
                        proof {
                            assert(way@.nd[k as int] == nd_ref);
                            lemma_way_hits_upto_step(way@, k as int, coords, zoom);
                        }
                        match node_px.get(&nd_ref) {
                            Some(p) => {
                                let (px, py) = (p.0, p.1);
                                proof {
                                    assert(coords.contains_key(nd_ref) && coords[nd_ref] == (
                                    px,
                                    py,
                                    ));
                                }
                                let (tx, ty) = convert_to_int_tile(px, py);
                                proof {
                                    lemma_spec_tile_bounded(px as int);
                                    lemma_spec_tile_bounded(py as int);
                                }
                                relations_to_tile.insert_with_neighbors(tx, ty, relation.id, zoom);
                                proof {
                                    assert forall|a: i32, b: i32|
                                        way_node_hits(way@, k as int, coords, zoom, a, b)
                                            <==> tile_near(
                                            tx as int,
                                            ty as int,
                                            a as int,
                                            b as int,
                                            zoom,
                                        ) by {}
                                }
                            },
                            None => {
                                proof {
                                    assert(!coords.contains_key(nd_ref));
                                    assert forall|a: i32, b: i32|
                                        !way_node_hits(way@, k as int, coords, zoom, a, b) by {}
                                }
                            },
                        }
                        k = k + 1;
                    }
                },
                None => {
                    proof {
                        assert(!wm.contains_key(member_ref));
                    }
                },
            }
            j = j + 1;
        }
        proof {
            assert(relsv.take(r + 1) =~= relsv.take(r as int).push(relation@));
            lemma_relation_in_tile_push(relsv.take(r as int), relation@, wm, coords, zoom);
        }
        r = r + 1;
    }
    proof {
        assert(relsv.take(relations.len() as int) =~= relsv);
    }

    Index { relations_to_tile, ways_to_tile, node_to_tile_zoom_coordinates: node_px, zoom }
}

/// Index completeness: a way whose node reference `j` resolves to a
/// coordinate is recorded in the bucket of every tile that node reaches —
/// the tile it projects into, and beyond the duplication zoom also each of
/// the eight neighbors.
pub proof fn lemma_index_completeness(
    idx: Index,
    nodes: Seq<(u64, i64, i64)>,
    ways: Seq<WayV>,
    rels: Seq<RelationV>,
    wm: Map<u64, WayV>,
    zoom: u8,
    i: int,
    j: int,
    a: i32,
    b: i32,
)
    requires
        index_built(idx, nodes, ways, rels, wm, zoom),
        0 <= i < ways.len(),
        0 <= j < ways[i].nd.len(),
        spec_px_map(nodes, zoom as nat).contains_key(ways[i].nd[j]),
        tile_near(
            spec_tile(spec_px_map(nodes, zoom as nat)[ways[i].nd[j]].0 as int),
            spec_tile(spec_px_map(nodes, zoom as nat)[ways[i].nd[j]].1 as int),
            a as int,
            b as int,
            zoom,
        ),
    ensures
        tb_has(idx.ways_to_tile@, a, b, ways[i].id),
{
    let coords = spec_px_map(nodes, zoom as nat);
    assert(way_node_hits(ways[i], j, coords, zoom, a, b));
    assert(way_hits_upto(ways[i], ways[i].nd.len() as int, coords, zoom, a, b));
    assert(way_in_tile(ways, coords, zoom, ways[i].id, a, b));
}

/// Neighbor duplication threshold: a way ID found in a tile's bucket is
/// there because one of that way's resolved nodes reaches the tile — at or
/// below the duplication zoom this means the node's own tile is exactly
/// this tile; beyond it, the node's tile is this tile or one of its eight
/// neighbors. The returned pair is the witnessing way and node position.
pub proof fn lemma_neighbor_duplication(
    idx: Index,
    nodes: Seq<(u64, i64, i64)>,
    ways: Seq<WayV>,
    rels: Seq<RelationV>,
    wm: Map<u64, WayV>,
    zoom: u8,
    a: i32,
    b: i32,
    wid: u64,
) -> (w: (int, int))
    requires
        index_built(idx, nodes, ways, rels, wm, zoom),
        tb_has(idx.ways_to_tile@, a, b, wid),
    ensures
        0 <= w.0 < ways.len(),
        ways[w.0].id == wid,
        0 <= w.1 < ways[w.0].nd.len(),
        spec_px_map(nodes, zoom as nat).contains_key(ways[w.0].nd[w.1]),
        zoom <= NEIGHBOR_ZOOM ==> spec_tile(
            spec_px_map(nodes, zoom as nat)[ways[w.0].nd[w.1]].0 as int,
        ) == a as int && spec_tile(spec_px_map(nodes, zoom as nat)[ways[w.0].nd[w.1]].1 as int)
            == b as int,
        zoom > NEIGHBOR_ZOOM ==> spec_tile(
            spec_px_map(nodes, zoom as nat)[ways[w.0].nd[w.1]].0 as int,
        ) - 1 <= a as int <= spec_tile(spec_px_map(nodes, zoom as nat)[ways[w.0].nd[w.1]].0 as int)
            + 1 && spec_tile(spec_px_map(nodes, zoom as nat)[ways[w.0].nd[w.1]].1 as int) - 1
            <= b as int <= spec_tile(spec_px_map(nodes, zoom as nat)[ways[w.0].nd[w.1]].1 as int)
            + 1,
{
    let coords = spec_px_map(nodes, zoom as nat);
    assert(way_in_tile(ways, coords, zoom, wid, a, b));
    let i = choose|i: int|
        0 <= i < ways.len() && (#[trigger] ways[i]).id == wid && way_hits(
            ways[i],
            coords,
            zoom,
            a,
            b,
        );
    let j = choose|q: int| q < ways[i].nd.len() && way_node_hits(ways[i], q, coords, zoom, a, b);
    (i, j)
}

} // verus!

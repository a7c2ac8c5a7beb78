//! Render planning: turns one tile's indexed features into an ordered list
//! of draw commands — polylines in tile-local pixel coordinates with fill
//! flags and building labels — ready for a rasterizer to execute.
//!
//! Categories are drawn in a fixed z-order: Forest, Park, WaterRiver,
//! Water, Generic, Building; later categories paint over earlier ones.
//! Within a category all standalone ways are drawn first, then all
//! relations, each relation expanded into its rings. Ways and relations
//! whose category or definition cannot be resolved are skipped silently,
//! as are node references without a projected coordinate.
//!
//! A building drawn beyond zoom 16 is labelled with its `addr:housenumber`
//! tag value, anchored at the arithmetic centroid of its drawn vertices.

use vstd::prelude::*;

use crate::index::{tb_seq, Index};
use crate::cache::TileCacheState;
use crate::rings::{extract_loops_to_render, spec_extract_loops, ways_map_view};
use crate::tile::{trunc_div, PIXEL_LIMIT};
use crate::{LoopV, LoopWithType, RelationV, Tag, TagV, Type, Way, WayV, TILE_SIZE};

verus! {

broadcast use vstd::std_specs::hash::group_hash_axioms;

/// Zoom level beyond which buildings are labelled with their house number.
pub const LABEL_ZOOM: u8 = 16;

/// Largest magnitude a tile-local point coordinate can have: a pixel
/// coordinate within [`PIXEL_LIMIT`] shifted by a tile origin of at most
/// `2^31 * TILE_SIZE`.
pub const LOCAL_LIMIT: i64 = 0x100_0000_0000;

/// One draw command: stroke this polyline — and fill it first when `fill`
/// is set — in the colors of `way_type`; then draw the label text at its
/// anchor point, if any.
#[derive(Debug)]
pub struct DrawCmd {
    pub way_type: Type,
    pub points: Vec<(i64, i64)>,
    pub fill: bool,
    pub label: Option<(String, i64, i64)>,
}

/// Mathematical value of a [`DrawCmd`].
pub ghost struct DrawCmdV {
    pub way_type: Type,
    pub points: Seq<(i64, i64)>,
    pub fill: bool,
    pub label: Option<(Seq<char>, i64, i64)>,
}

impl View for DrawCmd {
    type V = DrawCmdV;

    open spec fn view(&self) -> DrawCmdV {
        DrawCmdV {
            way_type: self.way_type,
            points: self.points@,
            fill: self.fill,
            label: match self.label {
                Some((s, ax, ay)) => Some((s@, ax, ay)),
                None => None,
            },
        }
    }
}

/// Is this category's area filled after its outline is stroked? Water,
/// parks and forests are always filled; a building is filled only when it
/// is drawn as a standalone way, not as a whole relation; rivers and
/// generic lines are stroked only.
pub open spec fn spec_fill_for_type(way_type: Type, is_relation: bool) -> bool {
    match way_type {
        Type::Water => true,
        Type::Park => true,
        Type::Forest => true,
        Type::Building => !is_relation,
        Type::WaterRiver => false,
        Type::Generic => false,
    }
}

/// Is this category's area filled after its outline is stroked?
pub fn fill_for_type(way_type: &Type, is_relation: bool) -> (res: bool)
    ensures
        res == spec_fill_for_type(*way_type, is_relation),
{
    match *way_type {
        Type::Water => true,
        Type::Park => true,
        Type::Forest => true,
        Type::Building => !is_relation,
        Type::WaterRiver => false,
        Type::Generic => false,
    }
}

/// The node references of the list that resolve to a projected coordinate,
/// as tile-local points: the pixel position minus the tile origin.
pub open spec fn local_points(
    ids: Seq<u64>,
    coords: Map<u64, (i64, i64)>,
    ox: int,
    oy: int,
) -> Seq<(i64, i64)>
    decreases ids.len(),
{
    if ids.len() == 0 {
        Seq::<(i64, i64)>::empty()
    } else {
        let rest = local_points(ids.drop_last(), coords, ox, oy);
        let n = ids.last();
        if coords.contains_key(n) {
            rest.push(((coords[n].0 - ox) as i64, (coords[n].1 - oy) as i64))
        } else {
            rest
        }
    }
}

/// The value of the last `addr:housenumber` tag, if any.
pub open spec fn last_housenumber(tags: Seq<TagV>) -> Option<Seq<char>>
    decreases tags.len(),
{
    if tags.len() == 0 {
        None
    } else if tags.last().k == "addr:housenumber"@ {
        Some(tags.last().v)
    } else {
        last_housenumber(tags.drop_last())
    }
}

/// The sum of the x coordinates.
pub open spec fn sum_x(pts: Seq<(i64, i64)>) -> int
    decreases pts.len(),
{
    if pts.len() == 0 {
        0
    } else {
        sum_x(pts.drop_last()) + pts.last().0
    }
}

/// The sum of the y coordinates.
pub open spec fn sum_y(pts: Seq<(i64, i64)>) -> int
    decreases pts.len(),
{
    if pts.len() == 0 {
        0
    } else {
        sum_y(pts.drop_last()) + pts.last().1
    }
}

/// The arithmetic centroid of the points, rounding each axis toward zero.
pub open spec fn spec_centroid(pts: Seq<(i64, i64)>) -> (int, int)
    recommends
        pts.len() > 0,
{
    (trunc_div(sum_x(pts), pts.len() as int), trunc_div(sum_y(pts), pts.len() as int))
}

/// The label of one drawn polyline: the house number of a building drawn
/// beyond the label zoom, anchored at the centroid of its drawn vertices;
/// nothing otherwise.
pub open spec fn spec_label(
    way_type: Type,
    tag: Option<Seq<TagV>>,
    pts: Seq<(i64, i64)>,
    zoom: u8,
) -> Option<(Seq<char>, i64, i64)> {
    if way_type == Type::Building && zoom > LABEL_ZOOM && pts.len() > 0 {
        match last_housenumber(crate::spec_tags(tag)) {
            Some(text) => Some(
                (text, spec_centroid(pts).0 as i64, spec_centroid(pts).1 as i64),
            ),
            None => None,
        }
    } else {
        None
    }
}

/// The draw command of one standalone way.
pub open spec fn spec_way_cmd(
    w: WayV,
    t: Type,
    coords: Map<u64, (i64, i64)>,
    ox: int,
    oy: int,
    zoom: u8,
) -> DrawCmdV {
    let pts = local_points(w.nd, coords, ox, oy);
    DrawCmdV {
        way_type: t,
        points: pts,
        fill: spec_fill_for_type(t, false),
        label: spec_label(t, w.tag, pts, zoom),
    }
}

/// The draw command of one ring of a relation: stroked in the ring's own
/// category, filled when the ring's category fills as a way or the
/// relation's category fills as a relation; labelled only when the ring is
/// a single resolved building way.
pub open spec fn spec_loop_cmd(
    l: LoopV,
    rel_type: Type,
    wm: Map<u64, WayV>,
    coords: Map<u64, (i64, i64)>,
    ox: int,
    oy: int,
    zoom: u8,
) -> DrawCmdV {
    let pts = local_points(l.nodes, coords, ox, oy);
    DrawCmdV {
        way_type: l.member_type,
        points: pts,
        fill: spec_fill_for_type(l.member_type, false) || spec_fill_for_type(rel_type, true),
        label: match l.way_id {
            Some(wid) => if wm.contains_key(wid) {
                spec_label(l.member_type, wm[wid].tag, pts, zoom)
            } else {
                None
            },
            None => None,
        },
    }
}

/// The draw commands of one category's standalone ways in the tile, in
/// bucket order: the ways of that category that resolve in the lookup
/// table.
pub open spec fn spec_way_cmds(
    ids: Seq<u64>,
    t: Type,
    wt: Map<u64, Type>,
    wm: Map<u64, WayV>,
    coords: Map<u64, (i64, i64)>,
    ox: int,
    oy: int,
    zoom: u8,
) -> Seq<DrawCmdV>
    decreases ids.len(),
{
    if ids.len() == 0 {
        Seq::<DrawCmdV>::empty()
    } else {
        let rest = spec_way_cmds(ids.drop_last(), t, wt, wm, coords, ox, oy, zoom);
        let id = ids.last();
        if wt.contains_key(id) && wt[id] == t && wm.contains_key(id) {
            rest.push(spec_way_cmd(wm[id], t, coords, ox, oy, zoom))
        } else {
            rest
        }
    }
}

/// The draw commands of one category's relations in the tile, in bucket
/// order: each relation of that category expanded into its rings.
pub open spec fn spec_rel_cmds(
    ids: Seq<u64>,
    t: Type,
    rt: Map<u64, Type>,
    rm: Map<u64, RelationV>,
    wm: Map<u64, WayV>,
    coords: Map<u64, (i64, i64)>,
    ox: int,
    oy: int,
    zoom: u8,
) -> Seq<DrawCmdV>
    decreases ids.len(),
{
    if ids.len() == 0 {
        Seq::<DrawCmdV>::empty()
    } else {
        let rest = spec_rel_cmds(ids.drop_last(), t, rt, rm, wm, coords, ox, oy, zoom);
        let id = ids.last();
        if rt.contains_key(id) && rt[id] == t && rm.contains_key(id) {
            rest + spec_extract_loops(rm[id], wm).map_values(
                |l: LoopV| spec_loop_cmd(l, t, wm, coords, ox, oy, zoom),
            )
        } else {
            rest
        }
    }
}

/// One category's draw commands: all standalone ways first, then all
/// relations.
pub open spec fn spec_type_cmds(
    t: Type,
    way_ids: Seq<u64>,
    rel_ids: Seq<u64>,
    wt: Map<u64, Type>,
    rt: Map<u64, Type>,
    wm: Map<u64, WayV>,
    rm: Map<u64, RelationV>,
    coords: Map<u64, (i64, i64)>,
    ox: int,
    oy: int,
    zoom: u8,
) -> Seq<DrawCmdV> {
    spec_way_cmds(way_ids, t, wt, wm, coords, ox, oy, zoom) + spec_rel_cmds(
        rel_ids,
        t,
        rt,
        rm,
        wm,
        coords,
        ox,
        oy,
        zoom,
    )
}

/// The whole tile's draw commands, category by category in the fixed
/// z-order Forest, Park, WaterRiver, Water, Generic, Building.
pub open spec fn spec_render_plan(
    way_ids: Seq<u64>,
    rel_ids: Seq<u64>,
    wt: Map<u64, Type>,
    rt: Map<u64, Type>,
    wm: Map<u64, WayV>,
    rm: Map<u64, RelationV>,
    coords: Map<u64, (i64, i64)>,
    ox: int,
    oy: int,
    zoom: u8,
) -> Seq<DrawCmdV> {
    spec_type_cmds(Type::Forest, way_ids, rel_ids, wt, rt, wm, rm, coords, ox, oy, zoom)
        + spec_type_cmds(Type::Park, way_ids, rel_ids, wt, rt, wm, rm, coords, ox, oy, zoom)
        + spec_type_cmds(Type::WaterRiver, way_ids, rel_ids, wt, rt, wm, rm, coords, ox, oy, zoom)
        + spec_type_cmds(Type::Water, way_ids, rel_ids, wt, rt, wm, rm, coords, ox, oy, zoom)
        + spec_type_cmds(Type::Generic, way_ids, rel_ids, wt, rt, wm, rm, coords, ox, oy, zoom)
        + spec_type_cmds(Type::Building, way_ids, rel_ids, wt, rt, wm, rm, coords, ox, oy, zoom)
}

/// The view of an optional string.
pub open spec fn opt_string_view(s: Option<String>) -> Option<Seq<char>> {
    match s {
        Some(v) => Some(v@),
        None => None,
    }
}

/// The value of the last `addr:housenumber` tag of the list, if any.
#[verifier::loop_isolation(false)]
fn find_housenumber(tags: &Vec<Tag>) -> (res: Option<String>)
    ensures
        opt_string_view(res) == last_housenumber(crate::tags_view(tags@)),
{
    let ghost tv = crate::tags_view(tags@);
    let key = "addr:housenumber".to_owned();
    let mut res: Option<String> = None;
    let mut i: usize = 0;
    proof {
        assert(tv.take(0) =~= Seq::<TagV>::empty());
    }
    while i < tags.len()
        invariant
            0 <= i <= tags.len(),
            key@ == "addr:housenumber"@,
            opt_string_view(res) == last_housenumber(tv.take(i as int)),
        decreases tags.len() - i,
    {
        proof {
            assert(tv.take(i + 1).drop_last() =~= tv.take(i as int));
            assert(tv.take(i + 1).last() == tv[i as int]);
            assert(tv[i as int] == tags@[i as int]@);
        }
        if tags[i].k == key {
            res = Some(tags[i].v.clone());
        }
        i = i + 1;
    }
    proof {
        assert(tv.take(tags.len() as int) =~= tv);
    }
    res
}

/// The arithmetic centroid of the points, each axis rounded toward zero.
#[verifier::loop_isolation(false)]
fn centroid_of(pts: &Vec<(i64, i64)>) -> (c: (i64, i64))
    requires
        pts@.len() > 0,
        forall|k: int|
            0 <= k < pts@.len() ==> -LOCAL_LIMIT <= (#[trigger] pts@[k]).0 <= LOCAL_LIMIT
                && -LOCAL_LIMIT <= pts@[k].1 <= LOCAL_LIMIT,
    ensures
        c.0 == spec_centroid(pts@).0,
        c.1 == spec_centroid(pts@).1,
        -LOCAL_LIMIT <= c.0 <= LOCAL_LIMIT,
        -LOCAL_LIMIT <= c.1 <= LOCAL_LIMIT,
{
    let mut sx: i128 = 0;
    let mut sy: i128 = 0;
    let mut i: usize = 0;
    proof {
        assert(pts@.take(0) =~= Seq::<(i64, i64)>::empty());
    }
    while i < pts.len()
        invariant
            0 <= i <= pts.len(),
            sx == sum_x(pts@.take(i as int)),
            sy == sum_y(pts@.take(i as int)),
            -(i as int) * LOCAL_LIMIT <= sx <= (i as int) * LOCAL_LIMIT,
            -(i as int) * LOCAL_LIMIT <= sy <= (i as int) * LOCAL_LIMIT,
        decreases pts.len() - i,
    {
        proof {
            assert(pts@.take(i + 1).drop_last() =~= pts@.take(i as int));
            assert(pts@.take(i + 1).last() == pts@[i as int]);
            assert((i + 1) * LOCAL_LIMIT == (i as int) * LOCAL_LIMIT + LOCAL_LIMIT)
                by (nonlinear_arith);
        }
        sx = sx + (pts[i].0 as i128);
        sy = sy + (pts[i].1 as i128);
        i = i + 1;
    }
    proof {
        assert(pts@.take(pts.len() as int) =~= pts@);
    }
    let n = pts.len() as i128;
    let cx = div_trunc_i128(sx, n, pts.len());
    let cy = div_trunc_i128(sy, n, pts.len());
    (cx, cy)
}

/// Divide a bounded sum by the point count, rounding toward zero.
fn div_trunc_i128(s: i128, n: i128, len: usize) -> (res: i64)
    requires
        n == len as i128,
        len > 0,
        -(len as int) * LOCAL_LIMIT <= s <= (len as int) * LOCAL_LIMIT,
    ensures
        res == trunc_div(s as int, n as int),
        -LOCAL_LIMIT <= res <= LOCAL_LIMIT,
{
    proof {
        vstd::arithmetic::div_mod::lemma_div_multiples_vanish(
            LOCAL_LIMIT as int,
            len as int,
        );
    }
    if s >= 0 {
        proof {
            vstd::arithmetic::div_mod::lemma_div_is_ordered(
                s as int,
                (len as int) * LOCAL_LIMIT,
                len as int,
            );
            vstd::arithmetic::div_mod::lemma_div_pos_is_pos(s as int, len as int);
        }
        (s / n) as i64
    } else {
        let neg = -s;
        proof {
            vstd::arithmetic::div_mod::lemma_div_is_ordered(
                neg as int,
                (len as int) * LOCAL_LIMIT,
                len as int,
            );
            vstd::arithmetic::div_mod::lemma_div_pos_is_pos(neg as int, len as int);
        }
        -((neg / n) as i64)
    }
}

/// The way's node references as a plain ID list.
fn nd_refs(w: &Way) -> (res: Vec<u64>)
    ensures
        res@ == w@.nd,
{
    let mut res = Vec::<u64>::new();
    let mut i: usize = 0;
    while i < w.nd.len()
        invariant
            0 <= i <= w.nd.len(),
            res@ =~= w@.nd.take(i as int),
        decreases w.nd.len() - i,
    {
        proof {
            assert(w@.nd[i as int] == w.nd@[i as int].reference);
            assert(w@.nd.take(i + 1) =~= w@.nd.take(i as int).push(w@.nd[i as int]));
        }
        res.push(w.nd[i].reference);
        i = i + 1;
    }
    proof {
        assert(res@ =~= w@.nd);
    }
    res
}

/// The node references that resolve to a coordinate, as tile-local points.
#[verifier::loop_isolation(false)]
fn local_points_of(
    ids: &Vec<u64>,
    coords: &std::collections::HashMap<u64, (i64, i64)>,
    ox: i64,
    oy: i64,
) -> (res: Vec<(i64, i64)>)
    requires
        -0x80_0000_0000i64 <= ox <= 0x80_0000_0000i64,
        -0x80_0000_0000i64 <= oy <= 0x80_0000_0000i64,
        forall|id: u64|
            #[trigger] coords@.contains_key(id) ==> -PIXEL_LIMIT <= coords@[id].0 <= PIXEL_LIMIT
                && -PIXEL_LIMIT <= coords@[id].1 <= PIXEL_LIMIT,
    ensures
        res@ == local_points(ids@, coords@, ox as int, oy as int),
        forall|k: int|
            0 <= k < res@.len() ==> -LOCAL_LIMIT <= (#[trigger] res@[k]).0 <= LOCAL_LIMIT
                && -LOCAL_LIMIT <= res@[k].1 <= LOCAL_LIMIT,
{
    let mut res = Vec::<(i64, i64)>::new();
    let mut i: usize = 0;
    proof {
        assert(ids@.take(0) =~= Seq::<u64>::empty());
        assert(res@ =~= local_points(ids@.take(0), coords@, ox as int, oy as int));
    }
    while i < ids.len()
        invariant
            0 <= i <= ids.len(),
            res@ == local_points(ids@.take(i as int), coords@, ox as int, oy as int),
            forall|k: int|
                0 <= k < res@.len() ==> -LOCAL_LIMIT <= (#[trigger] res@[k]).0 <= LOCAL_LIMIT
                    && -LOCAL_LIMIT <= res@[k].1 <= LOCAL_LIMIT,
        decreases ids.len() - i,
    {
        let id = ids[i];
        proof {
            assert(ids@.take(i + 1).drop_last() =~= ids@.take(i as int));
            assert(ids@.take(i + 1).last() == id);
        }
        match coords.get(&id) {
            Some(p) => {
                let lp = (p.0 - ox, p.1 - oy);
                res.push(lp);
            },
            None => {
                proof {
                    assert(!coords@.contains_key(id));
                }
            },
        }
        i = i + 1;
    }
    proof {
        assert(ids@.take(ids.len() as int) =~= ids@);
    }
    res
}

/// The label of one drawn polyline, per [`spec_label`].
#[verifier::loop_isolation(false)]
fn make_label(
    way_type: Type,
    tag: &Option<Vec<Tag>>,
    pts: &Vec<(i64, i64)>,
    zoom: u8,
) -> (res: Option<(String, i64, i64)>)
    requires
        forall|k: int|
            0 <= k < pts@.len() ==> -LOCAL_LIMIT <= (#[trigger] pts@[k]).0 <= LOCAL_LIMIT
                && -LOCAL_LIMIT <= pts@[k].1 <= LOCAL_LIMIT,
    ensures
        (match res {
            Some((s, ax, ay)) => Some((s@, ax, ay)),
            None => None,
        }) == spec_label(way_type, crate::opt_tags_view(*tag), pts@, zoom),
{
    if way_type == Type::Building && zoom > LABEL_ZOOM && pts.len() > 0 {
        let number = match tag {
            Some(tags) => find_housenumber(tags),
            None => None,
        };
        proof {
            assert(crate::spec_tags(crate::opt_tags_view(*tag)) == match *tag {
                Some(v) => crate::tags_view(v@),
                None => Seq::<TagV>::empty(),
            });
            if tag is None {
                assert(last_housenumber(Seq::<TagV>::empty()) is None);
            }
        }
        match number {
            Some(text) => {
                let (ax, ay) = centroid_of(pts);
                Some((text, ax, ay))
            },
            None => None,
        }
    } else {
        None
    }
}

/// The draw command of one standalone way.
fn make_way_cmd(
    w: &Way,
    t: Type,
    coords: &std::collections::HashMap<u64, (i64, i64)>,
    ox: i64,
    oy: i64,
    zoom: u8,
) -> (res: DrawCmd)
    requires
        -0x80_0000_0000i64 <= ox <= 0x80_0000_0000i64,
        -0x80_0000_0000i64 <= oy <= 0x80_0000_0000i64,
        forall|id: u64|
            #[trigger] coords@.contains_key(id) ==> -PIXEL_LIMIT <= coords@[id].0 <= PIXEL_LIMIT
                && -PIXEL_LIMIT <= coords@[id].1 <= PIXEL_LIMIT,
    ensures
        res@ == spec_way_cmd(w@, t, coords@, ox as int, oy as int, zoom),
{
    let ids = nd_refs(w);
    let points = local_points_of(&ids, coords, ox, oy);
    let label = make_label(t, &w.tag, &points, zoom);
    let fill = fill_for_type(&t, false);
    DrawCmd { way_type: t, points, fill, label }
}

/// The draw command of one ring of a relation.
fn make_loop_cmd(
    l: &LoopWithType,
    rel_type: Type,
    id_to_ways: &std::collections::HashMap<u64, Way>,
    coords: &std::collections::HashMap<u64, (i64, i64)>,
    ox: i64,
    oy: i64,
    zoom: u8,
) -> (res: DrawCmd)
    requires
        -0x80_0000_0000i64 <= ox <= 0x80_0000_0000i64,
        -0x80_0000_0000i64 <= oy <= 0x80_0000_0000i64,
        forall|id: u64|
            #[trigger] coords@.contains_key(id) ==> -PIXEL_LIMIT <= coords@[id].0 <= PIXEL_LIMIT
                && -PIXEL_LIMIT <= coords@[id].1 <= PIXEL_LIMIT,
    ensures
        res@ == spec_loop_cmd(
            l@,
            rel_type,
            ways_map_view(id_to_ways@),
            coords@,
            ox as int,
            oy as int,
            zoom,
        ),
{
    let points = local_points_of(&l.memeber_loop, coords, ox, oy);
    let label = match l.way_id {
        Some(wid) => match id_to_ways.get(&wid) {
            Some(way) => {
                proof {
                    assert(ways_map_view(id_to_ways@).contains_key(wid) && ways_map_view(
                        id_to_ways@,
                    )[wid] == way@);
                }
                make_label(l.member_type, &way.tag, &points, zoom)
            },
            None => {
                proof {
                    assert(!ways_map_view(id_to_ways@).contains_key(wid));
                }
                None
            },
        },
        None => None,
    };
    let fill = fill_for_type(&l.member_type, false) || fill_for_type(&rel_type, true);
    DrawCmd { way_type: l.member_type, points, fill, label }
}

/// Append one category's draw commands: the tile's standalone ways of that
/// category, then its relations of that category expanded into rings.
#[verifier::loop_isolation(false)]
fn push_type_cmds(
    cmds: &mut Vec<DrawCmd>,
    t: Type,
    way_ids: &Vec<u64>,
    rel_ids: &Vec<u64>,
    state: &TileCacheState,
    coords: &std::collections::HashMap<u64, (i64, i64)>,
    ox: i64,
    oy: i64,
    zoom: u8,
) -> (nothing: ())
    requires
        -0x80_0000_0000i64 <= ox <= 0x80_0000_0000i64,
        -0x80_0000_0000i64 <= oy <= 0x80_0000_0000i64,
        forall|id: u64|
            #[trigger] coords@.contains_key(id) ==> -PIXEL_LIMIT <= coords@[id].0 <= PIXEL_LIMIT
                && -PIXEL_LIMIT <= coords@[id].1 <= PIXEL_LIMIT,
    ensures
        final(cmds)@.map_values(|c: DrawCmd| c@) == old(cmds)@.map_values(|c: DrawCmd| c@)
            + spec_type_cmds(
            t,
            way_ids@,
            rel_ids@,
            state.way_to_type@,
            state.relation_to_type@,
            ways_map_view(state.id_to_ways@),
            crate::cache::rels_map_view(state.id_to_relations@),
            coords@,
            ox as int,
            oy as int,
            zoom,
        ),
{
    let ghost base = cmds@.map_values(|c: DrawCmd| c@);
    let ghost wt = state.way_to_type@;
    let ghost rt = state.relation_to_type@;
    let ghost wm = ways_map_view(state.id_to_ways@);
    let ghost rm = crate::cache::rels_map_view(state.id_to_relations@);

    // Standalone ways of this category, in bucket order.
    let mut i: usize = 0;
    proof {
        assert(way_ids@.take(0) =~= Seq::<u64>::empty());
        assert(cmds@.map_values(|c: DrawCmd| c@) =~= base + spec_way_cmds(
            way_ids@.take(0),
            t,
            wt,
            wm,
            coords@,
            ox as int,
            oy as int,
            zoom,
        ));
    }
    while i < way_ids.len()
        invariant
            0 <= i <= way_ids.len(),
            cmds@.map_values(|c: DrawCmd| c@) == base + spec_way_cmds(
                way_ids@.take(i as int),
                t,
                wt,
                wm,
                coords@,
                ox as int,
                oy as int,
                zoom,
            ),
        decreases way_ids.len() - i,
    {
        let id = way_ids[i];
        proof {
            assert(way_ids@.take(i + 1).drop_last() =~= way_ids@.take(i as int));
            assert(way_ids@.take(i + 1).last() == id);
        }
        match state.way_to_type.get(&id) {
            Some(ty) => {
                if *ty == t {
                    match state.id_to_ways.get(&id) {
                        Some(way) => {
                            proof {
                                assert(wm.contains_key(id) && wm[id] == way@);
                            }
                            let ghost before = cmds@.map_values(|c: DrawCmd| c@);
                            let cmd = make_way_cmd(way, t, coords, ox, oy, zoom);
                            cmds.push(cmd);
                            proof {
                                assert(cmds@.map_values(|c: DrawCmd| c@) =~= before.push(
                                    spec_way_cmd(wm[id], t, coords@, ox as int, oy as int, zoom),
                                ));
                            }
                        },
                        None => {
                            proof {
                                assert(!wm.contains_key(id));
                            }
                        },
                    }
                }
            },
            None => {
                proof {
                    assert(!wt.contains_key(id));
                }
            },
        }
        i = i + 1;
    }
    proof {
        assert(way_ids@.take(way_ids.len() as int) =~= way_ids@);
    }

    // Relations of this category, each expanded into rings.
    let ghost ways_base = cmds@.map_values(|c: DrawCmd| c@);
    let mut r: usize = 0;
    proof {
        assert(rel_ids@.take(0) =~= Seq::<u64>::empty());
        assert(cmds@.map_values(|c: DrawCmd| c@) =~= ways_base + spec_rel_cmds(
            rel_ids@.take(0),
            t,
            rt,
            rm,
            wm,
            coords@,
            ox as int,
            oy as int,
            zoom,
        ));
    }
    while r < rel_ids.len()
        invariant
            0 <= r <= rel_ids.len(),
            cmds@.map_values(|c: DrawCmd| c@) == ways_base + spec_rel_cmds(
                rel_ids@.take(r as int),
                t,
                rt,
                rm,
                wm,
                coords@,
                ox as int,
                oy as int,
                zoom,
            ),
        decreases rel_ids.len() - r,
    {
        let id = rel_ids[r];
        proof {
            assert(rel_ids@.take(r + 1).drop_last() =~= rel_ids@.take(r as int));
            assert(rel_ids@.take(r + 1).last() == id);
        }
        match state.relation_to_type.get(&id) {
            Some(ty) => {
                if *ty == t {
                    match state.id_to_relations.get(&id) {
                        Some(relation) => {
                            proof {
                                assert(rm.contains_key(id) && rm[id] == relation@);
                            }
                            let loops = extract_loops_to_render(relation, &state.id_to_ways);
                            let ghost loop_cmds = spec_extract_loops(rm[id], wm).map_values(
                                |l: LoopV| spec_loop_cmd(
                                    l,
                                    t,
                                    wm,
                                    coords@,
                                    ox as int,
                                    oy as int,
                                    zoom,
                                ),
                            );
                            let ghost rel_base = cmds@.map_values(|c: DrawCmd| c@);
                            let mut k: usize = 0;
                            proof {
                                assert(loop_cmds.take(0) =~= Seq::<DrawCmdV>::empty());
                                assert(cmds@.map_values(|c: DrawCmd| c@) =~= rel_base
                                    + loop_cmds.take(0));
                            }
                            while k < loops.len()
                                invariant
                                    0 <= k <= loops.len(),
                                    cmds@.map_values(|c: DrawCmd| c@) == rel_base + loop_cmds.take(
                                        k as int,
                                    ),
                                decreases loops.len() - k,
                            {
                                let ghost before = cmds@.map_values(|c: DrawCmd| c@);
                                let cmd = make_loop_cmd(
                                    &loops[k],
                                    t,
                                    &state.id_to_ways,
                                    coords,
                                    ox,
                                    oy,
                                    zoom,
                                );
                                cmds.push(cmd);
                                proof {
                                    assert(loops@.map_values(|l: LoopWithType| l@)[k as int]
                                        == loops@[k as int]@);
                                    assert(loop_cmds[k as int] == spec_loop_cmd(
                                        loops@[k as int]@,
                                        t,
                                        wm,
                                        coords@,
                                        ox as int,
                                        oy as int,
                                        zoom,
                                    ));
                                    assert(loop_cmds.take(k + 1) =~= loop_cmds.take(
                                        k as int,
                                    ).push(loop_cmds[k as int]));
                                    assert(cmds@.map_values(|c: DrawCmd| c@) =~= before.push(
                                        loop_cmds[k as int],
                                    ));
                                }
                                k = k + 1;
                            }
                            proof {
                                assert(loop_cmds.take(loops.len() as int) =~= loop_cmds);
                                assert(cmds@.map_values(|c: DrawCmd| c@) =~= ways_base
                                    + (spec_rel_cmds(
                                    rel_ids@.take(r as int),
                                    t,
                                    rt,
                                    rm,
                                    wm,
                                    coords@,
                                    ox as int,
                                    oy as int,
                                    zoom,
                                ) + loop_cmds));
                            }
                        },
                        None => {
                            proof {
                                assert(!rm.contains_key(id));
                            }
                        },
                    }
                }
            },
            None => {
                proof {
                    assert(!rt.contains_key(id));
                }
            },
        }
        r = r + 1;
    }
    proof {
        assert(rel_ids@.take(rel_ids.len() as int) =~= rel_ids@);
    }
}

/// The draw plan of one tile: every indexed feature of the tile turned
/// into draw commands, category by category in the fixed z-order Forest,
/// Park, WaterRiver, Water, Generic, Building — later categories paint
/// over earlier ones.
#[verifier::loop_isolation(false)]
pub fn render_tile_plan(state: &TileCacheState, index: &Index, x: i32, y: i32) -> (res: Vec<
    DrawCmd,
>)
    requires
        forall|id: u64|
            #[trigger] index.node_to_tile_zoom_coordinates@.contains_key(id) ==> -PIXEL_LIMIT
                <= index.node_to_tile_zoom_coordinates@[id].0 <= PIXEL_LIMIT && -PIXEL_LIMIT
                <= index.node_to_tile_zoom_coordinates@[id].1 <= PIXEL_LIMIT,
    ensures
        res@.map_values(|c: DrawCmd| c@) == spec_render_plan(
            tb_seq(index.ways_to_tile@, x, y),
            tb_seq(index.relations_to_tile@, x, y),
            state.way_to_type@,
            state.relation_to_type@,
            ways_map_view(state.id_to_ways@),
            crate::cache::rels_map_view(state.id_to_relations@),
            index.node_to_tile_zoom_coordinates@,
            (x as int) * (TILE_SIZE as int),
            (y as int) * (TILE_SIZE as int),
            index.zoom,
        ),
{
    let way_ids = index.ways_to_tile.ids_in(x, y);
    let rel_ids = index.relations_to_tile.ids_in(x, y);
    let ox = (x as i64) * (TILE_SIZE as i64);
    let oy = (y as i64) * (TILE_SIZE as i64);
    let coords = &index.node_to_tile_zoom_coordinates;
    let zoom = index.zoom;
    let mut cmds = Vec::<DrawCmd>::new();
    proof {
        assert(cmds@.map_values(|c: DrawCmd| c@) =~= Seq::<DrawCmdV>::empty());
    }
    push_type_cmds(&mut cmds, Type::Forest, &way_ids, &rel_ids, state, coords, ox, oy, zoom);
    push_type_cmds(&mut cmds, Type::Park, &way_ids, &rel_ids, state, coords, ox, oy, zoom);
    push_type_cmds(&mut cmds, Type::WaterRiver, &way_ids, &rel_ids, state, coords, ox, oy, zoom);
    push_type_cmds(&mut cmds, Type::Water, &way_ids, &rel_ids, state, coords, ox, oy, zoom);
    push_type_cmds(&mut cmds, Type::Generic, &way_ids, &rel_ids, state, coords, ox, oy, zoom);
    push_type_cmds(&mut cmds, Type::Building, &way_ids, &rel_ids, state, coords, ox, oy, zoom);
    proof {
        assert(Seq::<DrawCmdV>::empty() + spec_type_cmds(
            Type::Forest,
            way_ids@,
            rel_ids@,
            state.way_to_type@,
            state.relation_to_type@,
            ways_map_view(state.id_to_ways@),
            crate::cache::rels_map_view(state.id_to_relations@),
            index.node_to_tile_zoom_coordinates@,
            ox as int,
            oy as int,
            zoom,
        ) =~= spec_type_cmds(
            Type::Forest,
            way_ids@,
            rel_ids@,
            state.way_to_type@,
            state.relation_to_type@,
            ways_map_view(state.id_to_ways@),
            crate::cache::rels_map_view(state.id_to_relations@),
            index.node_to_tile_zoom_coordinates@,
            ox as int,
            oy as int,
            zoom,
        ));
    }
    cmds
}

} // verus!

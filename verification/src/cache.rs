//! Tile cache: the zoom-independent precomputation over the loaded dataset
//! and the per-zoom index cache.
//!
//! [`TileCache::new_no_default`] classifies every feature once, builds the
//! ID lookup tables, and splits the ways into relation-owned and standalone
//! ones — a way referenced by any relation member is rendered through its
//! relation only, never a second time on its own. [`TileCache::get_cache`]
//! then builds each zoom level's index on first request and returns the
//! stored index on every later request for that zoom: at most one build per
//! zoom, and every call returns the same content.

use vstd::prelude::*;

use crate::classify::{check_relation_type, check_way_type, spec_relation_type, spec_way_type};
use crate::filter::lemma_filter_push;
use crate::index::{build_index_for_zoom, index_built, Index};
use crate::rings::ways_map_view;
use crate::{Osm, OsmV, Relation, RelationV, Type, Way, WayV, MAX_ZOOM, PLANE_LIMIT};

verus! {

broadcast use vstd::std_specs::hash::group_hash_axioms;

/// The ID-to-way table of a way list: later entries override earlier ones.
pub open spec fn spec_way_map(ways: Seq<WayV>) -> Map<u64, WayV>
    decreases ways.len(),
{
    if ways.len() == 0 {
        Map::<u64, WayV>::empty()
    } else {
        spec_way_map(ways.drop_last()).insert(ways.last().id, ways.last())
    }
}

/// The ID-to-relation table of a relation list.
pub open spec fn spec_relation_map(rels: Seq<RelationV>) -> Map<u64, RelationV>
    decreases rels.len(),
{
    if rels.len() == 0 {
        Map::<u64, RelationV>::empty()
    } else {
        spec_relation_map(rels.drop_last()).insert(rels.last().id, rels.last())
    }
}

/// Every way's category, keyed by ID.
pub open spec fn spec_way_types(ways: Seq<WayV>) -> Map<u64, Type>
    decreases ways.len(),
{
    if ways.len() == 0 {
        Map::<u64, Type>::empty()
    } else {
        spec_way_types(ways.drop_last()).insert(ways.last().id, spec_way_type(ways.last()))
    }
}

/// Every relation's category, keyed by ID.
pub open spec fn spec_relation_types(rels: Seq<RelationV>) -> Map<u64, Type>
    decreases rels.len(),
{
    if rels.len() == 0 {
        Map::<u64, Type>::empty()
    } else {
        spec_relation_types(rels.drop_last()).insert(
            rels.last().id,
            spec_relation_type(rels.last()),
        )
    }
}

/// Is this ID referenced by any member of any relation? Such a way is
/// relation-owned and is not indexed as a standalone way.
pub open spec fn spec_owned(id: u64, rels: Seq<RelationV>) -> bool {
    exists|i: int, j: int|
        0 <= i < rels.len() && 0 <= j < rels[i].member.len() && (#[trigger] rels[i].member[
            j
        ]).member_ref == id
}

/// The view of an ID-to-relation lookup table.
pub open spec fn rels_map_view(m: Map<u64, Relation>) -> Map<u64, RelationV> {
    Map::new(|k: u64| m.contains_key(k), |k: u64| m[k]@)
}

/// The triple list the per-zoom projection reads: every node's ID and
/// plane position, in dataset order.
pub open spec fn spec_node_triples(nodes: Seq<crate::NodeV>) -> Seq<(u64, i64, i64)> {
    nodes.map_values(|n: crate::NodeV| (n.id, n.plane_x, n.plane_y))
}

/// The zoom-independent precomputation over the loaded dataset.
pub struct TileCacheState {
    /// Every relation's category, classified once.
    pub relation_to_type: std::collections::HashMap<u64, Type>,
    /// Every way's category, classified once.
    pub way_to_type: std::collections::HashMap<u64, Type>,
    /// Relation lookup by ID.
    pub id_to_relations: std::collections::HashMap<u64, Relation>,
    /// Way lookup by ID.
    pub id_to_ways: std::collections::HashMap<u64, Way>,
    /// The standalone ways: those no relation member references.
    pub ways: Vec<Way>,
    /// All relations, in dataset order.
    pub relations: Vec<Relation>,
}

/// Does the state hold exactly the precomputation the dataset gives?
pub open spec fn state_from(st: TileCacheState, osm: OsmV) -> bool {
    &&& st.relation_to_type@ == spec_relation_types(osm.relation)
    &&& st.way_to_type@ == spec_way_types(osm.way)
    &&& ways_map_view(st.id_to_ways@) == spec_way_map(osm.way)
    &&& rels_map_view(st.id_to_relations@) == spec_relation_map(osm.relation)
    &&& st.ways@.map_values(|w: Way| w@) == osm.way.filter(
        |wv: WayV| !spec_owned(wv.id, osm.relation),
    )
    &&& st.relations@.map_values(|r: Relation| r@) == osm.relation
}

/// The per-zoom index cache over one loaded dataset.
pub struct TileCache {
    /// The zoom-independent precomputation.
    pub state: TileCacheState,
    /// Every node's ID and plane position, the input of each per-zoom
    /// projection.
    pub nodes_to_tile: Vec<(u64, i64, i64)>,
    /// The indexes built so far, keyed by zoom. Never evicted.
    pub cache: std::collections::HashMap<u8, Index>,
}

/// The cache's invariant: node positions stay within the plane bound, and
/// every stored index is exactly the index its zoom's build produces over
/// this state.
pub open spec fn cache_wf(c: TileCache) -> bool {
    &&& forall|k: int|
        0 <= k < c.nodes_to_tile@.len() ==> -PLANE_LIMIT <= (#[trigger] c.nodes_to_tile@[k]).1
            <= PLANE_LIMIT && -PLANE_LIMIT <= c.nodes_to_tile@[k].2 <= PLANE_LIMIT
    &&& forall|z: u8|
        #[trigger] c.cache@.contains_key(z) ==> index_built(
            c.cache@[z],
            c.nodes_to_tile@,
            c.state.ways@.map_values(|w: Way| w@),
            c.state.relations@.map_values(|r: Relation| r@),
            ways_map_view(c.state.id_to_ways@),
            z,
        )
}

/// What one `get_cache` call promises: the state and node list are
/// untouched; the returned index is the zoom's built index and is the one
/// stored under that zoom; a zoom already cached is answered from the
/// cache with nothing rebuilt and nothing changed; a zoom not yet cached
/// extends the cache by exactly that one entry.
pub open spec fn get_cache_post(pre: TileCache, post: TileCache, result: Index, zoom: u8) -> bool {
    &&& post.state == pre.state
    &&& post.nodes_to_tile == pre.nodes_to_tile
    &&& post.cache@.contains_key(zoom) && result == post.cache@[zoom]
    &&& index_built(
        result,
        pre.nodes_to_tile@,
        pre.state.ways@.map_values(|w: Way| w@),
        pre.state.relations@.map_values(|r: Relation| r@),
        ways_map_view(pre.state.id_to_ways@),
        zoom,
    )
    &&& pre.cache@.contains_key(zoom) ==> post.cache@ == pre.cache@ && result == pre.cache@[zoom]
    &&& !pre.cache@.contains_key(zoom) ==> post.cache@ == pre.cache@.insert(zoom, result)
}

impl TileCache {
    /// Precompute everything zoom-independent over the dataset: the
    /// category of every feature, the ID lookup tables, the node plane
    /// positions, and the split of ways into relation-owned and
    /// standalone. The cache starts empty.
    #[verifier::loop_isolation(false)]
    pub fn new_no_default(osm: Osm) -> (res: TileCache)
        requires
            forall|k: int|
                0 <= k < osm@.node.len() ==> -PLANE_LIMIT <= (#[trigger] osm@.node[k]).plane_x
                    <= PLANE_LIMIT && -PLANE_LIMIT <= osm@.node[k].plane_y <= PLANE_LIMIT,
        ensures
            state_from(res.state, osm@),
            res.nodes_to_tile@ == spec_node_triples(osm@.node),
            res.cache@ == Map::<u8, Index>::empty(),
            cache_wf(res),
    {
        let ghost osmv = osm@;

        // Node plane positions, in dataset order.
        let mut nodes_to_tile = Vec::<(u64, i64, i64)>::new();
        let mut i: usize = 0;
        while i < osm.node.len()
            invariant
                0 <= i <= osm.node.len(),
                nodes_to_tile@.len() == i,
                forall|k: int|
                    0 <= k < i ==> nodes_to_tile@[k] == ((#[trigger] osmv.node[k]).id,
                    osmv.node[k].plane_x, osmv.node[k].plane_y),
        decreases osm.node.len() - i,
        {
            let node = &osm.node[i];
            proof {
                assert(node@ == osmv.node[i as int]);
            }
            nodes_to_tile.push((node.id, node.plane_x, node.plane_y));
            i = i + 1;
        }
        proof {
            assert(nodes_to_tile@ =~= spec_node_triples(osmv.node));
        }

        // Classify every relation once.
        let mut relation_to_type = std::collections::HashMap::<u64, Type>::new();
        i = 0;
        proof {
            assert(osmv.relation.take(0) =~= Seq::<RelationV>::empty());
            assert(relation_to_type@ =~= spec_relation_types(osmv.relation.take(0)));
        }
        while i < osm.relation.len()
            invariant
                0 <= i <= osm.relation.len(),
                relation_to_type@ == spec_relation_types(osmv.relation.take(i as int)),
            decreases osm.relation.len() - i,
        {
            let relation = &osm.relation[i];
            let t = check_relation_type(relation);
            proof {
                assert(relation@ == osmv.relation[i as int]);
                assert(osmv.relation.take(i + 1).drop_last() =~= osmv.relation.take(i as int));
                assert(osmv.relation.take(i + 1).last() == relation@);
            }
            relation_to_type.insert(relation.id, t);
            i = i + 1;
        }
        proof {
            assert(osmv.relation.take(osm.relation.len() as int) =~= osmv.relation);
        }

        // Classify every way once.
        let mut way_to_type = std::collections::HashMap::<u64, Type>::new();
        i = 0;
        proof {
            assert(osmv.way.take(0) =~= Seq::<WayV>::empty());
            assert(way_to_type@ =~= spec_way_types(osmv.way.take(0)));
        }
        while i < osm.way.len()
            invariant
                0 <= i <= osm.way.len(),
                way_to_type@ == spec_way_types(osmv.way.take(i as int)),
            decreases osm.way.len() - i,
        {
            let way = &osm.way[i];
            let t = check_way_type(way);
            proof {
                assert(way@ == osmv.way[i as int]);
                assert(osmv.way.take(i + 1).drop_last() =~= osmv.way.take(i as int));
                assert(osmv.way.take(i + 1).last() == way@);
            }
            way_to_type.insert(way.id, t);
            i = i + 1;
        }
        proof {
            assert(osmv.way.take(osm.way.len() as int) =~= osmv.way);
        }

        // Way lookup by ID.
        let mut id_to_ways = std::collections::HashMap::<u64, Way>::new();
        i = 0;
        proof {
            assert(ways_map_view(id_to_ways@) =~= spec_way_map(osmv.way.take(0)));
        }
        while i < osm.way.len()
            invariant
                0 <= i <= osm.way.len(),
                ways_map_view(id_to_ways@) == spec_way_map(osmv.way.take(i as int)),
            decreases osm.way.len() - i,
        {
            let way = &osm.way[i];
            proof {
                assert(way@ == osmv.way[i as int]);
                assert(osmv.way.take(i + 1).drop_last() =~= osmv.way.take(i as int));
                assert(osmv.way.take(i + 1).last() == way@);
            }
            let ghost before = id_to_ways@;
            id_to_ways.insert(way.id, way.clone());
            proof {
                assert(ways_map_view(id_to_ways@) =~= ways_map_view(before).insert(way.id, way@));
            }
            i = i + 1;
        }

        // Relation lookup by ID.
        let mut id_to_relations = std::collections::HashMap::<u64, Relation>::new();
        i = 0;
        proof {
            assert(rels_map_view(id_to_relations@) =~= spec_relation_map(osmv.relation.take(0)));
        }
        while i < osm.relation.len()
            invariant
                0 <= i <= osm.relation.len(),
                rels_map_view(id_to_relations@) == spec_relation_map(osmv.relation.take(i as int)),
            decreases osm.relation.len() - i,
        {
            let relation = &osm.relation[i];
            proof {
                assert(relation@ == osmv.relation[i as int]);
                assert(osmv.relation.take(i + 1).drop_last() =~= osmv.relation.take(i as int));
                assert(osmv.relation.take(i + 1).last() == relation@);
            }
            let ghost before = id_to_relations@;
            id_to_relations.insert(relation.id, relation.clone());
            proof {
                assert(rels_map_view(id_to_relations@) =~= rels_map_view(before).insert(
                    relation.id,
                    relation@,
                ));
            }
            i = i + 1;
        }

        // The IDs any relation member references.
        let mut owned = std::collections::HashSet::<u64>::new();
        i = 0;
        while i < osm.relation.len()
            invariant
                0 <= i <= osm.relation.len(),
                forall|id: u64|
                    owned@.contains(id) <==> spec_owned(id, osmv.relation.take(i as int)),
            decreases osm.relation.len() - i,
        {
            let members = &osm.relation[i].member;
            let mut j: usize = 0;
            proof {
                assert(members@.map_values(|m: crate::Member| m@) == osmv.relation[i as int].member);
            }
            while j < members.len()
                invariant
                    0 <= j <= members.len(),
                    0 <= i < osm.relation.len(),
                    forall|id: u64|
                        owned@.contains(id) <==> spec_owned(id, osmv.relation.take(i as int)) || (
                        exists|b: int|
                            0 <= b < j && osmv.relation[i as int].member[b].member_ref == id),
                decreases members.len() - j,
            {
                let m_ref = members[j].member_ref;
                proof {
                    assert(members@[j as int]@ == osmv.relation[i as int].member[j as int]);
                    assert(osmv.relation[i as int].member[j as int].member_ref == m_ref);
                }
                owned.insert(m_ref);
                j = j + 1;
            }
            proof {
                assert(osmv.relation.take(i + 1) =~= osmv.relation.take(i as int).push(
                    osmv.relation[i as int],
                ));
                assert forall|id: u64|
                    spec_owned(id, osmv.relation.take(i + 1)) <==> spec_owned(
                        id,
                        osmv.relation.take(i as int),
                    ) || (exists|b: int|
                        0 <= b < osmv.relation[i as int].member.len() && osmv.relation[
                            i as int
                        ].member[b].member_ref == id) by {
                    let pre = osmv.relation.take(i as int);
                    let ext = osmv.relation.take(i + 1);
                    if spec_owned(id, ext) {
                        let (a, b) = choose|a: int, b: int|
                            0 <= a < ext.len() && 0 <= b < ext[a].member.len() && (
                            #[trigger] ext[a].member[b]).member_ref == id;
                        if a < pre.len() {
                            assert(pre[a] == ext[a]);
                            assert(spec_owned(id, pre));
                        }
                    }
                    if spec_owned(id, pre) {
                        let (a, b) = choose|a: int, b: int|
                            0 <= a < pre.len() && 0 <= b < pre[a].member.len() && (
                            #[trigger] pre[a].member[b]).member_ref == id;
                        assert(ext[a] == pre[a]);
                        assert(spec_owned(id, ext));
                    }
                    if exists|b: int|
                        0 <= b < osmv.relation[i as int].member.len() && osmv.relation[
                            i as int
                        ].member[b].member_ref == id {
                        let b = choose|b: int|
                            0 <= b < osmv.relation[i as int].member.len() && osmv.relation[
                                i as int
                            ].member[b].member_ref == id;
                        assert(ext[i as int] == osmv.relation[i as int]);
                        assert(spec_owned(id, ext));
                    }
                }
            }
            i = i + 1;
        }
        proof {
            assert(osmv.relation.take(osm.relation.len() as int) =~= osmv.relation);
        }

        // The standalone ways: those no relation member references.
        let ghost pred = |wv: WayV| !spec_owned(wv.id, osmv.relation);
        let mut ways = Vec::<Way>::new();
        i = 0;
        proof {
            assert(osmv.way.take(0) =~= Seq::<WayV>::empty());
            assert(Seq::<WayV>::empty().filter(pred) =~= Seq::<WayV>::empty());
            assert(ways@.map_values(|w: Way| w@) =~= Seq::<WayV>::empty());
        }
        while i < osm.way.len()
            invariant
                0 <= i <= osm.way.len(),
                ways@.map_values(|w: Way| w@) == osmv.way.take(i as int).filter(pred),
                forall|id: u64| owned@.contains(id) <==> spec_owned(id, osmv.relation),
            decreases osm.way.len() - i,
        {
            let way = &osm.way[i];
            proof {
                assert(way@ == osmv.way[i as int]);
                assert(osmv.way.take(i + 1) =~= osmv.way.take(i as int).push(way@));
                lemma_filter_push(osmv.way.take(i as int), pred, way@);
            }
            let ghost before = ways@;
            if !owned.contains(&way.id) {
                ways.push(way.clone());
                proof {
                    assert(ways@.map_values(|w: Way| w@) =~= before.map_values(
                        |w: Way| w@,
                    ).push(way@));
                }
            }
            i = i + 1;
        }

        // All relations, in dataset order.
        let mut relations = Vec::<Relation>::new();
        i = 0;
        while i < osm.relation.len()
            invariant
                0 <= i <= osm.relation.len(),
                relations@.len() == i,
                forall|k: int| 0 <= k < i ==> relations@[k]@ == osmv.relation[k],
            decreases osm.relation.len() - i,
        {
            let relation = &osm.relation[i];
            proof {
                assert(relation@ == osmv.relation[i as int]);
            }
            relations.push(relation.clone());
            i = i + 1;
        }
        proof {
            assert(relations@.map_values(|r: Relation| r@) =~= osmv.relation);
        }

        TileCache {
            state: TileCacheState {
                relation_to_type,
                way_to_type,
                id_to_relations,
                id_to_ways,
                ways,
                relations,
            },
            nodes_to_tile,
            cache: std::collections::HashMap::new(),
        }
    }

    /// The index of a zoom level: built on the first request for that zoom
    /// and stored; every later request for the same zoom is answered from
    /// the cache without rebuilding, with the identical index.
    pub fn get_cache(&mut self, zoom: u8) -> (res: &Index)
        requires
            cache_wf(*old(self)),
            zoom <= MAX_ZOOM,
        ensures
            cache_wf(*final(self)),
            get_cache_post(*old(self), *final(self), *res, zoom),
    {
        if !self.cache.contains_key(&zoom) {
            let idx = build_index_for_zoom(
                &self.nodes_to_tile,
                &self.state.ways,
                &self.state.relations,
                &self.state.id_to_ways,
                zoom,
            );
            self.cache.insert(zoom, idx);
        }
        self.cache.get(&zoom).unwrap()
    }
}

/// Cache single-build: once a zoom's index is built, a second request for
/// the same zoom changes nothing — no rebuild happens, the cache is
/// untouched, and the caller receives the identical index. By induction,
/// N requests for one zoom build its index exactly once, and all N calls
/// return equal content.
pub proof fn lemma_cache_single_build(
    c0: TileCache,
    c1: TileCache,
    c2: TileCache,
    r1: Index,
    r2: Index,
    zoom: u8,
)
    requires
        get_cache_post(c0, c1, r1, zoom),
        get_cache_post(c1, c2, r2, zoom),
    ensures
        c2.cache@ == c1.cache@,
        c2.state == c1.state,
        r2 == r1,
{
}

} // verus!

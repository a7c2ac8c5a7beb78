use osm_tiles::cache::TileCache;
use osm_tiles::render::{fill_for_type, render_tile_plan};
use osm_tiles::{Member, Nd, Node, Osm, Relation, Tag, Type, Way, PLANE_SCALE};

fn tag(k: &str, v: &str) -> Tag {
    Tag { k: k.to_string(), v: v.to_string() }
}

fn node(id: u64, plane_x: i64, plane_y: i64) -> Node {
    Node { id, plane_x, plane_y, tag: None }
}

fn way(id: u64, nds: &[u64], tags: Option<Vec<Tag>>) -> Way {
    Way { id, nd: nds.iter().map(|r| Nd { reference: *r }).collect(), tag: tags }
}

/// The plane position of a latitude/longitude pair, in fixed point: the
/// same web-mercator projection the application's loader performs.
fn plane(lat: f64, lon: f64) -> (i64, i64) {
    let pi = std::f64::consts::PI;
    let x = (lon.to_radians() + pi) / (2.0 * pi);
    let y = (pi - ((pi / 4.0) + (lat.to_radians() / 2.0)).tan().ln()) / (2.0 * pi);
    ((x * PLANE_SCALE as f64) as i64, (y * PLANE_SCALE as f64) as i64)
}

#[test]
fn fill_rules() {
    // Water, parks and forests always fill; buildings fill only as
    // standalone ways; rivers and generic lines are stroked only.
    assert!(fill_for_type(&Type::Water, false) && fill_for_type(&Type::Water, true));
    assert!(fill_for_type(&Type::Park, false) && fill_for_type(&Type::Park, true));
    assert!(fill_for_type(&Type::Forest, false) && fill_for_type(&Type::Forest, true));
    assert!(fill_for_type(&Type::Building, false));
    assert!(!fill_for_type(&Type::Building, true));
    assert!(!fill_for_type(&Type::WaterRiver, false) && !fill_for_type(&Type::WaterRiver, true));
    assert!(!fill_for_type(&Type::Generic, false) && !fill_for_type(&Type::Generic, true));
}

#[test]
fn plan_orders_categories_and_labels_buildings() {
    // A park way and a labelled building way in one tile: the park is
    // drawn before the building (z-order), both filled; beyond zoom 16 the
    // building carries its house number anchored at its vertex centroid.
    let mid = PLANE_SCALE / 2;
    let osm = Osm {
        relation: vec![],
        way: vec![
            way(100, &[1, 2], Some(vec![tag("building", "yes"), tag("addr:housenumber", "12")])),
            way(101, &[1, 2], Some(vec![tag("leisure", "park")])),
        ],
        node: vec![node(1, mid, mid), node(2, mid + 1_000_000, mid)],
    };
    let mut cache = TileCache::new_no_default(osm);
    cache.get_cache(17);
    let index = cache.cache.get(&17).unwrap();
    // plane mid at zoom 17: pixel 16777216, tile 65536.
    let cmds = render_tile_plan(&cache.state, index, 65536, 65536);
    assert_eq!(cmds.len(), 2);
    assert_eq!(cmds[0].way_type, Type::Park);
    assert!(cmds[0].fill);
    assert_eq!(cmds[0].label, None);
    assert_eq!(cmds[1].way_type, Type::Building);
    assert!(cmds[1].fill);
    // node 1 sits on the tile origin; node 2 is 7812 pixels to the right.
    assert_eq!(cmds[0].points, vec![(0, 0), (7812, 0)]);
    assert_eq!(cmds[1].points, vec![(0, 0), (7812, 0)]);
    // centroid of (0,0) and (7812,0), truncated toward zero.
    assert_eq!(cmds[1].label, Some(("12".to_string(), 3906, 0)));
}

#[test]
fn plan_no_label_at_low_zoom() {
    let mid = PLANE_SCALE / 2;
    let osm = Osm {
        relation: vec![],
        way: vec![way(
            100,
            &[1, 2],
            Some(vec![tag("building", "yes"), tag("addr:housenumber", "7")]),
        )],
        node: vec![node(1, mid, mid), node(2, mid + 1_000_000, mid)],
    };
    let mut cache = TileCache::new_no_default(osm);
    cache.get_cache(10);
    let index = cache.cache.get(&10).unwrap();
    let cmds = render_tile_plan(&cache.state, index, 512, 512);
    assert_eq!(cmds.len(), 1);
    assert_eq!(cmds[0].label, None);
}

#[test]
fn plan_skips_unresolved_nodes() {
    // A node reference without a projected coordinate contributes no
    // point; the rest of the way still draws.
    let mid = PLANE_SCALE / 2;
    let osm = Osm {
        relation: vec![],
        way: vec![way(100, &[1, 999, 2], None)],
        node: vec![node(1, mid, mid), node(2, mid + 1_000_000, mid)],
    };
    let mut cache = TileCache::new_no_default(osm);
    cache.get_cache(10);
    let index = cache.cache.get(&10).unwrap();
    let cmds = render_tile_plan(&cache.state, index, 512, 512);
    assert_eq!(cmds.len(), 1);
    assert_eq!(cmds[0].points, vec![(0, 0), (61, 0)]);
}

#[test]
fn plan_expands_relations_into_rings() {
    // A park relation of two ways closing a square renders as one filled
    // ring, after any standalone ways of the same category.
    let mid = PLANE_SCALE / 2;
    let step = 1_000_000i64;
    let relation = Relation {
        id: 200,
        member: vec![
            Member {
                member_type: "way".to_string(),
                member_ref: 100,
                role: "outer".to_string(),
                tag: None,
            },
            Member {
                member_type: "way".to_string(),
                member_ref: 101,
                role: "outer".to_string(),
                tag: None,
            },
        ],
        tag: Some(vec![tag("leisure", "park")]),
    };
    let osm = Osm {
        relation: vec![relation],
        way: vec![
            way(100, &[1, 2, 3], Some(vec![tag("leisure", "park")])),
            way(101, &[3, 4, 1], Some(vec![tag("leisure", "park")])),
        ],
        node: vec![
            node(1, mid, mid),
            node(2, mid + step, mid),
            node(3, mid + step, mid + step),
            node(4, mid, mid + step),
        ],
    };
    let mut cache = TileCache::new_no_default(osm);
    cache.get_cache(10);
    let index = cache.cache.get(&10).unwrap();
    let cmds = render_tile_plan(&cache.state, index, 512, 512);
    assert_eq!(cmds.len(), 1);
    assert_eq!(cmds[0].way_type, Type::Park);
    assert!(cmds[0].fill);
    // The stitched ring: way 100 forward, then way 101 forward, the shared
    // nodes appearing on both sides of each junction.
    assert_eq!(
        cmds[0].points,
        vec![(0, 0), (61, 0), (61, 61), (61, 61), (0, 61), (0, 0)]
    );
}

#[test]
fn end_to_end_tile_scenario() {
    // One park way between the geographic origin and one degree north,
    // no relations, zoom 10: the way's ID is indexed in the tile covering
    // the origin, and its draw plan holds one filled park polyline; a far
    // away tile gets an empty plan — a background-only tile, never an
    // error.
    let n1 = plane(0.0, 0.0);
    let n2 = plane(0.0, 1.0);
    let osm = Osm {
        relation: vec![],
        way: vec![way(1, &[1, 2], Some(vec![tag("leisure", "park")]))],
        node: vec![
            Node { id: 1, plane_x: n1.0, plane_y: n1.1, tag: None },
            Node { id: 2, plane_x: n2.0, plane_y: n2.1, tag: None },
        ],
    };
    let mut cache = TileCache::new_no_default(osm);
    cache.get_cache(10);
    let index = cache.cache.get(&10).unwrap();
    assert_eq!(index.ways_to_tile.ids_in(512, 512), vec![1]);
    let cmds = render_tile_plan(&cache.state, index, 512, 512);
    assert_eq!(cmds.len(), 1);
    assert_eq!(cmds[0].way_type, Type::Park);
    assert!(cmds[0].fill);
    assert_eq!(cmds[0].points.len(), 2);
    assert_eq!(cmds[0].points[0], (0, 0));
    let empty = render_tile_plan(&cache.state, index, 999, 999);
    assert_eq!(empty.len(), 0);
}

use osm_tiles::cache::TileCache;
use osm_tiles::tile::{convert_to_int_tile, scale_plane_to_pixel};
use osm_tiles::{Member, Nd, Node, Osm, Relation, Tag, Way, PLANE_SCALE};

fn tag(k: &str, v: &str) -> Tag {
    Tag { k: k.to_string(), v: v.to_string() }
}

fn node(id: u64, plane_x: i64, plane_y: i64) -> Node {
    Node { id, plane_x, plane_y, tag: None }
}

fn way(id: u64, nds: &[u64], tags: Option<Vec<Tag>>) -> Way {
    Way { id, nd: nds.iter().map(|r| Nd { reference: *r }).collect(), tag: tags }
}

/// The plane position of a latitude/longitude pair, in fixed point: the
/// same web-mercator projection the application's loader performs.
fn plane(lat: f64, lon: f64) -> (i64, i64) {
    let pi = std::f64::consts::PI;
    let x = (lon.to_radians() + pi) / (2.0 * pi);
    let y = (pi - ((pi / 4.0) + (lat.to_radians() / 2.0)).tan().ln()) / (2.0 * pi);
    ((x * PLANE_SCALE as f64) as i64, (y * PLANE_SCALE as f64) as i64)
}

#[test]
fn scale_and_locate_exact_values() {
    // The plane midpoint at zoom 10 lands on pixel 131072, tile 512.
    let mid = PLANE_SCALE / 2;
    assert_eq!(scale_plane_to_pixel(mid, 10), 131072);
    assert_eq!(convert_to_int_tile(131072, 131072), (512, 512));
    // Negative plane coordinates scale symmetrically.
    assert_eq!(scale_plane_to_pixel(-(PLANE_SCALE / 4), 10), -65536);
    // Zoom 0 of the full plane is one 256-pixel tile.
    assert_eq!(scale_plane_to_pixel(PLANE_SCALE / 2, 0), 128);
    assert_eq!(convert_to_int_tile(128, 255), (0, 0));
}

#[test]
fn scale_is_deterministic() {
    // Equal inputs give identical outputs, call after call.
    let mid = PLANE_SCALE / 2 + 12345;
    assert_eq!(scale_plane_to_pixel(mid, 13), scale_plane_to_pixel(mid, 13));
    assert_eq!(convert_to_int_tile(998877, -665544), convert_to_int_tile(998877, -665544));
}

#[test]
fn tile_locator_monotonic_step() {
    // One tile edge to the right moves the tile coordinate up by one...
    assert_eq!(convert_to_int_tile(0, 0).0, 0);
    assert_eq!(convert_to_int_tile(256, 0).0, 1);
    assert_eq!(convert_to_int_tile(1000, 0).0, 3);
    assert_eq!(convert_to_int_tile(1256, 0).0, 4);
    assert_eq!(convert_to_int_tile(-1000, 0).0, -3);
    assert_eq!(convert_to_int_tile(-744, 0).0, -2);
    // ...except across the band just left of the origin, where truncation
    // toward zero collapses both sides into tile 0.
    assert_eq!(convert_to_int_tile(-100, 0).0, 0);
    assert_eq!(convert_to_int_tile(156, 0).0, 0);
}

#[test]
fn index_completeness_and_low_zoom_locality() {
    // A standalone way appears in the bucket of the tile its nodes project
    // into; at zoom 10 (below the duplication threshold) it appears there
    // and nowhere else.
    let mid = PLANE_SCALE / 2;
    let osm = Osm {
        relation: vec![],
        way: vec![way(100, &[1, 2], None)],
        node: vec![node(1, mid, mid), node(2, mid + 1_000_000, mid)],
    };
    let mut cache = TileCache::new_no_default(osm);
    let index = cache.get_cache(10);
    assert_eq!(index.zoom, 10);
    assert_eq!(index.ways_to_tile.ids_in(512, 512), vec![100]);
    assert_eq!(index.ways_to_tile.ids_in(513, 512), Vec::<u64>::new());
    assert_eq!(index.ways_to_tile.ids_in(511, 512), Vec::<u64>::new());
    assert_eq!(index.ways_to_tile.ids_in(512, 513), Vec::<u64>::new());
    assert_eq!(index.ways_to_tile.ids_in(999, 999), Vec::<u64>::new());
}

#[test]
fn neighbor_duplication_beyond_threshold() {
    // Beyond zoom 15 a way is also recorded in the eight neighbor tiles.
    let mid = PLANE_SCALE / 2;
    let osm = Osm {
        relation: vec![],
        way: vec![way(100, &[1], None)],
        node: vec![node(1, mid, mid)],
    };
    let mut cache = TileCache::new_no_default(osm);
    let index = cache.get_cache(16);
    let t = 32768;
    for dx in -1i32..=1 {
        for dy in -1i32..=1 {
            assert_eq!(index.ways_to_tile.ids_in(t + dx, t + dy), vec![100]);
        }
    }
    assert_eq!(index.ways_to_tile.ids_in(t + 2, t), Vec::<u64>::new());
    assert_eq!(index.ways_to_tile.ids_in(t - 2, t - 2), Vec::<u64>::new());
}

#[test]
fn relation_owned_ways_are_not_standalone() {
    // A way referenced by any relation member is bucketed through its
    // relation only, never a second time as a standalone way.
    let mid = PLANE_SCALE / 2;
    let relation = Relation {
        id: 200,
        member: vec![Member {
            member_type: "way".to_string(),
            member_ref: 101,
            role: "outer".to_string(),
            tag: None,
        }],
        tag: Some(vec![tag("leisure", "park")]),
    };
    let osm = Osm {
        relation: vec![relation],
        way: vec![way(100, &[1, 2], None), way(101, &[1, 2], None)],
        node: vec![node(1, mid, mid), node(2, mid + 1_000_000, mid)],
    };
    let mut cache = TileCache::new_no_default(osm);
    let index = cache.get_cache(10);
    // The standalone bucket holds only the unowned way...
    assert_eq!(index.ways_to_tile.ids_in(512, 512), vec![100]);
    // ...and the relation bucket holds the relation, through way 101.
    assert_eq!(index.relations_to_tile.ids_in(512, 512), vec![200]);
}

#[test]
fn cache_single_build() {
    // Requesting the same zoom several times builds its index once: every
    // call returns the stored index, with equal content, and the cache
    // holds a single entry per requested zoom.
    let mid = PLANE_SCALE / 2;
    let osm = Osm {
        relation: vec![],
        way: vec![way(100, &[1], None)],
        node: vec![node(1, mid, mid)],
    };
    let mut cache = TileCache::new_no_default(osm);
    assert_eq!(cache.cache.len(), 0);
    let first = cache.get_cache(10).ways_to_tile.ids_in(512, 512);
    assert_eq!(cache.cache.len(), 1);
    let second = cache.get_cache(10).ways_to_tile.ids_in(512, 512);
    let third = cache.get_cache(10).ways_to_tile.ids_in(512, 512);
    assert_eq!(cache.cache.len(), 1);
    assert_eq!(first, second);
    assert_eq!(second, third);
    // A different zoom builds its own index without touching the first.
    let other = cache.get_cache(11).ways_to_tile.ids_in(1024, 1024);
    assert_eq!(other, vec![100]);
    assert_eq!(cache.cache.len(), 2);
}

#[test]
fn projection_of_origin_lands_mid_plane() {
    // The geographic origin projects to the plane midpoint.
    let (x, y) = plane(0.0, 0.0);
    assert_eq!(x, PLANE_SCALE / 2);
    assert_eq!(y, PLANE_SCALE / 2);
}

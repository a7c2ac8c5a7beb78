use std::collections::HashMap;

use osm_tiles::rings::extract_loops_to_render;
use osm_tiles::{LoopWithType, Member, Nd, Relation, Tag, Type, Way};

fn tag(k: &str, v: &str) -> Tag {
    Tag { k: k.to_string(), v: v.to_string() }
}

fn way(id: u64, nds: &[u64], tags: Option<Vec<Tag>>) -> Way {
    Way { id, nd: nds.iter().map(|r| Nd { reference: *r }).collect(), tag: tags }
}

fn member(kind: &str, reference: u64) -> Member {
    Member {
        member_type: kind.to_string(),
        member_ref: reference,
        role: "outer".to_string(),
        tag: None,
    }
}

fn table(ways: Vec<Way>) -> HashMap<u64, Way> {
    ways.into_iter().map(|w| (w.id, w)).collect()
}

fn rel(members: &[(&str, u64)]) -> Relation {
    Relation {
        id: 1000,
        member: members.iter().map(|(k, r)| member(k, *r)).collect(),
        tag: None,
    }
}

#[test]
fn ring_closure_single_polygon() {
    // A triangle split into three segments, listed out of order and with
    // one segment reversed, stitches into exactly one closed ring holding
    // every segment's nodes contiguously.
    let ways = table(vec![
        way(10, &[1, 2], Some(vec![tag("leisure", "park")])),
        way(11, &[3, 2], None), // reversed: shares node 2 with way 10
        way(12, &[3, 1], None),
    ]);
    let relation = rel(&[("way", 10), ("way", 11), ("way", 12)]);
    let loops = extract_loops_to_render(&relation, &ways);
    assert_eq!(loops.len(), 1);
    let ring = &loops[0];
    // way 11 is appended reversed to stay contiguous, way 12 forward.
    assert_eq!(ring.memeber_loop, vec![1, 2, 2, 3, 3, 1]);
    assert_eq!(ring.memeber_loop.first(), ring.memeber_loop.last());
    // The ring's category is the seed way's; stitched rings carry no way ID.
    assert_eq!(ring.member_type, Type::Park);
    assert_eq!(ring.way_id, None);
}

#[test]
fn ring_multiplicity_two_disjoint_polygons() {
    // Two disjoint triangles yield exactly two rings, each closed.
    let ways = table(vec![
        way(10, &[1, 2], None),
        way(11, &[2, 3], None),
        way(12, &[3, 1], None),
        way(20, &[7, 8], None),
        way(21, &[8, 9], None),
        way(22, &[9, 7], None),
    ]);
    let relation = rel(&[
        ("way", 10),
        ("way", 11),
        ("way", 12),
        ("way", 20),
        ("way", 21),
        ("way", 22),
    ]);
    let loops = extract_loops_to_render(&relation, &ways);
    assert_eq!(loops.len(), 2);
    assert_eq!(loops[0].memeber_loop, vec![1, 2, 2, 3, 3, 1]);
    assert_eq!(loops[1].memeber_loop, vec![7, 8, 8, 9, 9, 7]);
    assert_eq!(loops[0].memeber_loop.first(), loops[0].memeber_loop.last());
    assert_eq!(loops[1].memeber_loop.first(), loops[1].memeber_loop.last());
}

#[test]
fn ring_single_way_keeps_way_id() {
    // A ring made of exactly one way keeps that way's ID for labelling.
    let ways = table(vec![way(10, &[1, 2, 3, 1], Some(vec![tag("building", "yes")]))]);
    let relation = rel(&[("way", 10)]);
    let loops = extract_loops_to_render(&relation, &ways);
    assert_eq!(loops.len(), 1);
    assert_eq!(loops[0].way_id, Some(10));
    assert_eq!(loops[0].member_type, Type::Building);
    assert_eq!(loops[0].memeber_loop, vec![1, 2, 3, 1]);
}

#[test]
fn ring_skips_unresolved_degenerate_and_non_way_members() {
    // Members that do not resolve, resolve to a way with fewer than two
    // node references, or are not of way kind are skipped silently.
    let ways = table(vec![
        way(10, &[1, 2], None),
        way(11, &[2, 1], None),
        way(30, &[5], None), // degenerate: a single node reference
    ]);
    let relation = rel(&[
        ("way", 999), // resolves to nothing
        ("way", 30),  // degenerate
        ("node", 10), // not a way member
        ("way", 10),
        ("way", 11),
    ]);
    let loops = extract_loops_to_render(&relation, &ways);
    assert_eq!(loops.len(), 1);
    assert_eq!(loops[0].memeber_loop, vec![1, 2, 2, 1]);
}

#[test]
fn ring_empty_relation_yields_no_rings() {
    // A relation with no usable member way yields an empty ring list, a
    // recoverable case rather than a failure.
    let ways = table(vec![way(10, &[1, 2], None)]);
    let relation = rel(&[("way", 999), ("node", 5)]);
    let loops = extract_loops_to_render(&relation, &ways);
    assert_eq!(loops.len(), 0);
}

#[test]
fn ring_duplicate_member_consumed_once() {
    // A way referenced twice by the relation takes part only once.
    let ways = table(vec![way(10, &[1, 2], None), way(11, &[2, 1], None)]);
    let relation = rel(&[("way", 10), ("way", 10), ("way", 11)]);
    let loops = extract_loops_to_render(&relation, &ways);
    assert_eq!(loops.len(), 1);
    assert_eq!(loops[0].memeber_loop, vec![1, 2, 2, 1]);
}

#[test]
fn ring_open_chain_stays_open() {
    // Segments that do not close stitch into one open ring.
    let ways = table(vec![way(10, &[1, 2], None), way(11, &[2, 3], None)]);
    let relation = rel(&[("way", 10), ("way", 11)]);
    let loops = extract_loops_to_render(&relation, &ways);
    assert_eq!(loops.len(), 1);
    assert_eq!(loops[0].memeber_loop, vec![1, 2, 2, 3]);
    assert_ne!(loops[0].memeber_loop.first(), loops[0].memeber_loop.last());
}

#[test]
fn loop_constructors() {
    let a = LoopWithType::new_no_default();
    assert_eq!(a.member_type, Type::Generic);
    assert!(a.memeber_loop.is_empty());
    assert_eq!(a.way_id, None);
    let b = LoopWithType::new_with_type(42, Type::Water);
    assert_eq!(b.member_type, Type::Water);
    assert!(b.memeber_loop.is_empty());
    assert_eq!(b.way_id, Some(42));
}

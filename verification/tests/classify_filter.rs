use osm_tiles::classify::{check_relation_type, check_tag_type, check_way_type};
use osm_tiles::filter::{
    create_filter_expression, create_filter_expression_to_filter_parks, filter_relations,
    filter_ways_from_relations,
};
use osm_tiles::{Member, Nd, Osm, Relation, Tag, Type, Way};

fn tag(k: &str, v: &str) -> Tag {
    Tag { k: k.to_string(), v: v.to_string() }
}

fn way(id: u64, nds: &[u64], tags: Option<Vec<Tag>>) -> Way {
    Way { id, nd: nds.iter().map(|r| Nd { reference: *r }).collect(), tag: tags }
}

fn member(kind: &str, reference: u64) -> Member {
    Member {
        member_type: kind.to_string(),
        member_ref: reference,
        role: "outer".to_string(),
        tag: None,
    }
}

#[test]
fn classifier_priority_park_over_building() {
    // An entity tagged both leisure=park and building=yes is a Park: the
    // park rule is checked before the building rule.
    let tags = vec![tag("building", "yes"), tag("leisure", "park")];
    assert_eq!(check_tag_type(&tags), Type::Park);
}

#[test]
fn classifier_each_category() {
    assert_eq!(check_tag_type(&vec![tag("leisure", "park")]), Type::Park);
    assert_eq!(check_tag_type(&vec![tag("landuse", "forest")]), Type::Forest);
    assert_eq!(check_tag_type(&vec![tag("building", "apartment")]), Type::Building);
    assert_eq!(check_tag_type(&vec![tag("natural", "water")]), Type::Water);
    assert_eq!(check_tag_type(&vec![tag("waterway", "river")]), Type::WaterRiver);
    assert_eq!(check_tag_type(&vec![tag("highway", "residential")]), Type::Generic);
    assert_eq!(check_tag_type(&Vec::new()), Type::Generic);
}

#[test]
fn classifier_priority_order_within_lower_rules() {
    // forest beats building, building beats water, water beats waterway.
    let t1 = vec![tag("building", "yes"), tag("landuse", "forest")];
    assert_eq!(check_tag_type(&t1), Type::Forest);
    let t2 = vec![tag("natural", "water"), tag("building", "yes")];
    assert_eq!(check_tag_type(&t2), Type::Building);
    let t3 = vec![tag("waterway", "stream"), tag("natural", "water")];
    assert_eq!(check_tag_type(&t3), Type::Water);
}

#[test]
fn way_and_relation_type_untagged_is_generic() {
    let w = way(1, &[1, 2], None);
    assert_eq!(check_way_type(&w), Type::Generic);
    let r = Relation { id: 5, member: vec![], tag: None };
    assert_eq!(check_relation_type(&r), Type::Generic);
    let r2 = Relation { id: 6, member: vec![], tag: Some(vec![tag("leisure", "park")]) };
    assert_eq!(check_relation_type(&r2), Type::Park);
}

#[test]
fn filter_expression_contents() {
    let f = create_filter_expression();
    assert_eq!(f.entries.len(), 1);
    assert_eq!(f.entries[0].key, "leisure");
    assert_eq!(f.entries[0].values, vec!["park".to_string()]);

    let p = create_filter_expression_to_filter_parks();
    assert_eq!(p.entries.len(), 2);
    assert_eq!(p.entries[0].key, "addr:city");
    assert_eq!(p.entries[0].values, vec!["Chi\u{219}in\u{103}u".to_string()]);
    assert_eq!(p.entries[1].key, "leisure");
    assert_eq!(p.entries[1].values, vec!["park".to_string()]);
}

#[test]
fn filter_relations_and_semantics() {
    // A relation matches only when it carries every filter key with an
    // accepted value; a relation without tags never matches.
    let matching = Relation {
        id: 1,
        member: vec![member("way", 10)],
        tag: Some(vec![tag("name", "x"), tag("leisure", "park")]),
    };
    let wrong_value = Relation {
        id: 2,
        member: vec![member("way", 11)],
        tag: Some(vec![tag("leisure", "playground")]),
    };
    let untagged = Relation { id: 3, member: vec![member("way", 12)], tag: None };
    let osm = Osm { relation: vec![matching, wrong_value, untagged], way: vec![], node: vec![] };
    let f = create_filter_expression();
    let kept = filter_relations(&osm, &f);
    assert_eq!(kept.len(), 1);
    assert_eq!(kept[0].id, 1);
}

#[test]
fn filter_ways_from_relations_keeps_way_members_only() {
    let r = Relation {
        id: 1,
        member: vec![member("way", 10), member("node", 11), member("way", 99)],
        tag: None,
    };
    let osm = Osm {
        relation: vec![],
        way: vec![way(10, &[1, 2], None), way(11, &[2, 3], None), way(12, &[3, 4], None)],
        node: vec![],
    };
    let kept = filter_ways_from_relations(&osm, &vec![r]);
    // way 10 is referenced by a way-kind member; way 11 only matches a
    // node-kind member's ID, so it is not owned; 99 resolves to nothing.
    assert_eq!(kept.len(), 1);
    assert_eq!(kept[0].id, 10);
}

//! Feature classifier: derives the semantic category of a way or relation
//! from its tag set by priority-ordered inspection.
//!
//! The priority order — park, forest, building, water, waterway, generic —
//! is a design decision of the renderer's z-ordering and is part of this
//! module's contract: the first matching rule wins.

use vstd::prelude::*;

use crate::{spec_tags, tags_view, RelationV, Tag, TagV, Type, WayV};
use crate::{Relation, Way};

verus! {

/// Does the tag sequence carry a tag with this exact key and value?
pub open spec fn has_tag(tags: Seq<TagV>, k: Seq<char>, v: Seq<char>) -> bool {
    exists|i: int| 0 <= i < tags.len() && tags[i].k == k && tags[i].v == v
}

/// Does the tag sequence carry a tag with this key, whatever its value?
pub open spec fn has_key(tags: Seq<TagV>, k: Seq<char>) -> bool {
    exists|i: int| 0 <= i < tags.len() && tags[i].k == k
}

/// The category of a tag sequence: the first rule that matches, in the
/// fixed priority order park > forest > building > water > waterway.
pub open spec fn spec_classify(tags: Seq<TagV>) -> Type {
    if has_tag(tags, "leisure"@, "park"@) {
        Type::Park
    } else if has_tag(tags, "landuse"@, "forest"@) {
        Type::Forest
    } else if has_key(tags, "building"@) {
        Type::Building
    } else if has_tag(tags, "natural"@, "water"@) {
        Type::Water
    } else if has_key(tags, "waterway"@) {
        Type::WaterRiver
    } else {
        Type::Generic
    }
}

/// The category of a way: its tag set classified, generic when untagged.
pub open spec fn spec_way_type(w: WayV) -> Type {
    spec_classify(spec_tags(w.tag))
}

/// The category of a relation: its tag set classified, generic when
/// untagged.
pub open spec fn spec_relation_type(r: RelationV) -> Type {
    spec_classify(spec_tags(r.tag))
}

/// Is there a tag with key `k` and value `v`?
fn tags_have_tag(tags: &Vec<Tag>, k: &String, v: &String) -> (res: bool)
    ensures
        res == has_tag(tags_view(tags@), k@, v@),
{
    let mut i: usize = 0;
    while i < tags.len()
        invariant
            0 <= i <= tags.len(),
            forall|j: int| 0 <= j < i ==> !(tags_view(tags@)[j].k == k@ && tags_view(tags@)[j].v
                == v@),
        decreases tags.len() - i,
    {
        if tags[i].k == *k && tags[i].v == *v {
            proof {
                assert(tags_view(tags@)[i as int].k == k@ && tags_view(tags@)[i as int].v == v@);
            }
            return true;
        }
        i = i + 1;
    }
    false
}

/// Is there a tag with key `k`?
fn tags_have_key(tags: &Vec<Tag>, k: &String) -> (res: bool)
    ensures
        res == has_key(tags_view(tags@), k@),
{
    let mut i: usize = 0;
    while i < tags.len()
        invariant
            0 <= i <= tags.len(),
            forall|j: int| 0 <= j < i ==> tags_view(tags@)[j].k != k@,
        decreases tags.len() - i,
    {
        if tags[i].k == *k {
            proof {
                assert(tags_view(tags@)[i as int].k == k@);
            }
            return true;
        }
        i = i + 1;
    }
    false
}

/// Classify a tag set by priority-ordered inspection; the first matching
/// rule decides the category.
pub fn check_tag_type(tag: &Vec<Tag>) -> (res: Type)
    ensures
        res == spec_classify(tags_view(tag@)),
{
    if tags_have_tag(tag, &"leisure".to_owned(), &"park".to_owned()) {
        Type::Park
    } else if tags_have_tag(tag, &"landuse".to_owned(), &"forest".to_owned()) {
        Type::Forest
    } else if tags_have_key(tag, &"building".to_owned()) {
        Type::Building
    } else if tags_have_tag(tag, &"natural".to_owned(), &"water".to_owned()) {
        Type::Water
    } else if tags_have_key(tag, &"waterway".to_owned()) {
        Type::WaterRiver
    } else {
        Type::Generic
    }
}

/// The category of a way, generic when it has no tag set.
pub fn check_way_type(way: &Way) -> (res: Type)
    ensures
        res == spec_way_type(way@),
{
    match &way.tag {
        Some(tag) => check_tag_type(tag),
        None => Type::Generic,
    }
}

/// The category of a relation, generic when it has no tag set.
pub fn check_relation_type(relation: &Relation) -> (res: Type)
    ensures
        res == spec_relation_type(relation@),
{
    match &relation.tag {
        Some(tag) => check_tag_type(tag),
        None => Type::Generic,
    }
}

/// Classifier priority: a tag set that carries `leisure=park` classifies
/// as Park no matter what else it carries — in particular an entity tagged
/// both `leisure=park` and `building=yes` is a Park, because the park rule
/// is checked before the building rule.
pub proof fn lemma_classifier_priority(tags: Seq<TagV>)
    requires
        has_tag(tags, "leisure"@, "park"@),
    ensures
        spec_classify(tags) == Type::Park,
{
}

} // verus!

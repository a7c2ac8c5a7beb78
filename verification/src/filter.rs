//! Tag filter expressions, used by the offline extraction tool: a mapping
//! from tag key to the set of accepted values. An entity matches when it
//! carries every listed key with one of that key's accepted values — AND
//! across keys, membership within a key's value set.

use vstd::prelude::*;

use crate::{tags_view, Member, Osm, Relation, RelationV, Tag, TagV, Way, WayV};

verus! {

broadcast use vstd::std_specs::hash::group_hash_axioms;

/// One clause of a filter expression: a tag key and its accepted values.
pub struct FilterEntry {
    pub key: String,
    pub values: Vec<String>,
}

/// Mathematical value of a [`FilterEntry`].
pub ghost struct FilterEntryV {
    pub key: Seq<char>,
    pub values: Seq<Seq<char>>,
}

impl View for FilterEntry {
    type V = FilterEntryV;

    open spec fn view(&self) -> FilterEntryV {
        FilterEntryV { key: self.key@, values: self.values@.map_values(|s: String| s@) }
    }
}

/// A conjunction of filter clauses, one per tag key.
pub struct FilterExpression {
    pub entries: Vec<FilterEntry>,
}

impl View for FilterExpression {
    type V = Seq<FilterEntryV>;

    open spec fn view(&self) -> Seq<FilterEntryV> {
        self.entries@.map_values(|e: FilterEntry| e@)
    }
}

/// Is `v` one of the accepted values?
pub open spec fn values_contain(vs: Seq<Seq<char>>, v: Seq<char>) -> bool {
    exists|i: int| 0 <= i < vs.len() && vs[i] == v
}

/// Does the tag sequence satisfy one filter clause: some tag carries the
/// clause's key with an accepted value?
pub open spec fn entry_matched(e: FilterEntryV, tags: Seq<TagV>) -> bool {
    exists|j: int| 0 <= j < tags.len() && tags[j].k == e.key && values_contain(e.values, tags[j].v)
}

/// Does the tag sequence satisfy every clause of the filter?
pub open spec fn filter_accepts(f: Seq<FilterEntryV>, tags: Seq<TagV>) -> bool {
    forall|i: int| 0 <= i < f.len() ==> entry_matched(f[i], tags)
}

/// Does a relation match the filter? A relation without a tag set never
/// matches.
pub open spec fn spec_relation_matches(r: RelationV, f: Seq<FilterEntryV>) -> bool {
    match r.tag {
        Some(tags) => filter_accepts(f, tags),
        None => false,
    }
}

/// Is the way referenced by some `way`-kind member of one of the relations?
pub open spec fn spec_way_owned(w: WayV, rels: Seq<RelationV>) -> bool {
    exists|i: int, j: int|
        0 <= i < rels.len() && 0 <= j < rels[i].member.len() && rels[i].member[j].member_type
            == "way"@ && rels[i].member[j].member_ref == w.id
}

/// Appending one element to a sequence extends its filtered image by that
/// element exactly when the element passes the predicate.
pub proof fn lemma_filter_push<A>(s: Seq<A>, pred: spec_fn(A) -> bool, x: A)
    ensures
        s.push(x).filter(pred) == if pred(x) {
            s.filter(pred).push(x)
        } else {
            s.filter(pred)
        },
{
    reveal(Seq::filter);
    assert(s.push(x).drop_last() =~= s);
    assert(s.push(x).last() == x);
    assert(s.push(x).len() == s.len() + 1);
    if pred(x) {
        assert(s.push(x).filter(pred) =~= s.filter(pred).push(x));
    } else {
        assert(s.push(x).filter(pred) =~= s.filter(pred));
    }
}

/// Is `v` equal to one of the strings in `vs`?
fn values_have(vs: &Vec<String>, v: &String) -> (res: bool)
    ensures
        res == values_contain(vs@.map_values(|s: String| s@), v@),
{
    let ghost vsv = vs@.map_values(|s: String| s@);
    let mut i: usize = 0;
    while i < vs.len()
        invariant
            0 <= i <= vs.len(),
            vsv == vs@.map_values(|s: String| s@),
            forall|j: int| 0 <= j < i ==> vsv[j] != v@,
        decreases vs.len() - i,
    {
        if vs[i] == *v {
            proof {
                assert(vsv[i as int] == v@);
            }
            return true;
        }
        i = i + 1;
    }
    false
}

/// Does the tag list satisfy this filter clause?
fn entry_matches_tags(e: &FilterEntry, tags: &Vec<Tag>) -> (res: bool)
    ensures
        res == entry_matched(e@, tags_view(tags@)),
{
    let ghost tv = tags_view(tags@);
    let mut j: usize = 0;
    while j < tags.len()
        invariant
            0 <= j <= tags.len(),
            tv == tags_view(tags@),
            forall|i: int| 0 <= i < j ==> !(tv[i].k == e@.key && values_contain(e@.values, tv[i].v)),
        decreases tags.len() - j,
    {
        if tags[j].k == e.key && values_have(&e.values, &tags[j].v) {
            proof {
                assert(tv[j as int].k == e@.key && values_contain(e@.values, tv[j as int].v));
            }
            return true;
        }
        j = j + 1;
    }
    false
}

/// Does the relation match the filter expression?
#[verifier::loop_isolation(false)]
fn relation_matches(r: &Relation, filter: &FilterExpression) -> (res: bool)
    ensures
        res == spec_relation_matches(r@, filter@),
{
    match r.tag {
        Some(ref tags) => {
            let mut i: usize = 0;
            while i < filter.entries.len()
                invariant
                    0 <= i <= filter.entries.len(),
                    forall|j: int| 0 <= j < i ==> entry_matched(filter@[j], tags_view(tags@)),
                decreases filter.entries.len() - i,
            {
                if !entry_matches_tags(&filter.entries[i], tags) {
                    proof {
                        assert(filter@[i as int] == filter.entries@[i as int]@);
                        assert(!entry_matched(filter@[i as int], tags_view(tags@)));
                    }
                    return false;
                }
                i = i + 1;
            }
            true
        },
        None => false,
    }
}

/// The relations of the dataset that match the filter, in dataset order.
pub fn filter_relations(osm: &Osm, filter: &FilterExpression) -> (res: Vec<Relation>)
    ensures
        res@.map_values(|r: Relation| r@) == osm@.relation.filter(
            |rv: RelationV| spec_relation_matches(rv, filter@),
        ),
{
    let ghost pred = |rv: RelationV| spec_relation_matches(rv, filter@);
    let mut res = Vec::<Relation>::new();
    let mut i: usize = 0;
    proof {
        assert(osm@.relation.take(0) =~= Seq::<RelationV>::empty());
        assert(Seq::<RelationV>::empty().filter(pred) =~= Seq::<RelationV>::empty());
        assert(res@.map_values(|r: Relation| r@) =~= Seq::<RelationV>::empty());
    }
    while i < osm.relation.len()
        invariant
            0 <= i <= osm.relation.len(),
            pred == (|rv: RelationV| spec_relation_matches(rv, filter@)),
            res@.map_values(|r: Relation| r@) == osm@.relation.take(i as int).filter(pred),
        decreases osm.relation.len() - i,
    {
        let ghost prefix = osm@.relation.take(i as int);
        let r = &osm.relation[i];
        proof {
            assert(osm@.relation.take(i + 1) =~= prefix.push(r@));
            lemma_filter_push(prefix, pred, r@);
        }
        if relation_matches(r, filter) {
            let rc = r.clone();
            res.push(rc);
            proof {
                assert(res@.map_values(|r: Relation| r@) =~= prefix.filter(pred).push(r@));
            }
        }
        i = i + 1;
    }
    proof {
        assert(osm@.relation.take(osm.relation.len() as int) =~= osm@.relation);
    }
    res
}

/// The ways of the dataset that some `way`-kind member of one of the given
/// relations references, in dataset order.
pub fn filter_ways_from_relations(osm: &Osm, relations: &Vec<Relation>) -> (res: Vec<Way>)
    ensures
        res@.map_values(|w: Way| w@) == osm@.way.filter(
            |wv: WayV| spec_way_owned(wv, relations@.map_values(|r: Relation| r@)),
        ),
{
    let ghost relsv = relations@.map_values(|r: Relation| r@);
    let ghost pred = |wv: WayV| spec_way_owned(wv, relsv);

    // Collect the IDs referenced by `way`-kind members.
    let way_kind = "way".to_owned();
    let mut refs = std::collections::HashSet::<u64>::new();
    let mut i: usize = 0;
    while i < relations.len()
        invariant
            0 <= i <= relations.len(),
            relsv == relations@.map_values(|r: Relation| r@),
            way_kind@ == "way"@,
            forall|id: u64|
                refs@.contains(id) <==> exists|a: int, b: int|
                    0 <= a < i && 0 <= b < relsv[a].member.len() && relsv[a].member[b].member_type
                        == "way"@ && relsv[a].member[b].member_ref == id,
        decreases relations.len() - i,
    {
        let members = &relations[i].member;
        let mut j: usize = 0;
        proof {
            assert(members@.map_values(|m: Member| m@) == relsv[i as int].member);
        }
        while j < members.len()
            invariant
                0 <= j <= members.len(),
                0 <= i < relations.len(),
                relsv == relations@.map_values(|r: Relation| r@),
                way_kind@ == "way"@,
                members@.map_values(|m: Member| m@) == relsv[i as int].member,
                forall|id: u64|
                    refs@.contains(id) <==> (exists|a: int, b: int|
                        0 <= a < i && 0 <= b < relsv[a].member.len() && relsv[a].member[
                            b
                        ].member_type == "way"@ && relsv[a].member[b].member_ref == id) || (
                    exists|b: int|
                        0 <= b < j && relsv[i as int].member[b].member_type == "way"@ && relsv[
                            i as int
                        ].member[b].member_ref == id),
            decreases members.len() - j,
        {
            let m = &members[j];
            proof {
                assert(m@ == relsv[i as int].member[j as int]);
            }
            if m.member_type == way_kind {
                refs.insert(m.member_ref);
                proof {
                    assert(relsv[i as int].member[j as int].member_type == "way"@ && relsv[
                        i as int
                    ].member[j as int].member_ref == m.member_ref);
                }
            }
            j = j + 1;
        }
        i = i + 1;
    }

    // Keep the ways whose ID was collected.
    let mut res = Vec::<Way>::new();
    let mut k: usize = 0;
    proof {
        assert(osm@.way.take(0) =~= Seq::<WayV>::empty());
        assert(Seq::<WayV>::empty().filter(pred) =~= Seq::<WayV>::empty());
        assert(res@.map_values(|w: Way| w@) =~= Seq::<WayV>::empty());
    }
    while k < osm.way.len()
        invariant
            0 <= k <= osm.way.len(),
            relsv == relations@.map_values(|r: Relation| r@),
            pred == (|wv: WayV| spec_way_owned(wv, relsv)),
            forall|id: u64| refs@.contains(id) <==> exists|a: int, b: int|
                0 <= a < relsv.len() && 0 <= b < relsv[a].member.len() && relsv[a].member[
                    b
                ].member_type == "way"@ && relsv[a].member[b].member_ref == id,
            res@.map_values(|w: Way| w@) == osm@.way.take(k as int).filter(pred),
        decreases osm.way.len() - k,
    {
        let ghost prefix = osm@.way.take(k as int);
        let w = &osm.way[k];
        proof {
            assert(osm@.way.take(k + 1) =~= prefix.push(w@));
            lemma_filter_push(prefix, pred, w@);
        }
        if refs.contains(&w.id) {
            let wc = w.clone();
            res.push(wc);
            proof {
                assert(res@.map_values(|w: Way| w@) =~= prefix.filter(pred).push(w@));
            }
        }
        k = k + 1;
    }
    proof {
        assert(osm@.way.take(osm.way.len() as int) =~= osm@.way);
    }
    res
}

/// The filter expression the live renderer's extraction step uses: keep
/// areas tagged `leisure=park`.
pub fn create_filter_expression() -> (res: FilterExpression)
    ensures
        res@.len() == 1,
        res@[0].key == "leisure"@,
        res@[0].values == seq!["park"@],
{
    let mut values = Vec::<String>::new();
    values.push("park".to_owned());
    let entry = FilterEntry { key: "leisure".to_owned(), values };
    let mut entries = Vec::<FilterEntry>::new();
    entries.push(entry);
    let res = FilterExpression { entries };
    proof {
        assert(res@[0].values =~= seq!["park"@]);
    }
    res
}

/// The filter expression the offline park-extraction tool uses: keep
/// relations tagged as parks in the configured city.
pub fn create_filter_expression_to_filter_parks() -> (res: FilterExpression)
    ensures
        res@.len() == 2,
        res@[0].key == "addr:city"@,
        res@[0].values == seq!["Chi\u{219}in\u{103}u"@],
        res@[1].key == "leisure"@,
        res@[1].values == seq!["park"@],
{
    let mut city_values = Vec::<String>::new();
    city_values.push("Chi\u{219}in\u{103}u".to_owned());
    let city = FilterEntry { key: "addr:city".to_owned(), values: city_values };
    let mut park_values = Vec::<String>::new();
    park_values.push("park".to_owned());
    let park = FilterEntry { key: "leisure".to_owned(), values: park_values };
    let mut entries = Vec::<FilterEntry>::new();
    entries.push(city);
    entries.push(park);
    let res = FilterExpression { entries };
    proof {
        assert(res@[0].values =~= seq!["Chi\u{219}in\u{103}u"@]);
        assert(res@[1].values =~= seq!["park"@]);
    }
    res
}

} // verus!

//! Spatial tile indexing and polygon-ring reconstruction for a map-tile
//! renderer.
//!
//! The library ingests an in-memory graph of nodes, ways and relations,
//! classifies each feature into a semantic category, buckets features by the
//! tiles they touch at a given zoom level, and stitches a relation's member
//! ways into closed rings ready for fill rendering. Parsing, persistence,
//! HTTP serving and rasterization are collaborators that live outside this
//! crate; they exchange plain values with it.
//!
//! Node positions are held as fixed-point coordinates on the projected unit
//! plane (see [`PLANE_SCALE`]): the caller projects latitude and longitude
//! once, and every zoom-dependent computation here is exact integer
//! arithmetic.

use vstd::prelude::*;

pub mod cache;
pub mod classify;
pub mod filter;
pub mod index;
pub mod render;
pub mod ring_laws;
pub mod rings;
pub mod tile;

verus! {

/// Edge length of one square tile, in pixels.
pub const TILE_SIZE: u32 = 256;

/// Fixed-point denominator for positions on the projected unit plane:
/// a stored coordinate `c` stands for the plane position `c / PLANE_SCALE`,
/// so `PLANE_SCALE` itself stands for 1.0 (one full plane width).
pub const PLANE_SCALE: i64 = 0x1_0000_0000;

/// Largest magnitude a stored plane coordinate may have. Keeping
/// coordinates within this bound makes every per-zoom pixel computation
/// (`coordinate * TILE_SIZE * 2^zoom`, zoom at most [`MAX_ZOOM`]) fit in
/// `i64`.
pub const PLANE_LIMIT: i64 = 0x4_0000_0000;

/// Largest zoom level the index accepts; beyond it the per-zoom pixel
/// scale factor would no longer fit the machine integers used here.
pub const MAX_ZOOM: u8 = 20;

/// Semantic category of a way or relation, derived on demand from its tags.
#[derive(Clone, Copy, Debug, PartialEq, Eq, Structural)]
pub enum Type {
    Park,
    Forest,
    Building,
    Generic,
    Water,
    WaterRiver,
}

/// A key/value tag attached to a node, way, relation or member.
#[derive(Debug)]
pub struct Tag {
    pub k: String,
    pub v: String,
}

/// Mathematical value of a [`Tag`]: both strings as character sequences.
pub ghost struct TagV {
    pub k: Seq<char>,
    pub v: Seq<char>,
}

impl View for Tag {
    type V = TagV;

    open spec fn view(&self) -> TagV {
        TagV { k: self.k@, v: self.v@ }
    }
}

impl Clone for Tag {
    fn clone(&self) -> (res: Tag)
        ensures
            res@ == self@,
    {
        Tag { k: self.k.clone(), v: self.v.clone() }
    }
}

/// The view of a tag list, element by element.
pub open spec fn tags_view(tags: Seq<Tag>) -> Seq<TagV> {
    tags.map_values(|t: Tag| t@)
}

/// The view of an optional tag list.
pub open spec fn opt_tags_view(tag: Option<Vec<Tag>>) -> Option<Seq<TagV>> {
    match tag {
        Some(v) => Some(tags_view(v@)),
        None => None,
    }
}

/// The tag views of an optional tag list: absent means empty.
pub open spec fn spec_tags(tag: Option<Seq<TagV>>) -> Seq<TagV> {
    match tag {
        Some(v) => v,
        None => Seq::<TagV>::empty(),
    }
}

/// A reference from a way to a node, by node ID.
#[derive(Clone, Copy, Debug, PartialEq, Eq, Structural)]
pub struct Nd {
    pub reference: u64,
}

/// A point of the dataset, immutable after load.
///
/// `plane_x` and `plane_y` are the node's position on the projected unit
/// plane in [`PLANE_SCALE`] fixed point; the caller computes them from
/// latitude and longitude once, before handing the dataset over.
#[derive(Debug)]
pub struct Node {
    pub id: u64,
    pub plane_x: i64,
    pub plane_y: i64,
    pub tag: Option<Vec<Tag>>,
}

/// Mathematical value of a [`Node`].
pub ghost struct NodeV {
    pub id: u64,
    pub plane_x: i64,
    pub plane_y: i64,
    pub tag: Option<Seq<TagV>>,
}

impl View for Node {
    type V = NodeV;

    open spec fn view(&self) -> NodeV {
        NodeV {
            id: self.id,
            plane_x: self.plane_x,
            plane_y: self.plane_y,
            tag: opt_tags_view(self.tag),
        }
    }
}

/// An ordered chain of node references describing a line or a polygon
/// boundary, immutable after load.
#[derive(Debug)]
pub struct Way {
    pub id: u64,
    pub nd: Vec<Nd>,
    pub tag: Option<Vec<Tag>>,
}

/// Mathematical value of a [`Way`]: its node references as a plain
/// ID sequence.
pub ghost struct WayV {
    pub id: u64,
    pub nd: Seq<u64>,
    pub tag: Option<Seq<TagV>>,
}

impl View for Way {
    type V = WayV;

    open spec fn view(&self) -> WayV {
        WayV {
            id: self.id,
            nd: self.nd@.map_values(|n: Nd| n.reference),
            tag: opt_tags_view(self.tag),
        }
    }
}

impl Clone for Way {
    fn clone(&self) -> (res: Way)
        ensures
            res@ == self@,
    {
        let res = Way { id: self.id, nd: clone_nds(&self.nd), tag: clone_opt_tags(&self.tag) };
        proof {
            assert(res@.nd =~= self@.nd);
        }
        res
    }
}

/// One member of a relation: a kind (`"node"`, `"way"` or `"relation"`),
/// the referenced ID and a role.
#[derive(Debug)]
pub struct Member {
    pub member_type: String,
    pub member_ref: u64,
    pub role: String,
    pub tag: Option<Vec<Tag>>,
}

/// Mathematical value of a [`Member`].
pub ghost struct MemberV {
    pub member_type: Seq<char>,
    pub member_ref: u64,
    pub role: Seq<char>,
    pub tag: Option<Seq<TagV>>,
}

impl View for Member {
    type V = MemberV;

    open spec fn view(&self) -> MemberV {
        MemberV {
            member_type: self.member_type@,
            member_ref: self.member_ref,
            role: self.role@,
            tag: opt_tags_view(self.tag),
        }
    }
}

impl Clone for Member {
    fn clone(&self) -> (res: Member)
        ensures
            res@ == self@,
    {
        Member {
            member_type: self.member_type.clone(),
            member_ref: self.member_ref,
            role: self.role.clone(),
            tag: clone_opt_tags(&self.tag),
        }
    }
}

/// A named group of members, used to express multi-part polygons.
#[derive(Debug)]
pub struct Relation {
    pub id: u64,
    pub member: Vec<Member>,
    pub tag: Option<Vec<Tag>>,
}

/// Mathematical value of a [`Relation`].
pub ghost struct RelationV {
    pub id: u64,
    pub member: Seq<MemberV>,
    pub tag: Option<Seq<TagV>>,
}

impl View for Relation {
    type V = RelationV;

    open spec fn view(&self) -> RelationV {
        RelationV {
            id: self.id,
            member: self.member@.map_values(|m: Member| m@),
            tag: opt_tags_view(self.tag),
        }
    }
}

impl Clone for Relation {
    fn clone(&self) -> (res: Relation)
        ensures
            res@ == self@,
    {
        let res = Relation {
            id: self.id,
            member: clone_members(&self.member),
            tag: clone_opt_tags(&self.tag),
        };
        proof {
            assert(res@.member =~= self@.member);
        }
        res
    }
}

/// The loaded dataset: plain collections of relations, ways and nodes.
#[derive(Debug)]
pub struct Osm {
    pub relation: Vec<Relation>,
    pub way: Vec<Way>,
    pub node: Vec<Node>,
}

/// Mathematical value of the dataset.
pub ghost struct OsmV {
    pub relation: Seq<RelationV>,
    pub way: Seq<WayV>,
    pub node: Seq<NodeV>,
}

impl View for Osm {
    type V = OsmV;

    open spec fn view(&self) -> OsmV {
        OsmV {
            relation: self.relation@.map_values(|r: Relation| r@),
            way: self.way@.map_values(|w: Way| w@),
            node: self.node@.map_values(|n: Node| n@),
        }
    }
}

/// A ring produced by ring reconstruction: the category of its seed way,
/// the stitched node-ID sequence, and — when the ring is exactly one
/// unmodified way — that way's ID.
#[derive(Debug)]
pub struct LoopWithType {
    pub member_type: Type,
    pub memeber_loop: Vec<u64>,
    pub way_id: Option<u64>,
}

/// Mathematical value of a [`LoopWithType`].
pub ghost struct LoopV {
    pub member_type: Type,
    pub nodes: Seq<u64>,
    pub way_id: Option<u64>,
}

impl View for LoopWithType {
    type V = LoopV;

    open spec fn view(&self) -> LoopV {
        LoopV { member_type: self.member_type, nodes: self.memeber_loop@, way_id: self.way_id }
    }
}

impl LoopWithType {
    /// An empty generic ring.
    pub fn new_no_default() -> (res: Self)
        ensures
            res@ == (LoopV {
                member_type: Type::Generic,
                nodes: Seq::<u64>::empty(),
                way_id: None,
            }),
    {
        let res = Self {
            member_type: Type::Generic,
            memeber_loop: Vec::<u64>::new(),
            way_id: None,
        };
        proof {
            assert(res@.nodes =~= Seq::<u64>::empty());
        }
        res
    }

    /// An empty ring seeded from the way `way_id` of category `memeber_type`.
    pub fn new_with_type(way_id: u64, memeber_type: Type) -> (res: Self)
        ensures
            res@ == (LoopV {
                member_type: memeber_type,
                nodes: Seq::<u64>::empty(),
                way_id: Some(way_id),
            }),
    {
        let res = Self {
            member_type: memeber_type,
            memeber_loop: Vec::<u64>::new(),
            way_id: Some(way_id),
        };
        proof {
            assert(res@.nodes =~= Seq::<u64>::empty());
        }
        res
    }
}

/// Does the ID list contain this ID?
pub(crate) fn contains_u64(ids: &Vec<u64>, id: u64) -> (res: bool)
    ensures
        res == ids@.contains(id),
{
    let mut i: usize = 0;
    while i < ids.len()
        invariant
            0 <= i <= ids.len(),
            forall|j: int| 0 <= j < i ==> ids@[j] != id,
        decreases ids.len() - i,
    {
        if ids[i] == id {
            return true;
        }
        i = i + 1;
    }
    false
}

/// Copy a tag list.
fn clone_tags(tags: &Vec<Tag>) -> (res: Vec<Tag>)
    ensures
        tags_view(res@) == tags_view(tags@),
{
    let mut res = Vec::<Tag>::new();
    let mut i: usize = 0;
    while i < tags.len()
        invariant
            0 <= i <= tags.len(),
            res@.len() == i,
            forall|j: int| 0 <= j < i ==> res@[j]@ == tags@[j]@,
        decreases tags.len() - i,
    {
        res.push(tags[i].clone());
        i = i + 1;
    }
    proof {
        assert(tags_view(res@) =~= tags_view(tags@));
    }
    res
}

/// Copy an optional tag list.
fn clone_opt_tags(tag: &Option<Vec<Tag>>) -> (res: Option<Vec<Tag>>)
    ensures
        opt_tags_view(res) == opt_tags_view(*tag),
{
    match tag {
        Some(v) => Some(clone_tags(v)),
        None => None,
    }
}

/// Copy a node-reference list.
fn clone_nds(nds: &Vec<Nd>) -> (res: Vec<Nd>)
    ensures
        res@ == nds@,
{
    let mut res = Vec::<Nd>::new();
    let mut i: usize = 0;
    while i < nds.len()
        invariant
            0 <= i <= nds.len(),
            res@ =~= nds@.take(i as int),
        decreases nds.len() - i,
    {
        res.push(nds[i]);
        i = i + 1;
    }
    proof {
        assert(res@ =~= nds@);
    }
    res
}

/// Copy a member list.
fn clone_members(members: &Vec<Member>) -> (res: Vec<Member>)
    ensures
        res@.map_values(|m: Member| m@) == members@.map_values(|m: Member| m@),
{
    let mut res = Vec::<Member>::new();
    let mut i: usize = 0;
    while i < members.len()
        invariant
            0 <= i <= members.len(),
            res@.len() == i,
            forall|j: int| 0 <= j < i ==> res@[j]@ == members@[j]@,
        decreases members.len() - i,
    {
        res.push(members[i].clone());
        i = i + 1;
    }
    proof {
        assert(res@.map_values(|m: Member| m@) =~= members@.map_values(|m: Member| m@));
    }
    res
}

} // verus!

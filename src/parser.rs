//! The store that the three passes leave, and the views and features built
//! from it on demand.
use vstd::prelude::*;
use std::collections::HashMap;
use crate::filter::copy_tags;
use crate::geometry::{heal_of, GapTable, Point};
use crate::relation::{
    coordinates_of, coordinates_view, fragments_of, points_of, Area, Node, PublicTransport,
    Relation, Way,
};
use crate::resolver::{NodeRecord, NodeStage, RelationRecord, WayRecord, WayStage};

verus! {

broadcast use vstd::std_specs::hash::group_hash_axioms;

/// A hydrated node as values: id, tags, latitude and longitude.
pub open spec fn node_view(n: Node) -> (u64, Seq<(String, String)>, i64, i64) {
    (n.id, n.tags@, n.lat, n.lon)
}

/// A hydrated way as values: id, tags, metadata and nodes.
pub open spec fn way_view(w: Way) -> (
    u64,
    Seq<(String, String)>,
    Seq<(String, String)>,
    Seq<(u64, Seq<(String, String)>, i64, i64)>,
) {
    (w.id, w.tags@, w.info@, w.nodes@.map_values(|n: Node| node_view(n)))
}

/// The point of a hydrated node.
pub open spec fn view_point(v: (u64, Seq<(String, String)>, i64, i64)) -> Point {
    Point { id: v.0, lat: v.2, lon: v.3 }
}

/// The nodes of `ids` that the store holds, in order; the others are passed over.
pub open spec fn hydrate_nodes(ids: Seq<u64>, store: Map<u64, NodeRecord>) -> Seq<
    (u64, Seq<(String, String)>, i64, i64),
>
    decreases ids.len(),
{
    if ids.len() == 0 {
        Seq::empty()
    } else {
        let before = hydrate_nodes(ids.drop_last(), store);
        let id = ids.last();
        if store.contains_key(id) {
            before.push((id, store[id].tags@, store[id].lat, store[id].lon))
        } else {
            before
        }
    }
}

/// The ways of `ids` that the store holds, in order, each with the nodes
/// the store holds; the others are passed over.
pub open spec fn hydrate_ways(
    ids: Seq<u64>,
    ways: Map<u64, WayRecord>,
    nodes: Map<u64, NodeRecord>,
) -> Seq<
    (u64, Seq<(String, String)>, Seq<(String, String)>, Seq<(u64, Seq<(String, String)>, i64, i64)>),
>
    decreases ids.len(),
{
    if ids.len() == 0 {
        Seq::empty()
    } else {
        let before = hydrate_ways(ids.drop_last(), ways, nodes);
        let id = ids.last();
        if ways.contains_key(id) {
            before.push((id, ways[id].tags@, ways[id].info@, hydrate_nodes(ways[id].nodes@, nodes)))
        } else {
            before
        }
    }
}

/// The fragments of the ways of `ids`: the points of each way in the store
/// that has a node in the store.
pub open spec fn relation_fragments(
    ids: Seq<u64>,
    ways: Map<u64, WayRecord>,
    nodes: Map<u64, NodeRecord>,
) -> Seq<Seq<Point>>
    decreases ids.len(),
{
    if ids.len() == 0 {
        Seq::empty()
    } else {
        let before = relation_fragments(ids.drop_last(), ways, nodes);
        let id = ids.last();
        if ways.contains_key(id) && hydrate_nodes(ways[id].nodes@, nodes).len() > 0 {
            before.push(hydrate_nodes(ways[id].nodes@, nodes).map_values(|v| view_point(v)))
        } else {
            before
        }
    }
}

/// The fragment of a single way: its points when it has a node in the store.
pub open spec fn way_fragments(ids: Seq<u64>, nodes: Map<u64, NodeRecord>) -> Seq<Seq<Point>> {
    if hydrate_nodes(ids, nodes).len() > 0 {
        seq![hydrate_nodes(ids, nodes).map_values(|v| view_point(v))]
    } else {
        Seq::empty()
    }
}

/// Main class: the relations, ways and nodes kept by the three passes, from
/// which public transports and areas are built on demand
pub struct Parser {
    pub relations: Vec<RelationRecord>,
    pub relations_ways: HashMap<u64, WayRecord>,
    pub ways: Vec<WayRecord>,
    pub nodes: HashMap<u64, NodeRecord>,
    pub cpus: usize,
}

/// Sequential iterator that returns a Relation on each turn
pub struct ParserRelationIterator {
    pub index: usize,
    pub data: Parser,
}

impl Parser {
    /// The store the three passes leave: the relations of the first, the
    /// ways of the second and the nodes of the third.
    pub fn from_stages(
        relations: Vec<RelationRecord>,
        ways: WayStage,
        nodes: NodeStage,
        cpus: usize,
    ) -> (r: Parser)
        ensures
            r.relations == relations,
            r.relations_ways@ == ways.relation_ways@,
            r.ways@ == ways.ways@,
            r.nodes@ == nodes.nodes@,
            r.cpus == cpus,
    {
        let WayStage { relation_ways, ways, .. } = ways;
        let NodeStage { nodes, .. } = nodes;
        Parser { relations, relations_ways: relation_ways, ways, nodes, cpus }
    }

    pub fn relations_len(&self) -> (r: usize)
        ensures
            r == self.relations@.len(),
    {
        self.relations.len()
    }

    pub fn ways_len(&self) -> (r: usize)
        ensures
            r == self.ways@.len(),
    {
        self.ways.len()
    }

    fn hydrate_node_list(&self, ids: &Vec<u64>) -> (r: Vec<Node>)
        ensures
            r@.map_values(|n: Node| node_view(n)) == hydrate_nodes(ids@, self.nodes@),
            points_of(r@) == hydrate_nodes(ids@, self.nodes@).map_values(|v| view_point(v)),
    {
        let mut r: Vec<Node> = Vec::new();
        let mut i: usize = 0;
        while i < ids.len()
            invariant
                i <= ids.len(),
                r@.map_values(|n: Node| node_view(n)) == hydrate_nodes(
                    ids@.subrange(0, i as int),
                    self.nodes@,
                ),
            decreases ids.len() - i,
        {
            let id = ids[i];
            assert(ids@.subrange(0, i + 1).drop_last() =~= ids@.subrange(0, i as int));
            let ghost before = r@.map_values(|n: Node| node_view(n));
            match self.nodes.get(&id) {
                Some(rec) => {
                    let node = Node { id, tags: copy_tags(&rec.tags), lat: rec.lat, lon: rec.lon };
                    r.push(node);
                    assert(r@.map_values(|n: Node| node_view(n)) =~= before.push(
                        (id, self.nodes@[id].tags@, self.nodes@[id].lat, self.nodes@[id].lon),
                    ));
                },
                None => {},
            }
            i += 1;
        }
        assert(ids@.subrange(0, ids@.len() as int) =~= ids@);
        assert(points_of(r@) =~= hydrate_nodes(ids@, self.nodes@).map_values(|v| view_point(v)));
        r
    }

    /// Builds the Way providing its record of the internal cache
    pub fn get_way_from(&self, way_data: &WayRecord) -> (r: Way)
        ensures
            r.id == way_data.id,
            r.tags@ == way_data.tags@,
            r.info@ == way_data.info@,
            r.nodes@.map_values(|n: Node| node_view(n)) == hydrate_nodes(
                way_data.nodes@,
                self.nodes@,
            ),
            fragments_of(seq![r]) == way_fragments(way_data.nodes@, self.nodes@),
    {
        let r = Way {
            id: way_data.id,
            tags: copy_tags(&way_data.tags),
            info: copy_tags(&way_data.info),
            nodes: self.hydrate_node_list(&way_data.nodes),
        };
        assert(seq![r].drop_last() =~= Seq::<Way>::empty());
        assert(seq![r].last() == r);
        assert(fragments_of(Seq::<Way>::empty()) == Seq::<Seq<Point>>::empty());
        assert(r.nodes@.len() == hydrate_nodes(way_data.nodes@, self.nodes@).len());
        r
    }

    /// Builds the Relation providing its record of the internal cache
    pub fn get_relation_from(&self, relation_data: &RelationRecord) -> (r: Relation)
        ensures
            r.id == relation_data.id,
            r.tags@ == relation_data.tags@,
            r.info@ == relation_data.info@,
            r.ways@.map_values(|w: Way| way_view(w)) == hydrate_ways(
                relation_data.ways@,
                self.relations_ways@,
                self.nodes@,
            ),
            fragments_of(r.ways@) == relation_fragments(
                relation_data.ways@,
                self.relations_ways@,
                self.nodes@,
            ),
            r.stops@.map_values(|n: Node| node_view(n)) == hydrate_nodes(
                relation_data.stops@,
                self.nodes@,
            ),
    {
        let ids = &relation_data.ways;
        let mut ways: Vec<Way> = Vec::new();
        let mut i: usize = 0;
        while i < ids.len()
            invariant
                i <= ids.len(),
                ways@.map_values(|w: Way| way_view(w)) == hydrate_ways(
                    ids@.subrange(0, i as int),
                    self.relations_ways@,
                    self.nodes@,
                ),
                fragments_of(ways@) == relation_fragments(
                    ids@.subrange(0, i as int),
                    self.relations_ways@,
                    self.nodes@,
                ),
            decreases ids.len() - i,
        {
            let id = ids[i];
            assert(ids@.subrange(0, i + 1).drop_last() =~= ids@.subrange(0, i as int));
            let ghost before = ways@.map_values(|w: Way| way_view(w));
            match self.relations_ways.get(&id) {
                Some(rec) => {
                    let way = Way {
                        id,
                        tags: copy_tags(&rec.tags),
                        info: copy_tags(&rec.info),
                        nodes: self.hydrate_node_list(&rec.nodes),
                    };
                    let ghost hv = hydrate_nodes(self.relations_ways@[id].nodes@, self.nodes@);
                    assert(way.nodes@.len() == hv.len());
                    let ghost old_ws = ways@;
                    let ghost wg = way;
                    ways.push(way);
                    assert(ways@.drop_last() =~= old_ws);
                    assert(ways@.last() == wg);
                    assert(ways@.map_values(|w: Way| way_view(w)) =~= before.push(
                        (id, self.relations_ways@[id].tags@, self.relations_ways@[id].info@, hv),
                    ));
                },
                None => {},
            }
            i += 1;
        }
        assert(ids@.subrange(0, ids@.len() as int) =~= ids@);
        Relation {
            id: relation_data.id,
            tags: copy_tags(&relation_data.tags),
            info: copy_tags(&relation_data.info),
            ways,
            stops: self.hydrate_node_list(&relation_data.stops),
        }
    }

    /// Builds the Relation at position `index` in the internal cache
    pub fn get_relation_at(&self, index: usize) -> (r: Relation)
        requires
            index < self.relations@.len(),
        ensures
            r.id == self.relations@[index as int].id,
            r.tags@ == self.relations@[index as int].tags@,
            r.info@ == self.relations@[index as int].info@,
            r.ways@.map_values(|w: Way| way_view(w)) == hydrate_ways(
                self.relations@[index as int].ways@,
                self.relations_ways@,
                self.nodes@,
            ),
            fragments_of(r.ways@) == relation_fragments(
                self.relations@[index as int].ways@,
                self.relations_ways@,
                self.nodes@,
            ),
            r.stops@.map_values(|n: Node| node_view(n)) == hydrate_nodes(
                self.relations@[index as int].stops@,
                self.nodes@,
            ),
    {
        self.get_relation_from(&self.relations[index])
    }

    /// Builds the Way at position `index` in the internal cache
    pub fn get_way_at(&self, index: usize) -> (r: Way)
        requires
            index < self.ways@.len(),
        ensures
            r.id == self.ways@[index as int].id,
            r.tags@ == self.ways@[index as int].tags@,
            r.info@ == self.ways@[index as int].info@,
            r.nodes@.map_values(|n: Node| node_view(n)) == hydrate_nodes(
                self.ways@[index as int].nodes@,
                self.nodes@,
            ),
            fragments_of(seq![r]) == way_fragments(self.ways@[index as int].nodes@, self.nodes@),
    {
        self.get_way_from(&self.ways[index])
    }

    /// Builds the Relation from the provided osm_id `id`: the first relation with that id
    pub fn get_relation_from_id(&self, id: u64) -> (r: Relation)
        requires
            exists|i: int| 0 <= i < self.relations@.len() && (#[trigger] self.relations@[i]).id == id,
        ensures
            exists|i: int|
                0 <= i < self.relations@.len() && (#[trigger] self.relations@[i]).id == id && (
                forall|j: int| 0 <= j < i ==> self.relations@[j].id != id) && r.id == id
                    && r.tags@ == self.relations@[i].tags@ && r.info@ == self.relations@[i].info@
                    && r.ways@.map_values(|w: Way| way_view(w)) == hydrate_ways(
                    self.relations@[i].ways@,
                    self.relations_ways@,
                    self.nodes@,
                ) && r.stops@.map_values(|n: Node| node_view(n)) == hydrate_nodes(
                    self.relations@[i].stops@,
                    self.nodes@,
                ),
    {
        let mut i: usize = 0;
        while i < self.relations.len()
            invariant
                i <= self.relations@.len(),
                forall|j: int| 0 <= j < i ==> self.relations@[j].id != id,
            decreases self.relations.len() - i,
        {
            if self.relations[i].id == id {
                return self.get_relation_at(i);
            }
            i += 1;
        }
        // the requirement names a relation with this id, so the search stops above
        proof {
            let k = choose|k: int|
                0 <= k < self.relations@.len() && (#[trigger] self.relations@[k]).id == id;
            assert(self.relations@[k].id != id);
        }
        self.get_relation_at(0)
    }

    /// Returns a sequential iterator that returns a Relation on each turn
    pub fn iter(self) -> (r: ParserRelationIterator)
        ensures
            r.index == 0,
            r.data == self,
    {
        ParserRelationIterator { data: self, index: 0 }
    }

    /// The public transport of the relation at `index`: its lines healed
    /// with the gaps given, not closed.
    pub fn public_transport_at(&self, index: usize, gaps: &GapTable) -> (r: PublicTransport)
        requires
            index < self.relations@.len(),
        ensures
            r.id == self.relations@[index as int].id,
            r.tags@ == self.relations@[index as int].tags@,
            r.info@ == self.relations@[index as int].info@,
            r.stops@.map_values(|n: Node| node_view(n)) == hydrate_nodes(
                self.relations@[index as int].stops@,
                self.nodes@,
            ),
            coordinates_view(r.geometry@) == coordinates_of(
                heal_of(
                    relation_fragments(
                        self.relations@[index as int].ways@,
                        self.relations_ways@,
                        self.nodes@,
                    ),
                    *gaps,
                    false,
                ).0,
            ),
            r.parse_status.is(
                heal_of(
                    relation_fragments(
                        self.relations@[index as int].ways@,
                        self.relations_ways@,
                        self.nodes@,
                    ),
                    *gaps,
                    false,
                ).1,
            ),
    {
        PublicTransport::from_relation(self.get_relation_at(index), gaps)
    }

    /// The area of the relation at `index`: its lines healed with the gaps
    /// given and closed into rings.
    pub fn relation_area_at(&self, index: usize, gaps: &GapTable) -> (r: Area)
        requires
            index < self.relations@.len(),
        ensures
            r.id == self.relations@[index as int].id,
            r.id_type == 'r',
            r.tags@ == self.relations@[index as int].tags@,
            r.info@ == self.relations@[index as int].info@,
            coordinates_view(r.geometry@) == coordinates_of(
                heal_of(
                    relation_fragments(
                        self.relations@[index as int].ways@,
                        self.relations_ways@,
                        self.nodes@,
                    ),
                    *gaps,
                    true,
                ).0,
            ),
            r.parse_status.is(
                heal_of(
                    relation_fragments(
                        self.relations@[index as int].ways@,
                        self.relations_ways@,
                        self.nodes@,
                    ),
                    *gaps,
                    true,
                ).1,
            ),
    {
        Area::from_relation(self.get_relation_at(index), gaps)
    }

    /// The area of the standalone way at `index`: its nodes closed into a
    /// ring with the gaps given.
    pub fn way_area_at(&self, index: usize, gaps: &GapTable) -> (r: Area)
        requires
            index < self.ways@.len(),
        ensures
            r.id == self.ways@[index as int].id,
            r.id_type == 'w',
            r.tags@ == self.ways@[index as int].tags@,
            r.info@ == self.ways@[index as int].info@,
            coordinates_view(r.geometry@) == coordinates_of(
                heal_of(way_fragments(self.ways@[index as int].nodes@, self.nodes@), *gaps, true).0,
            ),
            r.parse_status.is(
                heal_of(way_fragments(self.ways@[index as int].nodes@, self.nodes@), *gaps, true).1,
            ),
    {
        Area::from_way(self.get_way_at(index), gaps)
    }
}

impl ParserRelationIterator {
    /// The next relation, hydrated, or `None` after the last.
    pub fn next(&mut self) -> (r: Option<Relation>)
        ensures
            final(self).data == old(self).data,
            if old(self).index < old(self).data.relations@.len() {
                &&& final(self).index == old(self).index + 1
                &&& r matches Some(rel) && rel.id == old(self).data.relations@[old(self).index as int].id
                    && rel.tags@ == old(self).data.relations@[old(self).index as int].tags@
                    && rel.info@ == old(self).data.relations@[old(self).index as int].info@
                    && rel.ways@.map_values(|w: Way| way_view(w)) == hydrate_ways(
                    old(self).data.relations@[old(self).index as int].ways@,
                    old(self).data.relations_ways@,
                    old(self).data.nodes@,
                ) && rel.stops@.map_values(|n: Node| node_view(n)) == hydrate_nodes(
                    old(self).data.relations@[old(self).index as int].stops@,
                    old(self).data.nodes@,
                )
            } else {
                &&& final(self).index == old(self).index
                &&& r is None
            },
    {
        if self.index >= self.data.relations.len() {
            None
        } else {
            let relation = self.data.get_relation_at(self.index);
            self.index += 1;
            Some(relation)
        }
    }
}

} // verus!

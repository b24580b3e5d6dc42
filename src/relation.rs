//! Hydrated views of nodes, ways and relations, and the features built from
//! them.
use vstd::prelude::*;
use crate::filter::tags_view;
use crate::geometry::{heal_of, heal_ways, lines_view, nonempty_lines, GapTable, Point};
use crate::parse_status::{ParseError, ParseStatus};

verus! {

/// OSM node representation with all the relevant osm data (tags and id);
/// the position is in nanodegrees. In this and the other tag and metadata
/// lists a key may repeat; the first pair with a key is the one that counts.
#[derive(Debug)]
pub struct Node {
    pub id: u64,
    pub tags: Vec<(String, String)>,
    pub lat: i64,
    pub lon: i64,
}

/// OSM way representation with all the relevant osm data (tags and ids of all ways and nodes)
#[derive(Debug)]
pub struct Way {
    pub id: u64,
    pub tags: Vec<(String, String)>,
    pub info: Vec<(String, String)>,
    pub nodes: Vec<Node>,
}

/// OSM relation representation with all the relevant osm data (tags and ids of relation and all ways and nodes)
#[derive(Debug)]
pub struct Relation {
    pub id: u64,
    pub tags: Vec<(String, String)>,
    pub info: Vec<(String, String)>,
    pub ways: Vec<Way>,
    pub stops: Vec<Node>,
}

/// Public transport simple model
#[derive(Debug)]
pub struct PublicTransport {
    /// osm id
    pub id: u64,
    /// osm tags of the public transport relation
    pub tags: Vec<(String, String)>,
    /// osm metadata of the public transport relation
    pub info: Vec<(String, String)>,
    /// stop nodes of the public transport relation with position and tags
    pub stops: Vec<Node>,
    /// geometry (linestring/multilinestring) as (lon, lat) pairs, best effort fixed
    pub geometry: Vec<Vec<(i64, i64)>>,
    /// parse status, info on workarounds applied when parsing to fix semi-broken osm route
    pub parse_status: ParseStatus,
}

/// Area simple model
#[derive(Debug)]
pub struct Area {
    /// osm id
    pub id: u64,
    /// osm object type (w=way, r=relation)
    pub id_type: char,
    /// osm tags of the Area
    pub tags: Vec<(String, String)>,
    /// osm metadata of the Area
    pub info: Vec<(String, String)>,
    /// geometry (polygon/multipolygon) as (lon, lat) pairs, best effort fixed
    pub geometry: Vec<Vec<(i64, i64)>>,
    /// parse status, info on workarounds applied when parsing to fix semi-broken osm area
    pub parse_status: ParseStatus,
}

/// The point of a node: its id and position.
pub open spec fn point_of(n: Node) -> Point {
    Point { id: n.id, lat: n.lat, lon: n.lon }
}

/// The node sequence of a way, as points.
pub open spec fn points_of(nodes: Seq<Node>) -> Seq<Point> {
    nodes.map_values(|n: Node| point_of(n))
}

/// The fragments of a list of ways: the points of each way that has a node
/// at all, in order. A way none of whose nodes could be found has nothing
/// to give to the line and is passed over.
pub open spec fn fragments_of(ways: Seq<Way>) -> Seq<Seq<Point>>
    decreases ways.len(),
{
    if ways.len() == 0 {
        Seq::empty()
    } else {
        let before = fragments_of(ways.drop_last());
        if ways.last().nodes@.len() == 0 {
            before
        } else {
            before.push(points_of(ways.last().nodes@))
        }
    }
}

/// Lines as (lon, lat) pairs.
pub open spec fn coordinates_of(ls: Seq<Seq<Point>>) -> Seq<Seq<(i64, i64)>> {
    ls.map_values(|l: Seq<Point>| l.map_values(|p: Point| (p.lon, p.lat)))
}

pub open spec fn coordinates_view(cs: Seq<Vec<(i64, i64)>>) -> Seq<Seq<(i64, i64)>> {
    cs.map_values(|c: Vec<(i64, i64)>| c@)
}

impl Node {
    pub fn point(&self) -> (r: Point)
        ensures
            r == point_of(*self),
    {
        Point { id: self.id, lat: self.lat, lon: self.lon }
    }
}

fn node_points(nodes: &Vec<Node>) -> (r: Vec<Point>)
    ensures
        r@ == points_of(nodes@),
{
    let mut r: Vec<Point> = Vec::new();
    let mut i: usize = 0;
    while i < nodes.len()
        invariant
            i <= nodes.len(),
            r@ =~= points_of(nodes@).subrange(0, i as int),
        decreases nodes.len() - i,
    {
        r.push(nodes[i].point());
        i += 1;
    }
    r
}

fn fragments_of_ways(ways: &Vec<Way>) -> (r: Vec<Vec<Point>>)
    ensures
        lines_view(r@) == fragments_of(ways@),
        nonempty_lines(lines_view(r@)),
{
    let mut r: Vec<Vec<Point>> = Vec::new();
    let mut i: usize = 0;
    while i < ways.len()
        invariant
            i <= ways.len(),
            lines_view(r@) == fragments_of(ways@.subrange(0, i as int)),
            nonempty_lines(lines_view(r@)),
        decreases ways.len() - i,
    {
        let ghost before = lines_view(r@);
        assert(ways@.subrange(0, i + 1).drop_last() =~= ways@.subrange(0, i as int));
        if ways[i].nodes.len() > 0 {
            r.push(node_points(&ways[i].nodes));
            assert(lines_view(r@) =~= before.push(points_of(ways@[i as int].nodes@)));
        }
        i += 1;
    }
    assert(ways@.subrange(0, ways@.len() as int) =~= ways@);
    r
}

fn to_coordinates(ls: &Vec<Vec<Point>>) -> (r: Vec<Vec<(i64, i64)>>)
    ensures
        coordinates_view(r@) == coordinates_of(lines_view(ls@)),
{
    let mut r: Vec<Vec<(i64, i64)>> = Vec::new();
    let mut i: usize = 0;
    while i < ls.len()
        invariant
            i <= ls.len(),
            coordinates_view(r@) =~= coordinates_of(lines_view(ls@)).subrange(0, i as int),
        decreases ls.len() - i,
    {
        let l = &ls[i];
        let mut c: Vec<(i64, i64)> = Vec::new();
        let mut j: usize = 0;
        while j < l.len()
            invariant
                j <= l.len(),
                c@ =~= l@.map_values(|p: Point| (p.lon, p.lat)).subrange(0, j as int),
            decreases l.len() - j,
        {
            c.push((l[j].lon, l[j].lat));
            j += 1;
        }
        assert(c@ =~= l@.map_values(|p: Point| (p.lon, p.lat)));
        let ghost before = coordinates_view(r@);
        r.push(c);
        assert(coordinates_view(r@) =~= before.push(c@));
        i += 1;
    }
    r
}

impl Relation {
    /// best effort get a linestring or multilinestring from all the ways that compose this relation;
    /// gaps are bridged between the node pairs that `gaps` lists, and with `closed`
    /// the lines are closed into rings
    pub fn flatten_ways(&self, gaps: &GapTable, closed: bool) -> (r: Result<
        (Vec<Vec<Point>>, ParseStatus),
        ParseError,
    >)
        ensures
            r matches Ok(res) && lines_view(res.0@) == heal_of(fragments_of(self.ways@), *gaps, closed).0
                && res.1.is(heal_of(fragments_of(self.ways@), *gaps, closed).1),
    {
        let fragments = fragments_of_ways(&self.ways);
        Ok(heal_ways(&fragments, gaps, closed))
    }
}

impl Way {
    /// best effort get a (closed, with `closed`) linestring from the nodes that compose this way
    pub fn flatten_ways(&self, gaps: &GapTable, closed: bool) -> (r: Result<
        (Vec<Vec<Point>>, ParseStatus),
        (),
    >)
        ensures
            r matches Ok(res) && lines_view(res.0@) == heal_of(
                fragments_of(seq![*self]),
                *gaps,
                closed,
            ).0 && res.1.is(heal_of(fragments_of(seq![*self]), *gaps, closed).1),
    {
        let mut fragments: Vec<Vec<Point>> = Vec::new();
        if self.nodes.len() > 0 {
            fragments.push(node_points(&self.nodes));
        }
        assert(seq![*self].drop_last() =~= Seq::<Way>::empty());
        assert(fragments_of(Seq::<Way>::empty()) == Seq::<Seq<Point>>::empty());
        assert(seq![*self].last() == *self);
        assert(lines_view(fragments@) =~= fragments_of(seq![*self]));
        Ok(heal_ways(&fragments, gaps, closed))
    }
}

impl PublicTransport {
    /// The route of a relation: its lines healed with the gaps given, not closed.
    pub fn from_relation(relation: Relation, gaps: &GapTable) -> (r: PublicTransport)
        ensures
            r.id == relation.id,
            r.tags == relation.tags,
            r.info == relation.info,
            r.stops == relation.stops,
            coordinates_view(r.geometry@) == coordinates_of(
                heal_of(fragments_of(relation.ways@), *gaps, false).0,
            ),
            r.parse_status.is(heal_of(fragments_of(relation.ways@), *gaps, false).1),
    {
        let fragments = fragments_of_ways(&relation.ways);
        let (lines, status) = heal_ways(&fragments, gaps, false);
        PublicTransport {
            id: relation.id,
            tags: relation.tags,
            info: relation.info,
            stops: relation.stops,
            geometry: to_coordinates(&lines),
            parse_status: status,
        }
    }
}

impl Area {
    /// The area of a relation: its lines healed with the gaps given and closed into rings.
    pub fn from_relation(relation: Relation, gaps: &GapTable) -> (r: Area)
        ensures
            r.id == relation.id,
            r.id_type == 'r',
            r.tags == relation.tags,
            r.info == relation.info,
            coordinates_view(r.geometry@) == coordinates_of(
                heal_of(fragments_of(relation.ways@), *gaps, true).0,
            ),
            r.parse_status.is(heal_of(fragments_of(relation.ways@), *gaps, true).1),
    {
        let fragments = fragments_of_ways(&relation.ways);
        let (lines, status) = heal_ways(&fragments, gaps, true);
        Area {
            id: relation.id,
            id_type: 'r',
            tags: relation.tags,
            info: relation.info,
            geometry: to_coordinates(&lines),
            parse_status: status,
        }
    }

    /// The area of a way: its nodes closed into a ring with the gaps given.
    pub fn from_way(way: Way, gaps: &GapTable) -> (r: Area)
        ensures
            r.id == way.id,
            r.id_type == 'w',
            r.tags == way.tags,
            r.info == way.info,
            coordinates_view(r.geometry@) == coordinates_of(
                heal_of(fragments_of(seq![way]), *gaps, true).0,
            ),
            r.parse_status.is(heal_of(fragments_of(seq![way]), *gaps, true).1),
    {
        let (lines, status) = match way.flatten_ways(gaps, true) {
            Ok(res) => res,
            Err(_) => (Vec::new(), ParseStatus::broken()),
        };
        Area {
            id: way.id,
            id_type: 'w',
            tags: way.tags,
            info: way.info,
            geometry: to_coordinates(&lines),
            parse_status: status,
        }
    }
}

} // verus!

use std::collections::HashSet;

use osmptparser::filter::TagFilter;
use osmptparser::geometry::GapTable;
use osmptparser::parser::Parser;
use osmptparser::resolver::{
    Member, MemberKind, NodeBatch, NodeStage, RawNode, RawRelation, RawWay, RelationBatch,
    RelationStage, WayBatch, WayStage,
};

fn tags(pairs: &[(&str, &str)]) -> Vec<(String, String)> {
    pairs.iter().map(|(k, v)| (k.to_string(), v.to_string())).collect()
}

fn node(id: u64, lon_milli: i64) -> RawNode {
    RawNode { id, tags: tags(&[("n", "x")]), lat: 0, lon: lon_milli * 1_000_000 }
}

/// Runs the three passes over a small extract, with `workers` batches per pass
/// fed round robin.
fn build(workers: usize) -> Parser {
    let filter = TagFilter::parse("route=bus").unwrap();
    let relations = vec![
        RawRelation {
            id: 2,
            tags: tags(&[("route", "bus"), ("name", "B")]),
            info: tags(&[("version", "13")]),
            members: vec![
                Member { role: String::new(), id: 20, kind: MemberKind::Way },
                Member { role: "stop".to_string(), id: 1, kind: MemberKind::Node },
            ],
        },
        RawRelation {
            id: 1,
            tags: tags(&[("route", "bus"), ("name", "A")]),
            info: tags(&[("version", "226")]),
            members: vec![
                Member { role: String::new(), id: 10, kind: MemberKind::Way },
                Member { role: String::new(), id: 11, kind: MemberKind::Way },
                Member { role: String::new(), id: 99, kind: MemberKind::Way },
                Member { role: "stop".to_string(), id: 3, kind: MemberKind::Node },
                Member { role: "stop".to_string(), id: 98, kind: MemberKind::Node },
            ],
        },
    ];
    let mut batches: Vec<RelationBatch> = (0..workers).map(|_| RelationBatch::new(&filter)).collect();
    for (i, r) in relations.into_iter().enumerate() {
        batches[i % workers].accept(r, &filter);
    }
    let mut stage1 = RelationStage::new(&filter);
    for b in batches {
        stage1.absorb(b);
    }
    let (mut stage2, records, wanted_ways) = WayStage::new(stage1);
    let ways = vec![
        RawWay { id: 10, tags: tags(&[]), info: vec![], refs: vec![1, 2] },
        RawWay { id: 11, tags: tags(&[]), info: vec![], refs: vec![3, 2, 97] },
        RawWay { id: 20, tags: tags(&[]), info: vec![], refs: vec![4, 5] },
        RawWay { id: 30, tags: tags(&[("route", "bus")]), info: vec![], refs: vec![6, 7, 6] },
    ];
    let mut wbatches: Vec<WayBatch> = (0..workers).map(|_| WayBatch::new(&wanted_ways)).collect();
    for (i, w) in ways.into_iter().enumerate() {
        wbatches[i % workers].accept(w, &wanted_ways, &filter);
    }
    for b in wbatches {
        stage2.absorb(b);
    }
    let wanted_nodes: HashSet<u64> = stage2.node_ids.clone();
    let mut stage3 = NodeStage::new(&wanted_nodes);
    let mut nbatches: Vec<NodeBatch> = (0..workers).map(|_| NodeBatch::new(&wanted_nodes)).collect();
    for (i, id) in (1..=8u64).enumerate() {
        nbatches[i % workers].accept(node(id, id as i64), &wanted_nodes);
    }
    for b in nbatches {
        stage3.absorb(b);
    }
    Parser::from_stages(records, stage2, stage3, workers)
}

fn summary(p: &Parser) -> Vec<(u64, usize, usize, u64)> {
    let gaps = GapTable::empty();
    let mut out: Vec<(u64, usize, usize, u64)> = (0..p.relations_len())
        .map(|i| {
            let pt = p.public_transport_at(i, &gaps);
            (pt.id, pt.stops.len(), pt.geometry.len(), pt.parse_status.code)
        })
        .collect();
    out.sort();
    out
}

#[test]
fn hydration_skips_missing_references() {
    let p = build(1);
    let r = p.get_relation_from_id(1);
    assert_eq!(r.ways.len(), 2);
    assert_eq!(r.ways[0].id, 10);
    let ids: Vec<u64> = r.ways[1].nodes.iter().map(|n| n.id).collect();
    assert_eq!(ids, vec![3, 2]);
    assert_eq!(r.stops.len(), 1);
    assert_eq!(r.stops[0].id, 3);
    assert_eq!(r.info, tags(&[("version", "226")]));
    assert!(r.ways[0].info.is_empty());
}

#[test]
fn public_transport_heals_the_route() {
    let p = build(1);
    let i = (0..p.relations_len()).find(|&i| p.relations[i].id == 1).unwrap();
    let pt = p.public_transport_at(i, &GapTable::empty());
    assert_eq!(pt.parse_status.code, 0);
    assert_eq!(pt.geometry, vec![vec![(1_000_000, 0), (2_000_000, 0), (3_000_000, 0)]]);
}

#[test]
fn iterator_gives_every_relation_once() {
    let p = build(2);
    let n = p.relations_len();
    let mut it = p.iter();
    let mut count = 0;
    while let Some(_) = it.next() {
        count += 1;
    }
    assert_eq!(count, n);
    assert_eq!(count, 2);
}

#[test]
fn worker_count_does_not_change_the_outcome() {
    assert_eq!(summary(&build(1)), summary(&build(2)));
    assert_eq!(summary(&build(1)), summary(&build(3)));
}

#[test]
fn standalone_way_becomes_a_closed_area() {
    let p = build(1);
    assert_eq!(p.ways_len(), 1);
    let area = p.way_area_at(0, &GapTable::empty());
    assert_eq!(area.id, 30);
    assert_eq!(area.id_type, 'w');
    assert_eq!(area.parse_status.code, 0);
    assert_eq!(area.geometry, vec![vec![(6_000_000, 0), (7_000_000, 0), (6_000_000, 0)]]);
}

#[test]
fn relation_area_that_cannot_close_is_broken() {
    let p = build(1);
    let i = (0..p.relations_len()).find(|&i| p.relations[i].id == 2).unwrap();
    let area = p.relation_area_at(i, &GapTable::empty());
    assert_eq!(area.id_type, 'r');
    assert_eq!(area.parse_status.code, 501);
    assert_eq!(area.parse_status.detail, "Broken");
}

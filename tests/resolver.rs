use std::collections::HashSet;

use osmptparser::filter::TagFilter;
use osmptparser::resolver::{
    Member, MemberKind, NodeBatch, NodeStage, RawNode, RawRelation, RawWay, RelationBatch,
    RelationStage, WayBatch, WayStage,
};

fn tags(pairs: &[(&str, &str)]) -> Vec<(String, String)> {
    pairs.iter().map(|(k, v)| (k.to_string(), v.to_string())).collect()
}

fn member(id: u64, kind: MemberKind, role: &str) -> Member {
    Member { role: role.to_string(), id, kind }
}

fn relation(id: u64, t: &[(&str, &str)], members: Vec<Member>) -> RawRelation {
    RawRelation { id, tags: tags(t), info: tags(&[("version", "3")]), members }
}

fn way(id: u64, t: &[(&str, &str)], refs: Vec<u64>) -> RawWay {
    RawWay { id, tags: tags(t), info: tags(&[("version", "1")]), refs }
}

#[test]
fn relation_pass_keeps_matching_relations_with_ways() {
    let filter = TagFilter::parse("route=bus").unwrap();
    let mut batch = RelationBatch::new(&filter);
    batch.accept(
        relation(
            10,
            &[("route", "bus")],
            vec![
                member(100, MemberKind::Way, "forward"),
                member(1, MemberKind::Node, "stop"),
                member(101, MemberKind::Way, "other-role"),
                member(7, MemberKind::Relation, ""),
            ],
        ),
        &filter,
    );
    // filtered out
    batch.accept(relation(11, &[("route", "train")], vec![member(200, MemberKind::Way, "")]), &filter);
    // no way member: discarded, and its stops are not wanted
    batch.accept(relation(12, &[("route", "bus")], vec![member(2, MemberKind::Node, "")]), &filter);
    assert_eq!(batch.relations.len(), 1);
    assert_eq!(batch.relations[0].id, 10);
    assert_eq!(batch.relations[0].ways, vec![100, 101]);
    assert_eq!(batch.relations[0].stops, vec![1]);
    assert_eq!(batch.way_ids, vec![100, 101]);
    assert_eq!(batch.stop_ids, vec![1]);

    let mut stage = RelationStage::new(&filter);
    stage.absorb(batch);
    assert_eq!(stage.way_ids, HashSet::from([100, 101]));
    assert_eq!(stage.node_ids, HashSet::from([1]));
    for r in &stage.relations {
        assert!(r.ways.iter().all(|w| stage.way_ids.contains(w)));
        assert!(r.stops.iter().all(|n| stage.node_ids.contains(n)));
    }
}

#[test]
fn batches_merge_in_worker_order() {
    let filter = TagFilter::parse("").unwrap();
    let mut first = RelationBatch::new(&filter);
    first.accept(relation(1, &[], vec![member(10, MemberKind::Way, "")]), &filter);
    let mut second = RelationBatch::new(&filter);
    second.accept(relation(2, &[], vec![member(20, MemberKind::Way, ""), member(5, MemberKind::Node, "")]), &filter);
    let mut stage = RelationStage::new(&filter);
    stage.absorb(first);
    stage.absorb(second);
    let ids: Vec<u64> = stage.relations.iter().map(|r| r.id).collect();
    assert_eq!(ids, vec![1, 2]);
    assert_eq!(stage.way_ids, HashSet::from([10, 20]));
    assert_eq!(stage.node_ids, HashSet::from([5]));
}

#[test]
fn way_pass_keeps_both_buckets() {
    let filter = TagFilter::parse("natural=beach").unwrap();
    let all = TagFilter::parse("").unwrap();
    let mut relations = RelationStage::new(&all);
    let mut batch = RelationBatch::new(&all);
    batch.accept(relation(1, &[], vec![member(10, MemberKind::Way, "")]), &all);
    relations.absorb(batch);
    let (mut stage, records, wanted) = WayStage::new(relations);
    assert_eq!(records.len(), 1);
    let mut wb = WayBatch::new(&wanted);
    // wanted and a beach: kept twice
    wb.accept(way(10, &[("natural", "beach")], vec![1, 2, 3]), &wanted, &filter);
    // a beach with no nodes: dropped
    wb.accept(way(11, &[("natural", "beach")], vec![]), &wanted, &filter);
    // neither
    wb.accept(way(12, &[("highway", "path")], vec![4]), &wanted, &filter);
    // a beach
    wb.accept(way(13, &[("natural", "beach")], vec![5, 6]), &wanted, &filter);
    assert_eq!(wb.relation_ways.len(), 1);
    assert!(wb.relation_ways[0].info.is_empty());
    assert_eq!(wb.ways.len(), 2);
    assert_eq!(wb.ways[0].info, tags(&[("version", "1")]));
    assert_eq!(wb.node_ids, vec![1, 2, 3, 1, 2, 3, 5, 6]);
    stage.absorb(wb);
    assert!(stage.relation_ways.contains_key(&10));
    assert_eq!(stage.relation_ways.len(), 1);
    assert_eq!(stage.ways.len(), 2);
    assert_eq!(stage.node_ids, HashSet::from([1, 2, 3, 5, 6]));
}

#[test]
fn node_pass_keeps_wanted_nodes_only() {
    let wanted: HashSet<u64> = HashSet::from([1, 3]);
    let mut batch = NodeBatch::new(&wanted);
    for id in 1..5u64 {
        batch.accept(RawNode { id, tags: tags(&[]), lat: id as i64, lon: -(id as i64) }, &wanted);
    }
    assert_eq!(batch.nodes.len(), 2);
    let mut stage = NodeStage::new(&wanted);
    stage.absorb(batch);
    let mut keys: Vec<u64> = stage.nodes.keys().copied().collect();
    keys.sort();
    assert_eq!(keys, vec![1, 3]);
    assert_eq!(stage.nodes[&3].lat, 3);
    assert_eq!(stage.nodes[&3].lon, -3);
}

#[test]
fn stored_records_keep_their_contents() {
    let all = TagFilter::parse("").unwrap();
    let mut relations = RelationStage::new(&all);
    let mut batch = RelationBatch::new(&all);
    batch.accept(
        relation(1, &[], vec![member(10, MemberKind::Way, ""), member(9, MemberKind::Node, "")]),
        &all,
    );
    relations.absorb(batch);
    let (mut stage, _, wanted) = WayStage::new(relations);
    let none = TagFilter::parse("never").unwrap();
    let mut wb = WayBatch::new(&wanted);
    wb.accept(way(10, &[("highway", "primary")], vec![4, 5, 6]), &wanted, &none);
    stage.absorb(wb);
    let stored = &stage.relation_ways[&10];
    assert_eq!(stored.id, 10);
    assert_eq!(stored.nodes, vec![4, 5, 6]);
    assert_eq!(stored.tags, tags(&[("highway", "primary")]));
    assert!(stored.info.is_empty());
    assert_eq!(stage.node_ids, HashSet::from([9, 4, 5, 6]));

    let wanted_nodes = stage.node_ids.clone();
    let mut nodes = NodeStage::new(&wanted_nodes);
    let mut nb = NodeBatch::new(&wanted_nodes);
    nb.accept(RawNode { id: 5, tags: tags(&[("highway", "stop")]), lat: 7, lon: -8 }, &wanted_nodes);
    nodes.absorb(nb);
    let n = &nodes.nodes[&5];
    assert_eq!((n.lat, n.lon), (7, -8));
    assert_eq!(n.tags, tags(&[("highway", "stop")]));
}

#[test]
fn later_entry_with_the_same_id_wins() {
    let wanted: HashSet<u64> = HashSet::from([1]);
    let mut first = NodeBatch::new(&wanted);
    first.accept(RawNode { id: 1, tags: tags(&[]), lat: 1, lon: 1 }, &wanted);
    first.accept(RawNode { id: 1, tags: tags(&[]), lat: 2, lon: 2 }, &wanted);
    let mut second = NodeBatch::new(&wanted);
    second.accept(RawNode { id: 1, tags: tags(&[]), lat: 3, lon: 3 }, &wanted);
    let mut stage = NodeStage::new(&wanted);
    stage.absorb(first);
    assert_eq!(stage.nodes[&1].lat, 2);
    stage.absorb(second);
    assert_eq!(stage.nodes[&1].lat, 3);
}

use osmptparser::geometry::{
    close_linestring, edge_dist, first_pass, flatten_ways, heal_ways, join_ways, point_dist,
    sort_ways, GapTable, Point,
};
use osmptparser::parse_status::{
    CODE_BROKEN, CODE_JOINED, CODE_OK, CODE_SORTED,
};

const NANO: f64 = 1e9;

fn pt(id: u64, lat_deg: f64, lon_deg: f64) -> Point {
    Point { id, lat: (lat_deg * NANO).round() as i64, lon: (lon_deg * NANO).round() as i64 }
}

fn haversine(a: &Point, b: &Point) -> f64 {
    let (lat1, lon1) = (a.lat as f64 / NANO, a.lon as f64 / NANO);
    let (lat2, lon2) = (b.lat as f64 / NANO, b.lon as f64 / NANO);
    let dlat = (lat2 - lat1).to_radians();
    let dlon = (lon2 - lon1).to_radians();
    let h = (dlat / 2.0).sin().powi(2)
        + lat1.to_radians().cos() * lat2.to_radians().cos() * (dlon / 2.0).sin().powi(2);
    2.0 * 6_371_000.0 * h.sqrt().atan2((1.0 - h).sqrt())
}

fn table(fragments: &[Vec<Point>], tolerance: f64) -> GapTable {
    let mut ends = Vec::new();
    for f in fragments {
        ends.push(f[0]);
        ends.push(f[f.len() - 1]);
    }
    let mut gaps = GapTable::empty();
    for a in &ends {
        for b in &ends {
            let d = haversine(a, b);
            if d < tolerance {
                gaps.joinable.push((a.id, b.id));
            }
            if d <= tolerance {
                gaps.closable.push((a.id, b.id));
            }
        }
    }
    gaps
}

fn ids(lines: &[Vec<Point>]) -> Vec<Vec<u64>> {
    lines.iter().map(|l| l.iter().map(|p| p.id).collect()).collect()
}

#[test]
fn reversed_middle_fragment_heals_at_first_stage() {
    let a = pt(1, 0.0, 0.0);
    let b = pt(2, 0.0, 0.001);
    let c = pt(3, 0.0, 0.002);
    let d = pt(4, 0.0, 0.003);
    let ws = vec![vec![a, b], vec![c, b], vec![c, d]];
    let (lines, status) = flatten_ways(&ws, &GapTable::empty());
    assert_eq!(ids(&lines), vec![vec![1, 2, 3, 4]]);
    assert_eq!(status.code, 0);
    assert_eq!(status.detail, "");
}

#[test]
fn gap_within_tolerance_is_joined() {
    let a = pt(1, 0.0, 0.0);
    let b = pt(2, 0.0, 0.002);
    let c = pt(3, 0.0, 0.0029);
    let d = pt(4, 0.0, 0.005);
    assert!((haversine(&b, &c) - 100.0).abs() < 1.0);
    let ws = vec![vec![a, b], vec![c, d]];
    let gaps = table(&ws, 150.0);
    let (lines, status) = flatten_ways(&ws, &gaps);
    assert_eq!(ids(&lines), vec![vec![1, 2, 3, 4]]);
    assert_eq!(status.code, CODE_JOINED);
    assert_eq!(status.detail, "Joined");
}

#[test]
fn gap_beyond_tolerance_is_broken() {
    let a = pt(1, 0.0, 0.0);
    let b = pt(2, 0.0, 0.002);
    let c = pt(3, 0.0, 0.0029);
    let d = pt(4, 0.0, 0.005);
    let ws = vec![vec![a, b], vec![c, d]];
    let gaps = table(&ws, 50.0);
    let (lines, status) = flatten_ways(&ws, &gaps);
    assert!(lines.is_empty());
    assert_eq!(status.code, CODE_BROKEN);
    assert_eq!(status.detail, "Broken");
}

#[test]
fn no_fragment_is_broken() {
    let (lines, status) = flatten_ways(&Vec::new(), &GapTable::empty());
    assert!(lines.is_empty());
    assert_eq!(status.code, 501);
}

#[test]
fn second_reversal_pass_gives_sorted_status() {
    let p = |id: u64| pt(id, 0.0, id as f64 * 0.001);
    let ws = vec![vec![p(1), p(2)], vec![p(3), p(4)], vec![p(2), p(3)]];
    assert_eq!(ids(&first_pass(&ws)), vec![vec![1, 2], vec![4, 3, 2]]);
    let (lines, status) = flatten_ways(&ws, &GapTable::empty());
    assert_eq!(ids(&lines), vec![vec![1, 2, 3, 4]]);
    assert_eq!(status.code, CODE_SORTED);
    assert_eq!(status.detail, "Sorted");
}

#[test]
fn first_pass_reverses_the_first_fragment() {
    let p = |id: u64| pt(id, 0.0, id as f64 * 0.001);
    // [2,1] then [2,3]: the first fragment is turned to end at 2.
    let ws = vec![vec![p(2), p(1)], vec![p(2), p(3)]];
    assert_eq!(ids(&first_pass(&ws)), vec![vec![1, 2, 3]]);
}

#[test]
fn first_pass_drops_one_id_per_join() {
    let p = |id: u64| pt(id, 0.0, id as f64 * 0.001);
    let ws = vec![vec![p(1), p(2)], vec![p(2), p(3)], vec![p(7), p(8)], vec![p(9), p(8)]];
    let out = first_pass(&ws);
    assert_eq!(ids(&out), vec![vec![1, 2, 3], vec![7, 8, 9]]);
    let before: usize = ws.iter().map(|w| w.len()).sum();
    let after: usize = out.iter().map(|w| w.len()).sum();
    assert_eq!(before - after, ws.len() - out.len());
}

#[test]
fn sort_ways_keeps_the_order() {
    let p = |id: u64, lon: f64| pt(id, 0.0, lon);
    let ws = vec![vec![p(1, 0.0), p(2, 0.001)], vec![p(3, 5.0), p(4, 6.0)], vec![p(5, 0.002), p(6, 0.003)]];
    let sorted = sort_ways(&ws);
    assert_eq!(ids(&sorted), ids(&ws));
}

#[test]
fn edge_distance_is_always_minus_one() {
    let u = vec![pt(1, 10.0, 10.0), pt(2, 11.0, 11.0)];
    let v = vec![pt(3, -20.0, 40.0)];
    assert_eq!(edge_dist(&u, &v), -1);
}

#[test]
fn point_distance_is_squared_euclidean() {
    let a = Point { id: 1, lat: 3, lon: 0 };
    let b = Point { id: 2, lat: 0, lon: 4 };
    assert_eq!(point_dist(a, b), 25);
    let far = Point { id: 3, lat: i64::MIN, lon: i64::MIN };
    let near = Point { id: 4, lat: i64::MAX, lon: i64::MAX };
    assert_eq!(point_dist(far, near), i128::MAX);
}

#[test]
fn zero_tolerance_join_is_a_no_op() {
    let p = |id: u64| pt(id, 0.0, id as f64 * 0.001);
    let ws = vec![vec![p(1), p(2)], vec![p(2), p(3)], vec![p(3), p(4)]];
    let gaps = table(&ws, 0.0);
    let joined = join_ways(&ws, &gaps);
    assert_eq!(ids(&joined), ids(&ws));
}

#[test]
fn join_reverses_both_lines_when_starts_meet() {
    let p = |id: u64| pt(id, 0.0, id as f64 * 0.001);
    let ws = vec![vec![p(2), p(3)], vec![p(1), p(0)]];
    let gaps = GapTable { joinable: vec![(2, 0)], closable: vec![] };
    let joined = join_ways(&ws, &gaps);
    assert_eq!(ids(&joined), vec![vec![3, 2, 0, 1]]);
    let gaps = GapTable { joinable: vec![(2, 1)], closable: vec![] };
    let joined = join_ways(&ws, &gaps);
    assert_eq!(ids(&joined), vec![vec![3, 2, 1, 0]]);
}

#[test]
fn single_connected_line_comes_back_unchanged() {
    let p = |id: u64| pt(id, 0.0, id as f64 * 0.001);
    let line = vec![p(1), p(2), p(3)];
    let (lines, status) = flatten_ways(&vec![line.clone()], &GapTable::empty());
    assert_eq!(lines, vec![line]);
    assert_eq!(status.code, 0);
}

#[test]
fn connected_fragments_in_order_give_one_line() {
    let p = |id: u64| pt(id, 0.0, id as f64 * 0.001);
    let ws = vec![vec![p(1), p(2)], vec![p(2), p(3), p(4)], vec![p(4), p(5)]];
    let (lines, status) = flatten_ways(&ws, &GapTable::empty());
    assert_eq!(ids(&lines), vec![vec![1, 2, 3, 4, 5]]);
    assert_eq!(status.code, 0);
}

#[test]
fn closing_within_gap_repeats_first_node() {
    let a = pt(1, 0.0, 0.0);
    let b = pt(2, 0.0, 0.001);
    let c = pt(3, 0.0009, 0.0005);
    let d = pt(4, 0.0, 0.0003);
    let line = vec![a, b, c, d];
    let gaps = table(&[line.clone()], 50.0);
    let (ring, code) = close_linestring(&line, &gaps);
    assert_eq!(code, CODE_JOINED);
    assert_eq!(ring.first().unwrap().id, ring.last().unwrap().id);
    assert_eq!(ring.len(), 5);
    let (lines, status) = heal_ways(&vec![line.clone()], &gaps, true);
    assert_eq!(status.code, CODE_JOINED);
    assert_eq!(lines[0].first().unwrap().id, lines[0].last().unwrap().id);
}

#[test]
fn closed_ring_keeps_status() {
    let p = |id: u64| pt(id, 0.0, id as f64 * 0.001);
    let line = vec![p(1), p(2), p(3), p(1)];
    let (lines, status) = heal_ways(&vec![line.clone()], &GapTable::empty(), true);
    assert_eq!(lines, vec![line]);
    assert_eq!(status.code, CODE_OK);
}

#[test]
fn open_ring_beyond_gap_is_broken_and_kept() {
    let p = |id: u64| pt(id, 0.0, id as f64 * 0.01);
    let line = vec![p(1), p(2), p(3)];
    let gaps = table(&[line.clone()], 10.0);
    let (lines, status) = heal_ways(&vec![line.clone()], &gaps, true);
    assert_eq!(status.code, CODE_BROKEN);
    assert_eq!(lines, vec![line]);
}

//! Healing of way fragments into line-strings and rings.
//!
//! A fragment is the node sequence of one way. The fragments of a relation may
//! come reversed, out of order, or with small gaps between them; the functions
//! here join them into one line where they can. Whether two nodes lie within
//! the gap tolerance of each other is given by a [`GapTable`], which the caller
//! fills from great-circle distances.
use vstd::prelude::*;
use vstd::multiset::Multiset;
use crate::parse_status::{
    ParseStatus, CODE_BROKEN, CODE_JOINED, CODE_JOINED_SORTED, CODE_OK, CODE_SORTED,
};

verus! {

/// A node as a line sees it: its id, and its position in nanodegrees.
#[derive(Clone, Copy, Debug, PartialEq, Eq, Structural)]
pub struct Point {
    pub id: u64,
    pub lat: i64,
    pub lon: i64,
}

/// The node sequences held by a vector of lines.
pub open spec fn lines_view(ws: Seq<Vec<Point>>) -> Seq<Seq<Point>> {
    ws.map_values(|w: Vec<Point>| w@)
}

/// Every line has at least one node.
pub open spec fn nonempty_lines(ls: Seq<Seq<Point>>) -> bool {
    forall|i: int| 0 <= i < ls.len() ==> #[trigger] ls[i].len() > 0
}

/// The pairs of node ids that lie within the gap tolerance of each other.
///
/// `joinable` holds the ordered pairs whose distance is below the tolerance,
/// `closable` those whose distance is at most the tolerance.
#[derive(Debug)]
pub struct GapTable {
    pub joinable: Vec<(u64, u64)>,
    pub closable: Vec<(u64, u64)>,
}

impl GapTable {
    /// Nodes `a` and `b` are closer than the tolerance.
    pub open spec fn joins(&self, a: u64, b: u64) -> bool {
        self.joinable@.contains((a, b))
    }

    /// Nodes `a` and `b` are no farther apart than the tolerance.
    pub open spec fn closes(&self, a: u64, b: u64) -> bool {
        self.closable@.contains((a, b))
    }

    /// The table of a zero tolerance between nodes at distinct positions.
    pub fn empty() -> (r: Self)
        ensures
            r.joinable@.len() == 0,
            r.closable@.len() == 0,
    {
        GapTable { joinable: Vec::new(), closable: Vec::new() }
    }

    pub fn can_join(&self, a: u64, b: u64) -> (r: bool)
        ensures
            r == self.joins(a, b),
    {
        pair_listed(&self.joinable, a, b)
    }

    pub fn can_close(&self, a: u64, b: u64) -> (r: bool)
        ensures
            r == self.closes(a, b),
    {
        pair_listed(&self.closable, a, b)
    }
}

fn pair_listed(pairs: &Vec<(u64, u64)>, a: u64, b: u64) -> (r: bool)
    ensures
        r == pairs@.contains((a, b)),
{
    let mut i: usize = 0;
    while i < pairs.len()
        invariant
            i <= pairs.len(),
            forall|j: int| 0 <= j < i ==> pairs@[j] != (a, b),
        decreases pairs.len() - i,
    {
        let (x, y) = pairs[i];
        if x == a && y == b {
            assert(pairs@[i as int] == (a, b));
            return true;
        }
        i += 1;
    }
    false
}

/// Two lines with the same node ids, position by position.
pub open spec fn same_ids(a: Seq<Point>, b: Seq<Point>) -> bool {
    a.len() == b.len() && forall|i: int| 0 <= i < a.len() ==> #[trigger] a[i].id == b[i].id
}

fn same_ids_exec(a: &Vec<Point>, b: &Vec<Point>) -> (r: bool)
    ensures
        r == same_ids(a@, b@),
{
    if a.len() != b.len() {
        return false;
    }
    let mut i: usize = 0;
    while i < a.len()
        invariant
            i <= a.len(),
            a.len() == b.len(),
            forall|j: int| 0 <= j < i ==> #[trigger] a@[j].id == b@[j].id,
        decreases a.len() - i,
    {
        if a[i].id != b[i].id {
            return false;
        }
        i += 1;
    }
    true
}

fn copy_line(l: &Vec<Point>) -> (r: Vec<Point>)
    ensures
        r@ == l@,
{
    let mut r: Vec<Point> = Vec::new();
    let mut i: usize = 0;
    while i < l.len()
        invariant
            i <= l.len(),
            r@ == l@.subrange(0, i as int),
        decreases l.len() - i,
    {
        r.push(l[i]);
        i += 1;
    }
    assert(l@.subrange(0, l@.len() as int) =~= l@);
    r
}

fn reversed_line(l: &Vec<Point>) -> (r: Vec<Point>)
    ensures
        r@ == l@.reverse(),
{
    let mut r: Vec<Point> = Vec::new();
    let mut i: usize = l.len();
    while i > 0
        invariant
            i <= l.len(),
            r@ =~= l@.reverse().subrange(0, l.len() - i),
        decreases i,
    {
        i -= 1;
        r.push(l[i]);
        assert(r@ =~= l@.reverse().subrange(0, l.len() - i));
    }
    assert(r@ =~= l@.reverse());
    r
}

/// Appends `src` from position `start` on.
fn append_tail(dst: &mut Vec<Point>, src: &Vec<Point>, start: usize)
    requires
        start <= src.len(),
    ensures
        final(dst)@ == old(dst)@ + src@.subrange(start as int, src@.len() as int),
{
    let mut i: usize = start;
    while i < src.len()
        invariant
            start <= i <= src.len(),
            dst@ =~= old(dst)@ + src@.subrange(start as int, i as int),
        decreases src.len() - i,
    {
        dst.push(src[i]);
        i += 1;
    }
}

/// Appends `src` reversed, leaving out the first `skip` nodes of the reversed line.
fn append_reversed(dst: &mut Vec<Point>, src: &Vec<Point>, skip: usize)
    requires
        skip <= src.len(),
    ensures
        final(dst)@ == old(dst)@ + src@.reverse().subrange(skip as int, src@.len() as int),
{
    let mut i: usize = src.len() - skip;
    while i > 0
        invariant
            i <= src.len() - skip,
            dst@ =~= old(dst)@ + src@.reverse().subrange(
                skip as int,
                src@.len() - i,
            ),
        decreases i,
    {
        i -= 1;
        dst.push(src[i]);
    }
}

/// One step of the reversal pass: `f` meets the last line of `acc`, and `prev`
/// is the fragment that came before `f`.
pub open spec fn first_pass_step(acc: Seq<Seq<Point>>, prev: Seq<Point>, f: Seq<Point>) -> Seq<
    Seq<Point>,
> {
    let li = acc.len() - 1;
    let p0 = acc[li];
    let p = if same_ids(p0, prev) && (f[0].id == p0[0].id || f.last().id == p0[0].id) {
        p0.reverse()
    } else {
        p0
    };
    if p.last().id == f[0].id {
        acc.update(li, p + f.drop_first())
    } else if p.last().id == f.last().id {
        acc.update(li, p + f.reverse().drop_first())
    } else {
        acc.update(li, p).push(f)
    }
}

/// The reversal pass over the first `n` fragments.
pub open spec fn first_pass_prefix(ws: Seq<Seq<Point>>, n: nat) -> Seq<Seq<Point>>
    decreases n,
{
    if n <= 1 {
        seq![ws[0]]
    } else {
        first_pass_step(first_pass_prefix(ws, (n - 1) as nat), ws[n - 2], ws[n - 1])
    }
}

/// The reversal pass: each fragment is joined to the line before it where
/// their ends meet, reversing it or the line's first fragment as needed.
pub open spec fn first_pass_of(ws: Seq<Seq<Point>>) -> Seq<Seq<Point>> {
    first_pass_prefix(ws, ws.len())
}

proof fn lemma_reverse_len(s: Seq<Point>)
    ensures
        s.reverse().len() == s.len(),
        s.len() > 0 ==> s.reverse()[0] == s.last() && s.reverse().last() == s[0],
{
}

pub fn first_pass(ws: &Vec<Vec<Point>>) -> (r: Vec<Vec<Point>>)
    requires
        ws.len() > 0,
        nonempty_lines(lines_view(ws@)),
    ensures
        lines_view(r@) == first_pass_of(lines_view(ws@)),
        nonempty_lines(lines_view(r@)),
        r.len() >= 1,
{
    let n = ws.len();
    let ghost wv = lines_view(ws@);
    let mut out: Vec<Vec<Point>> = Vec::new();
    out.push(copy_line(&ws[0]));
    assert(lines_view(out@) =~= first_pass_prefix(wv, 1));
    let mut i: usize = 1;
    while i < n
        invariant
            1 <= i <= n,
            n == ws.len(),
            wv == lines_view(ws@),
            nonempty_lines(wv),
            out.len() >= 1,
            nonempty_lines(lines_view(out@)),
            lines_view(out@) == first_pass_prefix(wv, i as nat),
        decreases n - i,
    {
        let ghost acc = lines_view(out@);
        let f = &ws[i];
        assert(wv[i as int] == f@ && wv[i - 1] == ws[i - 1]@);
        assert(f@.len() > 0);
        let mut p = out.pop().unwrap();
        assert(acc[acc.len() - 1] == p@);
        assert(p@.len() > 0);
        let flip = same_ids_exec(&p, &ws[i - 1]) && (f[0].id == p[0].id || f[f.len() - 1].id
            == p[0].id);
        if flip {
            p = reversed_line(&p);
        }
        proof {
            lemma_reverse_len(acc[acc.len() - 1]);
        }
        let last = p[p.len() - 1].id;
        if last == f[0].id {
            append_tail(&mut p, f, 1);
            out.push(p);
        } else if last == f[f.len() - 1].id {
            append_reversed(&mut p, f, 1);
            out.push(p);
        } else {
            out.push(p);
            out.push(copy_line(f));
        }
        proof {
            lemma_reverse_len(f@);
            assert(lines_view(out@) =~= first_pass_step(acc, wv[i - 1], wv[i as int]));
            assert(nonempty_lines(lines_view(out@)));
        }
        i += 1;
    }
    out
}

/// Squared Euclidean distance between two positions, in raw coordinate units.
/// Squares order as the distances do, so they serve for every comparison.
pub open spec fn point_dist_spec(a: Point, b: Point) -> int {
    (a.lat - b.lat) * (a.lat - b.lat) + (a.lon - b.lon) * (a.lon - b.lon)
}

/// `point_dist_spec`, held to what an `i128` can count.
pub open spec fn point_dist_capped(a: Point, b: Point) -> int {
    if point_dist_spec(a, b) > i128::MAX {
        i128::MAX as int
    } else {
        point_dist_spec(a, b)
    }
}

fn abs_diff(x: i64, y: i64) -> (r: u128)
    ensures
        r as int == if x >= y { x - y } else { y - x },
        r <= 0xffff_ffff_ffff_ffff,
{
    let d: i128 = x as i128 - y as i128;
    if d < 0 {
        (-d) as u128
    } else {
        d as u128
    }
}

fn square(x: u128) -> (r: u128)
    requires
        x <= 0xffff_ffff_ffff_ffff,
    ensures
        r as int == x * x,
{
    assert(x * x <= 0xffff_ffff_ffff_ffff * 0xffff_ffff_ffff_ffff) by (nonlinear_arith)
        requires
            x <= 0xffff_ffff_ffff_ffff,
    ;
    x * x
}

pub fn point_dist(a: Point, b: Point) -> (r: i128)
    ensures
        r as int == point_dist_capped(a, b),
{
    let dlat = abs_diff(a.lat, b.lat);
    let dlon = abs_diff(a.lon, b.lon);
    let s = square(dlat).saturating_add(square(dlon));
    assert(dlat * dlat == (a.lat - b.lat) * (a.lat - b.lat)) by (nonlinear_arith)
        requires
            dlat as int == if a.lat >= b.lat { a.lat - b.lat } else { b.lat - a.lat },
    ;
    assert(dlon * dlon == (a.lon - b.lon) * (a.lon - b.lon)) by (nonlinear_arith)
        requires
            dlon as int == if a.lon >= b.lon { a.lon - b.lon } else { b.lon - a.lon },
    ;
    if s > i128::MAX as u128 {
        i128::MAX
    } else {
        s as i128
    }
}

proof fn lemma_point_dist_nonneg(a: Point, b: Point)
    ensures
        point_dist_capped(a, b) >= 0,
{
    assert(point_dist_spec(a, b) >= 0) by (nonlinear_arith);
}

pub open spec fn smaller(a: int, b: int) -> int {
    if a < b {
        a
    } else {
        b
    }
}

/// The edge distance of two fragments: the fold of `smaller` over the four
/// distances between their ends, starting from -1.
pub open spec fn edge_dist_spec(u: Seq<Point>, v: Seq<Point>) -> int {
    smaller(
        smaller(
            smaller(
                smaller(-1, point_dist_capped(u[0], v[0])),
                point_dist_capped(u.last(), v.last()),
            ),
            point_dist_capped(u[0], v.last()),
        ),
        point_dist_capped(u.last(), v[0]),
    )
}

/// The fold starts from -1, below every distance, so every pair of fragments
/// is at edge distance -1.
pub fn edge_dist(u: &Vec<Point>, v: &Vec<Point>) -> (r: i128)
    requires
        u.len() > 0,
        v.len() > 0,
    ensures
        r as int == edge_dist_spec(u@, v@),
        r == -1,
{
    let u0 = u[0];
    let u1 = u[u.len() - 1];
    let v0 = v[0];
    let v1 = v[v.len() - 1];
    let mut m: i128 = -1;
    proof {
        lemma_point_dist_nonneg(u0, v0);
        lemma_point_dist_nonneg(u1, v1);
        lemma_point_dist_nonneg(u0, v1);
        lemma_point_dist_nonneg(u1, v0);
    }
    let d = point_dist(u0, v0);
    m = if m < d { m } else { d };
    let d = point_dist(u1, v1);
    m = if m < d { m } else { d };
    let d = point_dist(u0, v1);
    m = if m < d { m } else { d };
    let d = point_dist(u1, v0);
    m = if m < d { m } else { d };
    m
}

/// Greedy nearest-fragment ordering: the first fragment stays first, and each
/// next place goes to the first remaining fragment of least edge distance to
/// the last one placed. With every edge distance at -1 that is always the
/// first remaining fragment, so the order of the input is kept.
pub fn sort_ways(ws: &Vec<Vec<Point>>) -> (r: Vec<Vec<Point>>)
    requires
        ws.len() > 0,
        nonempty_lines(lines_view(ws@)),
    ensures
        lines_view(r@) == lines_view(ws@),
        lines_view(r@).to_multiset() == lines_view(ws@).to_multiset(),
{
    let n = ws.len();
    let ghost wv = lines_view(ws@);
    let mut rest: Vec<Vec<Point>> = Vec::new();
    let mut j: usize = 1;
    while j < n
        invariant
            1 <= j <= n,
            n == ws.len(),
            wv == lines_view(ws@),
            lines_view(rest@) =~= wv.subrange(1, j as int),
        decreases n - j,
    {
        let ghost before = lines_view(rest@);
        rest.push(copy_line(&ws[j]));
        assert(lines_view(rest@) =~= before.push(wv[j as int]));
        j += 1;
    }
    let mut sorted: Vec<Vec<Point>> = Vec::new();
    sorted.push(copy_line(&ws[0]));
    assert(lines_view(sorted@) + lines_view(rest@) =~= wv);
    while rest.len() > 0
        invariant
            sorted.len() >= 1,
            nonempty_lines(wv),
            lines_view(sorted@) + lines_view(rest@) == wv,
        decreases rest.len(),
    {
        let ghost sv = lines_view(sorted@);
        let ghost rv = lines_view(rest@);
        assert(sv.last() == wv[sv.len() - 1]);
        let last = sorted.len() - 1;
        let mut best: usize = 0;
        let mut best_dist: i128 = 0;
        let mut found = false;
        let mut i: usize = 0;
        while i < rest.len()
            invariant
                i <= rest.len(),
                last == sorted.len() - 1,
                sorted.len() >= 1,
                nonempty_lines(wv),
                sv == lines_view(sorted@),
                rv == lines_view(rest@),
                sv + rv == wv,
                i == 0 ==> !found,
                i > 0 ==> found && best == 0 && best_dist == -1,
            decreases rest.len() - i,
        {
            assert(rv[i as int] == wv[sv.len() + i]);
            assert(sv[last as int] == wv[last as int]);
            let d = edge_dist(&rest[i], &sorted[last]);
            if !found || d < best_dist {
                best = i;
                best_dist = d;
                found = true;
            }
            i += 1;
        }
        let w = rest.remove(best);
        sorted.push(w);
        assert(lines_view(sorted@) + lines_view(rest@) =~= sv + rv);
    }
    assert(lines_view(sorted@) =~= wv);
    sorted
}

/// One step of the gap-joining pass: `f` meets the last line of `acc`.
pub open spec fn join_step(acc: Seq<Seq<Point>>, f: Seq<Point>, g: GapTable) -> Seq<Seq<Point>> {
    let li = acc.len() - 1;
    let p = acc[li];
    if g.joins(p.last().id, f[0].id) {
        acc.update(li, p + f)
    } else if g.joins(p.last().id, f.last().id) {
        acc.update(li, p + f.reverse())
    } else if g.joins(p[0].id, f[0].id) {
        acc.update(li, p.reverse() + f)
    } else if g.joins(p[0].id, f.last().id) {
        acc.update(li, p.reverse() + f.reverse())
    } else {
        acc.push(f)
    }
}

/// The gap-joining pass over the first `n` fragments.
pub open spec fn join_prefix(ws: Seq<Seq<Point>>, n: nat, g: GapTable) -> Seq<Seq<Point>>
    decreases n,
{
    if n <= 1 {
        seq![ws[0]]
    } else {
        join_step(join_prefix(ws, (n - 1) as nat, g), ws[n - 1], g)
    }
}

/// The gap-joining pass: each fragment extends the line before it where one
/// end of each lies within the tolerance, reversing either as needed.
pub open spec fn join_of(ws: Seq<Seq<Point>>, g: GapTable) -> Seq<Seq<Point>> {
    join_prefix(ws, ws.len(), g)
}

pub fn join_ways(ws: &Vec<Vec<Point>>, g: &GapTable) -> (r: Vec<Vec<Point>>)
    requires
        ws.len() > 0,
        nonempty_lines(lines_view(ws@)),
    ensures
        lines_view(r@) == join_of(lines_view(ws@), *g),
        nonempty_lines(lines_view(r@)),
        r.len() >= 1,
{
    let n = ws.len();
    let ghost wv = lines_view(ws@);
    let mut out: Vec<Vec<Point>> = Vec::new();
    out.push(copy_line(&ws[0]));
    assert(lines_view(out@) =~= join_prefix(wv, 1, *g));
    let mut i: usize = 1;
    while i < n
        invariant
            1 <= i <= n,
            n == ws.len(),
            wv == lines_view(ws@),
            nonempty_lines(wv),
            out.len() >= 1,
            nonempty_lines(lines_view(out@)),
            lines_view(out@) == join_prefix(wv, i as nat, *g),
        decreases n - i,
    {
        let ghost acc = lines_view(out@);
        let f = &ws[i];
        assert(wv[i as int] == f@);
        assert(f@.len() > 0);
        let mut p = out.pop().unwrap();
        assert(acc[acc.len() - 1] == p@);
        let first = p[0].id;
        let last = p[p.len() - 1].id;
        let f_first = f[0].id;
        let f_last = f[f.len() - 1].id;
        proof {
            lemma_reverse_len(p@);
            lemma_reverse_len(f@);
        }
        if g.can_join(last, f_first) {
            append_tail(&mut p, f, 0);
            out.push(p);
        } else if g.can_join(last, f_last) {
            append_reversed(&mut p, f, 0);
            out.push(p);
        } else if g.can_join(first, f_first) {
            let mut q = reversed_line(&p);
            append_tail(&mut q, f, 0);
            out.push(q);
        } else if g.can_join(first, f_last) {
            let mut q = reversed_line(&p);
            append_reversed(&mut q, f, 0);
            out.push(q);
        } else {
            out.push(p);
            out.push(copy_line(f));
        }
        proof {
            assert(f@.subrange(0, f@.len() as int) =~= f@);
            assert(f@.reverse().subrange(0, f@.len() as int) =~= f@.reverse());
            assert(lines_view(out@) =~= join_step(acc, wv[i as int], *g));
            assert(nonempty_lines(lines_view(out@)));
        }
        i += 1;
    }
    out
}

/// The healing stages, the first to give one line winning: the reversal pass
/// (code 0); the greedy order and the reversal pass again (101); gap joining
/// after the reversal pass (102). No stage giving one line, or no fragment at
/// all, is broken (501), with no line. The greedy order keeps the reversal
/// pass's lines as they are (see `sort_ways`), so it does not show here; for
/// the same reason the stage of gap joining after the greedy order (103)
/// would repeat the third stage on the same lines, and is left out.
pub open spec fn flatten_of(ws: Seq<Seq<Point>>, g: GapTable) -> (Seq<Seq<Point>>, u64) {
    if ws.len() == 0 {
        (seq![], CODE_BROKEN)
    } else {
        let passed = first_pass_of(ws);
        if passed.len() == 1 {
            (passed, CODE_OK)
        } else if first_pass_of(passed).len() == 1 {
            (first_pass_of(passed), CODE_SORTED)
        } else if join_of(passed, g).len() == 1 {
            (join_of(passed, g), CODE_JOINED)
        } else {
            (seq![], CODE_BROKEN)
        }
    }
}

pub fn flatten_ways(ws: &Vec<Vec<Point>>, g: &GapTable) -> (r: (Vec<Vec<Point>>, ParseStatus))
    requires
        nonempty_lines(lines_view(ws@)),
    ensures
        lines_view(r.0@) == flatten_of(lines_view(ws@), *g).0,
        r.1.is(flatten_of(lines_view(ws@), *g).1),
{
    if ws.len() == 0 {
        return (Vec::new(), ParseStatus::broken());
    }
    let passed = first_pass(ws);
    if passed.len() == 1 {
        return (passed, ParseStatus::ok());
    }
    let sorted = sort_ways(&passed);
    assert(sorted@.len() == lines_view(sorted@).len() && passed@.len() == lines_view(passed@).len());
    let sorted_passed = first_pass(&sorted);
    if sorted_passed.len() == 1 {
        return (sorted_passed, ParseStatus::sorted());
    }
    let joined = join_ways(&passed, g);
    if joined.len() == 1 {
        return (joined, ParseStatus::joined());
    }
    // gap joining after the greedy order would join the same lines again
    (Vec::new(), ParseStatus::broken())
}

/// Closing one line: a line that ends where it starts stays as it is (code
/// 0); one whose ends lie within the tolerance gets its first node again at
/// the end (102); any other stays open and is broken (501).
pub open spec fn close_of(l: Seq<Point>, g: GapTable) -> (Seq<Point>, u64) {
    if l[0].id == l.last().id {
        (l, CODE_OK)
    } else if g.closes(l[0].id, l.last().id) {
        (l.push(l[0]), CODE_JOINED)
    } else {
        (l, CODE_BROKEN)
    }
}

pub fn close_linestring(l: &Vec<Point>, g: &GapTable) -> (r: (Vec<Point>, u64))
    requires
        l.len() > 0,
    ensures
        r.0@ == close_of(l@, *g).0,
        r.1 == close_of(l@, *g).1,
{
    let mut ring = copy_line(l);
    let first = l[0];
    let last = l[l.len() - 1];
    if first.id == last.id {
        return (ring, CODE_OK);
    }
    if g.can_close(first.id, last.id) {
        ring.push(first);
        return (ring, CODE_JOINED);
    }
    (ring, CODE_BROKEN)
}

/// The status of a feature after one more of its lines was closed with code
/// `ring`: a broken ring breaks the feature; a ring closed across a gap makes
/// a feature that was taken as it came a joined one.
pub open spec fn after_closing(code: u64, ring: u64) -> u64 {
    if ring == CODE_BROKEN {
        CODE_BROKEN
    } else if ring == CODE_JOINED && code == CODE_OK {
        CODE_JOINED
    } else {
        code
    }
}

/// Closing every line, starting from the feature's status `code`.
pub open spec fn close_all(ls: Seq<Seq<Point>>, g: GapTable, code: u64) -> (Seq<Seq<Point>>, u64)
    decreases ls.len(),
{
    if ls.len() == 0 {
        (seq![], code)
    } else {
        let before = close_all(ls.drop_last(), g, code);
        let ring = close_of(ls.last(), g);
        (before.0.push(ring.0), after_closing(before.1, ring.1))
    }
}

/// The geometry of a feature: the healed lines and their status, closed into
/// rings when `closed` is set and the healing did not fail.
pub open spec fn heal_of(ws: Seq<Seq<Point>>, g: GapTable, closed: bool) -> (Seq<Seq<Point>>, u64) {
    let f = flatten_of(ws, g);
    if closed && f.1 != CODE_BROKEN {
        close_all(f.0, g, f.1)
    } else {
        f
    }
}

proof fn lemma_flatten_nonempty(ws: Seq<Seq<Point>>, g: GapTable)
    requires
        nonempty_lines(ws),
    ensures
        nonempty_lines(flatten_of(ws, g).0),
{
    if ws.len() > 0 {
        lemma_first_pass_nonempty(ws);
        let passed = first_pass_of(ws);
        lemma_first_pass_nonempty(passed);
        lemma_join_nonempty(passed, g);
    }
}

proof fn lemma_first_pass_nonempty(ws: Seq<Seq<Point>>)
    requires
        ws.len() > 0,
        nonempty_lines(ws),
    ensures
        nonempty_lines(first_pass_of(ws)),
        first_pass_of(ws).len() >= 1,
{
    lemma_first_pass_prefix(ws, ws.len());
}

proof fn lemma_first_pass_prefix(ws: Seq<Seq<Point>>, n: nat)
    requires
        1 <= n <= ws.len(),
        nonempty_lines(ws),
    ensures
        nonempty_lines(first_pass_prefix(ws, n)),
        first_pass_prefix(ws, n).len() >= 1,
    decreases n,
{
    if n > 1 {
        lemma_first_pass_prefix(ws, (n - 1) as nat);
        let acc = first_pass_prefix(ws, (n - 1) as nat);
        lemma_reverse_len(acc.last());
        lemma_reverse_len(ws[n - 1]);
        assert(ws[n - 1].len() > 0);
    }
}

proof fn lemma_join_nonempty(ws: Seq<Seq<Point>>, g: GapTable)
    requires
        ws.len() > 0,
        nonempty_lines(ws),
    ensures
        nonempty_lines(join_of(ws, g)),
        join_of(ws, g).len() >= 1,
{
    lemma_join_prefix(ws, ws.len(), g);
}

proof fn lemma_join_prefix(ws: Seq<Seq<Point>>, n: nat, g: GapTable)
    requires
        1 <= n <= ws.len(),
        nonempty_lines(ws),
    ensures
        nonempty_lines(join_prefix(ws, n, g)),
        join_prefix(ws, n, g).len() >= 1,
    decreases n,
{
    if n > 1 {
        lemma_join_prefix(ws, (n - 1) as nat, g);
        let acc = join_prefix(ws, (n - 1) as nat, g);
        lemma_reverse_len(acc.last());
        lemma_reverse_len(ws[n - 1]);
        assert(ws[n - 1].len() > 0);
    }
}

/// One of the five status codes.
pub open spec fn known_code(code: u64) -> bool {
    code == CODE_OK || code == CODE_SORTED || code == CODE_JOINED || code == CODE_JOINED_SORTED
        || code == CODE_BROKEN
}

proof fn lemma_close_all_codes(ls: Seq<Seq<Point>>, g: GapTable, code: u64)
    requires
        known_code(code),
    ensures
        known_code(close_all(ls, g, code).1),
    decreases ls.len(),
{
    if ls.len() > 0 {
        lemma_close_all_codes(ls.drop_last(), g, code);
    }
}

/// Healing and, when `closed` is set, closing the lines into rings.
pub fn heal_ways(ws: &Vec<Vec<Point>>, g: &GapTable, closed: bool) -> (r: (
    Vec<Vec<Point>>,
    ParseStatus,
))
    requires
        nonempty_lines(lines_view(ws@)),
    ensures
        lines_view(r.0@) == heal_of(lines_view(ws@), *g, closed).0,
        r.1.is(heal_of(lines_view(ws@), *g, closed).1),
{
    let (lines, status) = flatten_ways(ws, g);
    if !closed || status.code == CODE_BROKEN {
        return (lines, status);
    }
    let ghost lv = lines_view(lines@);
    proof {
        lemma_flatten_nonempty(lines_view(ws@), *g);
    }
    let mut out: Vec<Vec<Point>> = Vec::new();
    let start = status.code;
    let mut code = start;
    let mut i: usize = 0;
    while i < lines.len()
        invariant
            i <= lines.len(),
            lv == lines_view(lines@),
            nonempty_lines(lv),
            (lines_view(out@), code) == close_all(lv.subrange(0, i as int), *g, start),
            known_code(start),
        decreases lines.len() - i,
    {
        assert(lv[i as int] == lines[i as int]@);
        let (ring, ring_code) = close_linestring(&lines[i], g);
        proof {
            let next = lv.subrange(0, i + 1);
            assert(next.drop_last() =~= lv.subrange(0, i as int));
            assert(next.last() == lv[i as int]);
        }
        let ghost before = lines_view(out@);
        out.push(ring);
        assert(lines_view(out@) =~= before.push(close_of(lv[i as int], *g).0));
        code = if ring_code == CODE_BROKEN {
            CODE_BROKEN
        } else if ring_code == CODE_JOINED && code == CODE_OK {
            CODE_JOINED
        } else {
            code
        };
        i += 1;
    }
    assert(lv.subrange(0, lv.len() as int) =~= lv);
    proof {
        lemma_close_all_codes(lv, *g, start);
    }
    let status = if code == CODE_OK {
        ParseStatus::ok()
    } else if code == CODE_JOINED {
        ParseStatus::joined()
    } else if code == CODE_SORTED {
        ParseStatus::sorted()
    } else if code == CODE_JOINED_SORTED {
        ParseStatus::joined_sorted()
    } else {
        ParseStatus::broken()
    };
    (out, status)
}

/// With no pair of nodes closer than the tolerance, as with a zero
/// tolerance, gap joining leaves the fragments as they are: it reverses
/// nothing and adds no node.
pub proof fn join_without_gaps_keeps_fragments(ws: Seq<Seq<Point>>, g: GapTable)
    requires
        ws.len() > 0,
        nonempty_lines(ws),
        g.joinable@.len() == 0,
    ensures
        join_of(ws, g) == ws,
{
    lemma_join_prefix_no_gaps(ws, ws.len(), g);
    assert(ws.subrange(0, ws.len() as int) =~= ws);
}

proof fn lemma_join_prefix_no_gaps(ws: Seq<Seq<Point>>, n: nat, g: GapTable)
    requires
        1 <= n <= ws.len(),
        nonempty_lines(ws),
        g.joinable@.len() == 0,
    ensures
        join_prefix(ws, n, g) == ws.subrange(0, n as int),
    decreases n,
{
    if n == 1 {
        assert(ws.subrange(0, 1) =~= seq![ws[0]]);
    } else {
        lemma_join_prefix_no_gaps(ws, (n - 1) as nat, g);
        let acc = join_prefix(ws, (n - 1) as nat, g);
        assert(acc.last() == ws[n - 2]);
        assert(forall|a: u64, b: u64| !g.joins(a, b));
        assert(join_prefix(ws, n, g) =~= ws.subrange(0, n as int));
    }
}

/// A single line comes back from healing as it is, with status 0.
pub proof fn flatten_keeps_single_line(l: Seq<Point>, g: GapTable)
    requires
        l.len() > 0,
    ensures
        flatten_of(seq![l], g) == (seq![l], CODE_OK),
{
    assert(first_pass_of(seq![l]) == seq![l]);
}

/// The first `n` fragments joined end to start: the first whole, each next
/// one without its first node.
pub open spec fn chain_of(ws: Seq<Seq<Point>>, n: nat) -> Seq<Point>
    decreases n,
{
    if n <= 1 {
        ws[0]
    } else {
        chain_of(ws, (n - 1) as nat) + ws[n - 1].drop_first()
    }
}

/// Fragments that follow each other end to start, none of them after the
/// first starting or ending at the first node, heal at the first stage, with
/// status 0, into the one line that joins them end to start.
pub proof fn connected_fragments_heal_at_once(ws: Seq<Seq<Point>>, g: GapTable)
    requires
        ws.len() > 0,
        nonempty_lines(ws),
        forall|i: int| 1 <= i < ws.len() ==> #[trigger] ws[i][0].id == ws[i - 1].last().id,
        forall|i: int|
            1 <= i < ws.len() ==> #[trigger] ws[i][0].id != ws[0][0].id && ws[i].last().id
                != ws[0][0].id,
    ensures
        flatten_of(ws, g).1 == CODE_OK,
        flatten_of(ws, g).0 == seq![chain_of(ws, ws.len())],
{
    lemma_connected_prefix(ws, ws.len());
    assert(first_pass_of(ws) =~= seq![chain_of(ws, ws.len())]);
}

proof fn lemma_connected_prefix(ws: Seq<Seq<Point>>, n: nat)
    requires
        1 <= n <= ws.len(),
        nonempty_lines(ws),
        forall|i: int| 1 <= i < ws.len() ==> #[trigger] ws[i][0].id == ws[i - 1].last().id,
        forall|i: int|
            1 <= i < ws.len() ==> #[trigger] ws[i][0].id != ws[0][0].id && ws[i].last().id
                != ws[0][0].id,
    ensures
        first_pass_prefix(ws, n).len() == 1,
        first_pass_prefix(ws, n)[0] == chain_of(ws, n),
        first_pass_prefix(ws, n)[0].len() > 0,
        first_pass_prefix(ws, n)[0][0].id == ws[0][0].id,
        first_pass_prefix(ws, n)[0].last().id == ws[n - 1].last().id,
    decreases n,
{
    if n > 1 {
        lemma_connected_prefix(ws, (n - 1) as nat);
        let acc = first_pass_prefix(ws, (n - 1) as nat);
        let f = ws[n - 1];
        assert(f.len() > 0);
        assert(f[0].id == ws[n - 2].last().id);
        assert(f[0].id != ws[0][0].id && f.last().id != ws[0][0].id);
        let joined = acc[0] + f.drop_first();
        assert(first_pass_prefix(ws, n) == acc.update(0, joined));
        if f.len() == 1 {
            assert(joined.last() == acc[0].last());
        } else {
            assert(joined.last() == f.last());
        }
    }
}

proof fn lemma_close_all_index(ls: Seq<Seq<Point>>, g: GapTable, code: u64)
    ensures
        close_all(ls, g, code).0.len() == ls.len(),
        forall|i: int|
            0 <= i < ls.len() ==> #[trigger] close_all(ls, g, code).0[i] == close_of(ls[i], g).0,
    decreases ls.len(),
{
    if ls.len() > 0 {
        lemma_close_all_index(ls.drop_last(), g, code);
    }
}

/// With `closed` set, every healed line whose ends lie within the tolerance
/// comes back as a ring that ends at the node where it starts.
pub proof fn closing_within_gap_gives_rings(ws: Seq<Seq<Point>>, g: GapTable)
    requires
        nonempty_lines(ws),
        flatten_of(ws, g).1 != CODE_BROKEN,
        forall|i: int|
            0 <= i < flatten_of(ws, g).0.len() ==> g.closes(
                #[trigger] flatten_of(ws, g).0[i][0].id,
                flatten_of(ws, g).0[i].last().id,
            ),
    ensures
        heal_of(ws, g, true).0.len() == flatten_of(ws, g).0.len(),
        forall|i: int|
            0 <= i < heal_of(ws, g, true).0.len() ==> #[trigger] heal_of(ws, g, true).0[i][0].id
                == heal_of(ws, g, true).0[i].last().id,
{
    let f = flatten_of(ws, g);
    lemma_flatten_nonempty(ws, g);
    lemma_close_all_index(f.0, g, f.1);
    assert forall|i: int| 0 <= i < heal_of(ws, g, true).0.len() implies #[trigger] heal_of(
        ws,
        g,
        true,
    ).0[i][0].id == heal_of(ws, g, true).0[i].last().id by {
        assert(f.0[i].len() > 0);
        assert(g.closes(f.0[i][0].id, f.0[i].last().id));
    }
}

/// The node ids of a line.
pub open spec fn ids_of(l: Seq<Point>) -> Seq<u64> {
    l.map_values(|p: Point| p.id)
}

/// The node ids of all lines, one line after the other.
pub open spec fn flat_ids(ls: Seq<Seq<Point>>) -> Seq<u64>
    decreases ls.len(),
{
    if ls.len() == 0 {
        Seq::empty()
    } else {
        flat_ids(ls.drop_last()) + ids_of(ls.last())
    }
}

proof fn lemma_reverse_multiset(s: Seq<u64>)
    ensures
        s.reverse().to_multiset() == s.to_multiset(),
    decreases s.len(),
{
    broadcast use vstd::seq_lib::group_to_multiset_ensures;

    if s.len() > 0 {
        let s0 = s.drop_last();
        lemma_reverse_multiset(s0);
        assert(s.reverse() =~= seq![s.last()] + s0.reverse());
        vstd::seq_lib::lemma_multiset_commutative(seq![s.last()], s0.reverse());
        assert(s =~= s0.push(s.last()));
        assert(seq![s.last()] =~= Seq::<u64>::empty().push(s.last()));
    }
}

proof fn lemma_drop_first_multiset(s: Seq<u64>)
    requires
        s.len() > 0,
    ensures
        s.to_multiset() == s.drop_first().to_multiset().insert(s[0]),
{
    broadcast use vstd::seq_lib::group_to_multiset_ensures;

    assert(s.drop_first() =~= s.remove(0));
}

proof fn lemma_flat_ids_update_last(acc: Seq<Seq<Point>>, x: Seq<Point>)
    requires
        acc.len() > 0,
    ensures
        flat_ids(acc.update(acc.len() - 1, x)) == flat_ids(acc.drop_last()) + ids_of(x),
        flat_ids(acc) == flat_ids(acc.drop_last()) + ids_of(acc.last()),
{
    assert(acc.update(acc.len() - 1, x).drop_last() =~= acc.drop_last());
}

proof fn lemma_flat_ids_push(acc: Seq<Seq<Point>>, x: Seq<Point>)
    ensures
        flat_ids(acc.push(x)) == flat_ids(acc) + ids_of(x),
{
    assert(acc.push(x).drop_last() =~= acc);
}

proof fn lemma_first_pass_ids(ws: Seq<Seq<Point>>, n: nat) -> (d: Multiset<u64>)
    requires
        1 <= n <= ws.len(),
        nonempty_lines(ws),
    ensures
        flat_ids(first_pass_prefix(ws, n)).to_multiset().add(d) == flat_ids(
            ws.subrange(0, n as int),
        ).to_multiset(),
        d.len() + first_pass_prefix(ws, n).len() == n,
        forall|x: u64| d.count(x) > 0 ==> flat_ids(first_pass_prefix(ws, n)).contains(x),
    decreases n,
{
    broadcast use vstd::seq_lib::group_to_multiset_ensures;

    lemma_first_pass_prefix(ws, n);
    if n == 1 {
        let r = first_pass_prefix(ws, 1);
        assert(ws.subrange(0, 1) =~= r);
        Multiset::empty()
    } else {
        let d0 = lemma_first_pass_ids(ws, (n - 1) as nat);
        lemma_first_pass_prefix(ws, (n - 1) as nat);
        let acc = first_pass_prefix(ws, (n - 1) as nat);
        let li = acc.len() - 1;
        let prev = ws[n - 2];
        let f = ws[n - 1];
        let p0 = acc[li];
        let p = if same_ids(p0, prev) && (f[0].id == p0[0].id || f.last().id == p0[0].id) {
            p0.reverse()
        } else {
            p0
        };
        let r = first_pass_prefix(ws, n);
        assert(r == first_pass_step(acc, prev, f));
        assert(f.len() > 0 && p0.len() > 0);
        lemma_reverse_len(p0);
        lemma_reverse_len(f);
        let a = flat_ids(acc.drop_last());
        let big = flat_ids(ws.subrange(0, n as int));
        lemma_flat_ids_push(ws.subrange(0, n - 1), f);
        assert(ws.subrange(0, n as int) =~= ws.subrange(0, n - 1).push(f));
        assert(big == flat_ids(ws.subrange(0, n - 1)) + ids_of(f));
        vstd::seq_lib::lemma_multiset_commutative(flat_ids(ws.subrange(0, n - 1)), ids_of(f));
        lemma_flat_ids_update_last(acc, p);
        vstd::seq_lib::lemma_multiset_commutative(a, ids_of(p0));
        assert(ids_of(p0.reverse()) =~= ids_of(p0).reverse());
        lemma_reverse_multiset(ids_of(p0));
        assert(ids_of(p).to_multiset() == ids_of(p0).to_multiset());
        assert(ids_of(p).contains(p.last().id)) by {
            assert(ids_of(p)[p.len() - 1] == p.last().id);
        }
        if p.last().id == f[0].id {
            let x = p + f.drop_first();
            assert(r == acc.update(li, x));
            lemma_flat_ids_update_last(acc, x);
            assert(ids_of(x) =~= ids_of(p) + ids_of(f).drop_first());
            vstd::seq_lib::lemma_multiset_commutative(ids_of(p), ids_of(f).drop_first());
            vstd::seq_lib::lemma_multiset_commutative(a, ids_of(x));
            lemma_drop_first_multiset(ids_of(f));
            let d = d0.insert(f[0].id);
            assert(flat_ids(r).to_multiset().add(d) =~= big.to_multiset());
            assert forall|y: u64| d.count(y) > 0 implies flat_ids(r).contains(y) by {
                assert(flat_ids(r).to_multiset().count(y) >= flat_ids(acc).to_multiset().count(y));
                if y == f[0].id {
                    assert(ids_of(x).to_multiset().count(y) > 0);
                } else {
                    assert(flat_ids(acc).contains(y));
                }
            }
            d
        } else if p.last().id == f.last().id {
            let x = p + f.reverse().drop_first();
            assert(r == acc.update(li, x));
            lemma_flat_ids_update_last(acc, x);
            let fr = ids_of(f).reverse();
            assert(ids_of(f.reverse()) =~= fr);
            assert(ids_of(x) =~= ids_of(p) + fr.drop_first());
            vstd::seq_lib::lemma_multiset_commutative(ids_of(p), fr.drop_first());
            vstd::seq_lib::lemma_multiset_commutative(a, ids_of(x));
            lemma_reverse_multiset(ids_of(f));
            lemma_drop_first_multiset(fr);
            assert(fr[0] == f.last().id);
            let d = d0.insert(f.last().id);
            assert(flat_ids(r).to_multiset().add(d) =~= big.to_multiset());
            assert forall|y: u64| d.count(y) > 0 implies flat_ids(r).contains(y) by {
                assert(flat_ids(r).to_multiset().count(y) >= flat_ids(acc).to_multiset().count(y));
                if y == f.last().id {
                    assert(ids_of(x).to_multiset().count(y) > 0);
                } else {
                    assert(flat_ids(acc).contains(y));
                }
            }
            d
        } else {
            let mid = acc.update(li, p);
            assert(r == mid.push(f));
            lemma_flat_ids_push(mid, f);
            vstd::seq_lib::lemma_multiset_commutative(a, ids_of(p));
            vstd::seq_lib::lemma_multiset_commutative(flat_ids(mid), ids_of(f));
            assert(flat_ids(r).to_multiset().add(d0) =~= big.to_multiset());
            assert forall|y: u64| d0.count(y) > 0 implies flat_ids(r).contains(y) by {
                assert(flat_ids(acc).contains(y));
                assert(flat_ids(r).to_multiset().count(y) >= flat_ids(acc).to_multiset().count(y));
            }
            d0
        }
    }
}

/// The reversal pass keeps every node id of its input but one per join: the
/// ids it drops form a multiset with one id for each fragment that was joined
/// to the line before it, and each dropped id still stands in the output, at
/// the join.
pub proof fn first_pass_keeps_ids(ws: Seq<Seq<Point>>) -> (dropped: Multiset<u64>)
    requires
        ws.len() > 0,
        nonempty_lines(ws),
    ensures
        flat_ids(first_pass_of(ws)).to_multiset().add(dropped) == flat_ids(ws).to_multiset(),
        dropped.len() == ws.len() - first_pass_of(ws).len(),
        forall|x: u64| dropped.count(x) > 0 ==> flat_ids(first_pass_of(ws)).contains(x),
{
    let d = lemma_first_pass_ids(ws, ws.len());
    assert(ws.subrange(0, ws.len() as int) =~= ws);
    d
}

} // verus!

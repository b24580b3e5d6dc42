//! The three passes over an extract: relations, then the ways they name,
//! then the nodes those ways and the relations' stops name.
//!
//! Each pass runs on several workers at once. A worker feeds the primitives
//! of its blocks, one at a time, to a batch (`accept`); the batches are then
//! folded, in worker order, into the stage of the pass (`absorb`), whose id
//! sets decide what the next pass keeps.
use vstd::prelude::*;
use std::collections::{HashMap, HashSet};
use crate::filter::{copy_tags, filter_holds, tags_view, TagFilter};
use crate::store::{lemma_store_concat, lemma_store_entries, store_of};

verus! {

broadcast use vstd::std_specs::hash::group_hash_axioms;

/// The kind of a relation member.
#[derive(Clone, Copy, Debug, PartialEq, Eq, Structural)]
pub enum MemberKind {
    Node,
    Way,
    Relation,
}

/// A relation member: its role, id and kind.
#[derive(Debug)]
pub struct Member {
    pub role: String,
    pub id: u64,
    pub kind: MemberKind,
}

/// A relation as the decoder hands it over.
#[derive(Debug)]
pub struct RawRelation {
    pub id: u64,
    pub tags: Vec<(String, String)>,
    pub info: Vec<(String, String)>,
    pub members: Vec<Member>,
}

/// A way as the decoder hands it over.
#[derive(Debug)]
pub struct RawWay {
    pub id: u64,
    pub tags: Vec<(String, String)>,
    pub info: Vec<(String, String)>,
    pub refs: Vec<u64>,
}

/// A node as the decoder hands it over; the position is in nanodegrees.
#[derive(Debug)]
pub struct RawNode {
    pub id: u64,
    pub tags: Vec<(String, String)>,
    pub lat: i64,
    pub lon: i64,
}

/// A kept relation: its ways and its stops by id.
#[derive(Debug)]
pub struct RelationRecord {
    pub id: u64,
    pub tags: Vec<(String, String)>,
    pub info: Vec<(String, String)>,
    pub ways: Vec<u64>,
    pub stops: Vec<u64>,
}

/// A kept way: its nodes by id.
#[derive(Debug)]
pub struct WayRecord {
    pub id: u64,
    pub tags: Vec<(String, String)>,
    pub info: Vec<(String, String)>,
    pub nodes: Vec<u64>,
}

/// A kept node.
#[derive(Debug)]
pub struct NodeRecord {
    pub tags: Vec<(String, String)>,
    pub lat: i64,
    pub lon: i64,
}

/// The ids of the members of one kind, in order.
pub open spec fn member_ids(ms: Seq<Member>, kind: MemberKind) -> Seq<u64>
    decreases ms.len(),
{
    if ms.len() == 0 {
        Seq::empty()
    } else {
        let before = member_ids(ms.drop_last(), kind);
        if ms.last().kind == kind {
            before.push(ms.last().id)
        } else {
            before
        }
    }
}

/// Every id of `part` is in `whole`.
pub open spec fn ids_within(part: Seq<u64>, whole: Set<u64>) -> bool {
    forall|k: int| 0 <= k < part.len() ==> whole.contains(#[trigger] part[k])
}

fn collect_members(ms: &Vec<Member>, kind: MemberKind) -> (r: Vec<u64>)
    ensures
        r@ == member_ids(ms@, kind),
{
    let mut r: Vec<u64> = Vec::new();
    let mut i: usize = 0;
    while i < ms.len()
        invariant
            i <= ms.len(),
            r@ == member_ids(ms@.subrange(0, i as int), kind),
        decreases ms.len() - i,
    {
        assert(ms@.subrange(0, i + 1).drop_last() =~= ms@.subrange(0, i as int));
        if ms[i].kind == kind {
            r.push(ms[i].id);
        }
        i += 1;
    }
    assert(ms@.subrange(0, ms@.len() as int) =~= ms@);
    r
}

fn copy_ids(ids: &Vec<u64>) -> (r: Vec<u64>)
    ensures
        r@ == ids@,
{
    let mut r: Vec<u64> = Vec::new();
    let mut i: usize = 0;
    while i < ids.len()
        invariant
            i <= ids.len(),
            r@ =~= ids@.subrange(0, i as int),
        decreases ids.len() - i,
    {
        r.push(ids[i]);
        i += 1;
    }
    r
}

fn append_ids(dst: &mut Vec<u64>, src: &Vec<u64>)
    ensures
        final(dst)@ == old(dst)@ + src@,
{
    let mut i: usize = 0;
    while i < src.len()
        invariant
            i <= src.len(),
            dst@ =~= old(dst)@ + src@.subrange(0, i as int),
        decreases src.len() - i,
    {
        dst.push(src[i]);
        i += 1;
    }
}

fn insert_ids(set: &mut HashSet<u64>, ids: &Vec<u64>)
    ensures
        final(set)@ == old(set)@ + ids@.to_set(),
{
    let mut i: usize = 0;
    while i < ids.len()
        invariant
            i <= ids.len(),
            set@ =~= old(set)@ + ids@.subrange(0, i as int).to_set(),
        decreases ids.len() - i,
    {
        set.insert(ids[i]);
        proof {
            assert(ids@.subrange(0, i + 1) =~= ids@.subrange(0, i as int).push(ids@[i as int]));
            ids@.subrange(0, i as int).lemma_push_to_set_commute(ids@[i as int]);
        }
        i += 1;
    }
    assert(ids@.subrange(0, ids@.len() as int) =~= ids@);
}

/// A filter as the conditions it stands for.
pub type FilterView = Seq<(Seq<char>, Option<Seq<Seq<char>>>)>;

/// The relation pass keeps this relation: it passes the filter and has a way.
pub open spec fn kept(r: RawRelation, filter: FilterView) -> bool {
    filter_holds(filter, tags_view(r.tags@)) && member_ids(r.members@, MemberKind::Way).len() > 0
}

/// A relation record as values: id, tags, metadata, ways and stops.
pub open spec fn record_view(r: RelationRecord) -> (
    u64,
    Seq<(String, String)>,
    Seq<(String, String)>,
    Seq<u64>,
    Seq<u64>,
) {
    (r.id, r.tags@, r.info@, r.ways@, r.stops@)
}

/// The record that the relation pass makes of a relation it keeps.
pub open spec fn record_of(r: RawRelation) -> (
    u64,
    Seq<(String, String)>,
    Seq<(String, String)>,
    Seq<u64>,
    Seq<u64>,
) {
    (
        r.id,
        r.tags@,
        r.info@,
        member_ids(r.members@, MemberKind::Way),
        member_ids(r.members@, MemberKind::Node),
    )
}

/// The records that the relation pass makes of a stream of relations, in order.
pub open spec fn relation_pass(s: Seq<RawRelation>, filter: FilterView) -> Seq<
    (u64, Seq<(String, String)>, Seq<(String, String)>, Seq<u64>, Seq<u64>),
>
    decreases s.len(),
{
    if s.len() == 0 {
        Seq::empty()
    } else if kept(s.last(), filter) {
        relation_pass(s.drop_last(), filter).push(record_of(s.last()))
    } else {
        relation_pass(s.drop_last(), filter)
    }
}

/// The member ids of one kind of the relations that the pass keeps, in order.
pub open spec fn pass_member_ids(s: Seq<RawRelation>, filter: FilterView, kind: MemberKind) -> Seq<
    u64,
>
    decreases s.len(),
{
    if s.len() == 0 {
        Seq::empty()
    } else if kept(s.last(), filter) {
        pass_member_ids(s.drop_last(), filter, kind) + member_ids(s.last().members@, kind)
    } else {
        pass_member_ids(s.drop_last(), filter, kind)
    }
}

/// What one worker of the relation pass has found; `fed` holds the relations
/// it was given, `filter` the filter it applied.
pub struct RelationBatch {
    pub relations: Vec<RelationRecord>,
    pub way_ids: Vec<u64>,
    pub stop_ids: Vec<u64>,
    pub fed: Ghost<Seq<RawRelation>>,
    pub filter: Ghost<FilterView>,
}

impl RelationBatch {
    /// The batch holds what the pass makes of the relations it was fed: the
    /// kept relations, and the ids of their ways and stops. So every kept
    /// relation has a way, and its ways and stops are among the ids found.
    pub open spec fn wf(&self) -> bool {
        &&& self.relations@.map_values(|r: RelationRecord| record_view(r)) == relation_pass(
            self.fed@,
            self.filter@,
        )
        &&& self.way_ids@ == pass_member_ids(self.fed@, self.filter@, MemberKind::Way)
        &&& self.stop_ids@ == pass_member_ids(self.fed@, self.filter@, MemberKind::Node)
        &&& forall|i: int|
            0 <= i < self.relations.len() ==> {
                &&& (#[trigger] self.relations@[i]).ways@.len() > 0
                &&& ids_within(self.relations@[i].ways@, self.way_ids@.to_set())
                &&& ids_within(self.relations@[i].stops@, self.stop_ids@.to_set())
            }
    }

    pub fn new(filter: &TagFilter) -> (r: Self)
        ensures
            r.wf(),
            r.filter@ == filter.view(),
            r.fed@.len() == 0,
            r.relations@.len() == 0,
            r.way_ids@.len() == 0,
            r.stop_ids@.len() == 0,
    {
        let r = RelationBatch {
            relations: Vec::new(),
            way_ids: Vec::new(),
            stop_ids: Vec::new(),
            fed: Ghost(Seq::empty()),
            filter: Ghost(filter.view()),
        };
        assert(r.relations@.map_values(|r: RelationRecord| record_view(r)) =~= Seq::empty());
        r
    }

    /// Keeps a relation that passes the filter and has at least one way
    /// member, its way members as its ways and its node members as its
    /// stops, whatever their roles; the ids of both join the batch's.
    pub fn accept(&mut self, relation: RawRelation, filter: &TagFilter)
        requires
            old(self).wf(),
            filter.view() == old(self).filter@,
        ensures
            final(self).wf(),
            final(self).filter == old(self).filter,
            final(self).fed@ == old(self).fed@.push(relation),
            ({
                let keep = filter_holds(filter.view(), tags_view(relation.tags@)) && member_ids(
                    relation.members@,
                    MemberKind::Way,
                ).len() > 0;
                if keep {
                    &&& final(self).relations@.len() == old(self).relations@.len() + 1
                    &&& final(self).relations@.drop_last() == old(self).relations@
                    &&& final(self).relations@.last().id == relation.id
                    &&& final(self).relations@.last().tags == relation.tags
                    &&& final(self).relations@.last().info == relation.info
                    &&& final(self).relations@.last().ways@ == member_ids(
                        relation.members@,
                        MemberKind::Way,
                    )
                    &&& final(self).relations@.last().stops@ == member_ids(
                        relation.members@,
                        MemberKind::Node,
                    )
                    &&& final(self).way_ids@ == old(self).way_ids@ + member_ids(
                        relation.members@,
                        MemberKind::Way,
                    )
                    &&& final(self).stop_ids@ == old(self).stop_ids@ + member_ids(
                        relation.members@,
                        MemberKind::Node,
                    )
                } else {
                    &&& final(self).relations@ == old(self).relations@
                    &&& final(self).way_ids@ == old(self).way_ids@
                    &&& final(self).stop_ids@ == old(self).stop_ids@
                }
            }),
    {
        let ghost given = relation;
        let ghost fed = self.fed@.push(given);
        assert(fed.drop_last() =~= self.fed@);
        if !filter.matches(&relation.tags) {
            self.fed = Ghost(fed);
            return;
        }
        let ways = collect_members(&relation.members, MemberKind::Way);
        if ways.len() == 0 {
            self.fed = Ghost(fed);
            return;
        }
        let stops = collect_members(&relation.members, MemberKind::Node);
        let ghost old_ways = self.way_ids@;
        let ghost old_stops = self.stop_ids@;
        append_ids(&mut self.way_ids, &ways);
        append_ids(&mut self.stop_ids, &stops);
        proof {
            lemma_append_keeps(old_ways, ways@);
            lemma_append_keeps(old_stops, stops@);
        }
        let record = RelationRecord {
            id: relation.id,
            tags: relation.tags,
            info: relation.info,
            ways,
            stops,
        };
        let ghost before = self.relations@.map_values(|r: RelationRecord| record_view(r));
        self.relations.push(record);
        self.fed = Ghost(fed);
        assert(self.relations@.map_values(|r: RelationRecord| record_view(r)) =~= before.push(
            record_of(given),
        ));
    }
}

/// The outcome of the relation pass: the kept relations, and the ids of the
/// ways and nodes that the next passes look for; `fed` holds the relations
/// of all batches, in worker order.
pub struct RelationStage {
    pub relations: Vec<RelationRecord>,
    pub way_ids: HashSet<u64>,
    pub node_ids: HashSet<u64>,
    pub fed: Ghost<Seq<RawRelation>>,
    pub filter: Ghost<FilterView>,
}

impl RelationStage {
    /// The stage holds what the pass makes of the relations fed to it. So
    /// every kept relation has a way, its ways are wanted ways and its stops
    /// wanted nodes.
    pub open spec fn wf(&self) -> bool {
        &&& self.relations@.map_values(|r: RelationRecord| record_view(r)) == relation_pass(
            self.fed@,
            self.filter@,
        )
        &&& self.way_ids@ == pass_member_ids(self.fed@, self.filter@, MemberKind::Way).to_set()
        &&& self.node_ids@ == pass_member_ids(self.fed@, self.filter@, MemberKind::Node).to_set()
        &&& forall|i: int|
            0 <= i < self.relations.len() ==> {
                &&& (#[trigger] self.relations@[i]).ways@.len() > 0
                &&& ids_within(self.relations@[i].ways@, self.way_ids@)
                &&& ids_within(self.relations@[i].stops@, self.node_ids@)
            }
    }

    pub fn new(filter: &TagFilter) -> (r: Self)
        ensures
            r.wf(),
            r.filter@ == filter.view(),
            r.fed@.len() == 0,
            r.relations@.len() == 0,
            r.way_ids@ == Set::<u64>::empty(),
            r.node_ids@ == Set::<u64>::empty(),
    {
        let r = RelationStage {
            relations: Vec::new(),
            way_ids: HashSet::new(),
            node_ids: HashSet::new(),
            fed: Ghost(Seq::empty()),
            filter: Ghost(filter.view()),
        };
        assert(r.relations@.map_values(|r: RelationRecord| record_view(r)) =~= Seq::empty());
        assert(Seq::<u64>::empty().to_set() =~= Set::<u64>::empty());
        r
    }

    /// Adds what one worker found, after what the workers before it found.
    pub fn absorb(&mut self, batch: RelationBatch)
        requires
            old(self).wf(),
            batch.wf(),
            batch.filter == old(self).filter,
        ensures
            final(self).wf(),
            final(self).filter == old(self).filter,
            final(self).fed@ == old(self).fed@ + batch.fed@,
            final(self).relations@ == old(self).relations@ + batch.relations@,
            final(self).way_ids@ == old(self).way_ids@ + batch.way_ids@.to_set(),
            final(self).node_ids@ == old(self).node_ids@ + batch.stop_ids@.to_set(),
    {
        let ghost bfed = batch.fed@;
        let ghost bways = batch.way_ids@;
        let ghost bstops = batch.stop_ids@;
        let mut batch = batch;
        insert_ids(&mut self.way_ids, &batch.way_ids);
        insert_ids(&mut self.node_ids, &batch.stop_ids);
        let ghost old_relations = self.relations@;
        let ghost added = batch.relations@;
        self.relations.append(&mut batch.relations);
        let ghost fed = self.fed@ + bfed;
        proof {
            lemma_relation_pass_concat(self.fed@, bfed, self.filter@);
            lemma_member_ids_concat(self.fed@, bfed, self.filter@, MemberKind::Way);
            lemma_member_ids_concat(self.fed@, bfed, self.filter@, MemberKind::Node);
            let fw = pass_member_ids(self.fed@, self.filter@, MemberKind::Way);
            let fs = pass_member_ids(self.fed@, self.filter@, MemberKind::Node);
            assert((fw + bways).to_set() =~= fw.to_set() + bways.to_set()) by {
                lemma_concat_to_set(fw, bways);
            }
            assert((fs + bstops).to_set() =~= fs.to_set() + bstops.to_set()) by {
                lemma_concat_to_set(fs, bstops);
            }
            assert(self.relations@.map_values(|r: RelationRecord| record_view(r)) =~= old_relations.map_values(
                |r: RelationRecord| record_view(r),
            ) + added.map_values(|r: RelationRecord| record_view(r)));
        }
        self.fed = Ghost(fed);
        assert forall|i: int| 0 <= i < self.relations.len() implies {
            &&& (#[trigger] self.relations@[i]).ways@.len() > 0
            &&& ids_within(self.relations@[i].ways@, self.way_ids@)
            &&& ids_within(self.relations@[i].stops@, self.node_ids@)
        } by {
            if i >= old_relations.len() {
                assert(self.relations@[i] == added[i - old_relations.len()]);
            }
        }
    }
}

proof fn lemma_concat_to_set(a: Seq<u64>, b: Seq<u64>)
    ensures
        (a + b).to_set() == a.to_set() + b.to_set(),
{
    assert forall|x: u64| (a + b).to_set().contains(x) implies (a.to_set() + b.to_set()).contains(x) by {
        let k = choose|k: int| 0 <= k < (a + b).len() && (a + b)[k] == x;
        if k < a.len() {
            assert(a[k] == x);
        } else {
            assert(b[k - a.len()] == x);
        }
    }
    assert forall|x: u64| (a.to_set() + b.to_set()).contains(x) implies (a + b).to_set().contains(x) by {
        if a.to_set().contains(x) {
            let k = choose|k: int| 0 <= k < a.len() && a[k] == x;
            assert((a + b)[k] == x);
        } else {
            let k = choose|k: int| 0 <= k < b.len() && b[k] == x;
            assert((a + b)[a.len() + k] == x);
        }
    }
    assert((a + b).to_set() =~= a.to_set() + b.to_set());
}

proof fn lemma_relation_pass_concat(a: Seq<RawRelation>, b: Seq<RawRelation>, filter: FilterView)
    ensures
        relation_pass(a + b, filter) == relation_pass(a, filter) + relation_pass(b, filter),
    decreases b.len(),
{
    if b.len() == 0 {
        assert(a + b =~= a);
        assert(relation_pass(a, filter) + Seq::empty() =~= relation_pass(a, filter));
    } else {
        lemma_relation_pass_concat(a, b.drop_last(), filter);
        assert((a + b).drop_last() =~= a + b.drop_last());
        assert((a + b).last() == b.last());
        if kept(b.last(), filter) {
            assert(relation_pass(a, filter) + relation_pass(b, filter) =~= (relation_pass(a, filter)
                + relation_pass(b.drop_last(), filter)).push(record_of(b.last())));
        }
    }
}

proof fn lemma_member_ids_concat(
    a: Seq<RawRelation>,
    b: Seq<RawRelation>,
    filter: FilterView,
    kind: MemberKind,
)
    ensures
        pass_member_ids(a + b, filter, kind) == pass_member_ids(a, filter, kind) + pass_member_ids(
            b,
            filter,
            kind,
        ),
    decreases b.len(),
{
    if b.len() == 0 {
        assert(a + b =~= a);
        assert(pass_member_ids(a, filter, kind) + Seq::empty() =~= pass_member_ids(a, filter, kind));
    } else {
        lemma_member_ids_concat(a, b.drop_last(), filter, kind);
        assert((a + b).drop_last() =~= a + b.drop_last());
        assert((a + b).last() == b.last());
        if kept(b.last(), filter) {
            assert(pass_member_ids(a, filter, kind) + pass_member_ids(b, filter, kind) =~= (
            pass_member_ids(a, filter, kind) + pass_member_ids(b.drop_last(), filter, kind))
                + member_ids(b.last().members@, kind));
        }
    }
}

proof fn lemma_relation_pass_remove(s: Seq<RawRelation>, j: int, filter: FilterView)
    requires
        0 <= j < s.len(),
    ensures
        relation_pass(s, filter).to_multiset() == if kept(s[j], filter) {
            relation_pass(s.remove(j), filter).to_multiset().insert(record_of(s[j]))
        } else {
            relation_pass(s.remove(j), filter).to_multiset()
        },
    decreases s.len(),
{
    broadcast use vstd::seq_lib::group_to_multiset_ensures;

    if j == s.len() - 1 {
        assert(s.remove(j) =~= s.drop_last());
    } else {
        lemma_relation_pass_remove(s.drop_last(), j, filter);
        assert(s.remove(j).drop_last() =~= s.drop_last().remove(j));
        assert(s.remove(j).last() == s.last());
        assert(s.drop_last()[j] == s[j]);
        if kept(s.last(), filter) {
            if kept(s[j], filter) {
                assert(relation_pass(s.remove(j), filter).to_multiset().insert(record_of(s[j]))
                    =~= relation_pass(s.drop_last().remove(j), filter).to_multiset().insert(
                    record_of(s.last()),
                ).insert(record_of(s[j])));
            }
        }
    }
}

proof fn lemma_member_ids_contain(s: Seq<RawRelation>, filter: FilterView, kind: MemberKind, x: u64)
    ensures
        pass_member_ids(s, filter, kind).contains(x) <==> exists|i: int|
            0 <= i < s.len() && kept(s[i], filter) && (#[trigger] member_ids(
                s[i].members@,
                kind,
            )).contains(x),
    decreases s.len(),
{
    if s.len() > 0 {
        let a = pass_member_ids(s.drop_last(), filter, kind);
        lemma_member_ids_contain(s.drop_last(), filter, kind, x);
        if kept(s.last(), filter) {
            let b = member_ids(s.last().members@, kind);
            if (a + b).contains(x) {
                let k = choose|k: int| 0 <= k < (a + b).len() && (a + b)[k] == x;
                if k < a.len() {
                    assert(a.contains(x));
                    let i = choose|i: int|
                        0 <= i < s.drop_last().len() && kept(s.drop_last()[i], filter) && (
                        #[trigger] member_ids(s.drop_last()[i].members@, kind)).contains(x);
                    assert(s[i] == s.drop_last()[i]);
                } else {
                    assert(b[k - a.len()] == x);
                    assert(member_ids(s[s.len() - 1].members@, kind).contains(x));
                }
            }
            if exists|i: int|
                0 <= i < s.len() && kept(s[i], filter) && (#[trigger] member_ids(
                    s[i].members@,
                    kind,
                )).contains(x) {
                let i = choose|i: int|
                    0 <= i < s.len() && kept(s[i], filter) && (#[trigger] member_ids(
                        s[i].members@,
                        kind,
                    )).contains(x);
                if i < s.len() - 1 {
                    assert(s.drop_last()[i] == s[i]);
                    assert(a.contains(x));
                    let k = choose|k: int| 0 <= k < a.len() && a[k] == x;
                    assert((a + b)[k] == x);
                } else {
                    let k = choose|k: int| 0 <= k < b.len() && b[k] == x;
                    assert((a + b)[a.len() + k] == x);
                }
            }
        } else {
            if exists|i: int|
                0 <= i < s.len() && kept(s[i], filter) && (#[trigger] member_ids(
                    s[i].members@,
                    kind,
                )).contains(x) {
                let i = choose|i: int|
                    0 <= i < s.len() && kept(s[i], filter) && (#[trigger] member_ids(
                        s[i].members@,
                        kind,
                    )).contains(x);
                assert(i < s.len() - 1);
                assert(s.drop_last()[i] == s[i]);
            }
            if a.contains(x) {
                let i = choose|i: int|
                    0 <= i < s.drop_last().len() && kept(s.drop_last()[i], filter) && (
                    #[trigger] member_ids(s.drop_last()[i].members@, kind)).contains(x);
                assert(s[i] == s.drop_last()[i]);
            }
        }
    }
}

/// The relation pass does not depend on how the relations are split among
/// workers, nor on the order in which they come: the same relations give the
/// same records, as a multiset, and the same wanted way and node ids.
pub proof fn relation_pass_order_free(s1: Seq<RawRelation>, s2: Seq<RawRelation>, filter: FilterView)
    requires
        s1.to_multiset() == s2.to_multiset(),
    ensures
        relation_pass(s1, filter).to_multiset() == relation_pass(s2, filter).to_multiset(),
        pass_member_ids(s1, filter, MemberKind::Way).to_set() == pass_member_ids(
            s2,
            filter,
            MemberKind::Way,
        ).to_set(),
        pass_member_ids(s1, filter, MemberKind::Node).to_set() == pass_member_ids(
            s2,
            filter,
            MemberKind::Node,
        ).to_set(),
    decreases s1.len(),
{
    broadcast use vstd::seq_lib::group_to_multiset_ensures;

    if s1.len() == 0 {
        assert(s1.to_multiset().len() == 0);
        assert(s2.to_multiset().len() == s2.len());
        assert(s2.len() == 0);
        assert(s1 =~= s2);
    } else {
        let x = s1.last();
        assert(s1 =~= s1.drop_last().push(x));
        assert(s2.to_multiset().count(x) > 0);
        assert(s2.contains(x));
        let j = choose|j: int| 0 <= j < s2.len() && s2[j] == x;
        assert(s2.remove(j).to_multiset() =~= s1.drop_last().to_multiset());
        relation_pass_order_free(s1.drop_last(), s2.remove(j), filter);
        lemma_relation_pass_remove(s2, j, filter);
        assert forall|kind: MemberKind, y: u64|
            pass_member_ids(s1, filter, kind).to_set().contains(y)
                <==> pass_member_ids(s2, filter, kind).to_set().contains(y) by {
            lemma_member_ids_contain(s1, filter, kind, y);
            lemma_member_ids_contain(s2, filter, kind, y);
            if exists|i: int|
                0 <= i < s1.len() && kept(s1[i], filter) && (#[trigger] member_ids(
                    s1[i].members@,
                    kind,
                )).contains(y) {
                let i = choose|i: int|
                    0 <= i < s1.len() && kept(s1[i], filter) && (#[trigger] member_ids(
                        s1[i].members@,
                        kind,
                    )).contains(y);
                assert(s1.to_multiset().count(s1[i]) > 0);
                assert(s2.contains(s1[i]));
                let k = choose|k: int| 0 <= k < s2.len() && s2[k] == s1[i];
                assert(member_ids(s2[k].members@, kind).contains(y));
            }
            if exists|i: int|
                0 <= i < s2.len() && kept(s2[i], filter) && (#[trigger] member_ids(
                    s2[i].members@,
                    kind,
                )).contains(y) {
                let i = choose|i: int|
                    0 <= i < s2.len() && kept(s2[i], filter) && (#[trigger] member_ids(
                        s2[i].members@,
                        kind,
                    )).contains(y);
                assert(s2.to_multiset().count(s2[i]) > 0);
                assert(s1.contains(s2[i]));
                let k = choose|k: int| 0 <= k < s1.len() && s1[k] == s2[i];
                assert(member_ids(s1[k].members@, kind).contains(y));
            }
        }
        assert(pass_member_ids(s1, filter, MemberKind::Way).to_set() =~= pass_member_ids(
            s2,
            filter,
            MemberKind::Way,
        ).to_set());
        assert(pass_member_ids(s1, filter, MemberKind::Node).to_set() =~= pass_member_ids(
            s2,
            filter,
            MemberKind::Node,
        ).to_set());
    }
}

proof fn lemma_kept_has_record(s: Seq<RawRelation>, filter: FilterView, i: int)
    requires
        0 <= i < s.len(),
        kept(s[i], filter),
    ensures
        relation_pass(s, filter).contains(record_of(s[i])),
    decreases s.len(),
{
    if i == s.len() - 1 {
        let r = relation_pass(s, filter);
        assert(r[r.len() - 1] == record_of(s[i]));
    } else {
        assert(s.drop_last()[i] == s[i]);
        lemma_kept_has_record(s.drop_last(), filter, i);
        let before = relation_pass(s.drop_last(), filter);
        let k = choose|k: int| 0 <= k < before.len() && before[k] == record_of(s[i]);
        assert(relation_pass(s, filter)[k] == before[k]);
    }
}

/// Every wanted way id stands among the ways, and every wanted node id among
/// the stops, of a relation that the pass keeps.
pub proof fn wanted_ids_come_from_kept_relations(s: Seq<RawRelation>, filter: FilterView, x: u64)
    ensures
        pass_member_ids(s, filter, MemberKind::Way).contains(x) ==> exists|k: int|
            0 <= k < relation_pass(s, filter).len() && (#[trigger] relation_pass(s, filter)[k]).3.contains(x),
        pass_member_ids(s, filter, MemberKind::Node).contains(x) ==> exists|k: int|
            0 <= k < relation_pass(s, filter).len() && (#[trigger] relation_pass(s, filter)[k]).4.contains(x),
{
    lemma_member_ids_contain(s, filter, MemberKind::Way, x);
    lemma_member_ids_contain(s, filter, MemberKind::Node, x);
    let r = relation_pass(s, filter);
    if pass_member_ids(s, filter, MemberKind::Way).contains(x) {
        let i = choose|i: int|
            0 <= i < s.len() && kept(s[i], filter) && (#[trigger] member_ids(
                s[i].members@,
                MemberKind::Way,
            )).contains(x);
        lemma_kept_has_record(s, filter, i);
        let k = choose|k: int| 0 <= k < r.len() && r[k] == record_of(s[i]);
        assert(r[k].3.contains(x));
    }
    if pass_member_ids(s, filter, MemberKind::Node).contains(x) {
        let i = choose|i: int|
            0 <= i < s.len() && kept(s[i], filter) && (#[trigger] member_ids(
                s[i].members@,
                MemberKind::Node,
            )).contains(x);
        lemma_kept_has_record(s, filter, i);
        let k = choose|k: int| 0 <= k < r.len() && r[k] == record_of(s[i]);
        assert(r[k].4.contains(x));
    }
}

/// What one worker of the way pass has found: the wanted ways (kept for the
/// relations, without their metadata) and the ways that pass the filter on
/// their own (kept for areas, with metadata). The ghost sets are the ways
/// seen so far and the ids that were wanted.
pub struct WayBatch {
    pub ways: Vec<WayRecord>,
    pub relation_ways: Vec<WayRecord>,
    pub node_ids: Vec<u64>,
    pub seen: Ghost<Set<u64>>,
    pub wanted: Ghost<Set<u64>>,
}

impl WayBatch {
    /// Every wanted way that was seen is kept for the relations, and only
    /// those; the node ids found are exactly the nodes of the kept ways.
    pub open spec fn wf(&self) -> bool {
        &&& self.node_ids@.to_set() == nodes_of(self.relation_ways@) + nodes_of(self.ways@)
        &&& forall|id: u64|
            self.seen@.contains(id) && self.wanted@.contains(id) ==> exists|k: int|
                0 <= k < self.relation_ways.len() && (#[trigger] self.relation_ways@[k]).id == id
        &&& forall|k: int|
            0 <= k < self.relation_ways.len() ==> {
                &&& self.wanted@.contains((#[trigger] self.relation_ways@[k]).id)
                &&& self.seen@.contains(self.relation_ways@[k].id)
                &&& ids_within(self.relation_ways@[k].nodes@, self.node_ids@.to_set())
            }
        &&& forall|k: int|
            0 <= k < self.ways.len() ==> {
                &&& (#[trigger] self.ways@[k]).nodes@.len() > 0
                &&& ids_within(self.ways@[k].nodes@, self.node_ids@.to_set())
            }
    }

    pub fn new(wanted: &HashSet<u64>) -> (r: Self)
        ensures
            r.wf(),
            r.wanted@ == wanted@,
            r.seen@ == Set::<u64>::empty(),
            r.ways@.len() == 0,
            r.relation_ways@.len() == 0,
            r.node_ids@.len() == 0,
    {
        let r = WayBatch {
            ways: Vec::new(),
            relation_ways: Vec::new(),
            node_ids: Vec::new(),
            seen: Ghost(Set::empty()),
            wanted: Ghost(wanted@),
        };
        assert(r.node_ids@.to_set() =~= nodes_of(r.relation_ways@) + nodes_of(r.ways@));
        r
    }

    /// Keeps a wanted way for the relations, and a way with nodes that passes
    /// the filter for areas; a way may be kept both ways. The nodes of what is
    /// kept join the batch's node ids.
    pub fn accept(&mut self, way: RawWay, wanted: &HashSet<u64>, filter: &TagFilter)
        requires
            old(self).wf(),
            wanted@ == old(self).wanted@,
        ensures
            final(self).wf(),
            final(self).wanted == old(self).wanted,
            final(self).seen@ == old(self).seen@.insert(way.id),
            ({
                let for_relation = wanted@.contains(way.id);
                let standalone = filter_holds(filter.view(), tags_view(way.tags@))
                    && way.refs@.len() > 0;
                &&& if for_relation {
                    &&& final(self).relation_ways@.len() == old(self).relation_ways@.len() + 1
                    &&& final(self).relation_ways@.drop_last() == old(self).relation_ways@
                    &&& final(self).relation_ways@.last().id == way.id
                    &&& final(self).relation_ways@.last().tags@ == way.tags@
                    &&& final(self).relation_ways@.last().info@.len() == 0
                    &&& final(self).relation_ways@.last().nodes@ == way.refs@
                } else {
                    final(self).relation_ways@ == old(self).relation_ways@
                }
                &&& if standalone {
                    &&& final(self).ways@.len() == old(self).ways@.len() + 1
                    &&& final(self).ways@.drop_last() == old(self).ways@
                    &&& final(self).ways@.last().id == way.id
                    &&& final(self).ways@.last().tags@ == way.tags@
                    &&& final(self).ways@.last().info == way.info
                    &&& final(self).ways@.last().nodes@ == way.refs@
                } else {
                    final(self).ways@ == old(self).ways@
                }
                &&& final(self).node_ids@ == old(self).node_ids@ + (if for_relation {
                    way.refs@
                } else {
                    Seq::empty()
                }) + (if standalone {
                    way.refs@
                } else {
                    Seq::empty()
                })
            }),
    {
        let ghost old_nodes = self.node_ids@;
        let ghost mid_nodes = self.node_ids@;
        let for_relation = wanted.contains(&way.id);
        if for_relation {
            append_ids(&mut self.node_ids, &way.refs);
            proof {
                mid_nodes = self.node_ids@;
                lemma_append_keeps(old_nodes, way.refs@);
            }
            let record = WayRecord {
                id: way.id,
                tags: copy_tags(&way.tags),
                info: Vec::new(),
                nodes: copy_ids(&way.refs),
            };
            self.relation_ways.push(record);
        }
        assert(mid_nodes == old_nodes + (if for_relation { way.refs@ } else { Seq::empty() })) by {
            if !for_relation {
                assert(old_nodes + Seq::<u64>::empty() =~= old_nodes);
            }
        }
        let standalone = filter.matches(&way.tags) && way.refs.len() > 0;
        if standalone {
            append_ids(&mut self.node_ids, &way.refs);
            proof {
                lemma_append_keeps(mid_nodes, way.refs@);
            }
            let record = WayRecord { id: way.id, tags: way.tags, info: way.info, nodes: way.refs };
            self.ways.push(record);
        } else {
            assert(mid_nodes + Seq::<u64>::empty() =~= mid_nodes);
        }
        self.seen = Ghost(self.seen@.insert(way.id));
        proof {
            let old_rw = old(self).relation_ways@;
            assert forall|id: u64|
                self.seen@.contains(id) && self.wanted@.contains(id) implies exists|k: int|
                0 <= k < self.relation_ways.len() && (#[trigger] self.relation_ways@[k]).id
                == id by {
                if id == way.id {
                    assert(self.relation_ways@[self.relation_ways.len() - 1].id == id);
                } else {
                    let k = choose|k: int|
                        0 <= k < old_rw.len() && (#[trigger] old_rw[k]).id == id;
                    assert(self.relation_ways@[k] == old_rw[k]);
                }
            }
            assert forall|k: int| 0 <= k < self.relation_ways.len() implies {
                &&& self.wanted@.contains((#[trigger] self.relation_ways@[k]).id)
                &&& self.seen@.contains(self.relation_ways@[k].id)
                &&& ids_within(self.relation_ways@[k].nodes@, self.node_ids@.to_set())
            } by {
                if k < old_rw.len() {
                    assert(self.relation_ways@[k] == old_rw[k]);
                }
            }
            let old_w = old(self).ways@;
            assert forall|k: int| 0 <= k < self.ways.len() implies {
                &&& (#[trigger] self.ways@[k]).nodes@.len() > 0
                &&& ids_within(self.ways@[k].nodes@, self.node_ids@.to_set())
            } by {
                if k < old_w.len() {
                    assert(self.ways@[k] == old_w[k]);
                }
            }
            let rel_part: Seq<u64> = if for_relation { way.refs@ } else { Seq::empty() };
            let std_part: Seq<u64> = if standalone { way.refs@ } else { Seq::empty() };
            assert(self.node_ids@ == old_nodes + rel_part + std_part);
            lemma_concat_to_set(old_nodes, rel_part);
            lemma_concat_to_set(old_nodes + rel_part, std_part);
            if for_relation {
                assert(self.relation_ways@ =~= old_rw.push(self.relation_ways@.last()));
                lemma_nodes_of_push(old_rw, self.relation_ways@.last());
            } else {
                assert(rel_part.to_set() =~= Set::<u64>::empty());
            }
            if standalone {
                assert(self.ways@ =~= old_w.push(self.ways@.last()));
                lemma_nodes_of_push(old_w, self.ways@.last());
            } else {
                assert(std_part.to_set() =~= Set::<u64>::empty());
            }
            assert(self.node_ids@.to_set() =~= nodes_of(self.relation_ways@) + nodes_of(self.ways@));
        }
    }
}

/// Appending ids keeps every id that was there, and adds those appended.
proof fn lemma_append_keeps(before: Seq<u64>, added: Seq<u64>)
    ensures
        forall|x: u64| before.to_set().contains(x) ==> (before + added).to_set().contains(x),
        ids_within(added, (before + added).to_set()),
{
    assert forall|x: u64| before.to_set().contains(x) implies (before + added).to_set().contains(
        x,
    ) by {
        let k = choose|k: int| 0 <= k < before.len() && before[k] == x;
        assert((before + added)[k] == x);
    }
    assert forall|k: int| 0 <= k < added.len() implies (before + added).to_set().contains(
        #[trigger] added[k],
    ) by {
        assert((before + added)[before.len() + k] == added[k]);
    }
}

/// The node ids of a list of ways.
pub open spec fn nodes_of(s: Seq<WayRecord>) -> Set<u64> {
    Set::new(|x: u64| exists|k: int| 0 <= k < s.len() && (#[trigger] s[k]).nodes@.contains(x))
}

/// Ways as entries keyed by their ids.
pub open spec fn keyed_ways(s: Seq<WayRecord>) -> Seq<(u64, WayRecord)> {
    s.map_values(|w: WayRecord| (w.id, w))
}

proof fn lemma_nodes_of_concat(a: Seq<WayRecord>, b: Seq<WayRecord>)
    ensures
        nodes_of(a + b) == nodes_of(a) + nodes_of(b),
{
    assert forall|x: u64| nodes_of(a + b).contains(x) implies (nodes_of(a) + nodes_of(b)).contains(x) by {
        let k = choose|k: int| 0 <= k < (a + b).len() && (#[trigger] (a + b)[k]).nodes@.contains(x);
        if k < a.len() {
            assert(a[k] == (a + b)[k]);
        } else {
            assert(b[k - a.len()] == (a + b)[k]);
        }
    }
    assert forall|x: u64| (nodes_of(a) + nodes_of(b)).contains(x) implies nodes_of(a + b).contains(x) by {
        if nodes_of(a).contains(x) {
            let k = choose|k: int| 0 <= k < a.len() && (#[trigger] a[k]).nodes@.contains(x);
            assert((a + b)[k] == a[k]);
        } else {
            let k = choose|k: int| 0 <= k < b.len() && (#[trigger] b[k]).nodes@.contains(x);
            assert((a + b)[a.len() + k] == b[k]);
        }
    }
    assert(nodes_of(a + b) =~= nodes_of(a) + nodes_of(b));
}

proof fn lemma_nodes_of_push(s: Seq<WayRecord>, r: WayRecord)
    ensures
        nodes_of(s.push(r)) == nodes_of(s) + r.nodes@.to_set(),
{
    lemma_nodes_of_concat(s, seq![r]);
    assert(s.push(r) =~= s + seq![r]);
    assert forall|x: u64| nodes_of(seq![r]).contains(x) <==> r.nodes@.to_set().contains(x) by {
        if r.nodes@.contains(x) {
            assert(seq![r][0] == r);
        }
    }
    assert(nodes_of(seq![r]) =~= r.nodes@.to_set());
}

/// The outcome of the way pass: the ways of the relations by id, the ways
/// kept for areas, and the ids of the nodes that the node pass looks for.
/// The ghost fields are the relations' stops, which the wanted nodes start
/// from, and every relation way kept, in worker order.
pub struct WayStage {
    pub relation_ways: HashMap<u64, WayRecord>,
    pub ways: Vec<WayRecord>,
    pub node_ids: HashSet<u64>,
    pub seen: Ghost<Set<u64>>,
    pub wanted: Ghost<Set<u64>>,
    pub stops: Ghost<Set<u64>>,
    pub records: Ghost<Seq<WayRecord>>,
}

impl WayStage {
    /// The ways of the relations are the kept relation ways by id, a later
    /// one replacing an earlier one with the same id; every wanted way that
    /// was seen is kept, and only those; the wanted nodes are the stops and
    /// the nodes of every kept way.
    pub open spec fn wf(&self) -> bool {
        &&& self.relation_ways@ == store_of(Map::empty(), keyed_ways(self.records@))
        &&& self.node_ids@ == self.stops@ + nodes_of(self.records@) + nodes_of(self.ways@)
        &&& forall|k: int|
            0 <= k < self.records@.len() ==> self.wanted@.contains((#[trigger] self.records@[k]).id)
                && self.seen@.contains(self.records@[k].id)
        &&& forall|id: u64|
            #![trigger self.relation_ways@.contains_key(id)]
            self.seen@.contains(id) && self.wanted@.contains(id)
                ==> self.relation_ways@.contains_key(id)
        &&& forall|id: u64|
            #![trigger self.relation_ways@.contains_key(id)]
            self.relation_ways@.contains_key(id) ==> {
                &&& self.wanted@.contains(id)
                &&& self.seen@.contains(id)
                &&& self.relation_ways@[id].id == id
                &&& ids_within(self.relation_ways@[id].nodes@, self.node_ids@)
            }
        &&& forall|k: int|
            0 <= k < self.ways.len() ==> {
                &&& (#[trigger] self.ways@[k]).nodes@.len() > 0
                &&& ids_within(self.ways@[k].nodes@, self.node_ids@)
            }
    }

    /// The stage before any way was seen; the wanted nodes start as the
    /// relations' stops.
    pub fn new(relations: RelationStage) -> (r: (Self, Vec<RelationRecord>, HashSet<u64>))
        requires
            relations.wf(),
        ensures
            r.0.wf(),
            r.0.wanted@ == relations.way_ids@,
            r.0.seen@ == Set::<u64>::empty(),
            r.0.stops@ == relations.node_ids@,
            r.0.records@.len() == 0,
            r.0.relation_ways@ == Map::<u64, WayRecord>::empty(),
            r.0.ways@.len() == 0,
            r.0.node_ids@ == relations.node_ids@,
            r.1 == relations.relations,
            r.2@ == relations.way_ids@,
    {
        let RelationStage { relations, way_ids, node_ids, .. } = relations;
        let ghost wanted = way_ids@;
        let ghost stops = node_ids@;
        let stage = WayStage {
            relation_ways: HashMap::new(),
            ways: Vec::new(),
            node_ids,
            seen: Ghost(Set::empty()),
            wanted: Ghost(wanted),
            stops: Ghost(stops),
            records: Ghost(Seq::empty()),
        };
        assert(stage.node_ids@ =~= stage.stops@ + nodes_of(stage.records@) + nodes_of(stage.ways@));
        assert(keyed_ways(stage.records@) =~= Seq::empty());
        (stage, relations, way_ids)
    }

    /// Adds what one worker found, after what the workers before it found;
    /// its relation ways are stored in their order, so of two with one id
    /// the later is kept.
    pub fn absorb(&mut self, batch: WayBatch)
        requires
            old(self).wf(),
            batch.wf(),
            batch.wanted == old(self).wanted,
        ensures
            final(self).wf(),
            final(self).wanted == old(self).wanted,
            final(self).stops == old(self).stops,
            final(self).seen@ == old(self).seen@ + batch.seen@,
            final(self).records@ == old(self).records@ + batch.relation_ways@,
            final(self).ways@ == old(self).ways@ + batch.ways@,
            final(self).node_ids@ == old(self).node_ids@ + batch.node_ids@.to_set(),
            final(self).relation_ways@ == store_of(
                old(self).relation_ways@,
                keyed_ways(batch.relation_ways@),
            ),
    {
        let ghost all = batch.relation_ways@;
        let ghost bseen = batch.seen@;
        let ghost bnodes = batch.node_ids@;
        let ghost added = batch.ways@;
        let ghost old_map = self.relation_ways@;
        let ghost old_records = self.records@;
        assert(forall|k: int| 0 <= k < all.len() ==> self.wanted@.contains(#[trigger] all[k].id) && bseen.contains(all[k].id));
        assert(forall|id: u64| bseen.contains(id) && self.wanted@.contains(id) ==> exists|k: int| 0 <= k < all.len() && (#[trigger] all[k]).id == id);
        assert(bnodes.to_set() == nodes_of(all) + nodes_of(added));
        assert(forall|k: int| 0 <= k < added.len() ==> (#[trigger] added[k]).nodes@.len() > 0);
        let mut batch = batch;
        insert_ids(&mut self.node_ids, &batch.node_ids);
        let ghost old_ways = self.ways@;
        self.ways.append(&mut batch.ways);
        // the relation ways are taken out last first, then stored first first
        let mut reversed: Vec<WayRecord> = Vec::new();
        while batch.relation_ways.len() > 0
            invariant
                batch.relation_ways@ == all.subrange(0, batch.relation_ways@.len() as int),
                batch.relation_ways@.len() <= all.len(),
                reversed@ == all.subrange(batch.relation_ways@.len() as int, all.len() as int).reverse(),
            decreases batch.relation_ways.len(),
        {
            let ghost n = batch.relation_ways@.len();
            let w = batch.relation_ways.pop().unwrap();
            reversed.push(w);
            assert(reversed@ =~= all.subrange(n - 1, all.len() as int).reverse());
        }
        let ghost keyed = keyed_ways(all);
        let ghost mut i: int = 0;
        assert(self.relation_ways@ == store_of(old_map, keyed.subrange(0, 0))) by {
            assert(keyed.subrange(0, 0) =~= Seq::<(u64, WayRecord)>::empty());
        }
        while reversed.len() > 0
            invariant
                0 <= i <= all.len(),
                keyed == keyed_ways(all),
                self.seen == old(self).seen,
                self.wanted == old(self).wanted,
                self.stops == old(self).stops,
                self.records == old(self).records,
                self.ways@ == old_ways + added,
                self.node_ids@ == old(self).node_ids@ + bnodes.to_set(),
                reversed@ == all.subrange(i, all.len() as int).reverse(),
                self.relation_ways@ == store_of(old_map, keyed.subrange(0, i)),
            decreases reversed.len(),
        {
            let w = reversed.pop().unwrap();
            assert(w == all[i]);
            self.relation_ways.insert(w.id, w);
            proof {
                assert(keyed.subrange(0, i + 1).drop_last() =~= keyed.subrange(0, i));
                assert(keyed.subrange(0, i + 1).last() == (all[i].id, all[i]));
                i = i + 1;
                assert(reversed@ =~= all.subrange(i, all.len() as int).reverse());
            }
        }
        proof {
            assert(keyed.subrange(0, i) =~= keyed);
            assert(keyed_ways(old_records + all) =~= keyed_ways(old_records) + keyed);
            lemma_store_concat(Map::empty(), keyed_ways(old_records), keyed);
            lemma_nodes_of_concat(old_records, all);
            lemma_nodes_of_concat(old_ways, added);
            assert(self.node_ids@ =~= self.stops@ + nodes_of(old_records + all) + nodes_of(
                self.ways@,
            ));
            lemma_store_entries(old_map, keyed);
        }
        self.seen = Ghost(self.seen@ + bseen);
        self.records = Ghost(old_records + all);
        proof {
            let recs = self.records@;
            assert forall|k: int| 0 <= k < recs.len() implies self.wanted@.contains(
                (#[trigger] recs[k]).id,
            ) && self.seen@.contains(recs[k].id) by {
                if k >= old_records.len() {
                    assert(recs[k] == all[k - old_records.len()]);
                } else {
                    assert(recs[k] == old_records[k]);
                }
            }
            assert forall|id: u64|
                self.seen@.contains(id) && self.wanted@.contains(id) implies #[trigger] self.relation_ways@.contains_key(id) by {
                if !old(self).seen@.contains(id) {
                    assert(bseen.contains(id));
                    let k = choose|k: int| 0 <= k < all.len() && (#[trigger] all[k]).id == id;
                    assert(keyed[k].0 == id);
                } else {
                    assert(old_map.contains_key(id));
                }
            }
            assert forall|id: u64| #[trigger] self.relation_ways@.contains_key(id) implies {
                &&& self.wanted@.contains(id)
                &&& self.seen@.contains(id)
                &&& self.relation_ways@[id].id == id
                &&& ids_within(self.relation_ways@[id].nodes@, self.node_ids@)
            } by {
                if exists|k: int| 0 <= k < keyed.len() && keyed[k] == (id, self.relation_ways@[id]) {
                    let k = choose|k: int| 0 <= k < keyed.len() && keyed[k] == (id, self.relation_ways@[id]);
                    assert(all[k] == self.relation_ways@[id]);
                    assert forall|j: int| 0 <= j < all[k].nodes@.len() implies self.node_ids@.contains(
                        #[trigger] all[k].nodes@[j],
                    ) by {
                        assert(nodes_of(all).contains(all[k].nodes@[j]));
                    }
                } else {
                    assert(old_map.contains_key(id));
                }
            }
            assert forall|k: int| 0 <= k < self.ways.len() implies {
                &&& (#[trigger] self.ways@[k]).nodes@.len() > 0
                &&& ids_within(self.ways@[k].nodes@, self.node_ids@)
            } by {
                if k >= old_ways.len() {
                    assert(self.ways@[k] == added[k - old_ways.len()]);
                    assert forall|j: int| 0 <= j < self.ways@[k].nodes@.len() implies self.node_ids@.contains(#[trigger] self.ways@[k].nodes@[j]) by {
                        assert(nodes_of(added).contains(added[k - old_ways.len()].nodes@[j]));
                    }
                } else {
                    assert(self.ways@[k] == old_ways[k]);
                }
            }
        }
    }
}

/// What one worker of the node pass has found: the wanted nodes, by id. The
/// ghost sets are the nodes seen so far and the ids that were wanted.
pub struct NodeBatch {
    pub nodes: Vec<(u64, NodeRecord)>,
    pub seen: Ghost<Set<u64>>,
    pub wanted: Ghost<Set<u64>>,
}

impl NodeBatch {
    /// The batch holds exactly the wanted nodes among those seen.
    pub open spec fn wf(&self) -> bool {
        &&& forall|k: int|
            0 <= k < self.nodes.len() ==> self.wanted@.contains((#[trigger] self.nodes@[k]).0)
                && self.seen@.contains(self.nodes@[k].0)
        &&& forall|id: u64|
            self.seen@.contains(id) && self.wanted@.contains(id) ==> exists|k: int|
                0 <= k < self.nodes.len() && (#[trigger] self.nodes@[k]).0 == id
    }

    pub fn new(wanted: &HashSet<u64>) -> (r: Self)
        ensures
            r.wf(),
            r.wanted@ == wanted@,
            r.seen@ == Set::<u64>::empty(),
            r.nodes@.len() == 0,
    {
        NodeBatch { nodes: Vec::new(), seen: Ghost(Set::empty()), wanted: Ghost(wanted@) }
    }

    /// Keeps a node that is wanted.
    pub fn accept(&mut self, node: RawNode, wanted: &HashSet<u64>)
        requires
            old(self).wf(),
            wanted@ == old(self).wanted@,
        ensures
            final(self).wf(),
            final(self).wanted == old(self).wanted,
            final(self).seen@ == old(self).seen@.insert(node.id),
            if wanted@.contains(node.id) {
                &&& final(self).nodes@.len() == old(self).nodes@.len() + 1
                &&& final(self).nodes@.drop_last() == old(self).nodes@
                &&& final(self).nodes@.last().0 == node.id
                &&& final(self).nodes@.last().1.tags == node.tags
                &&& final(self).nodes@.last().1.lat == node.lat
                &&& final(self).nodes@.last().1.lon == node.lon
            } else {
                final(self).nodes@ == old(self).nodes@
            },
    {
        let id = node.id;
        if wanted.contains(&id) {
            let record = NodeRecord { tags: node.tags, lat: node.lat, lon: node.lon };
            self.nodes.push((id, record));
            assert(self.nodes@.drop_last() =~= old(self).nodes@);
        }
        self.seen = Ghost(self.seen@.insert(id));
        proof {
            let old_nodes = old(self).nodes@;
            assert forall|x: u64| self.seen@.contains(x) && self.wanted@.contains(x) implies exists|k: int|
                0 <= k < self.nodes.len() && (#[trigger] self.nodes@[k]).0 == x by {
                if x == id {
                    assert(self.nodes@[self.nodes.len() - 1].0 == x);
                } else {
                    let k = choose|k: int| 0 <= k < old_nodes.len() && (#[trigger] old_nodes[k]).0 == x;
                    assert(self.nodes@[k] == old_nodes[k]);
                }
            }
            assert forall|k: int| 0 <= k < self.nodes.len() implies self.wanted@.contains(
                (#[trigger] self.nodes@[k]).0,
            ) && self.seen@.contains(self.nodes@[k].0) by {
                if k < old_nodes.len() {
                    assert(self.nodes@[k] == old_nodes[k]);
                }
            }
        }
    }
}

/// The outcome of the node pass: the wanted nodes by id. The ghost fields
/// are the nodes seen, the ids wanted, and every node kept, in worker order.
pub struct NodeStage {
    pub nodes: HashMap<u64, NodeRecord>,
    pub seen: Ghost<Set<u64>>,
    pub wanted: Ghost<Set<u64>>,
    pub records: Ghost<Seq<(u64, NodeRecord)>>,
}

impl NodeStage {
    /// The nodes are the kept nodes by id, a later one replacing an earlier
    /// one with the same id, and exactly the wanted nodes among those seen.
    pub open spec fn wf(&self) -> bool {
        &&& self.nodes@ == store_of(Map::empty(), self.records@)
        &&& forall|k: int|
            0 <= k < self.records@.len() ==> self.wanted@.contains((#[trigger] self.records@[k]).0)
                && self.seen@.contains(self.records@[k].0)
        &&& forall|id: u64|
            #[trigger] self.nodes@.contains_key(id) <==> self.wanted@.contains(id)
                && self.seen@.contains(id)
    }

    pub fn new(wanted: &HashSet<u64>) -> (r: Self)
        ensures
            r.wf(),
            r.wanted@ == wanted@,
            r.seen@ == Set::<u64>::empty(),
            r.records@.len() == 0,
            r.nodes@ == Map::<u64, NodeRecord>::empty(),
    {
        NodeStage {
            nodes: HashMap::new(),
            seen: Ghost(Set::empty()),
            wanted: Ghost(wanted@),
            records: Ghost(Seq::empty()),
        }
    }

    /// Adds what one worker found, after what the workers before it found;
    /// its nodes are stored in their order, so of two with one id the later
    /// is kept.
    pub fn absorb(&mut self, batch: NodeBatch)
        requires
            old(self).wf(),
            batch.wf(),
            batch.wanted == old(self).wanted,
        ensures
            final(self).wf(),
            final(self).wanted == old(self).wanted,
            final(self).seen@ == old(self).seen@ + batch.seen@,
            final(self).records@ == old(self).records@ + batch.nodes@,
            final(self).nodes@ == store_of(old(self).nodes@, batch.nodes@),
    {
        let ghost all = batch.nodes@;
        let ghost bseen = batch.seen@;
        let ghost old_map = self.nodes@;
        let ghost old_records = self.records@;
        assert(forall|k: int| 0 <= k < all.len() ==> self.wanted@.contains((#[trigger] all[k]).0) && bseen.contains(all[k].0));
        assert(forall|id: u64| bseen.contains(id) && self.wanted@.contains(id) ==> exists|k: int| 0 <= k < all.len() && (#[trigger] all[k]).0 == id);
        let mut batch = batch;
        // the nodes are taken out last first, then stored first first
        let mut reversed: Vec<(u64, NodeRecord)> = Vec::new();
        while batch.nodes.len() > 0
            invariant
                batch.nodes@ == all.subrange(0, batch.nodes@.len() as int),
                batch.nodes@.len() <= all.len(),
                reversed@ == all.subrange(batch.nodes@.len() as int, all.len() as int).reverse(),
            decreases batch.nodes.len(),
        {
            let ghost n = batch.nodes@.len();
            let entry = batch.nodes.pop().unwrap();
            reversed.push(entry);
            assert(reversed@ =~= all.subrange(n - 1, all.len() as int).reverse());
        }
        let ghost mut i: int = 0;
        assert(self.nodes@ == store_of(old_map, all.subrange(0, 0))) by {
            assert(all.subrange(0, 0) =~= Seq::<(u64, NodeRecord)>::empty());
        }
        while reversed.len() > 0
            invariant
                0 <= i <= all.len(),
                self.seen == old(self).seen,
                self.wanted == old(self).wanted,
                self.records == old(self).records,
                reversed@ == all.subrange(i, all.len() as int).reverse(),
                self.nodes@ == store_of(old_map, all.subrange(0, i)),
            decreases reversed.len(),
        {
            let (id, record) = reversed.pop().unwrap();
            assert((id, record) == all[i]);
            self.nodes.insert(id, record);
            proof {
                assert(all.subrange(0, i + 1).drop_last() =~= all.subrange(0, i));
                i = i + 1;
                assert(reversed@ =~= all.subrange(i, all.len() as int).reverse());
            }
        }
        proof {
            assert(all.subrange(0, i) =~= all);
            lemma_store_concat(Map::empty(), old_records, all);
            lemma_store_entries(old_map, all);
        }
        self.seen = Ghost(self.seen@ + bseen);
        self.records = Ghost(old_records + all);
        proof {
            let recs = self.records@;
            assert forall|k: int| 0 <= k < recs.len() implies self.wanted@.contains(
                (#[trigger] recs[k]).0,
            ) && self.seen@.contains(recs[k].0) by {
                if k >= old_records.len() {
                    assert(recs[k] == all[k - old_records.len()]);
                } else {
                    assert(recs[k] == old_records[k]);
                }
            }
            assert forall|id: u64|
                #[trigger] self.nodes@.contains_key(id) <==> self.wanted@.contains(id)
                    && self.seen@.contains(id) by {
                if self.nodes@.contains_key(id) && !old_map.contains_key(id) {
                    let k = choose|k: int| 0 <= k < all.len() && all[k].0 == id;
                    assert(self.wanted@.contains((all[k]).0));
                }
                if self.wanted@.contains(id) && bseen.contains(id) && !old(self).seen@.contains(id) {
                    let k = choose|k: int| 0 <= k < all.len() && (#[trigger] all[k]).0 == id;
                    assert(all[k].0 == id);
                }
            }
        }
    }
}

} // verus!

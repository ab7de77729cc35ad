//! A bounding-box query: which primitives it selects, and the features that they
//! become.
//!
//! The spatial scan of the box and the conversion of vertices to degrees are
//! done by the caller. A query therefore takes two steps: [`plan_query`] selects
//! the primitives and drafts their features, and [`osmflat_query`] completes the
//! drafts with what was measured of them.
use osmflat::Osm;
use vstd::prelude::*;
use vstd::string::*;

use crate::archive;
use crate::archive::{relation_at, ArchiveContents, IndexRange};
use crate::feature;
use crate::feature::{
    check_node_readable, check_relation_known, check_way_readable, materialize_node,
    materialize_relation, materialize_way, Draft, DraftView, FeatureView, Line, OsmflatGeomType,
    OsmflatOsmType, OwnedFeature, RelationFacts, RelationShape,
};
use crate::featureset::OsmflatFeatureSet;
use crate::filter;
use crate::filter::{FilterTerm, Term};
use crate::handle::{OsmflatArchive, Prim, Sidecar, ValueView};
use crate::land;
use crate::land::{land_features, Bbox, LandRing};
use crate::members;
use crate::members::{check_rels_in_archive, expand_member_pairs};
use crate::order;
use crate::order::{in_draw_order, OsmflatOrder};
use crate::select;
use crate::select::{candidate_indices, check_terms_answerable, relations_matching_all};
use crate::sorted;
use crate::sorted::{ascending_contains, sorted_unique};
use crate::tags;
use crate::tags::is_area_relation;

verus! {

/// What is asked of an archive.
pub struct Query<'a> {
    pub bbox: Bbox,
    pub include_nodes: bool,
    pub include_ways: bool,
    pub include_relations: bool,
    /// The tags whose values the features carry.
    pub keys: Vec<&'a [u8]>,
    /// Terms of which a primitive has to match any, as far as an index tells.
    pub filters: Vec<FilterTerm<'a>>,
    /// Terms all of which a relation has to match for its members to be emitted.
    pub member_filters: Vec<FilterTerm<'a>>,
    pub order: OsmflatOrder,
}

/// A query as the contracts speak of it.
pub struct QueryView {
    pub bbox: Bbox,
    pub include_nodes: bool,
    pub include_ways: bool,
    pub include_relations: bool,
    pub keys: Seq<Seq<u8>>,
    pub filters: Seq<Term>,
    pub member_filters: Seq<Term>,
    pub order: OsmflatOrder,
}

impl<'a> View for Query<'a> {
    type V = QueryView;

    open spec fn view(&self) -> QueryView {
        QueryView {
            bbox: self.bbox,
            include_nodes: self.include_nodes,
            include_ways: self.include_ways,
            include_relations: self.include_relations,
            keys: tags::keys_view(self.keys@),
            filters: filter::terms_view(self.filters@),
            member_filters: filter::terms_view(self.member_filters@),
            order: self.order,
        }
    }
}

/// The primitives that the spatial scan of the bounding box found, in the order
/// in which it found them.
#[derive(Debug)]
pub struct BboxScan {
    pub nodes: Vec<u64>,
    pub ways: Vec<u64>,
    pub relations: Vec<u64>,
}

/// The primitives of one kind that the scan found.
pub open spec fn scanned(scan: BboxScan, prim: Prim) -> Seq<u64> {
    match prim {
        Prim::Node => scan.nodes@,
        Prim::Way => scan.ways@,
        Prim::Relation => scan.relations@,
    }
}

/// The query asks for primitives of this kind.
pub open spec fn included(q: QueryView, prim: Prim) -> bool {
    match prim {
        Prim::Node => q.include_nodes,
        Prim::Way => q.include_ways,
        Prim::Relation => q.include_relations,
    }
}

/// The primitives that pass the bounding box and the tag terms: with an index and
/// at least one term those that the index lists under any of them, ascending;
/// else all that the scan found.
pub open spec fn candidates(
    rows: Option<Seq<ValueView>>,
    terms: Seq<Term>,
    found: Seq<u64>,
    prim: Prim,
) -> Seq<u64> {
    match rows {
        Some(rows) if terms.len() > 0 => sorted::listing(
            |i: u64| found.contains(i) && select::posted_under_any(rows, terms, prim, i),
        ),
        _ => found,
    }
}

/// A primitive that a query emits, and the relation as whose member it was found.
#[derive(Clone, Copy, Debug, PartialEq, Eq, Structural)]
pub struct Pick {
    pub index: u64,
    pub parent: Option<u64>,
}

/// `pair` is a member and one of its relations that matches all of the member
/// terms, and the member passes the bounding box and the tag terms.
pub open spec fn member_selected(
    c: ArchiveContents,
    rows: Option<Seq<ValueView>>,
    q: QueryView,
    scan: BboxScan,
    prim: Prim,
    pair: (u64, u64),
) -> bool {
    &&& select::relation_satisfies_all(c, rows, pair.1, q.member_filters)
    &&& members::is_member(c, prim, pair.0, pair.1)
    &&& candidates(rows, q.filters, scanned(scan, prim), prim).contains(pair.0)
}

/// The members that are emitted, each with one of its relations, ascending.
pub open spec fn selected_pairs(
    c: ArchiveContents,
    rows: Option<Seq<ValueView>>,
    q: QueryView,
    scan: BboxScan,
    prim: Prim,
) -> Seq<(u64, u64)> {
    sorted::listing(|pair: (u64, u64)| member_selected(c, rows, q, scan, prim, pair))
}

/// Primitives that were found as members.
pub open spec fn picks_of_pairs(pairs: Seq<(u64, u64)>) -> Seq<Pick> {
    Seq::new(pairs.len(), |k: int| Pick { index: pairs[k].0, parent: Some(pairs[k].1) })
}

/// Primitives that were found on their own.
pub open spec fn picks_of_list(list: Seq<u64>) -> Seq<Pick> {
    Seq::new(list.len(), |k: int| Pick { index: list[k], parent: None })
}

/// The query emits nodes and ways as members only.
pub open spec fn by_membership(q: QueryView, prim: Prim) -> bool {
    q.member_filters.len() > 0 && prim != Prim::Relation
}

/// The primitives of one kind that a query emits, in order.
pub open spec fn picks(
    c: ArchiveContents,
    rows: Option<Seq<ValueView>>,
    q: QueryView,
    scan: BboxScan,
    prim: Prim,
) -> Seq<Pick> {
    if !included(q, prim) {
        Seq::empty()
    } else if by_membership(q, prim) {
        picks_of_pairs(selected_pairs(c, rows, q, scan, prim))
    } else {
        picks_of_list(candidates(rows, q.filters, scanned(scan, prim), prim))
    }
}

/// The tags of a parent relation.
pub open spec fn parent_tags(c: ArchiveContents, parent: Option<u64>) -> Option<IndexRange> {
    match parent {
        Some(r) => Some(c.relations[r as int].tags),
        None => None,
    }
}

/// What the selected nodes become.
pub open spec fn node_drafts(c: ArchiveContents, keys: Seq<Seq<u8>>, ps: Seq<Pick>) -> Seq<
    DraftView,
> {
    Seq::new(
        ps.len(),
        |k: int| feature::node_draft(c, ps[k].index, keys, parent_tags(c, ps[k].parent)),
    )
}

/// What the selected ways become.
pub open spec fn way_drafts(c: ArchiveContents, keys: Seq<Seq<u8>>, ps: Seq<Pick>) -> Seq<DraftView>
    decreases ps.len(),
{
    if ps.len() == 0 {
        Seq::empty()
    } else {
        let rest = way_drafts(c, keys, ps.drop_last());
        match feature::way_draft(c, ps.last().index, keys, parent_tags(c, ps.last().parent)) {
            Some(d) => rest.push(d),
            None => rest,
        }
    }
}

/// Those of the selected relations that stand for an area.
pub open spec fn area_relations(c: ArchiveContents, ps: Seq<Pick>) -> Seq<u64>
    decreases ps.len(),
{
    if ps.len() == 0 {
        Seq::empty()
    } else {
        let rest = area_relations(c, ps.drop_last());
        if feature::is_area(c, ps.last().index) {
            rest.push(ps.last().index)
        } else {
            rest
        }
    }
}

/// The parent relation of a selected primitive exists, and of the primitive can be
/// read what its draft asks for; of a relation, whether it stands for an area.
pub open spec fn pick_readable(
    c: ArchiveContents,
    prim: Prim,
    keys: Seq<Seq<u8>>,
    p: Pick,
) -> bool {
    &&& p.parent matches Some(r) ==> r < c.relations.len()
    &&& match prim {
        Prim::Node => feature::node_readable(c, p.index, keys, parent_tags(c, p.parent)),
        Prim::Way => feature::way_readable(c, p.index, keys, parent_tags(c, p.parent)),
        Prim::Relation => feature::relation_known(c, p.index),
    }
}

pub open spec fn picks_readable(
    c: ArchiveContents,
    prim: Prim,
    keys: Seq<Seq<u8>>,
    ps: Seq<Pick>,
) -> bool {
    forall|k: int| 0 <= k < ps.len() ==> pick_readable(c, prim, keys, #[trigger] ps[k])
}

/// The relations that match the member terms can be found and expanded.
pub open spec fn members_expandable(
    c: ArchiveContents,
    rows: Option<Seq<ValueView>>,
    terms: Seq<Term>,
) -> bool {
    &&& select::terms_answerable(c, rows, terms)
    &&& forall|r: u64| #[trigger]
        select::relation_satisfies_all(c, rows, r, terms) ==> r < c.members.len()
}

/// The member list of every relation that matches the member terms decodes, where
/// there is one.
pub open spec fn matched_lists_decode(
    c: ArchiveContents,
    rows: Option<Seq<ValueView>>,
    terms: Seq<Term>,
) -> bool {
    forall|r: u64| #[trigger]
        select::relation_satisfies_all(c, rows, r, terms) && r < c.members.len()
            ==> c.members[r as int] is Some
}

/// Everything that the query has to read from the archive can be read.
pub open spec fn query_readable(
    c: ArchiveContents,
    rows: Option<Seq<ValueView>>,
    q: QueryView,
    scan: BboxScan,
) -> bool {
    &&& members_expandable(c, rows, q.member_filters)
    &&& picks_readable(c, Prim::Node, q.keys, picks(c, rows, q, scan, Prim::Node))
    &&& picks_readable(c, Prim::Way, q.keys, picks(c, rows, q, scan, Prim::Way))
    &&& picks_readable(c, Prim::Relation, q.keys, picks(c, rows, q, scan, Prim::Relation))
}

pub open spec fn drafts_view(drafts: Seq<Draft>) -> Seq<DraftView> {
    Seq::new(drafts.len(), |k: int| drafts[k]@)
}

/// What a query emits, before its geometry is measured: drafts of its nodes and
/// then its ways, and the area relations.
#[derive(Debug)]
pub struct QueryPlan {
    pub drafts: Vec<Draft>,
    pub relations: Vec<u64>,
}

/// A plan as the contracts speak of it.
#[verifier::ext_equal]
pub struct PlanView {
    pub drafts: Seq<DraftView>,
    pub relations: Seq<u64>,
}

impl View for QueryPlan {
    type V = PlanView;

    open spec fn view(&self) -> PlanView {
        PlanView { drafts: drafts_view(self.drafts@), relations: self.relations@ }
    }
}

/// The plan of a query.
pub open spec fn planned(
    c: ArchiveContents,
    rows: Option<Seq<ValueView>>,
    q: QueryView,
    scan: BboxScan,
) -> PlanView {
    PlanView {
        drafts: node_drafts(c, q.keys, picks(c, rows, q, scan, Prim::Node)) + way_drafts(
            c,
            q.keys,
            picks(c, rows, q, scan, Prim::Way),
        ),
        relations: area_relations(c, picks(c, rows, q, scan, Prim::Relation)),
    }
}

/// Every relation of a plan exists and stands for an area.
pub open spec fn all_areas(c: ArchiveContents, relations: Seq<u64>) -> bool {
    forall|k: int|
        0 <= k < relations.len() ==> feature::relation_known(c, #[trigger] relations[k])
            && feature::is_area(c, relations[k])
}

fn passing(handle: &OsmflatArchive, filters: &[FilterTerm], found: &[u64], prim: Prim) -> (r: Vec<
    u64,
>)
    ensures
        r@ == candidates(handle.rows(), filter::terms_view(filters@), found@, prim),
{
    match candidate_indices(handle, filters, found, prim) {
        Some(v) => {
            proof {
                let rows = handle.rows()->0;
                let terms = filter::terms_view(filters@);
                sorted::there_is_one_listing(
                    v@,
                    |i: u64|
                        found@.contains(i) && select::posted_under_any(rows, terms, prim, i),
                );
            }
            v
        },
        None => vstd::slice::slice_to_vec(found),
    }
}

fn list_to_picks(list: &Vec<u64>) -> (r: Vec<Pick>)
    ensures
        r@ == picks_of_list(list@),
{
    let mut r: Vec<Pick> = Vec::new();
    let mut k: usize = 0;
    while k < list.len()
        invariant
            k <= list@.len(),
            r@ == picks_of_list(list@.take(k as int)),
        decreases list@.len() - k,
    {
        r.push(Pick { index: list[k], parent: None });
        assert(r@ =~= picks_of_list(list@.take(k + 1)));
        k = k + 1;
    }
    assert(list@.take(k as int) =~= list@);
    r
}

/// The pairs whose member is allowed.
fn keep_allowed(pairs: &Vec<(u64, u64)>, allowed: &Vec<u64>) -> (r: Vec<(u64, u64)>)
    requires
        sorted::ascending(pairs@),
        sorted::ascending(allowed@),
    ensures
        sorted::ascending(r@),
        forall|p: (u64, u64)| #[trigger]
            r@.contains(p) <==> pairs@.contains(p) && allowed@.contains(p.0),
{
    let mut r: Vec<(u64, u64)> = Vec::new();
    let mut k: usize = 0;
    while k < pairs.len()
        invariant
            k <= pairs@.len(),
            sorted::ascending(pairs@),
            sorted::ascending(allowed@),
            sorted::ascending(r@),
            forall|p: (u64, u64)| #[trigger]
                r@.contains(p) <==> pairs@.take(k as int).contains(p) && allowed@.contains(p.0),
        decreases pairs@.len() - k,
    {
        let ghost before = r@;
        let ghost done = pairs@.take(k as int);
        let pair: (u64, u64) = pairs[k];
        let hit: bool = ascending_contains(allowed.as_slice(), pair.0);
        if hit {
            r.push(pair);
        }
        proof {
            assert(pairs@.take(k + 1) =~= done.push(pair));
            assert forall|i: int, j: int| 0 <= i < j < r@.len() implies sorted::Ranked::before(
                #[trigger] r@[i],
                #[trigger] r@[j],
            ) by {
                assert(before.contains(before[i]));
                if hit && j == before.len() {
                    assert(done.contains(before[i]));
                    let m = choose|m: int| 0 <= m < done.len() && done[m] == before[i];
                    assert(sorted::Ranked::before(pairs@[m], pairs@[k as int]));
                }
            }
            assert forall|p: (u64, u64)| #[trigger] r@.contains(p) <==> done.push(pair).contains(p)
                && allowed@.contains(p.0) by {
                assert(before.contains(p) <==> done.contains(p) && allowed@.contains(p.0));
                sorted::lemma_contains_in_push(done, pair, p);
                sorted::lemma_contains_in_push(before, pair, p);
            }
        }
        k = k + 1;
    }
    assert(pairs@.take(k as int) =~= pairs@);
    r
}

fn pairs_to_picks(pairs: &Vec<(u64, u64)>) -> (r: Vec<Pick>)
    ensures
        r@ == picks_of_pairs(pairs@),
{
    let mut r: Vec<Pick> = Vec::new();
    let mut k: usize = 0;
    while k < pairs.len()
        invariant
            k <= pairs@.len(),
            r@ == picks_of_pairs(pairs@.take(k as int)),
        decreases pairs@.len() - k,
    {
        r.push(Pick { index: pairs[k].0, parent: Some(pairs[k].1) });
        assert(r@ =~= picks_of_pairs(pairs@.take(k + 1)));
        k = k + 1;
    }
    assert(pairs@.take(k as int) =~= pairs@);
    r
}

/// The members among the pairs that pass, as picks.
fn pick_members(
    handle: &OsmflatArchive,
    query: &Query,
    scan: &BboxScan,
    rels: &Vec<u64>,
    pairs: &Vec<(u64, u64)>,
    prim: Prim,
) -> (r: Vec<Pick>)
    requires
        sorted::ascending(pairs@),
        forall|x: u64| #[trigger]
            rels@.contains(x) <==> select::relation_satisfies_all(
                handle.contents(),
                handle.rows(),
                x,
                query@.member_filters,
            ),
        forall|p: (u64, u64)| #[trigger]
            pairs@.contains(p) <==> members::member_pair(handle.contents(), prim, rels@, p),
    ensures
        r@ == picks_of_pairs(
            selected_pairs(handle.contents(), handle.rows(), query@, *scan, prim),
        ),
{
    let ghost c = handle.contents();
    let ghost rows = handle.rows();
    let found: &Vec<u64> = match prim {
        Prim::Node => &scan.nodes,
        Prim::Way => &scan.ways,
        Prim::Relation => &scan.relations,
    };
    let passing = passing(handle, query.filters.as_slice(), found.as_slice(), prim);
    let allowed = sorted_unique(passing.as_slice());
    let kept = keep_allowed(pairs, &allowed);
    proof {
        let holds = |pair: (u64, u64)| member_selected(c, rows, query@, *scan, prim, pair);
        assert forall|p: (u64, u64)| #[trigger] kept@.contains(p) <==> holds(p) by {
            assert(kept@.contains(p) <==> pairs@.contains(p) && allowed@.contains(p.0));
            assert(pairs@.contains(p) <==> members::member_pair(c, prim, rels@, p));
            assert(allowed@.contains(p.0) <==> passing@.contains(p.0));
            assert(rels@.contains(p.1) <==> select::relation_satisfies_all(
                c,
                rows,
                p.1,
                query@.member_filters,
            ));
        }
        sorted::there_is_one_listing(kept@, holds);
    }
    pairs_to_picks(&kept)
}

/// The nodes, ways and relations that a query emits; `None` when the relations
/// that match its member terms cannot be found or expanded.
fn pick_all(handle: &OsmflatArchive, query: &Query, scan: &BboxScan) -> (r: Option<
    (Vec<Pick>, Vec<Pick>, Vec<Pick>),
>)
    requires
        matched_lists_decode(handle.contents(), handle.rows(), query@.member_filters),
    ensures
        match r {
            Some(p) => {
                &&& members_expandable(handle.contents(), handle.rows(), query@.member_filters)
                &&& p.0@ == picks(handle.contents(), handle.rows(), query@, *scan, Prim::Node)
                &&& p.1@ == picks(handle.contents(), handle.rows(), query@, *scan, Prim::Way)
                &&& p.2@ == picks(handle.contents(), handle.rows(), query@, *scan, Prim::Relation)
            },
            None => !members_expandable(handle.contents(), handle.rows(), query@.member_filters),
        },
{
    let filters: &[FilterTerm] = query.filters.as_slice();
    let mut nodes: Vec<Pick> = Vec::new();
    let mut ways: Vec<Pick> = Vec::new();
    let mut relations: Vec<Pick> = Vec::new();
    if query.member_filters.len() > 0 {
        let terms: &[FilterTerm] = query.member_filters.as_slice();
        if !check_terms_answerable(handle, terms) {
            return None;
        }
        let rels = relations_matching_all(handle, terms);
        if !check_rels_in_archive(handle.osm(), rels.as_slice()) {
            proof {
                let k = choose|k: int|
                    0 <= k < rels@.len() && !(#[trigger] rels@[k]
                        < handle.contents().members.len());
                assert(rels@.contains(rels@[k]));
            }
            return None;
        }
        proof {
            assert forall|r: u64| #[trigger]
                select::relation_satisfies_all(
                    handle.contents(),
                    handle.rows(),
                    r,
                    query@.member_filters,
                ) implies r < handle.contents().members.len() by {
                assert(rels@.contains(r));
            }
            assert forall|k: int| 0 <= k < rels@.len() implies handle.contents().members[
            #[trigger] rels@[k] as int] is Some by {
                assert(rels@.contains(rels@[k]));
            }
        }
        let (node_pairs, way_pairs) = expand_member_pairs(
            handle.osm(),
            rels.as_slice(),
            query.include_nodes,
            query.include_ways,
        );
        if query.include_nodes {
            nodes = pick_members(handle, query, scan, &rels, &node_pairs, Prim::Node);
        }
        if query.include_ways {
            ways = pick_members(handle, query, scan, &rels, &way_pairs, Prim::Way);
        }
    } else {
        if query.include_nodes {
            nodes = list_to_picks(&passing(handle, filters, scan.nodes.as_slice(), Prim::Node));
        }
        if query.include_ways {
            ways = list_to_picks(&passing(handle, filters, scan.ways.as_slice(), Prim::Way));
        }
    }
    if query.include_relations {
        relations =
        list_to_picks(&passing(handle, filters, scan.relations.as_slice(), Prim::Relation));
    }
    Some((nodes, ways, relations))
}

/// The tags of the parent relation of a pick; `None` when there is no such
/// relation.
fn read_parent(osm: &Osm, parent: Option<u64>) -> (r: Option<Option<IndexRange>>)
    ensures
        match r {
            Some(t) => (parent matches Some(x) ==> x < archive::archive_contents(
                *osm,
            ).relations.len()) && t == parent_tags(archive::archive_contents(*osm), parent),
            None => parent matches Some(x) && x >= archive::archive_contents(*osm).relations.len(),
        },
{
    match parent {
        Some(x) => match relation_at(osm, x) {
            Some(relation) => Some(Some(relation.tags)),
            None => None,
        },
        None => Some(None),
    }
}

fn draft_nodes(osm: &Osm, keys: &[&[u8]], ps: &Vec<Pick>) -> (r: Option<Vec<Draft>>)
    ensures
        match r {
            Some(d) => picks_readable(
                archive::archive_contents(*osm),
                Prim::Node,
                tags::keys_view(keys@),
                ps@,
            )
                && drafts_view(d@) == node_drafts(
                archive::archive_contents(*osm),
                tags::keys_view(keys@),
                ps@,
            ),
            None => !picks_readable(
                archive::archive_contents(*osm),
                Prim::Node,
                tags::keys_view(keys@),
                ps@,
            ),
        },
{
    let ghost c = archive::archive_contents(*osm);
    let ghost names = tags::keys_view(keys@);
    let mut d: Vec<Draft> = Vec::new();
    let mut k: usize = 0;
    while k < ps.len()
        invariant
            k <= ps@.len(),
            c == archive::archive_contents(*osm),
            names == tags::keys_view(keys@),
            d@.len() == k,
            forall|j: int| 0 <= j < k ==> pick_readable(c, Prim::Node, names, #[trigger] ps@[j]),
            forall|j: int| 0 <= j < k ==> (#[trigger] d@[j])@ == node_drafts(c, names, ps@)[j],
        decreases ps@.len() - k,
    {
        let p: Pick = ps[k];
        match read_parent(osm, p.parent) {
            Some(rel_tags) if check_node_readable(osm, p.index, keys, rel_tags) => {
                d.push(materialize_node(osm, p.index, keys, rel_tags));
            },
            _ => {
                assert(!pick_readable(c, Prim::Node, names, ps@[k as int]));
                return None;
            },
        }
        k = k + 1;
    }
    assert(drafts_view(d@) =~= node_drafts(c, names, ps@));
    Some(d)
}

fn draft_ways(osm: &Osm, keys: &[&[u8]], ps: &Vec<Pick>) -> (r: Option<Vec<Draft>>)
    ensures
        match r {
            Some(d) => picks_readable(
                archive::archive_contents(*osm),
                Prim::Way,
                tags::keys_view(keys@),
                ps@,
            )
                && drafts_view(d@) == way_drafts(
                archive::archive_contents(*osm),
                tags::keys_view(keys@),
                ps@,
            ),
            None => !picks_readable(
                archive::archive_contents(*osm),
                Prim::Way,
                tags::keys_view(keys@),
                ps@,
            ),
        },
{
    let ghost c = archive::archive_contents(*osm);
    let ghost names = tags::keys_view(keys@);
    let mut d: Vec<Draft> = Vec::new();
    let mut k: usize = 0;
    proof {
        assert(ps@.take(0) =~= Seq::empty());
        assert(drafts_view(d@) =~= Seq::empty());
    }
    while k < ps.len()
        invariant
            k <= ps@.len(),
            c == archive::archive_contents(*osm),
            names == tags::keys_view(keys@),
            forall|j: int| 0 <= j < k ==> pick_readable(c, Prim::Way, names, #[trigger] ps@[j]),
            drafts_view(d@) == way_drafts(c, names, ps@.take(k as int)),
        decreases ps@.len() - k,
    {
        let ghost before = drafts_view(d@);
        let p: Pick = ps[k];
        proof {
            assert(ps@.take(k + 1).drop_last() =~= ps@.take(k as int));
            assert(ps@.take(k + 1).last() == p);
        }
        match read_parent(osm, p.parent) {
            Some(rel_tags) if check_way_readable(osm, p.index, keys, rel_tags) => {
                if let Some(f) = materialize_way(osm, p.index, keys, rel_tags) {
                    d.push(f);
                    assert(drafts_view(d@) =~= before.push(f@));
                }
            },
            _ => {
                assert(!pick_readable(c, Prim::Way, names, ps@[k as int]));
                return None;
            },
        }
        k = k + 1;
    }
    assert(ps@.take(k as int) =~= ps@);
    Some(d)
}

fn find_areas(osm: &Osm, keys: &[&[u8]], ps: &Vec<Pick>) -> (r: Option<Vec<u64>>)
    ensures
        match r {
            Some(v) => picks_readable(
                archive::archive_contents(*osm),
                Prim::Relation,
                tags::keys_view(keys@),
                ps@,
            ) && v@ == area_relations(archive::archive_contents(*osm), ps@) && all_areas(
                archive::archive_contents(*osm),
                v@,
            ),
            None => !picks_readable(
                archive::archive_contents(*osm),
                Prim::Relation,
                tags::keys_view(keys@),
                ps@,
            ),
        },
{
    let ghost names = tags::keys_view(keys@);
    let ghost c = archive::archive_contents(*osm);
    let mut v: Vec<u64> = Vec::new();
    let mut k: usize = 0;
    assert(ps@.take(0) =~= Seq::empty());
    while k < ps.len()
        invariant
            k <= ps@.len(),
            c == archive::archive_contents(*osm),
            forall|j: int| 0 <= j < k ==> pick_readable(c, Prim::Relation, names, #[trigger] ps@[j]),
            v@ == area_relations(c, ps@.take(k as int)),
            all_areas(c, v@),
        decreases ps@.len() - k,
    {
        let p: Pick = ps[k];
        proof {
            assert(ps@.take(k + 1).drop_last() =~= ps@.take(k as int));
            assert(ps@.take(k + 1).last() == p);
        }
        match read_parent(osm, p.parent) {
            Some(_) if check_relation_known(osm, p.index) => {
                let range: IndexRange = relation_at(osm, p.index).unwrap().tags;
                if is_area_relation(osm, range) {
                    v.push(p.index);
                }
            },
            _ => {
                assert(!pick_readable(c, Prim::Relation, names, ps@[k as int]));
                return None;
            },
        }
        k = k + 1;
    }
    assert(ps@.take(k as int) =~= ps@);
    Some(v)
}

/// Selects what a query emits and drafts its features. With member terms, nodes
/// and ways are emitted only as members of a relation that matches all of them,
/// once for each such relation; relations are not affected. `None` when the
/// archive leads nowhere at a place that the query has to read. The member lists
/// of the matching relations have to decode: the archive cannot be asked
/// beforehand whether they do.
pub fn plan_query(handle: &OsmflatArchive, query: &Query, scan: &BboxScan) -> (r: Option<QueryPlan>)
    requires
        matched_lists_decode(handle.contents(), handle.rows(), query@.member_filters),
    ensures
        match r {
            Some(p) => {
                &&& query_readable(handle.contents(), handle.rows(), query@, *scan)
                &&& p@ == planned(handle.contents(), handle.rows(), query@, *scan)
                &&& all_areas(handle.contents(), p.relations@)
            },
            None => !query_readable(handle.contents(), handle.rows(), query@, *scan),
        },
{
    let osm = handle.osm();
    let keys: &[&[u8]] = query.keys.as_slice();
    let (nodes, ways, areas) = match pick_all(handle, query, scan) {
        Some(p) => p,
        None => {
            return None;
        },
    };
    match (draft_nodes(osm, keys, &nodes), draft_ways(osm, keys, &ways), find_areas(osm, keys, &areas)) {
        (Some(mut drafts), Some(mut more), Some(relations)) => {
            let ghost first = drafts_view(drafts@);
            let ghost second = drafts_view(more@);
            drafts.append(&mut more);
            assert(drafts_view(drafts@) =~= first + second);
            Some(QueryPlan { drafts, relations })
        },
        _ => None,
    }
}

/// What the drafts and their measured lines make up.
pub open spec fn line_features(drafts: Seq<DraftView>, lines: Seq<Line>) -> Seq<FeatureView> {
    Seq::new(
        drafts.len(),
        |k: int| feature::line_feature(drafts[k], lines[k].coords@, lines[k].area_m2),
    )
}

/// What the relations and their measured shapes make up.
pub open spec fn shape_features(
    c: ArchiveContents,
    keys: Seq<Seq<u8>>,
    relations: Seq<u64>,
    shapes: Seq<RelationShape>,
) -> Seq<FeatureView>
    decreases relations.len(),
{
    if relations.len() == 0 {
        Seq::empty()
    } else {
        let shape = shapes[relations.len() - 1];
        shape_features(c, keys, relations.drop_last(), shapes) + feature::relation_features(
            c,
            relations.last(),
            keys,
            shape.polygons(),
            shape.chains(),
            shape.area_m2,
        )
    }
}

/// The features of a query as they are found: nodes, ways, relations, and the
/// land polygons last.
pub open spec fn found_features(
    c: ArchiveContents,
    sidecar: Option<Sidecar>,
    q: QueryView,
    plan: PlanView,
    lines: Seq<Line>,
    shapes: Seq<RelationShape>,
) -> Seq<FeatureView> {
    line_features(plan.drafts, lines) + shape_features(c, q.keys, plan.relations, shapes)
        + land::land_of_query(sidecar, q.filters, q.keys, q.bbox)
}

fn reversed<T>(v: Vec<T>) -> (r: Vec<T>)
    ensures
        r@ == v@.reverse(),
{
    let ghost all = v@;
    let mut v = v;
    let mut r: Vec<T> = Vec::new();
    while v.len() > 0
        invariant
            v@.len() + r@.len() == all.len(),
            v@ == all.take(v@.len() as int),
            r@ == all.skip(v@.len() as int).reverse(),
        decreases v@.len(),
    {
        let last = v.pop().unwrap();
        r.push(last);
        assert(v@ =~= all.take(v@.len() as int));
        assert(r@ =~= all.skip(v@.len() as int).reverse());
    }
    assert(all.skip(0) =~= all);
    r
}

fn finish_drafts(drafts: Vec<Draft>, lines: Vec<Line>) -> (r: Vec<OwnedFeature>)
    requires
        drafts@.len() == lines@.len(),
    ensures
        feature::features_view(r@) == line_features(drafts_view(drafts@), lines@),
{
    let ghost ds = drafts@;
    let ghost ls = lines@;
    let mut drafts = reversed(drafts);
    let mut lines = reversed(lines);
    let mut r: Vec<OwnedFeature> = Vec::new();
    while drafts.len() > 0
        invariant
            ds.len() == ls.len(),
            drafts@.len() == lines@.len(),
            drafts@.len() + r@.len() == ds.len(),
            drafts@ == ds.skip(r@.len() as int).reverse(),
            lines@ == ls.skip(r@.len() as int).reverse(),
            forall|k: int|
                0 <= k < r@.len() ==> (#[trigger] r@[k])@ == feature::line_feature(
                    ds[k]@,
                    ls[k].coords@,
                    ls[k].area_m2,
                ),
        decreases drafts@.len(),
    {
        let draft = drafts.pop().unwrap();
        let line = lines.pop().unwrap();
        r.push(draft.finish(line));
        assert(drafts@ =~= ds.skip(r@.len() as int).reverse());
        assert(lines@ =~= ls.skip(r@.len() as int).reverse());
    }
    assert(feature::features_view(r@) =~= line_features(drafts_view(ds), ls));
    r
}

/// Every relation can be read as far as its shape asks.
pub open spec fn shapes_readable(
    c: ArchiveContents,
    keys: Seq<Seq<u8>>,
    relations: Seq<u64>,
    shapes: Seq<RelationShape>,
) -> bool {
    forall|k: int|
        0 <= k < relations.len() ==> feature::relation_readable(
            c,
            #[trigger] relations[k],
            keys,
            shapes[k].nothing(),
        )
}

/// The rings of every shape are those that the sidecar holds, exactly if it holds
/// the rings of relations.
pub open spec fn shapes_from(sidecar: Option<Sidecar>, shapes: Seq<RelationShape>) -> bool {
    forall|k: int|
        0 <= k < shapes.len() ==> ((#[trigger] shapes[k]).rings is Precomputed <==> (
        sidecar matches Some(s) && s.multipolygons))
}

/// The line has the vertices that simplification leaves of the draft's, or more:
/// no more than the draft, and fewer only down to those of a ring or a line.
pub open spec fn line_fits(d: DraftView, line: Line) -> bool {
    let fewest = feature::fewest_vertices(d.is_closed);
    let least = if d.vertices.len() < fewest {
        d.vertices.len() as int
    } else {
        fewest
    };
    &&& line.coords@.len() % 2 == 0
    &&& 2 * least <= line.coords@.len() <= 2 * d.vertices.len()
}

/// There is a line for each draft, and it fits.
pub open spec fn lines_fit(drafts: Seq<DraftView>, lines: Seq<Line>) -> bool {
    &&& lines.len() == drafts.len()
    &&& forall|k: int| 0 <= k < drafts.len() ==> line_fits(#[trigger] drafts[k], lines[k])
}

fn finish_relations(
    osm: &Osm,
    keys: &[&[u8]],
    relations: &Vec<u64>,
    shapes: Vec<RelationShape>,
) -> (r: Vec<OwnedFeature>)
    requires
        relations@.len() == shapes@.len(),
        shapes_readable(
            archive::archive_contents(*osm),
            tags::keys_view(keys@),
            relations@,
            shapes@,
        ),
    ensures
        feature::features_view(r@) == shape_features(
            archive::archive_contents(*osm),
            tags::keys_view(keys@),
            relations@,
            shapes@,
        ),
{
    let ghost c = archive::archive_contents(*osm);
    let ghost names = tags::keys_view(keys@);
    let ghost ss = shapes@;
    let mut shapes = reversed(shapes);
    let mut r: Vec<OwnedFeature> = Vec::new();
    let mut k: usize = 0;
    proof {
        assert(relations@.take(0) =~= Seq::empty());
        assert(feature::features_view(r@) =~= Seq::empty());
        assert(ss.skip(0) =~= ss);
    }
    while k < relations.len()
        invariant
            k <= relations@.len(),
            ss.len() == relations@.len(),
            c == archive::archive_contents(*osm),
            names == tags::keys_view(keys@),
            shapes_readable(c, names, relations@, ss),
            shapes@ == ss.skip(k as int).reverse(),
            feature::features_view(r@) == shape_features(c, names, relations@.take(k as int), ss),
        decreases relations@.len() - k,
    {
        let ghost before = feature::features_view(r@);
        let shape = shapes.pop().unwrap();
        assert(shape == ss[k as int]);
        assert(feature::relation_readable(c, relations@[k as int], names, shape.nothing()));
        let mut more = materialize_relation(osm, relations[k], keys, shape);
        let ghost added = feature::features_view(more@);
        r.append(&mut more);
        proof {
            assert(shapes@ =~= ss.skip(k + 1).reverse());
            assert(relations@.take(k + 1).drop_last() =~= relations@.take(k as int));
            assert(feature::features_view(r@) =~= before + added);
        }
        k = k + 1;
    }
    assert(relations@.take(k as int) =~= relations@);
    r
}

/// The feature set of a query: its drafts completed with their measured lines,
/// the features of its area relations with their measured shapes, and its land
/// polygons, in draw order. `None` for a missing archive.
pub fn osmflat_query(
    archive: Option<&OsmflatArchive>,
    query: &Query,
    plan: QueryPlan,
    lines: Vec<Line>,
    shapes: Vec<RelationShape>,
) -> (r: Option<OsmflatFeatureSet>)
    requires
        archive matches Some(handle) ==> {
            &&& lines_fit(plan@.drafts, lines@)
            &&& shapes@.len() == plan.relations@.len()
            &&& shapes_readable(handle.contents(), query@.keys, plan.relations@, shapes@)
            &&& shapes_from(handle.sidecar(), shapes@)
        },
    ensures
        match (archive, r) {
            (Some(handle), Some(fs)) => {
                let found = found_features(
                    handle.contents(),
                    handle.sidecar(),
                    query@,
                    plan@,
                    lines@,
                    shapes@,
                );
                &&& fs.pos == 0
                &&& fs.all() == order::ordered(query@.order, found)
                &&& fs.all().len() == found.len() <= usize::MAX
            },
            (None, None) => true,
            _ => false,
        },
{
    let handle = match archive {
        Some(handle) => handle,
        None => {
            return None;
        },
    };
    let keys: &[&[u8]] = query.keys.as_slice();
    let ghost found = found_features(
        handle.contents(),
        handle.sidecar(),
        query@,
        plan@,
        lines@,
        shapes@,
    );
    let mut features = finish_drafts(plan.drafts, lines);
    let ghost first = feature::features_view(features@);
    let mut areas = finish_relations(handle.osm(), keys, &plan.relations, shapes);
    let ghost second = feature::features_view(areas@);
    let mut land = land_features(handle, query.filters.as_slice(), keys, query.bbox);
    let ghost third = feature::features_view(land@);
    features.append(&mut areas);
    assert(feature::features_view(features@) =~= first + second);
    features.append(&mut land);
    assert(feature::features_view(features@) =~= first + second + third);
    assert(feature::features_view(features@) == found);
    assert(features.len() == found.len());
    Some(OsmflatFeatureSet { features: in_draw_order(query.order, features), pos: 0 })
}

/// A candidate was found by the scan and, where an index answers, is listed under
/// one of the terms.
pub proof fn candidates_pass_the_box_and_a_term(
    rows: Option<Seq<ValueView>>,
    terms: Seq<Term>,
    found: Seq<u64>,
    prim: Prim,
    i: u64,
)
    ensures
        candidates(rows, terms, found, prim).contains(i) <==> found.contains(i) && (terms.len() == 0
            || (rows matches Some(rs) ==> select::posted_under_any(rs, terms, prim, i))),
{
    if let Some(rs) = rows {
        if terms.len() > 0 {
            let holds = |x: u64|
                found.contains(x) && select::posted_under_any(rs, terms, prim, x);
            let some = found.filter(holds);
            assert forall|x: u64| #[trigger] some.contains(x) <==> holds(x) by {
                lemma_filter_contains(found, holds, x);
            }
            sorted::a_listing_exists(some, holds);
        }
    }
}

proof fn lemma_filter_contains(s: Seq<u64>, holds: spec_fn(u64) -> bool, x: u64)
    ensures
        s.filter(holds).contains(x) <==> s.contains(x) && holds(x),
    decreases s.len(),
{
    reveal(Seq::filter);
    if s.len() > 0 {
        lemma_filter_contains(s.drop_last(), holds, x);
        sorted::lemma_contains_in_push(s.drop_last(), s.last(), x);
        assert(s.drop_last().push(s.last()) =~= s);
        sorted::lemma_contains_in_push(s.drop_last().filter(holds), s.last(), x);
    }
}

/// Some list holds all pairs of a listed value and a number below `n` of which
/// `holds` is true.
proof fn lemma_pairs_can_be_listed(
    list: Seq<u64>,
    n: nat,
    holds: spec_fn((u64, u64)) -> bool,
) -> (s: Seq<(u64, u64)>)
    requires
        forall|p: (u64, u64)| #[trigger] holds(p) ==> list.contains(p.0) && p.1 < n,
    ensures
        sorted::lists(s, holds),
    decreases n,
{
    if n == 0 {
        Seq::empty()
    } else {
        let m = (n - 1) as nat;
        let fewer = |p: (u64, u64)| holds(p) && p.1 < m;
        let s = lemma_pairs_can_be_listed(list, m, fewer);
        let here = list.filter(|x: u64| holds((x, m as u64)) && m <= u64::MAX);
        let more = Seq::new(here.len(), |k: int| (here[k], m as u64));
        let all = s + more;
        assert forall|p: (u64, u64)| #[trigger] all.contains(p) <==> holds(p) by {
            assert(s.contains(p) <==> fewer(p));
            lemma_filter_contains(list, |x: u64| holds((x, m as u64)) && m <= u64::MAX, p.0);
            if holds(p) {
                if p.1 < m {
                    let k = choose|k: int| 0 <= k < s.len() && s[k] == p;
                    assert(all[k] == p);
                } else {
                    assert(p == (p.0, m as u64));
                    let k = choose|k: int| 0 <= k < here.len() && here[k] == p.0;
                    assert(all[s.len() + k] == p);
                }
            }
            if all.contains(p) {
                let k = choose|k: int| 0 <= k < all.len() && all[k] == p;
                if k < s.len() {
                    assert(s[k] == p);
                } else {
                    assert(more[k - s.len()] == p);
                    assert(here[k - s.len()] == p.0);
                    assert(here.contains(p.0));
                }
            }
        }
        all
    }
}

/// With member terms a node or way is emitted exactly once for each relation that
/// matches all of the terms and has it as a member, if it passes the bounding box
/// and the tag terms, and never without such a relation.
pub proof fn one_feature_per_member_and_relation(
    c: ArchiveContents,
    rows: Option<Seq<ValueView>>,
    q: QueryView,
    scan: BboxScan,
    prim: Prim,
    p: Pick,
)
    requires
        included(q, prim),
        by_membership(q, prim),
    ensures
        picks(c, rows, q, scan, prim).no_duplicates(),
        picks(c, rows, q, scan, prim).contains(p) <==> (p.parent matches Some(r)
            && select::relation_satisfies_all(c, rows, r, q.member_filters) && members::is_member(
            c,
            prim,
            p.index,
            r,
        ) && candidates(rows, q.filters, scanned(scan, prim), prim).contains(p.index)),
{
    let holds = |pair: (u64, u64)| member_selected(c, rows, q, scan, prim, pair);
    let list = candidates(rows, q.filters, scanned(scan, prim), prim);
    let some = lemma_pairs_can_be_listed(list, c.members.len(), holds);
    sorted::a_listing_exists(some, holds);
    let pairs = selected_pairs(c, rows, q, scan, prim);
    let ps = picks(c, rows, q, scan, prim);
    assert(ps == picks_of_pairs(pairs));
    assert forall|i: int, j: int| 0 <= i < ps.len() && 0 <= j < ps.len() && i != j implies ps[i]
        != ps[j] by {
        if i < j {
            assert(sorted::Ranked::before(pairs[i], pairs[j]));
        } else {
            assert(sorted::Ranked::before(pairs[j], pairs[i]));
        }
    }
    if ps.contains(p) {
        let k = choose|k: int| 0 <= k < ps.len() && ps[k] == p;
        assert(pairs.contains(pairs[k]));
    }
    if let Some(r) = p.parent {
        if holds((p.index, r)) {
            assert(pairs.contains((p.index, r)));
            let k = choose|k: int| 0 <= k < pairs.len() && pairs[k] == (p.index, r);
            assert(ps[k] == p);
        }
    }
}

/// Member terms that no relation matches let no node and no way through.
pub proof fn no_matching_relation_means_no_members(
    c: ArchiveContents,
    rows: Option<Seq<ValueView>>,
    q: QueryView,
    scan: BboxScan,
)
    requires
        q.member_filters.len() > 0,
        forall|r: u64| !#[trigger] select::relation_satisfies_all(c, rows, r, q.member_filters),
    ensures
        planned(c, rows, q, scan).drafts.len() == 0,
{
    lemma_no_picks(c, rows, q, scan, Prim::Node);
    lemma_no_picks(c, rows, q, scan, Prim::Way);
}

proof fn lemma_no_picks(
    c: ArchiveContents,
    rows: Option<Seq<ValueView>>,
    q: QueryView,
    scan: BboxScan,
    prim: Prim,
)
    requires
        by_membership(q, prim),
        forall|r: u64| !#[trigger] select::relation_satisfies_all(c, rows, r, q.member_filters),
    ensures
        picks(c, rows, q, scan, prim).len() == 0,
{
    let ps = picks(c, rows, q, scan, prim);
    if ps.len() > 0 {
        one_feature_per_member_and_relation(c, rows, q, scan, prim, ps[0]);
        assert(ps.contains(ps[0]));
    }
}

/// Member terms do not affect which relations are emitted.
pub proof fn member_terms_do_not_affect_relations(
    c: ArchiveContents,
    rows: Option<Seq<ValueView>>,
    q: QueryView,
    other_terms: Seq<Term>,
    scan: BboxScan,
)
    ensures
        planned(c, rows, q, scan).relations == planned(
            c,
            rows,
            QueryView { member_filters: other_terms, ..q },
            scan,
        ).relations,
{
}

/// Without an index the tag terms do not affect what is selected.
pub proof fn tag_terms_need_an_index(
    c: ArchiveContents,
    q: QueryView,
    other_terms: Seq<Term>,
    scan: BboxScan,
)
    ensures
        planned(c, None, q, scan) == planned(
            c,
            None,
            QueryView { filters: other_terms, ..q },
            scan,
        ),
{
    let other = QueryView { filters: other_terms, ..q };
    lemma_same_pairs(c, q, other, scan, Prim::Node);
    lemma_same_pairs(c, q, other, scan, Prim::Way);
}

proof fn lemma_same_pairs(
    c: ArchiveContents,
    q: QueryView,
    other: QueryView,
    scan: BboxScan,
    prim: Prim,
)
    requires
        q.member_filters == other.member_filters,
    ensures
        selected_pairs(c, None, q, scan, prim) == selected_pairs(c, None, other, scan, prim),
{
    let f = |pair: (u64, u64)| member_selected(c, None, q, scan, prim, pair);
    let g = |pair: (u64, u64)| member_selected(c, None, other, scan, prim, pair);
    assert(f =~= g);
}

/// A query without terms emits every primitive that the scan found and that it
/// asks for, in the order of the scan.
pub proof fn without_terms_the_scan_counts(
    c: ArchiveContents,
    rows: Option<Seq<ValueView>>,
    q: QueryView,
    scan: BboxScan,
    prim: Prim,
)
    requires
        included(q, prim),
        q.filters.len() == 0,
        q.member_filters.len() == 0,
    ensures
        picks(c, rows, q, scan, prim) == picks_of_list(scanned(scan, prim)),
{
}

/// A primitive that is not asked for is not emitted, and the land polygons do not
/// depend on what else is asked for: without any primitive they are the result.
pub proof fn only_what_is_asked_for_is_emitted(
    c: ArchiveContents,
    rows: Option<Seq<ValueView>>,
    sidecar: Option<Sidecar>,
    q: QueryView,
    scan: BboxScan,
    lines: Seq<Line>,
    shapes: Seq<RelationShape>,
)
    ensures
        !q.include_nodes ==> picks(c, rows, q, scan, Prim::Node).len() == 0,
        !q.include_ways ==> picks(c, rows, q, scan, Prim::Way).len() == 0,
        !q.include_relations ==> planned(c, rows, q, scan).relations.len() == 0,
        !q.include_nodes && !q.include_ways && !q.include_relations ==> found_features(
            c,
            sidecar,
            q,
            planned(c, rows, q, scan),
            lines,
            shapes,
        ) == land::land_of_query(sidecar, q.filters, q.keys, q.bbox),
{
    let plan = planned(c, rows, q, scan);
    if !q.include_nodes && !q.include_ways && !q.include_relations {
        assert(found_features(c, sidecar, q, plan, lines, shapes) =~= land::land_of_query(
            sidecar,
            q.filters,
            q.keys,
            q.bbox,
        ));
    }
}

/// What holds of every feature: its attributes are aligned to the keys, and its
/// geometry is that of what it came from. A node is a point of one vertex; a way
/// is a line, closed or not; a relation is a closed multipolygon of at least one
/// polygon, or an open line of at least two vertices. Only a closed geometry has
/// an area, and only a multipolygon has polygons.
pub open spec fn well_formed(f: FeatureView, keys: Seq<Seq<u8>>) -> bool {
    &&& f.attrs.len() == keys.len()
    &&& f.geom_type != OsmflatGeomType::Polygon
    &&& !f.is_closed ==> f.way_area == 0
    &&& f.geom_type != OsmflatGeomType::MultiPolygon ==> f.polygons.len() == 0
    &&& match f.osm_type {
        OsmflatOsmType::Node => {
            &&& f.geom_type == OsmflatGeomType::Point
            &&& !f.is_closed
            &&& f.coords.len() == 2
        },
        OsmflatOsmType::Way => f.geom_type == OsmflatGeomType::LineString,
        OsmflatOsmType::Relation => {
            ||| {
                &&& f.geom_type == OsmflatGeomType::MultiPolygon
                &&& f.is_closed
                &&& f.coords.len() == 0
                &&& f.polygons.len() >= 1
            }
            ||| {
                &&& f.geom_type == OsmflatGeomType::LineString
                &&& !f.is_closed
                &&& f.coords.len() >= 4
            }
        },
    }
}

pub open spec fn all_well_formed(fs: Seq<FeatureView>, keys: Seq<Seq<u8>>) -> bool {
    forall|i: int| 0 <= i < fs.len() ==> well_formed(#[trigger] fs[i], keys)
}

/// Every feature of a query is well formed.
pub proof fn every_feature_is_well_formed(
    c: ArchiveContents,
    rows: Option<Seq<ValueView>>,
    sidecar: Option<Sidecar>,
    q: QueryView,
    scan: BboxScan,
    lines: Seq<Line>,
    shapes: Seq<RelationShape>,
)
    requires
        lines_fit(planned(c, rows, q, scan).drafts, lines),
        found_features(c, sidecar, q, planned(c, rows, q, scan), lines, shapes).len() <= usize::MAX,
    ensures
        all_well_formed(
            order::ordered(
                q.order,
                found_features(c, sidecar, q, planned(c, rows, q, scan), lines, shapes),
            ),
            q.keys,
        ),
{
    let plan = planned(c, rows, q, scan);
    let found = found_features(c, sidecar, q, plan, lines, shapes);
    let a = line_features(plan.drafts, lines);
    let b = shape_features(c, q.keys, plan.relations, shapes);
    let l = land::land_of_query(sidecar, q.filters, q.keys, q.bbox);
    lemma_drafts(c, rows, q, scan);
    lemma_lines_well_formed(plan.drafts, q.keys, lines);
    lemma_shapes_well_formed(c, q.keys, plan.relations, shapes);
    lemma_land_well_formed(q.keys, q.bbox, land::land_rings(sidecar));
    assert forall|i: int| 0 <= i < found.len() implies well_formed(#[trigger] found[i], q.keys) by {
        if i < a.len() {
            assert(found[i] == a[i]);
        } else if i < a.len() + b.len() {
            assert(found[i] == b[i - a.len()]);
        } else {
            assert(found[i] == l[i - a.len() - b.len()]);
        }
    }
    order::draw_order_is_a_permutation(q.order, found);
    let drawn = order::ordered(q.order, found);
    assert forall|k: int| 0 <= k < drawn.len() implies well_formed(#[trigger] drawn[k], q.keys) by {
        let i = order::positions(q.order, found)[k];
        assert(drawn[k] == found[i]);
    }
}

/// A draft of a node as a point or of a way as a line, with an attribute for each
/// key.
spec fn draft_well_formed(d: DraftView, keys: Seq<Seq<u8>>) -> bool {
    &&& d.attrs.len() == keys.len()
    &&& match d.osm_type {
        OsmflatOsmType::Node => {
            &&& d.geom_type == OsmflatGeomType::Point
            &&& !d.is_closed
            &&& d.vertices.len() == 1
        },
        OsmflatOsmType::Way => d.geom_type == OsmflatGeomType::LineString,
        OsmflatOsmType::Relation => false,
    }
}

spec fn drafts_well_formed(ds: Seq<DraftView>, keys: Seq<Seq<u8>>) -> bool {
    forall|k: int| 0 <= k < ds.len() ==> draft_well_formed(#[trigger] ds[k], keys)
}

proof fn lemma_way_drafts(c: ArchiveContents, keys: Seq<Seq<u8>>, ps: Seq<Pick>)
    ensures
        drafts_well_formed(way_drafts(c, keys, ps), keys),
    decreases ps.len(),
{
    if ps.len() > 0 {
        lemma_way_drafts(c, keys, ps.drop_last());
    }
}

proof fn lemma_drafts(
    c: ArchiveContents,
    rows: Option<Seq<ValueView>>,
    q: QueryView,
    scan: BboxScan,
)
    ensures
        drafts_well_formed(planned(c, rows, q, scan).drafts, q.keys),
{
    let nodes = node_drafts(c, q.keys, picks(c, rows, q, scan, Prim::Node));
    let ways = way_drafts(c, q.keys, picks(c, rows, q, scan, Prim::Way));
    lemma_way_drafts(c, q.keys, picks(c, rows, q, scan, Prim::Way));
    let all = nodes + ways;
    assert forall|k: int| 0 <= k < all.len() implies draft_well_formed(
        #[trigger] all[k],
        q.keys,
    ) by {
        if k < nodes.len() {
            assert(all[k] == nodes[k]);
        } else {
            assert(all[k] == ways[k - nodes.len()]);
        }
    }
}

proof fn lemma_lines_well_formed(ds: Seq<DraftView>, keys: Seq<Seq<u8>>, lines: Seq<Line>)
    requires
        drafts_well_formed(ds, keys),
        lines_fit(ds, lines),
    ensures
        all_well_formed(line_features(ds, lines), keys),
{
    assert forall|i: int| 0 <= i < ds.len() implies well_formed(
        #[trigger] line_features(ds, lines)[i],
        keys,
    ) by {
        assert(draft_well_formed(ds[i], keys));
        assert(line_fits(ds[i], lines[i]));
    }
}

proof fn lemma_chains_well_formed(
    facts: RelationFacts,
    keys: Seq<Seq<u8>>,
    chains: Seq<Seq<u64>>,
)
    requires
        facts.attrs.len() == keys.len(),
    ensures
        all_well_formed(feature::chain_features(facts, chains), keys),
    decreases chains.len(),
{
    if chains.len() > 0 {
        lemma_chains_well_formed(facts, keys, chains.drop_last());
    }
}

proof fn lemma_shapes_well_formed(
    c: ArchiveContents,
    keys: Seq<Seq<u8>>,
    relations: Seq<u64>,
    shapes: Seq<RelationShape>,
)
    ensures
        all_well_formed(shape_features(c, keys, relations, shapes), keys),
    decreases relations.len(),
{
    if relations.len() > 0 {
        lemma_shapes_well_formed(c, keys, relations.drop_last(), shapes);
        let shape = shapes[relations.len() - 1];
        let facts = feature::relation_facts(c, relations.last(), keys);
        lemma_chains_well_formed(facts, keys, shape.chains());
    }
}

/// Where the sidecar holds the rings of relations, every feature of a relation is
/// a multipolygon: the rings are not assembled, and no open line is left over.
pub proof fn stored_rings_leave_no_open_line(
    c: ArchiveContents,
    sidecar: Sidecar,
    keys: Seq<Seq<u8>>,
    relations: Seq<u64>,
    shapes: Seq<RelationShape>,
    i: int,
)
    requires
        sidecar.multipolygons,
        relations.len() == shapes.len(),
        shapes_from(Some(sidecar), shapes),
        0 <= i < shape_features(c, keys, relations, shapes).len(),
    ensures
        shape_features(c, keys, relations, shapes)[i].geom_type == OsmflatGeomType::MultiPolygon,
{
    lemma_stored_rings(c, sidecar, keys, relations, shapes, i);
}

proof fn lemma_stored_rings(
    c: ArchiveContents,
    sidecar: Sidecar,
    keys: Seq<Seq<u8>>,
    relations: Seq<u64>,
    shapes: Seq<RelationShape>,
    i: int,
)
    requires
        sidecar.multipolygons,
        relations.len() <= shapes.len(),
        shapes_from(Some(sidecar), shapes),
        0 <= i < shape_features(c, keys, relations, shapes).len(),
    ensures
        shape_features(c, keys, relations, shapes)[i].geom_type == OsmflatGeomType::MultiPolygon,
    decreases relations.len(),
{
    let rest = shape_features(c, keys, relations.drop_last(), shapes);
    if i < rest.len() {
        lemma_stored_rings(c, sidecar, keys, relations.drop_last(), shapes, i);
    } else {
        let shape = shapes[relations.len() - 1];
        feature::precomputed_rings_give_no_open_line(c, relations.last(), keys, shape);
    }
}

proof fn lemma_land_well_formed(keys: Seq<Seq<u8>>, bbox: Bbox, rings: Seq<LandRing>)
    ensures
        all_well_formed(land::rings_to_features(keys, bbox, rings), keys),
    decreases rings.len(),
{
    if rings.len() > 0 {
        lemma_land_well_formed(keys, bbox, rings.drop_last());
    }
}

/// A query, a plan and their lists are read as they are stored.
pub proof fn queries_and_plans_are_read_as_they_are_stored(q: Query, p: QueryPlan, i: int)
    ensures
        q@.bbox == q.bbox,
        q@.include_nodes == q.include_nodes,
        q@.include_ways == q.include_ways,
        q@.include_relations == q.include_relations,
        q@.order == q.order,
        q@.keys.len() == q.keys@.len(),
        0 <= i < q.keys@.len() ==> q@.keys[i] == q.keys@[i]@,
        q@.filters.len() == q.filters@.len(),
        0 <= i < q.filters@.len() ==> q@.filters[i].key == q.filters@[i].0@ && match q.filters@[i].1 {
            Some(v) => q@.filters[i].value == Some(v@),
            None => q@.filters[i].value is None,
        },
        q@.member_filters.len() == q.member_filters@.len(),
        0 <= i < q.member_filters@.len() ==> q@.member_filters[i].key == q.member_filters@[i].0@
            && match q.member_filters@[i].1 {
            Some(v) => q@.member_filters[i].value == Some(v@),
            None => q@.member_filters[i].value is None,
        },
        p@.relations == p.relations@,
        p@.drafts.len() == p.drafts@.len(),
        0 <= i < p.drafts@.len() ==> p@.drafts[i] == p.drafts@[i]@,
{
}

/// With an index and at least one term, the candidates for nodes are the nodes that
/// the scan found and that a row of the index lists among its nodes, under the key
/// of one of the terms and, where the term has a value, under that value; and
/// likewise the ways by the ways of the rows, and the relations by their relations.
/// They come in ascending order, each once. Without an index, or without a term,
/// the candidates are what the scan found, as it was found.
pub proof fn candidates_are_listed_under_a_term(
    rows: Seq<ValueView>,
    terms: Seq<Term>,
    found: Seq<u64>,
    prim: Prim,
    i: u64,
)
    requires
        terms.len() > 0,
    ensures
        candidates(Some(rows), terms, found, Prim::Node).contains(i) <==> found.contains(i)
            && exists|k: int, j: int|
            0 <= k < rows.len() && 0 <= j < terms.len() && (#[trigger] rows[k]).key@ == (
            #[trigger] terms[j]).key && (terms[j].value is None || terms[j].value == Some(
                rows[k].value@,
            )) && rows[k].nodes@.contains(i),
        candidates(Some(rows), terms, found, Prim::Way).contains(i) <==> found.contains(i)
            && exists|k: int, j: int|
            0 <= k < rows.len() && 0 <= j < terms.len() && (#[trigger] rows[k]).key@ == (
            #[trigger] terms[j]).key && (terms[j].value is None || terms[j].value == Some(
                rows[k].value@,
            )) && rows[k].ways@.contains(i),
        candidates(Some(rows), terms, found, Prim::Relation).contains(i) <==> found.contains(i)
            && exists|k: int, j: int|
            0 <= k < rows.len() && 0 <= j < terms.len() && (#[trigger] rows[k]).key@ == (
            #[trigger] terms[j]).key && (terms[j].value is None || terms[j].value == Some(
                rows[k].value@,
            )) && rows[k].relations@.contains(i),
        forall|a: int, b: int|
            0 <= a < b < candidates(Some(rows), terms, found, prim).len() ==> #[trigger] candidates(
                Some(rows),
                terms,
                found,
                prim,
            )[a] < #[trigger] candidates(Some(rows), terms, found, prim)[b],
        candidates(None, terms, found, prim) == found,
        candidates(Some(rows), Seq::empty(), found, prim) == found,
{
    candidates_pass_the_box_and_a_term(Some(rows), terms, found, Prim::Node, i);
    candidates_pass_the_box_and_a_term(Some(rows), terms, found, Prim::Way, i);
    candidates_pass_the_box_and_a_term(Some(rows), terms, found, Prim::Relation, i);
    assert forall|j: int| 0 <= j < terms.len() implies select::posted(
        rows,
        #[trigger] terms[j],
        Prim::Node,
        i,
    ) == (exists|k: int|
        0 <= k < rows.len() && (#[trigger] rows[k]).key@ == terms[j].key && (terms[j].value is None
            || terms[j].value == Some(rows[k].value@)) && rows[k].nodes@.contains(i)) by {
        select::the_index_lists_each_kind_on_its_own(rows, terms[j], i);
    }
    assert forall|j: int| 0 <= j < terms.len() implies select::posted(
        rows,
        #[trigger] terms[j],
        Prim::Way,
        i,
    ) == (exists|k: int|
        0 <= k < rows.len() && (#[trigger] rows[k]).key@ == terms[j].key && (terms[j].value is None
            || terms[j].value == Some(rows[k].value@)) && rows[k].ways@.contains(i)) by {
        select::the_index_lists_each_kind_on_its_own(rows, terms[j], i);
    }
    assert forall|j: int| 0 <= j < terms.len() implies select::posted(
        rows,
        #[trigger] terms[j],
        Prim::Relation,
        i,
    ) == (exists|k: int|
        0 <= k < rows.len() && (#[trigger] rows[k]).key@ == terms[j].key && (terms[j].value is None
            || terms[j].value == Some(rows[k].value@)) && rows[k].relations@.contains(i)) by {
        select::the_index_lists_each_kind_on_its_own(rows, terms[j], i);
    }
    lemma_candidates_ascend(rows, terms, found, prim);
}

proof fn lemma_candidates_ascend(
    rows: Seq<ValueView>,
    terms: Seq<Term>,
    found: Seq<u64>,
    prim: Prim,
)
    requires
        terms.len() > 0,
    ensures
        forall|a: int, b: int|
            0 <= a < b < candidates(Some(rows), terms, found, prim).len() ==> #[trigger] candidates(
                Some(rows),
                terms,
                found,
                prim,
            )[a] < #[trigger] candidates(Some(rows), terms, found, prim)[b],
{
    let holds = |x: u64| found.contains(x) && select::posted_under_any(rows, terms, prim, x);
    let some = found.filter(holds);
    assert forall|x: u64| #[trigger] some.contains(x) <==> holds(x) by {
        lemma_filter_contains(found, holds, x);
    }
    sorted::a_listing_exists(some, holds);
    sorted::ascending_means_increasing(candidates(Some(rows), terms, found, prim));
}

/// Where the index tells of the nodes what their tags tell, a node that the scan
/// found is a candidate exactly if its own tags satisfy one of the terms: it has a tag
/// with the key and, where the term has a value, that value.
pub proof fn with_a_true_index_the_tags_of_a_node_decide(
    c: ArchiveContents,
    rows: Seq<ValueView>,
    terms: Seq<Term>,
    found: Seq<u64>,
    i: u64,
)
    requires
        terms.len() > 0,
        i < c.nodes.len(),
        forall|k: int, j: int|
            0 <= k < rows.len() && 0 <= j < terms.len() && (#[trigger] rows[k]).key@ == (
            #[trigger] terms[j]).key && (terms[j].value is None || terms[j].value == Some(
                rows[k].value@,
            )) && rows[k].nodes@.contains(i) ==> select::term_holds(
                c,
                c.nodes[i as int].tags,
                terms[j],
            ),
        forall|j: int|
            0 <= j < terms.len() && select::term_holds(
                c,
                c.nodes[i as int].tags,
                #[trigger] terms[j],
            ) ==> exists|k: int|
                0 <= k < rows.len() && (#[trigger] rows[k]).key@ == terms[j].key && (terms[j].value
                    is None || terms[j].value == Some(rows[k].value@)) && rows[k].nodes@.contains(
                    i,
                ),
    ensures
        candidates(Some(rows), terms, found, Prim::Node).contains(i) <==> found.contains(i)
            && exists|j: int|
            0 <= j < terms.len() && {
                let value = archive::tag_value(
                    c,
                    c.nodes[i as int].tags,
                    (#[trigger] terms[j]).key,
                );
                value is Some && (terms[j].value is None || terms[j].value == value)
            },
{
    candidates_are_listed_under_a_term(rows, terms, found, Prim::Node, i);
    if candidates(Some(rows), terms, found, Prim::Node).contains(i) {
        let (k, j) = choose|k: int, j: int|
            0 <= k < rows.len() && 0 <= j < terms.len() && (#[trigger] rows[k]).key@ == (
            #[trigger] terms[j]).key && (terms[j].value is None || terms[j].value == Some(
                rows[k].value@,
            )) && rows[k].nodes@.contains(i);
        assert(select::term_holds(c, c.nodes[i as int].tags, terms[j]));
    }
    assert forall|j: int|
        found.contains(i) && 0 <= j < terms.len() && {
            let value = archive::tag_value(
                c,
                c.nodes[i as int].tags,
                (#[trigger] terms[j]).key,
            );
            value is Some && (terms[j].value is None || terms[j].value == value)
        } implies candidates(Some(rows), terms, found, Prim::Node).contains(i) by {
        assert(select::term_holds(c, c.nodes[i as int].tags, terms[j]));
        let k = choose|k: int|
            0 <= k < rows.len() && (#[trigger] rows[k]).key@ == terms[j].key && (terms[j].value
                is None || terms[j].value == Some(rows[k].value@)) && rows[k].nodes@.contains(i);
        assert(rows[k].nodes@.contains(i));
    }
}

/// Where the index tells of the ways what their tags tell, a way that the scan
/// found is a candidate exactly if its own tags satisfy one of the terms: it has a tag
/// with the key and, where the term has a value, that value.
pub proof fn with_a_true_index_the_tags_of_a_way_decide(
    c: ArchiveContents,
    rows: Seq<ValueView>,
    terms: Seq<Term>,
    found: Seq<u64>,
    i: u64,
)
    requires
        terms.len() > 0,
        i < c.ways.len(),
        forall|k: int, j: int|
            0 <= k < rows.len() && 0 <= j < terms.len() && (#[trigger] rows[k]).key@ == (
            #[trigger] terms[j]).key && (terms[j].value is None || terms[j].value == Some(
                rows[k].value@,
            )) && rows[k].ways@.contains(i) ==> select::term_holds(
                c,
                c.ways[i as int].tags,
                terms[j],
            ),
        forall|j: int|
            0 <= j < terms.len() && select::term_holds(
                c,
                c.ways[i as int].tags,
                #[trigger] terms[j],
            ) ==> exists|k: int|
                0 <= k < rows.len() && (#[trigger] rows[k]).key@ == terms[j].key && (terms[j].value
                    is None || terms[j].value == Some(rows[k].value@)) && rows[k].ways@.contains(
                    i,
                ),
    ensures
        candidates(Some(rows), terms, found, Prim::Way).contains(i) <==> found.contains(i)
            && exists|j: int|
            0 <= j < terms.len() && {
                let value = archive::tag_value(
                    c,
                    c.ways[i as int].tags,
                    (#[trigger] terms[j]).key,
                );
                value is Some && (terms[j].value is None || terms[j].value == value)
            },
{
    candidates_are_listed_under_a_term(rows, terms, found, Prim::Way, i);
    if candidates(Some(rows), terms, found, Prim::Way).contains(i) {
        let (k, j) = choose|k: int, j: int|
            0 <= k < rows.len() && 0 <= j < terms.len() && (#[trigger] rows[k]).key@ == (
            #[trigger] terms[j]).key && (terms[j].value is None || terms[j].value == Some(
                rows[k].value@,
            )) && rows[k].ways@.contains(i);
        assert(select::term_holds(c, c.ways[i as int].tags, terms[j]));
    }
    assert forall|j: int|
        found.contains(i) && 0 <= j < terms.len() && {
            let value = archive::tag_value(
                c,
                c.ways[i as int].tags,
                (#[trigger] terms[j]).key,
            );
            value is Some && (terms[j].value is None || terms[j].value == value)
        } implies candidates(Some(rows), terms, found, Prim::Way).contains(i) by {
        assert(select::term_holds(c, c.ways[i as int].tags, terms[j]));
        let k = choose|k: int|
            0 <= k < rows.len() && (#[trigger] rows[k]).key@ == terms[j].key && (terms[j].value
                is None || terms[j].value == Some(rows[k].value@)) && rows[k].ways@.contains(i);
        assert(rows[k].ways@.contains(i));
    }
}

/// Where the index tells of the relations what their tags tell, a relation that the scan
/// found is a candidate exactly if its own tags satisfy one of the terms: it has a tag
/// with the key and, where the term has a value, that value.
pub proof fn with_a_true_index_the_tags_of_a_relation_decide(
    c: ArchiveContents,
    rows: Seq<ValueView>,
    terms: Seq<Term>,
    found: Seq<u64>,
    i: u64,
)
    requires
        terms.len() > 0,
        i < c.relations.len(),
        forall|k: int, j: int|
            0 <= k < rows.len() && 0 <= j < terms.len() && (#[trigger] rows[k]).key@ == (
            #[trigger] terms[j]).key && (terms[j].value is None || terms[j].value == Some(
                rows[k].value@,
            )) && rows[k].relations@.contains(i) ==> select::term_holds(
                c,
                c.relations[i as int].tags,
                terms[j],
            ),
        forall|j: int|
            0 <= j < terms.len() && select::term_holds(
                c,
                c.relations[i as int].tags,
                #[trigger] terms[j],
            ) ==> exists|k: int|
                0 <= k < rows.len() && (#[trigger] rows[k]).key@ == terms[j].key && (terms[j].value
                    is None || terms[j].value == Some(rows[k].value@)) && rows[k].relations@.contains(
                    i,
                ),
    ensures
        candidates(Some(rows), terms, found, Prim::Relation).contains(i) <==> found.contains(i)
            && exists|j: int|
            0 <= j < terms.len() && {
                let value = archive::tag_value(
                    c,
                    c.relations[i as int].tags,
                    (#[trigger] terms[j]).key,
                );
                value is Some && (terms[j].value is None || terms[j].value == value)
            },
{
    candidates_are_listed_under_a_term(rows, terms, found, Prim::Relation, i);
    if candidates(Some(rows), terms, found, Prim::Relation).contains(i) {
        let (k, j) = choose|k: int, j: int|
            0 <= k < rows.len() && 0 <= j < terms.len() && (#[trigger] rows[k]).key@ == (
            #[trigger] terms[j]).key && (terms[j].value is None || terms[j].value == Some(
                rows[k].value@,
            )) && rows[k].relations@.contains(i);
        assert(select::term_holds(c, c.relations[i as int].tags, terms[j]));
    }
    assert forall|j: int|
        found.contains(i) && 0 <= j < terms.len() && {
            let value = archive::tag_value(
                c,
                c.relations[i as int].tags,
                (#[trigger] terms[j]).key,
            );
            value is Some && (terms[j].value is None || terms[j].value == value)
        } implies candidates(Some(rows), terms, found, Prim::Relation).contains(i) by {
        assert(select::term_holds(c, c.relations[i as int].tags, terms[j]));
        let k = choose|k: int|
            0 <= k < rows.len() && (#[trigger] rows[k]).key@ == terms[j].key && (terms[j].value
                is None || terms[j].value == Some(rows[k].value@)) && rows[k].relations@.contains(i);
        assert(rows[k].relations@.contains(i));
    }
}

/// Without member terms the nodes, ways and relations that a query emits are its
/// candidates among the nodes, ways and relations of the scan, in their order and
/// without a parent, as far as they are asked for.
pub proof fn candidates_are_picked_in_order(
    c: ArchiveContents,
    rows: Option<Seq<ValueView>>,
    q: QueryView,
    scan: BboxScan,
    k: int,
)
    ensures
        q.member_filters.len() == 0 && q.include_nodes ==> {
            let ps = picks(c, rows, q, scan, Prim::Node);
            let list = candidates(rows, q.filters, scan.nodes@, Prim::Node);
            ps.len() == list.len() && (0 <= k < ps.len() ==> ps[k].index == list[k] && ps[k].parent
                is None)
        },
        q.member_filters.len() == 0 && q.include_ways ==> {
            let ps = picks(c, rows, q, scan, Prim::Way);
            let list = candidates(rows, q.filters, scan.ways@, Prim::Way);
            ps.len() == list.len() && (0 <= k < ps.len() ==> ps[k].index == list[k] && ps[k].parent
                is None)
        },
        q.include_relations ==> {
            let ps = picks(c, rows, q, scan, Prim::Relation);
            let list = candidates(rows, q.filters, scan.relations@, Prim::Relation);
            ps.len() == list.len() && (0 <= k < ps.len() ==> ps[k].index == list[k] && ps[k].parent
                is None)
        },
        !q.include_nodes ==> picks(c, rows, q, scan, Prim::Node).len() == 0,
        !q.include_ways ==> picks(c, rows, q, scan, Prim::Way).len() == 0,
        !q.include_relations ==> picks(c, rows, q, scan, Prim::Relation).len() == 0,
{
}

/// With member terms a node or way is emitted once with each relation that matches
/// all of the terms and lists it, if it is among the candidates; in ascending order
/// of the members, and of the relations of one member.
pub proof fn members_are_picked_with_their_relations(
    c: ArchiveContents,
    rows: Option<Seq<ValueView>>,
    q: QueryView,
    scan: BboxScan,
    i: u64,
    r: u64,
    a: int,
    b: int,
)
    requires
        q.member_filters.len() > 0,
    ensures
        q.include_nodes ==> {
            let ps = picks(c, rows, q, scan, Prim::Node);
            &&& ps.contains(Pick { index: i, parent: Some(r) }) <==> {
                &&& select::relation_satisfies_all(c, rows, r, q.member_filters)
                &&& r < c.members.len() && c.members[r as int] is Some
                    && c.members[r as int]->0.contains(archive::Member::Node(Some(i)))
                &&& candidates(rows, q.filters, scan.nodes@, Prim::Node).contains(i)
            }
            &&& !ps.contains(Pick { index: i, parent: None })
            &&& 0 <= a < b < ps.len() ==> ps[a].index < ps[b].index || (ps[a].index == ps[b].index
                && ps[a].parent->0 < ps[b].parent->0)
        },
        q.include_ways ==> {
            let ps = picks(c, rows, q, scan, Prim::Way);
            &&& ps.contains(Pick { index: i, parent: Some(r) }) <==> {
                &&& select::relation_satisfies_all(c, rows, r, q.member_filters)
                &&& r < c.members.len() && c.members[r as int] is Some
                    && c.members[r as int]->0.contains(archive::Member::Way(Some(i)))
                &&& candidates(rows, q.filters, scan.ways@, Prim::Way).contains(i)
            }
            &&& !ps.contains(Pick { index: i, parent: None })
            &&& 0 <= a < b < ps.len() ==> ps[a].index < ps[b].index || (ps[a].index == ps[b].index
                && ps[a].parent->0 < ps[b].parent->0)
        },
{
    let p = Pick { index: i, parent: Some(r) };
    let alone = Pick { index: i, parent: None };
    if q.include_nodes {
        one_feature_per_member_and_relation(c, rows, q, scan, Prim::Node, p);
        one_feature_per_member_and_relation(c, rows, q, scan, Prim::Node, alone);
        lemma_picked_pairs_ascend(c, rows, q, scan, Prim::Node);
    }
    if q.include_ways {
        one_feature_per_member_and_relation(c, rows, q, scan, Prim::Way, p);
        one_feature_per_member_and_relation(c, rows, q, scan, Prim::Way, alone);
        lemma_picked_pairs_ascend(c, rows, q, scan, Prim::Way);
    }
}

proof fn lemma_picked_pairs_ascend(
    c: ArchiveContents,
    rows: Option<Seq<ValueView>>,
    q: QueryView,
    scan: BboxScan,
    prim: Prim,
)
    requires
        included(q, prim),
        by_membership(q, prim),
    ensures
        forall|a: int, b: int|
            0 <= a < b < picks(c, rows, q, scan, prim).len() ==> {
                let x = #[trigger] picks(c, rows, q, scan, prim)[a];
                let y = #[trigger] picks(c, rows, q, scan, prim)[b];
                x.index < y.index || (x.index == y.index && x.parent->0 < y.parent->0)
            },
{
    let holds = |pair: (u64, u64)| member_selected(c, rows, q, scan, prim, pair);
    let list = candidates(rows, q.filters, scanned(scan, prim), prim);
    let some = lemma_pairs_can_be_listed(list, c.members.len(), holds);
    sorted::a_listing_exists(some, holds);
    let pairs = selected_pairs(c, rows, q, scan, prim);
    sorted::ascending_pairs_are_increasing(pairs);
    assert forall|a: int, b: int| 0 <= a < b < picks(c, rows, q, scan, prim).len() implies ({
        let x = #[trigger] picks(c, rows, q, scan, prim)[a];
        let y = #[trigger] picks(c, rows, q, scan, prim)[b];
        x.index < y.index || (x.index == y.index && x.parent->0 < y.parent->0)
    }) by {
        assert(pairs[a].0 < pairs[b].0 || (pairs[a].0 == pairs[b].0 && pairs[a].1 < pairs[b].1));
    }
}

/// A picked node is drafted with the tags of its parent relation where it has one.
pub proof fn picked_nodes_are_drafted_in_order(
    c: ArchiveContents,
    keys: Seq<Seq<u8>>,
    ps: Seq<Pick>,
    k: int,
)
    requires
        0 <= k < ps.len(),
    ensures
        node_drafts(c, keys, ps).len() == ps.len(),
        match ps[k].parent {
            Some(r) => node_drafts(c, keys, ps)[k] == feature::node_draft(
                c,
                ps[k].index,
                keys,
                Some(c.relations[r as int].tags),
            ),
            None => node_drafts(c, keys, ps)[k] == feature::node_draft(c, ps[k].index, keys, None),
        },
{
}

/// Picked ways are drafted one after the other, each with the tags of its parent
/// relation where it has one; a way that becomes no line is left out.
pub proof fn picked_ways_are_drafted_in_order(
    c: ArchiveContents,
    keys: Seq<Seq<u8>>,
    ps: Seq<Pick>,
    p: Pick,
)
    ensures
        way_drafts(c, keys, Seq::empty()).len() == 0,
        ({
            let parent = match p.parent {
                Some(r) => Some(c.relations[r as int].tags),
                None => None,
            };
            match feature::way_draft(c, p.index, keys, parent) {
                Some(d) => way_drafts(c, keys, ps.push(p)) == way_drafts(c, keys, ps).push(d),
                None => way_drafts(c, keys, ps.push(p)) == way_drafts(c, keys, ps),
            }
        }),
{
    assert(ps.push(p).drop_last() =~= ps);
    assert(ps.push(p).last() == p);
}

/// Of the picked relations those stay that stand for an area, in order.
pub proof fn picked_areas_stay_in_order(c: ArchiveContents, ps: Seq<Pick>, p: Pick)
    ensures
        area_relations(c, Seq::empty()).len() == 0,
        tags::area_tags(c, c.relations[p.index as int].tags) ==> area_relations(c, ps.push(p))
            == area_relations(c, ps).push(p.index),
        !tags::area_tags(c, c.relations[p.index as int].tags) ==> area_relations(c, ps.push(p))
            == area_relations(c, ps),
{
    assert(ps.push(p).drop_last() =~= ps);
    assert(ps.push(p).last() == p);
}

/// A plan holds first the nodes and then the ways that are emitted, and apart from
/// them the area relations.
pub proof fn a_plan_holds_nodes_then_ways(
    c: ArchiveContents,
    rows: Option<Seq<ValueView>>,
    q: QueryView,
    scan: BboxScan,
)
    ensures
        ({
            let plan = planned(c, rows, q, scan);
            let nodes = picks(c, rows, q, scan, Prim::Node);
            &&& plan.drafts.len() >= nodes.len()
            &&& plan.drafts.take(nodes.len() as int) == node_drafts(c, q.keys, nodes)
            &&& plan.drafts.skip(nodes.len() as int) == way_drafts(
                c,
                q.keys,
                picks(c, rows, q, scan, Prim::Way),
            )
            &&& plan.relations == area_relations(c, picks(c, rows, q, scan, Prim::Relation))
        }),
{
    let plan = planned(c, rows, q, scan);
    let nodes = picks(c, rows, q, scan, Prim::Node);
    let n = node_drafts(c, q.keys, nodes);
    let w = way_drafts(c, q.keys, picks(c, rows, q, scan, Prim::Way));
    assert((n + w).take(n.len() as int) =~= n);
    assert((n + w).skip(n.len() as int) =~= w);
}

/// The features of a query are found in the order of its plan: a feature for each
/// draft with the line that was measured of it, then those of the area relations
/// with the shapes that were measured of them, and last the land polygons.
pub proof fn features_are_found_in_the_order_of_the_plan(
    c: ArchiveContents,
    sidecar: Option<Sidecar>,
    q: QueryView,
    plan: PlanView,
    lines: Seq<Line>,
    shapes: Seq<RelationShape>,
    k: int,
)
    ensures
        ({
            let found = found_features(c, sidecar, q, plan, lines, shapes);
            let n = plan.drafts.len() as int;
            let areas = shape_features(c, q.keys, plan.relations, shapes);
            let land = land::land_of_query(sidecar, q.filters, q.keys, q.bbox);
            &&& found.len() == n + areas.len() + land.len()
            &&& 0 <= k < n ==> found[k] == feature::line_feature(
                plan.drafts[k],
                lines[k].coords@,
                lines[k].area_m2,
            )
            &&& 0 <= k < areas.len() ==> found[n + k] == areas[k]
            &&& 0 <= k < land.len() ==> found[n + areas.len() + k] == land[k]
        }),
{
}

/// The area relations become features one after the other, each with its own shape.
pub proof fn area_relations_keep_their_shapes(
    c: ArchiveContents,
    keys: Seq<Seq<u8>>,
    relations: Seq<u64>,
    shapes: Seq<RelationShape>,
    r: u64,
    shape: RelationShape,
)
    requires
        relations.len() == shapes.len(),
    ensures
        shape_features(c, keys, Seq::empty(), Seq::empty()).len() == 0,
        shape_features(c, keys, relations.push(r), shapes.push(shape)) == shape_features(
            c,
            keys,
            relations,
            shapes,
        ) + feature::relation_features(
            c,
            r,
            keys,
            shape.polygons(),
            shape.chains(),
            shape.area_m2,
        ),
{
    let more = shapes.push(shape);
    assert(relations.push(r).drop_last() =~= relations);
    assert(more[relations.len() as int] == shape);
    lemma_same_shapes(c, keys, relations, shapes, more);
}

proof fn lemma_same_shapes(
    c: ArchiveContents,
    keys: Seq<Seq<u8>>,
    relations: Seq<u64>,
    a: Seq<RelationShape>,
    b: Seq<RelationShape>,
)
    requires
        forall|k: int| 0 <= k < relations.len() ==> #[trigger] a[k] == b[k],
    ensures
        shape_features(c, keys, relations, a) == shape_features(c, keys, relations, b),
    decreases relations.len(),
{
    if relations.len() > 0 {
        assert(a[relations.len() - 1] == b[relations.len() - 1]);
        lemma_same_shapes(c, keys, relations.drop_last(), a, b);
    }
}

/// Everything in the archive leads somewhere: the tags into the string table, the
/// ranges into the lists that they are ranges of, the references to nodes, and each
/// relation to a member list.
pub open spec fn sound(c: ArchiveContents) -> bool {
    &&& forall|k: int| 0 <= k < c.tags_index.len() ==> #[trigger] archive::leads_somewhere(c, k)
    &&& forall|n: int|
        0 <= n < c.nodes.len() ==> (#[trigger] c.nodes[n]).tags.end <= c.tags_index.len()
    &&& forall|w: int|
        0 <= w < c.ways.len() ==> (#[trigger] c.ways[w]).tags.end <= c.tags_index.len()
            && c.ways[w].refs.end <= c.nodes_index.len()
    &&& forall|r: int|
        0 <= r < c.relations.len() ==> (#[trigger] c.relations[r]).tags.end <= c.tags_index.len()
    &&& forall|k: int|
        0 <= k < c.nodes_index.len() ==> (#[trigger] c.nodes_index[k] matches Some(n) ==> n
            < c.nodes.len())
    &&& c.members.len() == c.relations.len()
}

proof fn lemma_sound_lookup(c: ArchiveContents, range: IndexRange, key: Seq<u8>)
    requires
        sound(c),
        range.end <= c.tags_index.len(),
    ensures
        archive::lookup_readable(c, range, key),
{
    archive::a_lookup_reads_up_to_the_first_match(c, range, key);
}

proof fn lemma_sound_facts(
    c: ArchiveContents,
    own: IndexRange,
    parent: Option<IndexRange>,
    keys: Seq<Seq<u8>>,
)
    requires
        sound(c),
        own.end <= c.tags_index.len(),
        parent matches Some(p) ==> p.end <= c.tags_index.len(),
    ensures
        feature::facts_readable(c, own, parent, keys),
{
    lemma_sound_lookup(c, own, "layer".spec_bytes());
    lemma_sound_lookup(c, own, "highway".spec_bytes());
    lemma_sound_lookup(c, own, "bridge".spec_bytes());
    lemma_sound_lookup(c, own, "tunnel".spec_bytes());
    assert forall|i: int| 0 <= i < keys.len() implies tags::attr_readable(
        c,
        own,
        parent,
        #[trigger] keys[i],
    ) by {
        let (range, name) = tags::attr_place(own, parent, keys[i]);
        lemma_sound_lookup(c, range, name);
    }
}

proof fn lemma_sound_terms(c: ArchiveContents, range: IndexRange, terms: Seq<Term>, k: int)
    requires
        sound(c),
        range.end <= c.tags_index.len(),
    ensures
        select::terms_readable_from(c, range, terms, k),
    decreases terms.len() - k,
{
    if k < terms.len() {
        lemma_sound_lookup(c, range, terms[k].key);
        lemma_sound_terms(c, range, terms, k + 1);
    }
}

/// A sound archive can be read for every query: it is planned, never refused, when
/// the scan and the index speak of primitives that the archive holds.
pub proof fn a_sound_archive_answers_every_query(
    c: ArchiveContents,
    rows: Option<Seq<ValueView>>,
    q: QueryView,
    scan: BboxScan,
)
    requires
        sound(c),
        forall|k: int| 0 <= k < scan.nodes@.len() ==> #[trigger] scan.nodes@[k] < c.nodes.len(),
        forall|k: int| 0 <= k < scan.ways@.len() ==> #[trigger] scan.ways@[k] < c.ways.len(),
        forall|k: int|
            0 <= k < scan.relations@.len() ==> #[trigger] scan.relations@[k] < c.relations.len(),
        rows matches Some(rs) ==> forall|k: int, r: u64|
            0 <= k < rs.len() && #[trigger] rs[k].relations@.contains(r) ==> r < c.relations.len(),
    ensures
        query_readable(c, rows, q, scan),
{
    assert forall|r: u64| #[trigger]
        select::relation_satisfies_all(c, rows, r, q.member_filters) implies r
        < c.relations.len() by {
        assert(select::relation_satisfies(c, rows, r, q.member_filters[0]));
        if let Some(rs) = rows {
            select::the_index_lists_each_kind_on_its_own(rs, q.member_filters[0], r);
            let k = choose|k: int|
                0 <= k < rs.len() && (#[trigger] rs[k]).key@ == q.member_filters[0].key && (
                q.member_filters[0].value is None || q.member_filters[0].value == Some(
                    rs[k].value@,
                )) && rs[k].relations@.contains(r);
            assert(rs[k].relations@.contains(r));
        }
    }
    assert(select::relations_readable(c, q.member_filters)) by {
        assert forall|r: int| 0 <= r < c.relations.len() implies select::terms_readable_from(
            c,
            (#[trigger] c.relations[r]).tags,
            q.member_filters,
            0,
        ) by {
            lemma_sound_terms(c, c.relations[r].tags, q.member_filters, 0);
        }
    }
    lemma_sound_picks(c, rows, q, scan, Prim::Node);
    lemma_sound_picks(c, rows, q, scan, Prim::Way);
    lemma_sound_picks(c, rows, q, scan, Prim::Relation);
}

proof fn lemma_sound_picks(
    c: ArchiveContents,
    rows: Option<Seq<ValueView>>,
    q: QueryView,
    scan: BboxScan,
    prim: Prim,
)
    requires
        sound(c),
        forall|k: int| 0 <= k < scan.nodes@.len() ==> #[trigger] scan.nodes@[k] < c.nodes.len(),
        forall|k: int| 0 <= k < scan.ways@.len() ==> #[trigger] scan.ways@[k] < c.ways.len(),
        forall|k: int|
            0 <= k < scan.relations@.len() ==> #[trigger] scan.relations@[k] < c.relations.len(),
        forall|r: u64| #[trigger]
            select::relation_satisfies_all(c, rows, r, q.member_filters) ==> r < c.relations.len(),
    ensures
        picks_readable(c, prim, q.keys, picks(c, rows, q, scan, prim)),
{
    let ps = picks(c, rows, q, scan, prim);
    let list = candidates(rows, q.filters, scanned(scan, prim), prim);
    assert forall|k: int| 0 <= k < ps.len() implies pick_readable(
        c,
        prim,
        q.keys,
        #[trigger] ps[k],
    ) by {
        let p = ps[k];
        if by_membership(q, prim) {
            one_feature_per_member_and_relation(c, rows, q, scan, prim, p);
            assert(ps.contains(p));
        } else {
            assert(list[k] == p.index);
            assert(list.contains(p.index));
        }
        candidates_pass_the_box_and_a_term(rows, q.filters, scanned(scan, prim), prim, p.index);
        assert(scanned(scan, prim).contains(p.index));
        let parent = parent_tags(c, p.parent);
        if let Some(r) = p.parent {
            assert(c.relations[r as int].tags.end <= c.tags_index.len());
        }
        let x = p.index as int;
        match prim {
            Prim::Node => {
                assert(x < c.nodes.len());
                assert(c.nodes[x].tags.end <= c.tags_index.len());
                lemma_sound_facts(c, c.nodes[x].tags, parent, q.keys);
            },
            Prim::Way => {
                assert(x < c.ways.len());
                assert(c.ways[x].tags.end <= c.tags_index.len());
                lemma_sound_facts(c, c.ways[x].tags, parent, q.keys);
                assert(feature::refs_readable(c, c.ways[x].refs)) by {
                    assert forall|i: int|
                        c.ways[x].refs.start <= i < c.ways[x].refs.end implies #[trigger]
                    feature::ref_readable(c, i) by {
                        assert(c.nodes_index[i] matches Some(n) ==> n < c.nodes.len());
                    }
                }
            },
            Prim::Relation => {
                assert(x < c.relations.len());
                assert(c.relations[x].tags.end <= c.tags_index.len());
                lemma_sound_lookup(c, c.relations[x].tags, "type".spec_bytes());
            },
        }
    }
}

/// The relations of a sound archive can be read whatever was measured of them.
pub proof fn a_sound_archive_gives_every_relation(
    c: ArchiveContents,
    r: u64,
    keys: Seq<Seq<u8>>,
    nothing: bool,
)
    requires
        sound(c),
        r < c.relations.len(),
    ensures
        feature::relation_readable(c, r, keys, nothing),
{
    let range = c.relations[r as int].tags;
    assert(range.end <= c.tags_index.len());
    lemma_sound_lookup(c, range, "type".spec_bytes());
    lemma_sound_lookup(c, range, "name".spec_bytes());
    lemma_sound_facts(c, range, None, keys);
}

/// A query is refused only for what it has to read: where it has member terms, the
/// relations that match them have to be found, each with a member list; every
/// primitive that it emits has to be there, with its parent relation where it has
/// one. Without member terms the members do not matter.
pub proof fn a_query_is_refused_only_for_what_it_reads(
    c: ArchiveContents,
    rows: Option<Seq<ValueView>>,
    q: QueryView,
    scan: BboxScan,
)
    ensures
        query_readable(c, rows, q, scan) <==> {
            &&& q.member_filters.len() > 0 && rows is None ==> select::relations_readable(
                c,
                q.member_filters,
            )
            &&& q.member_filters.len() > 0 ==> forall|r: u64| #[trigger]
                select::relation_satisfies_all(c, rows, r, q.member_filters) ==> r < c.members.len()
            &&& forall|k: int|
                0 <= k < picks(c, rows, q, scan, Prim::Node).len() ==> {
                    let p = #[trigger] picks(c, rows, q, scan, Prim::Node)[k];
                    match p.parent {
                        Some(r) => r < c.relations.len() && feature::node_readable(
                            c,
                            p.index,
                            q.keys,
                            Some(c.relations[r as int].tags),
                        ),
                        None => feature::node_readable(c, p.index, q.keys, None),
                    }
                }
            &&& forall|k: int|
                0 <= k < picks(c, rows, q, scan, Prim::Way).len() ==> {
                    let p = #[trigger] picks(c, rows, q, scan, Prim::Way)[k];
                    match p.parent {
                        Some(r) => r < c.relations.len() && feature::way_readable(
                            c,
                            p.index,
                            q.keys,
                            Some(c.relations[r as int].tags),
                        ),
                        None => feature::way_readable(c, p.index, q.keys, None),
                    }
                }
            &&& forall|k: int|
                0 <= k < picks(c, rows, q, scan, Prim::Relation).len() ==> feature::relation_known(
                    c,
                    (#[trigger] picks(c, rows, q, scan, Prim::Relation)[k]).index,
                )
        },
{
    let nodes = picks(c, rows, q, scan, Prim::Node);
    let ways = picks(c, rows, q, scan, Prim::Way);
    let relations = picks(c, rows, q, scan, Prim::Relation);
    assert forall|k: int| 0 <= k < nodes.len() implies pick_readable(
        c,
        Prim::Node,
        q.keys,
        #[trigger] nodes[k],
    ) == match nodes[k].parent {
        Some(r) => r < c.relations.len() && feature::node_readable(
            c,
            nodes[k].index,
            q.keys,
            Some(c.relations[r as int].tags),
        ),
        None => feature::node_readable(c, nodes[k].index, q.keys, None),
    } by {}
    assert forall|k: int| 0 <= k < ways.len() implies pick_readable(
        c,
        Prim::Way,
        q.keys,
        #[trigger] ways[k],
    ) == match ways[k].parent {
        Some(r) => r < c.relations.len() && feature::way_readable(
            c,
            ways[k].index,
            q.keys,
            Some(c.relations[r as int].tags),
        ),
        None => feature::way_readable(c, ways[k].index, q.keys, None),
    } by {}
    assert forall|k: int| 0 <= k < relations.len() implies pick_readable(
        c,
        Prim::Relation,
        q.keys,
        #[trigger] relations[k],
    ) == feature::relation_known(c, relations[k].index) by {}
}

} // verus!

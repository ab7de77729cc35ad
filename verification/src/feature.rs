//! Features: what a query emits, and how each primitive becomes one.
use osmflat::Osm;
use vstd::prelude::*;
use vstd::string::*;

use crate::archive;
use crate::archive::{
    check_lookup_readable, find_tag, node_at, node_id, node_ref_at, relation_at, relation_id, way_at, way_id,
    ArchiveContents, IndexRange,
};
use crate::tags;
use crate::tags::{
    check_attrs_readable, check_z_order_readable, collect_attrs, compute_z_order, is_area_relation,
    Attrs,
};
use crate::text;

verus! {

/// Geometry kind of a feature.
#[derive(Clone, Copy, Debug, PartialEq, Eq, Structural)]
pub enum OsmflatGeomType {
    Point,
    LineString,
    Polygon,
    /// Assembled from the member ways of an area relation.
    MultiPolygon,
}

/// OSM primitive a feature came from.
#[derive(Clone, Copy, Debug, PartialEq, Eq, Structural)]
pub enum OsmflatOsmType {
    Node,
    Way,
    Relation,
}

/// One feature of a query's result. Coordinates and the area are IEEE 754 bit
/// patterns.
#[derive(Debug)]
pub struct OwnedFeature {
    /// Real OSM id, or `None` when the archive stores none.
    pub osm_id: Option<u64>,
    pub osm_type: OsmflatOsmType,
    pub geom_type: OsmflatGeomType,
    pub is_closed: bool,
    /// Render priority; higher draws on top.
    pub z_order: i32,
    /// Enclosed area in square metres of closed ways and area relations, else 0.
    pub way_area: u64,
    /// Point or line vertices, interleaved `[x0, y0, x1, y1, ...]` in degrees;
    /// empty for a `MultiPolygon`.
    pub coords: Vec<u64>,
    /// `polygons[p][r]` is ring `r` of polygon `p`, interleaved; ring 0 is the
    /// exterior, the others are holes. Empty for a point or a line.
    pub polygons: Vec<Vec<Vec<u64>>>,
    /// Values aligned to the requested keys.
    pub attrs: Attrs,
}

/// A feature as the contracts speak of it.
#[verifier::ext_equal]
pub struct FeatureView {
    pub osm_id: Option<u64>,
    pub osm_type: OsmflatOsmType,
    pub geom_type: OsmflatGeomType,
    pub is_closed: bool,
    pub z_order: i32,
    pub way_area: u64,
    pub coords: Seq<u64>,
    pub polygons: Seq<Seq<Seq<u64>>>,
    pub attrs: Seq<Option<Seq<u8>>>,
}

/// The coordinates of the rings of a polygon.
pub open spec fn rings_view(rings: Seq<Vec<u64>>) -> Seq<Seq<u64>> {
    Seq::new(rings.len(), |i: int| rings[i]@)
}

/// The coordinates of the rings of several polygons.
pub open spec fn polygons_view(polygons: Seq<Vec<Vec<u64>>>) -> Seq<Seq<Seq<u64>>> {
    Seq::new(polygons.len(), |i: int| rings_view(polygons[i]@))
}

impl View for OwnedFeature {
    type V = FeatureView;

    open spec fn view(&self) -> FeatureView {
        FeatureView {
            osm_id: self.osm_id,
            osm_type: self.osm_type,
            geom_type: self.geom_type,
            is_closed: self.is_closed,
            z_order: self.z_order,
            way_area: self.way_area,
            coords: self.coords@,
            polygons: polygons_view(self.polygons@),
            attrs: tags::attrs_view(self.attrs@),
        }
    }
}

pub open spec fn features_view(features: Seq<OwnedFeature>) -> Seq<FeatureView> {
    Seq::new(features.len(), |i: int| features[i]@)
}

/// A node or way on its way to a feature: all of it but the conversion of its
/// vertices to degrees, which are still `(lon, lat)` in the fixed-point units of
/// the archive.
#[derive(Debug)]
pub struct Draft {
    pub osm_id: Option<u64>,
    pub osm_type: OsmflatOsmType,
    pub geom_type: OsmflatGeomType,
    pub is_closed: bool,
    pub z_order: i32,
    pub vertices: Vec<(i32, i32)>,
    pub attrs: Attrs,
}

/// A draft as the contracts speak of it.
#[verifier::ext_equal]
pub struct DraftView {
    pub osm_id: Option<u64>,
    pub osm_type: OsmflatOsmType,
    pub geom_type: OsmflatGeomType,
    pub is_closed: bool,
    pub z_order: i32,
    pub vertices: Seq<(i32, i32)>,
    pub attrs: Seq<Option<Seq<u8>>>,
}

impl View for Draft {
    type V = DraftView;

    open spec fn view(&self) -> DraftView {
        DraftView {
            osm_id: self.osm_id,
            osm_type: self.osm_type,
            geom_type: self.geom_type,
            is_closed: self.is_closed,
            z_order: self.z_order,
            vertices: self.vertices@,
            attrs: tags::attrs_view(self.attrs@),
        }
    }
}

/// What a feature takes from its tags can be looked up: its render priority and
/// its attributes.
pub open spec fn facts_readable(
    c: ArchiveContents,
    own: IndexRange,
    parent: Option<IndexRange>,
    keys: Seq<Seq<u8>>,
) -> bool {
    tags::z_order_readable(c, own) && tags::attrs_readable(c, own, parent, keys)
}

fn check_facts_readable(
    archive: &Osm,
    own: IndexRange,
    parent: Option<IndexRange>,
    keys: &[&[u8]],
) -> (r: bool)
    ensures
        r == facts_readable(
            archive::archive_contents(*archive),
            own,
            parent,
            tags::keys_view(keys@),
        ),
{
    check_z_order_readable(archive, own) && check_attrs_readable(archive, own, parent, keys)
}

/// Node `n` exists and what its feature takes from its tags can be looked up.
pub open spec fn node_readable(
    c: ArchiveContents,
    n: u64,
    keys: Seq<Seq<u8>>,
    parent: Option<IndexRange>,
) -> bool {
    n < c.nodes.len() && facts_readable(c, c.nodes[n as int].tags, parent, keys)
}

/// What node `n` becomes.
pub open spec fn node_draft(
    c: ArchiveContents,
    n: u64,
    keys: Seq<Seq<u8>>,
    parent: Option<IndexRange>,
) -> DraftView {
    let node = c.nodes[n as int];
    DraftView {
        osm_id: archive::optional_entry(c.node_ids, n as int),
        osm_type: OsmflatOsmType::Node,
        geom_type: OsmflatGeomType::Point,
        is_closed: false,
        z_order: tags::z_order_of(c, node.tags),
        vertices: seq![(node.lon, node.lat)],
        attrs: tags::attr_values(c, node.tags, parent, keys),
    }
}

/// Whether node `n` exists and what its feature takes from its tags can be looked
/// up.
pub fn check_node_readable(
    archive: &Osm,
    n: u64,
    keys: &[&[u8]],
    rel_tags: Option<IndexRange>,
) -> (r: bool)
    ensures
        r == node_readable(
            archive::archive_contents(*archive),
            n,
            tags::keys_view(keys@),
            rel_tags,
        ),
{
    match node_at(archive, n) {
        Some(node) => check_facts_readable(archive, node.tags, rel_tags, keys),
        None => false,
    }
}

/// A node becomes a point. `rel_tags` are the tags of the relation that it was
/// found as a member of.
pub fn materialize_node(
    archive: &Osm,
    idx: u64,
    keys: &[&[u8]],
    rel_tags: Option<IndexRange>,
) -> (r: Draft)
    requires
        node_readable(
            archive::archive_contents(*archive),
            idx,
            tags::keys_view(keys@),
            rel_tags,
        ),
    ensures
        r@ == node_draft(
            archive::archive_contents(*archive),
            idx,
            tags::keys_view(keys@),
            rel_tags,
        ),
{
    let ghost c = archive::archive_contents(*archive);
    let node = node_at(archive, idx).unwrap();
    let mut vertices: Vec<(i32, i32)> = Vec::new();
    vertices.push((node.lon, node.lat));
    let r = Draft {
        osm_id: node_id(archive, idx),
        osm_type: OsmflatOsmType::Node,
        geom_type: OsmflatGeomType::Point,
        is_closed: false,
        z_order: compute_z_order(archive, node.tags),
        vertices,
        attrs: collect_attrs(archive, node.tags, rel_tags, keys),
    };
    assert(r@ =~= node_draft(c, idx, tags::keys_view(keys@), rel_tags));
    r
}

/// The vertices that the references from position `i` up to `end` resolve to, in
/// order; a reference to a node that the archive does not hold gives none.
pub open spec fn resolved_from(c: ArchiveContents, i: int, end: int) -> Seq<(i32, i32)>
    decreases end - i,
{
    if i >= end {
        Seq::empty()
    } else {
        let rest = resolved_from(c, i + 1, end);
        match c.nodes_index[i] {
            Some(n) => seq![(c.nodes[n as int].lon, c.nodes[n as int].lat)] + rest,
            None => rest,
        }
    }
}

/// The vertices of way `w`.
pub open spec fn way_vertices(c: ArchiveContents, w: u64) -> Seq<(i32, i32)> {
    let refs = c.ways[w as int].refs;
    resolved_from(c, refs.start as int, refs.end as int)
}

/// Position `i` of `nodes_index` leads to a node or says that there is none.
pub open spec fn ref_readable(c: ArchiveContents, i: int) -> bool {
    &&& 0 <= i < c.nodes_index.len()
    &&& match c.nodes_index[i] {
        Some(n) => n < c.nodes.len(),
        None => true,
    }
}

pub open spec fn refs_readable(c: ArchiveContents, range: IndexRange) -> bool {
    forall|i: int| range.start <= i < range.end ==> #[trigger] ref_readable(c, i)
}

/// Way `w` exists, its references can be followed, and, where it has the two
/// vertices of a line, what its feature takes from its tags can be looked up.
pub open spec fn way_readable(
    c: ArchiveContents,
    w: u64,
    keys: Seq<Seq<u8>>,
    parent: Option<IndexRange>,
) -> bool {
    &&& w < c.ways.len()
    &&& refs_readable(c, c.ways[w as int].refs)
    &&& way_vertices(c, w).len() >= 2 ==> facts_readable(c, c.ways[w as int].tags, parent, keys)
}

/// The first and the last reference of way `w` are the same node of the archive.
pub open spec fn way_is_closed(c: ArchiveContents, w: u64) -> bool {
    let refs = c.ways[w as int].refs;
    &&& refs.start < refs.end
    &&& c.nodes_index[refs.start as int] is Some
    &&& c.nodes_index[refs.start as int] == c.nodes_index[refs.end - 1]
}

/// What way `w` becomes: nothing with fewer than two vertices.
pub open spec fn way_draft(
    c: ArchiveContents,
    w: u64,
    keys: Seq<Seq<u8>>,
    parent: Option<IndexRange>,
) -> Option<DraftView> {
    let way = c.ways[w as int];
    if way_vertices(c, w).len() < 2 {
        None
    } else {
        Some(
            DraftView {
                osm_id: archive::optional_entry(c.way_ids, w as int),
                osm_type: OsmflatOsmType::Way,
                geom_type: OsmflatGeomType::LineString,
                is_closed: way_is_closed(c, w),
                z_order: tags::z_order_of(c, way.tags),
                vertices: way_vertices(c, w),
                attrs: tags::attr_values(c, way.tags, parent, keys),
            },
        )
    }
}

/// The vertices that a range of references resolves to; `None` when one of them
/// leads nowhere.
fn follow_refs(archive: &Osm, refs: IndexRange) -> (r: Option<Vec<(i32, i32)>>)
    ensures
        match r {
            Some(v) => refs_readable(archive::archive_contents(*archive), refs) && v@
                == resolved_from(
                archive::archive_contents(*archive),
                refs.start as int,
                refs.end as int,
            ),
            None => !refs_readable(archive::archive_contents(*archive), refs),
        },
{
    let ghost c = archive::archive_contents(*archive);
    let mut v: Vec<(i32, i32)> = Vec::new();
    let mut i: u64 = refs.start;
    let ghost whole = resolved_from(c, refs.start as int, refs.end as int);
    assert(v@ + whole =~= whole);
    while i < refs.end
        invariant
            c == archive::archive_contents(*archive),
            refs.start <= i,
            i <= refs.end || i == refs.start,
            whole == resolved_from(c, refs.start as int, refs.end as int),
            forall|k: int| refs.start <= k < i ==> #[trigger] ref_readable(c, k),
            v@ + resolved_from(c, i as int, refs.end as int) == whole,
        decreases refs.end - i,
    {
        match node_ref_at(archive, i) {
            Some(Some(n)) => match node_at(archive, n) {
                Some(node) => {
                    proof {
                        let rest = resolved_from(c, i + 1, refs.end as int);
                        assert(v@ + (seq![(node.lon, node.lat)] + rest) =~= v@.push(
                            (node.lon, node.lat),
                        ) + rest);
                    }
                    v.push((node.lon, node.lat));
                },
                None => {
                    assert(!ref_readable(c, i as int));
                    return None;
                },
            },
            Some(None) => {},
            None => {
                assert(!ref_readable(c, i as int));
                return None;
            },
        }
        assert(ref_readable(c, i as int));
        i = i + 1;
    }
    assert(v@ + resolved_from(c, i as int, refs.end as int) =~= v@);
    Some(v)
}

/// Whether way `w` can be read.
pub fn check_way_readable(
    archive: &Osm,
    w: u64,
    keys: &[&[u8]],
    rel_tags: Option<IndexRange>,
) -> (r: bool)
    ensures
        r == way_readable(
            archive::archive_contents(*archive),
            w,
            tags::keys_view(keys@),
            rel_tags,
        ),
{
    match way_at(archive, w) {
        Some(way) => match follow_refs(archive, way.refs) {
            Some(v) => v.len() < 2 || check_facts_readable(archive, way.tags, rel_tags, keys),
            None => false,
        },
        None => false,
    }
}

/// A way becomes a line string, open or closed alike; one with fewer than two
/// vertices becomes nothing.
pub fn materialize_way(
    archive: &Osm,
    idx: u64,
    keys: &[&[u8]],
    rel_tags: Option<IndexRange>,
) -> (r: Option<Draft>)
    requires
        way_readable(
            archive::archive_contents(*archive),
            idx,
            tags::keys_view(keys@),
            rel_tags,
        ),
    ensures
        match r {
            Some(d) => way_draft(
                archive::archive_contents(*archive),
                idx,
                tags::keys_view(keys@),
                rel_tags,
            ) == Some(d@),
            None => way_draft(
                archive::archive_contents(*archive),
                idx,
                tags::keys_view(keys@),
                rel_tags,
            ) is None,
        },
        r matches Some(d) ==> ({
            let refs = archive::archive_contents(*archive).ways[idx as int].refs;
            let first = archive::archive_contents(*archive).nodes_index[refs.start as int];
            let last = archive::archive_contents(*archive).nodes_index[refs.end - 1];
            d.is_closed <==> first is Some && last is Some && first->0 == last->0
        }),
{
    let ghost c = archive::archive_contents(*archive);
    let way = way_at(archive, idx).unwrap();
    let vertices = follow_refs(archive, way.refs).unwrap();
    if vertices.len() < 2 {
        return None;
    }
    let (begin, end) = (way.refs.start, way.refs.end);
    let is_closed: bool = if begin < end {
        assert(ref_readable(c, begin as int));
        assert(ref_readable(c, end - 1));
        match (node_ref_at(archive, begin).unwrap(), node_ref_at(archive, end - 1).unwrap()) {
            (Some(first), Some(last)) => first == last,
            _ => false,
        }
    } else {
        false
    };
    let d = Draft {
        osm_id: way_id(archive, idx),
        osm_type: OsmflatOsmType::Way,
        geom_type: OsmflatGeomType::LineString,
        is_closed,
        z_order: compute_z_order(archive, way.tags),
        vertices,
        attrs: collect_attrs(archive, way.tags, rel_tags, keys),
    };
    assert(Some(d@) =~= way_draft(c, idx, tags::keys_view(keys@), rel_tags));
    Some(d)
}

/// How many vertices of a line have to remain when it is simplified: those of a
/// ring when it is closed, else those of a line.
pub open spec fn fewest_vertices(is_closed: bool) -> int {
    if is_closed {
        4
    } else {
        2
    }
}

/// The number of vertices that simplification has to leave.
pub fn least_vertices(is_closed: bool) -> (r: usize)
    ensures
        r == fewest_vertices(is_closed),
{
    if is_closed {
        4
    } else {
        2
    }
}

/// What was measured of a draft: its simplified vertices in degrees,
/// interleaved, and the area in square metres that its vertices enclose at full
/// resolution. All are bit patterns.
#[derive(Debug)]
pub struct Line {
    pub coords: Vec<u64>,
    pub area_m2: u64,
}

/// The feature that a draft and its measured line make up: only a closed line
/// has an area.
pub open spec fn line_feature(d: DraftView, coords: Seq<u64>, area_m2: u64) -> FeatureView {
    FeatureView {
        osm_id: d.osm_id,
        osm_type: d.osm_type,
        geom_type: d.geom_type,
        is_closed: d.is_closed,
        z_order: d.z_order,
        way_area: if d.is_closed {
            area_m2
        } else {
            0
        },
        coords,
        polygons: Seq::empty(),
        attrs: d.attrs,
    }
}

impl Draft {
    /// Completes a draft with its measured line.
    pub fn finish(self, line: Line) -> (r: OwnedFeature)
        ensures
            r@ == line_feature(self@, line.coords@, line.area_m2),
    {
        let r = OwnedFeature {
            osm_id: self.osm_id,
            osm_type: self.osm_type,
            geom_type: self.geom_type,
            is_closed: self.is_closed,
            z_order: self.z_order,
            way_area: if self.is_closed {
                line.area_m2
            } else {
                0
            },
            coords: line.coords,
            polygons: Vec::new(),
            attrs: self.attrs,
        };
        assert(r@.polygons =~= Seq::empty());
        r
    }
}

/// The rings of an area relation, simplified, in degrees: those of the sidecar,
/// which holds closed polygons alone, or those assembled from its member ways,
/// with the outer chains that did not close.
#[derive(Debug)]
pub enum RelationRings {
    Precomputed(Vec<Vec<Vec<u64>>>),
    Live(Vec<Vec<Vec<u64>>>, Vec<Vec<u64>>),
}

/// What was measured of an area relation: its rings, and the net area of its
/// polygons at full resolution in square metres.
#[derive(Debug)]
pub struct RelationShape {
    pub rings: RelationRings,
    pub area_m2: u64,
}

impl RelationShape {
    /// The closed polygons.
    pub open spec fn polygons(&self) -> Seq<Seq<Seq<u64>>> {
        match self.rings {
            RelationRings::Precomputed(p) => polygons_view(p@),
            RelationRings::Live(p, _) => polygons_view(p@),
        }
    }

    /// The chains that did not close.
    pub open spec fn chains(&self) -> Seq<Seq<u64>> {
        match self.rings {
            RelationRings::Precomputed(_) => Seq::empty(),
            RelationRings::Live(_, chains) => rings_view(chains@),
        }
    }

    /// Neither a polygon nor a chain.
    pub open spec fn nothing(&self) -> bool {
        self.polygons().len() == 0 && self.chains().len() == 0
    }

    fn is_nothing(&self) -> (r: bool)
        ensures
            r == self.nothing(),
    {
        match &self.rings {
            RelationRings::Precomputed(p) => p.len() == 0,
            RelationRings::Live(p, chains) => p.len() == 0 && chains.len() == 0,
        }
    }
}

/// What every feature of one relation has in common.
pub struct RelationFacts {
    pub osm_id: Option<u64>,
    pub z_order: i32,
    pub attrs: Seq<Option<Seq<u8>>>,
}

/// What relation `r` gives to each of its features.
pub open spec fn relation_facts(c: ArchiveContents, r: u64, keys: Seq<Seq<u8>>) -> RelationFacts {
    let range = c.relations[r as int].tags;
    RelationFacts {
        osm_id: archive::optional_entry(c.relation_ids, r as int),
        z_order: tags::z_order_of(c, range),
        attrs: tags::attr_values(c, range, None, keys),
    }
}

/// The feature of the closed polygons of a relation.
pub open spec fn polygons_feature(
    facts: RelationFacts,
    polygons: Seq<Seq<Seq<u64>>>,
    area_m2: u64,
) -> FeatureView {
    FeatureView {
        osm_id: facts.osm_id,
        osm_type: OsmflatOsmType::Relation,
        geom_type: OsmflatGeomType::MultiPolygon,
        is_closed: true,
        z_order: facts.z_order,
        way_area: area_m2,
        coords: Seq::empty(),
        polygons,
        attrs: facts.attrs,
    }
}

/// The feature of one chain that did not close.
pub open spec fn chain_feature(facts: RelationFacts, coords: Seq<u64>) -> FeatureView {
    FeatureView {
        osm_id: facts.osm_id,
        osm_type: OsmflatOsmType::Relation,
        geom_type: OsmflatGeomType::LineString,
        is_closed: false,
        z_order: facts.z_order,
        way_area: 0,
        coords,
        polygons: Seq::empty(),
        attrs: facts.attrs,
    }
}

/// The features of the chains, without those that have fewer than two vertices.
pub open spec fn chain_features(facts: RelationFacts, chains: Seq<Seq<u64>>) -> Seq<FeatureView>
    decreases chains.len(),
{
    if chains.len() == 0 {
        Seq::empty()
    } else {
        let rest = chain_features(facts, chains.drop_last());
        if chains.last().len() >= 4 {
            rest.push(chain_feature(facts, chains.last()))
        } else {
            rest
        }
    }
}

/// Relation `r` exists, and whether it stands for an area can be looked up.
pub open spec fn relation_known(c: ArchiveContents, r: u64) -> bool {
    r < c.relations.len() && tags::kind_readable(c, c.relations[r as int].tags)
}

/// Relation `r` is known and, where it stands for an area, its tags can be looked
/// up: for its features or, when there is `nothing` to make them of, for its name.
pub open spec fn relation_readable(
    c: ArchiveContents,
    r: u64,
    keys: Seq<Seq<u8>>,
    nothing: bool,
) -> bool {
    let range = c.relations[r as int].tags;
    relation_known(c, r) && (is_area(c, r) ==> if nothing {
        archive::lookup_readable(c, range, "name".spec_bytes())
    } else {
        facts_readable(c, range, None, keys)
    })
}

/// Relation `r` stands for an area.
pub open spec fn is_area(c: ArchiveContents, r: u64) -> bool {
    tags::area_tags(c, c.relations[r as int].tags)
}

/// What relation `r` becomes: nothing unless it stands for an area; else one
/// feature for its polygons, if there are any, and one for each chain.
pub open spec fn relation_features(
    c: ArchiveContents,
    r: u64,
    keys: Seq<Seq<u8>>,
    polygons: Seq<Seq<Seq<u64>>>,
    chains: Seq<Seq<u64>>,
    area_m2: u64,
) -> Seq<FeatureView> {
    let facts = relation_facts(c, r, keys);
    if !is_area(c, r) {
        Seq::empty()
    } else if polygons.len() == 0 {
        chain_features(facts, chains)
    } else {
        seq![polygons_feature(facts, polygons, area_m2)] + chain_features(facts, chains)
    }
}

/// Whether relation `r` exists and it can be looked up if it stands for an area.
pub fn check_relation_known(archive: &Osm, r: u64) -> (ok: bool)
    ensures
        ok == relation_known(archive::archive_contents(*archive), r),
{
    match relation_at(archive, r) {
        Some(relation) => check_lookup_readable(archive, relation.tags, "type".as_bytes()),
        None => false,
    }
}

/// Whether relation `r` can be read as far as its features, or its name, ask.
pub fn check_relation_readable(
    archive: &Osm,
    r: u64,
    keys: &[&[u8]],
    shape: &RelationShape,
) -> (ok: bool)
    ensures
        ok == relation_readable(
            archive::archive_contents(*archive),
            r,
            tags::keys_view(keys@),
            shape.nothing(),
        ),
{
    if !check_relation_known(archive, r) {
        return false;
    }
    let range: IndexRange = relation_at(archive, r).unwrap().tags;
    if !is_area_relation(archive, range) {
        true
    } else if shape.is_nothing() {
        check_lookup_readable(archive, range, "name".as_bytes())
    } else {
        check_facts_readable(archive, range, None, keys)
    }
}

fn copy_attrs(attrs: &Attrs) -> (r: Attrs)
    ensures
        tags::attrs_view(r@) == tags::attrs_view(attrs@),
{
    let mut r: Attrs = Vec::new();
    let mut i: usize = 0;
    while i < attrs.len()
        invariant
            i <= attrs@.len(),
            r@.len() == i,
            forall|k: int|
                0 <= k < i ==> tags::attr_view(#[trigger] r@[k]) == tags::attr_view(attrs@[k]),
        decreases attrs@.len() - i,
    {
        let copy: Option<Vec<u8>> = match &attrs[i] {
            Some(v) => Some(vstd::slice::slice_to_vec(v.as_slice())),
            None => None,
        };
        r.push(copy);
        i = i + 1;
    }
    assert(tags::attrs_view(r@) =~= tags::attrs_view(attrs@));
    r
}

/// An area relation becomes a multipolygon of its closed rings, and a line string
/// of every chain of at least two vertices that did not close; any other relation
/// becomes nothing.
pub fn materialize_relation(
    archive: &Osm,
    idx: u64,
    keys: &[&[u8]],
    shape: RelationShape,
) -> (r: Vec<OwnedFeature>)
    requires
        relation_readable(
            archive::archive_contents(*archive),
            idx,
            tags::keys_view(keys@),
            shape.nothing(),
        ),
    ensures
        features_view(r@) == relation_features(
            archive::archive_contents(*archive),
            idx,
            tags::keys_view(keys@),
            shape.polygons(),
            shape.chains(),
            shape.area_m2,
        ),
        r@.len() > 0 && shape.polygons().len() > 0 ==> {
            &&& r@[0].polygons@.len() == shape.polygons().len()
            &&& forall|p: int|
                0 <= p < shape.polygons().len() ==> (#[trigger] r@[0].polygons@[p])@.len()
                    == shape.polygons()[p].len()
            &&& forall|p: int, q: int|
                0 <= p < shape.polygons().len() && 0 <= q < shape.polygons()[p].len() ==> (
                #[trigger] r@[0].polygons@[p]@[q])@ == shape.polygons()[p][q]
        },
{
    let ghost c = archive::archive_contents(*archive);
    let ghost facts = relation_facts(c, idx, tags::keys_view(keys@));
    let ghost all_chains = shape.chains();
    let relation = relation_at(archive, idx).unwrap();
    let mut features: Vec<OwnedFeature> = Vec::new();
    assert(features_view(features@) =~= Seq::empty());
    if !is_area_relation(archive, relation.tags) || shape.is_nothing() {
        return features;
    }
    let area_m2: u64 = shape.area_m2;
    let (polygons, chains) = match shape.rings {
        RelationRings::Precomputed(p) => (p, Vec::new()),
        RelationRings::Live(p, chains) => (p, chains),
    };
    assert(rings_view(chains@) =~= all_chains);
    let osm_id: Option<u64> = relation_id(archive, idx);
    let z_order: i32 = compute_z_order(archive, relation.tags);
    let attrs: Attrs = collect_attrs(archive, relation.tags, None, keys);
    if polygons.len() > 0 {
        let f = OwnedFeature {
            osm_id,
            osm_type: OsmflatOsmType::Relation,
            geom_type: OsmflatGeomType::MultiPolygon,
            is_closed: true,
            z_order,
            way_area: area_m2,
            coords: Vec::new(),
            polygons,
            attrs: copy_attrs(&attrs),
        };
        assert(f@ =~= polygons_feature(facts, shape.polygons(), area_m2));
        features.push(f);
    }
    let ghost first = features_view(features@);
    let mut k: usize = 0;
    proof {
        assert(all_chains.take(0) =~= Seq::empty());
        assert(first + chain_features(facts, all_chains.take(0)) =~= first);
    }
    while k < chains.len()
        invariant
            k <= chains@.len(),
            all_chains == rings_view(chains@),
            facts == relation_facts(c, idx, tags::keys_view(keys@)),
            osm_id == facts.osm_id,
            z_order == facts.z_order,
            tags::attrs_view(attrs@) == facts.attrs,
            features_view(features@) == first + chain_features(facts, all_chains.take(k as int)),
        decreases chains@.len() - k,
    {
        let ghost before = features_view(features@);
        let chain: &Vec<u64> = &chains[k];
        proof {
            assert(all_chains.take(k + 1).drop_last() =~= all_chains.take(k as int));
            assert(all_chains.take(k + 1).last() == chain@);
        }
        if chain.len() >= 4 {
            let f = OwnedFeature {
                osm_id,
                osm_type: OsmflatOsmType::Relation,
                geom_type: OsmflatGeomType::LineString,
                is_closed: false,
                z_order,
                way_area: 0,
                coords: vstd::slice::slice_to_vec(chain.as_slice()),
                polygons: Vec::new(),
                attrs: copy_attrs(&attrs),
            };
            assert(f@ =~= chain_feature(facts, chain@));
            features.push(f);
            assert(features_view(features@) =~= before.push(f@));
        }
        assert(features_view(features@) =~= first + chain_features(facts, all_chains.take(k + 1)));
        k = k + 1;
    }
    assert(all_chains.take(k as int) =~= all_chains);
    assert(features_view(features@) =~= relation_features(
        c,
        idx,
        tags::keys_view(keys@),
        shape.polygons(),
        all_chains,
        area_m2,
    ));
    proof {
        if shape.polygons().len() > 0 {
            let kept = features@[0]@.polygons;
            assert(features_view(features@)[0] == features@[0]@);
            assert(kept == shape.polygons());
            assert forall|p: int| 0 <= p < shape.polygons().len() implies (
            #[trigger] features@[0].polygons@[p])@.len() == shape.polygons()[p].len() by {
                assert(kept[p].len() == features@[0].polygons@[p]@.len());
            }
            assert forall|p: int, q: int|
                0 <= p < shape.polygons().len() && 0 <= q < shape.polygons()[p].len() implies (
            #[trigger] features@[0].polygons@[p]@[q])@ == shape.polygons()[p][q] by {
                assert(kept[p][q] == features@[0].polygons@[p]@[q]@);
            }
        }
    }
    features
}

/// An area relation that gives no feature at all, because its outer ways form
/// neither a ring nor a chain: its OSM id and its name.
#[derive(Debug)]
pub struct DroppedRelation {
    pub osm_id: Option<u64>,
    pub name: Option<Vec<u8>>,
}

/// The relation that is to be reported as dropped, if it is.
pub fn dropped_relation(
    archive: &Osm,
    idx: u64,
    keys: &[&[u8]],
    shape: &RelationShape,
) -> (r: Option<DroppedRelation>)
    requires
        relation_readable(
            archive::archive_contents(*archive),
            idx,
            tags::keys_view(keys@),
            shape.nothing(),
        ),
    ensures
        r is Some <==> is_area(archive::archive_contents(*archive), idx) && shape.nothing(),
        r matches Some(d) ==> d.osm_id == archive::optional_entry(
            archive::archive_contents(*archive).relation_ids,
            idx as int,
        ) && tags::attr_view(d.name) == archive::tag_value(
            archive::archive_contents(*archive),
            archive::archive_contents(*archive).relations[idx as int].tags,
            "name".spec_bytes(),
        ),
{
    let relation = relation_at(archive, idx).unwrap();
    if !is_area_relation(archive, relation.tags) || !shape.is_nothing() {
        return None;
    }
    let name: Option<Vec<u8>> = match find_tag(archive, relation.tags, "name".as_bytes()) {
        Some(v) => Some(vstd::slice::slice_to_vec(v)),
        None => None,
    };
    Some(DroppedRelation { osm_id: relation_id(archive, idx), name })
}

/// With precomputed rings a relation without a closed polygon gives no feature,
/// and one with polygons gives exactly one.
pub proof fn precomputed_rings_give_no_open_line(
    c: ArchiveContents,
    r: u64,
    keys: Seq<Seq<u8>>,
    shape: RelationShape,
)
    requires
        shape.rings is Precomputed,
    ensures
        relation_features(c, r, keys, shape.polygons(), shape.chains(), shape.area_m2).len() == if (
        is_area(c, r) && shape.polygons().len() > 0) {
            1int
        } else {
            0
        },
{
}

/// A feature is read as it is stored: its coordinates, each ring of each polygon
/// and each attribute in its place.
pub proof fn features_are_read_as_they_are_stored(f: OwnedFeature, p: int, r: int)
    ensures
        f@.osm_id == f.osm_id,
        f@.osm_type == f.osm_type,
        f@.geom_type == f.geom_type,
        f@.is_closed == f.is_closed,
        f@.z_order == f.z_order,
        f@.way_area == f.way_area,
        f@.coords == f.coords@,
        f@.polygons.len() == f.polygons@.len(),
        0 <= p < f.polygons@.len() ==> f@.polygons[p].len() == f.polygons@[p]@.len(),
        0 <= p < f.polygons@.len() && 0 <= r < f.polygons@[p]@.len() ==> f@.polygons[p][r]
            == f.polygons@[p]@[r]@,
        f@.attrs.len() == f.attrs@.len(),
        0 <= p < f.attrs@.len() ==> match f.attrs@[p] {
            Some(b) => f@.attrs[p] == Some(b@),
            None => f@.attrs[p] is None,
        },
{
    tags::attributes_keep_their_bytes(f.attrs@, Seq::empty(), p);
}

/// So are the features of a list, and a draft.
pub proof fn lists_and_drafts_are_read_as_they_are_stored(
    fs: Seq<OwnedFeature>,
    d: Draft,
    i: int,
)
    ensures
        features_view(fs).len() == fs.len(),
        0 <= i < fs.len() ==> features_view(fs)[i] == fs[i]@,
        d@.osm_id == d.osm_id,
        d@.osm_type == d.osm_type,
        d@.geom_type == d.geom_type,
        d@.is_closed == d.is_closed,
        d@.z_order == d.z_order,
        d@.vertices == d.vertices@,
        d@.attrs.len() == d.attrs@.len(),
        0 <= i < d.attrs@.len() ==> match d.attrs@[i] {
            Some(b) => d@.attrs[i] == Some(b@),
            None => d@.attrs[i] is None,
        },
{
    tags::attributes_keep_their_bytes(d.attrs@, Seq::empty(), i);
}

/// A node becomes a point at its own place, with its own id, the priority of its
/// tags, and a value for each key.
pub proof fn a_node_becomes_a_point_at_its_place(
    c: ArchiveContents,
    n: u64,
    keys: Seq<Seq<u8>>,
    parent: Option<IndexRange>,
)
    requires
        n < c.nodes.len(),
    ensures
        ({
            let d = node_draft(c, n, keys, parent);
            &&& c.node_ids is None ==> d.osm_id is None
            &&& c.node_ids matches Some(ids) ==> d.osm_id == if n < ids.len() {
                Some(ids[n as int])
            } else {
                None
            }
            &&& d.osm_type == OsmflatOsmType::Node
            &&& d.geom_type == OsmflatGeomType::Point
            &&& !d.is_closed
            &&& d.vertices.len() == 1
            &&& d.vertices[0].0 == c.nodes[n as int].lon
            &&& d.vertices[0].1 == c.nodes[n as int].lat
            &&& d.z_order == tags::z_order_of(c, c.nodes[n as int].tags)
            &&& d.attrs == tags::attr_values(c, c.nodes[n as int].tags, parent, keys)
        }),
{
}

/// The references of a way are followed one after the other; each that leads to a
/// node gives the vertex at the place of that node, and any other gives none.
pub proof fn references_are_followed_in_order(c: ArchiveContents, i: int, m: int, end: int)
    requires
        i <= m <= end,
    ensures
        resolved_from(c, i, end) == resolved_from(c, i, m) + resolved_from(c, m, end),
        resolved_from(c, i, i).len() == 0,
        i < end ==> match c.nodes_index[i] {
            Some(n) => resolved_from(c, i, i + 1).len() == 1 && resolved_from(c, i, i + 1)[0].0
                == c.nodes[n as int].lon && resolved_from(c, i, i + 1)[0].1 == c.nodes[n as int].lat,
            None => resolved_from(c, i, i + 1).len() == 0,
        },
    decreases m - i,
{
    reveal_with_fuel(resolved_from, 2);
    if i < m {
        references_are_followed_in_order(c, i + 1, m, end);
        assert(resolved_from(c, i, end) =~= resolved_from(c, i, m) + resolved_from(c, m, end));
    } else {
        assert(resolved_from(c, i, end) =~= resolved_from(c, i, m) + resolved_from(c, m, end));
    }
}

/// A way becomes a line of its vertices, with its own id, the priority of its tags,
/// and a value for each key, exactly if it has two vertices or more.
pub proof fn a_way_becomes_a_line_of_its_vertices(
    c: ArchiveContents,
    w: u64,
    keys: Seq<Seq<u8>>,
    parent: Option<IndexRange>,
)
    requires
        w < c.ways.len(),
    ensures
        ({
            let way = c.ways[w as int];
            let vertices = resolved_from(c, way.refs.start as int, way.refs.end as int);
            &&& way_draft(c, w, keys, parent) is Some <==> vertices.len() >= 2
            &&& way_draft(c, w, keys, parent) matches Some(d) ==> {
                &&& c.way_ids is None ==> d.osm_id is None
                &&& c.way_ids matches Some(ids) ==> d.osm_id == if w < ids.len() {
                    Some(ids[w as int])
                } else {
                    None
                }
                &&& d.osm_type == OsmflatOsmType::Way
                &&& d.geom_type == OsmflatGeomType::LineString
                &&& d.vertices == vertices
                &&& d.z_order == tags::z_order_of(c, way.tags)
                &&& d.attrs == tags::attr_values(c, way.tags, parent, keys)
            }
        }),
{
}

/// A way is closed exactly if its first and its last reference lead to the same
/// node. A closed way ends where it began, so one that ends elsewhere is open.
pub proof fn a_closed_way_ends_where_it_began(
    c: ArchiveContents,
    w: u64,
    keys: Seq<Seq<u8>>,
    parent: Option<IndexRange>,
)
    requires
        w < c.ways.len(),
    ensures
        ({
            let refs = c.ways[w as int].refs;
            way_draft(c, w, keys, parent) matches Some(d) ==> {
                &&& refs.start < refs.end
                &&& d.is_closed <==> c.nodes_index[refs.start as int] is Some
                    && c.nodes_index[refs.end - 1] is Some && c.nodes_index[refs.start as int]->0
                    == c.nodes_index[refs.end - 1]->0
                &&& d.is_closed ==> d.vertices[0] == d.vertices[d.vertices.len() - 1]
                &&& d.vertices[0] != d.vertices[d.vertices.len() - 1] ==> !d.is_closed
            }
        }),
{
    let refs = c.ways[w as int].refs;
    if let Some(d) = way_draft(c, w, keys, parent) {
        let (s, e) = (refs.start as int, refs.end as int);
        assert(s < e);
        references_are_followed_in_order(c, s, s + 1, e);
        references_are_followed_in_order(c, s, e - 1, e);
        references_are_followed_in_order(c, e - 1, e, e);
    }
}

/// A draft and its line make up a feature of the line's coordinates; its area is
/// the measured one if it is closed, and zero if it is not.
pub proof fn a_line_keeps_what_was_drafted(d: DraftView, coords: Seq<u64>, area_m2: u64)
    ensures
        ({
            let f = line_feature(d, coords, area_m2);
            &&& f.osm_id == d.osm_id
            &&& f.osm_type == d.osm_type
            &&& f.geom_type == d.geom_type
            &&& f.is_closed == d.is_closed
            &&& f.z_order == d.z_order
            &&& f.attrs == d.attrs
            &&& f.coords == coords
            &&& f.polygons.len() == 0
            &&& d.is_closed ==> f.way_area == area_m2
            &&& !d.is_closed ==> f.way_area == 0
        }),
{
}

/// A ring keeps four vertices, any other line two.
pub proof fn rings_keep_four_vertices()
    ensures
        fewest_vertices(true) == 4,
        fewest_vertices(false) == 2,
{
}

/// The polygons of a shape are those that were measured, each with all of its
/// rings in order; stored rings come without chains, assembled ones with theirs.
pub proof fn a_shape_holds_every_ring(
    polygons: Vec<Vec<Vec<u64>>>,
    chains: Vec<Vec<u64>>,
    area_m2: u64,
    p: int,
    r: int,
)
    ensures
        ({
            let stored = RelationShape { rings: RelationRings::Precomputed(polygons), area_m2 };
            let live = RelationShape { rings: RelationRings::Live(polygons, chains), area_m2 };
            &&& stored.polygons().len() == polygons@.len()
            &&& live.polygons() == stored.polygons()
            &&& 0 <= p < polygons@.len() ==> stored.polygons()[p].len() == polygons@[p]@.len()
            &&& 0 <= p < polygons@.len() && 0 <= r < polygons@[p]@.len()
                ==> stored.polygons()[p][r] == polygons@[p]@[r]@
            &&& stored.chains().len() == 0
            &&& live.chains().len() == chains@.len()
            &&& 0 <= p < chains@.len() ==> live.chains()[p] == chains@[p]@
            &&& stored.nothing() <==> polygons@.len() == 0
            &&& live.nothing() <==> polygons@.len() == 0 && chains@.len() == 0
        }),
{
}

/// An area relation with polygons becomes first of all one multipolygon, which has
/// exactly these polygons with all of their rings, the measured area, and the id,
/// priority and values of the relation. Without polygons it becomes no multipolygon,
/// and a relation that stands for no area becomes nothing.
pub proof fn a_multipolygon_has_every_ring(
    c: ArchiveContents,
    r: u64,
    keys: Seq<Seq<u8>>,
    polygons: Seq<Seq<Seq<u64>>>,
    chains: Seq<Seq<u64>>,
    area_m2: u64,
    p: int,
    q: int,
)
    requires
        r < c.relations.len(),
    ensures
        ({
            let fs = relation_features(c, r, keys, polygons, chains, area_m2);
            let range = c.relations[r as int].tags;
            &&& !tags::area_tags(c, range) ==> fs.len() == 0
            &&& tags::area_tags(c, range) && polygons.len() > 0 ==> {
                &&& fs.len() >= 1
                &&& fs[0].geom_type == OsmflatGeomType::MultiPolygon
                &&& fs[0].osm_type == OsmflatOsmType::Relation
                &&& fs[0].is_closed
                &&& fs[0].way_area == area_m2
                &&& fs[0].coords.len() == 0
                &&& fs[0].polygons.len() == polygons.len()
                &&& 0 <= p < polygons.len() ==> fs[0].polygons[p].len() == polygons[p].len()
                &&& 0 <= p < polygons.len() && 0 <= q < polygons[p].len()
                    ==> fs[0].polygons[p][q] == polygons[p][q]
                &&& c.relation_ids is None ==> fs[0].osm_id is None
                &&& c.relation_ids matches Some(ids) ==> fs[0].osm_id == if r < ids.len() {
                    Some(ids[r as int])
                } else {
                    None
                }
                &&& fs[0].z_order == tags::z_order_of(c, range)
                &&& fs[0].attrs == tags::attr_values(c, range, None, keys)
                &&& fs.skip(1) == relation_features(c, r, keys, Seq::empty(), chains, area_m2)
            }
        }),
{
    let fs = relation_features(c, r, keys, polygons, chains, area_m2);
    if is_area(c, r) && polygons.len() > 0 {
        assert(fs.skip(1) =~= relation_features(c, r, keys, Seq::empty(), chains, area_m2));
    }
}

proof fn lemma_chains_in_order(facts: RelationFacts, a: Seq<Seq<u64>>, b: Seq<Seq<u64>>)
    ensures
        chain_features(facts, a + b) == chain_features(facts, a) + chain_features(facts, b),
    decreases b.len(),
{
    if b.len() == 0 {
        assert(a + b =~= a);
        assert(chain_features(facts, a) + chain_features(facts, b) =~= chain_features(facts, a));
    } else {
        lemma_chains_in_order(facts, a, b.drop_last());
        assert((a + b).drop_last() =~= a + b.drop_last());
        assert(chain_features(facts, a + b) =~= chain_features(facts, a) + chain_features(
            facts,
            b,
        ));
    }
}

/// The chains of an area relation without polygons become lines one after the
/// other: one of two vertices or more becomes an open line of its coordinates,
/// without an area, and any other becomes nothing.
pub proof fn open_chains_become_open_lines(
    c: ArchiveContents,
    r: u64,
    keys: Seq<Seq<u8>>,
    before: Seq<Seq<u64>>,
    chain: Seq<u64>,
    area_m2: u64,
)
    requires
        r < c.relations.len(),
        tags::area_tags(c, c.relations[r as int].tags),
    ensures
        ({
            let none = Seq::<Seq<Seq<u64>>>::empty();
            let range = c.relations[r as int].tags;
            let fs = relation_features(c, r, keys, none, before.push(chain), area_m2);
            let first = relation_features(c, r, keys, none, before, area_m2);
            let f = fs[fs.len() - 1];
            &&& relation_features(c, r, keys, none, Seq::empty(), area_m2).len() == 0
            &&& chain.len() < 4 ==> fs == first
            &&& chain.len() >= 4 ==> {
                &&& fs == first.push(f)
                &&& f.geom_type == OsmflatGeomType::LineString
                &&& f.osm_type == OsmflatOsmType::Relation
                &&& !f.is_closed
                &&& f.way_area == 0
                &&& f.coords == chain
                &&& f.polygons.len() == 0
                &&& c.relation_ids is None ==> f.osm_id is None
                &&& c.relation_ids matches Some(ids) ==> f.osm_id == if r < ids.len() {
                    Some(ids[r as int])
                } else {
                    None
                }
                &&& f.z_order == tags::z_order_of(c, range)
                &&& f.attrs == tags::attr_values(c, range, None, keys)
            }
        }),
{
    let facts = relation_facts(c, r, keys);
    let one = seq![chain];
    assert(before.push(chain) =~= before + one);
    lemma_chains_in_order(facts, before, one);
    assert(one.drop_last() =~= Seq::empty());
    reveal_with_fuel(chain_features, 2);
    let first = chain_features(facts, before);
    if chain.len() >= 4 {
        assert(chain_features(facts, one) =~= seq![chain_feature(facts, chain)]);
        assert(first + chain_features(facts, one) =~= first.push(chain_feature(facts, chain)));
    } else {
        assert(first + chain_features(facts, one) =~= first);
    }
}

/// A feature reads the four tags of its priority, and a tag for each key: of its own
/// or, for a key of the form `rel_` and a name, of the parent relation where there is
/// one.
pub proof fn a_feature_reads_its_priority_and_its_keys(
    c: ArchiveContents,
    own: IndexRange,
    rel: IndexRange,
    keys: Seq<Seq<u8>>,
)
    ensures
        ({
            let priority = archive::lookup_readable(c, own, "layer".spec_bytes())
                && archive::lookup_readable(c, own, "bridge".spec_bytes())
                && archive::lookup_readable(c, own, "tunnel".spec_bytes())
                && archive::lookup_readable(c, own, "highway".spec_bytes());
            &&& facts_readable(c, own, None, keys) <==> priority && forall|i: int|
                0 <= i < keys.len() ==> archive::lookup_readable(c, own, #[trigger] keys[i])
            &&& facts_readable(c, own, Some(rel), keys) <==> priority && forall|i: int|
                0 <= i < keys.len() ==> if (#[trigger] keys[i]).len() >= 4 && keys[i][0] == 114
                    && keys[i][1] == 101 && keys[i][2] == 108 && keys[i][3] == 95 {
                    archive::lookup_readable(c, rel, keys[i].skip(4))
                } else {
                    archive::lookup_readable(c, own, keys[i])
                }
        }),
{
    reveal_strlit("rel_");
    is_ascii_spec_bytes("rel_");
    let prefix = "rel_".spec_bytes();
    assert(prefix =~= seq![114u8, 101, 108, 95]);
    assert forall|i: int| 0 <= i < keys.len() implies tags::attr_readable(
        c,
        own,
        None,
        #[trigger] keys[i],
    ) == archive::lookup_readable(c, own, keys[i]) by {}
    assert forall|i: int| 0 <= i < keys.len() implies tags::attr_readable(
        c,
        own,
        Some(rel),
        #[trigger] keys[i],
    ) == if keys[i].len() >= 4 && keys[i][0] == 114 && keys[i][1] == 101 && keys[i][2] == 108
        && keys[i][3] == 95 {
        archive::lookup_readable(c, rel, keys[i].skip(4))
    } else {
        archive::lookup_readable(c, own, keys[i])
    } by {
        let key = keys[i];
        text::a_prefix_is_what_comes_first(key, prefix, Seq::empty());
        if text::has_prefix(key, prefix) {
            assert(prefix[0] == key[0] && prefix[1] == key[1] && prefix[2] == key[2] && prefix[3]
                == key[3]);
        }
    }
    if facts_readable(c, own, None, keys) {
        assert forall|i: int| 0 <= i < keys.len() implies archive::lookup_readable(
            c,
            own,
            #[trigger] keys[i],
        ) by {
            assert(tags::attr_readable(c, own, None, keys[i]));
        }
    }
    if facts_readable(c, own, Some(rel), keys) {
        assert forall|i: int| 0 <= i < keys.len() implies if (#[trigger] keys[i]).len() >= 4
            && keys[i][0] == 114 && keys[i][1] == 101 && keys[i][2] == 108 && keys[i][3] == 95 {
            archive::lookup_readable(c, rel, keys[i].skip(4))
        } else {
            archive::lookup_readable(c, own, keys[i])
        } by {
            assert(tags::attr_readable(c, own, Some(rel), keys[i]));
        }
    }
}

/// A node has to be there with what its feature reads. Of a way every reference has
/// to lead to a node or say that there is none; what its feature reads matters only
/// if the way has two vertices. Of a relation the `type` is read, and if that stands
/// for an area, what its feature reads or, where there is nothing to make one of, its
/// name.
pub proof fn only_what_is_read_has_to_be_there(
    c: ArchiveContents,
    i: u64,
    keys: Seq<Seq<u8>>,
    parent: Option<IndexRange>,
)
    ensures
        node_readable(c, i, keys, parent) <==> i < c.nodes.len() && facts_readable(
            c,
            c.nodes[i as int].tags,
            parent,
            keys,
        ),
        way_readable(c, i, keys, parent) <==> i < c.ways.len() && {
            let refs = c.ways[i as int].refs;
            &&& forall|k: int|
                refs.start <= k < refs.end ==> k < c.nodes_index.len() && (
                #[trigger] c.nodes_index[k] matches Some(n) ==> n < c.nodes.len())
            &&& resolved_from(c, refs.start as int, refs.end as int).len() >= 2 ==> facts_readable(
                c,
                c.ways[i as int].tags,
                parent,
                keys,
            )
        },
        relation_known(c, i) <==> i < c.relations.len() && archive::lookup_readable(
            c,
            c.relations[i as int].tags,
            "type".spec_bytes(),
        ),
        relation_readable(c, i, keys, false) <==> relation_known(c, i) && (tags::area_tags(
            c,
            c.relations[i as int].tags,
        ) ==> facts_readable(c, c.relations[i as int].tags, None, keys)),
        relation_readable(c, i, keys, true) <==> relation_known(c, i) && (tags::area_tags(
            c,
            c.relations[i as int].tags,
        ) ==> archive::lookup_readable(c, c.relations[i as int].tags, "name".spec_bytes())),
{
    let refs = c.ways[i as int].refs;
    if refs_readable(c, refs) {
        assert forall|k: int| refs.start <= k < refs.end implies k < c.nodes_index.len() && (
        #[trigger] c.nodes_index[k] matches Some(n) ==> n < c.nodes.len()) by {
            assert(ref_readable(c, k));
        }
    }
}

} // verus!

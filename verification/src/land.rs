//! Synthetic land polygons.
use vstd::prelude::*;
use vstd::string::*;

use crate::feature;
use crate::feature::{FeatureView, OsmflatGeomType, OsmflatOsmType, OwnedFeature};
use crate::filter;
use crate::filter::{wants_land, FilterTerm, Term};
use crate::handle::{OsmflatArchive, Sidecar};
use crate::ieee;
use crate::ieee::{at_most, INFINITY_BITS, NEG_INFINITY_BITS};
use crate::tags;
use crate::tags::Attrs;
use crate::text::bytes_equal;

verus! {

/// A query's bounding box in degrees, as bit patterns.
#[derive(Clone, Copy, Debug, PartialEq, Eq, Structural)]
pub struct Bbox {
    pub min_lon: u64,
    pub min_lat: u64,
    pub max_lon: u64,
    pub max_lat: u64,
}

/// A closed ring of the land dataset: whether it encloses land, its vertices
/// (longitude, latitude) and its area in square metres, as bit patterns.
#[derive(Debug)]
pub struct LandRing {
    pub is_land: bool,
    pub vertices: Vec<(u64, u64)>,
    pub area_m2: u64,
}

/// The least of the numbers, with infinity for none, is at most `bound`.
pub open spec fn least_at_most(values: Seq<u64>, bound: u64) -> bool {
    ieee::number_le(INFINITY_BITS, bound) || exists|i: int|
        0 <= i < values.len() && ieee::number_le(#[trigger] values[i], bound)
}

/// The greatest of the numbers, with negative infinity for none, is at least
/// `bound`.
pub open spec fn greatest_at_least(values: Seq<u64>, bound: u64) -> bool {
    ieee::number_le(bound, NEG_INFINITY_BITS) || exists|i: int|
        0 <= i < values.len() && ieee::number_le(bound, #[trigger] values[i])
}

pub open spec fn lons(vertices: Seq<(u64, u64)>) -> Seq<u64> {
    Seq::new(vertices.len(), |i: int| vertices[i].0)
}

pub open spec fn lats(vertices: Seq<(u64, u64)>) -> Seq<u64> {
    Seq::new(vertices.len(), |i: int| vertices[i].1)
}

/// The box around the vertices and `bbox` have a point in common.
pub open spec fn boxes_meet(vertices: Seq<(u64, u64)>, bbox: Bbox) -> bool {
    &&& least_at_most(lons(vertices), bbox.max_lon)
    &&& greatest_at_least(lons(vertices), bbox.min_lon)
    &&& least_at_most(lats(vertices), bbox.max_lat)
    &&& greatest_at_least(lats(vertices), bbox.min_lat)
}

/// Whether a ring's own bounding box, computed from its vertices, overlaps the
/// query's.
pub fn ring_intersects_bbox(vertices: &[(u64, u64)], bbox: Bbox) -> (r: bool)
    ensures
        r == boxes_meet(vertices@, bbox),
{
    let mut west: bool = at_most(INFINITY_BITS, bbox.max_lon);
    let mut east: bool = at_most(bbox.min_lon, NEG_INFINITY_BITS);
    let mut south: bool = at_most(INFINITY_BITS, bbox.max_lat);
    let mut north: bool = at_most(bbox.min_lat, NEG_INFINITY_BITS);
    let mut i: usize = 0;
    let ghost xs = lons(vertices@);
    let ghost ys = lats(vertices@);
    proof {
        assert(xs.take(0) =~= Seq::empty());
        assert(ys.take(0) =~= Seq::empty());
    }
    while i < vertices.len()
        invariant
            i <= vertices@.len(),
            xs == lons(vertices@),
            ys == lats(vertices@),
            west == least_at_most(xs.take(i as int), bbox.max_lon),
            east == greatest_at_least(xs.take(i as int), bbox.min_lon),
            south == least_at_most(ys.take(i as int), bbox.max_lat),
            north == greatest_at_least(ys.take(i as int), bbox.min_lat),
        decreases vertices@.len() - i,
    {
        let (lon, lat) = vertices[i];
        proof {
            lemma_one_more(xs, i as int, bbox.max_lon);
            lemma_one_more(xs, i as int, bbox.min_lon);
            lemma_one_more(ys, i as int, bbox.max_lat);
            lemma_one_more(ys, i as int, bbox.min_lat);
        }
        west = west || at_most(lon, bbox.max_lon);
        east = east || at_most(bbox.min_lon, lon);
        south = south || at_most(lat, bbox.max_lat);
        north = north || at_most(bbox.min_lat, lat);
        i = i + 1;
    }
    proof {
        assert(xs.take(i as int) =~= xs);
        assert(ys.take(i as int) =~= ys);
    }
    west && east && south && north
}

proof fn lemma_one_more(values: Seq<u64>, i: int, bound: u64)
    requires
        0 <= i < values.len(),
    ensures
        least_at_most(values.take(i + 1), bound) == (least_at_most(values.take(i), bound)
            || ieee::number_le(values[i], bound)),
        greatest_at_least(values.take(i + 1), bound) == (greatest_at_least(values.take(i), bound)
            || ieee::number_le(bound, values[i])),
{
    let more = values.take(i + 1);
    let less = values.take(i);
    assert(more[i] == values[i]);
    assert forall|k: int| 0 <= k < i implies #[trigger] more[k] == less[k] by {}
    assert forall|k: int| 0 <= k < i implies #[trigger] less[k] == more[k] by {}
}

/// A ring with a vertex in the box overlaps it.
pub proof fn a_vertex_inside_overlaps(vertices: Seq<(u64, u64)>, bbox: Bbox, i: int)
    requires
        0 <= i < vertices.len(),
        ieee::number_le(bbox.min_lon, vertices[i].0),
        ieee::number_le(vertices[i].0, bbox.max_lon),
        ieee::number_le(bbox.min_lat, vertices[i].1),
        ieee::number_le(vertices[i].1, bbox.max_lat),
    ensures
        boxes_meet(vertices, bbox),
{
    assert(lons(vertices)[i] == vertices[i].0);
    assert(lats(vertices)[i] == vertices[i].1);
}

/// The rings that stand for land: those of the imported dataset when the sidecar
/// has one, else those assembled from the coastline.
pub open spec fn land_rings(sidecar: Option<Sidecar>) -> Seq<LandRing> {
    match sidecar {
        Some(s) => match (s.land_polygons, s.coastline) {
            (Some(rings), _) => rings@,
            (None, Some(rings)) => rings@,
            (None, None) => Seq::empty(),
        },
        None => Seq::empty(),
    }
}

/// `[x0, y0, x1, y1, ...]`.
pub open spec fn interleaved(vertices: Seq<(u64, u64)>) -> Seq<u64> {
    Seq::new(
        2 * vertices.len(),
        |i: int|
            if i % 2 == 0 {
                vertices[i / 2].0
            } else {
                vertices[i / 2].1
            },
    )
}

/// Position `i` holds the first of the keys that is `_osmflat_land`.
pub open spec fn first_land_key(keys: Seq<Seq<u8>>, i: int) -> bool {
    &&& keys[i] == "_osmflat_land".spec_bytes()
    &&& forall|j: int| 0 <= j < i ==> #[trigger] keys[j] != "_osmflat_land".spec_bytes()
}

/// The attributes of a land polygon: `_osmflat_land=yes`, and nothing else.
pub open spec fn land_attrs(keys: Seq<Seq<u8>>) -> Seq<Option<Seq<u8>>> {
    Seq::new(
        keys.len(),
        |i: int|
            if first_land_key(keys, i) {
                Some("yes".spec_bytes())
            } else {
                None
            },
    )
}

/// What a ring becomes: a closed line without an OSM id.
pub open spec fn land_feature(keys: Seq<Seq<u8>>, ring: LandRing) -> FeatureView {
    FeatureView {
        osm_id: None,
        osm_type: OsmflatOsmType::Way,
        geom_type: OsmflatGeomType::LineString,
        is_closed: true,
        z_order: 0,
        way_area: ring.area_m2,
        coords: interleaved(ring.vertices@),
        polygons: Seq::empty(),
        attrs: land_attrs(keys),
    }
}

/// What the rings become, in their order: those that enclose land and overlap
/// the bounding box.
pub open spec fn rings_to_features(
    keys: Seq<Seq<u8>>,
    bbox: Bbox,
    rings: Seq<LandRing>,
) -> Seq<FeatureView>
    decreases rings.len(),
{
    if rings.len() == 0 {
        Seq::empty()
    } else {
        let rest = rings_to_features(keys, bbox, rings.drop_last());
        let ring = rings.last();
        if ring.is_land && boxes_meet(ring.vertices@, bbox) {
            rest.push(land_feature(keys, ring))
        } else {
            rest
        }
    }
}

/// The land polygons of a query: none unless one of its terms asks for them.
pub open spec fn land_of_query(
    sidecar: Option<Sidecar>,
    terms: Seq<Term>,
    keys: Seq<Seq<u8>>,
    bbox: Bbox,
) -> Seq<FeatureView> {
    if filter::asks_for_land(terms) {
        rings_to_features(keys, bbox, land_rings(sidecar))
    } else {
        Seq::empty()
    }
}

fn interleave(vertices: &Vec<(u64, u64)>) -> (r: Vec<u64>)
    ensures
        r@ == interleaved(vertices@),
{
    let mut r: Vec<u64> = Vec::new();
    let mut i: usize = 0;
    while i < vertices.len()
        invariant
            i <= vertices@.len(),
            r@ == interleaved(vertices@.take(i as int)),
        decreases vertices@.len() - i,
    {
        let (x, y) = vertices[i];
        r.push(x);
        r.push(y);
        assert(r@ =~= interleaved(vertices@.take(i + 1)));
        i = i + 1;
    }
    assert(vertices@.take(i as int) =~= vertices@);
    r
}

fn attrs_of_land(keys: &[&[u8]]) -> (r: Attrs)
    ensures
        tags::attrs_view(r@) == land_attrs(tags::keys_view(keys@)),
{
    let ghost names = tags::keys_view(keys@);
    let mut r: Attrs = Vec::new();
    let mut found: bool = false;
    let mut i: usize = 0;
    while i < keys.len()
        invariant
            i <= keys@.len(),
            names == tags::keys_view(keys@),
            r@.len() == i,
            found == exists|j: int|
                0 <= j < i && #[trigger] names[j] == "_osmflat_land".spec_bytes(),
            forall|k: int|
                0 <= k < i ==> tags::attr_view(#[trigger] r@[k]) == land_attrs(names)[k],
        decreases keys@.len() - i,
    {
        let here: bool = bytes_equal(keys[i], "_osmflat_land".as_bytes());
        assert(here == (names[i as int] == "_osmflat_land".spec_bytes()));
        let value: Option<Vec<u8>> = if here && !found {
            Some(vstd::slice::slice_to_vec("yes".as_bytes()))
        } else {
            None
        };
        r.push(value);
        if here {
            found = true;
        }
        i = i + 1;
    }
    assert(tags::attrs_view(r@) =~= land_attrs(names));
    r
}

fn features_of_rings(keys: &[&[u8]], bbox: Bbox, rings: &Vec<LandRing>) -> (r: Vec<OwnedFeature>)
    ensures
        feature::features_view(r@) == rings_to_features(tags::keys_view(keys@), bbox, rings@),
{
    let ghost names = tags::keys_view(keys@);
    let mut r: Vec<OwnedFeature> = Vec::new();
    let mut i: usize = 0;
    proof {
        assert(rings@.take(0) =~= Seq::empty());
        assert(feature::features_view(r@) =~= Seq::empty());
    }
    while i < rings.len()
        invariant
            i <= rings@.len(),
            names == tags::keys_view(keys@),
            feature::features_view(r@) == rings_to_features(names, bbox, rings@.take(i as int)),
        decreases rings@.len() - i,
    {
        let ghost before = feature::features_view(r@);
        let ring: &LandRing = &rings[i];
        proof {
            assert(rings@.take(i + 1).drop_last() =~= rings@.take(i as int));
            assert(rings@.take(i + 1).last() == *ring);
        }
        if ring.is_land && ring_intersects_bbox(ring.vertices.as_slice(), bbox) {
            let f = OwnedFeature {
                osm_id: None,
                osm_type: OsmflatOsmType::Way,
                geom_type: OsmflatGeomType::LineString,
                is_closed: true,
                z_order: 0,
                way_area: ring.area_m2,
                coords: interleave(&ring.vertices),
                polygons: Vec::new(),
                attrs: attrs_of_land(keys),
            };
            assert(f@ =~= land_feature(names, *ring));
            r.push(f);
            assert(feature::features_view(r@) =~= before.push(f@));
        }
        i = i + 1;
    }
    assert(rings@.take(i as int) =~= rings@);
    r
}

/// The synthetic land polygons of a query: when one of its terms asks for them, a
/// closed line for every ring of land that overlaps the bounding box.
pub fn land_features(
    handle: &OsmflatArchive,
    filters: &[FilterTerm],
    keys: &[&[u8]],
    bbox: Bbox,
) -> (r: Vec<OwnedFeature>)
    ensures
        feature::features_view(r@) == land_of_query(
            handle.sidecar(),
            filter::terms_view(filters@),
            tags::keys_view(keys@),
            bbox,
        ),
{
    if wants_land(filters) {
        if let Some(rings) = handle.land_polygons() {
            return features_of_rings(keys, bbox, rings);
        }
        if let Some(rings) = handle.coastline() {
            return features_of_rings(keys, bbox, rings);
        }
    }
    let r: Vec<OwnedFeature> = Vec::new();
    assert(feature::features_view(r@) =~= Seq::empty());
    r
}

/// Where the sidecar has an imported land dataset, the coastline rings do not
/// matter.
pub proof fn imported_land_is_preferred(
    s: Sidecar,
    t: Sidecar,
    terms: Seq<Term>,
    keys: Seq<Seq<u8>>,
    bbox: Bbox,
)
    requires
        s.land_polygons is Some,
        s.land_polygons == t.land_polygons,
    ensures
        land_of_query(Some(s), terms, keys, bbox) == land_of_query(Some(t), terms, keys, bbox),
{
}

/// Without a sidecar that has land rings there are no land polygons, whatever the
/// terms ask for.
pub proof fn land_needs_a_sidecar(
    sidecar: Option<Sidecar>,
    terms: Seq<Term>,
    keys: Seq<Seq<u8>>,
    bbox: Bbox,
)
    requires
        sidecar matches Some(s) ==> s.land_polygons is None && s.coastline is None,
    ensures
        land_of_query(sidecar, terms, keys, bbox).len() == 0,
{
}

/// Every land polygon is a closed line without an OSM id.
pub proof fn land_polygons_are_closed_lines(
    sidecar: Option<Sidecar>,
    terms: Seq<Term>,
    keys: Seq<Seq<u8>>,
    bbox: Bbox,
    i: int,
)
    requires
        0 <= i < land_of_query(sidecar, terms, keys, bbox).len(),
    ensures
        ({
            let f = land_of_query(sidecar, terms, keys, bbox)[i];
            &&& f.osm_id is None
            &&& f.geom_type == OsmflatGeomType::LineString
            &&& f.is_closed
            &&& f.attrs == land_attrs(keys)
        }),
{
    lemma_land_lines(keys, bbox, land_rings(sidecar), i);
}

proof fn lemma_land_lines(keys: Seq<Seq<u8>>, bbox: Bbox, rings: Seq<LandRing>, i: int)
    requires
        0 <= i < rings_to_features(keys, bbox, rings).len(),
    ensures
        exists|ring: LandRing| rings_to_features(keys, bbox, rings)[i] == #[trigger] land_feature(
            keys,
            ring,
        ),
    decreases rings.len(),
{
    let rest = rings_to_features(keys, bbox, rings.drop_last());
    if i < rest.len() {
        lemma_land_lines(keys, bbox, rings.drop_last(), i);
    } else {
        assert(rings_to_features(keys, bbox, rings)[i] == land_feature(keys, rings.last()));
    }
}

/// A finite number.
pub open spec fn is_finite(bits: u64) -> bool {
    (bits & 0x7fff_ffff_ffff_ffff) < 0x7ff0_0000_0000_0000
}

/// A ring overlaps a box with finite edges exactly if it reaches, with one vertex or
/// another, as far as each of the four edges.
pub proof fn rings_overlap_by_how_far_they_reach(vertices: Seq<(u64, u64)>, bbox: Bbox)
    requires
        is_finite(bbox.min_lon),
        is_finite(bbox.min_lat),
        is_finite(bbox.max_lon),
        is_finite(bbox.max_lat),
    ensures
        boxes_meet(vertices, bbox) <==> {
            &&& exists|i: int|
                0 <= i < vertices.len() && ieee::number_le((#[trigger] vertices[i]).0, bbox.max_lon)
            &&& exists|i: int|
                0 <= i < vertices.len() && ieee::number_le(bbox.min_lon, (#[trigger] vertices[i]).0)
            &&& exists|i: int|
                0 <= i < vertices.len() && ieee::number_le((#[trigger] vertices[i]).1, bbox.max_lat)
            &&& exists|i: int|
                0 <= i < vertices.len() && ieee::number_le(bbox.min_lat, (#[trigger] vertices[i]).1)
        },
{
    let xs = lons(vertices);
    let ys = lats(vertices);
    lemma_finite(bbox.min_lon);
    lemma_finite(bbox.min_lat);
    lemma_finite(bbox.max_lon);
    lemma_finite(bbox.max_lat);
    assert forall|i: int| 0 <= i < vertices.len() implies (#[trigger] vertices[i]).0 == xs[i]
        && vertices[i].1 == ys[i] by {}
    if boxes_meet(vertices, bbox) {
        let a = choose|i: int| 0 <= i < xs.len() && ieee::number_le(#[trigger] xs[i], bbox.max_lon);
        let b = choose|i: int| 0 <= i < xs.len() && ieee::number_le(bbox.min_lon, #[trigger] xs[i]);
        let d = choose|i: int| 0 <= i < ys.len() && ieee::number_le(#[trigger] ys[i], bbox.max_lat);
        let e = choose|i: int| 0 <= i < ys.len() && ieee::number_le(bbox.min_lat, #[trigger] ys[i]);
        assert(vertices[a].0 == xs[a] && vertices[b].0 == xs[b] && vertices[d].1 == ys[d]
            && vertices[e].1 == ys[e]);
    }
    if exists|i: int|
        0 <= i < vertices.len() && ieee::number_le((#[trigger] vertices[i]).0, bbox.max_lon) {
        let i = choose|i: int|
            0 <= i < vertices.len() && ieee::number_le((#[trigger] vertices[i]).0, bbox.max_lon);
        assert(xs[i] == vertices[i].0);
    }
    if exists|i: int|
        0 <= i < vertices.len() && ieee::number_le(bbox.min_lon, (#[trigger] vertices[i]).0) {
        let i = choose|i: int|
            0 <= i < vertices.len() && ieee::number_le(bbox.min_lon, (#[trigger] vertices[i]).0);
        assert(xs[i] == vertices[i].0);
    }
    if exists|i: int|
        0 <= i < vertices.len() && ieee::number_le((#[trigger] vertices[i]).1, bbox.max_lat) {
        let i = choose|i: int|
            0 <= i < vertices.len() && ieee::number_le((#[trigger] vertices[i]).1, bbox.max_lat);
        assert(ys[i] == vertices[i].1);
    }
    if exists|i: int|
        0 <= i < vertices.len() && ieee::number_le(bbox.min_lat, (#[trigger] vertices[i]).1) {
        let i = choose|i: int|
            0 <= i < vertices.len() && ieee::number_le(bbox.min_lat, (#[trigger] vertices[i]).1);
        assert(ys[i] == vertices[i].1);
    }
}

proof fn lemma_finite(bits: u64)
    requires
        is_finite(bits),
    ensures
        !ieee::number_le(INFINITY_BITS, bits),
        !ieee::number_le(bits, NEG_INFINITY_BITS),
{
    assert(bits >= 0x8000_0000_0000_0000 ==> (bits & 0x7fff_ffff_ffff_ffff) == bits
        - 0x8000_0000_0000_0000) by (bit_vector);
    assert(bits < 0x8000_0000_0000_0000 ==> (bits & 0x7fff_ffff_ffff_ffff) == bits) by (bit_vector);
    ieee::numbers_are_ordered_by_their_bits(INFINITY_BITS, bits);
    ieee::numbers_are_ordered_by_their_bits(bits, NEG_INFINITY_BITS);
    ieee::nan_by_its_bits(bits);
}

/// The land rings are those of the imported dataset where there is one, those of
/// the coastline where there is only that, and none where there is neither.
pub proof fn land_comes_from_the_better_source(s: Sidecar)
    ensures
        s.land_polygons matches Some(rings) ==> land_rings(Some(s)) == rings@,
        s.land_polygons is None ==> match s.coastline {
            Some(rings) => land_rings(Some(s)) == rings@,
            None => land_rings(Some(s)).len() == 0,
        },
        land_rings(None).len() == 0,
{
}

/// The rings of a query become features one after the other. A ring that encloses
/// land and overlaps the box becomes a closed line of its vertices in order, with
/// its area, and any other ring becomes nothing.
pub proof fn land_rings_become_closed_lines(
    keys: Seq<Seq<u8>>,
    bbox: Bbox,
    before: Seq<LandRing>,
    ring: LandRing,
    i: int,
)
    ensures
        ({
            let fs = rings_to_features(keys, bbox, before.push(ring));
            let first = rings_to_features(keys, bbox, before);
            let f = fs[fs.len() - 1];
            &&& rings_to_features(keys, bbox, Seq::empty()).len() == 0
            &&& !ring.is_land || !boxes_meet(ring.vertices@, bbox) ==> fs == first
            &&& ring.is_land && boxes_meet(ring.vertices@, bbox) ==> {
                &&& fs == first.push(f)
                &&& f.osm_id is None
                &&& f.osm_type == OsmflatOsmType::Way
                &&& f.geom_type == OsmflatGeomType::LineString
                &&& f.is_closed
                &&& f.z_order == 0
                &&& f.way_area == ring.area_m2
                &&& f.polygons.len() == 0
                &&& f.coords.len() == 2 * ring.vertices@.len()
                &&& 0 <= i < ring.vertices@.len() ==> f.coords[2 * i] == ring.vertices@[i].0
                    && f.coords[2 * i + 1] == ring.vertices@[i].1
                &&& f.attrs == land_attrs(keys)
            }
        }),
{
    let all = before.push(ring);
    assert(all.drop_last() =~= before);
    assert(all.last() == ring);
}

/// A land polygon has a value for each key, absent for all but the first that is
/// `_osmflat_land`, which is `yes`.
pub proof fn land_carries_its_own_key_alone(keys: Seq<Seq<u8>>, i: int)
    requires
        0 <= i < keys.len(),
    ensures
        land_attrs(keys).len() == keys.len(),
        keys[i] != "_osmflat_land".spec_bytes() ==> land_attrs(keys)[i] is None,
        keys[i] == "_osmflat_land".spec_bytes() ==> land_attrs(keys)[i] == if exists|j: int|
            0 <= j < i && #[trigger] keys[j] == "_osmflat_land".spec_bytes() {
            None
        } else {
            Some("yes".spec_bytes())
        },
{
}

/// The land polygons of a query are those of its rings if one of its terms has the
/// key `_osmflat_land`, and none if no term has it.
pub proof fn land_is_given_to_those_who_ask(
    sidecar: Option<Sidecar>,
    terms: Seq<Term>,
    keys: Seq<Seq<u8>>,
    bbox: Bbox,
    i: int,
)
    ensures
        0 <= i < terms.len() && terms[i].key == "_osmflat_land".spec_bytes() ==> land_of_query(
            sidecar,
            terms,
            keys,
            bbox,
        ) == rings_to_features(keys, bbox, land_rings(sidecar)),
        (forall|j: int|
            0 <= j < terms.len() ==> (#[trigger] terms[j]).key != "_osmflat_land".spec_bytes())
            ==> land_of_query(sidecar, terms, keys, bbox).len() == 0,
{
    if 0 <= i < terms.len() && terms[i].key == "_osmflat_land".spec_bytes() {
        assert(filter::land_term(terms[i]));
    }
}

/// Whatever its edges are, a box is met exactly if the ring reaches as far as each of
/// them; an edge at infinity is reached by every ring.
pub proof fn an_edge_at_infinity_is_always_reached(vertices: Seq<(u64, u64)>, bbox: Bbox)
    ensures
        boxes_meet(vertices, bbox) <==> {
            &&& bbox.max_lon == 0x7ff0_0000_0000_0000 || exists|i: int|
                0 <= i < vertices.len() && ieee::number_le((#[trigger] vertices[i]).0, bbox.max_lon)
            &&& bbox.min_lon == 0xfff0_0000_0000_0000 || exists|i: int|
                0 <= i < vertices.len() && ieee::number_le(bbox.min_lon, (#[trigger] vertices[i]).0)
            &&& bbox.max_lat == 0x7ff0_0000_0000_0000 || exists|i: int|
                0 <= i < vertices.len() && ieee::number_le((#[trigger] vertices[i]).1, bbox.max_lat)
            &&& bbox.min_lat == 0xfff0_0000_0000_0000 || exists|i: int|
                0 <= i < vertices.len() && ieee::number_le(bbox.min_lat, (#[trigger] vertices[i]).1)
        },
{
    lemma_least_reaches(vertices, bbox.max_lon, bbox.max_lat);
    lemma_greatest_reaches(vertices, bbox.min_lon, bbox.min_lat);
}

proof fn lemma_least_reaches(vertices: Seq<(u64, u64)>, x: u64, y: u64)
    ensures
        least_at_most(lons(vertices), x) <==> x == 0x7ff0_0000_0000_0000 || exists|i: int|
            0 <= i < vertices.len() && ieee::number_le((#[trigger] vertices[i]).0, x),
        least_at_most(lats(vertices), y) <==> y == 0x7ff0_0000_0000_0000 || exists|i: int|
            0 <= i < vertices.len() && ieee::number_le((#[trigger] vertices[i]).1, y),
{
    let xs = lons(vertices);
    let ys = lats(vertices);
    if exists|i: int| 0 <= i < xs.len() && ieee::number_le(#[trigger] xs[i], x) {
        let i = choose|i: int| 0 <= i < xs.len() && ieee::number_le(#[trigger] xs[i], x);
        assert(vertices[i].0 == xs[i]);
    }
    if exists|i: int| 0 <= i < vertices.len() && ieee::number_le((#[trigger] vertices[i]).0, x) {
        let i = choose|i: int|
            0 <= i < vertices.len() && ieee::number_le((#[trigger] vertices[i]).0, x);
        assert(vertices[i].0 == xs[i]);
    }
    if exists|i: int| 0 <= i < ys.len() && ieee::number_le(#[trigger] ys[i], y) {
        let i = choose|i: int| 0 <= i < ys.len() && ieee::number_le(#[trigger] ys[i], y);
        assert(vertices[i].1 == ys[i]);
    }
    if exists|i: int| 0 <= i < vertices.len() && ieee::number_le((#[trigger] vertices[i]).1, y) {
        let i = choose|i: int|
            0 <= i < vertices.len() && ieee::number_le((#[trigger] vertices[i]).1, y);
        assert(vertices[i].1 == ys[i]);
    }
}

proof fn lemma_greatest_reaches(vertices: Seq<(u64, u64)>, x: u64, y: u64)
    ensures
        greatest_at_least(lons(vertices), x) <==> x == 0xfff0_0000_0000_0000 || exists|i: int|
            0 <= i < vertices.len() && ieee::number_le(x, (#[trigger] vertices[i]).0),
        greatest_at_least(lats(vertices), y) <==> y == 0xfff0_0000_0000_0000 || exists|i: int|
            0 <= i < vertices.len() && ieee::number_le(y, (#[trigger] vertices[i]).1),
{
    let xs = lons(vertices);
    let ys = lats(vertices);
    if exists|i: int| 0 <= i < xs.len() && ieee::number_le(x, #[trigger] xs[i]) {
        let i = choose|i: int| 0 <= i < xs.len() && ieee::number_le(x, #[trigger] xs[i]);
        assert(vertices[i].0 == xs[i]);
    }
    if exists|i: int| 0 <= i < vertices.len() && ieee::number_le(x, (#[trigger] vertices[i]).0) {
        let i = choose|i: int|
            0 <= i < vertices.len() && ieee::number_le(x, (#[trigger] vertices[i]).0);
        assert(vertices[i].0 == xs[i]);
    }
    if exists|i: int| 0 <= i < ys.len() && ieee::number_le(y, #[trigger] ys[i]) {
        let i = choose|i: int| 0 <= i < ys.len() && ieee::number_le(y, #[trigger] ys[i]);
        assert(vertices[i].1 == ys[i]);
    }
    if exists|i: int| 0 <= i < vertices.len() && ieee::number_le(y, (#[trigger] vertices[i]).1) {
        let i = choose|i: int|
            0 <= i < vertices.len() && ieee::number_le(y, (#[trigger] vertices[i]).1);
        assert(vertices[i].1 == ys[i]);
    }
}

} // verus!

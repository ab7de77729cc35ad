//! The result of a query: a cursor over its features, and what can be read of
//! the current one.
//!
//! A missing feature set stands for a null handle. Every getter answers it, and a
//! cursor without a current feature, with a fixed value.
use vstd::prelude::*;

use crate::feature;
use crate::feature::{FeatureView, OsmflatGeomType, OsmflatOsmType, OwnedFeature};

verus! {

/// The features of one query, and the cursor: the index of the feature that comes
/// next. The one before it is current.
#[derive(Debug)]
pub struct OsmflatFeatureSet {
    pub features: Vec<OwnedFeature>,
    pub pos: usize,
}

/// A borrowed attribute value. Without a value the feature has no such tag.
#[derive(Clone, Copy, Debug)]
pub struct OsmflatValue<'a> {
    pub present: bool,
    pub bytes: Option<&'a [u8]>,
    pub len: usize,
}

impl OsmflatFeatureSet {
    /// All features of the set.
    pub open spec fn all(&self) -> Seq<FeatureView> {
        feature::features_view(self.features@)
    }

    /// The current feature, if there is one.
    pub open spec fn at_cursor(&self) -> Option<OwnedFeature> {
        if 0 < self.pos <= self.features@.len() {
            Some(self.features@[self.pos - 1])
        } else {
            None
        }
    }

    /// The current feature.
    pub fn current(&self) -> (r: Option<&OwnedFeature>)
        ensures
            match r {
                Some(f) => self.at_cursor() == Some(*f),
                None => self.at_cursor() is None,
            },
    {
        if 0 < self.pos && self.pos <= self.features.len() {
            Some(&self.features[self.pos - 1])
        } else {
            None
        }
    }
}

/// The current feature of a set that may be missing.
pub open spec fn current_of(fs: Option<&OsmflatFeatureSet>) -> Option<OwnedFeature> {
    match fs {
        Some(fs) => fs.at_cursor(),
        None => None,
    }
}

fn current_feature(fs: Option<&OsmflatFeatureSet>) -> (r: Option<&OwnedFeature>)
    ensures
        match r {
            Some(f) => current_of(fs) == Some(*f),
            None => current_of(fs) is None,
        },
{
    match fs {
        Some(fs) => fs.current(),
        None => None,
    }
}

/// Where a cursor over `total` features stands after an advance.
pub open spec fn next_position(total: int, pos: int) -> int {
    if pos < total {
        pos + 1
    } else {
        pos
    }
}

/// Advances to the next feature. Returns whether there is one; at the end the
/// cursor stays where it is.
pub fn osmflat_featureset_next(fs: Option<&mut OsmflatFeatureSet>) -> (r: bool)
    ensures
        match fs {
            Some(f) => {
                &&& r == (f.pos < f.features@.len())
                &&& final(f).features == f.features
                &&& final(f).pos == next_position(f.features@.len() as int, f.pos as int)
            },
            None => !r,
        },
{
    match fs {
        Some(f) => {
            if f.pos >= f.features.len() {
                return false;
            }
            f.pos = f.pos + 1;
            true
        },
        None => false,
    }
}

/// The OSM id of the current feature, if it has one.
pub fn osmflat_feature_osm_id(fs: Option<&OsmflatFeatureSet>) -> (r: Option<u64>)
    ensures
        r == match current_of(fs) {
            Some(f) => f.osm_id,
            None => None,
        },
{
    match current_feature(fs) {
        Some(f) => f.osm_id,
        None => None,
    }
}

/// OSM primitive type of the current feature; a node when there is none.
pub fn osmflat_feature_osm_type(fs: Option<&OsmflatFeatureSet>) -> (r: OsmflatOsmType)
    ensures
        r == match current_of(fs) {
            Some(f) => f.osm_type,
            None => OsmflatOsmType::Node,
        },
{
    match current_feature(fs) {
        Some(f) => f.osm_type,
        None => OsmflatOsmType::Node,
    }
}

/// Whether the geometry of the current feature is a closed ring.
pub fn osmflat_feature_is_closed(fs: Option<&OsmflatFeatureSet>) -> (r: bool)
    ensures
        r == match current_of(fs) {
            Some(f) => f.is_closed,
            None => false,
        },
{
    match current_feature(fs) {
        Some(f) => f.is_closed,
        None => false,
    }
}

/// Enclosed area of the current feature in square metres, as a bit pattern; 0 for
/// points and open lines.
pub fn osmflat_feature_way_area(fs: Option<&OsmflatFeatureSet>) -> (r: u64)
    ensures
        r == match current_of(fs) {
            Some(f) => f.way_area,
            None => 0,
        },
{
    match current_feature(fs) {
        Some(f) => f.way_area,
        None => 0,
    }
}

/// Render priority of the current feature.
pub fn osmflat_feature_z_order(fs: Option<&OsmflatFeatureSet>) -> (r: i32)
    ensures
        r == match current_of(fs) {
            Some(f) => f.z_order,
            None => 0,
        },
{
    match current_feature(fs) {
        Some(f) => f.z_order,
        None => 0,
    }
}

/// Geometry type of the current feature; a point when there is none.
pub fn osmflat_feature_geom_type(fs: Option<&OsmflatFeatureSet>) -> (r: OsmflatGeomType)
    ensures
        r == match current_of(fs) {
            Some(f) => f.geom_type,
            None => OsmflatGeomType::Point,
        },
{
    match current_feature(fs) {
        Some(f) => f.geom_type,
        None => OsmflatGeomType::Point,
    }
}

/// The polygons of the current feature.
pub open spec fn current_polygons(fs: Option<&OsmflatFeatureSet>) -> Seq<Seq<Seq<u64>>> {
    match current_of(fs) {
        Some(f) => f@.polygons,
        None => Seq::empty(),
    }
}

/// Ring `r` of polygon `p` of the current feature, if there is one.
pub open spec fn current_ring(fs: Option<&OsmflatFeatureSet>, p: int, r: int) -> Option<Seq<u64>> {
    let polygons = current_polygons(fs);
    if 0 <= p < polygons.len() && 0 <= r < polygons[p].len() {
        Some(polygons[p][r])
    } else {
        None
    }
}

/// Number of polygons of a multipolygon; 0 for a point or a line.
pub fn osmflat_feature_num_polygons(fs: Option<&OsmflatFeatureSet>) -> (r: usize)
    ensures
        r == current_polygons(fs).len(),
{
    match current_feature(fs) {
        Some(f) => f.polygons.len(),
        None => 0,
    }
}

/// Number of rings of polygon `p`: ring 0 is the exterior, the others are holes.
pub fn osmflat_feature_polygon_num_rings(fs: Option<&OsmflatFeatureSet>, p: usize) -> (r: usize)
    ensures
        r == if p < current_polygons(fs).len() {
            current_polygons(fs)[p as int].len()
        } else {
            0
        },
{
    match current_feature(fs) {
        Some(f) => if p < f.polygons.len() {
            f.polygons[p].len()
        } else {
            0
        },
        None => 0,
    }
}

fn ring_at(fs: Option<&OsmflatFeatureSet>, p: usize, r: usize) -> (ring: Option<&Vec<u64>>)
    ensures
        match ring {
            Some(v) => current_ring(fs, p as int, r as int) == Some(v@),
            None => current_ring(fs, p as int, r as int) is None,
        },
{
    match current_feature(fs) {
        Some(f) => if p < f.polygons.len() && r < f.polygons[p].len() {
            Some(&f.polygons[p][r])
        } else {
            None
        },
        None => None,
    }
}

/// Number of vertices in ring `r` of polygon `p`.
pub fn osmflat_feature_ring_num_coords(fs: Option<&OsmflatFeatureSet>, p: usize, r: usize) -> (n:
    usize)
    ensures
        n == match current_ring(fs, p as int, r as int) {
            Some(ring) => ring.len() as int / 2,
            None => 0,
        },
{
    match ring_at(fs, p, r) {
        Some(ring) => ring.len() / 2,
        None => 0,
    }
}

/// Ring `r` of polygon `p`, interleaved `[x0, y0, ...]`.
pub fn osmflat_feature_ring_coords(fs: Option<&OsmflatFeatureSet>, p: usize, r: usize) -> (coords:
    Option<&[u64]>)
    ensures
        match coords {
            Some(v) => current_ring(fs, p as int, r as int) == Some(v@),
            None => current_ring(fs, p as int, r as int) is None,
        },
{
    match ring_at(fs, p, r) {
        Some(ring) => Some(ring.as_slice()),
        None => None,
    }
}

/// Number of vertices of a point or a line.
pub fn osmflat_feature_num_coords(fs: Option<&OsmflatFeatureSet>) -> (n: usize)
    ensures
        n == match current_of(fs) {
            Some(f) => f.coords@.len() as int / 2,
            None => 0,
        },
{
    match current_feature(fs) {
        Some(f) => f.coords.len() / 2,
        None => 0,
    }
}

/// Vertices of a point or a line, interleaved `[x0, y0, ...]`.
pub fn osmflat_feature_coords(fs: Option<&OsmflatFeatureSet>) -> (coords: Option<&[u64]>)
    ensures
        match (coords, current_of(fs)) {
            (Some(v), Some(f)) => v@ == f.coords@,
            (None, None) => true,
            _ => false,
        },
{
    match current_feature(fs) {
        Some(f) => Some(f.coords.as_slice()),
        None => None,
    }
}

/// Value `i` of the attributes of the current feature, if the feature has it.
pub open spec fn current_attr(fs: Option<&OsmflatFeatureSet>, i: int) -> Option<Seq<u8>> {
    match current_of(fs) {
        Some(f) => if 0 <= i < f@.attrs.len() {
            f@.attrs[i]
        } else {
            None
        },
        None => None,
    }
}

/// Value `i` of the attributes of the current feature, aligned to the keys of the
/// query; not present for an absent tag and for an `i` past the keys.
pub fn osmflat_feature_attr(fs: Option<&OsmflatFeatureSet>, i: usize) -> (r: OsmflatValue<'_>)
    ensures
        r.present == (current_attr(fs, i as int) is Some),
        match r.bytes {
            Some(b) => current_attr(fs, i as int) == Some(b@) && r.len == b@.len(),
            None => current_attr(fs, i as int) is None && r.len == 0,
        },
{
    if let Some(f) = current_feature(fs) {
        if i < f.attrs.len() {
            if let Some(bytes) = &f.attrs[i] {
                return OsmflatValue {
                    present: true,
                    bytes: Some(bytes.as_slice()),
                    len: bytes.len(),
                };
            }
        }
    }
    OsmflatValue { present: false, bytes: None, len: 0 }
}

/// Where it stands after `n` advances.
pub open spec fn advanced(total: int, pos: int, n: nat) -> int
    decreases n,
{
    if n == 0 {
        pos
    } else {
        next_position(total, advanced(total, pos, (n - 1) as nat))
    }
}

/// From the start the first `total` advances make one feature after the other
/// current, each once; every later one leaves the last feature current.
pub proof fn cursor_visits_every_feature_once(total: int, n: nat)
    requires
        0 <= total,
    ensures
        advanced(total, 0, n) == if n <= total {
            n as int
        } else {
            total
        },
    decreases n,
{
    if n > 0 {
        cursor_visits_every_feature_once(total, (n - 1) as nat);
    }
}

/// Before the first advance no feature is current; after advance number `k` that
/// found one, feature `k` of the set is, counted from one.
pub proof fn the_current_feature_is_the_last_that_was_advanced_to(
    fs: OsmflatFeatureSet,
    k: int,
)
    requires
        fs.pos == k,
        0 <= k <= fs.features@.len(),
    ensures
        k == 0 ==> fs.at_cursor() is None && current_of(Some(&fs)) is None,
        k > 0 ==> fs.at_cursor() == Some(fs.features@[k - 1]) && current_of(Some(&fs)) == Some(
            fs.features@[k - 1],
        ),
        current_of(None) is None,
        fs.all().len() == fs.features@.len(),
        k > 0 ==> fs.all()[k - 1] == fs.features@[k - 1]@,
{
}

/// An advance moves to the next feature while there is one, and stays at the last.
pub proof fn an_advance_moves_by_one(total: int, pos: int)
    ensures
        pos < total ==> next_position(total, pos) == pos + 1,
        pos >= total ==> next_position(total, pos) == pos,
{
}

/// What can be read of the current feature is what it stores: ring `r` of polygon
/// `p`, and value `i`, byte for byte; past the end of either there is nothing.
pub proof fn rings_and_values_are_read_in_their_places(
    fs: OsmflatFeatureSet,
    p: int,
    r: int,
    i: int,
)
    requires
        0 < fs.pos <= fs.features@.len(),
    ensures
        ({
            let f = fs.features@[fs.pos - 1];
            &&& current_polygons(Some(&fs)).len() == f.polygons@.len()
            &&& 0 <= p < f.polygons@.len() ==> current_polygons(Some(&fs))[p].len()
                == f.polygons@[p]@.len()
            &&& current_ring(Some(&fs), p, r) == if 0 <= p < f.polygons@.len() && 0 <= r
                < f.polygons@[p]@.len() {
                Some(f.polygons@[p]@[r]@)
            } else {
                None
            }
            &&& 0 <= i < f.attrs@.len() ==> match f.attrs@[i] {
                Some(b) => current_attr(Some(&fs), i) == Some(b@),
                None => current_attr(Some(&fs), i) is None,
            }
            &&& !(0 <= i < f.attrs@.len()) ==> current_attr(Some(&fs), i) is None
        }),
{
    let f = fs.features@[fs.pos - 1];
    feature::features_are_read_as_they_are_stored(f, p, r);
    feature::features_are_read_as_they_are_stored(f, i, r);
}

} // verus!

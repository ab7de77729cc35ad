//! The parts of the query logic that need no archive.

use osmflat_capi::featureset::{
    osmflat_feature_attr, osmflat_feature_coords, osmflat_feature_geom_type,
    osmflat_feature_is_closed, osmflat_feature_num_coords, osmflat_feature_num_polygons,
    osmflat_feature_osm_id, osmflat_feature_osm_type, osmflat_feature_polygon_num_rings,
    osmflat_feature_ring_coords, osmflat_feature_ring_num_coords, osmflat_feature_way_area,
    osmflat_feature_z_order, osmflat_featureset_next,
};
use osmflat_capi::feature::{least_vertices, OsmflatGeomType, OsmflatOsmType, OwnedFeature};
use osmflat_capi::filter::{key_refs, kv_refs, wants_land, OsmflatKvRef, OsmflatStrRef};
use osmflat_capi::ieee::{at_most, less, nan};
use osmflat_capi::land::{ring_intersects_bbox, Bbox};
use osmflat_capi::open::{osmflat_archive_open, OpenStep};
use osmflat_capi::order::{in_draw_order, OsmflatOrder};
use osmflat_capi::simplify::{find_split, simplify_coords, Simplifier, Vertex};
use osmflat_capi::sorted::{ascending_contains, intersect_sorted_u64, merge, sorted_unique};
use osmflat_capi::tags::highway_rank;
use osmflat_capi::text::{bytes_equal, parse_number, strip_prefix};

#[test]
fn intersect_sorted_u64_basics() {
    assert!(intersect_sorted_u64(&[], &[1, 2]).is_empty());
    assert!(intersect_sorted_u64(&[1, 3, 5], &[2, 4, 6]).is_empty());
    assert_eq!(
        intersect_sorted_u64(&[1, 2, 5, 9], &[2, 5, 8, 9]),
        vec![2, 5, 9]
    );
}

#[test]
fn lists_are_sorted_and_searched() {
    assert_eq!(sorted_unique(&[3u64, 1, 3, 2, 1]), vec![1, 2, 3]);
    assert_eq!(sorted_unique(&[(1u64, 2u64), (1, 1), (0, 9), (1, 2)]), vec![(0, 9), (1, 1), (1, 2)]);
    assert_eq!(merge(&vec![1u64, 4], &vec![2, 4, 5]), vec![1, 2, 4, 5]);
    assert!(sorted_unique::<u64>(&[]).is_empty());
    assert!(ascending_contains(&[1, 5, 9], 5));
    assert!(!ascending_contains(&[1, 5, 9], 6));
    assert!(!ascending_contains(&[], 0));
}

#[test]
fn highway_classes_have_their_ranks() {
    let ranks: [(&[u8], i32); 12] = [
        (b"motorway", 90),
        (b"motorway_link", 90),
        (b"trunk_link", 80),
        (b"primary", 70),
        (b"secondary", 60),
        (b"tertiary_link", 50),
        (b"living_street", 40),
        (b"service", 30),
        (b"track", 20),
        (b"pedestrian", 10),
        (b"motorway2", 5),
        (b"", 5),
    ];
    for (class, rank) in ranks {
        assert_eq!(highway_rank(class), rank);
    }
}

#[test]
fn numbers_are_parsed_as_integers_are() {
    let texts: [&[u8]; 16] = [
        b"0", b"7", b"-7", b"+7", b" 12 ", b"-2147483648", b"2147483647", b"2147483648",
        b"-2147483649", b"", b"+", b"--1", b"1 2", b"0x1", b"\xff", b"007",
    ];
    for text in texts {
        let expected = std::str::from_utf8(text).ok().and_then(|s| s.trim().parse::<i32>().ok());
        assert_eq!(parse_number(text), expected);
    }
    assert_eq!(parse_number("\u{2003}5\u{85}".as_bytes()), Some(5));
    assert_eq!(parse_number("\u{200b}5".as_bytes()), None);
}

#[test]
fn bytes_are_compared_and_stripped() {
    assert!(bytes_equal(b"ab", b"ab"));
    assert!(!bytes_equal(b"ab", b"abc"));
    assert_eq!(strip_prefix(b"rel_ref", b"rel_"), Some(b"ref".as_slice()));
    assert_eq!(strip_prefix(b"rel_", b"rel_"), Some(b"".as_slice()));
    assert_eq!(strip_prefix(b"rel", b"rel_"), None);
}

fn str_ref(s: &str) -> OsmflatStrRef<'_> {
    OsmflatStrRef { bytes: Some(s.as_bytes()) }
}

#[test]
fn terms_are_parsed() {
    let null = OsmflatStrRef { bytes: None };
    let refs = [
        OsmflatKvRef { key: str_ref("highway"), val: str_ref("primary") },
        OsmflatKvRef { key: str_ref("natural"), val: str_ref("") },
        OsmflatKvRef { key: null, val: str_ref("lost") },
        OsmflatKvRef { key: str_ref("railway"), val: null },
    ];
    assert_eq!(
        kv_refs(&refs),
        vec![
            (b"highway".as_slice(), Some(b"primary".as_slice())),
            (b"natural".as_slice(), None),
            (b"railway".as_slice(), None),
        ]
    );
    assert!(kv_refs(&[]).is_empty());
    assert_eq!(key_refs(&[str_ref("name"), null]), vec![b"name".as_slice(), b"".as_slice()]);
}

#[test]
fn the_land_key_asks_for_land_with_any_value() {
    assert!(wants_land(&[(b"natural", None), (b"_osmflat_land", Some(b"yes"))]));
    assert!(wants_land(&[(b"_osmflat_land", None)]));
    assert!(wants_land(&[(b"_osmflat_land", Some(b"1"))]));
    assert!(!wants_land(&[(b"osmflat_land", Some(b"yes"))]));
    assert!(!wants_land(&[]));
}

#[test]
fn bit_patterns_are_ordered_as_numbers_are() {
    let values = [
        f64::NEG_INFINITY, -1e300, -1.5, -f64::MIN_POSITIVE, -5e-324, -0.0, 0.0, 5e-324, 1e-300,
        1.0, 1.5, 1e300, f64::INFINITY, f64::NAN, -f64::NAN,
    ];
    for a in values {
        assert_eq!(nan(a.to_bits()), a.is_nan());
        for b in values {
            assert_eq!(less(a.to_bits(), b.to_bits()), a < b);
            assert_eq!(at_most(a.to_bits(), b.to_bits()), a <= b);
        }
    }
}

fn overlaps(vertices: &[(f64, f64)], edges: [f64; 4]) -> bool {
    let vertices: Vec<(u64, u64)> =
        vertices.iter().map(|v| (v.0.to_bits(), v.1.to_bits())).collect();
    let bbox = Bbox {
        min_lon: edges[0].to_bits(),
        min_lat: edges[1].to_bits(),
        max_lon: edges[2].to_bits(),
        max_lat: edges[3].to_bits(),
    };
    ring_intersects_bbox(&vertices, bbox)
}

#[test]
fn rings_overlap_by_their_boxes() {
    let ring = [(0.0, 0.0), (4.0, 0.0), (4.0, 4.0)];
    assert!(overlaps(&ring, [1.0, 1.0, 2.0, 2.0]));
    assert!(overlaps(&ring, [4.0, 4.0, 9.0, 9.0]));
    assert!(overlaps(&ring, [-9.0, -9.0, 9.0, 9.0]));
    assert!(overlaps(&ring, [0.0, 3.0, 0.5, 3.5])); // in the box, off the ring
    assert!(!overlaps(&ring, [4.5, 0.0, 9.0, 4.0]));
    assert!(!overlaps(&ring, [0.0, -2.0, 4.0, -1.0]));
    assert!(!overlaps(&[], [-180.0, -90.0, 180.0, 90.0]));
    assert!(!overlaps(&ring, [f64::NAN, 0.0, 4.0, 4.0]));
    // A vertex that is no number does not count.
    assert!(overlaps(&[(f64::NAN, 1.0), (1.0, f64::NAN)], [0.0, 0.0, 2.0, 2.0]));
}

#[test]
fn an_archive_opens_with_or_without_its_sidecar() {
    let run = |path: Option<&str>, ext: Option<&str>, results: &[bool]| {
        let mut opening = osmflat_archive_open(path, ext);
        for ok in results {
            opening = opening.advance(*ok);
        }
        opening.step
    };
    let (p, e) = (Some("a.osm.flat"), Some("a.osm.ext"));
    assert_eq!(run(None, e, &[]), OpenStep::Failed);
    assert_eq!(run(p, e, &[]), OpenStep::Parent);
    assert_eq!(run(p, e, &[false]), OpenStep::Failed);
    assert_eq!(run(p, None, &[true]), OpenStep::Plain);
    assert_eq!(run(p, e, &[true]), OpenStep::Sidecar);
    assert_eq!(run(p, e, &[true, false]), OpenStep::Plain);
    assert_eq!(run(p, e, &[true, true]), OpenStep::Attach);
    assert_eq!(run(p, e, &[true, true, true]), OpenStep::WithSidecar);
    assert_eq!(run(p, e, &[true, true, false]), OpenStep::Reopen);
    assert_eq!(run(p, e, &[true, true, false, true]), OpenStep::Plain);
    assert_eq!(run(p, e, &[true, true, false, false]), OpenStep::Failed);
    assert_eq!(run(p, e, &[true, true, true, false, false]), OpenStep::WithSidecar);
}

fn squared_distance(p: (f64, f64), a: (f64, f64), b: (f64, f64)) -> f64 {
    let (dx, dy) = (b.0 - a.0, b.1 - a.1);
    let seg2 = dx * dx + dy * dy;
    if seg2 == 0.0 {
        return (p.0 - a.0).powi(2) + (p.1 - a.1).powi(2);
    }
    let t = (((p.0 - a.0) * dx + (p.1 - a.1) * dy) / seg2).clamp(0.0, 1.0);
    (p.0 - (a.0 + t * dx)).powi(2) + (p.1 - (a.1 + t * dy)).powi(2)
}

fn squared(p: Vertex, a: Vertex, b: Vertex) -> u64 {
    let point = |v: Vertex| (f64::from_bits(v.0), f64::from_bits(v.1));
    squared_distance(point(p), point(a), point(b)).to_bits()
}

fn interleaved(points: &[(f64, f64)]) -> Vec<u64> {
    points.iter().flat_map(|p| [p.0.to_bits(), p.1.to_bits()]).collect()
}

fn simplified(points: &[(f64, f64)], tol: f64, min_pts: usize) -> Vec<(f64, f64)> {
    let coords = interleaved(points);
    simplify_coords(&coords, tol.to_bits(), (tol * tol).to_bits(), min_pts, squared)
        .chunks(2)
        .map(|c| (f64::from_bits(c[0]), f64::from_bits(c[1])))
        .collect()
}

#[test]
fn a_simplifier_goes_from_segment_to_segment() {
    let points = [(0.0, 0.0), (1.0, 0.0), (2.0, 3.0), (3.0, 0.0), (4.0, 0.0)];
    let bits = |v: &[f64]| v.iter().map(|x| x.to_bits()).collect::<Vec<u64>>();
    let mut s = Simplifier::new(5, 1f64.to_bits(), 2);
    assert_eq!(s.segment(), Some((0, 4)));
    s.advance(&bits(&[0.0, 9.0, 0.0]), 1f64.to_bits());
    assert_eq!(s.segment(), Some((2, 4)));
    s.advance(&bits(&[0.5]), 1f64.to_bits());
    assert_eq!(s.segment(), Some((0, 2)));
    s.advance(&bits(&[2.0]), 1f64.to_bits());
    assert_eq!(s.segment(), None);
    let left = interleaved(&[points[0], points[1], points[2], points[4]]);
    assert_eq!(s.finish(&interleaved(&points)), left);
}

#[test]
fn simplification_drops_what_lies_within_the_tolerance() {
    let line = [(0.0, 0.0), (1.0, 0.01), (2.0, 0.0), (3.0, 2.0), (4.0, 0.0)];
    assert_eq!(simplified(&line, 0.1, 2), vec![(0.0, 0.0), (2.0, 0.0), (3.0, 2.0), (4.0, 0.0)]);
    assert_eq!(simplified(&line, 10.0, 2), vec![(0.0, 0.0), (4.0, 0.0)]);
    // Off, or with nothing to spare.
    assert_eq!(simplified(&line, 0.0, 2), line.to_vec());
    assert_eq!(simplified(&line, -1.0, 2), line.to_vec());
    assert_eq!(simplified(&line, 10.0, 5), line.to_vec());
    // Too little would be left.
    assert_eq!(simplified(&line, 10.0, 4), line.to_vec());
}

#[test]
fn a_closed_ring_stays_closed() {
    let ring = [(0.0, 0.0), (5.0, 0.1), (10.0, 0.0), (10.0, 10.0), (0.0, 10.0), (0.0, 0.0)];
    let r = simplified(&ring, 0.5, 4);
    assert_eq!(r, vec![(0.0, 0.0), (10.0, 0.0), (10.0, 10.0), (0.0, 10.0), (0.0, 0.0)]);
    assert_eq!(least_vertices(true), 4);
    assert_eq!(least_vertices(false), 2);
}

#[test]
fn simplifying_twice_is_simplifying_once() {
    let wave: Vec<(f64, f64)> =
        (0..60).map(|i| (i as f64, (i as f64 * 0.7).sin() * (1.0 + (i % 7) as f64))).collect();
    for tol in [0.1, 0.5, 1.5, 4.0, 50.0] {
        for min_pts in [2, 4, 9] {
            let once = simplified(&wave, tol, min_pts);
            assert_eq!(simplified(&once, tol, min_pts), once);
        }
    }
}

#[test]
fn dropped_vertices_are_near_the_line_that_is_left() {
    let wave: Vec<(f64, f64)> = (0..40).map(|i| (i as f64, (i as f64 * 1.3).cos() * 2.0)).collect();
    let tol = 0.8;
    let left = simplified(&wave, tol, 2);
    assert!(left.len() < wave.len());
    for pair in left.windows(2) {
        for p in wave.iter().filter(|p| pair[0].0 < p.0 && p.0 < pair[1].0) {
            assert!(squared_distance(*p, pair[0], pair[1]) <= tol * tol);
        }
    }
}

#[test]
fn the_first_of_the_farthest_vertices_splits() {
    let bits = |v: &[f64]| v.iter().map(|x| x.to_bits()).collect::<Vec<u64>>();
    assert_eq!(find_split(&bits(&[1.0, 3.0, 3.0, 2.0]), 0.5f64.to_bits()), Some(1));
    assert_eq!(find_split(&bits(&[1.0, 3.0]), 3f64.to_bits()), None);
    assert_eq!(find_split(&bits(&[0.0, 0.0]), 0), None);
    assert_eq!(find_split(&bits(&[f64::NAN, 1.0]), 0), Some(1));
    assert_eq!(find_split(&[], 0), None);
}

#[test]
fn a_missing_feature_set_has_fixed_answers() {
    assert!(!osmflat_featureset_next(None));
    assert_eq!(osmflat_feature_osm_id(None), None);
    assert_eq!(osmflat_feature_osm_type(None), OsmflatOsmType::Node);
    assert!(!osmflat_feature_is_closed(None));
    assert_eq!(osmflat_feature_way_area(None), 0f64.to_bits());
    assert_eq!(osmflat_feature_z_order(None), 0);
    assert_eq!(osmflat_feature_geom_type(None), OsmflatGeomType::Point);
    assert_eq!(osmflat_feature_num_polygons(None), 0);
    assert_eq!(osmflat_feature_polygon_num_rings(None, 0), 0);
    assert_eq!(osmflat_feature_ring_num_coords(None, 0, 0), 0);
    assert_eq!(osmflat_feature_ring_coords(None, 0, 0), None);
    assert_eq!(osmflat_feature_num_coords(None), 0);
    assert_eq!(osmflat_feature_coords(None), None);
    assert!(!osmflat_feature_attr(None, 0).present);
}

fn drawn_by_area(areas: &[f64]) -> Vec<u64> {
    let feature = |(i, area): (usize, &f64)| OwnedFeature {
        osm_id: Some(i as u64),
        osm_type: OsmflatOsmType::Way,
        geom_type: OsmflatGeomType::LineString,
        is_closed: true,
        z_order: 0,
        way_area: area.to_bits(),
        coords: vec![],
        polygons: vec![],
        attrs: vec![],
    };
    let features = areas.iter().enumerate().map(feature).collect();
    in_draw_order(OsmflatOrder::WayArea, features).iter().map(|f| f.osm_id.unwrap()).collect()
}

#[test]
fn large_areas_are_drawn_first() {
    assert_eq!(drawn_by_area(&[1.0, 3.0, 0.0, 3.0, -0.0, 2.0]), vec![1, 3, 5, 0, 2, 4]);
    assert_eq!(drawn_by_area(&[1.0, f64::INFINITY]), vec![1, 0]);
    assert!(drawn_by_area(&[]).is_empty());
}

#[test]
fn an_area_that_is_no_number_keeps_its_place() {
    assert_eq!(drawn_by_area(&[1.0, f64::NAN]), vec![0, 1]);
    assert_eq!(drawn_by_area(&[f64::NAN, 1.0]), vec![0, 1]);
    assert_eq!(drawn_by_area(&[1.0, -f64::NAN, 1.0, f64::NAN]), vec![0, 1, 2, 3]);
    assert_eq!(drawn_by_area(&[f64::NAN, f64::NAN]), vec![0, 1]);
    assert_eq!(drawn_by_area(&[f64::NAN, 1.0, 2.0]), vec![0, 2, 1]);
}

//! Queries over small archives that are built in memory.

use flatdata::MemoryResourceStorage;
use osmflat::{Header, Osm, OsmBuilder};
use osmflat_capi::archive::{check_lookup_readable, IndexRange, Member};
use osmflat_capi::feature::{
    check_node_readable, check_relation_known, check_relation_readable, check_way_readable,
    dropped_relation, materialize_node, materialize_relation, materialize_way, Draft, Line, OsmflatGeomType,
    OsmflatOsmType, RelationRings, RelationShape,
};
use osmflat_capi::featureset::{
    osmflat_feature_attr, osmflat_feature_coords, osmflat_feature_geom_type,
    osmflat_feature_is_closed, osmflat_feature_num_coords, osmflat_feature_num_polygons,
    osmflat_feature_osm_id, osmflat_feature_osm_type, osmflat_feature_polygon_num_rings,
    osmflat_feature_ring_coords, osmflat_feature_ring_num_coords, osmflat_feature_way_area,
    osmflat_feature_z_order, osmflat_featureset_next, OsmflatFeatureSet,
};
use osmflat_capi::filter::FilterTerm;
use osmflat_capi::handle::{
    osmflat_archive_envelope, ArchiveKind, Envelope, OsmflatArchive, Prim, Sidecar, TaginfoQuery,
    ValueView,
};
use osmflat_capi::land::{Bbox, LandRing};
use osmflat_capi::members::{check_rels_in_archive, expand_member_pairs};
use osmflat_capi::order::OsmflatOrder;
use osmflat_capi::query::{osmflat_query, plan_query, BboxScan, Query, QueryPlan};
use osmflat_capi::select::{candidate_indices, check_terms_answerable, relations_matching_all};
use osmflat_capi::tags::{
    check_attrs_readable, check_z_order_readable, collect_attrs, compute_z_order, is_area_relation,
};

const COORD_SCALE: i32 = 10_000_000;

type Tags = Vec<(&'static str, &'static str)>;

struct NodeSpec {
    lon: f64,
    lat: f64,
    tags: Tags,
}

struct WaySpec {
    refs: Vec<Option<u64>>,
    tags: Tags,
}

struct RelationSpec {
    members: Vec<Member>,
    tags: Tags,
}

struct Fixture {
    nodes: Vec<NodeSpec>,
    ways: Vec<WaySpec>,
    relations: Vec<RelationSpec>,
    with_ids: bool,
    /// Tags, in the order of the archive, whose value is past the string table.
    broken_tags: Vec<usize>,
}

/// Two route relations: A (`route=train`, `ref=Borealis`) with a stop node, two
/// rail ways, one of them listed twice, and a relation as a member; B
/// (`route=bus`) with a way that A has too.
fn route_fixture() -> Fixture {
    Fixture {
        nodes: vec![
            NodeSpec { lon: -93.2, lat: 44.90, tags: vec![("railway", "stop")] },
            NodeSpec { lon: -93.1, lat: 44.95, tags: vec![] },
            NodeSpec { lon: -93.0, lat: 45.00, tags: vec![] },
            NodeSpec { lon: -92.9, lat: 45.05, tags: vec![] },
        ],
        ways: vec![
            WaySpec { refs: vec![Some(0), Some(1), Some(2)], tags: vec![("railway", "rail")] },
            WaySpec { refs: vec![Some(2), Some(3)], tags: vec![("railway", "rail")] },
        ],
        relations: vec![
            RelationSpec {
                members: vec![
                    Member::Node(Some(0)),
                    Member::Way(Some(0)),
                    Member::Way(Some(1)),
                    Member::Way(Some(1)),
                    Member::Relation(Some(1)),
                ],
                tags: vec![("type", "route"), ("route", "train"), ("ref", "Borealis")],
            },
            RelationSpec {
                members: vec![Member::Way(Some(0))],
                tags: vec![("type", "route"), ("route", "bus")],
            },
        ],
        with_ids: false,
        broken_tags: vec![],
    }
}

/// Roads, a ring and area relations.
fn area_fixture() -> Fixture {
    Fixture {
        nodes: vec![
            NodeSpec { lon: 1.0, lat: 1.0, tags: vec![("layer", " -2 "), ("rel_ref", "own")] },
            NodeSpec { lon: 2.0, lat: 1.0, tags: vec![] },
            NodeSpec { lon: 2.0, lat: 2.0, tags: vec![] },
            NodeSpec { lon: 1.0, lat: 2.0, tags: vec![] },
        ],
        ways: vec![
            WaySpec {
                refs: vec![Some(0), Some(1), Some(2), Some(3), Some(0)],
                tags: vec![("highway", "primary"), ("bridge", "yes"), ("layer", "1")],
            },
            WaySpec { refs: vec![Some(0), None, Some(2)], tags: vec![("highway", "steps")] },
            WaySpec { refs: vec![None, Some(2)], tags: vec![] },
            WaySpec { refs: vec![Some(1), Some(2)], tags: vec![("tunnel", "yes")] },
        ],
        relations: vec![
            RelationSpec {
                members: vec![Member::Way(Some(0)), Member::Way(None), Member::Node(None)],
                tags: vec![("type", "multipolygon"), ("name", "Lake"), ("layer", "1")],
            },
            RelationSpec { members: vec![], tags: vec![("type", "route")] },
            RelationSpec { members: vec![], tags: vec![("type", "boundary")] },
        ],
        with_ids: true,
        broken_tags: vec![],
    }
}

struct Strings {
    table: Vec<u8>,
    tags: Vec<(u64, u64)>,
}

impl Strings {
    fn add(&mut self, s: &str) -> u64 {
        let at = self.table.len() as u64;
        self.table.extend_from_slice(s.as_bytes());
        self.table.push(0);
        at
    }

    fn add_tags(&mut self, tags: &Tags) {
        for (key, value) in tags {
            let (k, v) = (self.add(key), self.add(value));
            self.tags.push((k, v));
        }
    }
}

fn fixed(degrees: f64) -> i32 {
    (degrees * COORD_SCALE as f64).round() as i32
}

fn build(fixture: &Fixture) -> Osm {
    let storage = MemoryResourceStorage::new("/archive");
    let builder = OsmBuilder::new(storage.clone()).unwrap();
    let mut header = Header::new();
    header.set_coord_scale(COORD_SCALE);
    header.set_bbox_left(-5);
    header.set_bbox_right(7);
    header.set_bbox_top(11);
    header.set_bbox_bottom(-13);
    builder.set_header(&header).unwrap();

    let mut strings = Strings { table: vec![0], tags: vec![] };

    let mut nodes = builder.start_nodes().unwrap();
    for spec in &fixture.nodes {
        let node = nodes.grow().unwrap();
        node.set_lon(fixed(spec.lon));
        node.set_lat(fixed(spec.lat));
        node.set_tag_first_idx(strings.tags.len() as u64);
        strings.add_tags(&spec.tags);
    }
    nodes.grow().unwrap().set_tag_first_idx(strings.tags.len() as u64);
    nodes.close().unwrap();

    let mut refs: Vec<Option<u64>> = vec![];
    let mut ways = builder.start_ways().unwrap();
    for spec in &fixture.ways {
        let way = ways.grow().unwrap();
        way.set_tag_first_idx(strings.tags.len() as u64);
        way.set_ref_first_idx(refs.len() as u64);
        strings.add_tags(&spec.tags);
        refs.extend_from_slice(&spec.refs);
    }
    let end = ways.grow().unwrap();
    end.set_tag_first_idx(strings.tags.len() as u64);
    end.set_ref_first_idx(refs.len() as u64);
    ways.close().unwrap();

    let mut nodes_index = builder.start_nodes_index().unwrap();
    for r in &refs {
        nodes_index.grow().unwrap().set_value(*r);
    }
    nodes_index.close().unwrap();

    let mut relations = builder.start_relations().unwrap();
    for spec in &fixture.relations {
        relations.grow().unwrap().set_tag_first_idx(strings.tags.len() as u64);
        strings.add_tags(&spec.tags);
    }
    relations.grow().unwrap().set_tag_first_idx(strings.tags.len() as u64);
    relations.close().unwrap();

    let mut members = builder.start_relation_members().unwrap();
    for spec in &fixture.relations {
        let mut item = members.grow().unwrap();
        for member in &spec.members {
            match member {
                Member::Node(i) => item.add_node_member().set_node_idx(*i),
                Member::Way(i) => item.add_way_member().set_way_idx(*i),
                Member::Relation(i) => item.add_relation_member().set_relation_idx(*i),
            }
        }
    }
    members.close().unwrap();

    let mut tags = builder.start_tags().unwrap();
    let mut tags_index = builder.start_tags_index().unwrap();
    for (i, (key, value)) in strings.tags.iter().enumerate() {
        let tag = tags.grow().unwrap();
        tag.set_key_idx(*key);
        let broken = fixture.broken_tags.contains(&i);
        tag.set_value_idx(if broken { 1 << 30 } else { *value });
        tags_index.grow().unwrap().set_value(i as u64);
    }
    tags.close().unwrap();
    tags_index.close().unwrap();
    builder.set_stringtable(&strings.table).unwrap();

    if fixture.with_ids {
        let ids = builder.ids().unwrap();
        let mut list = ids.start_nodes().unwrap();
        for i in 0..fixture.nodes.len() {
            list.grow().unwrap().set_value(100 + i as u64);
        }
        list.close().unwrap();
        let mut list = ids.start_ways().unwrap();
        for i in 0..fixture.ways.len() {
            list.grow().unwrap().set_value(200 + i as u64);
        }
        list.close().unwrap();
        let mut list = ids.start_relations().unwrap();
        for i in 0..fixture.relations.len() {
            list.grow().unwrap().set_value(300 + i as u64);
        }
        list.close().unwrap();
    }
    Osm::open(storage).unwrap()
}

fn row_of<'a>(values: &'a mut Vec<ValueView>, tag: (&str, &str)) -> &'a mut ValueView {
    let (key, value) = (tag.0.as_bytes(), tag.1.as_bytes());
    let at = match values.iter().position(|r| r.key == key && r.value == value) {
        Some(at) => at,
        None => {
            values.push(ValueView {
                key: key.to_vec(),
                value: value.to_vec(),
                nodes: vec![],
                ways: vec![],
                relations: vec![],
            });
            values.len() - 1
        }
    };
    &mut values[at]
}

/// The inverted index over the tags of a fixture.
fn taginfo(fixture: &Fixture) -> TaginfoQuery {
    let mut values: Vec<ValueView> = vec![];
    for (i, spec) in fixture.nodes.iter().enumerate() {
        for tag in &spec.tags {
            row_of(&mut values, *tag).nodes.push(i as u64);
        }
    }
    for (i, spec) in fixture.ways.iter().enumerate() {
        for tag in &spec.tags {
            row_of(&mut values, *tag).ways.push(i as u64);
        }
    }
    for (i, spec) in fixture.relations.iter().enumerate() {
        for tag in &spec.tags {
            row_of(&mut values, *tag).relations.push(i as u64);
        }
    }
    TaginfoQuery { values }
}

fn indexed(fixture: &Fixture) -> Sidecar {
    Sidecar {
        taginfo: Some(taginfo(fixture)),
        multipolygons: false,
        coastline: None,
        land_polygons: None,
    }
}

fn tags_of(archive: &Osm, r: u64) -> IndexRange {
    let tags = archive.relations()[r as usize].tags();
    IndexRange { start: tags.start, end: tags.end }
}

/// Index of the single relation with `key=value`.
fn relation_with(archive: &Osm, key: &[u8], value: &[u8]) -> u64 {
    (0..archive.relations().len())
        .find(|&i| osmflat::find_tag(archive, archive.relations()[i].tags(), key) == Some(value))
        .unwrap() as u64
}

#[test]
fn relations_matching_all_ands_terms_on_both_paths() {
    let fixture = route_fixture();
    let parent = build(&fixture);
    let handles =
        [OsmflatArchive::plain(&parent), OsmflatArchive::with_sidecar(&parent, indexed(&fixture))];
    for handle in handles {
        let archive = handle.osm();
        let train = relation_with(archive, b"route", b"train");
        let bus = relation_with(archive, b"route", b"bus");

        let filters = vec![
            (b"route".as_slice(), Some(b"train".as_slice())),
            (b"ref".as_slice(), Some(b"Borealis".as_slice())),
        ];
        assert!(check_terms_answerable(&handle, &filters));
        assert_eq!(relations_matching_all(&handle, &filters), vec![train]);

        // AND, not OR: one non-matching term empties the result.
        let filters = vec![
            (b"route".as_slice(), Some(b"train".as_slice())),
            (b"ref".as_slice(), Some(b"Nope".as_slice())),
        ];
        assert!(relations_matching_all(&handle, &filters).is_empty());

        // Wildcard term: any relation carrying the key.
        let filters: Vec<FilterTerm> = vec![(b"route".as_slice(), None)];
        let mut expected = vec![train, bus];
        expected.sort_unstable();
        assert_eq!(relations_matching_all(&handle, &filters), expected);

        assert!(relations_matching_all(&handle, &[]).is_empty());
    }
}

#[test]
fn expand_member_pairs_dedups_and_skips_relation_members() {
    let parent = build(&route_fixture());
    let handle = OsmflatArchive::plain(&parent);
    let archive = handle.osm();
    let train = relation_with(archive, b"route", b"train");

    let (node_pairs, way_pairs) = expand_member_pairs(archive, &[train], true, true);

    assert_eq!(node_pairs.len(), 1);
    assert_eq!(way_pairs.len(), 2); // duplicate way deduped, relation member dropped
    assert!(node_pairs.iter().chain(&way_pairs).all(|&(_, r)| r == train));
    assert!(way_pairs[0].0 < way_pairs[1].0); // ascending (spatial) order

    // want_* gates each list independently.
    let (no_nodes, ways_only) = expand_member_pairs(archive, &[train], false, true);
    assert!(no_nodes.is_empty());
    assert_eq!(ways_only, way_pairs);
}

#[test]
fn rel_prefixed_keys_resolve_from_parent_relation() {
    let parent = build(&route_fixture());
    let handle = OsmflatArchive::plain(&parent);
    let archive = handle.osm();
    let train = relation_with(archive, b"route", b"train");
    let (_, way_pairs) = expand_member_pairs(archive, &[train], false, true);
    let (w, r) = way_pairs[0];

    let rel_tags = tags_of(archive, r);
    let keys = vec![
        b"railway".as_slice(),
        b"ref".as_slice(),
        b"rel_ref".as_slice(),
        b"rel_route".as_slice(),
    ];
    let feat = materialize_way(archive, w, &keys, Some(rel_tags)).unwrap();

    assert_eq!(feat.attrs[0].as_deref(), Some(b"rail".as_slice())); // own tag
    assert_eq!(feat.attrs[1], None); // the way itself has no `ref`
    assert_eq!(feat.attrs[2].as_deref(), Some(b"Borealis".as_slice()));
    assert_eq!(feat.attrs[3].as_deref(), Some(b"train".as_slice()));

    // Without a parent relation, `rel_*` is just a literal (absent) tag.
    let plain = materialize_way(archive, w, &keys, None).unwrap();
    assert_eq!(plain.attrs[2], None);
}

#[test]
fn a_handle_gives_access_to_its_parts() {
    let fixture = area_fixture();
    let osm = build(&fixture);
    let plain = OsmflatArchive::plain(&osm);
    assert_eq!(plain.coord_scale, COORD_SCALE);
    assert!(plain.taginfo().is_none());
    assert!(!plain.multipolygons());
    assert!(plain.coastline().is_none());
    assert!(plain.land_polygons().is_none());
    assert!(matches!(plain.kind, ArchiveKind::Plain(_)));

    let mut sidecar = indexed(&fixture);
    sidecar.multipolygons = true;
    sidecar.coastline = Some(vec![]);
    sidecar.land_polygons = Some(vec![]);
    let ext = OsmflatArchive::with_sidecar(&osm, sidecar);
    assert!(ext.taginfo().is_some());
    assert!(ext.multipolygons());
    assert!(ext.coastline().is_some());
    assert!(ext.land_polygons().is_some());
    assert_eq!(ext.osm().nodes().len(), 4);
}

#[test]
fn the_envelope_is_that_of_the_header() {
    let osm = build(&route_fixture());
    let handle = OsmflatArchive::plain(&osm);
    assert_eq!(
        osmflat_archive_envelope(Some(&handle)),
        Some(Envelope { min_x: -5, min_y: -13, max_x: 7, max_y: 11, scale: COORD_SCALE })
    );
    assert_eq!(osmflat_archive_envelope(None), None);
}

#[test]
fn candidates_are_the_union_of_the_terms_within_the_box() {
    let fixture = area_fixture();
    let osm = build(&fixture);
    let handle = OsmflatArchive::with_sidecar(&osm, indexed(&fixture));
    let any_highway: FilterTerm = (b"highway", None);
    let steps: FilterTerm = (b"highway", Some(b"steps"));
    let tunnel: FilterTerm = (b"tunnel", Some(b"yes"));

    assert_eq!(candidate_indices(&handle, &[any_highway], &[3, 1, 0], Prim::Way), Some(vec![0, 1]));
    assert_eq!(candidate_indices(&handle, &[steps, tunnel], &[3, 1, 0], Prim::Way), Some(vec![1, 3]));
    assert_eq!(candidate_indices(&handle, &[steps, any_highway], &[0], Prim::Way), Some(vec![0]));
    assert_eq!(candidate_indices(&handle, &[steps], &[0, 1], Prim::Node), Some(vec![]));
    assert_eq!(candidate_indices(&handle, &[(b"nothing", None)], &[0, 1], Prim::Way), Some(vec![]));
    assert_eq!(
        candidate_indices(&handle, &[(b"type", None)], &[2, 0], Prim::Relation),
        Some(vec![0, 2])
    );
    assert_eq!(candidate_indices(&handle, &[], &[0], Prim::Way), None);
    let plain = OsmflatArchive::plain(&osm);
    assert_eq!(candidate_indices(&plain, &[steps], &[0], Prim::Way), None);
}

#[test]
fn render_priority_adds_layer_band_and_class() {
    let osm = build(&area_fixture());
    let z = |w: usize| {
        let tags = osm.ways()[w].tags();
        compute_z_order(&osm, IndexRange { start: tags.start, end: tags.end })
    };
    assert_eq!(z(0), 10_000 + 100 + 70);
    assert_eq!(z(1), 10);
    assert_eq!(z(2), 0);
    assert_eq!(z(3), -100);
    let node = osm.nodes()[0].tags();
    assert_eq!(compute_z_order(&osm, IndexRange { start: node.start, end: node.end }), -20_000);
}

fn z_of(tags: Tags) -> i32 {
    let osm = build(&Fixture {
        nodes: vec![NodeSpec { lon: 0.0, lat: 0.0, tags }],
        ways: vec![],
        relations: vec![],
        with_ids: false,
        broken_tags: vec![],
    });
    let range = osm.nodes()[0].tags();
    compute_z_order(&osm, IndexRange { start: range.start, end: range.end })
}

#[test]
fn a_layer_is_a_number_with_space_around_it() {
    assert_eq!(z_of(vec![("layer", "3")]), 30_000);
    assert_eq!(z_of(vec![("layer", "+3")]), 30_000);
    assert_eq!(z_of(vec![("layer", "\t-1\u{a0}")]), -10_000);
    assert_eq!(z_of(vec![("layer", "1.5")]), 0);
    assert_eq!(z_of(vec![("layer", "")]), 0);
    assert_eq!(z_of(vec![("layer", "-")]), 0);
    assert_eq!(z_of(vec![("layer", "99999999999")]), 0);
    assert_eq!(z_of(vec![("layer", "2147483647")]), -10_000);
}

#[test]
fn a_no_is_not_a_bridge_and_a_bridge_beats_a_tunnel() {
    assert_eq!(z_of(vec![("bridge", "no")]), 0);
    assert_eq!(z_of(vec![("tunnel", "no")]), 0);
    assert_eq!(z_of(vec![("bridge", "viaduct"), ("tunnel", "yes")]), 100);
    assert_eq!(z_of(vec![("bridge", "no"), ("tunnel", "yes"), ("highway", "motorway")]), -10);
    assert_eq!(z_of(vec![("highway", "corridor")]), 5);
}

#[test]
fn nodes_become_points() {
    let osm = build(&area_fixture());
    let keys: Vec<&[u8]> = vec![b"layer", b"rel_ref", b"name"];
    assert!(check_node_readable(&osm, 0, &keys, None));
    assert!(!check_node_readable(&osm, 4, &keys, None));
    let own = materialize_node(&osm, 0, &keys, None);
    assert_eq!(own.osm_id, Some(100));
    assert_eq!(own.osm_type, OsmflatOsmType::Node);
    assert_eq!(own.geom_type, OsmflatGeomType::Point);
    assert!(!own.is_closed);
    assert_eq!(own.z_order, -20_000);
    assert_eq!(own.vertices, vec![(fixed(1.0), fixed(1.0))]);
    assert_eq!(own.attrs, vec![Some(b" -2 ".to_vec()), Some(b"own".to_vec()), None]);

    // The parent relation hides a tag of the node that begins with `rel_`.
    let member = materialize_node(&osm, 0, &keys, Some(tags_of(&osm, 0)));
    assert_eq!(member.attrs, vec![Some(b" -2 ".to_vec()), None, None]);
}

#[test]
fn ways_become_lines() {
    let osm = build(&area_fixture());
    let keys: Vec<&[u8]> = vec![b"highway"];
    assert!((0..4).all(|w| check_way_readable(&osm, w, &keys, None)));
    assert!(!check_way_readable(&osm, 4, &keys, None));

    let ring = materialize_way(&osm, 0, &keys, None).unwrap();
    assert_eq!(ring.osm_id, Some(200));
    assert_eq!(ring.osm_type, OsmflatOsmType::Way);
    assert_eq!(ring.geom_type, OsmflatGeomType::LineString);
    assert!(ring.is_closed);
    assert_eq!(ring.vertices.len(), 5);
    assert_eq!(ring.attrs, vec![Some(b"primary".to_vec())]);

    // A reference to a node that the archive lacks is skipped.
    let gap = materialize_way(&osm, 1, &keys, None).unwrap();
    assert!(!gap.is_closed);
    assert_eq!(gap.vertices, vec![(fixed(1.0), fixed(1.0)), (fixed(2.0), fixed(2.0))]);

    // One vertex is no line.
    assert!(materialize_way(&osm, 2, &keys, None).is_none());
}

#[test]
fn attributes_are_aligned_to_the_keys() {
    let osm = build(&area_fixture());
    let keys: Vec<&[u8]> = vec![b"name", b"rel_name", b"type"];
    let own = tags_of(&osm, 1);
    let parent = tags_of(&osm, 0);
    assert_eq!(
        collect_attrs(&osm, own, Some(parent), &keys),
        vec![None, Some(b"Lake".to_vec()), Some(b"route".to_vec())]
    );
    assert_eq!(collect_attrs(&osm, own, None, &keys), vec![None, None, Some(b"route".to_vec())]);
    assert!(collect_attrs(&osm, own, None, &[]).is_empty());
}

#[test]
fn area_relations_are_multipolygons_and_boundaries() {
    let osm = build(&area_fixture());
    assert!(is_area_relation(&osm, tags_of(&osm, 0)));
    assert!(!is_area_relation(&osm, tags_of(&osm, 1)));
    assert!(is_area_relation(&osm, tags_of(&osm, 2)));
    assert!(check_relation_known(&osm, 2));
    assert!(!check_relation_known(&osm, 3));
}

fn bits(values: &[f64]) -> Vec<u64> {
    values.iter().map(|v| v.to_bits()).collect()
}

fn square() -> Vec<u64> {
    bits(&[0.0, 0.0, 1.0, 0.0, 1.0, 1.0, 0.0, 0.0])
}

#[test]
fn an_area_relation_becomes_a_multipolygon_and_open_lines() {
    let osm = build(&area_fixture());
    let keys: Vec<&[u8]> = vec![b"name"];
    let shape = RelationShape {
        rings: RelationRings::Live(
            vec![vec![square(), square()]],
            vec![bits(&[5.0, 5.0]), bits(&[5.0, 5.0, 6.0, 6.0])],
        ),
        area_m2: 42f64.to_bits(),
    };
    assert!(dropped_relation(&osm, 0, &keys, &shape).is_none());
    let features = materialize_relation(&osm, 0, &keys, shape);
    assert_eq!(features.len(), 2); // the chain of one vertex is left out
    let area = &features[0];
    assert_eq!(area.osm_id, Some(300));
    assert_eq!(area.osm_type, OsmflatOsmType::Relation);
    assert_eq!(area.geom_type, OsmflatGeomType::MultiPolygon);
    assert!(area.is_closed);
    assert_eq!(area.z_order, 10_000);
    assert_eq!(area.way_area, 42f64.to_bits());
    assert!(area.coords.is_empty());
    assert_eq!(area.polygons, vec![vec![square(), square()]]);
    assert_eq!(area.attrs, vec![Some(b"Lake".to_vec())]);
    let open = &features[1];
    assert_eq!(open.geom_type, OsmflatGeomType::LineString);
    assert_eq!(open.osm_type, OsmflatOsmType::Relation);
    assert!(!open.is_closed);
    assert_eq!(open.way_area, 0);
    assert_eq!(open.coords, bits(&[5.0, 5.0, 6.0, 6.0]));
    assert_eq!(open.attrs, vec![Some(b"Lake".to_vec())]);
}

#[test]
fn an_area_relation_without_rings_is_dropped() {
    let osm = build(&area_fixture());
    let live = RelationShape { rings: RelationRings::Live(vec![], vec![]), area_m2: 0 };
    let dropped = dropped_relation(&osm, 0, &[], &live).unwrap();
    assert_eq!(dropped.osm_id, Some(300));
    assert_eq!(dropped.name, Some(b"Lake".to_vec()));
    assert!(materialize_relation(&osm, 0, &[], live).is_empty());

    let stored = RelationShape { rings: RelationRings::Precomputed(vec![]), area_m2: 0 };
    let dropped = dropped_relation(&osm, 2, &[], &stored).unwrap();
    assert_eq!(dropped.osm_id, Some(302));
    assert_eq!(dropped.name, None);
    assert!(materialize_relation(&osm, 2, &[], stored).is_empty());

    // A relation that stands for no area is not reported.
    let other = RelationShape { rings: RelationRings::Precomputed(vec![]), area_m2: 0 };
    assert!(dropped_relation(&osm, 1, &[], &other).is_none());
    let other = RelationShape { rings: RelationRings::Precomputed(vec![vec![square()]]), area_m2: 0 };
    assert!(materialize_relation(&osm, 1, &[], other).is_empty());
}

#[test]
fn precomputed_rings_become_one_feature() {
    let osm = build(&area_fixture());
    let shape = RelationShape {
        rings: RelationRings::Precomputed(vec![vec![square()], vec![square()]]),
        area_m2: 1f64.to_bits(),
    };
    let features = materialize_relation(&osm, 2, &[], shape);
    assert_eq!(features.len(), 1);
    assert_eq!(features[0].polygons.len(), 2);
}

const WORLD: [f64; 4] = [-180.0, -90.0, 180.0, 90.0];

fn bbox(edges: [f64; 4]) -> Bbox {
    Bbox {
        min_lon: edges[0].to_bits(),
        min_lat: edges[1].to_bits(),
        max_lon: edges[2].to_bits(),
        max_lat: edges[3].to_bits(),
    }
}

fn query<'a>(
    filters: Vec<FilterTerm<'a>>,
    member_filters: Vec<FilterTerm<'a>>,
    keys: Vec<&'a [u8]>,
) -> Query<'a> {
    Query {
        bbox: bbox(WORLD),
        include_nodes: true,
        include_ways: true,
        include_relations: true,
        keys,
        filters,
        member_filters,
        order: OsmflatOrder::Spatial,
    }
}

fn scan_all(osm: &Osm) -> BboxScan {
    BboxScan {
        nodes: (0..osm.nodes().len() as u64).collect(),
        ways: (0..osm.ways().len() as u64).collect(),
        relations: (0..osm.relations().len() as u64).collect(),
    }
}

fn measure(draft: &Draft) -> Line {
    let scale = COORD_SCALE as f64;
    let coords =
        draft.vertices.iter().flat_map(|&(x, y)| [x as f64 / scale, y as f64 / scale]).collect::<Vec<f64>>();
    Line { coords: bits(&coords), area_m2: 7f64.to_bits() }
}

fn lake() -> RelationShape {
    RelationShape {
        rings: RelationRings::Live(vec![vec![square()]], vec![]),
        area_m2: 3f64.to_bits(),
    }
}

fn run(handle: &OsmflatArchive, query: &Query) -> OsmflatFeatureSet {
    let plan = plan_query(handle, query, &scan_all(handle.osm())).unwrap();
    let lines = plan.drafts.iter().map(measure).collect();
    let shapes = plan.relations.iter().map(|_| lake()).collect();
    osmflat_query(Some(handle), query, plan, lines, shapes).unwrap()
}

fn ids(fs: &OsmflatFeatureSet) -> Vec<Option<u64>> {
    fs.features.iter().map(|f| f.osm_id).collect()
}

#[test]
fn a_query_emits_nodes_ways_and_area_relations_in_that_order() {
    let osm = build(&area_fixture());
    let handle = OsmflatArchive::plain(&osm);
    let fs = run(&handle, &query(vec![], vec![], vec![]));
    let found: Vec<u64> = ids(&fs).into_iter().map(|id| id.unwrap()).collect();
    // Way 202 has one vertex, and relation 301 is a route.
    assert_eq!(found, vec![100, 101, 102, 103, 200, 201, 203, 300, 302]);
    assert_eq!(fs.features[4].way_area, 7f64.to_bits());
    assert_eq!(fs.features[5].way_area, 0);
    assert_eq!(fs.features[7].way_area, 3f64.to_bits());
    assert_eq!(fs.features[0].coords, bits(&[1.0, 1.0]));
}

#[test]
fn only_included_primitives_are_emitted() {
    let osm = build(&area_fixture());
    let handle = OsmflatArchive::plain(&osm);
    let mut q = query(vec![], vec![], vec![]);
    q.include_nodes = false;
    q.include_relations = false;
    assert_eq!(ids(&run(&handle, &q)), vec![Some(200), Some(201), Some(203)]);
    q.include_ways = false;
    assert!(run(&handle, &q).features.is_empty());
}

#[test]
fn tag_terms_count_only_with_an_index() {
    let fixture = area_fixture();
    let osm = build(&fixture);
    let terms: Vec<FilterTerm> = vec![(b"highway", None)];
    let plain = OsmflatArchive::plain(&osm);
    assert_eq!(run(&plain, &query(terms.clone(), vec![], vec![])).features.len(), 9);
    let ext = OsmflatArchive::with_sidecar(&osm, indexed(&fixture));
    assert_eq!(ids(&run(&ext, &query(terms, vec![], vec![]))), vec![Some(200), Some(201)]);
}

#[test]
fn features_are_drawn_by_z_order_or_area() {
    let osm = build(&area_fixture());
    let handle = OsmflatArchive::plain(&osm);
    let mut q = query(vec![], vec![], vec![]);
    q.order = OsmflatOrder::ZOrder;
    let fs = run(&handle, &q);
    let z: Vec<i32> = fs.features.iter().map(|f| f.z_order).collect();
    assert_eq!(z, vec![-20_000, -100, 0, 0, 0, 0, 10, 10_000, 10_170]);
    // Equal priorities keep the order in which the features were found.
    let found: Vec<u64> = ids(&fs).into_iter().map(|id| id.unwrap()).collect();
    assert_eq!(found, vec![100, 203, 101, 102, 103, 302, 201, 300, 200]);

    q.order = OsmflatOrder::WayArea;
    let fs = run(&handle, &q);
    let found: Vec<u64> = ids(&fs).into_iter().map(|id| id.unwrap()).collect();
    assert_eq!(found, vec![200, 300, 302, 100, 101, 102, 103, 201, 203]);
}

#[test]
fn members_are_emitted_once_for_each_matching_relation() {
    let fixture = route_fixture();
    let osm = build(&fixture);
    let handles =
        [OsmflatArchive::plain(&osm), OsmflatArchive::with_sidecar(&osm, indexed(&fixture))];
    for handle in handles {
        let keys: Vec<&[u8]> = vec![b"railway", b"rel_route"];
        // Both routes: the stop of A, way 0 of A and of B, way 1 of A.
        let fs = run(&handle, &query(vec![], vec![(b"route", None)], keys.clone()));
        let attrs: Vec<_> = fs.features.iter().map(|f| f.attrs.clone()).collect();
        let values = |a: &str, b: &str| vec![Some(a.as_bytes().to_vec()), Some(b.as_bytes().to_vec())];
        assert_eq!(
            attrs,
            vec![
                values("stop", "train"),
                values("rail", "train"),
                values("rail", "bus"),
                values("rail", "train"),
            ]
        );

        // All terms have to match.
        let one = vec![(b"route".as_slice(), Some(b"train".as_slice())), (b"ref".as_slice(), None)];
        assert_eq!(run(&handle, &query(vec![], one, keys.clone())).features.len(), 3);

        // No relation, no member.
        let none = vec![(b"ref".as_slice(), Some(b"99-99".as_slice()))];
        assert!(run(&handle, &query(vec![], none, keys.clone())).features.is_empty());
    }
}

#[test]
fn membership_composes_with_the_box_and_the_tag_terms() {
    let fixture = route_fixture();
    let osm = build(&fixture);
    let handle = OsmflatArchive::with_sidecar(&osm, indexed(&fixture));
    let q = query(vec![(b"railway", Some(b"rail"))], vec![(b"route", Some(b"train"))], vec![]);
    let scan = BboxScan { nodes: vec![0, 1], ways: vec![1], relations: vec![] };
    let plan = plan_query(&handle, &q, &scan).unwrap();
    assert_eq!(plan.drafts.len(), 1); // the stop has another value, way 0 is outside
    assert_eq!(plan.drafts[0].vertices.len(), 2);
    assert!(plan.relations.is_empty());
}

#[test]
fn member_terms_leave_relations_alone() {
    let osm = build(&area_fixture());
    let handle = OsmflatArchive::plain(&osm);
    let with = query(vec![], vec![(b"route", Some(b"nothing"))], vec![]);
    assert_eq!(ids(&run(&handle, &with)), vec![Some(300), Some(302)]);
}

#[test]
fn land_polygons_come_last_and_on_request() {
    let osm = build(&area_fixture());
    let ring = |x: f64, is_land: bool, area: f64| LandRing {
        is_land,
        vertices: vec![(x.to_bits(), 0f64.to_bits()), ((x + 1.0).to_bits(), 1f64.to_bits())],
        area_m2: area.to_bits(),
    };
    let sidecar = Sidecar {
        taginfo: None,
        multipolygons: false,
        coastline: Some(vec![ring(0.0, true, 1.0)]),
        land_polygons: Some(vec![
            ring(0.0, true, 5.0),
            ring(1.0, false, 6.0),
            ring(50.0, true, 7.0),
            ring(2.0, true, 8.0),
        ]),
    };
    let handle = OsmflatArchive::with_sidecar(&osm, sidecar);
    let keys: Vec<&[u8]> = vec![b"name", b"_osmflat_land", b"_osmflat_land"];
    let mut q = query(vec![(b"_osmflat_land", Some(b"yes"))], vec![], keys);
    q.bbox = bbox([0.0, 0.0, 10.0, 10.0]);
    let fs = run(&handle, &q);
    assert_eq!(fs.features.len(), 11);
    let land = &fs.features[9..];
    assert_eq!(land[0].way_area, 5f64.to_bits());
    assert_eq!(land[1].way_area, 8f64.to_bits());
    assert_eq!(land[0].osm_id, None);
    assert_eq!(land[0].osm_type, OsmflatOsmType::Way);
    assert_eq!(land[0].geom_type, OsmflatGeomType::LineString);
    assert!(land[0].is_closed);
    assert_eq!(land[0].coords, bits(&[0.0, 0.0, 1.0, 1.0]));
    assert_eq!(land[0].attrs, vec![None, Some(b"yes".to_vec()), None]);

    // They do not depend on what else is asked for.
    q.include_nodes = false;
    q.include_ways = false;
    q.include_relations = false;
    assert_eq!(run(&handle, &q).features.len(), 2);
    q.filters = vec![(b"natural", None)];
    assert!(run(&handle, &q).features.is_empty());
}

#[test]
fn coastline_rings_are_the_fallback() {
    let osm = build(&area_fixture());
    let ring = LandRing {
        is_land: true,
        vertices: vec![(0, 0), (1f64.to_bits(), 1f64.to_bits())],
        area_m2: 4f64.to_bits(),
    };
    let sidecar =
        Sidecar { taginfo: None, multipolygons: false, coastline: Some(vec![ring]), land_polygons: None };
    let handle = OsmflatArchive::with_sidecar(&osm, sidecar);
    let mut q = query(vec![(b"_osmflat_land", None)], vec![], vec![]);
    q.include_nodes = false;
    q.include_ways = false;
    q.include_relations = false;
    let fs = run(&handle, &q);
    assert_eq!(fs.features.len(), 1);
    assert_eq!(fs.features[0].way_area, 4f64.to_bits());
    assert!(run(&OsmflatArchive::plain(&osm), &q).features.is_empty());
}

#[test]
fn a_missing_archive_gives_no_feature_set() {
    let q = query(vec![], vec![], vec![]);
    let plan = QueryPlan { drafts: vec![], relations: vec![] };
    assert!(osmflat_query(None, &q, plan, vec![], vec![]).is_none());
}

#[test]
fn what_leads_nowhere_cannot_be_planned() {
    // A reference past the nodes.
    let mut fixture = route_fixture();
    fixture.ways[1].refs = vec![Some(2), Some(9)];
    let osm = build(&fixture);
    let handle = OsmflatArchive::plain(&osm);
    let q = query(vec![], vec![], vec![]);
    assert!(!check_way_readable(&osm, 1, &[], None));
    assert!(plan_query(&handle, &q, &scan_all(&osm)).is_none());
    // Only what is read counts.
    let scan = BboxScan { nodes: vec![0], ways: vec![0], relations: vec![] };
    assert!(plan_query(&handle, &q, &scan).is_some());
    // A primitive that does not exist.
    let scan = BboxScan { nodes: vec![4], ways: vec![], relations: vec![] };
    assert!(plan_query(&handle, &q, &scan).is_none());
    // A relation without a member list.
    assert!(check_rels_in_archive(&osm, &[0, 1]));
    assert!(!check_rels_in_archive(&osm, &[0, 2]));
    // A range past the tags, of which the first is `railway`.
    let range = |start: u64, end: u64| IndexRange { start, end };
    assert!(check_lookup_readable(&osm, range(0, 1), b"name"));
    assert!(!check_lookup_readable(&osm, range(0, 1_000), b"name"));
    assert!(check_lookup_readable(&osm, range(0, 1_000), b"railway"));
    assert!(!check_lookup_readable(&osm, range(0, 1_000), b"rail"));
    assert!(check_lookup_readable(&osm, range(1_000, 0), b"name"));
    assert!(!check_z_order_readable(&osm, range(0, 1_000)));
    assert!(check_attrs_readable(&osm, range(0, 1_000), None, &[b"railway"]));
    assert!(!check_attrs_readable(&osm, range(0, 1_000), None, &[b"railway", b"name"]));
}

#[test]
fn a_broken_tag_counts_only_where_it_is_read() {
    // Tags 0 to 2 are those of the nodes and ways, 3 to 5 those of the train
    // relation, 6 and 7 those of the bus relation.
    let broken = |tags: Vec<usize>| {
        let mut fixture = route_fixture();
        fixture.broken_tags = tags;
        build(&fixture)
    };
    let train: Vec<FilterTerm> = vec![(b"route", Some(b"train"))];

    // The `ref` of the train comes after its `type` and its `route`.
    let osm = broken(vec![5]);
    let handle = OsmflatArchive::plain(&osm);
    assert!(check_relation_known(&osm, 0)); // no area, so nothing more is read
    let nothing = RelationShape { rings: RelationRings::Live(vec![], vec![]), area_m2: 0 };
    assert!(check_relation_readable(&osm, 0, &[b"ref"], &nothing));
    let plain = query(vec![], vec![], vec![b"railway"]);
    assert_eq!(plan_query(&handle, &plain, &scan_all(&osm)).unwrap().drafts.len(), 6);
    // Members need the tags of their relation for `rel_` keys alone.
    let own = query(vec![], train.clone(), vec![b"railway", b"rel_route"]);
    assert_eq!(plan_query(&handle, &own, &scan_all(&osm)).unwrap().drafts.len(), 3);
    let parent = query(vec![], train.clone(), vec![b"rel_ref"]);
    assert!(plan_query(&handle, &parent, &scan_all(&osm)).is_none());
    // A term that fails ends the lookup.
    let bus_first: Vec<FilterTerm> = vec![(b"route", Some(b"bus")), (b"ref", None)];
    assert!(check_terms_answerable(&handle, &bus_first));
    let ref_first: Vec<FilterTerm> = vec![(b"ref", None), (b"route", Some(b"bus"))];
    assert!(!check_terms_answerable(&handle, &ref_first));

    // The tag of the stop is read for its render priority.
    let osm = broken(vec![0]);
    let handle = OsmflatArchive::plain(&osm);
    assert!(plan_query(&handle, &plain, &scan_all(&osm)).is_none());
}

#[test]
fn a_dropped_relation_is_asked_for_its_name_alone() {
    // Relation 0 has `type`, `name` and `layer`, from tag 7 on.
    let mut fixture = area_fixture();
    fixture.broken_tags = vec![8];
    let osm = build(&fixture);
    let nothing = RelationShape { rings: RelationRings::Live(vec![], vec![]), area_m2: 0 };
    assert!(check_relation_known(&osm, 0));
    assert!(!check_relation_readable(&osm, 0, &[], &nothing));
    fixture.broken_tags = vec![9];
    let osm = build(&fixture);
    assert!(check_relation_readable(&osm, 0, &[], &nothing));
    assert!(!check_relation_readable(&osm, 0, &[], &lake()));
    assert!(dropped_relation(&osm, 0, &[], &nothing).is_some());
}

#[test]
fn features_have_the_geometry_of_what_they_came_from() {
    let osm = build(&area_fixture());
    let handle = OsmflatArchive::plain(&osm);
    let fs = run(&handle, &query(vec![], vec![], vec![b"name", b"highway"]));
    for f in &fs.features {
        assert_eq!(f.attrs.len(), 2);
        assert!(f.is_closed || f.way_area == 0);
        match f.osm_type {
            OsmflatOsmType::Node => {
                assert_eq!(f.geom_type, OsmflatGeomType::Point);
                assert_eq!(f.coords.len(), 2);
            }
            OsmflatOsmType::Way => assert_eq!(f.geom_type, OsmflatGeomType::LineString),
            OsmflatOsmType::Relation => {
                assert_eq!(f.geom_type, OsmflatGeomType::MultiPolygon);
                assert!(f.is_closed && f.coords.is_empty() && !f.polygons.is_empty());
            }
        }
    }
}

#[test]
fn stored_rings_leave_no_line() {
    let fixture = area_fixture();
    let osm = build(&fixture);
    let mut sidecar = indexed(&fixture);
    sidecar.multipolygons = true;
    let handle = OsmflatArchive::with_sidecar(&osm, sidecar);
    let mut q = query(vec![], vec![], vec![]);
    q.include_nodes = false;
    q.include_ways = false;
    let plan = plan_query(&handle, &q, &scan_all(&osm)).unwrap();
    assert_eq!(plan.relations, vec![0, 2]);
    let stored = |polygons: Vec<Vec<Vec<u64>>>| RelationShape {
        rings: RelationRings::Precomputed(polygons),
        area_m2: 0,
    };
    let shapes = vec![stored(vec![vec![square()]]), stored(vec![])];
    let fs = osmflat_query(Some(&handle), &q, plan, vec![], shapes).unwrap();
    assert_eq!(ids(&fs), vec![Some(300)]);
    assert_eq!(fs.features[0].geom_type, OsmflatGeomType::MultiPolygon);
}

#[test]
fn the_cursor_visits_every_feature_and_reads_it() {
    let osm = build(&area_fixture());
    let handle = OsmflatArchive::plain(&osm);
    let keys: Vec<&[u8]> = vec![b"highway", b"name"];
    let mut fs = run(&handle, &query(vec![], vec![], keys));

    // Nothing is current before the first advance.
    assert_eq!(osmflat_feature_osm_id(Some(&fs)), None);
    assert!(fs.current().is_none());

    let mut seen = vec![];
    while osmflat_featureset_next(Some(&mut fs)) {
        seen.push(osmflat_feature_osm_id(Some(&fs)).unwrap());
        if osmflat_feature_osm_id(Some(&fs)) == Some(200) {
            assert_eq!(osmflat_feature_osm_type(Some(&fs)), OsmflatOsmType::Way);
            assert_eq!(osmflat_feature_geom_type(Some(&fs)), OsmflatGeomType::LineString);
            assert!(osmflat_feature_is_closed(Some(&fs)));
            assert_eq!(osmflat_feature_way_area(Some(&fs)), 7f64.to_bits());
            assert_eq!(osmflat_feature_z_order(Some(&fs)), 10_170);
            assert_eq!(osmflat_feature_num_coords(Some(&fs)), 5);
            assert_eq!(osmflat_feature_coords(Some(&fs)).unwrap().len(), 10);
            assert_eq!(osmflat_feature_num_polygons(Some(&fs)), 0);
            let highway = osmflat_feature_attr(Some(&fs), 0);
            assert!(highway.present);
            assert_eq!(highway.bytes, Some(b"primary".as_slice()));
            assert_eq!(highway.len, 7);
            for i in [1, 2] {
                let absent = osmflat_feature_attr(Some(&fs), i);
                assert!(!absent.present);
                assert_eq!(absent.bytes, None);
                assert_eq!(absent.len, 0);
            }
        }
    }
    assert_eq!(seen, vec![100, 101, 102, 103, 200, 201, 203, 300, 302]);

    // After the end the last feature stays current: a multipolygon.
    assert!(!osmflat_featureset_next(Some(&mut fs)));
    assert_eq!(osmflat_feature_osm_id(Some(&fs)), Some(302));
    assert_eq!(osmflat_feature_osm_type(Some(&fs)), OsmflatOsmType::Relation);
    assert_eq!(osmflat_feature_geom_type(Some(&fs)), OsmflatGeomType::MultiPolygon);
    assert_eq!(osmflat_feature_num_polygons(Some(&fs)), 1);
    assert_eq!(osmflat_feature_polygon_num_rings(Some(&fs), 0), 1);
    assert_eq!(osmflat_feature_polygon_num_rings(Some(&fs), 1), 0);
    assert_eq!(osmflat_feature_ring_num_coords(Some(&fs), 0, 0), 4);
    assert_eq!(osmflat_feature_ring_num_coords(Some(&fs), 0, 1), 0);
    assert_eq!(osmflat_feature_ring_coords(Some(&fs), 0, 0), Some(square().as_slice()));
    assert_eq!(osmflat_feature_ring_coords(Some(&fs), 1, 0), None);
    assert_eq!(osmflat_feature_num_coords(Some(&fs)), 0);
}

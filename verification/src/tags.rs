//! What a feature takes from its tags: the attributes a style asks for, and its
//! render priority.
use osmflat::Osm;
use vstd::prelude::*;
use vstd::string::*;

use crate::archive;
use crate::archive::{check_lookup_readable, find_tag, ArchiveContents, IndexRange};
use crate::text;
use crate::text::{bytes_equal, parse_number, strip_prefix};

verus! {

/// Attribute values, aligned to the keys of a query; `None` for an absent tag.
pub type Attrs = Vec<Option<Vec<u8>>>;

pub open spec fn attr_view(v: Option<Vec<u8>>) -> Option<Seq<u8>> {
    match v {
        Some(b) => Some(b@),
        None => None,
    }
}

/// Attribute values as byte sequences.
pub open spec fn attrs_view(v: Seq<Option<Vec<u8>>>) -> Seq<Option<Seq<u8>>> {
    Seq::new(v.len(), |i: int| attr_view(v[i]))
}

/// Keys as byte sequences.
pub open spec fn keys_view(keys: Seq<&[u8]>) -> Seq<Seq<u8>> {
    Seq::new(keys.len(), |i: int| keys[i]@)
}

/// Where the value of `key` is looked up and under which name: a key that
/// begins with `rel_` names a tag of the parent relation, when there is one.
pub open spec fn attr_place(own: IndexRange, parent: Option<IndexRange>, key: Seq<u8>) -> (
    IndexRange,
    Seq<u8>,
) {
    match parent {
        Some(rel) if text::has_prefix(key, "rel_".spec_bytes()) => (
            rel,
            key.skip("rel_".spec_bytes().len() as int),
        ),
        _ => (own, key),
    }
}

/// The value of a requested key.
pub open spec fn attr_value(
    c: ArchiveContents,
    own: IndexRange,
    parent: Option<IndexRange>,
    key: Seq<u8>,
) -> Option<Seq<u8>> {
    let (range, name) = attr_place(own, parent, key);
    archive::tag_value(c, range, name)
}

/// The value of a requested key can be looked up.
pub open spec fn attr_readable(
    c: ArchiveContents,
    own: IndexRange,
    parent: Option<IndexRange>,
    key: Seq<u8>,
) -> bool {
    let (range, name) = attr_place(own, parent, key);
    archive::lookup_readable(c, range, name)
}

/// The values of all requested keys, in their order.
pub open spec fn attr_values(
    c: ArchiveContents,
    own: IndexRange,
    parent: Option<IndexRange>,
    keys: Seq<Seq<u8>>,
) -> Seq<Option<Seq<u8>>> {
    Seq::new(keys.len(), |i: int| attr_value(c, own, parent, keys[i]))
}

/// The values of all requested keys can be looked up.
pub open spec fn attrs_readable(
    c: ArchiveContents,
    own: IndexRange,
    parent: Option<IndexRange>,
    keys: Seq<Seq<u8>>,
) -> bool {
    forall|i: int| 0 <= i < keys.len() ==> attr_readable(c, own, parent, #[trigger] keys[i])
}

/// Whether the values of all requested keys can be looked up.
pub fn check_attrs_readable(
    archive: &Osm,
    range: IndexRange,
    rel_tags: Option<IndexRange>,
    keys: &[&[u8]],
) -> (r: bool)
    ensures
        r == attrs_readable(
            archive::archive_contents(*archive),
            range,
            rel_tags,
            keys_view(keys@),
        ),
{
    let ghost c = archive::archive_contents(*archive);
    let ghost names = keys_view(keys@);
    let prefix = "rel_".as_bytes();
    let mut i: usize = 0;
    while i < keys.len()
        invariant
            i <= keys@.len(),
            c == archive::archive_contents(*archive),
            names == keys_view(keys@),
            prefix@ == "rel_".spec_bytes(),
            forall|k: int| 0 <= k < i ==> attr_readable(c, range, rel_tags, #[trigger] names[k]),
        decreases keys@.len() - i,
    {
        let key: &[u8] = keys[i];
        let readable: bool = match (rel_tags, strip_prefix(key, prefix)) {
            (Some(rel), Some(stripped)) => check_lookup_readable(archive, rel, stripped),
            _ => check_lookup_readable(archive, range, key),
        };
        assert(readable == attr_readable(c, range, rel_tags, names[i as int]));
        if !readable {
            return false;
        }
        i = i + 1;
    }
    true
}

fn owned(v: Option<&[u8]>) -> (r: Option<Vec<u8>>)
    ensures
        match v {
            Some(b) => attr_view(r) == Some(b@),
            None => r is None,
        },
{
    match v {
        Some(b) => Some(vstd::slice::slice_to_vec(b)),
        None => None,
    }
}

/// Looks up the requested tag values, aligned to `keys`. With a parent relation,
/// a key that begins with `rel_` is answered from that relation's tags under the
/// rest of its name, and so hides a tag of the feature's own with that name.
pub fn collect_attrs(
    archive: &Osm,
    range: IndexRange,
    rel_tags: Option<IndexRange>,
    keys: &[&[u8]],
) -> (r: Attrs)
    requires
        attrs_readable(archive::archive_contents(*archive), range, rel_tags, keys_view(keys@)),
    ensures
        attrs_view(r@) == attr_values(
            archive::archive_contents(*archive),
            range,
            rel_tags,
            keys_view(keys@),
        ),
{
    let ghost c = archive::archive_contents(*archive);
    let prefix = "rel_".as_bytes();
    let mut r: Attrs = Vec::new();
    let mut i: usize = 0;
    while i < keys.len()
        invariant
            i <= keys@.len(),
            r@.len() == i,
            c == archive::archive_contents(*archive),
            attrs_readable(c, range, rel_tags, keys_view(keys@)),
            prefix@ == "rel_".spec_bytes(),
            forall|k: int|
                0 <= k < i ==> attr_view(#[trigger] r@[k]) == attr_value(
                    c,
                    range,
                    rel_tags,
                    keys@[k]@,
                ),
        decreases keys@.len() - i,
    {
        let key: &[u8] = keys[i];
        assert(attr_readable(c, range, rel_tags, keys_view(keys@)[i as int]));
        let value = match (rel_tags, strip_prefix(key, prefix)) {
            (Some(rel), Some(stripped)) => find_tag(archive, rel, stripped),
            _ => find_tag(archive, range, key),
        };
        r.push(owned(value));
        i = i + 1;
    }
    assert(attrs_view(r@) =~= attr_values(c, range, rel_tags, keys_view(keys@)));
    r
}

/// The place of a highway class among the others; every class that is not
/// listed has the lowest place.
pub open spec fn highway_class(hw: Seq<u8>) -> i32 {
    if hw == "motorway".spec_bytes() || hw == "motorway_link".spec_bytes() {
        90
    } else if hw == "trunk".spec_bytes() || hw == "trunk_link".spec_bytes() {
        80
    } else if hw == "primary".spec_bytes() || hw == "primary_link".spec_bytes() {
        70
    } else if hw == "secondary".spec_bytes() || hw == "secondary_link".spec_bytes() {
        60
    } else if hw == "tertiary".spec_bytes() || hw == "tertiary_link".spec_bytes() {
        50
    } else if hw == "residential".spec_bytes() || hw == "unclassified".spec_bytes() || hw
        == "living_street".spec_bytes() {
        40
    } else if hw == "service".spec_bytes() {
        30
    } else if hw == "track".spec_bytes() {
        20
    } else if hw == "path".spec_bytes() || hw == "footway".spec_bytes() || hw
        == "cycleway".spec_bytes() || hw == "steps".spec_bytes() || hw
        == "pedestrian".spec_bytes() {
        10
    } else {
        5
    }
}

/// Render rank of a highway class, the finest term of the render priority.
pub fn highway_rank(hw: &[u8]) -> (r: i32)
    ensures
        r == highway_class(hw@),
{
    if bytes_equal(hw, "motorway".as_bytes()) || bytes_equal(hw, "motorway_link".as_bytes()) {
        90
    } else if bytes_equal(hw, "trunk".as_bytes()) || bytes_equal(hw, "trunk_link".as_bytes()) {
        80
    } else if bytes_equal(hw, "primary".as_bytes()) || bytes_equal(hw, "primary_link".as_bytes()) {
        70
    } else if bytes_equal(hw, "secondary".as_bytes())
        || bytes_equal(hw, "secondary_link".as_bytes()) {
        60
    } else if bytes_equal(hw, "tertiary".as_bytes()) || bytes_equal(hw, "tertiary_link".as_bytes()) {
        50
    } else if bytes_equal(hw, "residential".as_bytes()) || bytes_equal(
        hw,
        "unclassified".as_bytes(),
    ) || bytes_equal(hw, "living_street".as_bytes()) {
        40
    } else if bytes_equal(hw, "service".as_bytes()) {
        30
    } else if bytes_equal(hw, "track".as_bytes()) {
        20
    } else if bytes_equal(hw, "path".as_bytes()) || bytes_equal(hw, "footway".as_bytes())
        || bytes_equal(hw, "cycleway".as_bytes()) || bytes_equal(hw, "steps".as_bytes())
        || bytes_equal(hw, "pedestrian".as_bytes()) {
        10
    } else {
        5
    }
}

/// The `layer` of a feature: the number that the tag spells, else 0.
pub open spec fn layer_of(value: Option<Seq<u8>>) -> int {
    match value {
        Some(v) => match text::spelled_number(v) {
            Some(n) => n,
            None => 0,
        },
        None => 0,
    }
}

/// The class term: the rank of the `highway` value, 0 without that tag.
pub open spec fn class_of(value: Option<Seq<u8>>) -> int {
    match value {
        Some(hw) => highway_class(hw) as int,
        None => 0,
    }
}

/// A yes/no tag is set by any value but `no`.
pub open spec fn tag_set(value: Option<Seq<u8>>) -> bool {
    value is Some && value != Some("no".spec_bytes())
}

/// The band term: bridges above, tunnels below; a bridge counts before a tunnel.
pub open spec fn band_of(bridge: Option<Seq<u8>>, tunnel: Option<Seq<u8>>) -> int {
    if tag_set(bridge) {
        100
    } else if tag_set(tunnel) {
        -100
    } else {
        0
    }
}

/// The 32-bit number that `x` wraps around to.
pub open spec fn wrap_i32(x: int) -> i32 {
    ((x + 0x8000_0000) % 0x1_0000_0000 - 0x8000_0000) as i32
}

/// The render priority that three terms add up to.
pub open spec fn priority(layer: int, band: int, class: int) -> i32 {
    wrap_i32(layer * 10000 + band + class)
}

/// The render priority of a feature with the tags of `range`.
pub open spec fn z_order_of(c: ArchiveContents, range: IndexRange) -> i32 {
    priority(
        layer_of(archive::tag_value(c, range, "layer".spec_bytes())),
        band_of(
            archive::tag_value(c, range, "bridge".spec_bytes()),
            archive::tag_value(c, range, "tunnel".spec_bytes()),
        ),
        class_of(archive::tag_value(c, range, "highway".spec_bytes())),
    )
}

/// The tags that the render priority depends on can be looked up.
pub open spec fn z_order_readable(c: ArchiveContents, range: IndexRange) -> bool {
    &&& archive::lookup_readable(c, range, "layer".spec_bytes())
    &&& archive::lookup_readable(c, range, "highway".spec_bytes())
    &&& archive::lookup_readable(c, range, "bridge".spec_bytes())
    &&& archive::lookup_readable(c, range, "tunnel".spec_bytes())
}

/// Whether the tags that the render priority depends on can be looked up.
pub fn check_z_order_readable(archive: &Osm, range: IndexRange) -> (r: bool)
    ensures
        r == z_order_readable(archive::archive_contents(*archive), range),
{
    check_lookup_readable(archive, range, "layer".as_bytes()) && check_lookup_readable(
        archive,
        range,
        "highway".as_bytes(),
    ) && check_lookup_readable(archive, range, "bridge".as_bytes()) && check_lookup_readable(
        archive,
        range,
        "tunnel".as_bytes(),
    )
}

/// A 32-bit number that differs from `x` by whole turns is what `x` wraps to.
proof fn lemma_wraps_to(x: int, turns: int, r: i32)
    requires
        r == x + turns * 0x1_0000_0000,
    ensures
        wrap_i32(x) == r,
{
    vstd::arithmetic::div_mod::lemma_fundamental_div_mod_converse(
        x + 0x8000_0000,
        0x1_0000_0000,
        -turns,
        r + 0x8000_0000,
    );
}

#[verifier::spinoff_prover]
fn add_terms(layer: i32, band: i32, class: i32) -> (r: i32)
    ensures
        r == priority(layer as int, band as int, class as int),
{
    let scaled: i32 = layer.wrapping_mul(10000);
    let banded: i32 = scaled.wrapping_add(band);
    let r: i32 = banded.wrapping_add(class);
    proof {
        let product = layer * 10000;
        let turns = (scaled - product) / 0x1_0000_0000;
        assert(scaled == product + turns * 0x1_0000_0000);
        let carried = (banded - (scaled + band)) / 0x1_0000_0000;
        assert(banded == scaled + band + carried * 0x1_0000_0000);
        let carried_on = (r - (banded + class)) / 0x1_0000_0000;
        assert(r == banded + class + carried_on * 0x1_0000_0000);
        lemma_wraps_to(product + band + class, turns + carried + carried_on, r);
    }
    r
}

/// A tag value that was found, as bytes.
spec fn found_view(v: Option<&[u8]>) -> Option<Seq<u8>> {
    match v {
        Some(b) => Some(b@),
        None => None,
    }
}

fn layer_term(v: Option<&[u8]>) -> (r: i32)
    ensures
        r == layer_of(found_view(v)),
{
    match v {
        Some(b) => match parse_number(b) {
            Some(n) => n,
            None => 0,
        },
        None => 0,
    }
}

fn class_term(v: Option<&[u8]>) -> (r: i32)
    ensures
        r == class_of(found_view(v)),
{
    match v {
        Some(hw) => highway_rank(hw),
        None => 0,
    }
}

fn is_set(v: Option<&[u8]>) -> (r: bool)
    ensures
        r == tag_set(found_view(v)),
{
    match v {
        Some(b) => !bytes_equal(b, "no".as_bytes()),
        None => false,
    }
}

fn band_term(bridge: Option<&[u8]>, tunnel: Option<&[u8]>) -> (r: i32)
    ensures
        r == band_of(found_view(bridge), found_view(tunnel)),
{
    if is_set(bridge) {
        100
    } else if is_set(tunnel) {
        -100
    } else {
        0
    }
}

/// Render priority of a feature from its tags: layer, then bridge or tunnel
/// band, then highway class.
pub fn compute_z_order(archive: &Osm, tags: IndexRange) -> (r: i32)
    requires
        z_order_readable(archive::archive_contents(*archive), tags),
    ensures
        r == z_order_of(archive::archive_contents(*archive), tags),
{
    let layer = find_tag(archive, tags, "layer".as_bytes());
    let highway = find_tag(archive, tags, "highway".as_bytes());
    let bridge = find_tag(archive, tags, "bridge".as_bytes());
    let tunnel = find_tag(archive, tags, "tunnel".as_bytes());
    add_terms(layer_term(layer), band_term(bridge, tunnel), class_term(highway))
}

/// A relation that stands for an area by its `type` tag.
pub open spec fn area_tags(c: ArchiveContents, range: IndexRange) -> bool {
    let kind = archive::tag_value(c, range, "type".spec_bytes());
    kind == Some("multipolygon".spec_bytes()) || kind == Some("boundary".spec_bytes())
}

/// The `type` tag can be looked up.
pub open spec fn kind_readable(c: ArchiveContents, range: IndexRange) -> bool {
    archive::lookup_readable(c, range, "type".spec_bytes())
}

/// Whether a relation with these tags stands for an area: `type=multipolygon`
/// or `type=boundary`.
pub fn is_area_relation(archive: &Osm, tags: IndexRange) -> (r: bool)
    requires
        kind_readable(archive::archive_contents(*archive), tags),
    ensures
        r == area_tags(archive::archive_contents(*archive), tags),
{
    match find_tag(archive, tags, "type".as_bytes()) {
        Some(v) => bytes_equal(v, "multipolygon".as_bytes()) || bytes_equal(
            v,
            "boundary".as_bytes(),
        ),
        None => false,
    }
}

/// The layers whose priorities do not wrap around.
pub open spec fn ordinary_layer(layer: int) -> bool {
    -214748 < layer < 214748
}

/// For ordinary layers the priority is the plain sum of its terms.
pub proof fn priority_is_a_sum(
    layer: int,
    bridge: Option<Seq<u8>>,
    tunnel: Option<Seq<u8>>,
    highway: Option<Seq<u8>>,
)
    requires
        ordinary_layer(layer),
    ensures
        priority(layer, band_of(bridge, tunnel), class_of(highway)) == layer * 10000 + band_of(
            bridge,
            tunnel,
        ) + class_of(highway),
{
}

/// A feature of a higher layer is drawn above one of a lower layer, whatever
/// bridges, tunnels and highway classes there are.
pub proof fn higher_layer_is_on_top(
    low: int,
    high: int,
    bridge1: Option<Seq<u8>>,
    tunnel1: Option<Seq<u8>>,
    highway1: Option<Seq<u8>>,
    bridge2: Option<Seq<u8>>,
    tunnel2: Option<Seq<u8>>,
    highway2: Option<Seq<u8>>,
)
    requires
        ordinary_layer(low),
        ordinary_layer(high),
        low < high,
    ensures
        priority(low, band_of(bridge1, tunnel1), class_of(highway1)) < priority(
            high,
            band_of(bridge2, tunnel2),
            class_of(highway2),
        ),
{
    priority_is_a_sum(low, bridge1, tunnel1, highway1);
    priority_is_a_sum(high, bridge2, tunnel2, highway2);
}

/// Within a layer a bridge is drawn above everything that is no bridge, and a
/// tunnel below everything that is neither, whatever their highway classes.
pub proof fn bridges_above_and_tunnels_below(
    layer: int,
    bridge: Option<Seq<u8>>,
    tunnel: Option<Seq<u8>>,
    no_bridge: Option<Seq<u8>>,
    no_tunnel: Option<Seq<u8>>,
    any: Option<Seq<u8>>,
    highway1: Option<Seq<u8>>,
    highway2: Option<Seq<u8>>,
)
    requires
        ordinary_layer(layer),
        tag_set(bridge),
        tag_set(tunnel),
        !tag_set(no_bridge),
        !tag_set(no_tunnel),
    ensures
        priority(layer, band_of(bridge, any), class_of(highway1)) > priority(
            layer,
            band_of(no_bridge, any),
            class_of(highway2),
        ),
        priority(layer, band_of(no_bridge, tunnel), class_of(highway1)) < priority(
            layer,
            band_of(no_bridge, no_tunnel),
            class_of(highway2),
        ),
{
    priority_is_a_sum(layer, bridge, any, highway1);
    priority_is_a_sum(layer, no_bridge, any, highway2);
    priority_is_a_sum(layer, no_bridge, tunnel, highway1);
    priority_is_a_sum(layer, no_bridge, no_tunnel, highway2);
}

/// A key that begins with `rel_` is answered by the parent relation alone when
/// there is one, and by the feature's own tags when there is none; every other
/// key is answered by the feature's own tags either way.
pub proof fn rel_keys_read_the_parent_relation(
    c: ArchiveContents,
    own: IndexRange,
    rel: IndexRange,
    key: Seq<u8>,
)
    ensures
        attr_value(c, own, Some(rel), "rel_".spec_bytes() + key) == archive::tag_value(c, rel, key),
        attr_value(c, own, None, "rel_".spec_bytes() + key) == archive::tag_value(
            c,
            own,
            "rel_".spec_bytes() + key,
        ),
        !text::has_prefix(key, "rel_".spec_bytes()) ==> attr_value(c, own, Some(rel), key)
            == attr_value(c, own, None, key),
{
    let prefix = "rel_".spec_bytes();
    assert((prefix + key).take(prefix.len() as int) =~= prefix);
    assert((prefix + key).skip(prefix.len() as int) =~= key);
}

/// The words for highway classes are all different.
proof fn lemma_highway_classes()
    ensures
        class_of(Some("motorway".spec_bytes())) == 90,
        class_of(Some("motorway_link".spec_bytes())) == 90,
        class_of(Some("trunk".spec_bytes())) == 80,
        class_of(Some("trunk_link".spec_bytes())) == 80,
        class_of(Some("primary".spec_bytes())) == 70,
        class_of(Some("primary_link".spec_bytes())) == 70,
        class_of(Some("secondary".spec_bytes())) == 60,
        class_of(Some("secondary_link".spec_bytes())) == 60,
        class_of(Some("tertiary".spec_bytes())) == 50,
        class_of(Some("tertiary_link".spec_bytes())) == 50,
        class_of(Some("residential".spec_bytes())) == 40,
        class_of(Some("unclassified".spec_bytes())) == 40,
        class_of(Some("living_street".spec_bytes())) == 40,
        class_of(Some("service".spec_bytes())) == 30,
        class_of(Some("track".spec_bytes())) == 20,
        class_of(Some("path".spec_bytes())) == 10,
        class_of(Some("footway".spec_bytes())) == 10,
        class_of(Some("cycleway".spec_bytes())) == 10,
        class_of(Some("steps".spec_bytes())) == 10,
        class_of(Some("pedestrian".spec_bytes())) == 10,
{
    reveal_strlit("motorway");
    is_ascii_spec_bytes("motorway");
    assert("motorway".spec_bytes().len() == 8 && "motorway".spec_bytes()[0] == 109 && "motorway".spec_bytes()[2]
        == 116);
    reveal_strlit("motorway_link");
    is_ascii_spec_bytes("motorway_link");
    assert("motorway_link".spec_bytes().len() == 13 && "motorway_link".spec_bytes()[0] == 109 && "motorway_link".spec_bytes()[2]
        == 116);
    reveal_strlit("trunk");
    is_ascii_spec_bytes("trunk");
    assert("trunk".spec_bytes().len() == 5 && "trunk".spec_bytes()[0] == 116 && "trunk".spec_bytes()[2]
        == 117);
    reveal_strlit("trunk_link");
    is_ascii_spec_bytes("trunk_link");
    assert("trunk_link".spec_bytes().len() == 10 && "trunk_link".spec_bytes()[0] == 116 && "trunk_link".spec_bytes()[2]
        == 117);
    reveal_strlit("primary");
    is_ascii_spec_bytes("primary");
    assert("primary".spec_bytes().len() == 7 && "primary".spec_bytes()[0] == 112 && "primary".spec_bytes()[2]
        == 105);
    reveal_strlit("primary_link");
    is_ascii_spec_bytes("primary_link");
    assert("primary_link".spec_bytes().len() == 12 && "primary_link".spec_bytes()[0] == 112 && "primary_link".spec_bytes()[2]
        == 105);
    reveal_strlit("secondary");
    is_ascii_spec_bytes("secondary");
    assert("secondary".spec_bytes().len() == 9 && "secondary".spec_bytes()[0] == 115 && "secondary".spec_bytes()[2]
        == 99);
    reveal_strlit("secondary_link");
    is_ascii_spec_bytes("secondary_link");
    assert("secondary_link".spec_bytes().len() == 14 && "secondary_link".spec_bytes()[0] == 115 && "secondary_link".spec_bytes()[2]
        == 99);
    reveal_strlit("tertiary");
    is_ascii_spec_bytes("tertiary");
    assert("tertiary".spec_bytes().len() == 8 && "tertiary".spec_bytes()[0] == 116 && "tertiary".spec_bytes()[2]
        == 114);
    reveal_strlit("tertiary_link");
    is_ascii_spec_bytes("tertiary_link");
    assert("tertiary_link".spec_bytes().len() == 13 && "tertiary_link".spec_bytes()[0] == 116 && "tertiary_link".spec_bytes()[2]
        == 114);
    reveal_strlit("residential");
    is_ascii_spec_bytes("residential");
    assert("residential".spec_bytes().len() == 11 && "residential".spec_bytes()[0] == 114 && "residential".spec_bytes()[2]
        == 115);
    reveal_strlit("unclassified");
    is_ascii_spec_bytes("unclassified");
    assert("unclassified".spec_bytes().len() == 12 && "unclassified".spec_bytes()[0] == 117 && "unclassified".spec_bytes()[2]
        == 99);
    reveal_strlit("living_street");
    is_ascii_spec_bytes("living_street");
    assert("living_street".spec_bytes().len() == 13 && "living_street".spec_bytes()[0] == 108 && "living_street".spec_bytes()[2]
        == 118);
    reveal_strlit("service");
    is_ascii_spec_bytes("service");
    assert("service".spec_bytes().len() == 7 && "service".spec_bytes()[0] == 115 && "service".spec_bytes()[2]
        == 114);
    reveal_strlit("track");
    is_ascii_spec_bytes("track");
    assert("track".spec_bytes().len() == 5 && "track".spec_bytes()[0] == 116 && "track".spec_bytes()[2]
        == 97);
    reveal_strlit("path");
    is_ascii_spec_bytes("path");
    assert("path".spec_bytes().len() == 4 && "path".spec_bytes()[0] == 112 && "path".spec_bytes()[2]
        == 116);
    reveal_strlit("footway");
    is_ascii_spec_bytes("footway");
    assert("footway".spec_bytes().len() == 7 && "footway".spec_bytes()[0] == 102 && "footway".spec_bytes()[2]
        == 111);
    reveal_strlit("cycleway");
    is_ascii_spec_bytes("cycleway");
    assert("cycleway".spec_bytes().len() == 8 && "cycleway".spec_bytes()[0] == 99 && "cycleway".spec_bytes()[2]
        == 99);
    reveal_strlit("steps");
    is_ascii_spec_bytes("steps");
    assert("steps".spec_bytes().len() == 5 && "steps".spec_bytes()[0] == 115 && "steps".spec_bytes()[2]
        == 101);
    reveal_strlit("pedestrian");
    is_ascii_spec_bytes("pedestrian");
    assert("pedestrian".spec_bytes().len() == 10 && "pedestrian".spec_bytes()[0] == 112 && "pedestrian".spec_bytes()[2]
        == 100);
}

/// Within one layer and band the priority of a feature is greater by a fixed
/// number for each class of highway than that of a feature which is no highway:
/// motorways above trunk roads above primary, secondary and tertiary roads, then
/// the streets where people live, service roads, tracks, and the paths, each link
/// as its class; any other highway is just above none.
pub proof fn highways_are_drawn_by_importance(
    layer: int,
    bridge: Option<Seq<u8>>,
    tunnel: Option<Seq<u8>>,
    other: Seq<u8>,
)
    requires
        ordinary_layer(layer),
        other != "motorway".spec_bytes(),
        other != "motorway_link".spec_bytes(),
        other != "trunk".spec_bytes(),
        other != "trunk_link".spec_bytes(),
        other != "primary".spec_bytes(),
        other != "primary_link".spec_bytes(),
        other != "secondary".spec_bytes(),
        other != "secondary_link".spec_bytes(),
        other != "tertiary".spec_bytes(),
        other != "tertiary_link".spec_bytes(),
        other != "residential".spec_bytes(),
        other != "unclassified".spec_bytes(),
        other != "living_street".spec_bytes(),
        other != "service".spec_bytes(),
        other != "track".spec_bytes(),
        other != "path".spec_bytes(),
        other != "footway".spec_bytes(),
        other != "cycleway".spec_bytes(),
        other != "steps".spec_bytes(),
        other != "pedestrian".spec_bytes(),
    ensures
        ({
            let z = |hw: Option<Seq<u8>>| priority(layer, band_of(bridge, tunnel), class_of(hw));
            let bare = z(None);
            &&& z(Some("motorway".spec_bytes())) == bare + 90
            &&& z(Some("motorway_link".spec_bytes())) == bare + 90
            &&& z(Some("trunk".spec_bytes())) == bare + 80
            &&& z(Some("trunk_link".spec_bytes())) == bare + 80
            &&& z(Some("primary".spec_bytes())) == bare + 70
            &&& z(Some("primary_link".spec_bytes())) == bare + 70
            &&& z(Some("secondary".spec_bytes())) == bare + 60
            &&& z(Some("secondary_link".spec_bytes())) == bare + 60
            &&& z(Some("tertiary".spec_bytes())) == bare + 50
            &&& z(Some("tertiary_link".spec_bytes())) == bare + 50
            &&& z(Some("residential".spec_bytes())) == bare + 40
            &&& z(Some("unclassified".spec_bytes())) == bare + 40
            &&& z(Some("living_street".spec_bytes())) == bare + 40
            &&& z(Some("service".spec_bytes())) == bare + 30
            &&& z(Some("track".spec_bytes())) == bare + 20
            &&& z(Some("path".spec_bytes())) == bare + 10
            &&& z(Some("footway".spec_bytes())) == bare + 10
            &&& z(Some("cycleway".spec_bytes())) == bare + 10
            &&& z(Some("steps".spec_bytes())) == bare + 10
            &&& z(Some("pedestrian".spec_bytes())) == bare + 10
            &&& z(Some(other)) == bare + 5
        }),
{
    lemma_highway_classes();
    priority_is_a_sum(layer, bridge, tunnel, None);
    priority_is_a_sum(layer, bridge, tunnel, Some(other));
    priority_is_a_sum(layer, bridge, tunnel, Some("motorway".spec_bytes()));
    priority_is_a_sum(layer, bridge, tunnel, Some("motorway_link".spec_bytes()));
    priority_is_a_sum(layer, bridge, tunnel, Some("trunk".spec_bytes()));
    priority_is_a_sum(layer, bridge, tunnel, Some("trunk_link".spec_bytes()));
    priority_is_a_sum(layer, bridge, tunnel, Some("primary".spec_bytes()));
    priority_is_a_sum(layer, bridge, tunnel, Some("primary_link".spec_bytes()));
    priority_is_a_sum(layer, bridge, tunnel, Some("secondary".spec_bytes()));
    priority_is_a_sum(layer, bridge, tunnel, Some("secondary_link".spec_bytes()));
    priority_is_a_sum(layer, bridge, tunnel, Some("tertiary".spec_bytes()));
    priority_is_a_sum(layer, bridge, tunnel, Some("tertiary_link".spec_bytes()));
    priority_is_a_sum(layer, bridge, tunnel, Some("residential".spec_bytes()));
    priority_is_a_sum(layer, bridge, tunnel, Some("unclassified".spec_bytes()));
    priority_is_a_sum(layer, bridge, tunnel, Some("living_street".spec_bytes()));
    priority_is_a_sum(layer, bridge, tunnel, Some("service".spec_bytes()));
    priority_is_a_sum(layer, bridge, tunnel, Some("track".spec_bytes()));
    priority_is_a_sum(layer, bridge, tunnel, Some("path".spec_bytes()));
    priority_is_a_sum(layer, bridge, tunnel, Some("footway".spec_bytes()));
    priority_is_a_sum(layer, bridge, tunnel, Some("cycleway".spec_bytes()));
    priority_is_a_sum(layer, bridge, tunnel, Some("steps".spec_bytes()));
    priority_is_a_sum(layer, bridge, tunnel, Some("pedestrian".spec_bytes()));
}

/// The priority of a feature is ten thousand times its layer, plus a hundred for a
/// bridge or minus a hundred for a tunnel that is no bridge, plus what its class
/// of highway adds; a bridge or a tunnel is what carries that tag with any value
/// but `no`. A feature without these tags has none.
pub proof fn priority_follows_the_tags(c: ArchiveContents, range: IndexRange)
    requires
        ordinary_layer(layer_of(archive::tag_value(c, range, "layer".spec_bytes()))),
    ensures
        ({
            let layer = archive::tag_value(c, range, "layer".spec_bytes());
            let bridge = archive::tag_value(c, range, "bridge".spec_bytes());
            let tunnel = archive::tag_value(c, range, "tunnel".spec_bytes());
            let highway = archive::tag_value(c, range, "highway".spec_bytes());
            let level = match layer {
                Some(v) => match text::spelled_number(v) {
                    Some(n) => n,
                    None => 0,
                },
                None => 0,
            };
            let band = if bridge is Some && bridge->0 != "no".spec_bytes() {
                100int
            } else if tunnel is Some && tunnel->0 != "no".spec_bytes() {
                -100
            } else {
                0
            };
            &&& z_order_of(c, range) == 10000 * level + band + class_of(highway)
            &&& highway is None ==> class_of(highway) == 0
            &&& highway is Some ==> 5 <= class_of(highway) <= 90
        }),
{
    priority_is_a_sum(
        layer_of(archive::tag_value(c, range, "layer".spec_bytes())),
        archive::tag_value(c, range, "bridge".spec_bytes()),
        archive::tag_value(c, range, "tunnel".spec_bytes()),
        archive::tag_value(c, range, "highway".spec_bytes()),
    );
}

/// Of any layer the priority differs from the sum of its terms by whole turns of
/// the 32-bit numbers.
pub proof fn priority_wraps_around(layer: int, band: int, class: int)
    ensures
        (priority(layer, band, class) - (layer * 10000 + band + class)) % 0x1_0000_0000 == 0,
{
}

/// Every requested key gets one value, in the order of the keys: that of the tag
/// with its name. Only a key of the form `rel_` and a name is answered by the parent
/// relation, under that name, and only where there is one.
pub proof fn every_key_gets_its_own_value(
    c: ArchiveContents,
    own: IndexRange,
    rel: IndexRange,
    keys: Seq<Seq<u8>>,
    i: int,
)
    requires
        0 <= i < keys.len(),
    ensures
        attr_values(c, own, None, keys).len() == keys.len(),
        attr_values(c, own, Some(rel), keys).len() == keys.len(),
        attr_values(c, own, None, keys)[i] == archive::tag_value(c, own, keys[i]),
        attr_values(c, own, Some(rel), keys)[i] == if keys[i].len() >= 4 && keys[i][0] == 114
            && keys[i][1] == 101 && keys[i][2] == 108 && keys[i][3] == 95 {
            archive::tag_value(c, rel, keys[i].skip(4))
        } else {
            archive::tag_value(c, own, keys[i])
        },
{
    let key = keys[i];
    let prefix = "rel_".spec_bytes();
    reveal_strlit("rel_");
    is_ascii_spec_bytes("rel_");
    assert(prefix =~= seq![114u8, 101, 108, 95]);
    text::a_prefix_is_what_comes_first(key, prefix, Seq::empty());
    if key.len() >= 4 && key[0] == 114 && key[1] == 101 && key[2] == 108 && key[3] == 95 {
        assert forall|b: int| 0 <= b < prefix.len() implies #[trigger] prefix[b] == key[b] by {}
    }
    if text::has_prefix(key, prefix) {
        assert(prefix[0] == key[0] && prefix[1] == key[1] && prefix[2] == key[2] && prefix[3]
            == key[3]);
    }
}

/// A value that was found is handed on byte for byte, in its place.
pub proof fn attributes_keep_their_bytes(v: Seq<Option<Vec<u8>>>, keys: Seq<&[u8]>, i: int)
    ensures
        attrs_view(v).len() == v.len(),
        0 <= i < v.len() ==> match v[i] {
            Some(b) => attrs_view(v)[i] == Some(b@),
            None => attrs_view(v)[i] is None,
        },
        keys_view(keys).len() == keys.len(),
        0 <= i < keys.len() ==> keys_view(keys)[i] == keys[i]@,
{
}

/// A relation stands for an area exactly if its `type` is `multipolygon` or
/// `boundary`.
pub proof fn areas_by_their_type(c: ArchiveContents, range: IndexRange)
    ensures
        archive::tag_value(c, range, "type".spec_bytes()) is None ==> !area_tags(c, range),
        archive::tag_value(c, range, "type".spec_bytes()) matches Some(v) ==> (area_tags(c, range)
            <==> v == "multipolygon".spec_bytes() || v == "boundary".spec_bytes()),
{
}

/// Of any tags, whatever the layer, the priority differs by whole turns of the
/// 32-bit numbers from ten thousand times the layer, plus a hundred for a bridge or
/// minus a hundred for a tunnel that is no bridge, plus what the class of highway
/// adds.
pub proof fn priority_follows_the_tags_up_to_whole_turns(c: ArchiveContents, range: IndexRange)
    ensures
        ({
            let layer = archive::tag_value(c, range, "layer".spec_bytes());
            let bridge = archive::tag_value(c, range, "bridge".spec_bytes());
            let tunnel = archive::tag_value(c, range, "tunnel".spec_bytes());
            let highway = archive::tag_value(c, range, "highway".spec_bytes());
            let level = match layer {
                Some(v) => match text::spelled_number(v) {
                    Some(n) => n,
                    None => 0,
                },
                None => 0,
            };
            let band = if bridge is Some && bridge->0 != "no".spec_bytes() {
                100int
            } else if tunnel is Some && tunnel->0 != "no".spec_bytes() {
                -100
            } else {
                0
            };
            (z_order_of(c, range) - (level * 10000 + band + class_of(highway))) % 0x1_0000_0000 == 0
        }),
{
    let layer = archive::tag_value(c, range, "layer".spec_bytes());
    let bridge = archive::tag_value(c, range, "bridge".spec_bytes());
    let tunnel = archive::tag_value(c, range, "tunnel".spec_bytes());
    let highway = archive::tag_value(c, range, "highway".spec_bytes());
    assert(z_order_of(c, range) == priority(
        layer_of(layer),
        band_of(bridge, tunnel),
        class_of(highway),
    ));
    priority_wraps_around(layer_of(layer), band_of(bridge, tunnel), class_of(highway));
}

} // verus!

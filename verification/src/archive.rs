//! The osmflat archive as the query logic sees it.
//!
//! [`osmflat::Osm`] is opaque to the proofs. What it stores is named by
//! [`archive_contents`], and the functions below are the only places where the
//! archive is read. Nothing in them is proved: each carries a contract over
//! that name, taken from the sources of `osmflat` and `flatdata`.
use osmflat::Osm;
use vstd::prelude::*;

verus! {

/// The read-only archive of the `osmflat` crate.
#[verifier::external_type_specification]
#[verifier::external_body]
pub struct ExOsm(osmflat::Osm);

/// A half-open range of positions; empty when `start >= end`.
#[derive(Clone, Copy, Debug, PartialEq, Eq, Structural)]
pub struct IndexRange {
    pub start: u64,
    pub end: u64,
}

/// Coordinate scale and bounding box, in the archive's fixed-point units.
#[derive(Clone, Copy, Debug, PartialEq, Eq, Structural)]
pub struct HeaderRecord {
    pub coord_scale: i32,
    pub bbox_left: i32,
    pub bbox_right: i32,
    pub bbox_top: i32,
    pub bbox_bottom: i32,
}

/// A node: its fixed-point position and its range in `tags_index`.
#[derive(Clone, Copy, Debug, PartialEq, Eq, Structural)]
pub struct NodeRecord {
    pub lon: i32,
    pub lat: i32,
    pub tags: IndexRange,
}

/// A way: its range in `tags_index` and its range in `nodes_index`.
#[derive(Clone, Copy, Debug, PartialEq, Eq, Structural)]
pub struct WayRecord {
    pub tags: IndexRange,
    pub refs: IndexRange,
}

/// A relation: its range in `tags_index`.
#[derive(Clone, Copy, Debug, PartialEq, Eq, Structural)]
pub struct RelationRecord {
    pub tags: IndexRange,
}

/// A tag: where its key and its value begin in the string table.
#[derive(Clone, Copy, Debug, PartialEq, Eq, Structural)]
pub struct TagRecord {
    pub key: u64,
    pub value: u64,
}

/// A relation member: which kind of primitive it is, and its index, or `None`
/// when the archive does not hold that primitive.
#[derive(Clone, Copy, Debug, PartialEq, Eq, Structural)]
pub enum Member {
    Node(Option<u64>),
    Way(Option<u64>),
    Relation(Option<u64>),
}

/// Everything the query logic can read from an archive. A member list is `None`
/// when its bytes do not decode, and the `*_ids` are absent when the archive was
/// built without its `ids` sub-archive.
pub struct ArchiveContents {
    pub header: HeaderRecord,
    pub nodes: Seq<NodeRecord>,
    pub ways: Seq<WayRecord>,
    pub relations: Seq<RelationRecord>,
    pub members: Seq<Option<Seq<Member>>>,
    pub tags: Seq<TagRecord>,
    pub tags_index: Seq<u64>,
    pub nodes_index: Seq<Option<u64>>,
    pub strings: Seq<u8>,
    pub node_ids: Option<Seq<u64>>,
    pub way_ids: Option<Seq<u64>>,
    pub relation_ids: Option<Seq<u64>>,
}

/// What an archive holds.
pub uninterp spec fn archive_contents(osm: osmflat::Osm) -> ArchiveContents;

/// The value at position `i`, if there is one.
pub open spec fn entry<T>(s: Seq<T>, i: int) -> Option<T> {
    if 0 <= i < s.len() {
        Some(s[i])
    } else {
        None
    }
}

/// The value at position `i` of a list that may be missing altogether.
pub open spec fn optional_entry<T>(s: Option<Seq<T>>, i: int) -> Option<T> {
    match s {
        Some(s) => entry(s, i),
        None => None,
    }
}

/// The string table spells `key` at offset `at`: the bytes stand there, and a
/// zero byte or the end of the table follows them.
pub open spec fn spells(strings: Seq<u8>, at: int, key: Seq<u8>) -> bool {
    &&& at + key.len() <= strings.len()
    &&& strings.subrange(at, at + key.len()) == key
    &&& at + key.len() == strings.len() || strings[at + key.len()] == 0
}

/// Where the string that begins at `at` ends: at the next zero byte, or at the
/// end of the table.
pub open spec fn string_end(strings: Seq<u8>, at: int) -> int
    decreases strings.len() - at,
{
    if at >= strings.len() || strings[at] == 0 {
        at
    } else {
        string_end(strings, at + 1)
    }
}

/// The string that begins at offset `at`, without its terminator.
pub open spec fn string_at(strings: Seq<u8>, at: int) -> Seq<u8> {
    strings.subrange(at, string_end(strings, at))
}

/// The tag at position `i` of `tags_index`.
pub open spec fn tag_record(c: ArchiveContents, i: int) -> TagRecord {
    c.tags[c.tags_index[i] as int]
}

/// The value of the first tag whose key is `key`, looking from position `i` of
/// `tags_index` up to `end`.
pub open spec fn tag_value_from(c: ArchiveContents, i: int, end: int, key: Seq<u8>) -> Option<
    Seq<u8>,
>
    decreases end - i,
{
    if i >= end {
        None
    } else if spells(c.strings, tag_record(c, i).key as int, key) {
        Some(string_at(c.strings, tag_record(c, i).value as int))
    } else {
        tag_value_from(c, i + 1, end, key)
    }
}

/// The value of the first tag in `range` whose key is `key`.
pub open spec fn tag_value(c: ArchiveContents, range: IndexRange, key: Seq<u8>) -> Option<Seq<u8>> {
    tag_value_from(c, range.start as int, range.end as int, key)
}

/// Position `i` of `tags_index` leads to a tag, and that tag into the string
/// table.
pub open spec fn tag_readable(c: ArchiveContents, i: int) -> bool {
    &&& 0 <= i < c.tags_index.len()
    &&& c.tags_index[i] < c.tags.len()
    &&& tag_record(c, i).key <= c.strings.len()
    &&& tag_record(c, i).value <= c.strings.len()
}

/// Looking for `key` from position `i` of `tags_index` up to `end`, every tag can
/// be read up to and with the first that has the key.
pub open spec fn lookup_readable_from(c: ArchiveContents, i: int, end: int, key: Seq<u8>) -> bool
    decreases end - i,
{
    i >= end || (tag_readable(c, i) && (spells(c.strings, tag_record(c, i).key as int, key)
        || lookup_readable_from(c, i + 1, end, key)))
}

/// Every tag of `range` that a lookup of `key` comes to can be read.
pub open spec fn lookup_readable(c: ArchiveContents, range: IndexRange, key: Seq<u8>) -> bool {
    lookup_readable_from(c, range.start as int, range.end as int, key)
}

/// The header, by `Osm::header` and the field accessors of `Header`.
#[verifier::external_body]
pub(crate) fn header_of(osm: &Osm) -> (r: HeaderRecord)
    ensures
        r == archive_contents(*osm).header,
{
    let h = osm.header();
    HeaderRecord {
        coord_scale: h.coord_scale(),
        bbox_left: h.bbox_left(),
        bbox_right: h.bbox_right(),
        bbox_top: h.bbox_top(),
        bbox_bottom: h.bbox_bottom(),
    }
}

/// Node `i`, by `Osm::nodes` and the field accessors of `Node`; `None` past the
/// end of the list.
#[verifier::external_body]
pub(crate) fn node_at(osm: &Osm, i: u64) -> (r: Option<NodeRecord>)
    ensures
        r == entry(archive_contents(*osm).nodes, i as int),
{
    usize::try_from(i).ok().and_then(|i| osm.nodes().get(i)).map(|n| NodeRecord {
        lon: n.lon(),
        lat: n.lat(),
        tags: IndexRange { start: n.tags().start, end: n.tags().end },
    })
}

/// Way `i`, by `Osm::ways` and the range accessors of `Way`; `None` past the end
/// of the list.
#[verifier::external_body]
pub(crate) fn way_at(osm: &Osm, i: u64) -> (r: Option<WayRecord>)
    ensures
        r == entry(archive_contents(*osm).ways, i as int),
{
    usize::try_from(i).ok().and_then(|i| osm.ways().get(i)).map(|w| WayRecord {
        tags: IndexRange { start: w.tags().start, end: w.tags().end },
        refs: IndexRange { start: w.refs().start, end: w.refs().end },
    })
}

/// Relation `i`, by `Osm::relations` and `Relation::tags`; `None` past the end of
/// the list.
#[verifier::external_body]
pub(crate) fn relation_at(osm: &Osm, i: u64) -> (r: Option<RelationRecord>)
    ensures
        r == entry(archive_contents(*osm).relations, i as int),
{
    usize::try_from(i).ok().and_then(|i| osm.relations().get(i)).map(|x| RelationRecord {
        tags: IndexRange { start: x.tags().start, end: x.tags().end },
    })
}

/// How many relations there are, by `Osm::relations`.
#[verifier::external_body]
pub(crate) fn relation_count(osm: &Osm) -> (r: usize)
    ensures
        r == archive_contents(*osm).relations.len(),
{
    osm.relations().len()
}

/// How many relations have a member list, by `MultiArrayView::len` on
/// `Osm::relation_members`.
#[verifier::external_body]
pub(crate) fn member_lists(osm: &Osm) -> (r: usize)
    ensures
        r == archive_contents(*osm).members.len(),
{
    osm.relation_members().len()
}

/// The members of relation `i` in the order of the archive, by
/// `MultiArrayView::at` on `Osm::relation_members`. That call and its iterator
/// panic on a list whose bytes do not decode, so the list has to be one that does;
/// no accessor of the crate tells so beforehand.
#[verifier::external_body]
pub(crate) fn members_at(osm: &Osm, i: u64) -> (r: Vec<Member>)
    requires
        i < archive_contents(*osm).members.len(),
        archive_contents(*osm).members[i as int] is Some,
    ensures
        archive_contents(*osm).members[i as int] == Some(r@),
{
    osm.relation_members().at(i as usize).map(|member| match member {
        osmflat::RelationMembersRef::NodeMember(m) => Member::Node(m.node_idx()),
        osmflat::RelationMembersRef::WayMember(m) => Member::Way(m.way_idx()),
        osmflat::RelationMembersRef::RelationMember(m) => Member::Relation(m.relation_idx()),
    }).collect()
}

/// Entry `i` of `Osm::tags_index`: a position in `tags`.
#[verifier::external_body]
pub(crate) fn tag_index_at(osm: &Osm, i: u64) -> (r: Option<u64>)
    ensures
        r == entry(archive_contents(*osm).tags_index, i as int),
{
    usize::try_from(i).ok().and_then(|i| osm.tags_index().get(i)).map(|t| t.value())
}

/// Entry `i` of `Osm::tags`: the string table offsets of its key and value.
#[verifier::external_body]
pub(crate) fn tag_at(osm: &Osm, i: u64) -> (r: Option<TagRecord>)
    ensures
        r == entry(archive_contents(*osm).tags, i as int),
{
    usize::try_from(i).ok().and_then(|i| osm.tags().get(i)).map(|t| TagRecord { key: t.key_idx(), value: t.value_idx() })
}

/// Entry `i` of `Osm::nodes_index`: a node, or `Some(None)` for a reference to
/// a node that the archive does not hold.
#[verifier::external_body]
pub(crate) fn node_ref_at(osm: &Osm, i: u64) -> (r: Option<Option<u64>>)
    ensures
        r == entry(archive_contents(*osm).nodes_index, i as int),
{
    usize::try_from(i).ok().and_then(|i| osm.nodes_index().get(i)).map(|n| n.value())
}

/// The string table, by `Osm::stringtable` and `RawData::as_bytes`.
#[verifier::external_body]
pub(crate) fn strings_of(osm: &Osm) -> (r: &[u8])
    ensures
        r@ == archive_contents(*osm).strings,
{
    osm.stringtable().as_bytes()
}

/// `osmflat::find_tag`: the value of the first tag in `range` whose key is
/// `key`. It indexes without checks of its own, so every tag that it comes to has
/// to be readable.
#[verifier::external_body]
pub(crate) fn find_tag<'a>(osm: &'a Osm, range: IndexRange, key: &[u8]) -> (r: Option<&'a [u8]>)
    requires
        lookup_readable(archive_contents(*osm), range, key@),
    ensures
        match r {
            Some(v) => tag_value(archive_contents(*osm), range, key@) == Some(v@),
            None => tag_value(archive_contents(*osm), range, key@) is None,
        },
{
    osmflat::find_tag(osm, range.start..range.end, key)
}

/// The OSM id of node `i`, by `Osm::ids` and `Ids::nodes`.
#[verifier::external_body]
pub(crate) fn node_id(osm: &Osm, i: u64) -> (r: Option<u64>)
    ensures
        r == optional_entry(archive_contents(*osm).node_ids, i as int),
{
    let i: usize = usize::try_from(i).ok()?;
    osm.ids().and_then(|ids| ids.nodes().get(i)).map(|id| id.value())
}

/// The OSM id of way `i`, by `Osm::ids` and `Ids::ways`.
#[verifier::external_body]
pub(crate) fn way_id(osm: &Osm, i: u64) -> (r: Option<u64>)
    ensures
        r == optional_entry(archive_contents(*osm).way_ids, i as int),
{
    let i: usize = usize::try_from(i).ok()?;
    osm.ids().and_then(|ids| ids.ways().get(i)).map(|id| id.value())
}

/// The OSM id of relation `i`, by `Osm::ids` and `Ids::relations`.
#[verifier::external_body]
pub(crate) fn relation_id(osm: &Osm, i: u64) -> (r: Option<u64>)
    ensures
        r == optional_entry(archive_contents(*osm).relation_ids, i as int),
{
    let i: usize = usize::try_from(i).ok()?;
    osm.ids().and_then(|ids| ids.relations().get(i)).map(|id| id.value())
}

/// Whether the string table spells `key` at offset `at`.
fn spelled(strings: &[u8], at: usize, key: &[u8]) -> (r: bool)
    requires
        at <= strings@.len(),
    ensures
        r == spells(strings@, at as int, key@),
{
    if key.len() > strings.len() - at {
        return false;
    }
    let end: usize = at + key.len();
    let mut k: usize = 0;
    while k < key.len()
        invariant
            k <= key@.len(),
            at + key@.len() == end <= strings@.len(),
            forall|j: int| 0 <= j < k ==> strings@[at + j] == #[trigger] key@[j],
        decreases key@.len() - k,
    {
        if strings[at + k] != key[k] {
            assert(strings@.subrange(at as int, end as int)[k as int] != key@[k as int]);
            return false;
        }
        k = k + 1;
    }
    assert(strings@.subrange(at as int, end as int) =~= key@);
    end == strings.len() || strings[end] == 0
}

/// Whether every tag of `range` that a lookup of `key` comes to can be read.
pub fn check_lookup_readable(osm: &Osm, range: IndexRange, key: &[u8]) -> (r: bool)
    ensures
        r == lookup_readable(archive_contents(*osm), range, key@),
{
    let ghost c = archive_contents(*osm);
    let strings: &[u8] = strings_of(osm);
    let mut i: u64 = range.start;
    while i < range.end
        invariant
            c == archive_contents(*osm),
            strings@ == c.strings,
            lookup_readable(c, range, key@) == lookup_readable_from(
                c,
                i as int,
                range.end as int,
                key@,
            ),
        decreases range.end - i,
    {
        let tag: TagRecord = match tag_index_at(osm, i) {
            Some(t) => match tag_at(osm, t) {
                Some(tag) => tag,
                None => {
                    return false;
                },
            },
            None => {
                return false;
            },
        };
        if tag.key > strings.len() as u64 || tag.value > strings.len() as u64 {
            return false;
        }
        if spelled(strings, tag.key as usize, key) {
            return true;
        }
        i = i + 1;
    }
    true
}

/// An entry is what stands at its place, and nothing past the end.
pub proof fn entries_are_by_position<T>(s: Seq<T>, i: int)
    ensures
        entry(s, i) == if 0 <= i < s.len() {
            Some(s[i])
        } else {
            None
        },
        optional_entry(Some(s), i) == entry(s, i),
        optional_entry::<T>(None, i) is None,
{
}

proof fn lemma_string_end(strings: Seq<u8>, at: int)
    requires
        0 <= at <= strings.len(),
    ensures
        at <= string_end(strings, at) <= strings.len(),
        string_end(strings, at) == strings.len() || strings[string_end(strings, at)] == 0,
        forall|i: int| at <= i < string_end(strings, at) ==> #[trigger] strings[i] != 0,
    decreases strings.len() - at,
{
    if at < strings.len() && strings[at] != 0 {
        lemma_string_end(strings, at + 1);
    }
}

proof fn lemma_first_tag(c: ArchiveContents, i: int, end: int, key: Seq<u8>)
    requires
        i <= end,
    ensures
        match tag_value_from(c, i, end, key) {
            Some(v) => exists|k: int|
                i <= k < end && spells(c.strings, #[trigger] tag_record(c, k).key as int, key) && v
                    == string_at(c.strings, tag_record(c, k).value as int) && forall|j: int|
                    i <= j < k ==> !spells(c.strings, #[trigger] tag_record(c, j).key as int, key),
            None => forall|j: int|
                i <= j < end ==> !spells(c.strings, #[trigger] tag_record(c, j).key as int, key),
        },
    decreases end - i,
{
    if i < end {
        if spells(c.strings, tag_record(c, i).key as int, key) {
            assert(tag_record(c, i).key == tag_record(c, i).key);
        } else {
            lemma_first_tag(c, i + 1, end, key);
        }
    }
}

/// The tag at position `k` of a range has the key `key`: its key offset leads to
/// these bytes, which a zero byte or the end of the table ends.
pub open spec fn has_key(c: ArchiveContents, k: int, key: Seq<u8>) -> bool {
    let at = c.tags[c.tags_index[k] as int].key;
    &&& at + key.len() <= c.strings.len()
    &&& forall|b: int| 0 <= b < key.len() ==> #[trigger] c.strings[at + b] == key[b]
    &&& at + key.len() == c.strings.len() || c.strings[at + key.len()] == 0
}

proof fn lemma_has_key(c: ArchiveContents, k: int, key: Seq<u8>)
    ensures
        has_key(c, k, key) <==> spells(c.strings, tag_record(c, k).key as int, key),
{
    let at = tag_record(c, k).key as int;
    if at + key.len() <= c.strings.len() {
        let part = c.strings.subrange(at, at + key.len());
        if has_key(c, k, key) {
            assert forall|b: int| 0 <= b < key.len() implies part[b] == key[b] by {
                assert(c.strings[at + b] == key[b]);
            }
            assert(part =~= key);
        }
        if spells(c.strings, at, key) {
            assert forall|b: int| 0 <= b < key.len() implies #[trigger] c.strings[at + b]
                == key[b] by {
                assert(part[b] == c.strings[at + b]);
            }
        }
    }
}

/// The value of a key is that of the first tag with the key: the bytes from its
/// value offset up to the next zero byte or the end of the table. Where no tag has
/// the key there is none.
pub proof fn a_value_is_that_of_the_first_tag_with_the_key(
    c: ArchiveContents,
    range: IndexRange,
    key: Seq<u8>,
)
    requires
        lookup_readable(c, range, key),
    ensures
        tag_value(c, range, key) is None <==> forall|k: int|
            range.start <= k < range.end ==> !#[trigger] has_key(c, k, key),
        tag_value(c, range, key) matches Some(v) ==> exists|k: int|
            {
                let at = c.tags[c.tags_index[k] as int].value;
                &&& range.start <= k < range.end
                &&& #[trigger] has_key(c, k, key)
                &&& forall|j: int| range.start <= j < k ==> !#[trigger] has_key(c, j, key)
                &&& at + v.len() <= c.strings.len()
                &&& forall|b: int| 0 <= b < v.len() ==> #[trigger] v[b] == c.strings[at + b]
                &&& forall|b: int| 0 <= b < v.len() ==> #[trigger] v[b] != 0
                &&& at + v.len() == c.strings.len() || c.strings[at + v.len()] == 0
            },
{
    if range.start <= range.end {
        lemma_first_tag(c, range.start as int, range.end as int, key);
    }
    assert forall|k: int| #[trigger] has_key(c, k, key) <==> spells(
        c.strings,
        tag_record(c, k).key as int,
        key,
    ) by {
        lemma_has_key(c, k, key);
    }
    if let Some(v) = tag_value(c, range, key) {
        let k = choose|k: int|
            range.start <= k < range.end && spells(
                c.strings,
                #[trigger] tag_record(c, k).key as int,
                key,
            ) && v == string_at(c.strings, tag_record(c, k).value as int) && forall|j: int|
                range.start <= j < k ==> !spells(
                    c.strings,
                    #[trigger] tag_record(c, j).key as int,
                    key,
                );
        let at = tag_record(c, k).value as int;
        lemma_reached_tags_are_readable(c, range.start as int, range.end as int, key, k);
        lemma_string_end(c.strings, at);
        assert(has_key(c, k, key));
        assert forall|j: int| range.start <= j < k implies !#[trigger] has_key(c, j, key) by {
            assert(!spells(c.strings, tag_record(c, j).key as int, key));
        }
        assert forall|b: int| 0 <= b < v.len() implies #[trigger] v[b] == c.strings[at + b] && v[b]
            != 0 by {
            assert(c.strings[at + b] != 0);
        }
    } else {
        assert forall|k: int| range.start <= k < range.end implies !#[trigger] has_key(
            c,
            k,
            key,
        ) by {
            assert(!spells(c.strings, tag_record(c, k).key as int, key));
        }
    }
}

proof fn lemma_reached_tags_are_readable(
    c: ArchiveContents,
    i: int,
    end: int,
    key: Seq<u8>,
    k: int,
)
    requires
        lookup_readable_from(c, i, end, key),
        i <= k < end,
        forall|j: int|
            i <= j < k ==> !spells(c.strings, #[trigger] tag_record(c, j).key as int, key),
    ensures
        tag_readable(c, k),
    decreases end - i,
{
    if i < k {
        assert(!spells(c.strings, tag_record(c, i).key as int, key));
        lemma_reached_tags_are_readable(c, i + 1, end, key, k);
    }
}

/// The tag at position `k` can be read: each step leads into the next list.
pub open spec fn leads_somewhere(c: ArchiveContents, k: int) -> bool {
    &&& 0 <= k < c.tags_index.len()
    &&& c.tags_index[k] < c.tags.len()
    &&& c.tags[c.tags_index[k] as int].key <= c.strings.len()
    &&& c.tags[c.tags_index[k] as int].value <= c.strings.len()
}

/// A lookup can be made exactly if every tag leads somewhere that no earlier tag
/// with the key shields.
pub proof fn a_lookup_reads_up_to_the_first_match(
    c: ArchiveContents,
    range: IndexRange,
    key: Seq<u8>,
)
    ensures
        lookup_readable(c, range, key) <==> forall|k: int|
            range.start <= k < range.end && (forall|j: int|
                range.start <= j < k ==> !#[trigger] has_key(c, j, key)) ==> #[trigger]
            leads_somewhere(c, k),
{
    assert forall|k: int| #[trigger] has_key(c, k, key) <==> spells(
        c.strings,
        tag_record(c, k).key as int,
        key,
    ) by {
        lemma_has_key(c, k, key);
    }
    if lookup_readable(c, range, key) {
        assert forall|k: int|
            range.start <= k < range.end && (forall|j: int|
                range.start <= j < k ==> !#[trigger] has_key(c, j, key)) implies #[trigger]
        leads_somewhere(c, k) by {
            assert forall|j: int| range.start <= j < k implies !spells(
                c.strings,
                #[trigger] tag_record(c, j).key as int,
                key,
            ) by {
                assert(!has_key(c, j, key));
            }
            lemma_reached_tags_are_readable(c, range.start as int, range.end as int, key, k);
        }
    } else {
        let k = lemma_first_unreadable(c, range.start as int, range.end as int, key);
        assert forall|j: int| range.start <= j < k implies !#[trigger] has_key(c, j, key) by {
            assert(!spells(c.strings, tag_record(c, j).key as int, key));
        }
        assert(!leads_somewhere(c, k));
    }
}

proof fn lemma_first_unreadable(c: ArchiveContents, i: int, end: int, key: Seq<u8>) -> (k: int)
    requires
        !lookup_readable_from(c, i, end, key),
    ensures
        i <= k < end,
        !tag_readable(c, k),
        forall|j: int|
            i <= j < k ==> !spells(c.strings, #[trigger] tag_record(c, j).key as int, key),
    decreases end - i,
{
    if !tag_readable(c, i) {
        i
    } else {
        lemma_first_unreadable(c, i + 1, end, key)
    }
}

} // verus!

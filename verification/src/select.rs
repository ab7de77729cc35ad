//! Which primitives a query emits: tag terms, relation terms and membership.
use osmflat::Osm;
use vstd::prelude::*;

use crate::archive;
use crate::archive::{
    check_lookup_readable, find_tag, relation_at, relation_count, ArchiveContents, IndexRange,
};
use crate::filter;
use crate::filter::{FilterTerm, Term};
use crate::handle::{OsmflatArchive, Prim, TaginfoQuery, ValueView};
use crate::sorted;
use crate::sorted::{intersect_sorted_u64, sorted_unique};
use crate::text::bytes_equal;

verus! {

/// The row is about the key of the term, and about its value where it has one.
pub open spec fn row_matches(row: ValueView, t: Term) -> bool {
    row.key@ == t.key && (t.value is None || t.value == Some(row.value@))
}

/// The postings of a row for one kind of primitive.
pub open spec fn postings(row: ValueView, prim: Prim) -> Seq<u64> {
    match prim {
        Prim::Node => row.nodes@,
        Prim::Way => row.ways@,
        Prim::Relation => row.relations@,
    }
}

/// The index lists primitive `i` under the term.
pub open spec fn posted(rows: Seq<ValueView>, t: Term, prim: Prim, i: u64) -> bool {
    exists|k: int|
        0 <= k < rows.len() && row_matches(#[trigger] rows[k], t) && postings(
            rows[k],
            prim,
        ).contains(i)
}

/// The index lists primitive `i` under one of the terms.
pub open spec fn posted_under_any(
    rows: Seq<ValueView>,
    terms: Seq<Term>,
    prim: Prim,
    i: u64,
) -> bool {
    exists|k: int| 0 <= k < terms.len() && posted(rows, #[trigger] terms[k], prim, i)
}

/// A primitive with the tags of `range` satisfies the term.
pub open spec fn term_holds(c: ArchiveContents, range: IndexRange, t: Term) -> bool {
    let found = archive::tag_value(c, range, t.key);
    match t.value {
        Some(v) => found == Some(v),
        None => found is Some,
    }
}

/// Relation `r` satisfies the term: by the index when there is one, else by its
/// tags.
pub open spec fn relation_satisfies(
    c: ArchiveContents,
    rows: Option<Seq<ValueView>>,
    r: u64,
    t: Term,
) -> bool {
    match rows {
        Some(rows) => posted(rows, t, Prim::Relation, r),
        None => r < c.relations.len() && term_holds(c, c.relations[r as int].tags, t),
    }
}

/// Relation `r` satisfies all of the terms, of which there is at least one.
pub open spec fn relation_satisfies_all(
    c: ArchiveContents,
    rows: Option<Seq<ValueView>>,
    r: u64,
    terms: Seq<Term>,
) -> bool {
    terms.len() > 0 && forall|k: int|
        0 <= k < terms.len() ==> relation_satisfies(c, rows, r, #[trigger] terms[k])
}

/// The tags of `range` can be looked up as far as the terms from position `k` on
/// ask: each term in turn, up to and with the first that does not hold.
pub open spec fn terms_readable_from(
    c: ArchiveContents,
    range: IndexRange,
    terms: Seq<Term>,
    k: int,
) -> bool
    decreases terms.len() - k,
{
    k >= terms.len() || (archive::lookup_readable(c, range, terms[k].key) && (!term_holds(
        c,
        range,
        terms[k],
    ) || terms_readable_from(c, range, terms, k + 1)))
}

/// The tags of every relation can be looked up as far as the terms ask.
pub open spec fn relations_readable(c: ArchiveContents, terms: Seq<Term>) -> bool {
    forall|r: int|
        0 <= r < c.relations.len() ==> terms_readable_from(
            c,
            (#[trigger] c.relations[r]).tags,
            terms,
            0,
        )
}

/// A scan over all relations, where the terms call for one, finds readable tags.
pub open spec fn terms_answerable(
    c: ArchiveContents,
    rows: Option<Seq<ValueView>>,
    terms: Seq<Term>,
) -> bool {
    rows is None && terms.len() > 0 ==> relations_readable(c, terms)
}

fn append(to: &mut Vec<u64>, more: &Vec<u64>)
    ensures
        final(to)@ == old(to)@ + more@,
{
    let mut i: usize = 0;
    while i < more.len()
        invariant
            i <= more@.len(),
            to@ == old(to)@ + more@.take(i as int),
        decreases more@.len() - i,
    {
        to.push(more[i]);
        assert(to@ =~= old(to)@ + more@.take(i + 1));
        i = i + 1;
    }
    assert(to@ =~= old(to)@ + more@);
}

impl ValueView {
    fn matches(&self, term: FilterTerm) -> (r: bool)
        ensures
            r == row_matches(*self, filter::term_view(term)),
    {
        if !bytes_equal(self.key.as_slice(), term.0) {
            return false;
        }
        match term.1 {
            Some(v) => bytes_equal(self.value.as_slice(), v),
            None => true,
        }
    }

    fn postings(&self, prim: Prim) -> (r: &Vec<u64>)
        ensures
            r@ == postings(*self, prim),
    {
        match prim {
            Prim::Node => &self.nodes,
            Prim::Way => &self.ways,
            Prim::Relation => &self.relations,
        }
    }
}

impl TaginfoQuery {
    /// The primitives that the index lists under a term, ascending.
    pub fn listed(&self, term: FilterTerm, prim: Prim) -> (r: Vec<u64>)
        ensures
            sorted::ascending(r@),
            forall|i: u64| #[trigger]
                r@.contains(i) <==> posted(self.values@, filter::term_view(term), prim, i),
    {
        let ghost t = filter::term_view(term);
        let mut all: Vec<u64> = Vec::new();
        let mut k: usize = 0;
        while k < self.values.len()
            invariant
                k <= self.values@.len(),
                t == filter::term_view(term),
                forall|i: u64| #[trigger]
                    all@.contains(i) <==> posted(self.values@.take(k as int), t, prim, i),
            decreases self.values@.len() - k,
        {
            let ghost before = all@;
            let ghost rows = self.values@.take(k as int);
            let ghost more = self.values@.take(k + 1);
            let row = &self.values[k];
            let hit: bool = row.matches(term);
            if hit {
                append(&mut all, row.postings(prim));
            }
            proof {
                let p = postings(*row, prim);
                assert(more[k as int] == *row);
                assert forall|i: u64| #[trigger] all@.contains(i) <==> posted(more, t, prim, i) by {
                    assert(before.contains(i) <==> posted(rows, t, prim, i));
                    if posted(rows, t, prim, i) {
                        let j = choose|j: int|
                            0 <= j < rows.len() && row_matches(#[trigger] rows[j], t) && postings(
                                rows[j],
                                prim,
                            ).contains(i);
                        assert(more[j] == rows[j]);
                    }
                    if posted(more, t, prim, i) {
                        let j = choose|j: int|
                            0 <= j < more.len() && row_matches(#[trigger] more[j], t) && postings(
                                more[j],
                                prim,
                            ).contains(i);
                        if j < k {
                            assert(rows[j] == more[j]);
                        }
                    }
                    if hit {
                        lemma_contains_in_sum(before, p, i);
                    }
                }
            }
            k = k + 1;
        }
        assert(self.values@.take(k as int) =~= self.values@);
        sorted_unique(all.as_slice())
    }
}

proof fn lemma_contains_in_sum(a: Seq<u64>, b: Seq<u64>, x: u64)
    ensures
        (a + b).contains(x) <==> a.contains(x) || b.contains(x),
{
    if a.contains(x) {
        let k = choose|k: int| 0 <= k < a.len() && a[k] == x;
        assert((a + b)[k] == x);
    }
    if b.contains(x) {
        let k = choose|k: int| 0 <= k < b.len() && b[k] == x;
        assert((a + b)[a.len() + k] == x);
    }
    if (a + b).contains(x) {
        let k = choose|k: int| 0 <= k < (a + b).len() && (a + b)[k] == x;
        if k < a.len() {
            assert(a[k] == x);
        } else {
            assert(b[k - a.len()] == x);
        }
    }
}

/// The primitives in the bounding box that match any of the terms by the
/// inverted index, ascending. `in_bbox` are the primitives that the spatial scan
/// of the box found. Without a term or without an index the answer is `None`:
/// then the scan itself counts.
pub fn candidate_indices(
    handle: &OsmflatArchive,
    filters: &[FilterTerm],
    in_bbox: &[u64],
    prim: Prim,
) -> (r: Option<Vec<u64>>)
    ensures
        match r {
            Some(v) => filters@.len() > 0 && handle.rows() is Some && sorted::ascending(v@) && (
            forall|i: u64| #[trigger]
                v@.contains(i) <==> in_bbox@.contains(i) && posted_under_any(
                    handle.rows()->0,
                    filter::terms_view(filters@),
                    prim,
                    i,
                )),
            None => filters@.len() == 0 || handle.rows() is None,
        },
{
    if filters.len() == 0 {
        return None;
    }
    let taginfo = match handle.taginfo() {
        Some(t) => t,
        None => {
            return None;
        },
    };
    let ghost rows = taginfo.values@;
    let ghost terms = filter::terms_view(filters@);
    let mut all: Vec<u64> = Vec::new();
    let mut k: usize = 0;
    while k < filters.len()
        invariant
            k <= filters@.len(),
            rows == taginfo.values@,
            terms == filter::terms_view(filters@),
            forall|i: u64| #[trigger]
                all@.contains(i) <==> posted_under_any(rows, terms.take(k as int), prim, i),
        decreases filters@.len() - k,
    {
        let ghost before = all@;
        let ghost done = terms.take(k as int);
        let ghost more = terms.take(k + 1);
        let list = taginfo.listed(filters[k], prim);
        append(&mut all, &list);
        proof {
            assert(more[k as int] == filter::term_view(filters@[k as int]));
            assert forall|i: u64| #[trigger]
                all@.contains(i) <==> posted_under_any(rows, more, prim, i) by {
                lemma_contains_in_sum(before, list@, i);
                assert(before.contains(i) <==> posted_under_any(rows, done, prim, i));
                if posted_under_any(rows, done, prim, i) {
                    let j = choose|j: int|
                        0 <= j < done.len() && posted(rows, #[trigger] done[j], prim, i);
                    assert(more[j] == done[j]);
                }
                if posted_under_any(rows, more, prim, i) {
                    let j = choose|j: int|
                        0 <= j < more.len() && posted(rows, #[trigger] more[j], prim, i);
                    if j < k {
                        assert(done[j] == more[j]);
                    }
                }
            }
        }
        k = k + 1;
    }
    assert(terms.take(k as int) =~= terms);
    let matching = sorted_unique(all.as_slice());
    let scanned = sorted_unique(in_bbox);
    let r = intersect_sorted_u64(scanned.as_slice(), matching.as_slice());
    Some(r)
}

/// Whether the tags of a range can be looked up as far as the terms ask.
fn check_terms_readable(osm: &Osm, range: IndexRange, filters: &[FilterTerm]) -> (r: bool)
    ensures
        r == terms_readable_from(
            archive::archive_contents(*osm),
            range,
            filter::terms_view(filters@),
            0,
        ),
{
    let ghost c = archive::archive_contents(*osm);
    let ghost terms = filter::terms_view(filters@);
    let mut k: usize = 0;
    while k < filters.len()
        invariant
            k <= filters@.len(),
            c == archive::archive_contents(*osm),
            terms == filter::terms_view(filters@),
            terms_readable_from(c, range, terms, 0) == terms_readable_from(
                c,
                range,
                terms,
                k as int,
            ),
        decreases filters@.len() - k,
    {
        let term: FilterTerm = filters[k];
        assert(terms[k as int] == filter::term_view(term));
        if !check_lookup_readable(osm, range, term.0) {
            return false;
        }
        if !tags_satisfy(osm, range, term) {
            return true;
        }
        k = k + 1;
    }
    true
}

/// Whether the scan that the terms call for finds readable tags.
pub fn check_terms_answerable(handle: &OsmflatArchive, filters: &[FilterTerm]) -> (r: bool)
    ensures
        r == terms_answerable(handle.contents(), handle.rows(), filter::terms_view(filters@)),
{
    let ghost c = handle.contents();
    let ghost terms = filter::terms_view(filters@);
    if filters.len() == 0 || handle.taginfo().is_some() {
        return true;
    }
    let osm = handle.osm();
    let n: u64 = relation_count(osm) as u64;
    let mut i: u64 = 0;
    while i < n
        invariant
            c == archive::archive_contents(*osm),
            c == handle.contents(),
            handle.rows() is None,
            filters@.len() > 0,
            i <= n == c.relations.len(),
            terms == filter::terms_view(filters@),
            forall|r: int|
                0 <= r < i ==> terms_readable_from(c, (#[trigger] c.relations[r]).tags, terms, 0),
        decreases n - i,
    {
        let readable: bool = match relation_at(osm, i) {
            Some(relation) => check_terms_readable(osm, relation.tags, filters),
            None => false,
        };
        if !readable {
            assert(!terms_readable_from(c, c.relations[i as int].tags, terms, 0));
            return false;
        }
        i = i + 1;
    }
    true
}

fn tags_satisfy(osm: &Osm, range: IndexRange, term: FilterTerm) -> (r: bool)
    requires
        archive::lookup_readable(archive::archive_contents(*osm), range, term.0@),
    ensures
        r == term_holds(archive::archive_contents(*osm), range, filter::term_view(term)),
{
    match find_tag(osm, range, term.0) {
        Some(found) => match term.1 {
            Some(v) => bytes_equal(found, v),
            None => true,
        },
        None => false,
    }
}

fn tags_satisfy_all(osm: &Osm, range: IndexRange, filters: &[FilterTerm]) -> (r: bool)
    requires
        terms_readable_from(
            archive::archive_contents(*osm),
            range,
            filter::terms_view(filters@),
            0,
        ),
    ensures
        r == forall|k: int|
            0 <= k < filters@.len() ==> term_holds(
                archive::archive_contents(*osm),
                range,
                #[trigger] filter::terms_view(filters@)[k],
            ),
{
    let ghost c = archive::archive_contents(*osm);
    let ghost terms = filter::terms_view(filters@);
    let mut k: usize = 0;
    while k < filters.len()
        invariant
            k <= filters@.len(),
            c == archive::archive_contents(*osm),
            terms == filter::terms_view(filters@),
            terms_readable_from(c, range, terms, k as int),
            forall|j: int| 0 <= j < k ==> term_holds(c, range, #[trigger] terms[j]),
        decreases filters@.len() - k,
    {
        assert(terms[k as int] == filter::term_view(filters@[k as int]));
        if !tags_satisfy(osm, range, filters[k]) {
            assert(!term_holds(c, range, terms[k as int]));
            return false;
        }
        assert(term_holds(c, range, terms[k as int]));
        k = k + 1;
    }
    true
}

/// Every relation whose tags satisfy all of the terms, found by reading the tags
/// of each.
fn scan_relations(osm: &Osm, filters: &[FilterTerm]) -> (r: Vec<u64>)
    requires
        relations_readable(archive::archive_contents(*osm), filter::terms_view(filters@)),
        filters@.len() > 0,
    ensures
        sorted::ascending(r@),
        forall|x: u64| #[trigger]
            r@.contains(x) <==> relation_satisfies_all(
                archive::archive_contents(*osm),
                None,
                x,
                filter::terms_view(filters@),
            ),
{
    let ghost c = archive::archive_contents(*osm);
    let ghost terms = filter::terms_view(filters@);
    let n: u64 = relation_count(osm) as u64;
    let mut r: Vec<u64> = Vec::new();
    let mut i: u64 = 0;
    while i < n
        invariant
            i <= n == c.relations.len(),
            c == archive::archive_contents(*osm),
            terms == filter::terms_view(filters@),
            filters@.len() > 0,
            relations_readable(c, terms),
            sorted::ascending(r@),
            forall|k: int| 0 <= k < r@.len() ==> #[trigger] r@[k] < i,
            forall|x: u64| #[trigger]
                r@.contains(x) <==> x < i && relation_satisfies_all(c, None, x, terms),
        decreases n - i,
    {
        let ghost before = r@;
        if let Some(relation) = relation_at(osm, i) {
            assert(terms_readable_from(c, c.relations[i as int].tags, terms, 0));
            let hit: bool = tags_satisfy_all(osm, relation.tags, filters);
            proof {
                assert(hit == relation_satisfies_all(c, None, i, terms)) by {
                    if hit {
                        assert forall|k: int| 0 <= k < terms.len() implies relation_satisfies(
                            c,
                            None,
                            i,
                            #[trigger] terms[k],
                        ) by {
                            assert(term_holds(c, c.relations[i as int].tags, terms[k]));
                        }
                    } else {
                        let k = choose|k: int|
                            0 <= k < terms.len() && !term_holds(
                                c,
                                relation.tags,
                                #[trigger] terms[k],
                            );
                        assert(!relation_satisfies(c, None, i, terms[k]));
                    }
                }
            }
            if hit {
                r.push(i);
            }
            proof {
                assert forall|x: u64| #[trigger] r@.contains(x) <==> x < i + 1
                    && relation_satisfies_all(c, None, x, terms) by {
                    assert(before.contains(x) <==> x < i && relation_satisfies_all(
                        c,
                        None,
                        x,
                        terms,
                    ));
                    if before.contains(x) {
                        let k = choose|k: int| 0 <= k < before.len() && before[k] == x;
                        assert(r@[k] == x);
                    }
                    if hit {
                        assert(r@[before.len() as int] == i);
                        if r@.contains(x) {
                            let k = choose|k: int| 0 <= k < r@.len() && r@[k] == x;
                            if k < before.len() {
                                assert(before[k] == x);
                            }
                        }
                    }
                }
            }
        }
        i = i + 1;
    }
    assert forall|x: u64| #[trigger] r@.contains(x) <==> relation_satisfies_all(
        c,
        None,
        x,
        terms,
    ) by {
        if relation_satisfies_all(c, None, x, terms) {
            assert(relation_satisfies(c, None, x, terms[0]));
        }
    }
    r
}

/// The first `j` lists in the given order all hold `x`.
spec fn held_by_first(sets: Seq<Vec<u64>>, order: Seq<(u64, u64)>, j: int, x: u64) -> bool {
    forall|k: int| 0 <= k < j ==> sets[(#[trigger] order[k]).1 as int]@.contains(x)
}

/// The values that all of the lists hold, ascending; the shortest list goes
/// first, so that little is left to intersect.
fn intersect_all(sets: &Vec<Vec<u64>>) -> (r: Vec<u64>)
    requires
        sets@.len() > 0,
        forall|k: int| 0 <= k < sets@.len() ==> sorted::ascending((#[trigger] sets@[k])@),
    ensures
        sorted::ascending(r@),
        forall|x: u64| #[trigger]
            r@.contains(x) <==> forall|k: int|
                0 <= k < sets@.len() ==> (#[trigger] sets@[k])@.contains(x),
{
    let mut sizes: Vec<(u64, u64)> = Vec::new();
    let mut i: usize = 0;
    while i < sets.len()
        invariant
            i <= sets@.len(),
            sizes@.len() == i,
            forall|k: int| 0 <= k < i ==> (#[trigger] sizes@[k]).1 == k,
        decreases sets@.len() - i,
    {
        sizes.push((sets[i].len() as u64, i as u64));
        i = i + 1;
    }
    let order = sorted_unique(sizes.as_slice());
    proof {
        assert forall|k: int| 0 <= k < order@.len() implies (#[trigger] order@[k]).1
            < sets@.len() by {
            assert(order@.contains(order@[k]));
            assert(sizes@.contains(order@[k]));
        }
        assert(sizes@.contains(sizes@[0]));
        assert(order@.contains(sizes@[0]));
    }
    let mut acc: Vec<u64> = Vec::new();
    append(&mut acc, &sets[order[0].1 as usize]);
    let mut j: usize = 1;
    proof {
        assert(acc@ =~= sets@[order@[0].1 as int]@);
    }
    while j < order.len() && acc.len() > 0
        invariant
            1 <= j <= order@.len(),
            forall|k: int| 0 <= k < order@.len() ==> (#[trigger] order@[k]).1 < sets@.len(),
            forall|k: int| 0 <= k < sets@.len() ==> sorted::ascending((#[trigger] sets@[k])@),
            sorted::ascending(acc@),
            forall|x: u64| #[trigger]
                acc@.contains(x) <==> held_by_first(sets@, order@, j as int, x),
        decreases order@.len() - j,
    {
        let ghost before = acc@;
        assert(order@[j as int].1 < sets.len());
        let next: &Vec<u64> = &sets[order[j].1 as usize];
        assert(sorted::ascending(sets@[order@[j as int].1 as int]@));
        acc = intersect_sorted_u64(acc.as_slice(), next.as_slice());
        proof {
            assert forall|x: u64| #[trigger] acc@.contains(x) <==> held_by_first(
                sets@,
                order@,
                j + 1,
                x,
            ) by {
                assert(acc@.contains(x) <==> before.contains(x) && next@.contains(x));
                assert(before.contains(x) <==> held_by_first(sets@, order@, j as int, x));
                if acc@.contains(x) {
                    assert forall|k: int| 0 <= k < j + 1 implies sets@[(
                    #[trigger] order@[k]).1 as int]@.contains(x) by {}
                }
                if held_by_first(sets@, order@, j + 1, x) {
                    assert(sets@[order@[j as int].1 as int]@.contains(x));
                }
            }
        }
        j = j + 1;
    }
    assert forall|x: u64| #[trigger] acc@.contains(x) <==> forall|k: int|
        0 <= k < sets@.len() ==> (#[trigger] sets@[k])@.contains(x) by {
        if acc@.contains(x) {
            assert forall|k: int| 0 <= k < sets@.len() implies (#[trigger] sets@[k])@.contains(
                x,
            ) by {
                assert(sizes@.contains(sizes@[k]));
                assert(order@.contains(sizes@[k]));
                let m = choose|m: int| 0 <= m < order@.len() && order@[m] == sizes@[k];
                assert(sets@[order@[m].1 as int]@.contains(x));
            }
        }
        if forall|k: int| 0 <= k < sets@.len() ==> (#[trigger] sets@[k])@.contains(x) {
            assert(held_by_first(sets@, order@, j as int, x));
        }
    }
    acc
}

/// Relations whose tags satisfy all of the terms, ascending; none for no term.
/// The inverted index answers when it is loaded, else every relation is read,
/// so that the terms are enforced either way.
pub fn relations_matching_all(handle: &OsmflatArchive, filters: &[FilterTerm]) -> (r: Vec<u64>)
    requires
        terms_answerable(handle.contents(), handle.rows(), filter::terms_view(filters@)),
    ensures
        sorted::ascending(r@),
        forall|x: u64| #[trigger]
            r@.contains(x) <==> relation_satisfies_all(
                handle.contents(),
                handle.rows(),
                x,
                filter::terms_view(filters@),
            ),
{
    let ghost c = handle.contents();
    let ghost terms = filter::terms_view(filters@);
    if filters.len() == 0 {
        return Vec::new();
    }
    let taginfo = match handle.taginfo() {
        Some(t) => t,
        None => {
            return scan_relations(handle.osm(), filters);
        },
    };
    let ghost rows = taginfo.values@;
    let mut term_sets: Vec<Vec<u64>> = Vec::new();
    let mut k: usize = 0;
    while k < filters.len()
        invariant
            k <= filters@.len(),
            term_sets@.len() == k,
            rows == taginfo.values@,
            handle.rows() == Some(rows),
            c == handle.contents(),
            terms == filter::terms_view(filters@),
            forall|j: int| 0 <= j < k ==> sorted::ascending((#[trigger] term_sets@[j])@),
            forall|j: int, x: u64|
                0 <= j < k ==> (#[trigger] term_sets@[j]@.contains(x) <==> posted(
                    rows,
                    terms[j],
                    Prim::Relation,
                    x,
                )),
        decreases filters@.len() - k,
    {
        let set = taginfo.listed(filters[k], Prim::Relation);
        if set.len() == 0 {
            assert forall|x: u64| !relation_satisfies_all(c, Some(rows), x, terms) by {
                assert(!set@.contains(x));
                assert(!relation_satisfies(c, Some(rows), x, terms[k as int]));
            }
            return Vec::new();
        }
        term_sets.push(set);
        k = k + 1;
    }
    let r = intersect_all(&term_sets);
    assert forall|x: u64| #[trigger] r@.contains(x) <==> relation_satisfies_all(
        c,
        Some(rows),
        x,
        terms,
    ) by {
        if r@.contains(x) {
            assert forall|j: int| 0 <= j < terms.len() implies relation_satisfies(
                c,
                Some(rows),
                x,
                #[trigger] terms[j],
            ) by {
                assert(term_sets@[j]@.contains(x));
            }
        }
        if relation_satisfies_all(c, Some(rows), x, terms) {
            assert forall|j: int| 0 <= j < term_sets@.len() implies (
            #[trigger] term_sets@[j])@.contains(x) by {
                assert(relation_satisfies(c, Some(rows), x, terms[j]));
                assert(term_sets@[j]@.contains(x) <==> posted(rows, terms[j], Prim::Relation, x));
            }
        }
    }
    r
}

/// A relation satisfies two lists of terms together exactly if it satisfies
/// each.
pub proof fn member_terms_are_conjunctive(
    c: ArchiveContents,
    rows: Option<Seq<ValueView>>,
    r: u64,
    a: Seq<Term>,
    b: Seq<Term>,
)
    requires
        a.len() > 0,
        b.len() > 0,
    ensures
        relation_satisfies_all(c, rows, r, a + b) <==> relation_satisfies_all(c, rows, r, a)
            && relation_satisfies_all(c, rows, r, b),
{
    let both = a + b;
    if relation_satisfies_all(c, rows, r, both) {
        assert forall|k: int| 0 <= k < a.len() implies relation_satisfies(
            c,
            rows,
            r,
            #[trigger] a[k],
        ) by {
            assert(both[k] == a[k]);
        }
        assert forall|k: int| 0 <= k < b.len() implies relation_satisfies(
            c,
            rows,
            r,
            #[trigger] b[k],
        ) by {
            assert(both[a.len() + k] == b[k]);
        }
    }
    if relation_satisfies_all(c, rows, r, a) && relation_satisfies_all(c, rows, r, b) {
        assert forall|k: int| 0 <= k < both.len() implies relation_satisfies(
            c,
            rows,
            r,
            #[trigger] both[k],
        ) by {
            if k < a.len() {
                assert(both[k] == a[k]);
            } else {
                assert(both[k] == b[k - a.len()]);
            }
        }
    }
}

/// A primitive is listed under two lists of terms together exactly if it is
/// listed under one of them.
pub proof fn tag_terms_are_disjunctive(
    rows: Seq<ValueView>,
    a: Seq<Term>,
    b: Seq<Term>,
    prim: Prim,
    i: u64,
)
    ensures
        posted_under_any(rows, a + b, prim, i) <==> posted_under_any(rows, a, prim, i)
            || posted_under_any(rows, b, prim, i),
{
    let both = a + b;
    if posted_under_any(rows, a, prim, i) {
        let k = choose|k: int| 0 <= k < a.len() && posted(rows, #[trigger] a[k], prim, i);
        assert(both[k] == a[k]);
    }
    if posted_under_any(rows, b, prim, i) {
        let k = choose|k: int| 0 <= k < b.len() && posted(rows, #[trigger] b[k], prim, i);
        assert(both[a.len() + k] == b[k]);
    }
    if posted_under_any(rows, both, prim, i) {
        let k = choose|k: int| 0 <= k < both.len() && posted(rows, #[trigger] both[k], prim, i);
        if k < a.len() {
            assert(both[k] == a[k]);
        } else {
            assert(both[k] == b[k - a.len()]);
        }
    }
}

/// As far as the term asks, the index tells of the relations what their tags tell:
/// it lists those that satisfy the term, and no others.
pub open spec fn index_reflects_tags(c: ArchiveContents, rows: Seq<ValueView>, t: Term) -> bool {
    forall|r: u64| #[trigger]
        posted(rows, t, Prim::Relation, r) <==> r < c.relations.len() && term_holds(
            c,
            c.relations[r as int].tags,
            t,
        )
}

/// Whether the index answers or the tags are read, the same relations match, when
/// the index tells what the tags tell.
pub proof fn both_paths_match_the_same_relations(
    c: ArchiveContents,
    rows: Seq<ValueView>,
    r: u64,
    terms: Seq<Term>,
)
    requires
        forall|k: int| 0 <= k < terms.len() ==> index_reflects_tags(c, rows, #[trigger] terms[k]),
    ensures
        relation_satisfies_all(c, Some(rows), r, terms) <==> relation_satisfies_all(
            c,
            None,
            r,
            terms,
        ),
{
    assert forall|k: int| 0 <= k < terms.len() implies relation_satisfies(
        c,
        Some(rows),
        r,
        #[trigger] terms[k],
    ) == relation_satisfies(c, None, r, terms[k]) by {
        assert(index_reflects_tags(c, rows, terms[k]));
    }
    if relation_satisfies_all(c, Some(rows), r, terms) {
        assert forall|k: int| 0 <= k < terms.len() implies relation_satisfies(
            c,
            None,
            r,
            #[trigger] terms[k],
        ) by {
            assert(relation_satisfies(c, Some(rows), r, terms[k]));
        }
    }
}

/// A row of the index counts for a term exactly if it has the key of the term and,
/// where the term has a value, that value; and it lists nodes, ways and relations
/// each on their own.
pub proof fn the_index_lists_each_kind_on_its_own(rows: Seq<ValueView>, t: Term, i: u64)
    ensures
        posted(rows, t, Prim::Node, i) <==> exists|k: int|
            0 <= k < rows.len() && (#[trigger] rows[k]).key@ == t.key && (t.value is None || t.value
                == Some(rows[k].value@)) && rows[k].nodes@.contains(i),
        posted(rows, t, Prim::Way, i) <==> exists|k: int|
            0 <= k < rows.len() && (#[trigger] rows[k]).key@ == t.key && (t.value is None || t.value
                == Some(rows[k].value@)) && rows[k].ways@.contains(i),
        posted(rows, t, Prim::Relation, i) <==> exists|k: int|
            0 <= k < rows.len() && (#[trigger] rows[k]).key@ == t.key && (t.value is None || t.value
                == Some(rows[k].value@)) && rows[k].relations@.contains(i),
{
    if posted(rows, t, Prim::Node, i) {
        let k = choose|k: int|
            0 <= k < rows.len() && row_matches(#[trigger] rows[k], t) && postings(
                rows[k],
                Prim::Node,
            ).contains(i);
        assert(rows[k].nodes@.contains(i));
    }
    if posted(rows, t, Prim::Way, i) {
        let k = choose|k: int|
            0 <= k < rows.len() && row_matches(#[trigger] rows[k], t) && postings(
                rows[k],
                Prim::Way,
            ).contains(i);
        assert(rows[k].ways@.contains(i));
    }
    if posted(rows, t, Prim::Relation, i) {
        let k = choose|k: int|
            0 <= k < rows.len() && row_matches(#[trigger] rows[k], t) && postings(
                rows[k],
                Prim::Relation,
            ).contains(i);
        assert(rows[k].relations@.contains(i));
    }
    if exists|k: int|
        0 <= k < rows.len() && (#[trigger] rows[k]).key@ == t.key && (t.value is None || t.value
            == Some(rows[k].value@)) && rows[k].nodes@.contains(i) {
        let k = choose|k: int|
            0 <= k < rows.len() && (#[trigger] rows[k]).key@ == t.key && (t.value is None || t.value
                == Some(rows[k].value@)) && rows[k].nodes@.contains(i);
        assert(row_matches(rows[k], t) && postings(rows[k], Prim::Node).contains(i));
    }
    if exists|k: int|
        0 <= k < rows.len() && (#[trigger] rows[k]).key@ == t.key && (t.value is None || t.value
            == Some(rows[k].value@)) && rows[k].ways@.contains(i) {
        let k = choose|k: int|
            0 <= k < rows.len() && (#[trigger] rows[k]).key@ == t.key && (t.value is None || t.value
                == Some(rows[k].value@)) && rows[k].ways@.contains(i);
        assert(row_matches(rows[k], t) && postings(rows[k], Prim::Way).contains(i));
    }
    if exists|k: int|
        0 <= k < rows.len() && (#[trigger] rows[k]).key@ == t.key && (t.value is None || t.value
            == Some(rows[k].value@)) && rows[k].relations@.contains(i) {
        let k = choose|k: int|
            0 <= k < rows.len() && (#[trigger] rows[k]).key@ == t.key && (t.value is None || t.value
                == Some(rows[k].value@)) && rows[k].relations@.contains(i);
        assert(row_matches(rows[k], t) && postings(rows[k], Prim::Relation).contains(i));
    }
}

/// One term alone is matched by what the index lists under it, and no term by
/// nothing.
pub proof fn a_single_term_is_matched_by_what_is_listed(
    rows: Seq<ValueView>,
    t: Term,
    prim: Prim,
    i: u64,
)
    ensures
        posted_under_any(rows, seq![t], prim, i) <==> posted(rows, t, prim, i),
        !posted_under_any(rows, Seq::empty(), prim, i),
{
    let one = seq![t];
    assert(one[0] == t);
}

/// Without an index a relation matches exactly if it has, for each of the terms, a
/// tag with the key and, where the term has a value, with that value; with an index
/// exactly if it is listed under each. No term is matched by nothing.
pub proof fn a_relation_matches_by_every_term(
    c: ArchiveContents,
    rows: Seq<ValueView>,
    r: u64,
    terms: Seq<Term>,
)
    ensures
        terms.len() > 0 && r < c.relations.len() ==> (relation_satisfies_all(c, None, r, terms)
            <==> forall|k: int|
            0 <= k < terms.len() ==> {
                let found = archive::tag_value(
                    c,
                    c.relations[r as int].tags,
                    (#[trigger] terms[k]).key,
                );
                found is Some && (terms[k].value is None || terms[k].value == found)
            }),
        r >= c.relations.len() ==> !relation_satisfies_all(c, None, r, terms),
        terms.len() > 0 ==> (relation_satisfies_all(c, Some(rows), r, terms) <==> forall|k: int|
            0 <= k < terms.len() ==> posted(rows, #[trigger] terms[k], Prim::Relation, r)),
        terms.len() == 0 ==> !relation_satisfies_all(c, None, r, terms)
            && !relation_satisfies_all(c, Some(rows), r, terms),
{
    if terms.len() > 0 {
        if r < c.relations.len() {
            assert forall|k: int| 0 <= k < terms.len() implies relation_satisfies(
                c,
                None,
                r,
                #[trigger] terms[k],
            ) == ({
                let found = archive::tag_value(c, c.relations[r as int].tags, terms[k].key);
                found is Some && (terms[k].value is None || terms[k].value == found)
            }) by {}
            if relation_satisfies_all(c, None, r, terms) {
                assert forall|k: int| 0 <= k < terms.len() implies ({
                    let found = archive::tag_value(
                        c,
                        c.relations[r as int].tags,
                        (#[trigger] terms[k]).key,
                    );
                    found is Some && (terms[k].value is None || terms[k].value == found)
                }) by {
                    assert(relation_satisfies(c, None, r, terms[k]));
                }
            }
        } else {
            assert(!relation_satisfies(c, None, r, terms[0]));
        }
        if relation_satisfies_all(c, Some(rows), r, terms) {
            assert forall|k: int| 0 <= k < terms.len() implies posted(
                rows,
                #[trigger] terms[k],
                Prim::Relation,
                r,
            ) by {
                assert(relation_satisfies(c, Some(rows), r, terms[k]));
            }
        }
    }
}

/// The tags of a relation have to be readable for a term only if all terms before it
/// hold; and only where no index answers are they read at all.
pub proof fn terms_are_read_up_to_the_first_that_fails(
    c: ArchiveContents,
    rows: Seq<ValueView>,
    range: IndexRange,
    terms: Seq<Term>,
)
    ensures
        terms_readable_from(c, range, terms, 0) <==> forall|k: int|
            0 <= k < terms.len() && (forall|j: int|
                0 <= j < k ==> term_holds(c, range, #[trigger] terms[j]))
                ==> archive::lookup_readable(c, range, (#[trigger] terms[k]).key),
        terms_answerable(c, Some(rows), terms),
        terms_answerable(c, None, Seq::empty()),
        terms.len() > 0 ==> (terms_answerable(c, None, terms) <==> forall|r: int|
            0 <= r < c.relations.len() ==> terms_readable_from(
                c,
                (#[trigger] c.relations[r]).tags,
                terms,
                0,
            )),
{
    lemma_terms_readable_from(c, range, terms, 0);
}

proof fn lemma_terms_readable_from(c: ArchiveContents, range: IndexRange, terms: Seq<Term>, m: int)
    requires
        0 <= m,
    ensures
        terms_readable_from(c, range, terms, m) <==> forall|k: int|
            m <= k < terms.len() && (forall|j: int|
                m <= j < k ==> term_holds(c, range, #[trigger] terms[j]))
                ==> archive::lookup_readable(c, range, (#[trigger] terms[k]).key),
    decreases terms.len() - m,
{
    if m < terms.len() {
        lemma_terms_readable_from(c, range, terms, m + 1);
        let all = forall|k: int|
            m <= k < terms.len() && (forall|j: int|
                m <= j < k ==> term_holds(c, range, #[trigger] terms[j]))
                ==> archive::lookup_readable(c, range, (#[trigger] terms[k]).key);
        if terms_readable_from(c, range, terms, m) {
            assert forall|k: int|
                m <= k < terms.len() && (forall|j: int|
                    m <= j < k ==> term_holds(c, range, #[trigger] terms[j]))
                implies archive::lookup_readable(c, range, (#[trigger] terms[k]).key) by {
                if k > m {
                    assert(term_holds(c, range, terms[m]));
                    assert forall|j: int| m + 1 <= j < k implies term_holds(
                        c,
                        range,
                        #[trigger] terms[j],
                    ) by {}
                }
            }
        }
        if all {
            assert(archive::lookup_readable(c, range, terms[m].key));
            if term_holds(c, range, terms[m]) {
                assert forall|k: int|
                    m + 1 <= k < terms.len() && (forall|j: int|
                        m + 1 <= j < k ==> term_holds(c, range, #[trigger] terms[j]))
                    implies archive::lookup_readable(c, range, (#[trigger] terms[k]).key) by {
                    assert forall|j: int| m <= j < k implies term_holds(
                        c,
                        range,
                        #[trigger] terms[j],
                    ) by {}
                }
            }
        }
    }
}

/// A primitive satisfies a term exactly if it has a tag with the key, and with the
/// value of the term where that has one.
pub proof fn a_term_holds_by_key_and_value(c: ArchiveContents, range: IndexRange, t: Term)
    ensures
        term_holds(c, range, t) <==> match archive::tag_value(c, range, t.key) {
            Some(v) => match t.value {
                Some(w) => v == w,
                None => true,
            },
            None => false,
        },
{
}

} // verus!

//! Relation membership.
use osmflat::Osm;
use vstd::prelude::*;

use crate::archive;
use crate::archive::{member_lists, members_at, ArchiveContents, Member};
use crate::handle::Prim;
use crate::sorted;
use crate::sorted::sorted_unique;

verus! {

/// Primitive `i` as a member.
pub open spec fn as_member(prim: Prim, i: u64) -> Member {
    match prim {
        Prim::Node => Member::Node(Some(i)),
        Prim::Way => Member::Way(Some(i)),
        Prim::Relation => Member::Relation(Some(i)),
    }
}

/// Primitive `i` is a member of relation `r`.
pub open spec fn is_member(c: ArchiveContents, prim: Prim, i: u64, r: u64) -> bool {
    &&& r < c.members.len()
    &&& c.members[r as int] is Some
    &&& c.members[r as int]->0.contains(as_member(prim, i))
}

/// `pair` is a member and a relation of `rels` that it is a member of.
pub open spec fn member_pair(
    c: ArchiveContents,
    prim: Prim,
    rels: Seq<u64>,
    pair: (u64, u64),
) -> bool {
    rels.contains(pair.1) && is_member(c, prim, pair.0, pair.1)
}

/// Every relation of `rels` has a member list.
pub open spec fn rels_in_archive(c: ArchiveContents, rels: Seq<u64>) -> bool {
    forall|k: int| 0 <= k < rels.len() ==> #[trigger] rels[k] < c.members.len()
}

/// The member list of every relation of `rels` decodes.
pub open spec fn member_lists_decode(c: ArchiveContents, rels: Seq<u64>) -> bool {
    forall|k: int| 0 <= k < rels.len() ==> c.members[#[trigger] rels[k] as int] is Some
}

/// The `pairs` are those of the relations `rels`, when they are wanted.
spec fn pairs_so_far(
    c: ArchiveContents,
    prim: Prim,
    want: bool,
    rels: Seq<u64>,
    pairs: Seq<(u64, u64)>,
) -> bool {
    forall|p: (u64, u64)| #[trigger]
        pairs.contains(p) <==> want && member_pair(c, prim, rels, p)
}

/// The `pairs` are those that were there `before` and those of the first members
/// of relation `r`.
spec fn pairs_within(
    prim: Prim,
    want: bool,
    before: Seq<(u64, u64)>,
    seen: Seq<Member>,
    r: u64,
    pairs: Seq<(u64, u64)>,
) -> bool {
    forall|p: (u64, u64)| #[trigger]
        pairs.contains(p) <==> before.contains(p) || (want && p.1 == r && seen.contains(
            as_member(prim, p.0),
        ))
}

/// One member more, whose pair, if it gives one, has been added to the pairs.
proof fn lemma_one_member_more(
    prim: Prim,
    want: bool,
    before: Seq<(u64, u64)>,
    seen: Seq<Member>,
    m: Member,
    r: u64,
    added: Option<u64>,
    pairs: Seq<(u64, u64)>,
    more: Seq<(u64, u64)>,
)
    requires
        pairs_within(prim, want, before, seen, r, pairs),
        match added {
            Some(i) => want && m == as_member(prim, i) && more == pairs.push((i, r)),
            None => (forall|i: u64| !(want && m == as_member(prim, i))) && more == pairs,
        },
    ensures
        pairs_within(prim, want, before, seen.push(m), r, more),
{
    let all = seen.push(m);
    assert(all[seen.len() as int] == m);
    assert forall|p: (u64, u64)| #[trigger] more.contains(p) <==> before.contains(p) || (want && p.1
        == r && all.contains(as_member(prim, p.0))) by {
        assert(pairs.contains(p) <==> before.contains(p) || (want && p.1 == r && seen.contains(
            as_member(prim, p.0),
        )));
        let x = as_member(prim, p.0);
        if seen.contains(x) {
            let k = choose|k: int| 0 <= k < seen.len() && seen[k] == x;
            assert(all[k] == x);
        }
        if all.contains(x) {
            let k = choose|k: int| 0 <= k < all.len() && all[k] == x;
            if k < seen.len() {
                assert(seen[k] == x);
            }
        }
        if pairs.contains(p) {
            let k = choose|k: int| 0 <= k < pairs.len() && pairs[k] == p;
            assert(more[k] == p);
        }
        if more.contains(p) {
            let k = choose|k: int| 0 <= k < more.len() && more[k] == p;
            if k < pairs.len() {
                assert(pairs[k] == p);
            }
        }
        if want && x == m {
            assert(more[pairs.len() as int].0 == p.0);
            if p.1 == r {
                assert(more[pairs.len() as int] == p);
            }
        }
    }
}

/// Distinct `(member, relation)` pairs for the node and the way members of
/// `rels`, each list ascending, so that members stay in the order of the
/// archive. A relation that is a member gives nothing: membership does not
/// recurse.
pub fn expand_member_pairs(archive: &Osm, rels: &[u64], want_nodes: bool, want_ways: bool) -> (r: (
    Vec<(u64, u64)>,
    Vec<(u64, u64)>,
))
    requires
        rels_in_archive(archive::archive_contents(*archive), rels@),
        member_lists_decode(archive::archive_contents(*archive), rels@),
    ensures
        sorted::ascending(r.0@),
        sorted::ascending(r.1@),
        forall|p: (u64, u64)| #[trigger]
            r.0@.contains(p) <==> want_nodes && member_pair(
                archive::archive_contents(*archive),
                Prim::Node,
                rels@,
                p,
            ),
        forall|p: (u64, u64)| #[trigger]
            r.1@.contains(p) <==> want_ways && member_pair(
                archive::archive_contents(*archive),
                Prim::Way,
                rels@,
                p,
            ),
{
    let ghost c = archive::archive_contents(*archive);
    let mut node_pairs: Vec<(u64, u64)> = Vec::new();
    let mut way_pairs: Vec<(u64, u64)> = Vec::new();
    let mut k: usize = 0;
    while k < rels.len()
        invariant
            k <= rels@.len(),
            c == archive::archive_contents(*archive),
            rels_in_archive(c, rels@),
            member_lists_decode(c, rels@),
            pairs_so_far(c, Prim::Node, want_nodes, rels@.take(k as int), node_pairs@),
            pairs_so_far(c, Prim::Way, want_ways, rels@.take(k as int), way_pairs@),
        decreases rels@.len() - k,
    {
        let r: u64 = rels[k];
        let members = members_at(archive, r);
        let ghost nodes_before = node_pairs@;
        let ghost ways_before = way_pairs@;
        let mut j: usize = 0;
        while j < members.len()
            invariant
                j <= members@.len(),
                pairs_within(
                    Prim::Node,
                    want_nodes,
                    nodes_before,
                    members@.take(j as int),
                    r,
                    node_pairs@,
                ),
                pairs_within(
                    Prim::Way,
                    want_ways,
                    ways_before,
                    members@.take(j as int),
                    r,
                    way_pairs@,
                ),
            decreases members@.len() - j,
        {
            let ghost seen = members@.take(j as int);
            let ghost old_nodes = node_pairs@;
            let ghost old_ways = way_pairs@;
            let m: Member = members[j];
            match m {
                Member::Node(Some(n)) => {
                    if want_nodes {
                        node_pairs.push((n, r));
                    }
                },
                Member::Way(Some(w)) => {
                    if want_ways {
                        way_pairs.push((w, r));
                    }
                },
                _ => {},
            }
            proof {
                let node = match m {
                    Member::Node(n) if want_nodes => n,
                    _ => None,
                };
                let way = match m {
                    Member::Way(w) if want_ways => w,
                    _ => None,
                };
                lemma_one_member_more(
                    Prim::Node,
                    want_nodes,
                    nodes_before,
                    seen,
                    m,
                    r,
                    node,
                    old_nodes,
                    node_pairs@,
                );
                lemma_one_member_more(
                    Prim::Way,
                    want_ways,
                    ways_before,
                    seen,
                    m,
                    r,
                    way,
                    old_ways,
                    way_pairs@,
                );
                assert(seen.push(m) =~= members@.take(j + 1));
            }
            j = j + 1;
        }
        proof {
            assert(members@.take(j as int) =~= members@);
            lemma_one_relation_more(c, Prim::Node, want_nodes, rels@, k as int, nodes_before, node_pairs@);
            lemma_one_relation_more(c, Prim::Way, want_ways, rels@, k as int, ways_before, way_pairs@);
        }
        k = k + 1;
    }
    assert(rels@.take(k as int) =~= rels@);
    (sorted_unique(node_pairs.as_slice()), sorted_unique(way_pairs.as_slice()))
}

proof fn lemma_one_relation_more(
    c: ArchiveContents,
    prim: Prim,
    want: bool,
    rels: Seq<u64>,
    k: int,
    before: Seq<(u64, u64)>,
    pairs: Seq<(u64, u64)>,
)
    requires
        0 <= k < rels.len(),
        rels_in_archive(c, rels),
        member_lists_decode(c, rels),
        pairs_so_far(c, prim, want, rels.take(k), before),
        pairs_within(prim, want, before, c.members[rels[k] as int]->0, rels[k], pairs),
    ensures
        pairs_so_far(c, prim, want, rels.take(k + 1), pairs),
{
    let done = rels.take(k);
    let more = rels.take(k + 1);
    assert(more[k] == rels[k]);
    assert forall|p: (u64, u64)| #[trigger] pairs.contains(p) <==> want && member_pair(
        c,
        prim,
        more,
        p,
    ) by {
        assert(before.contains(p) <==> want && member_pair(c, prim, done, p));
        if done.contains(p.1) {
            let i = choose|i: int| 0 <= i < done.len() && done[i] == p.1;
            assert(more[i] == p.1);
        }
        if more.contains(p.1) {
            let i = choose|i: int| 0 <= i < more.len() && more[i] == p.1;
            if i < k {
                assert(done[i] == p.1);
            }
        }
    }
}

/// Whether every relation of `rels` has a member list.
pub fn check_rels_in_archive(archive: &Osm, rels: &[u64]) -> (r: bool)
    ensures
        r == rels_in_archive(archive::archive_contents(*archive), rels@),
{
    let n: u64 = member_lists(archive) as u64;
    let mut k: usize = 0;
    while k < rels.len()
        invariant
            k <= rels@.len(),
            n == archive::archive_contents(*archive).members.len(),
            forall|j: int| 0 <= j < k ==> #[trigger] rels@[j] < n,
        decreases rels@.len() - k,
    {
        if rels[k] >= n {
            return false;
        }
        k = k + 1;
    }
    true
}

/// A node, way or relation is a member of a relation exactly if the relation's list
/// holds a member of that kind with that index; a member whose primitive is not in
/// the archive is none.
pub proof fn membership_is_by_kind_and_index(c: ArchiveContents, i: u64, r: u64)
    requires
        r < c.members.len(),
        c.members[r as int] is Some,
    ensures
        is_member(c, Prim::Node, i, r) <==> exists|k: int|
            0 <= k < c.members[r as int]->0.len() && #[trigger] c.members[r as int]->0[k]
                == Member::Node(Some(i)),
        is_member(c, Prim::Way, i, r) <==> exists|k: int|
            0 <= k < c.members[r as int]->0.len() && #[trigger] c.members[r as int]->0[k]
                == Member::Way(Some(i)),
        is_member(c, Prim::Relation, i, r) <==> exists|k: int|
            0 <= k < c.members[r as int]->0.len() && #[trigger] c.members[r as int]->0[k]
                == Member::Relation(Some(i)),
{
    let list = c.members[r as int]->0;
    assert(list.contains(Member::Node(Some(i))) <==> exists|k: int|
        0 <= k < list.len() && #[trigger] list[k] == Member::Node(Some(i)));
    assert(list.contains(Member::Way(Some(i))) <==> exists|k: int|
        0 <= k < list.len() && #[trigger] list[k] == Member::Way(Some(i)));
    assert(list.contains(Member::Relation(Some(i))) <==> exists|k: int|
        0 <= k < list.len() && #[trigger] list[k] == Member::Relation(Some(i)));
}

/// A pair is a member and one of the given relations that has it; where a relation
/// has no member list, it has no members.
pub proof fn pairs_join_members_and_relations(
    c: ArchiveContents,
    prim: Prim,
    rels: Seq<u64>,
    member: u64,
    r: u64,
)
    ensures
        member_pair(c, prim, rels, (member, r)) <==> is_member(c, prim, member, r) && exists|k: int|
            0 <= k < rels.len() && #[trigger] rels[k] == r,
        r >= c.members.len() ==> !is_member(c, prim, member, r),
{
    assert(rels.contains(r) <==> exists|k: int| 0 <= k < rels.len() && #[trigger] rels[k] == r);
}

} // verus!

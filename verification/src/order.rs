//! The order in which features are returned, and so drawn.
use vstd::prelude::*;

use crate::feature;
use crate::feature::{FeatureView, OwnedFeature};
use crate::ieee;
use crate::ieee::{nan, rank_of};
use crate::sorted;
use crate::sorted::{sorted_unique, Ranked};

verus! {

/// Draw order of the returned features.
#[derive(Clone, Copy, Debug, PartialEq, Eq, Structural)]
pub enum OsmflatOrder {
    /// The order in which the features were found: no sorting.
    Spatial,
    /// Ascending `z_order`: minor features under major, bridges last.
    ZOrder,
    /// Descending `way_area`: large areas under small, so that small ones stay
    /// visible.
    WayArea,
}

/// The feature has a rank among the others. An area that is no number compares as
/// equal to every other, so its feature keeps its place.
pub open spec fn has_rank(order: OsmflatOrder, f: FeatureView) -> bool {
    order == OsmflatOrder::WayArea ==> !ieee::is_nan(f.way_area)
}

/// A number by which features with a rank are drawn, the least first.
pub open spec fn draw_key(order: OsmflatOrder, f: FeatureView) -> int {
    match order {
        OsmflatOrder::Spatial => 0,
        OsmflatOrder::ZOrder => f.z_order + 0x8000_0000,
        OsmflatOrder::WayArea => 0x8000_0000_0000_0000 - ieee::rank(f.way_area),
    }
}

/// `turn` is the key and the position of one of the features that have a rank.
pub open spec fn is_turn(order: OsmflatOrder, fs: Seq<FeatureView>, turn: (u64, u64)) -> bool {
    &&& turn.1 < fs.len()
    &&& has_rank(order, fs[turn.1 as int])
    &&& turn.0 == draw_key(order, fs[turn.1 as int])
}

/// The keys and positions of the features that have a rank, by key, and by
/// position where keys are equal.
pub open spec fn turns(order: OsmflatOrder, fs: Seq<FeatureView>) -> Seq<(u64, u64)> {
    sorted::listing(|turn: (u64, u64)| is_turn(order, fs, turn))
}

/// How many of the first `k` features have a rank.
pub open spec fn ranked_before(order: OsmflatOrder, fs: Seq<FeatureView>, k: int) -> int
    decreases k,
{
    if k <= 0 {
        0
    } else {
        ranked_before(order, fs, k - 1) + if has_rank(order, fs[k - 1]) {
            1int
        } else {
            0
        }
    }
}

/// Which feature is drawn in which place: those that have a rank take turns in the
/// places that they hold together.
pub open spec fn positions(order: OsmflatOrder, fs: Seq<FeatureView>) -> Seq<int> {
    Seq::new(
        fs.len(),
        |k: int|
            if order != OsmflatOrder::Spatial && has_rank(order, fs[k]) {
                turns(order, fs)[ranked_before(order, fs, k)].1 as int
            } else {
                k
            },
    )
}

/// The features in draw order.
pub open spec fn ordered(order: OsmflatOrder, fs: Seq<FeatureView>) -> Seq<FeatureView> {
    Seq::new(fs.len(), |k: int| fs[positions(order, fs)[k]])
}

/// The turns of the first `k` features, as they stand.
spec fn turns_as_found(order: OsmflatOrder, fs: Seq<FeatureView>, k: int) -> Seq<(u64, u64)>
    decreases k,
{
    if k <= 0 {
        Seq::empty()
    } else if has_rank(order, fs[k - 1]) {
        turns_as_found(order, fs, k - 1).push(
            (draw_key(order, fs[k - 1]) as u64, (k - 1) as u64),
        )
    } else {
        turns_as_found(order, fs, k - 1)
    }
}

proof fn lemma_turns_as_found(order: OsmflatOrder, fs: Seq<FeatureView>, k: int)
    requires
        0 <= k <= fs.len() <= usize::MAX,
    ensures
        turns_as_found(order, fs, k).len() == ranked_before(order, fs, k),
        forall|i: int|
            0 <= i < turns_as_found(order, fs, k).len() ==> is_turn(
                order,
                fs,
                #[trigger] turns_as_found(order, fs, k)[i],
            ) && turns_as_found(order, fs, k)[i].1 < k,
        forall|i: int, j: int|
            0 <= i < j < turns_as_found(order, fs, k).len() ==> (#[trigger] turns_as_found(
                order,
                fs,
                k,
            )[i]).1 < (#[trigger] turns_as_found(order, fs, k)[j]).1,
    decreases k,
{
    if k > 0 {
        lemma_turns_as_found(order, fs, k - 1);
        let before = turns_as_found(order, fs, k - 1);
        let all = turns_as_found(order, fs, k);
        if has_rank(order, fs[k - 1]) {
            assert forall|i: int| 0 <= i < all.len() implies is_turn(order, fs, #[trigger] all[i])
                && all[i].1 < k by {
                if i < before.len() {
                    assert(all[i] == before[i]);
                }
            }
            assert forall|i: int, j: int| 0 <= i < j < all.len() implies (#[trigger] all[i]).1 < (
            #[trigger] all[j]).1 by {
                assert(all[i] == before[i]);
                if j < before.len() {
                    assert(all[j] == before[j]);
                }
            }
        }
    }
}

/// The turn of feature `m` stands behind those of the ranked features before it.
proof fn lemma_turn_as_found(order: OsmflatOrder, fs: Seq<FeatureView>, k: int, m: int)
    requires
        0 <= m < k <= fs.len() <= usize::MAX,
        has_rank(order, fs[m]),
    ensures
        0 <= ranked_before(order, fs, m) < turns_as_found(order, fs, k).len(),
        turns_as_found(order, fs, k)[ranked_before(order, fs, m)] == (
            draw_key(order, fs[m]) as u64,
            m as u64,
        ),
    decreases k,
{
    lemma_turns_as_found(order, fs, k - 1);
    lemma_ranked_before(order, fs, m, k);
    if m < k - 1 {
        lemma_turn_as_found(order, fs, k - 1, m);
    }
}

proof fn lemma_found_turns(order: OsmflatOrder, fs: Seq<FeatureView>)
    requires
        fs.len() <= usize::MAX,
    ensures
        forall|t: (u64, u64)| #[trigger]
            turns_as_found(order, fs, fs.len() as int).contains(t) <==> is_turn(order, fs, t),
{
    let n = fs.len() as int;
    let all = turns_as_found(order, fs, n);
    lemma_turns_as_found(order, fs, n);
    assert forall|t: (u64, u64)| #[trigger] all.contains(t) <==> is_turn(order, fs, t) by {
        if is_turn(order, fs, t) {
            lemma_turn_as_found(order, fs, n, t.1 as int);
            assert(all[ranked_before(order, fs, t.1 as int)] == t);
        }
        if all.contains(t) {
            let i = choose|i: int| 0 <= i < all.len() && all[i] == t;
            assert(is_turn(order, fs, all[i]));
        }
    }
}

proof fn lemma_turns(order: OsmflatOrder, fs: Seq<FeatureView>)
    requires
        fs.len() <= usize::MAX,
    ensures
        sorted::ascending(turns(order, fs)),
        forall|t: (u64, u64)| #[trigger]
            turns(order, fs).contains(t) <==> is_turn(order, fs, t),
        forall|i: int|
            0 <= i < turns(order, fs).len() ==> is_turn(order, fs, #[trigger] turns(order, fs)[i]),
        turns(order, fs).len() == ranked_before(order, fs, fs.len() as int),
{
    let holds = |turn: (u64, u64)| is_turn(order, fs, turn);
    let all = turns_as_found(order, fs, fs.len() as int);
    let t = turns(order, fs);
    lemma_turns_as_found(order, fs, fs.len() as int);
    lemma_found_turns(order, fs);
    assert forall|x: (u64, u64)| #[trigger] all.contains(x) <==> holds(x) by {}
    sorted::a_listing_exists(all, holds);
    assert forall|i: int| 0 <= i < t.len() implies is_turn(order, fs, #[trigger] t[i]) by {
        assert(t.contains(t[i]));
    }
    assert(all.no_duplicates());
    assert forall|i: int, j: int| 0 <= i < t.len() && 0 <= j < t.len() && i != j implies t[i]
        != t[j] by {
        if i < j {
            assert(t[i].before(t[j]));
        } else {
            assert(t[j].before(t[i]));
        }
    }
    assert(t.no_duplicates());
    assert(all.to_set() =~= t.to_set()) by {
        assert forall|x: (u64, u64)| all.to_set().contains(x) == t.to_set().contains(x) by {
            assert(all.contains(x) <==> holds(x));
            assert(t.contains(x) <==> holds(x));
        }
    }
    all.unique_seq_to_set();
    t.unique_seq_to_set();
}

proof fn lemma_ranked_before(order: OsmflatOrder, fs: Seq<FeatureView>, a: int, b: int)
    requires
        0 <= a <= b <= fs.len(),
    ensures
        0 <= ranked_before(order, fs, a) <= ranked_before(order, fs, b),
        a < b && has_rank(order, fs[a]) ==> ranked_before(order, fs, a) < ranked_before(
            order,
            fs,
            b,
        ),
    decreases b,
{
    if a < b {
        lemma_ranked_before(order, fs, a, b - 1);
    } else if a > 0 {
        lemma_ranked_before(order, fs, a - 1, b - 1);
    }
}

/// Every feature is drawn exactly once, whatever the order: the positions are
/// those of the features, each once.
pub proof fn draw_order_is_a_permutation(order: OsmflatOrder, fs: Seq<FeatureView>)
    requires
        fs.len() <= usize::MAX,
    ensures
        ordered(order, fs).len() == fs.len(),
        positions(order, fs).len() == fs.len(),
        positions(order, fs).no_duplicates(),
        forall|i: int| 0 <= i < fs.len() ==> #[trigger] positions(order, fs).contains(i),
        forall|k: int|
            0 <= k < fs.len() ==> 0 <= #[trigger] positions(order, fs)[k] < fs.len() && ordered(
                order,
                fs,
            )[k] == fs[positions(order, fs)[k]],
{
    let n = fs.len() as int;
    let p = positions(order, fs);
    let t = turns(order, fs);
    lemma_turns(order, fs);
    let moves = |k: int| order != OsmflatOrder::Spatial && has_rank(order, fs[k]);
    assert forall|k: int| 0 <= k < n implies 0 <= #[trigger] p[k] < n && (moves(k) ==> 0
        <= ranked_before(order, fs, k) < t.len() && has_rank(order, fs[p[k]])) by {
        lemma_ranked_before(order, fs, k, n);
        if moves(k) {
            assert(is_turn(order, fs, t[ranked_before(order, fs, k)]));
        }
    }
    assert forall|a: int, b: int| 0 <= a < b < n implies #[trigger] p[a] != #[trigger] p[b] by {
        lemma_ranked_before(order, fs, a, b);
        lemma_ranked_before(order, fs, b, n);
        if moves(a) && moves(b) {
            let x = t[ranked_before(order, fs, a)];
            let y = t[ranked_before(order, fs, b)];
            assert(x.before(y));
            assert(is_turn(order, fs, x) && is_turn(order, fs, y));
        }
    }
    assert(p.no_duplicates());
    let all = vstd::set_lib::set_int_range(0, n);
    vstd::set_lib::lemma_int_range(0, n);
    p.unique_seq_to_set();
    assert(p.to_set().subset_of(all));
    vstd::set_lib::lemma_subset_equality(p.to_set(), all);
    assert forall|i: int| 0 <= i < n implies #[trigger] p.contains(i) by {
        assert(all.contains(i));
        assert(p.to_set().contains(i));
    }
}

fn key_of(order: OsmflatOrder, f: &OwnedFeature) -> (r: u64)
    ensures
        r == draw_key(order, f@),
{
    match order {
        OsmflatOrder::Spatial => 0,
        OsmflatOrder::ZOrder => (f.z_order as i64 + 0x8000_0000) as u64,
        OsmflatOrder::WayArea => {
            let rank: i64 = rank_of(f.way_area);
            (0x8000_0000_0000_0000i128 - rank as i128) as u64
        },
    }
}

fn ranked(order: OsmflatOrder, f: &OwnedFeature) -> (r: bool)
    ensures
        r == has_rank(order, f@),
{
    order != OsmflatOrder::WayArea || !nan(f.way_area)
}

/// The keys and positions of the features that have a rank, in draw order.
fn sorted_turns(order: OsmflatOrder, features: &Vec<OwnedFeature>) -> (r: Vec<(u64, u64)>)
    ensures
        r@ == turns(order, feature::features_view(features@)),
{
    let ghost fs = feature::features_view(features@);
    let mut keys: Vec<(u64, u64)> = Vec::new();
    let mut i: usize = 0;
    while i < features.len()
        invariant
            i <= features@.len(),
            fs == feature::features_view(features@),
            keys@ == turns_as_found(order, fs, i as int),
        decreases features@.len() - i,
    {
        if ranked(order, &features[i]) {
            keys.push((key_of(order, &features[i]), i as u64));
        }
        i = i + 1;
    }
    let r = sorted_unique(keys.as_slice());
    proof {
        let holds = |turn: (u64, u64)| is_turn(order, fs, turn);
        assert(features.len() == fs.len());
        lemma_found_turns(order, fs);
        assert forall|t: (u64, u64)| #[trigger] r@.contains(t) <==> holds(t) by {
            assert(r@.contains(t) <==> keys@.contains(t));
        }
        sorted::there_is_one_listing(r@, holds);
    }
    r
}

/// Which feature is drawn in which place.
fn drawn_positions(order: OsmflatOrder, features: &Vec<OwnedFeature>) -> (r: Vec<usize>)
    ensures
        r@.len() == features@.len(),
        forall|k: int|
            0 <= k < r@.len() ==> #[trigger] r@[k] == positions(
                order,
                feature::features_view(features@),
            )[k],
{
    let ghost fs = feature::features_view(features@);
    let turns = sorted_turns(order, features);
    let mut r: Vec<usize> = Vec::new();
    let mut j: usize = 0;
    let mut k: usize = 0;
    proof {
        assert(features.len() == fs.len());
        lemma_turns(order, fs);
    }
    while k < features.len()
        invariant
            k <= features@.len(),
            fs == feature::features_view(features@),
            fs.len() <= usize::MAX,
            turns@ == self::turns(order, fs),
            turns@.len() == ranked_before(order, fs, fs.len() as int),
            forall|i: int|
                0 <= i < turns@.len() ==> is_turn(order, fs, #[trigger] turns@[i]),
            j == ranked_before(order, fs, k as int),
            j <= k,
            r@.len() == k,
            forall|m: int| 0 <= m < k ==> #[trigger] r@[m] == positions(order, fs)[m],
        decreases features@.len() - k,
    {
        if ranked(order, &features[k]) {
            proof {
                lemma_ranked_before(order, fs, k as int, fs.len() as int);
                assert(is_turn(order, fs, turns@[j as int]));
            }
            if order == OsmflatOrder::Spatial {
                r.push(k);
            } else {
                r.push(turns[j].1 as usize);
            }
            j = j + 1;
        } else {
            r.push(k);
        }
        k = k + 1;
    }
    r
}

/// Puts the features into draw order; features of equal rank keep their order.
pub fn in_draw_order(order: OsmflatOrder, features: Vec<OwnedFeature>) -> (r: Vec<OwnedFeature>)
    ensures
        feature::features_view(r@) == ordered(order, feature::features_view(features@)),
        r@.len() == features@.len(),
{
    let ghost fs = feature::features_view(features@);
    let ghost p = positions(order, fs);
    if order == OsmflatOrder::Spatial {
        assert(fs =~= ordered(order, fs));
        return features;
    }
    let places = drawn_positions(order, &features);
    let n: usize = features.len();
    proof {
        draw_order_is_a_permutation(order, fs);
    }
    let mut features = features;
    let mut slots: Vec<Option<OwnedFeature>> = Vec::new();
    while features.len() > 0
        invariant
            features@.len() + slots@.len() == n,
            n == fs.len(),
            forall|k: int| 0 <= k < features@.len() ==> (#[trigger] features@[k])@ == fs[k],
            forall|k: int|
                0 <= k < slots@.len() ==> (#[trigger] slots@[k]) is Some && slots@[k]->0@ == fs[n
                    - 1 - k],
        decreases features@.len(),
    {
        let last = features.pop();
        slots.push(last);
    }
    let mut r: Vec<OwnedFeature> = Vec::new();
    let mut j: usize = 0;
    while j < n
        invariant
            j <= n,
            slots@.len() == n,
            n == fs.len() == places@.len() == p.len(),
            r@.len() == j,
            p.no_duplicates(),
            forall|k: int| 0 <= k < n ==> #[trigger] places@[k] == p[k],
            forall|k: int| 0 <= k < n ==> 0 <= #[trigger] p[k] < n,
            forall|k: int|
                j <= k < n ==> slots@[n - 1 - #[trigger] p[k]] is Some && slots@[n - 1
                    - p[k]]->0@ == fs[p[k]],
            forall|k: int| 0 <= k < j ==> (#[trigger] r@[k])@ == fs[p[k]],
        decreases n - j,
    {
        assert(places@[j as int] == p[j as int]);
        let at: usize = n - 1 - places[j];
        let mut slot: Option<OwnedFeature> = None;
        assert(slots@[n - 1 - p[j as int]] is Some);
        std::mem::swap(&mut slot, &mut slots[at]);
        r.push(slot.unwrap());
        j = j + 1;
    }
    assert(feature::features_view(r@) =~= ordered(order, fs));
    r
}

/// Features that have a rank are drawn by it, and those of equal rank in the order
/// in which they were found. By `z_order` the greatest comes last; by `way_area`
/// no feature is drawn before one with a greater area.
pub proof fn features_are_drawn_by_rank(
    order: OsmflatOrder,
    fs: Seq<FeatureView>,
    i: int,
    j: int,
)
    requires
        fs.len() <= usize::MAX,
        0 <= i < j < fs.len(),
    ensures
        ({
            let first = ordered(order, fs)[i];
            let second = ordered(order, fs)[j];
            &&& has_rank(order, first) && has_rank(order, second) ==> {
                &&& draw_key(order, first) <= draw_key(order, second)
                &&& draw_key(order, first) == draw_key(order, second) ==> positions(order, fs)[i]
                    < positions(order, fs)[j]
            }
            &&& order == OsmflatOrder::ZOrder ==> first.z_order <= second.z_order
            &&& order == OsmflatOrder::WayArea ==> !ieee::number_lt(
                first.way_area,
                second.way_area,
            )
        }),
{
    let n = fs.len() as int;
    let t = turns(order, fs);
    draw_order_is_a_permutation(order, fs);
    lemma_turns(order, fs);
    if order != OsmflatOrder::Spatial && has_rank(order, fs[i]) && has_rank(order, fs[j]) {
        lemma_ranked_before(order, fs, i, j);
        lemma_ranked_before(order, fs, j, n);
        let x = t[ranked_before(order, fs, i)];
        let y = t[ranked_before(order, fs, j)];
        assert(x.before(y));
        assert(is_turn(order, fs, x) && is_turn(order, fs, y));
    }
}

/// Where all features that have a rank have the same, the order in which the
/// features were found is kept, whatever stands among them.
pub proof fn equal_ranks_keep_the_order(order: OsmflatOrder, fs: Seq<FeatureView>, key: int)
    requires
        fs.len() <= usize::MAX,
        forall|k: int|
            0 <= k < fs.len() && has_rank(order, fs[k]) ==> draw_key(order, #[trigger] fs[k])
                == key,
    ensures
        ordered(order, fs) == fs,
{
    let n = fs.len() as int;
    let holds = |turn: (u64, u64)| is_turn(order, fs, turn);
    let all = turns_as_found(order, fs, n);
    lemma_turns_as_found(order, fs, n);
    lemma_found_turns(order, fs);
    assert forall|i: int, j: int| 0 <= i < j < all.len() implies (#[trigger] all[i]).before(
        #[trigger] all[j],
    ) by {
        assert(is_turn(order, fs, all[i]) && is_turn(order, fs, all[j]));
        assert(draw_key(order, fs[all[i].1 as int]) == key);
        assert(draw_key(order, fs[all[j].1 as int]) == key);
    }
    assert forall|x: (u64, u64)| #[trigger] all.contains(x) <==> holds(x) by {}
    sorted::there_is_one_listing(all, holds);
    assert forall|k: int| 0 <= k < n implies #[trigger] positions(order, fs)[k] == k by {
        if has_rank(order, fs[k]) {
            lemma_turn_as_found(order, fs, n, k);
        }
    }
    assert(ordered(order, fs) =~= fs);
}

/// Without an order the features stay as they were found. By `z_order` a feature is
/// drawn before another of the same priority if it was found before it; by
/// `way_area` likewise for areas of which neither is the greater. A feature whose
/// area is no number stays in its place.
pub proof fn equal_features_keep_their_order(
    order: OsmflatOrder,
    fs: Seq<FeatureView>,
    i: int,
    j: int,
)
    requires
        fs.len() <= usize::MAX,
        0 <= i < j < fs.len(),
    ensures
        ordered(OsmflatOrder::Spatial, fs) == fs,
        order == OsmflatOrder::ZOrder && ordered(order, fs)[i].z_order == ordered(
            order,
            fs,
        )[j].z_order ==> positions(order, fs)[i] < positions(order, fs)[j],
        order == OsmflatOrder::WayArea && ieee::number_le(
            ordered(order, fs)[i].way_area,
            ordered(order, fs)[j].way_area,
        ) ==> positions(order, fs)[i] < positions(order, fs)[j],
        order == OsmflatOrder::WayArea && (fs[i].way_area & 0x7fff_ffff_ffff_ffff)
            > 0x7ff0_0000_0000_0000 ==> positions(order, fs)[i] == i,
        order == OsmflatOrder::WayArea && (fs[j].way_area & 0x7fff_ffff_ffff_ffff)
            > 0x7ff0_0000_0000_0000 ==> positions(order, fs)[j] == j,
{
    assert(ordered(OsmflatOrder::Spatial, fs) =~= fs);
    features_are_drawn_by_rank(order, fs, i, j);
    ieee::nan_by_its_bits(fs[i].way_area);
    ieee::nan_by_its_bits(fs[j].way_area);
}

/// Two features whose priorities differ are drawn with the lesser first; two whose
/// areas are numbers that differ, with the greater first.
pub proof fn the_greater_area_is_drawn_first(fs: Seq<FeatureView>, i: int, j: int)
    requires
        fs.len() <= usize::MAX,
        0 <= i < j < fs.len(),
    ensures
        ordered(OsmflatOrder::ZOrder, fs)[i].z_order <= ordered(OsmflatOrder::ZOrder, fs)[j].z_order,
        ({
            let a = ordered(OsmflatOrder::WayArea, fs)[i].way_area;
            let b = ordered(OsmflatOrder::WayArea, fs)[j].way_area;
            a <= 0x7ff0_0000_0000_0000 && b <= 0x7ff0_0000_0000_0000 ==> a >= b
        }),
{
    features_are_drawn_by_rank(OsmflatOrder::ZOrder, fs, i, j);
    features_are_drawn_by_rank(OsmflatOrder::WayArea, fs, i, j);
    ieee::numbers_are_ordered_by_their_bits(
        ordered(OsmflatOrder::WayArea, fs)[i].way_area,
        ordered(OsmflatOrder::WayArea, fs)[j].way_area,
    );
}

} // verus!

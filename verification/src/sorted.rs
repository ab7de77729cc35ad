//! Strictly ascending lists: the form in which index lists travel between the
//! stages of a query.
use vstd::prelude::*;

verus! {

/// A type with a strict total order that is known to the proofs.
pub trait Ranked: Sized {
    /// `self` comes strictly before `other`.
    spec fn before(self, other: Self) -> bool;

    /// Nothing comes before itself.
    proof fn irreflexive(a: Self)
        ensures
            !a.before(a),
    ;

    proof fn transitive(a: Self, b: Self, c: Self)
        requires
            a.before(b),
            b.before(c),
        ensures
            a.before(c),
    ;

    /// Two values that neither comes before the other are the same value.
    proof fn total(a: Self, b: Self)
        ensures
            a == b || a.before(b) || b.before(a),
    ;

    fn is_before(&self, other: &Self) -> (r: bool)
        ensures
            r == self.before(*other),
    ;
}

impl Ranked for u64 {
    open spec fn before(self, other: u64) -> bool {
        self < other
    }

    proof fn irreflexive(a: u64) {
    }

    proof fn transitive(a: u64, b: u64, c: u64) {
    }

    proof fn total(a: u64, b: u64) {
    }

    fn is_before(&self, other: &u64) -> (r: bool) {
        *self < *other
    }
}

/// Pairs compare by their first component, then by their second.
impl Ranked for (u64, u64) {
    open spec fn before(self, other: (u64, u64)) -> bool {
        self.0 < other.0 || (self.0 == other.0 && self.1 < other.1)
    }

    proof fn irreflexive(a: (u64, u64)) {
    }

    proof fn transitive(a: (u64, u64), b: (u64, u64), c: (u64, u64)) {
    }

    proof fn total(a: (u64, u64), b: (u64, u64)) {
    }

    fn is_before(&self, other: &(u64, u64)) -> (r: bool) {
        self.0 < other.0 || (self.0 == other.0 && self.1 < other.1)
    }
}

/// Sorted with no value twice.
pub open spec fn ascending<T: Ranked>(s: Seq<T>) -> bool {
    forall|i: int, j: int| 0 <= i < j < s.len() ==> (#[trigger] s[i]).before(#[trigger] s[j])
}

/// Two lists hold the same values, in whatever order and however often.
pub open spec fn same_members<T>(a: Seq<T>, b: Seq<T>) -> bool {
    forall|x: T| #[trigger] a.contains(x) <==> b.contains(x)
}

/// The first value of a non-empty ascending list is its least: every other
/// member comes after it.
proof fn lemma_first_is_least<T: Ranked>(s: Seq<T>, x: T)
    requires
        ascending(s),
        s.contains(x),
    ensures
        s.len() > 0,
        x == s[0] || s[0].before(x),
{
    let k = choose|k: int| 0 <= k < s.len() && s[k] == x;
    if k > 0 {
        assert(s[0].before(s[k]));
    }
}

/// An ascending list is determined by what it holds.
pub proof fn ascending_list_is_determined_by_its_members<T: Ranked>(a: Seq<T>, b: Seq<T>)
    requires
        ascending(a),
        ascending(b),
        same_members(a, b),
    ensures
        a == b,
    decreases a.len(),
{
    if a.len() == 0 {
        if b.len() > 0 {
            assert(b.contains(b[0]));
            assert(a.contains(b[0]));
        }
        assert(a =~= b);
    } else {
        assert(a.contains(a[0]));
        assert(b.contains(a[0]));
        assert(b.contains(b[0]));
        assert(a.contains(b[0]));
        lemma_first_is_least(a, b[0]);
        lemma_first_is_least(b, a[0]);
        if a[0] != b[0] {
            T::transitive(a[0], b[0], a[0]);
            T::irreflexive(a[0]);
        }
        let ra = a.drop_first();
        let rb = b.drop_first();
        assert forall|x: T| #[trigger] ra.contains(x) <==> rb.contains(x) by {
            lemma_rest_members(a, x);
            lemma_rest_members(b, x);
        }
        assert(ascending(ra));
        assert(ascending(rb));
        ascending_list_is_determined_by_its_members(ra, rb);
        assert(a =~= seq![a[0]] + ra);
        assert(b =~= seq![b[0]] + rb);
    }
}

/// The list holds exactly the values of which `holds` is true.
pub open spec fn lists<T>(s: Seq<T>, holds: spec_fn(T) -> bool) -> bool {
    forall|x: T| #[trigger] s.contains(x) <==> holds(x)
}

/// The ascending list of the values of which `holds` is true.
pub open spec fn listing<T: Ranked>(holds: spec_fn(T) -> bool) -> Seq<T> {
    choose|s: Seq<T>| ascending(s) && lists(s, holds)
}

/// An ascending list of the right values is the only one.
pub proof fn there_is_one_listing<T: Ranked>(s: Seq<T>, holds: spec_fn(T) -> bool)
    requires
        ascending(s),
        lists(s, holds),
    ensures
        s == listing(holds),
{
    let other = listing(holds);
    assert(ascending(other) && lists(other, holds));
    assert forall|x: T| #[trigger] s.contains(x) <==> other.contains(x) by {}
    ascending_list_is_determined_by_its_members(s, other);
}

/// An ascending list with one value more.
proof fn lemma_with_one_more<T: Ranked>(s: Seq<T>, x: T) -> (r: Seq<T>)
    requires
        ascending(s),
    ensures
        ascending(r),
        forall|y: T| #[trigger] r.contains(y) <==> s.contains(y) || y == x,
    decreases s.len(),
{
    if s.len() == 0 {
        let r = seq![x];
        assert(r[0] == x);
        r
    } else {
        let last = s.last();
        let rest = s.drop_last();
        assert(s =~= rest.push(last));
        assert forall|y: T| #[trigger] s.contains(y) <==> rest.contains(y) || y == last by {
            lemma_contains_in_push(rest, last, y);
        }
        T::total(x, last);
        if x == last {
            s
        } else if last.before(x) {
            let r = s.push(x);
            assert forall|i: int, j: int| 0 <= i < j < r.len() implies (#[trigger] r[i]).before(
                #[trigger] r[j],
            ) by {
                if j == s.len() && i < s.len() - 1 {
                    assert(s[i].before(s[s.len() - 1]));
                    T::transitive(s[i], last, x);
                }
            }
            assert forall|y: T| #[trigger] r.contains(y) <==> s.contains(y) || y == x by {
                lemma_contains_in_push(s, x, y);
            }
            r
        } else {
            let front = lemma_with_one_more(rest, x);
            let r = front.push(last);
            assert forall|i: int, j: int| 0 <= i < j < r.len() implies (#[trigger] r[i]).before(
                #[trigger] r[j],
            ) by {
                if j == front.len() {
                    assert(front.contains(front[i]));
                    if front[i] != x {
                        let k = choose|k: int| 0 <= k < rest.len() && rest[k] == front[i];
                        assert(s[k].before(s[s.len() - 1]));
                    }
                } else {
                    assert(front[i].before(front[j]));
                }
            }
            assert forall|y: T| #[trigger] r.contains(y) <==> s.contains(y) || y == x by {
                lemma_contains_in_push(front, last, y);
                assert(front.contains(y) <==> rest.contains(y) || y == x);
            }
            r
        }
    }
}

pub(crate) proof fn lemma_contains_in_push<T>(s: Seq<T>, x: T, y: T)
    ensures
        s.push(x).contains(y) <==> s.contains(y) || y == x,
{
    assert(s.push(x)[s.len() as int] == x);
    if s.contains(y) {
        let k = choose|k: int| 0 <= k < s.len() && s[k] == y;
        assert(s.push(x)[k] == y);
    }
    if s.push(x).contains(y) && y != x {
        let k = choose|k: int| 0 <= k < s.push(x).len() && s.push(x)[k] == y;
        assert(s[k] == y);
    }
}

/// What an arbitrary list holds can be listed in ascending order.
proof fn lemma_sorted_version<T: Ranked>(s: Seq<T>) -> (r: Seq<T>)
    ensures
        ascending(r),
        same_members(r, s),
    decreases s.len(),
{
    if s.len() == 0 {
        s
    } else {
        let front = lemma_sorted_version(s.drop_last());
        let r = lemma_with_one_more(front, s.last());
        assert(s =~= s.drop_last().push(s.last()));
        assert forall|x: T| #[trigger] r.contains(x) <==> s.contains(x) by {
            lemma_contains_in_push(s.drop_last(), s.last(), x);
            assert(front.contains(x) <==> s.drop_last().contains(x));
        }
        r
    }
}

/// The values that some list holds have an ascending listing.
pub proof fn a_listing_exists<T: Ranked>(some: Seq<T>, holds: spec_fn(T) -> bool)
    requires
        lists(some, holds),
    ensures
        ascending(listing(holds)),
        lists(listing(holds), holds),
{
    let s = lemma_sorted_version(some);
    assert forall|x: T| #[trigger] s.contains(x) <==> holds(x) by {
        assert(s.contains(x) <==> some.contains(x));
    }
    assert(ascending(s) && lists(s, holds));
}

/// Dropping the first value of an ascending list takes away that value alone.
proof fn lemma_rest_members<T: Ranked>(s: Seq<T>, x: T)
    requires
        ascending(s),
        s.len() > 0,
    ensures
        s.drop_first().contains(x) <==> s.contains(x) && x != s[0],
{
    let r = s.drop_first();
    if r.contains(x) {
        let k = choose|k: int| 0 <= k < r.len() && r[k] == x;
        assert(s[k + 1] == x);
        assert(s[0].before(s[k + 1]));
        T::irreflexive(s[0]);
    }
    if s.contains(x) && x != s[0] {
        let k = choose|k: int| 0 <= k < s.len() && s[k] == x;
        assert(r[k - 1] == x);
    }
}

/// Extending an ascending list by a value that comes after its last.
proof fn lemma_push_keeps_ascending<T: Ranked>(s: Seq<T>, x: T)
    requires
        ascending(s),
        s.len() > 0 ==> s.last().before(x),
    ensures
        ascending(s.push(x)),
{
    let t = s.push(x);
    assert forall|i: int, j: int| 0 <= i < j < t.len() implies (#[trigger] t[i]).before(
        #[trigger] t[j],
    ) by {
        if j == s.len() && i < s.len() - 1 {
            assert(s[i].before(s[s.len() - 1]));
            T::transitive(s[i], s.last(), x);
        }
    }
}

/// The union of two ascending lists, ascending.
pub fn merge<T: Ranked + Copy>(a: &Vec<T>, b: &Vec<T>) -> (r: Vec<T>)
    requires
        ascending(a@),
        ascending(b@),
    ensures
        ascending(r@),
        forall|x: T| #[trigger] r@.contains(x) <==> a@.contains(x) || b@.contains(x),
{
    let mut r: Vec<T> = Vec::new();
    let mut i: usize = 0;
    let mut j: usize = 0;
    while i < a.len() || j < b.len()
        invariant
            i <= a@.len(),
            j <= b@.len(),
            ascending(a@),
            ascending(b@),
            ascending(r@),
            r@.len() > 0 && i < a@.len() ==> r@.last().before(a@[i as int]),
            r@.len() > 0 && j < b@.len() ==> r@.last().before(b@[j as int]),
            forall|k: int| 0 <= k < i ==> r@.contains(#[trigger] a@[k]),
            forall|k: int| 0 <= k < j ==> r@.contains(#[trigger] b@[k]),
            forall|k: int| 0 <= k < r@.len() ==> a@.contains(#[trigger] r@[k]) || b@.contains(r@[k]),
        decreases a@.len() - i + b@.len() - j,
    {
        let ghost before_push = r@;
        let ghost (i0, j0) = (i, j);
        let x: T = if i < a.len() && (j >= b.len() || !b[j].is_before(&a[i])) {
            let x = a[i];
            if j < b.len() && !x.is_before(&b[j]) {
                proof {
                    T::total(a@[i as int], b@[j as int]);
                }
                j = j + 1;
            }
            i = i + 1;
            x
        } else {
            let x = b[j];
            j = j + 1;
            x
        };
        r.push(x);
        proof {
            lemma_push_keeps_ascending(before_push, x);
            assert(r@[before_push.len() as int] == x);
            assert forall|k: int| 0 <= k < i implies r@.contains(#[trigger] a@[k]) by {
                if k < i0 {
                    let m = choose|m: int| 0 <= m < before_push.len() && before_push[m] == a@[k];
                    assert(r@[m] == a@[k]);
                }
            }
            assert forall|k: int| 0 <= k < j implies r@.contains(#[trigger] b@[k]) by {
                if k < j0 {
                    let m = choose|m: int| 0 <= m < before_push.len() && before_push[m] == b@[k];
                    assert(r@[m] == b@[k]);
                }
            }
            assert forall|k: int| 0 <= k < r@.len() implies a@.contains(#[trigger] r@[k])
                || b@.contains(r@[k]) by {
                if k < before_push.len() {
                    assert(r@[k] == before_push[k]);
                } else if i > i0 {
                    assert(a@[i0 as int] == x);
                } else {
                    assert(b@[j0 as int] == x);
                }
            }
        }
    }
    assert forall|x: T| #[trigger] r@.contains(x) <==> a@.contains(x) || b@.contains(x) by {
        if a@.contains(x) {
            let k = choose|k: int| 0 <= k < a@.len() && a@[k] == x;
            assert(r@.contains(a@[k]));
        }
        if b@.contains(x) {
            let k = choose|k: int| 0 <= k < b@.len() && b@[k] == x;
            assert(r@.contains(b@[k]));
        }
        if r@.contains(x) {
            let k = choose|k: int| 0 <= k < r@.len() && r@[k] == x;
            assert(a@.contains(r@[k]) || b@.contains(r@[k]));
        }
    }
    r
}

/// The values of `v[lo..hi]`, sorted, each once.
fn sort_between<T: Ranked + Copy>(v: &[T], lo: usize, hi: usize) -> (r: Vec<T>)
    requires
        lo <= hi <= v@.len(),
    ensures
        ascending(r@),
        same_members(r@, v@.subrange(lo as int, hi as int)),
    decreases hi - lo,
{
    let ghost part = v@.subrange(lo as int, hi as int);
    if hi - lo <= 1 {
        let mut r: Vec<T> = Vec::new();
        if lo < hi {
            r.push(v[lo]);
        }
        assert(r@ =~= part);
        r
    } else {
        let mid: usize = lo + (hi - lo) / 2;
        let left = sort_between(v, lo, mid);
        let right = sort_between(v, mid, hi);
        let r = merge(&left, &right);
        proof {
            let lp = v@.subrange(lo as int, mid as int);
            let rp = v@.subrange(mid as int, hi as int);
            assert(part =~= lp + rp);
            assert forall|x: T| #[trigger] r@.contains(x) <==> part.contains(x) by {
                assert(left@.contains(x) <==> lp.contains(x));
                assert(right@.contains(x) <==> rp.contains(x));
                if lp.contains(x) {
                    let k = choose|k: int| 0 <= k < lp.len() && lp[k] == x;
                    assert(part[k] == x);
                }
                if rp.contains(x) {
                    let k = choose|k: int| 0 <= k < rp.len() && rp[k] == x;
                    assert(part[lp.len() + k] == x);
                }
                if part.contains(x) {
                    let k = choose|k: int| 0 <= k < part.len() && part[k] == x;
                    if k < lp.len() {
                        assert(lp[k] == x);
                    } else {
                        assert(rp[k - lp.len()] == x);
                    }
                }
            }
        }
        r
    }
}

/// The values of `v`, sorted, each once.
pub fn sorted_unique<T: Ranked + Copy>(v: &[T]) -> (r: Vec<T>)
    ensures
        ascending(r@),
        same_members(r@, v@),
{
    let r = sort_between(v, 0, v.len());
    assert(v@.subrange(0, v@.len() as int) =~= v@);
    r
}

/// Whether `x` stands in an ascending list (binary search).
pub fn ascending_contains(s: &[u64], x: u64) -> (r: bool)
    requires
        ascending(s@),
    ensures
        r == s@.contains(x),
{
    let mut lo: usize = 0;
    let mut hi: usize = s.len();
    while lo < hi
        invariant
            lo <= hi <= s@.len(),
            ascending(s@),
            forall|k: int| 0 <= k < lo ==> s@[k] < x,
            forall|k: int| hi <= k < s@.len() ==> s@[k] > x,
        decreases hi - lo,
    {
        let mid: usize = lo + (hi - lo) / 2;
        let y: u64 = s[mid];
        if y == x {
            assert(s@[mid as int] == x);
            return true;
        }
        if y < x {
            assert forall|k: int| 0 <= k <= mid implies s@[k] < x by {
                if k < mid {
                    assert(s@[k].before(s@[mid as int]));
                }
            }
            lo = mid + 1;
        } else {
            assert forall|k: int| mid <= k < s@.len() implies s@[k] > x by {
                if k > mid {
                    assert(s@[mid as int].before(s@[k]));
                }
            }
            hi = mid;
        }
    }
    false
}

/// What one linear pass over both lists finds in common: of the two front
/// values the smaller is skipped, and an equal pair is taken once.
pub open spec fn common_by_merge(a: Seq<u64>, b: Seq<u64>) -> Seq<u64>
    decreases a.len() + b.len(),
{
    if a.len() == 0 || b.len() == 0 {
        Seq::empty()
    } else if a[0] < b[0] {
        common_by_merge(a.drop_first(), b)
    } else if b[0] < a[0] {
        common_by_merge(a, b.drop_first())
    } else {
        seq![a[0]] + common_by_merge(a.drop_first(), b.drop_first())
    }
}

/// On ascending lists the linear pass finds the intersection, ascending.
proof fn lemma_common_by_merge_is_intersection(a: Seq<u64>, b: Seq<u64>)
    requires
        ascending(a),
        ascending(b),
    ensures
        ascending(common_by_merge(a, b)),
        forall|x: u64| #[trigger]
            common_by_merge(a, b).contains(x) <==> a.contains(x) && b.contains(x),
    decreases a.len() + b.len(),
{
    let c = common_by_merge(a, b);
    if a.len() == 0 || b.len() == 0 {
    } else if a[0] < b[0] {
        lemma_common_by_merge_is_intersection(a.drop_first(), b);
        assert forall|x: u64| #[trigger] c.contains(x) <==> a.contains(x) && b.contains(x) by {
            lemma_rest_members(a, x);
            if b.contains(x) {
                lemma_first_is_least(b, x);
            }
        }
    } else if b[0] < a[0] {
        lemma_common_by_merge_is_intersection(a, b.drop_first());
        assert forall|x: u64| #[trigger] c.contains(x) <==> a.contains(x) && b.contains(x) by {
            lemma_rest_members(b, x);
            if a.contains(x) {
                lemma_first_is_least(a, x);
            }
        }
    } else {
        let rest = common_by_merge(a.drop_first(), b.drop_first());
        lemma_common_by_merge_is_intersection(a.drop_first(), b.drop_first());
        assert forall|x: u64| #[trigger] c.contains(x) <==> a.contains(x) && b.contains(x) by {
            lemma_rest_members(a, x);
            lemma_rest_members(b, x);
            if c.contains(x) {
                let k = choose|k: int| 0 <= k < c.len() && c[k] == x;
                if k > 0 {
                    assert(rest[k - 1] == x);
                }
            }
            if x == a[0] {
                assert(c[0] == x);
            } else if rest.contains(x) {
                let k = choose|k: int| 0 <= k < rest.len() && rest[k] == x;
                assert(c[k + 1] == x);
            }
        }
        assert forall|i: int, j: int| 0 <= i < j < c.len() implies (#[trigger] c[i]).before(
            #[trigger] c[j],
        ) by {
            assert(c[j] == rest[j - 1]);
            assert(rest.contains(rest[j - 1]));
            if i == 0 {
                assert(a.drop_first().contains(c[j]));
                lemma_rest_members(a, c[j]);
                lemma_first_is_least(a, c[j]);
            } else {
                assert(c[i] == rest[i - 1]);
                assert(rest[i - 1].before(rest[j - 1]));
            }
        }
    }
}

/// Intersection of two ascending index lists (linear merge).
pub fn intersect_sorted_u64(a: &[u64], b: &[u64]) -> (out: Vec<u64>)
    ensures
        out@ == common_by_merge(a@, b@),
        ascending(a@) && ascending(b@) ==> ascending(out@) && (forall|x: u64| #[trigger]
            out@.contains(x) <==> a@.contains(x) && b@.contains(x)),
{
    let mut out: Vec<u64> = Vec::new();
    let mut i: usize = 0;
    let mut j: usize = 0;
    proof {
        assert(a@.skip(0) =~= a@);
        assert(b@.skip(0) =~= b@);
        assert(out@ + common_by_merge(a@, b@) =~= common_by_merge(a@, b@));
    }
    while i < a.len() && j < b.len()
        invariant
            i <= a@.len(),
            j <= b@.len(),
            out@ + common_by_merge(a@.skip(i as int), b@.skip(j as int)) == common_by_merge(a@, b@),
        decreases a@.len() - i + b@.len() - j,
    {
        let x: u64 = a[i];
        let y: u64 = b[j];
        proof {
            assert(a@.skip(i as int).drop_first() =~= a@.skip(i + 1));
            assert(b@.skip(j as int).drop_first() =~= b@.skip(j + 1));
        }
        if x < y {
            i = i + 1;
        } else if y < x {
            j = j + 1;
        } else {
            proof {
                assert(out@ + (seq![x] + common_by_merge(a@.skip(i + 1), b@.skip(j + 1)))
                    =~= out@.push(x) + common_by_merge(a@.skip(i + 1), b@.skip(j + 1)));
            }
            out.push(x);
            i = i + 1;
            j = j + 1;
        }
    }
    proof {
        assert(out@ + common_by_merge(a@.skip(i as int), b@.skip(j as int)) =~= out@);
        if ascending(a@) && ascending(b@) {
            lemma_common_by_merge_is_intersection(a@, b@);
        }
    }
    out
}

/// An ascending list of numbers is strictly increasing.
pub proof fn ascending_means_increasing(s: Seq<u64>)
    ensures
        ascending(s) <==> forall|i: int, j: int|
            0 <= i < j < s.len() ==> #[trigger] s[i] < #[trigger] s[j],
{
    if forall|i: int, j: int| 0 <= i < j < s.len() ==> #[trigger] s[i] < #[trigger] s[j] {
        assert forall|i: int, j: int| 0 <= i < j < s.len() implies (#[trigger] s[i]).before(
            #[trigger] s[j],
        ) by {
            assert(s[i] < s[j]);
        }
    }
    if ascending(s) {
        assert forall|i: int, j: int| 0 <= i < j < s.len() implies #[trigger] s[i]
            < #[trigger] s[j] by {
            assert(s[i].before(s[j]));
        }
    }
}

/// An ascending list of pairs is increasing in the first number, and in the second
/// where the first is the same.
pub proof fn ascending_pairs_are_increasing(s: Seq<(u64, u64)>)
    ensures
        ascending(s) <==> forall|i: int, j: int|
            0 <= i < j < s.len() ==> (#[trigger] s[i]).0 < (#[trigger] s[j]).0 || (s[i].0 == s[j].0
                && s[i].1 < s[j].1),
{
    if ascending(s) {
        assert forall|i: int, j: int| 0 <= i < j < s.len() implies (#[trigger] s[i]).0 < (
        #[trigger] s[j]).0 || (s[i].0 == s[j].0 && s[i].1 < s[j].1) by {
            assert(s[i].before(s[j]));
        }
    } else {
        let (i, j) = choose|i: int, j: int|
            0 <= i < j < s.len() && !(#[trigger] s[i]).before(#[trigger] s[j]);
        assert(!(s[i].0 < s[j].0 || (s[i].0 == s[j].0 && s[i].1 < s[j].1)));
    }
}

/// Lists with the same members hold the same values.
pub proof fn same_members_hold_the_same<T>(a: Seq<T>, b: Seq<T>, x: T)
    requires
        same_members(a, b),
    ensures
        (exists|i: int| 0 <= i < a.len() && #[trigger] a[i] == x) <==> (exists|j: int|
            0 <= j < b.len() && #[trigger] b[j] == x),
{
    assert(a.contains(x) <==> b.contains(x));
}

/// On ascending lists the linear pass finds what both hold, ascending, whichever
/// list comes first, and nothing is lost against the list itself.
pub proof fn the_linear_pass_intersects(a: Seq<u64>, b: Seq<u64>, x: u64)
    requires
        forall|i: int, j: int| 0 <= i < j < a.len() ==> #[trigger] a[i] < #[trigger] a[j],
        forall|i: int, j: int| 0 <= i < j < b.len() ==> #[trigger] b[i] < #[trigger] b[j],
    ensures
        common_by_merge(a, b).contains(x) <==> a.contains(x) && b.contains(x),
        common_by_merge(a, b) == common_by_merge(b, a),
        common_by_merge(a, a) == a,
{
    ascending_means_increasing(a);
    ascending_means_increasing(b);
    lemma_common_by_merge_is_intersection(a, b);
    lemma_common_by_merge_is_intersection(b, a);
    lemma_common_by_merge_is_intersection(a, a);
    assert(same_members(common_by_merge(a, b), common_by_merge(b, a)));
    assert(same_members(common_by_merge(a, a), a));
    ascending_list_is_determined_by_its_members(common_by_merge(a, b), common_by_merge(b, a));
    ascending_list_is_determined_by_its_members(common_by_merge(a, a), a);
}

/// Of any two lists the linear pass takes an equal pair in front, and skips a front
/// value that is less than the other's; one empty list has nothing in common with
/// another.
pub proof fn the_linear_pass_compares_the_fronts(a: Seq<u64>, b: Seq<u64>, x: u64)
    ensures
        common_by_merge(seq![x] + a, seq![x] + b) == seq![x] + common_by_merge(a, b),
        b.len() > 0 && x < b[0] ==> common_by_merge(seq![x] + a, b) == common_by_merge(a, b),
        a.len() > 0 && x < a[0] ==> common_by_merge(a, seq![x] + b) == common_by_merge(a, b),
        a.len() == 0 || b.len() == 0 ==> common_by_merge(a, b).len() == 0,
{
    assert((seq![x] + a).drop_first() =~= a);
    assert((seq![x] + b).drop_first() =~= b);
}

/// Of lists in which values may be repeated, a value is taken as often as the list
/// holds it that holds it less often.
pub proof fn repeated_values_are_taken_pairwise(a: Seq<u64>, b: Seq<u64>, x: u64)
    requires
        forall|i: int, j: int| 0 <= i < j < a.len() ==> #[trigger] a[i] <= #[trigger] a[j],
        forall|i: int, j: int| 0 <= i < j < b.len() ==> #[trigger] b[i] <= #[trigger] b[j],
    ensures
        common_by_merge(a, b).to_multiset().count(x) == if a.to_multiset().count(x)
            <= b.to_multiset().count(x) {
            a.to_multiset().count(x)
        } else {
            b.to_multiset().count(x)
        },
    decreases a.len() + b.len(),
{
    broadcast use vstd::seq_lib::group_to_multiset_ensures;

    if a.len() == 0 || b.len() == 0 {
        assert(common_by_merge(a, b) =~= Seq::empty());
    } else {
        let ra = a.drop_first();
        let rb = b.drop_first();
        assert(a =~= seq![a[0]] + ra);
        assert(b =~= seq![b[0]] + rb);
        lemma_count_of_front(a[0], ra, x);
        lemma_count_of_front(b[0], rb, x);
        if a[0] < b[0] {
            repeated_values_are_taken_pairwise(ra, b, x);
            if b.contains(x) {
                let k = choose|k: int| 0 <= k < b.len() && b[k] == x;
                assert(b[0] <= b[k]);
            }
        } else if b[0] < a[0] {
            repeated_values_are_taken_pairwise(a, rb, x);
            if a.contains(x) {
                let k = choose|k: int| 0 <= k < a.len() && a[k] == x;
                assert(a[0] <= a[k]);
            }
        } else {
            repeated_values_are_taken_pairwise(ra, rb, x);
            lemma_count_of_front(a[0], common_by_merge(ra, rb), x);
        }
    }
}

proof fn lemma_count_of_front(first: u64, rest: Seq<u64>, x: u64)
    ensures
        (seq![first] + rest).to_multiset().count(x) == rest.to_multiset().count(x) + if x == first {
            1nat
        } else {
            0
        },
{
    broadcast use vstd::seq_lib::group_to_multiset_ensures;

    vstd::seq_lib::lemma_multiset_commutative(seq![first], rest);
    assert(seq![first] =~= Seq::<u64>::empty().push(first));
    assert(Seq::<u64>::empty().to_multiset() =~= vstd::multiset::Multiset::empty());
}

} // verus!

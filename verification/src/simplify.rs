//! Douglas-Peucker simplification of a polyline: which vertices stay.
//!
//! Distances are floating-point arithmetic and are measured by the caller, whose
//! function [`simplify_coords`] takes. The [`Simplifier`] below it names the segment
//! that is to be measured next, takes the squared distances of the vertices between
//! its ends, and decides.
use vstd::prelude::*;

use crate::ieee;
use crate::ieee::{at_most, less};

verus! {

/// Segments to be measured and vertices to be kept, so far.
#[verifier::ext_equal]
pub struct SimplifyState {
    pub keep: Seq<bool>,
    pub stack: Seq<(int, int)>,
}

/// The segments that are worth measuring: those with a vertex between the ends.
pub open spec fn open_segment(s: int, e: int) -> Seq<(int, int)> {
    if s + 1 < e {
        seq![(s, e)]
    } else {
        Seq::empty()
    }
}

/// At the start the two ends are kept, and the whole line is to be measured.
pub open spec fn start_state(n: int) -> SimplifyState {
    SimplifyState {
        keep: Seq::new(n as nat, |i: int| i == 0 || i == n - 1),
        stack: open_segment(0, n - 1),
    }
}

/// After the segment on top was measured: without a split it is done, else the
/// split vertex is kept and the two parts are to be measured, the later first.
pub open spec fn step(st: SimplifyState, split: Option<int>) -> SimplifyState {
    let (s, e) = st.stack.last();
    let rest = st.stack.drop_last();
    match split {
        Some(m) => SimplifyState {
            keep: st.keep.update(m, true),
            stack: rest + open_segment(s, m) + open_segment(m, e),
        },
        None => SimplifyState { keep: st.keep, stack: rest },
    }
}

/// `j` is the first of the greatest distances, and greater than zero.
pub open spec fn is_farthest(d2: Seq<u64>, j: int) -> bool {
    &&& 0 <= j < d2.len()
    &&& ieee::number_lt(0, d2[j])
    &&& forall|i: int| 0 <= i < j ==> !ieee::number_le(d2[j], #[trigger] d2[i])
    &&& forall|i: int| j < i < d2.len() ==> !ieee::number_lt(d2[j], #[trigger] d2[i])
}

/// The position of the farthest vertex, when it is farther than the tolerance.
pub open spec fn split_position(d2: Seq<u64>, tol2: u64) -> Option<int> {
    if exists|j: int| is_farthest(d2, j) && ieee::number_lt(tol2, #[trigger] d2[j]) {
        Some(choose|j: int| is_farthest(d2, j) && ieee::number_lt(tol2, #[trigger] d2[j]))
    } else {
        None
    }
}

/// Only one position is the farthest.
proof fn lemma_one_farthest(d2: Seq<u64>, i: int, j: int)
    requires
        is_farthest(d2, i),
        is_farthest(d2, j),
    ensures
        i == j,
{
    if i < j {
        assert(!ieee::number_le(d2[j], d2[i]));
        assert(!ieee::number_lt(d2[i], d2[j]));
    }
    if j < i {
        assert(!ieee::number_le(d2[i], d2[j]));
        assert(!ieee::number_lt(d2[j], d2[i]));
    }
}

/// The farthest vertex among those between the ends of a segment, given by
/// their squared distances, when it is farther than the tolerance.
pub fn find_split(d2: &[u64], tol2: u64) -> (r: Option<usize>)
    ensures
        match r {
            Some(j) => split_position(d2@, tol2) == Some(j as int) && j < d2@.len(),
            None => split_position(d2@, tol2) is None,
        },
{
    let mut best: Option<usize> = None;
    let mut i: usize = 0;
    proof {
        assert forall|j: int| !is_farthest(d2@.take(0), j) by {}
    }
    while i < d2.len()
        invariant
            i <= d2@.len(),
            match best {
                Some(j) => is_farthest(d2@.take(i as int), j as int),
                None => forall|j: int| 0 <= j < i ==> !ieee::number_lt(0, #[trigger] d2@[j]),
            },
        decreases d2@.len() - i,
    {
        let x: u64 = d2[i];
        let ghost part = d2@.take(i + 1);
        let ghost before = d2@.take(i as int);
        let farther: bool = match best {
            Some(j) => {
                assert(before[j as int] == d2@[j as int]);
                less(d2[j], x)
            },
            None => less(0, x),
        };
        proof {
            assert forall|k: int| 0 <= k < i implies #[trigger] part[k] == before[k] by {}
            assert(part[i as int] == x);
            if let Some(j) = best {
                assert(before[j as int] == d2@[j as int]);
            }
        }
        if farther {
            proof {
                assert forall|k: int| 0 <= k < i implies !ieee::number_le(
                    x,
                    #[trigger] part[k],
                ) by {
                    if let Some(j) = best {
                        if k < j {
                            assert(!ieee::number_le(before[j as int], before[k]));
                        } else if k > j {
                            assert(!ieee::number_lt(before[j as int], before[k]));
                        }
                    } else {
                        assert(!ieee::number_lt(0, d2@[k]));
                    }
                }
            }
            best = Some(i);
        } else {
            proof {
                if let Some(j) = best {
                    assert forall|k: int| 0 <= k < j implies !ieee::number_le(
                        part[j as int],
                        #[trigger] part[k],
                    ) by {
                        assert(!ieee::number_le(before[j as int], before[k]));
                    }
                    assert forall|k: int| j < k < part.len() implies !ieee::number_lt(
                        part[j as int],
                        #[trigger] part[k],
                    ) by {
                        if k < i {
                            assert(!ieee::number_lt(before[j as int], before[k]));
                        }
                    }
                }
            }
        }
        i = i + 1;
    }
    assert(d2@.take(i as int) =~= d2@);
    match best {
        Some(j) => {
            if less(tol2, d2[j]) {
                proof {
                    let c = split_position(d2@, tol2)->0;
                    lemma_one_farthest(d2@, c, j as int);
                }
                Some(j)
            } else {
                proof {
                    if let Some(c) = split_position(d2@, tol2) {
                        lemma_one_farthest(d2@, c, j as int);
                    }
                }
                None
            }
        },
        None => None,
    }
}

/// How many of the first `k` vertices are kept.
pub open spec fn kept_count(keep: Seq<bool>, k: int) -> int
    decreases k,
{
    if k <= 0 {
        0
    } else {
        kept_count(keep, k - 1) + if keep[k - 1] {
            1int
        } else {
            0
        }
    }
}

/// The coordinates of those of the first `k` vertices that are kept.
pub open spec fn picked(coords: Seq<u64>, keep: Seq<bool>, k: int) -> Seq<u64>
    decreases k,
{
    if k <= 0 {
        Seq::empty()
    } else if keep[k - 1] {
        picked(coords, keep, k - 1) + seq![coords[2 * (k - 1)], coords[2 * (k - 1) + 1]]
    } else {
        picked(coords, keep, k - 1)
    }
}

/// The line with only the kept vertices, unless these are fewer than `min_pts`:
/// then the line as it was.
pub open spec fn simplified(coords: Seq<u64>, keep: Seq<bool>, min_pts: int) -> Seq<u64> {
    if kept_count(keep, keep.len() as int) < min_pts {
        coords
    } else {
        picked(coords, keep, keep.len() as int)
    }
}

/// A line of `n` vertices is left as it is, without any measuring.
pub open spec fn left_alone(n: int, tol: u64, min_pts: int) -> bool {
    ieee::number_le(tol, 0) || n <= min_pts
}

/// The segments of a state lie within the line and have something between
/// their ends.
pub open spec fn state_valid(st: SimplifyState) -> bool {
    forall|k: int|
        0 <= k < st.stack.len() ==> 0 <= (#[trigger] st.stack[k]).0 && st.stack[k].0 + 1
            < st.stack[k].1 < st.keep.len()
}

/// How many vertices lie between the ends of the segments that are to be
/// measured.
pub open spec fn work(stack: Seq<(int, int)>) -> int
    decreases stack.len(),
{
    if stack.len() == 0 {
        0
    } else {
        work(stack.drop_last()) + (stack.last().1 - stack.last().0 - 1)
    }
}

proof fn lemma_work_of_sum(a: Seq<(int, int)>, b: Seq<(int, int)>)
    ensures
        work(a + b) == work(a) + work(b),
    decreases b.len(),
{
    if b.len() == 0 {
        assert(a + b =~= a);
    } else {
        lemma_work_of_sum(a, b.drop_last());
        assert((a + b).drop_last() =~= a + b.drop_last());
    }
}

proof fn lemma_work_of_open_segment(s: int, e: int)
    requires
        s < e,
    ensures
        work(open_segment(s, e)) == e - s - 1,
{
    reveal_with_fuel(work, 2);
    if s + 1 < e {
        assert(open_segment(s, e).drop_last() =~= Seq::empty());
    }
}

proof fn lemma_work_is_not_negative(st: SimplifyState)
    requires
        state_valid(st),
    ensures
        work(st.stack) >= 0,
        st.stack.len() > 0 ==> work(st.stack) > 0,
    decreases st.stack.len(),
{
    if st.stack.len() > 0 {
        let rest = SimplifyState { keep: st.keep, stack: st.stack.drop_last() };
        assert forall|k: int| 0 <= k < rest.stack.len() implies 0 <= (
        #[trigger] rest.stack[k]).0 && rest.stack[k].0 + 1 < rest.stack[k].1 < rest.keep.len() by {
            assert(st.stack[k] == rest.stack[k]);
        }
        lemma_work_is_not_negative(rest);
        assert(st.stack[st.stack.len() - 1].0 + 1 < st.stack[st.stack.len() - 1].1);
    }
}

/// A step keeps a state valid and leaves less to be measured.
pub proof fn a_step_leaves_less_work(st: SimplifyState, split: Option<int>)
    requires
        state_valid(st),
        st.stack.len() > 0,
        split matches Some(m) ==> st.stack.last().0 < m < st.stack.last().1,
    ensures
        state_valid(step(st, split)),
        0 <= work(step(st, split).stack) < work(st.stack),
{
    let (s, e) = st.stack.last();
    let rest = st.stack.drop_last();
    let next = step(st, split);
    assert(st.stack[st.stack.len() - 1] == (s, e));
    assert forall|k: int| 0 <= k < rest.len() implies #[trigger] rest[k] == st.stack[k] by {}
    assert forall|k: int| 0 <= k < next.stack.len() implies 0 <= (
    #[trigger] next.stack[k]).0 && next.stack[k].0 + 1 < next.stack[k].1 < next.keep.len() by {
        if k < rest.len() {
            assert(next.stack[k] == rest[k]);
            assert(st.stack[k] == rest[k]);
        }
    }
    match split {
        Some(m) => {
            lemma_work_of_sum(rest + open_segment(s, m), open_segment(m, e));
            lemma_work_of_sum(rest, open_segment(s, m));
            lemma_work_of_open_segment(s, m);
            lemma_work_of_open_segment(m, e);
        },
        None => {},
    }
    lemma_work_is_not_negative(next);
}

/// A simplification under way.
pub struct Simplifier {
    keep: Vec<bool>,
    stack: Vec<(usize, usize)>,
    min_pts: usize,
    done: bool,
}

impl Simplifier {
    /// What is decided so far.
    pub closed spec fn state(&self) -> SimplifyState {
        SimplifyState {
            keep: self.keep@,
            stack: Seq::new(
                self.stack@.len(),
                |k: int| (self.stack@[k].0 as int, self.stack@[k].1 as int),
            ),
        }
    }

    /// The line is left as it is.
    pub closed spec fn untouched(&self) -> bool {
        self.done
    }

    /// The least number of vertices that may remain.
    pub closed spec fn least(&self) -> int {
        self.min_pts as int
    }

    pub open spec fn valid(&self) -> bool {
        state_valid(self.state())
    }

    /// Begins with a line of `n` vertices, of which at least `min_pts` are to
    /// remain. With a tolerance of at most zero, or with no vertex to spare, the
    /// line is left as it is.
    pub fn new(n: usize, tol: u64, min_pts: usize) -> (r: Simplifier)
        ensures
            r.valid(),
            r.least() == min_pts,
            r.untouched() == left_alone(n as int, tol, min_pts as int),
            r.state().keep.len() == n,
            r.untouched() ==> r.state().stack.len() == 0,
            !r.untouched() ==> r.state() == start_state(n as int),
    {
        let done: bool = at_most(tol, 0) || n <= min_pts;
        let mut keep: Vec<bool> = Vec::new();
        let mut i: usize = 0;
        while i < n
            invariant
                i <= n,
                keep@.len() == i,
                forall|k: int| 0 <= k < i ==> #[trigger] keep@[k] == (k == 0 || k == n - 1),
            decreases n - i,
        {
            keep.push(i == 0 || i == n - 1);
            i = i + 1;
        }
        let mut stack: Vec<(usize, usize)> = Vec::new();
        if !done && n > 2 {
            stack.push((0, n - 1));
        }
        let r = Simplifier { keep, stack, min_pts, done };
        proof {
            if !done {
                assert(r.state().keep =~= start_state(n as int).keep);
                assert(r.state().stack =~= start_state(n as int).stack);
            }
        }
        r
    }

    /// The segment whose inner vertices are to be measured, by the positions of
    /// its ends; `None` when all is decided.
    pub fn segment(&self) -> (r: Option<(usize, usize)>)
        requires
            self.valid(),
        ensures
            match r {
                Some((s, e)) => self.state().stack.len() > 0 && self.state().stack.last() == (
                    s as int,
                    e as int,
                ) && s + 1 < e < self.state().keep.len(),
                None => self.state().stack.len() == 0,
            },
    {
        if self.stack.len() == 0 {
            return None;
        }
        let top: (usize, usize) = self.stack[self.stack.len() - 1];
        assert(self.state().stack[self.stack@.len() - 1] == (top.0 as int, top.1 as int));
        Some(top)
    }

    /// Takes the squared distances of the vertices between the ends of the
    /// segment, in their order, and the squared tolerance, and decides.
    pub fn advance(&mut self, d2: &[u64], tol2: u64)
        requires
            old(self).valid(),
            old(self).state().stack.len() > 0,
            d2@.len() == old(self).state().stack.last().1 - old(self).state().stack.last().0 - 1,
        ensures
            final(self).valid(),
            final(self).least() == old(self).least(),
            final(self).untouched() == old(self).untouched(),
            final(self).state() == step(
                old(self).state(),
                match split_position(d2@, tol2) {
                    Some(j) => Some(old(self).state().stack.last().0 + 1 + j),
                    None => None,
                },
            ),
            final(self).state().keep.len() == old(self).state().keep.len(),
            0 <= work(final(self).state().stack) < work(old(self).state().stack),
    {
        let ghost st = self.state();
        proof {
            let top = self.stack@.len() - 1;
            assert(st.stack[top] == (self.stack@[top].0 as int, self.stack@[top].1 as int));
        }
        let split = find_split(d2, tol2);
        let ghost at = match split_position(d2@, tol2) {
            Some(j) => Some(st.stack.last().0 + 1 + j),
            None => None,
        };
        let ghost under = self.stack@.drop_last();
        let (s, e) = self.stack.pop().unwrap();
        assert(self.stack@ =~= under);
        match split {
            Some(j) => {
                let m: usize = s + 1 + j;
                self.keep.set(m, true);
                if s + 1 < m {
                    self.stack.push((s, m));
                }
                if m + 1 < e {
                    self.stack.push((m, e));
                }
            },
            None => {},
        }
        proof {
            assert(self.state().keep =~= step(st, at).keep);
            assert(self.state().stack =~= step(st, at).stack);
            a_step_leaves_less_work(st, at);
        }
    }

    /// The line that remains of `coords`, interleaved `[x0, y0, ...]`.
    pub fn finish(&self, coords: &[u64]) -> (r: Vec<u64>)
        requires
            coords@.len() / 2 == self.state().keep.len(),
        ensures
            r@ == if self.untouched() {
                coords@
            } else {
                simplified(coords@, self.state().keep, self.least())
            },
    {
        let n: usize = self.keep.len();
        if self.done {
            return vstd::slice::slice_to_vec(coords);
        }
        let mut out: Vec<u64> = Vec::new();
        let mut count: usize = 0;
        let mut i: usize = 0;
        while i < n
            invariant
                i <= n,
                n == self.keep@.len(),
                coords@.len() / 2 == n,
                count <= i,
                count == kept_count(self.keep@, i as int),
                out@ == picked(coords@, self.keep@, i as int),
            decreases n - i,
        {
            if self.keep[i] {
                count = count + 1;
                let ghost before = out@;
                assert(2 * i + 1 < coords.len());
                out.push(coords[2 * i]);
                out.push(coords[2 * i + 1]);
                assert(out@ =~= before + seq![coords@[2 * i], coords@[2 * i + 1]]);
            }
            i = i + 1;
        }
        if count < self.min_pts {
            vstd::slice::slice_to_vec(coords)
        } else {
            out
        }
    }
}

/// The vertices between `s` and `e` that stay when `split` says of each segment
/// where it is split.
pub open spec fn retained(split: spec_fn(int, int) -> Option<int>, s: int, e: int) -> Set<int>
    decreases e - s,
{
    if e <= s + 1 {
        Set::empty()
    } else {
        match split(s, e) {
            Some(m) => if s < m < e {
                retained(split, s, m).insert(m).union(retained(split, m, e))
            } else {
                Set::empty()
            },
            None => Set::empty(),
        }
    }
}

/// `split` splits every segment between its ends, if at all.
pub open spec fn splits_inside(split: spec_fn(int, int) -> Option<int>) -> bool {
    forall|s: int, e: int| #[trigger] split(s, e) matches Some(m) ==> s < m < e
}

/// Vertex `i` is kept already, or one of the segments to be measured will keep
/// it.
pub open spec fn will_be_kept(
    st: SimplifyState,
    split: spec_fn(int, int) -> Option<int>,
    i: int,
) -> bool {
    ||| 0 <= i < st.keep.len() && st.keep[i]
    ||| exists|k: int|
        0 <= k < st.stack.len() && retained(
            split,
            (#[trigger] st.stack[k]).0,
            st.stack[k].1,
        ).contains(i)
}

/// A step that splits the segment on top where `split` says does not change
/// which vertices stay in the end.
pub proof fn a_step_keeps_the_outcome(
    st: SimplifyState,
    split: spec_fn(int, int) -> Option<int>,
    i: int,
)
    requires
        state_valid(st),
        st.stack.len() > 0,
        splits_inside(split),
    ensures
        will_be_kept(step(st, split(st.stack.last().0, st.stack.last().1)), split, i)
            == will_be_kept(st, split, i),
{
    reveal_with_fuel(retained, 2);
    let (s, e) = st.stack.last();
    let top = st.stack.len() - 1;
    let rest = st.stack.drop_last();
    assert(st.stack[top] == (s, e));
    let at = split(s, e);
    let next = step(st, at);
    assert forall|k: int| 0 <= k < rest.len() implies #[trigger] rest[k] == st.stack[k] by {}
    if will_be_kept(st, split, i) && !(0 <= i < st.keep.len() && st.keep[i]) {
        let k = choose|k: int|
            0 <= k < st.stack.len() && retained(
                split,
                (#[trigger] st.stack[k]).0,
                st.stack[k].1,
            ).contains(i);
        if k < top {
            assert(next.stack[k] == st.stack[k]);
        } else {
            let m = at->0;
            assert(at is Some);
            if i != m {
                if retained(split, s, m).contains(i) {
                    assert(next.stack[rest.len() as int] == (s, m));
                } else {
                    let at_e = rest.len() + open_segment(s, m).len();
                    assert(next.stack[at_e as int] == (m, e));
                }
            }
        }
    }
    if will_be_kept(next, split, i) && !(0 <= i < next.keep.len() && next.keep[i]) {
        let k = choose|k: int|
            0 <= k < next.stack.len() && retained(
                split,
                (#[trigger] next.stack[k]).0,
                next.stack[k].1,
            ).contains(i);
        if k < rest.len() {
            assert(next.stack[k] == st.stack[k]);
        } else {
            let m = at->0;
            assert(next.stack[k] == (s, m) || next.stack[k] == (m, e));
            assert(retained(split, st.stack[top].0, st.stack[top].1).contains(i));
        }
    }
    if 0 <= i < next.keep.len() && next.keep[i] && !st.keep[i] {
        assert(retained(split, st.stack[top].0, st.stack[top].1).contains(i));
    }
}

/// The state in which a simplification ends that splits where `split` says.
pub open spec fn run(st: SimplifyState, split: spec_fn(int, int) -> Option<int>) -> SimplifyState
    decreases work(st.stack),
    when state_valid(st) && splits_inside(split)
{
    if st.stack.len() == 0 {
        st
    } else {
        proof {
            a_step_leaves_less_work(st, split(st.stack.last().0, st.stack.last().1));
        }
        run(step(st, split(st.stack.last().0, st.stack.last().1)), split)
    }
}

proof fn lemma_run_keeps(st: SimplifyState, split: spec_fn(int, int) -> Option<int>, i: int)
    requires
        state_valid(st),
        splits_inside(split),
    ensures
        run(st, split).keep.len() == st.keep.len(),
        run(st, split).stack.len() == 0,
        0 <= i < st.keep.len() ==> run(st, split).keep[i] == will_be_kept(st, split, i),
    decreases work(st.stack),
{
    if st.stack.len() > 0 {
        let at = split(st.stack.last().0, st.stack.last().1);
        a_step_leaves_less_work(st, at);
        a_step_keeps_the_outcome(st, split, i);
        lemma_run_keeps(step(st, at), split, i);
    }
}

/// A simplification keeps the two ends of the line, and between them exactly the
/// vertices at which the line, and in turn each part of it, is split; the order
/// in which the parts are measured does not matter.
pub proof fn simplification_splits_recursively(
    n: int,
    split: spec_fn(int, int) -> Option<int>,
    i: int,
)
    requires
        n >= 1,
        0 <= i < n,
        splits_inside(split),
    ensures
        run(start_state(n), split).stack.len() == 0,
        run(start_state(n), split).keep.len() == n,
        run(start_state(n), split).keep[i] <==> i == 0 || i == n - 1 || retained(
            split,
            0,
            n - 1,
        ).contains(i),
{
    let st = start_state(n);
    assert(state_valid(st));
    lemma_run_keeps(st, split, i);
    if n > 2 {
        assert(st.stack[0] == (0int, n - 1));
        if will_be_kept(st, split, i) && !(i == 0 || i == n - 1) {
            let k = choose|k: int|
                0 <= k < st.stack.len() && retained(
                    split,
                    (#[trigger] st.stack[k]).0,
                    st.stack[k].1,
                ).contains(i);
            assert(k == 0);
        }
        if retained(split, 0, n - 1).contains(i) {
            assert(retained(split, st.stack[0].0, st.stack[0].1).contains(i));
        }
    }
}

proof fn lemma_picked_len(coords: Seq<u64>, keep: Seq<bool>, k: int)
    requires
        0 <= k <= keep.len(),
    ensures
        picked(coords, keep, k).len() == 2 * kept_count(keep, k),
        0 <= kept_count(keep, k) <= k,
    decreases k,
{
    if k > 0 {
        lemma_picked_len(coords, keep, k - 1);
    }
}

proof fn lemma_first_picked(coords: Seq<u64>, keep: Seq<bool>, k: int)
    requires
        1 <= k <= keep.len(),
        keep[0],
    ensures
        picked(coords, keep, k).len() >= 2,
        picked(coords, keep, k)[0] == coords[0],
        picked(coords, keep, k)[1] == coords[1],
    decreases k,
{
    if k > 1 {
        lemma_first_picked(coords, keep, k - 1);
    } else {
        assert(picked(coords, keep, 0) =~= Seq::empty());
    }
}

/// When both ends are marked to be kept, what remains of a line begins and ends
/// as the line did, so that a closed ring stays closed; it has no more vertices
/// than the line, and at least `min_pts` if the line had as many.
pub proof fn simplified_line_keeps_its_ends(coords: Seq<u64>, keep: Seq<bool>, min_pts: int)
    requires
        keep.len() >= 1,
        coords.len() == 2 * keep.len(),
        keep[0],
        keep[keep.len() - 1],
    ensures
        ({
            let r = simplified(coords, keep, min_pts);
            &&& 2 <= r.len() <= coords.len()
            &&& r[0] == coords[0] && r[1] == coords[1]
            &&& r[r.len() - 2] == coords[coords.len() - 2] && r[r.len() - 1] == coords[coords.len()
                - 1]
            &&& keep.len() >= min_pts ==> r.len() >= 2 * min_pts
        }),
{
    let n = keep.len() as int;
    lemma_picked_len(coords, keep, n);
    lemma_first_picked(coords, keep, n);
}

/// However a line is split, what a simplification leaves of it begins and ends as
/// the line did, so that a closed ring stays closed, and has at least `min_pts`
/// vertices if the line had as many.
pub proof fn a_closed_ring_stays_closed(
    coords: Seq<u64>,
    n: int,
    split: spec_fn(int, int) -> Option<int>,
    min_pts: int,
)
    requires
        n >= 1,
        coords.len() == 2 * n,
        splits_inside(split),
    ensures
        ({
            let r = simplified(coords, run(start_state(n), split).keep, min_pts);
            &&& 2 <= r.len() <= coords.len()
            &&& r[0] == coords[0] && r[1] == coords[1]
            &&& r[r.len() - 2] == coords[coords.len() - 2] && r[r.len() - 1] == coords[coords.len()
                - 1]
            &&& n >= min_pts ==> r.len() >= 2 * min_pts
        }),
{
    simplification_splits_recursively(n, split, 0);
    simplification_splits_recursively(n, split, n - 1);
    simplified_line_keeps_its_ends(coords, run(start_state(n), split).keep, min_pts);
}

/// Where one distance is greater than zero, there is a farthest vertex, which is
/// at least as far.
proof fn lemma_some_vertex_is_farthest(d2: Seq<u64>, i: int) -> (j: int)
    requires
        0 <= i < d2.len(),
        ieee::number_lt(0, d2[i]),
    ensures
        is_farthest(d2, j),
        ieee::number_le(d2[i], d2[j]),
    decreases d2.len(),
{
    let last = d2.len() - 1;
    let front = d2.drop_last();
    assert forall|k: int| 0 <= k < last implies #[trigger] front[k] == d2[k] by {}
    if exists|k: int| 0 <= k < last && ieee::number_lt(0, #[trigger] front[k]) {
        let from = if i < last {
            i
        } else {
            choose|k: int| 0 <= k < last && ieee::number_lt(0, #[trigger] front[k])
        };
        let j = lemma_some_vertex_is_farthest(front, from);
        assert forall|k: int| 0 <= k < j implies !ieee::number_le(d2[j], #[trigger] d2[k]) by {
            assert(!ieee::number_le(front[j], front[k]));
        }
        assert forall|k: int| j < k < last implies !ieee::number_lt(d2[j], #[trigger] d2[k]) by {
            assert(!ieee::number_lt(front[j], front[k]));
        }
        if ieee::number_lt(d2[j], d2[last]) {
            assert forall|k: int| 0 <= k < last implies !ieee::number_le(
                d2[last],
                #[trigger] d2[k],
            ) by {
                if k < j {
                    assert(!ieee::number_le(d2[j], d2[k]));
                } else if k > j {
                    assert(!ieee::number_lt(d2[j], d2[k]));
                }
            }
            last
        } else {
            j
        }
    } else {
        assert(i == last);
        assert forall|k: int| 0 <= k < last implies !ieee::number_le(d2[last], #[trigger] d2[k]) by {
            assert(!ieee::number_lt(0, front[k]));
        }
        last
    }
}

/// A segment that is not split has no vertex between its ends that is farther
/// than the tolerance; one that is split, is split at such a vertex.
pub proof fn dropped_vertices_lie_within_the_tolerance(d2: Seq<u64>, tol2: u64, i: int)
    requires
        ieee::number_le(0, tol2),
        0 <= i < d2.len(),
    ensures
        split_position(d2, tol2) is None ==> !ieee::number_lt(tol2, d2[i]),
        split_position(d2, tol2) matches Some(j) ==> 0 <= j < d2.len() && ieee::number_lt(
            tol2,
            d2[j],
        ),
{
    if ieee::number_lt(tol2, d2[i]) {
        let j = lemma_some_vertex_is_farthest(d2, i);
        assert(is_farthest(d2, j) && ieee::number_lt(tol2, d2[j]));
    }
}

/// A vertex: its two coordinates.
pub type Vertex = (u64, u64);

/// Vertex `i` of an interleaved line.
pub open spec fn vertex(coords: Seq<u64>, i: int) -> Vertex {
    (coords[2 * i], coords[2 * i + 1])
}

/// What the vertices between `s` and `e` are measured to: `measure` takes a vertex
/// and the two ends.
pub open spec fn distances(
    coords: Seq<u64>,
    measure: spec_fn(Vertex, Vertex, Vertex) -> u64,
    s: int,
    e: int,
) -> Seq<u64> {
    Seq::new(
        (e - s - 1) as nat,
        |k: int| measure(vertex(coords, s + 1 + k), vertex(coords, s), vertex(coords, e)),
    )
}

/// Where each segment of a line is split, by what its vertices are measured to.
pub open spec fn measured_splits(
    coords: Seq<u64>,
    measure: spec_fn(Vertex, Vertex, Vertex) -> u64,
    tol2: u64,
) -> spec_fn(int, int) -> Option<int> {
    |s: int, e: int|
        if s + 1 < e {
            match split_position(distances(coords, measure, s, e), tol2) {
                Some(j) => Some(s + 1 + j),
                None => None,
            }
        } else {
            None
        }
}

/// Which vertices of a line a simplification keeps that measures with `measure`.
pub open spec fn measured_keep(
    coords: Seq<u64>,
    measure: spec_fn(Vertex, Vertex, Vertex) -> u64,
    tol2: u64,
) -> Seq<bool> {
    run(start_state(coords.len() as int / 2), measured_splits(coords, measure, tol2)).keep
}

/// Advancing by what the segment on top is measured to leads to the same end.
pub proof fn advancing_by_the_measure_keeps_the_end(
    st: SimplifyState,
    coords: Seq<u64>,
    measure: spec_fn(Vertex, Vertex, Vertex) -> u64,
    tol2: u64,
)
    requires
        state_valid(st),
        st.stack.len() > 0,
    ensures
        ({
            let (s, e) = st.stack.last();
            let at = match split_position(distances(coords, measure, s, e), tol2) {
                Some(j) => Some(s + 1 + j),
                None => None,
            };
            run(step(st, at), measured_splits(coords, measure, tol2)) == run(
                st,
                measured_splits(coords, measure, tol2),
            )
        }),
{
    lemma_measured_splits_are_inside(coords, measure, tol2);
    assert(st.stack[st.stack.len() - 1] == st.stack.last());
}

/// What a simplification leaves of a line that measures with `measure`.
pub open spec fn simplified_line(
    coords: Seq<u64>,
    measure: spec_fn(Vertex, Vertex, Vertex) -> u64,
    tol: u64,
    tol2: u64,
    min_pts: int,
) -> Seq<u64> {
    if left_alone(coords.len() as int / 2, tol, min_pts) {
        coords
    } else {
        simplified(coords, measured_keep(coords, measure, tol2), min_pts)
    }
}

proof fn lemma_measured_splits_are_inside(
    coords: Seq<u64>,
    measure: spec_fn(Vertex, Vertex, Vertex) -> u64,
    tol2: u64,
)
    ensures
        splits_inside(measured_splits(coords, measure, tol2)),
{
    let split = measured_splits(coords, measure, tol2);
    assert forall|s: int, e: int| (#[trigger] split(s, e)) matches Some(m) ==> s < m < e by {
        if s + 1 < e {
            let d2 = distances(coords, measure, s, e);
            if let Some(j) = split_position(d2, tol2) {
                assert(is_farthest(d2, j));
            }
        }
    }
}

proof fn lemma_retained_lie_between(
    split: spec_fn(int, int) -> Option<int>,
    s: int,
    e: int,
    i: int,
)
    requires
        retained(split, s, e).contains(i),
    ensures
        s < i < e,
    decreases e - s,
{
    if let Some(m) = split(s, e) {
        if s < m < e && i != m {
            if retained(split, s, m).contains(i) {
                lemma_retained_lie_between(split, s, m, i);
            } else {
                lemma_retained_lie_between(split, m, e, i);
            }
        }
    }
}

/// What stays of a segment that is split at `m` is what stays of its two parts,
/// on either side of `m`.
proof fn lemma_retained_on_either_side(
    split: spec_fn(int, int) -> Option<int>,
    s: int,
    e: int,
    m: int,
    i: int,
)
    requires
        split(s, e) == Some(m),
        s < m < e,
    ensures
        i < m ==> (retained(split, s, e).contains(i) <==> retained(split, s, m).contains(i)),
        i > m ==> (retained(split, s, e).contains(i) <==> retained(split, m, e).contains(i)),
        retained(split, s, e).contains(m),
{
    if retained(split, s, m).contains(i) {
        lemma_retained_lie_between(split, s, m, i);
    }
    if retained(split, m, e).contains(i) {
        lemma_retained_lie_between(split, m, e, i);
    }
}

/// The segment between two neighbours among the vertices that stay was not split.
proof fn lemma_neighbours_are_not_split(
    split: spec_fn(int, int) -> Option<int>,
    from: int,
    to: int,
    s: int,
    e: int,
)
    requires
        splits_inside(split),
        from <= s < e <= to,
        s + 1 < e,
        s == from || retained(split, from, to).contains(s),
        e == to || retained(split, from, to).contains(e),
        forall|k: int| s < k < e ==> !#[trigger] retained(split, from, to).contains(k),
    ensures
        split(s, e) is None,
    decreases to - from,
{
    match split(from, to) {
        Some(m) => {
            lemma_retained_on_either_side(split, from, to, m, s);
            lemma_retained_on_either_side(split, from, to, m, e);
            if e <= m {
                assert forall|k: int| s < k < e implies !#[trigger] retained(
                    split,
                    from,
                    m,
                ).contains(k) by {
                    lemma_retained_on_either_side(split, from, to, m, k);
                    assert(!retained(split, from, to).contains(k));
                }
                lemma_neighbours_are_not_split(split, from, m, s, e);
            } else {
                assert(!(s < m));
                assert forall|k: int| s < k < e implies !#[trigger] retained(
                    split,
                    m,
                    to,
                ).contains(k) by {
                    lemma_retained_on_either_side(split, from, to, m, k);
                    assert(!retained(split, from, to).contains(k));
                }
                lemma_neighbours_are_not_split(split, m, to, s, e);
            }
        },
        None => {},
    }
}

/// Every vertex that a simplification drops lies within the tolerance of the
/// segment between the kept vertices on either side of it.
pub proof fn dropped_vertices_lie_near_their_kept_neighbours(
    coords: Seq<u64>,
    measure: spec_fn(Vertex, Vertex, Vertex) -> u64,
    tol2: u64,
    s: int,
    i: int,
    e: int,
)
    requires
        ieee::number_le(0, tol2),
        0 <= s < i < e < coords.len() as int / 2,
        measured_keep(coords, measure, tol2)[s],
        measured_keep(coords, measure, tol2)[e],
        forall|k: int| s < k < e ==> !#[trigger] measured_keep(coords, measure, tol2)[k],
    ensures
        !ieee::number_lt(tol2, measure(vertex(coords, i), vertex(coords, s), vertex(coords, e))),
{
    let n = coords.len() as int / 2;
    let split = measured_splits(coords, measure, tol2);
    let keep = measured_keep(coords, measure, tol2);
    lemma_measured_splits_are_inside(coords, measure, tol2);
    simplification_splits_recursively(n, split, s);
    simplification_splits_recursively(n, split, e);
    assert forall|k: int| s < k < e implies !#[trigger] retained(split, 0, n - 1).contains(k) by {
        simplification_splits_recursively(n, split, k);
        assert(!keep[k]);
    }
    lemma_neighbours_are_not_split(split, 0, n - 1, s, e);
    let d2 = distances(coords, measure, s, e);
    assert(split(s, e) is None);
    assert(split_position(d2, tol2) is None);
    dropped_vertices_lie_within_the_tolerance(d2, tol2, i - s - 1);
    assert(d2[i - s - 1] == measure(vertex(coords, i), vertex(coords, s), vertex(coords, e)));
}

/// The positions of those of the first `k` vertices that are kept.
spec fn kept_positions(keep: Seq<bool>, k: int) -> Seq<int>
    decreases k,
{
    if k <= 0 {
        Seq::empty()
    } else if keep[k - 1] {
        kept_positions(keep, k - 1).push(k - 1)
    } else {
        kept_positions(keep, k - 1)
    }
}

/// `pos` lists positions in ascending order, and the vertices of `r` are those of
/// `coords` at these positions.
spec fn picks_out(coords: Seq<u64>, r: Seq<u64>, pos: Seq<int>) -> bool {
    &&& forall|a: int, b: int| 0 <= a < b < pos.len() ==> #[trigger] pos[a] < #[trigger] pos[b]
    &&& r.len() == 2 * pos.len()
    &&& forall|q: int|
        0 <= q < pos.len() ==> vertex(r, q) == vertex(coords, #[trigger] pos[q])
}

proof fn lemma_kept_positions(coords: Seq<u64>, keep: Seq<bool>, k: int)
    requires
        0 <= k <= keep.len(),
    ensures
        picks_out(coords, picked(coords, keep, k), kept_positions(keep, k)),
        kept_positions(keep, k).len() == kept_count(keep, k),
        forall|q: int|
            0 <= q < kept_positions(keep, k).len() ==> 0 <= #[trigger] kept_positions(keep, k)[q]
                < k,
        forall|i: int|
            0 <= i < k ==> (#[trigger] kept_positions(keep, k).contains(i) <==> keep[i]),
    decreases k,
{
    if k > 0 {
        lemma_kept_positions(coords, keep, k - 1);
        let before = kept_positions(keep, k - 1);
        let pos = kept_positions(keep, k);
        let r_before = picked(coords, keep, k - 1);
        let r = picked(coords, keep, k);
        if keep[k - 1] {
            assert forall|q: int| 0 <= q < pos.len() implies vertex(r, q) == vertex(
                coords,
                #[trigger] pos[q],
            ) by {
                if q < before.len() {
                    assert(vertex(r_before, q) == vertex(coords, before[q]));
                }
            }
        }
        assert forall|i: int| 0 <= i < k implies (#[trigger] pos.contains(i) <==> keep[i]) by {
            if i < k - 1 {
                assert(before.contains(i) <==> keep[i]);
                if before.contains(i) {
                    let q = choose|q: int| 0 <= q < before.len() && before[q] == i;
                    assert(pos[q] == i);
                }
                if pos.contains(i) {
                    let q = choose|q: int| 0 <= q < pos.len() && pos[q] == i;
                    assert(before[q] == i);
                }
            } else {
                if keep[i] {
                    assert(pos[before.len() as int] == i);
                }
                if pos.contains(i) && !keep[i] {
                    let q = choose|q: int| 0 <= q < pos.len() && pos[q] == i;
                    assert(before[q] < k - 1);
                }
            }
        }
    }
}

/// Among the kept vertices alone a segment is split at the same vertex.
proof fn lemma_same_split(
    coords: Seq<u64>,
    r: Seq<u64>,
    pos: Seq<int>,
    measure: spec_fn(Vertex, Vertex, Vertex) -> u64,
    tol2: u64,
    a: int,
    q: int,
    b: int,
)
    requires
        picks_out(coords, r, pos),
        0 <= a < q < b < pos.len(),
        measured_splits(coords, measure, tol2)(pos[a], pos[b]) == Some(pos[q]),
    ensures
        measured_splits(r, measure, tol2)(a, b) == Some(q),
{
    let d = distances(coords, measure, pos[a], pos[b]);
    let e = distances(r, measure, a, b);
    let j = pos[q] - pos[a] - 1;
    assert(pos[a] < pos[q] && pos[q] < pos[b]);
    assert(split_position(d, tol2) == Some(j));
    assert(is_farthest(d, j) && ieee::number_lt(tol2, d[j]));
    assert forall|k: int| 0 <= k < e.len() implies pos[a] < pos[a + 1 + k] < pos[b]
        && #[trigger] e[k] == d[pos[a + 1 + k] - pos[a] - 1] by {
        assert(pos[a] < pos[a + 1 + k]);
        assert(pos[a + 1 + k] < pos[b]);
        assert(vertex(r, a + 1 + k) == vertex(coords, pos[a + 1 + k]));
        assert(vertex(r, a) == vertex(coords, pos[a]));
        assert(vertex(r, b) == vertex(coords, pos[b]));
    }
    let at = q - a - 1;
    assert(e[at] == d[j]);
    assert forall|k: int| 0 <= k < at implies !ieee::number_le(e[at], #[trigger] e[k]) by {
        assert(pos[a + 1 + k] < pos[q]);
        assert(!ieee::number_le(d[j], d[pos[a + 1 + k] - pos[a] - 1]));
    }
    assert forall|k: int| at < k < e.len() implies !ieee::number_lt(e[at], #[trigger] e[k]) by {
        assert(pos[q] < pos[a + 1 + k]);
        assert(!ieee::number_lt(d[j], d[pos[a + 1 + k] - pos[a] - 1]));
    }
    assert(is_farthest(e, at) && ieee::number_lt(tol2, e[at]));
    let found = split_position(e, tol2)->0;
    lemma_one_farthest(e, found, at);
}

/// Among the kept vertices alone every one stays.
proof fn lemma_kept_vertices_stay(
    coords: Seq<u64>,
    r: Seq<u64>,
    pos: Seq<int>,
    measure: spec_fn(Vertex, Vertex, Vertex) -> u64,
    tol2: u64,
    a: int,
    b: int,
)
    requires
        picks_out(coords, r, pos),
        0 <= a < b < pos.len(),
        forall|i: int|
            pos[a] < i < pos[b] ==> (#[trigger] pos.contains(i) <==> retained(
                measured_splits(coords, measure, tol2),
                pos[a],
                pos[b],
            ).contains(i)),
    ensures
        forall|q: int|
            a < q < b ==> #[trigger] retained(measured_splits(r, measure, tol2), a, b).contains(q),
    decreases b - a,
{
    let split = measured_splits(coords, measure, tol2);
    let again = measured_splits(r, measure, tol2);
    lemma_measured_splits_are_inside(coords, measure, tol2);
    if a + 1 < b {
        assert(pos[a] < pos[a + 1] && pos[a + 1] < pos[b]);
        assert(pos.contains(pos[a + 1]));
        assert(retained(split, pos[a], pos[b]).contains(pos[a + 1]));
        assert(split(pos[a], pos[b]) is Some);
        let m = split(pos[a], pos[b])->0;
        lemma_retained_on_either_side(split, pos[a], pos[b], m, m);
        assert(pos.contains(m));
        let q = choose|q: int| 0 <= q < pos.len() && pos[q] == m;
        if q <= a {
            assert(pos[q] <= pos[a]);
        }
        if q >= b {
            assert(pos[q] >= pos[b]);
        }
        assert forall|i: int| pos[a] < i < pos[q] implies (#[trigger] pos.contains(i) <==> retained(
            split,
            pos[a],
            pos[q],
        ).contains(i)) by {
            lemma_retained_on_either_side(split, pos[a], pos[b], m, i);
            assert(pos[a] < i < pos[b]);
        }
        assert forall|i: int| pos[q] < i < pos[b] implies (#[trigger] pos.contains(i) <==> retained(
            split,
            pos[q],
            pos[b],
        ).contains(i)) by {
            lemma_retained_on_either_side(split, pos[a], pos[b], m, i);
            assert(pos[a] < i < pos[b]);
        }
        lemma_kept_vertices_stay(coords, r, pos, measure, tol2, a, q);
        lemma_kept_vertices_stay(coords, r, pos, measure, tol2, q, b);
        lemma_same_split(coords, r, pos, measure, tol2, a, q, b);
        assert forall|x: int| a < x < b implies #[trigger] retained(again, a, b).contains(x) by {
            lemma_retained_on_either_side(again, a, b, q, x);
            if x < q {
                assert(retained(again, a, q).contains(x));
            } else if x > q {
                assert(retained(again, q, b).contains(x));
            }
        }
    }
}

/// A line of which every vertex is kept stays as it is.
proof fn lemma_all_picked(r: Seq<u64>, keep: Seq<bool>, k: int)
    requires
        0 <= k <= keep.len(),
        r.len() == 2 * keep.len(),
        forall|q: int| 0 <= q < k ==> #[trigger] keep[q],
    ensures
        picked(r, keep, k) == r.take(2 * k),
        kept_count(keep, k) == k,
    decreases k,
{
    if k > 0 {
        lemma_all_picked(r, keep, k - 1);
        assert(picked(r, keep, k) =~= r.take(2 * k));
    } else {
        assert(picked(r, keep, k) =~= r.take(2 * k));
    }
}

/// Simplifying a simplified line again, by the same measure, changes nothing.
pub proof fn simplifying_twice_changes_nothing(
    coords: Seq<u64>,
    measure: spec_fn(Vertex, Vertex, Vertex) -> u64,
    tol: u64,
    tol2: u64,
    min_pts: int,
)
    requires
        min_pts >= 0,
    ensures
        simplified_line(
            simplified_line(coords, measure, tol, tol2, min_pts),
            measure,
            tol,
            tol2,
            min_pts,
        ) == simplified_line(coords, measure, tol, tol2, min_pts),
{
    let n = coords.len() as int / 2;
    let split = measured_splits(coords, measure, tol2);
    let keep = measured_keep(coords, measure, tol2);
    let r = simplified_line(coords, measure, tol, tol2, min_pts);
    lemma_measured_splits_are_inside(coords, measure, tol2);
    if !left_alone(n, tol, min_pts) && kept_count(keep, keep.len() as int) >= min_pts {
        simplification_splits_recursively(n, split, 0);
        simplification_splits_recursively(n, split, n - 1);
        let pos = kept_positions(keep, n);
        let m = pos.len() as int;
        lemma_kept_positions(coords, keep, n);
        assert(r == picked(coords, keep, n));
        assert(pos.contains(0) && pos.contains(n - 1));
        let first = choose|q: int| 0 <= q < pos.len() && pos[q] == 0;
        let last = choose|q: int| 0 <= q < pos.len() && pos[q] == n - 1;
        if first > 0 {
            assert(pos[0] < pos[first]);
        }
        if last < m - 1 {
            assert(pos[last] < pos[m - 1]);
        }
        assert(r.len() as int / 2 == m);
        if !left_alone(m, tol, min_pts) {
            let again = measured_splits(r, measure, tol2);
            let kept = measured_keep(r, measure, tol2);
            lemma_measured_splits_are_inside(r, measure, tol2);
            assert forall|i: int| pos[0] < i < pos[m - 1] implies (#[trigger] pos.contains(i)
                <==> retained(split, pos[0], pos[m - 1]).contains(i)) by {
                simplification_splits_recursively(n, split, i);
            }
            if m >= 2 {
                lemma_kept_vertices_stay(coords, r, pos, measure, tol2, 0, m - 1);
            }
            simplification_splits_recursively(m, again, 0);
            assert forall|q: int| 0 <= q < m implies #[trigger] kept[q] by {
                simplification_splits_recursively(m, again, q);
                if 0 < q < m - 1 {
                    assert(retained(again, 0, m - 1).contains(q));
                }
            }
            lemma_all_picked(r, kept, m);
            assert(r.take(2 * m) =~= r);
        }
    }
}

/// `measure` is what `m` returns.
pub open spec fn computes<M: Fn(Vertex, Vertex, Vertex) -> u64>(
    m: M,
    measure: spec_fn(Vertex, Vertex, Vertex) -> u64,
) -> bool {
    forall|p: Vertex, a: Vertex, b: Vertex, d: u64| #[trigger]
        call_ensures(m, (p, a, b), d) ==> d == measure(p, a, b)
}

/// Marks of which vertices of a line are kept, its two ends among them.
pub open spec fn keeps_the_ends(keep: Seq<bool>, n: int) -> bool {
    n >= 1 && keep.len() == n && keep[0] && keep[n - 1]
}

fn vertex_at(coords: &[u64], i: usize) -> (r: Vertex)
    requires
        i < coords@.len() / 2,
    ensures
        r == vertex(coords@, i as int),
{
    assert(2 * i + 1 < coords.len());
    (coords[2 * i], coords[2 * i + 1])
}

/// What the vertices between the ends of a segment are measured to.
fn measure_segment<M: Fn(Vertex, Vertex, Vertex) -> u64>(
    coords: &[u64],
    s: usize,
    e: usize,
    m: &M,
) -> (d2: Vec<u64>)
    requires
        s + 1 < e < coords@.len() / 2,
        forall|p: Vertex, a: Vertex, b: Vertex| call_requires(*m, (p, a, b)),
    ensures
        d2@.len() == e - s - 1,
        forall|k: int|
            0 <= k < d2@.len() ==> call_ensures(
                *m,
                (vertex(coords@, s + 1 + k), vertex(coords@, s as int), vertex(coords@, e as int)),
                #[trigger] d2@[k],
            ),
{
    let a: Vertex = vertex_at(coords, s);
    let b: Vertex = vertex_at(coords, e);
    let mut d2: Vec<u64> = Vec::new();
    let mut i: usize = s + 1;
    while i < e
        invariant
            s + 1 <= i <= e < coords@.len() / 2,
            a == vertex(coords@, s as int),
            b == vertex(coords@, e as int),
            d2@.len() == i - s - 1,
            forall|p: Vertex, a: Vertex, b: Vertex| call_requires(*m, (p, a, b)),
            forall|k: int|
                0 <= k < d2@.len() ==> call_ensures(
                    *m,
                    (vertex(coords@, s + 1 + k), a, b),
                    #[trigger] d2@[k],
                ),
        decreases e - i,
    {
        let d: u64 = m(vertex_at(coords, i), a, b);
        d2.push(d);
        i = i + 1;
    }
    d2
}

/// Douglas-Peucker simplification of an interleaved line `[x0, y0, ...]`: drops
/// vertices within the tolerance of the line that is left. The two ends are always
/// kept, so a closed ring stays closed, and a line that would have fewer than
/// `min_pts` vertices left stays as it is. `m` measures the squared distance of a
/// vertex from the segment between two others, and `tol2` is the squared tolerance.
pub fn simplify_coords<M: Fn(Vertex, Vertex, Vertex) -> u64>(
    coords: &[u64],
    tol: u64,
    tol2: u64,
    min_pts: usize,
    m: M,
) -> (r: Vec<u64>)
    requires
        forall|p: Vertex, a: Vertex, b: Vertex| call_requires(m, (p, a, b)),
    ensures
        left_alone(coords@.len() as int / 2, tol, min_pts as int) ==> r@ == coords@,
        !left_alone(coords@.len() as int / 2, tol, min_pts as int) ==> exists|keep: Seq<bool>|
            keeps_the_ends(keep, coords@.len() as int / 2) && r@ == #[trigger] simplified(
                coords@,
                keep,
                min_pts as int,
            ),
        forall|measure: spec_fn(Vertex, Vertex, Vertex) -> u64| #[trigger]
            computes(m, measure) ==> r@ == simplified_line(
                coords@,
                measure,
                tol,
                tol2,
                min_pts as int,
            ),
{
    let n: usize = coords.len() / 2;
    let mut simplifier = Simplifier::new(n, tol, min_pts);
    let mut next: Option<(usize, usize)> = simplifier.segment();
    while next.is_some()
        invariant
            n == coords@.len() / 2,
            match next {
                Some((s, e)) => simplifier.state().stack.len() > 0
                    && simplifier.state().stack.last() == (s as int, e as int) && s + 1 < e
                    < simplifier.state().keep.len(),
                None => simplifier.state().stack.len() == 0,
            },
            forall|p: Vertex, a: Vertex, b: Vertex| call_requires(m, (p, a, b)),
            simplifier.valid(),
            simplifier.least() == min_pts,
            simplifier.untouched() == left_alone(n as int, tol, min_pts as int),
            simplifier.state().keep.len() == n,
            simplifier.untouched() ==> simplifier.state().stack.len() == 0,
            !simplifier.untouched() ==> {
                &&& keeps_the_ends(simplifier.state().keep, n as int)
                &&& forall|measure: spec_fn(Vertex, Vertex, Vertex) -> u64| #[trigger]
                    computes(m, measure) ==> run(
                        simplifier.state(),
                        measured_splits(coords@, measure, tol2),
                    ) == run(start_state(n as int), measured_splits(coords@, measure, tol2))
            },
        decreases work(simplifier.state().stack),
    {
        let (s, e) = next.unwrap();
        let ghost st = simplifier.state();
        let d2 = measure_segment(coords, s, e, &m);
        simplifier.advance(d2.as_slice(), tol2);
        proof {
            assert forall|measure: spec_fn(Vertex, Vertex, Vertex) -> u64| #[trigger]
                computes(m, measure) implies run(
                simplifier.state(),
                measured_splits(coords@, measure, tol2),
            ) == run(start_state(n as int), measured_splits(coords@, measure, tol2)) by {
                assert(d2@ =~= distances(coords@, measure, s as int, e as int));
                advancing_by_the_measure_keeps_the_end(st, coords@, measure, tol2);
            }
        }
        next = simplifier.segment();
    }
    let r = simplifier.finish(coords);
    proof {
        let end = simplifier.state();
        if !simplifier.untouched() {
            assert(keeps_the_ends(end.keep, n as int));
            assert(r@ == simplified(coords@, end.keep, min_pts as int));
            assert forall|measure: spec_fn(Vertex, Vertex, Vertex) -> u64| #[trigger]
                computes(m, measure) implies r@ == simplified_line(
                coords@,
                measure,
                tol,
                tol2,
                min_pts as int,
            ) by {
                lemma_measured_splits_are_inside(coords@, measure, tol2);
                assert(run(end, measured_splits(coords@, measure, tol2)) == end);
            }
        }
    }
    r
}

/// A segment is split at the first of its farthest vertices, if that is farther
/// than the tolerance, and is not split if no vertex is.
pub proof fn a_segment_is_split_at_its_farthest_vertex(d2: Seq<u64>, tol2: u64, j: int)
    ensures
        0 <= j < d2.len() && ieee::number_lt(0, d2[j]) && ieee::number_lt(tol2, d2[j]) && (forall|
            i: int,
        |
            0 <= i < j ==> !ieee::number_le(d2[j], #[trigger] d2[i])) && (forall|i: int|
            j < i < d2.len() ==> !ieee::number_lt(d2[j], #[trigger] d2[i])) ==> split_position(
            d2,
            tol2,
        ) == Some(j),
        (forall|i: int| 0 <= i < d2.len() ==> !ieee::number_lt(tol2, #[trigger] d2[i]))
            ==> split_position(d2, tol2) is None,
{
    if 0 <= j < d2.len() && ieee::number_lt(0, d2[j]) && ieee::number_lt(tol2, d2[j]) && (forall|
        i: int,
    |
        0 <= i < j ==> !ieee::number_le(d2[j], #[trigger] d2[i])) && (forall|i: int|
        j < i < d2.len() ==> !ieee::number_lt(d2[j], #[trigger] d2[i])) {
        assert(is_farthest(d2, j));
        lemma_one_farthest(d2, split_position(d2, tol2)->0, j);
    }
}

proof fn lemma_only_the_ends(coords: Seq<u64>, keep: Seq<bool>, k: int)
    requires
        1 <= k < keep.len(),
        keep[0],
        forall|i: int| 0 < i < keep.len() - 1 ==> !#[trigger] keep[i],
    ensures
        picked(coords, keep, k) == seq![coords[0], coords[1]],
        kept_count(keep, k) == 1,
    decreases k,
{
    reveal_with_fuel(picked, 2);
    reveal_with_fuel(kept_count, 2);
    if k > 1 {
        lemma_only_the_ends(coords, keep, k - 1);
        assert(!keep[k - 1]);
    } else {
        assert(picked(coords, keep, 1) =~= seq![coords[0], coords[1]]);
    }
}

/// With a tolerance that is not at most zero a line of more than `min_pts` vertices is
/// simplified: where no vertex is measured farther than the tolerance from the
/// segment between the ends, the two ends alone are left.
pub proof fn a_line_within_the_tolerance_becomes_a_segment(
    coords: Seq<u64>,
    measure: spec_fn(Vertex, Vertex, Vertex) -> u64,
    tol: u64,
    tol2: u64,
    min_pts: int,
)
    requires
        tol != 0,
        !(0x8000_0000_0000_0000 <= tol <= 0xfff0_0000_0000_0000),
        0 <= min_pts <= 2,
        coords.len() as int / 2 >= 2,
        coords.len() as int / 2 > min_pts,
        forall|i: int|
            0 < i < coords.len() as int / 2 - 1 ==> !ieee::number_lt(
                tol2,
                measure(
                    (#[trigger] coords[2 * i], coords[2 * i + 1]),
                    (coords[0], coords[1]),
                    (
                        coords[2 * (coords.len() as int / 2 - 1)],
                        coords[2 * (coords.len() as int / 2 - 1) + 1],
                    ),
                ),
            ),
    ensures
        ({
            let last = coords.len() as int / 2 - 1;
            simplified_line(coords, measure, tol, tol2, min_pts) == seq![
                coords[0],
                coords[1],
                coords[2 * last],
                coords[2 * last + 1],
            ]
        }),
{
    let n = coords.len() as int / 2;
    let split = measured_splits(coords, measure, tol2);
    let keep = measured_keep(coords, measure, tol2);
    ieee::numbers_are_ordered_by_their_bits(tol, 0);
    lemma_measured_splits_are_inside(coords, measure, tol2);
    let d2 = distances(coords, measure, 0, n - 1);
    if n > 2 {
        assert forall|i: int| 0 <= i < d2.len() implies !ieee::number_lt(
            tol2,
            #[trigger] d2[i],
        ) by {
            assert(coords[2 * (i + 1)] == vertex(coords, i + 1).0);
        }
        a_segment_is_split_at_its_farthest_vertex(d2, tol2, 0);
    }
    assert(split(0, n - 1) is None);
    simplification_splits_recursively(n, split, 0);
    simplification_splits_recursively(n, split, n - 1);
    assert forall|i: int| 0 < i < keep.len() - 1 implies !#[trigger] keep[i] by {
        simplification_splits_recursively(n, split, i);
    }
    lemma_only_the_ends(coords, keep, n - 1);
    assert(simplified_line(coords, measure, tol, tol2, min_pts) =~= seq![
        coords[0],
        coords[1],
        coords[2 * (n - 1)],
        coords[2 * (n - 1) + 1],
    ]);
}

/// `b` splits the segments of a part of a line as `a` splits them in the line, in
/// which the part begins at vertex `d`.
spec fn splits_agree(
    a: spec_fn(int, int) -> Option<int>,
    b: spec_fn(int, int) -> Option<int>,
    d: int,
    len: int,
) -> bool {
    forall|s: int, e: int|
        0 <= s < e < len ==> match #[trigger] b(s, e) {
            Some(x) => a(s + d, e + d) == Some(x + d),
            None => a(s + d, e + d) is None,
        }
}

proof fn lemma_retained_of_a_part(
    a: spec_fn(int, int) -> Option<int>,
    b: spec_fn(int, int) -> Option<int>,
    d: int,
    len: int,
    s: int,
    e: int,
    i: int,
)
    requires
        splits_agree(a, b, d, len),
        0 <= s <= e < len,
    ensures
        retained(b, s, e).contains(i) <==> retained(a, s + d, e + d).contains(i + d),
    decreases e - s,
{
    if s + 1 < e {
        match b(s, e) {
            Some(m) => {
                assert(a(s + d, e + d) == Some(m + d));
                if s < m < e {
                    lemma_retained_of_a_part(a, b, d, len, s, m, i);
                    lemma_retained_of_a_part(a, b, d, len, m, e, i);
                }
            },
            None => {
                assert(a(s + d, e + d) is None);
            },
        }
    }
}

/// A part of a line is split as it is in the line.
proof fn lemma_part_splits_as_in_the_line(
    coords: Seq<u64>,
    part: Seq<u64>,
    measure: spec_fn(Vertex, Vertex, Vertex) -> u64,
    tol2: u64,
    d: int,
    len: int,
)
    requires
        forall|i: int| 0 <= i < len ==> #[trigger] vertex(part, i) == vertex(coords, i + d),
    ensures
        splits_agree(
            measured_splits(coords, measure, tol2),
            measured_splits(part, measure, tol2),
            d,
            len,
        ),
{
    let a = measured_splits(coords, measure, tol2);
    let b = measured_splits(part, measure, tol2);
    assert forall|s: int, e: int| 0 <= s < e < len implies match #[trigger] b(s, e) {
        Some(x) => a(s + d, e + d) == Some(x + d),
        None => a(s + d, e + d) is None,
    } by {
        if s + 1 < e {
            let x = distances(part, measure, s, e);
            let y = distances(coords, measure, s + d, e + d);
            assert(vertex(part, s) == vertex(coords, s + d));
            assert(vertex(part, e) == vertex(coords, e + d));
            assert forall|k: int| 0 <= k < x.len() implies x[k] == y[k] by {
                assert(vertex(part, s + 1 + k) == vertex(coords, s + 1 + k + d));
            }
            assert(x =~= y);
        }
    }
}

proof fn lemma_picked_of_a_part(
    coords: Seq<u64>,
    keep: Seq<bool>,
    part: Seq<u64>,
    kept: Seq<bool>,
    d: int,
    k: int,
)
    requires
        0 <= d,
        0 <= k <= kept.len(),
        d + kept.len() <= keep.len(),
        2 * kept.len() <= part.len(),
        forall|i: int| 0 <= i < kept.len() ==> #[trigger] vertex(part, i) == vertex(coords, i + d),
        forall|i: int| 0 <= i < kept.len() ==> #[trigger] kept[i] == keep[i + d],
    ensures
        picked(coords, keep, d + k) == picked(coords, keep, d) + picked(part, kept, k),
    decreases k,
{
    if k > 0 {
        lemma_picked_of_a_part(coords, keep, part, kept, d, k - 1);
        assert(vertex(part, k - 1) == vertex(coords, k - 1 + d));
        assert(kept[k - 1] == keep[k - 1 + d]);
        assert(picked(coords, keep, d + k) =~= picked(coords, keep, d) + picked(part, kept, k));
    } else {
        assert(picked(coords, keep, d + k) =~= picked(coords, keep, d) + picked(part, kept, k));
    }
}

/// With a tolerance that is not at most zero, and where no vertices are held back, a line
/// whose farthest vertex `m` is farther than the tolerance is simplified in two
/// parts, up to `m` and from `m` on, which are joined there.
pub proof fn a_line_is_simplified_in_two_parts(
    coords: Seq<u64>,
    measure: spec_fn(Vertex, Vertex, Vertex) -> u64,
    tol: u64,
    tol2: u64,
    m: int,
)
    requires
        tol != 0,
        !(0x8000_0000_0000_0000 <= tol <= 0xfff0_0000_0000_0000),
        0 < m < coords.len() as int / 2 - 1,
        ({
            let last = coords.len() as int / 2 - 1;
            let far = |i: int|
                measure(
                    (coords[2 * i], coords[2 * i + 1]),
                    (coords[0], coords[1]),
                    (coords[2 * last], coords[2 * last + 1]),
                );
            &&& ieee::number_lt(0, far(m))
            &&& ieee::number_lt(tol2, far(m))
            &&& forall|i: int| 0 < i < m ==> !ieee::number_le(far(m), #[trigger] far(i))
            &&& forall|i: int| m < i < last ==> !ieee::number_lt(far(m), #[trigger] far(i))
        }),
    ensures
        simplified_line(coords, measure, tol, tol2, 0) == simplified_line(
            coords.take(2 * m + 2),
            measure,
            tol,
            tol2,
            0,
        ) + simplified_line(coords.skip(2 * m), measure, tol, tol2, 0).skip(2),
{
    let n = coords.len() as int / 2;
    let front = coords.take(2 * m + 2);
    let back = coords.skip(2 * m);
    let split = measured_splits(coords, measure, tol2);
    let keep = measured_keep(coords, measure, tol2);
    let keep1 = measured_keep(front, measure, tol2);
    let keep2 = measured_keep(back, measure, tol2);
    let split1 = measured_splits(front, measure, tol2);
    let split2 = measured_splits(back, measure, tol2);
    let far = |i: int|
        measure(
            (coords[2 * i], coords[2 * i + 1]),
            (coords[0], coords[1]),
            (coords[2 * (n - 1)], coords[2 * (n - 1) + 1]),
        );
    ieee::numbers_are_ordered_by_their_bits(tol, 0);
    lemma_measured_splits_are_inside(coords, measure, tol2);
    lemma_measured_splits_are_inside(front, measure, tol2);
    lemma_measured_splits_are_inside(back, measure, tol2);
    assert(split(0, n - 1) == Some(m)) by {
        let d2 = distances(coords, measure, 0, n - 1);
        assert forall|i: int| 0 <= i < d2.len() implies #[trigger] d2[i] == far(i + 1) by {}
        assert forall|i: int| 0 <= i < m - 1 implies !ieee::number_le(
            d2[m - 1],
            #[trigger] d2[i],
        ) by {
            assert(!ieee::number_le(far(m), far(i + 1)));
        }
        assert forall|i: int| m - 1 < i < d2.len() implies !ieee::number_lt(
            d2[m - 1],
            #[trigger] d2[i],
        ) by {
            assert(!ieee::number_lt(far(m), far(i + 1)));
        }
        a_segment_is_split_at_its_farthest_vertex(d2, tol2, m - 1);
    }
    assert forall|i: int| 0 <= i < m + 1 implies #[trigger] vertex(front, i) == vertex(
        coords,
        i + 0,
    ) by {}
    assert forall|i: int| 0 <= i < n - m implies #[trigger] vertex(back, i) == vertex(
        coords,
        i + m,
    ) by {}
    lemma_part_splits_as_in_the_line(coords, front, measure, tol2, 0, m + 1);
    lemma_part_splits_as_in_the_line(coords, back, measure, tol2, m, n - m);
    assert(front.len() as int / 2 == m + 1);
    assert(back.len() as int / 2 == n - m);
    simplification_splits_recursively(n, split, 0);
    simplification_splits_recursively(m + 1, split1, 0);
    simplification_splits_recursively(n - m, split2, 0);
    assert forall|i: int| 0 <= i < m + 1 implies #[trigger] keep1[i] == keep[i + 0] by {
        simplification_splits_recursively(n, split, i);
        simplification_splits_recursively(m + 1, split1, i);
        lemma_retained_on_either_side(split, 0, n - 1, m, i);
        lemma_retained_of_a_part(split, split1, 0, m + 1, 0, m, i);
    }
    assert forall|i: int| 0 <= i < n - m implies #[trigger] keep2[i] == keep[i + m] by {
        simplification_splits_recursively(n, split, i + m);
        simplification_splits_recursively(n - m, split2, i);
        lemma_retained_on_either_side(split, 0, n - 1, m, i + m);
        lemma_retained_of_a_part(split, split2, m, n - m, 0, n - m - 1, i);
    }
    assert(keep[m]) by {
        assert(keep1[m] == keep[m + 0]);
        simplification_splits_recursively(m + 1, split1, m);
    }
    lemma_picked_of_a_part(coords, keep, front, keep1, 0, m + 1);
    lemma_picked_of_a_part(coords, keep, back, keep2, m, n - m);
    lemma_picked_len(coords, keep, n);
    lemma_picked_len(front, keep1, m + 1);
    lemma_picked_len(back, keep2, n - m);
    lemma_first_picked(back, keep2, n - m);
    let head = picked(coords, keep, m);
    let tail = picked(back, keep2, n - m);
    assert(picked(coords, keep, 0) =~= Seq::empty());
    assert(picked(front, keep1, m + 1) =~= picked(coords, keep, m + 1));
    assert(picked(coords, keep, m + 1) == head + seq![coords[2 * m], coords[2 * m + 1]]);
    assert(tail[0] == coords[2 * m] && tail[1] == coords[2 * m + 1]);
    assert(head + tail =~= (head + seq![coords[2 * m], coords[2 * m + 1]]) + tail.skip(2));
}

/// A line stays as it is with a tolerance of at most zero and with no more than
/// `min_pts` vertices. Otherwise `min_pts` does not matter, unless fewer vertices
/// would be left: then the line stays as it is, too.
pub proof fn enough_vertices_are_left_or_all(
    coords: Seq<u64>,
    measure: spec_fn(Vertex, Vertex, Vertex) -> u64,
    tol: u64,
    tol2: u64,
    min_pts: int,
)
    requires
        min_pts >= 0,
    ensures
        tol == 0 || 0x8000_0000_0000_0000 <= tol <= 0xfff0_0000_0000_0000 ==> simplified_line(
            coords,
            measure,
            tol,
            tol2,
            min_pts,
        ) == coords,
        coords.len() as int / 2 <= min_pts ==> simplified_line(coords, measure, tol, tol2, min_pts)
            == coords,
        tol != 0 && !(0x8000_0000_0000_0000 <= tol <= 0xfff0_0000_0000_0000) && coords.len() as int
            / 2 > min_pts ==> ({
            let r = simplified_line(coords, measure, tol, tol2, 0);
            simplified_line(coords, measure, tol, tol2, min_pts) == if r.len() < 2 * min_pts {
                coords
            } else {
                r
            }
        }),
{
    let n = coords.len() as int / 2;
    ieee::numbers_are_ordered_by_their_bits(tol, 0);
    if tol != 0 && !(0x8000_0000_0000_0000 <= tol <= 0xfff0_0000_0000_0000) && n > min_pts {
        let keep = measured_keep(coords, measure, tol2);
        lemma_measured_splits_are_inside(coords, measure, tol2);
        simplification_splits_recursively(n, measured_splits(coords, measure, tol2), 0);
        lemma_picked_len(coords, keep, n);
    }
}

/// A line of one or two vertices has nothing to lose.
pub proof fn a_segment_stays(
    coords: Seq<u64>,
    measure: spec_fn(Vertex, Vertex, Vertex) -> u64,
    tol: u64,
    tol2: u64,
    min_pts: int,
)
    requires
        coords.len() == 2 || coords.len() == 4,
        min_pts >= 0,
    ensures
        simplified_line(coords, measure, tol, tol2, min_pts) == coords,
{
    let n = coords.len() as int / 2;
    if !left_alone(n, tol, min_pts) {
        let keep = measured_keep(coords, measure, tol2);
        let split = measured_splits(coords, measure, tol2);
        lemma_measured_splits_are_inside(coords, measure, tol2);
        simplification_splits_recursively(n, split, 0);
        simplification_splits_recursively(n, split, n - 1);
        lemma_all_picked(coords, keep, n);
        assert(coords.take(2 * n) =~= coords);
    }
}

/// A measuring function computes whatever every one of its calls returns.
pub proof fn a_function_computes_what_it_returns<M: Fn(Vertex, Vertex, Vertex) -> u64>(
    m: M,
    measure: spec_fn(Vertex, Vertex, Vertex) -> u64,
)
    requires
        forall|p: Vertex, a: Vertex, b: Vertex, d: u64| #[trigger]
            call_ensures(m, (p, a, b), d) ==> measure(p, a, b) == d,
    ensures
        computes(m, measure),
{
}

} // verus!

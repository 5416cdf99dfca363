//! Detection and lookup of the active intervals of a raster channel.
//!
//! A channel is given as one flag per sample: set where the sample is not
//! zero. Samples that are set and lie fewer than `WINDOW - 1` cleared samples
//! apart belong to one run; the index records one interval per run and
//! answers point and range queries by binary search.
use vstd::prelude::*;

verus! {

/// Size of the sliding window: `WINDOW - 1` cleared samples in a row separate
/// two runs.
pub const WINDOW: usize = 10;

/// No sample with an index in `lo..hi` is set. Indices outside of the array
/// count as cleared.
pub open spec fn quiet(a: Seq<bool>, lo: int, hi: int) -> bool {
    forall|k: int| lo <= k < hi && 0 <= k < a.len() ==> !#[trigger] a[k]
}

/// A run starts at `p`: the sample is set and the `WINDOW - 1` samples before
/// it, as far as the array reaches, are cleared.
pub open spec fn is_start(a: Seq<bool>, p: int) -> bool {
    0 <= p < a.len() && a[p] && quiet(a, p - (WINDOW - 1), p)
}

/// A run ends at `p`: the sample is set and the `WINDOW - 1` samples behind
/// it, as far as the array reaches, are cleared.
pub open spec fn is_end(a: Seq<bool>, p: int) -> bool {
    0 <= p < a.len() && a[p] && quiet(a, p + 1, p + WINDOW)
}

/// The index recorded for a run that ends at `p`. Where a whole window fits
/// behind `p` it is `p` itself. A run that ends within the last `WINDOW - 1`
/// samples is closed at the edge of the array: one past `p`, but never past
/// the last sample.
pub open spec fn end_mark(a: Seq<bool>, p: int) -> int {
    if p + WINDOW <= a.len() {
        p
    } else if p + 1 < a.len() {
        p + 1
    } else {
        p
    }
}

/// The places below `j` where a run starts, in ascending order.
pub open spec fn starts(a: Seq<bool>, j: int) -> Seq<int>
    decreases j,
{
    if j <= 0 {
        Seq::empty()
    } else if is_start(a, j - 1) {
        starts(a, j - 1).push(j - 1)
    } else {
        starts(a, j - 1)
    }
}

/// The places below `j` where a run ends, in ascending order.
pub open spec fn ends(a: Seq<bool>, j: int) -> Seq<int>
    decreases j,
{
    if j <= 0 {
        Seq::empty()
    } else if is_end(a, j - 1) {
        ends(a, j - 1).push(j - 1)
    } else {
        ends(a, j - 1)
    }
}

/// The intervals of the channel: the `k`-th start paired with the mark of the
/// `k`-th end.
pub open spec fn intervals(a: Seq<bool>) -> Seq<(usize, usize)> {
    Seq::new(
        starts(a, a.len() as int).len(),
        |k: int|
            (
                starts(a, a.len() as int)[k] as usize,
                end_mark(a, ends(a, a.len() as int)[k]) as usize,
            ),
    )
}

/// No run consists of a single sample whose interval would be empty: one
/// that a whole window follows, or the last sample of the array.
pub open spec fn no_lone_sample(a: Seq<bool>) -> bool {
    forall|p: int| !(#[trigger] is_start(a, p) && is_end(a, p) && end_mark(a, p) == p)
}

/// Every interval is non-empty and ends before the next one starts.
pub open spec fn separated(ev: Seq<(usize, usize)>) -> bool {
    &&& forall|k: int| 0 <= k < ev.len() ==> (#[trigger] ev[k]).0 < ev[k].1
    &&& forall|k: int| 1 <= k < ev.len() ==> ev[k - 1].1 < (#[trigger] ev[k]).0
}

/// Every interval ends below `n`.
pub open spec fn bounded(ev: Seq<(usize, usize)>, n: int) -> bool {
    forall|k: int| 0 <= k < ev.len() ==> (#[trigger] ev[k]).1 < n
}

/// The interval `e` meets the index range `i_start..i_end`.
pub open spec fn touches(e: (usize, usize), i_start: int, i_end: int) -> bool {
    i_start < e.1 && e.0 < i_end
}

/// The last set sample below `j`, or `-1` if there is none.
spec fn latest(a: Seq<bool>, j: int) -> int
    decreases j,
{
    if j <= 0 {
        -1
    } else if a[j - 1] {
        j - 1
    } else {
        latest(a, j - 1)
    }
}

proof fn lemma_latest(a: Seq<bool>, j: int)
    requires
        0 <= j <= a.len(),
    ensures
        -1 <= latest(a, j) < j,
        latest(a, j) >= 0 ==> a[latest(a, j)],
        quiet(a, latest(a, j) + 1, j),
    decreases j,
{
    if j > 0 && !a[j - 1] {
        lemma_latest(a, j - 1);
    }
}

/// The starts and ends below `j` are listed completely, and nothing else is.
spec fn listed(a: Seq<bool>, j: int) -> bool {
    let s = starts(a, j);
    let e = ends(a, j);
    &&& forall|k: int| 0 <= k < s.len() ==> 0 <= #[trigger] s[k] < j && is_start(a, s[k])
    &&& forall|k: int| 0 <= k < e.len() ==> 0 <= #[trigger] e[k] < j && is_end(a, e[k])
    &&& forall|p: int| 0 <= p < j && #[trigger] is_start(a, p) ==> s.contains(p)
    &&& forall|p: int| 0 <= p < j && #[trigger] is_end(a, p) ==> e.contains(p)
}

proof fn lemma_listed(a: Seq<bool>, j: int)
    requires
        0 <= j <= a.len(),
    ensures
        listed(a, j),
    decreases j,
{
    if j > 0 {
        let i = j - 1;
        lemma_listed(a, i);
        let s = starts(a, i);
        let e = ends(a, i);
        let s2 = starts(a, j);
        let e2 = ends(a, j);
        assert forall|p: int| 0 <= p < j && #[trigger] is_start(a, p) implies s2.contains(p) by {
            if p < i {
                let k = choose|k: int| 0 <= k < s.len() && s[k] == p;
                assert(s2[k] == p);
            } else {
                assert(s2[s2.len() - 1] == p);
            }
        }
        assert forall|p: int| 0 <= p < j && #[trigger] is_end(a, p) implies e2.contains(p) by {
            if p < i {
                let k = choose|k: int| 0 <= k < e.len() && e[k] == p;
                assert(e2[k] == p);
            } else {
                assert(e2[e2.len() - 1] == p);
            }
        }
    }
}

/// How a set sample at `i` continues the runs below it: it starts a run
/// exactly where no run is open.
proof fn lemma_step(a: Seq<bool>, i: int)
    requires
        0 <= i < a.len(),
        a[i],
    ensures
        is_start(a, i) <==> latest(a, i) < 0 || is_end(a, latest(a, i)),
{
    lemma_latest(a, i);
    let q = latest(a, i);
    if q < 0 {
        assert(is_start(a, i));
    } else if is_end(a, q) {
        // The gap behind `q` is full, so `i` lies beyond it.
        assert(i >= q + WINDOW) by {
            if i < q + WINDOW {
                assert(a[i]);
            }
        }
        assert(is_start(a, i));
    } else {
        // Some set sample lies in the gap behind `q`; it is not below `i`.
        let w = choose|k: int| q + 1 <= k < q + WINDOW && 0 <= k < a.len() && a[k];
        assert(w >= i);
        assert(!is_start(a, i)) by {
            assert(a[q]);
        }
    }
}

/// What holds of the starts and ends below `j`: they alternate, beginning
/// with a start, and a full gap lies between an end and the next start.
spec fn paired(a: Seq<bool>, j: int) -> bool {
    let s = starts(a, j);
    let e = ends(a, j);
    let q = latest(a, j);
    &&& e.len() <= s.len() <= e.len() + 1
    &&& forall|k: int| 0 <= k < e.len() ==> s[k] <= #[trigger] e[k]
    &&& forall|k: int| 1 <= k < s.len() ==> e[k - 1] + (WINDOW - 1) < #[trigger] s[k]
    &&& forall|k: int, m: int| 0 <= k < e.len() && k < m < s.len() ==> #[trigger] e[k] < #[trigger] s[m]
    &&& forall|k: int| 0 <= k < e.len() && is_end(a, s[k]) ==> #[trigger] e[k] == s[k]
    &&& q < 0 ==> s.len() == 0 && e.len() == 0
    &&& q >= 0 && is_end(a, q) ==> s.len() == e.len() && e.len() >= 1 && e.last() == q
    &&& q >= 0 && !is_end(a, q) ==> s.len() == e.len() + 1 && s.last() <= q
}

proof fn lemma_paired(a: Seq<bool>, j: int)
    requires
        0 <= j <= a.len(),
    ensures
        paired(a, j),
    decreases j,
{
    if j > 0 {
        let i = j - 1;
        lemma_paired(a, i);
        lemma_latest(a, i);
        lemma_listed(a, i);
        let s = starts(a, i);
        let e = ends(a, i);
        let q = latest(a, i);
        let s2 = starts(a, j);
        let e2 = ends(a, j);
        if a[i] {
            lemma_step(a, i);
            if is_start(a, i) {
                assert(s2 == s.push(i));
                assert(s.len() == e.len());
                if q >= 0 {
                    assert(i >= q + WINDOW) by {
                        if i < q + WINDOW {
                            assert(a[i]);
                        }
                    }
                }
            } else {
                assert(s2 == s);
                // The start of the open run is not an end.
                if is_end(a, s.last()) {
                    let m = choose|m: int| 0 <= m < e.len() && e[m] == s.last();
                    assert(e[m] < s[s.len() - 1]);
                }
            }
            if is_end(a, i) {
                assert(e2 == e.push(i));
            } else {
                assert(e2 == e);
            }
            assert(latest(a, j) == i);
        } else {
            assert(s2 == s);
            assert(e2 == e);
            assert(latest(a, j) == q);
        }
        assert(paired(a, j));
    }
}

/// Every channel has as many run starts as run ends, each start lies at or
/// before the end with the same number, and the mark of each end lies before
/// the next start.
pub proof fn lemma_starts_match_ends(a: Seq<bool>)
    ensures
        starts(a, a.len() as int).len() == ends(a, a.len() as int).len(),
        forall|k: int|
            0 <= k < ends(a, a.len() as int).len() ==> starts(a, a.len() as int)[k] <= #[trigger] ends(
                a,
                a.len() as int,
            )[k],
        forall|k: int|
            1 <= k < starts(a, a.len() as int).len() ==> end_mark(a, ends(a, a.len() as int)[k - 1])
                < #[trigger] starts(a, a.len() as int)[k],
{
    let n = a.len() as int;
    lemma_paired(a, n);
    lemma_latest(a, n);
    let q = latest(a, n);
    if q >= 0 {
        assert(is_end(a, q));
    }
}

/// The starts and ends below `i` stay in their places when the channel is
/// looked at up to `n`, and what comes behind them lies at or above `i`.
proof fn lemma_lists_grow(a: Seq<bool>, i: int, n: int)
    requires
        0 <= i <= n <= a.len(),
    ensures
        starts(a, i).len() <= starts(a, n).len(),
        forall|k: int| 0 <= k < starts(a, i).len() ==> #[trigger] starts(a, n)[k] == starts(a, i)[k],
        forall|k: int| starts(a, i).len() <= k < starts(a, n).len() ==> #[trigger] starts(a, n)[k] >= i,
        ends(a, i).len() <= ends(a, n).len(),
        forall|k: int| 0 <= k < ends(a, i).len() ==> #[trigger] ends(a, n)[k] == ends(a, i)[k],
        forall|k: int| ends(a, i).len() <= k < ends(a, n).len() ==> #[trigger] ends(a, n)[k] >= i,
    decreases n - i,
{
    if i < n {
        lemma_lists_grow(a, i, n - 1);
    }
}

/// Every set sample lies in one of the intervals of its channel: at or
/// behind a start, and at or before the end with the same number.
pub proof fn lemma_intervals_cover(a: Seq<bool>, p: int)
    requires
        0 <= p < a.len(),
        a[p],
    ensures
        exists|k: int|
            0 <= k < starts(a, a.len() as int).len() && k < ends(a, a.len() as int).len()
                && #[trigger] starts(a, a.len() as int)[k] <= p <= ends(a, a.len() as int)[k],
{
    let n = a.len() as int;
    lemma_paired(a, p + 1);
    lemma_starts_match_ends(a);
    lemma_lists_grow(a, p + 1, n);
    let m = starts(a, p + 1).len() - 1;
    assert(latest(a, p + 1) == p);
    assert(starts(a, n)[m] == starts(a, p + 1)[m]);
    if is_end(a, p) {
        assert(ends(a, n)[m] == ends(a, p + 1)[m]);
    } else {
        assert(ends(a, n)[m] >= p + 1);
    }
    assert(starts(a, n)[m] <= p <= ends(a, n)[m]);
}

/// In a list of separated intervals, an earlier interval ends before a later
/// one starts.
proof fn lemma_separated_order(ev: Seq<(usize, usize)>, j: int, k: int)
    requires
        separated(ev),
        0 <= j < k < ev.len(),
    ensures
        ev[j].1 < ev[k].0,
    decreases k - j,
{
    if j + 1 < k {
        lemma_separated_order(ev, j, k - 1);
        assert(ev[k - 1].0 < ev[k - 1].1);
    }
}

/// The intervals of `ev` that meet the index range `i_start..i_end`, in the
/// order of `ev`.
pub open spec fn touching(ev: Seq<(usize, usize)>, i_start: int, i_end: int) -> Seq<(usize, usize)> {
    ev.filter(|e: (usize, usize)| touches(e, i_start, i_end))
}

/// Where exactly the entries from `lo` to below `hi` satisfy `pred`, filtering
/// by `pred` cuts out that stretch.
proof fn lemma_filter_stretch(
    ev: Seq<(usize, usize)>,
    pred: spec_fn((usize, usize)) -> bool,
    lo: int,
    hi: int,
)
    requires
        0 <= lo <= hi <= ev.len(),
        forall|k: int| 0 <= k < ev.len() ==> (pred(#[trigger] ev[k]) <==> lo <= k < hi),
    ensures
        ev.filter(pred) == ev.subrange(lo, hi),
    decreases ev.len(),
{
    reveal(Seq::filter);
    if ev.len() == 0 {
        assert(ev.filter(pred) =~= ev.subrange(lo, hi));
    } else {
        let m = ev.len() - 1;
        let front = ev.drop_last();
        if pred(ev.last()) {
            assert(pred(ev[m]));
            assert forall|k: int| 0 <= k < front.len() implies (pred(#[trigger] front[k]) <==> lo <= k
                < m) by {
                assert(front[k] == ev[k]);
            }
            lemma_filter_stretch(front, pred, lo, m);
            assert(front.subrange(lo, m).push(ev.last()) =~= ev.subrange(lo, hi));
        } else {
            assert(!pred(ev[m]));
            let lo2 = if lo <= m {
                lo
            } else {
                m
            };
            let hi2 = if hi <= m {
                hi
            } else {
                m
            };
            assert forall|k: int| 0 <= k < front.len() implies (pred(#[trigger] front[k]) <==> lo2
                <= k < hi2) by {
                assert(front[k] == ev[k]);
            }
            lemma_filter_stretch(front, pred, lo2, hi2);
            assert(front.subrange(lo2, hi2) =~= ev.subrange(lo, hi));
        }
    }
}

/// Where a scan for the intervals that meet `i_start..i_end` begins and ends:
/// it begins at `first`, which is `idx` or one before it, and stops at `k`,
/// the first interval from there on that does not meet the range.
proof fn lemma_touching_stretch(
    ev: Seq<(usize, usize)>,
    i_start: int,
    i_end: int,
    idx: int,
    first: int,
    k: int,
)
    requires
        separated(ev),
        0 <= idx <= ev.len(),
        forall|j: int| 0 <= j < idx ==> (#[trigger] ev[j]).0 < i_start,
        forall|j: int| idx <= j < ev.len() ==> (#[trigger] ev[j]).0 >= i_start,
        first == if idx > 0 && ev[idx - 1].1 > i_start {
            idx - 1
        } else {
            idx
        },
        first <= k <= ev.len(),
        forall|j: int| first <= j < k ==> touches(#[trigger] ev[j], i_start, i_end),
        k < ev.len() ==> !touches(ev[k], i_start, i_end),
    ensures
        touching(ev, i_start, i_end) == ev.subrange(first, k),
{
    let pred = |e: (usize, usize)| touches(e, i_start, i_end);
    assert forall|j: int| 0 <= j < ev.len() implies (pred(#[trigger] ev[j]) <==> first <= j < k) by {
        if j < first {
            if first == idx {
                if idx > 0 && j < idx - 1 {
                    lemma_separated_order(ev, j, idx - 1);
                    assert(ev[idx - 1].0 < ev[idx - 1].1);
                }
            } else {
                lemma_separated_order(ev, j, first);
            }
        } else if j >= k {
            assert(ev[k].0 < ev[k].1);
            if j > k {
                lemma_separated_order(ev, k, j);
                assert(ev[j].0 < ev[j].1);
            }
        }
    }
    lemma_filter_stretch(ev, pred, first, k);
}

/// A stretch of a list of separated intervals is such a list, and holds
/// intervals of the list only.
proof fn lemma_stretch(ev: Seq<(usize, usize)>, lo: int, hi: int)
    requires
        separated(ev),
        0 <= lo <= hi <= ev.len(),
    ensures
        separated(ev.subrange(lo, hi)),
        forall|j: int| 0 <= j < hi - lo ==> ev.contains(#[trigger] ev.subrange(lo, hi)[j]),
{
    let part = ev.subrange(lo, hi);
    assert forall|j: int| 0 <= j < part.len() implies ev.contains(#[trigger] part[j]) by {
        assert(ev[lo + j] == part[j]);
    }
    assert forall|j: int| 1 <= j < part.len() implies part[j - 1].1 < (#[trigger] part[j]).0 by {
        assert(ev[lo + j - 1].1 < ev[lo + j].0);
    }
    assert forall|j: int| 0 <= j < part.len() implies (#[trigger] part[j]).0 < part[j].1 by {
        assert(ev[lo + j].0 < ev[lo + j].1);
    }
}

/// The entries of `v` are those of `s`.
spec fn mirrors(v: Seq<usize>, s: Seq<int>) -> bool {
    &&& v.len() == s.len()
    &&& forall|k: int| 0 <= k < v.len() ==> v[k] as int == s[k]
}

/// The entries of `v` are the marks of the ends `e`.
spec fn mirrors_marks(v: Seq<usize>, a: Seq<bool>, e: Seq<int>) -> bool {
    &&& v.len() == e.len()
    &&& forall|k: int| 0 <= k < v.len() ==> v[k] as int == end_mark(a, e[k])
}

/// Tells whether the samples from `lo` to below `hi` are all cleared.
fn all_quiet(samples: &[bool], lo: usize, hi: usize) -> (result: bool)
    requires
        hi <= samples@.len(),
    ensures
        result == quiet(samples@, lo as int, hi as int),
{
    let mut k: usize = lo;
    while k < hi
        invariant
            hi <= samples@.len(),
            lo <= k,
            quiet(samples@, lo as int, k as int),
        decreases hi - k,
    {
        if samples[k] {
            return false;
        }
        k = k + 1;
    }
    true
}

/// Collects, in one pass over the channel, the places where a run starts and
/// the marks of the places where one ends.
fn scan(samples: &[bool]) -> (result: (Vec<usize>, Vec<usize>))
    ensures
        mirrors(result.0@, starts(samples@, samples@.len() as int)),
        mirrors_marks(result.1@, samples@, ends(samples@, samples@.len() as int)),
{
    let n: usize = samples.len();
    let mut starts: Vec<usize> = Vec::new();
    let mut ends: Vec<usize> = Vec::new();
    let mut p: usize = 0;
    while p < n
        invariant
            n == samples@.len(),
            p <= n,
            mirrors(starts@, self::starts(samples@, p as int)),
            mirrors_marks(ends@, samples@, self::ends(samples@, p as int)),
        decreases n - p,
    {
        if samples[p] {
            let lo: usize = if p >= WINDOW - 1 {
                p - (WINDOW - 1)
            } else {
                0
            };
            if all_quiet(samples, lo, p) {
                starts.push(p);
            }
            let whole: bool = n - p >= WINDOW;
            let hi: usize = if whole {
                p + WINDOW
            } else {
                n
            };
            if all_quiet(samples, p + 1, hi) {
                let mark: usize = if whole || p + 1 == n {
                    p
                } else {
                    p + 1
                };
                ends.push(mark);
            }
        }
        p = p + 1;
    }
    (starts, ends)
}

/// Where the mark of an end does not lie behind the start with the same
/// number, the two are one lone sample.
proof fn lemma_empty_interval(a: Seq<bool>, k: int)
    requires
        0 <= k < starts(a, a.len() as int).len(),
        k < ends(a, a.len() as int).len(),
        starts(a, a.len() as int)[k] >= end_mark(a, ends(a, a.len() as int)[k]),
    ensures
        !no_lone_sample(a),
{
    let n = a.len() as int;
    lemma_listed(a, n);
    lemma_paired(a, n);
    let p = starts(a, n)[k];
    assert(ends(a, n)[k] == p);
    assert(is_start(a, p) && is_end(a, p) && end_mark(a, p) == p);
}

/// Starts and marks that pair up to intervals none of which is empty make up
/// the intervals of a channel without a lone sample.
proof fn lemma_zipped(
    a: Seq<bool>,
    starts: Seq<usize>,
    ends: Seq<usize>,
    events: Seq<(usize, usize)>,
)
    requires
        mirrors(starts, self::starts(a, a.len() as int)),
        mirrors_marks(ends, a, self::ends(a, a.len() as int)),
        events.len() == starts.len(),
        events.len() == ends.len(),
        forall|j: int| 0 <= j < events.len() ==> #[trigger] events[j] == (starts[j], ends[j]),
        forall|j: int| 0 <= j < events.len() ==> #[trigger] starts[j] < ends[j],
    ensures
        events == intervals(a),
        separated(events),
        bounded(events, a.len() as int),
        no_lone_sample(a),
{
    let n = a.len() as int;
    let s = self::starts(a, n);
    let e = self::ends(a, n);
    lemma_listed(a, n);
    lemma_paired(a, n);
    lemma_starts_match_ends(a);
    assert(events =~= intervals(a)) by {
        assert forall|j: int| 0 <= j < events.len() implies events[j] == intervals(a)[j] by {
            assert(starts[j] as int == s[j]);
            assert(ends[j] as int == end_mark(a, e[j]));
        }
    }
    assert forall|j: int| 0 <= j < events.len() implies (#[trigger] events[j]).0 < events[j].1 by {
        assert(starts[j] < ends[j]);
    }
    assert forall|j: int| 1 <= j < events.len() implies events[j - 1].1 < (#[trigger] events[j]).0 by {
        assert(events[j - 1] == (starts[j - 1], ends[j - 1]));
        assert(ends[j - 1] as int == end_mark(a, e[j - 1]));
        assert(starts[j] as int == s[j]);
    }
    assert forall|j: int| 0 <= j < events.len() implies (#[trigger] events[j]).1 < n by {
        assert(ends[j] as int == end_mark(a, e[j]));
        assert(0 <= e[j] < n);
    }
    assert forall|p: int| !(#[trigger] is_start(a, p) && is_end(a, p) && end_mark(a, p) == p) by {
        if is_start(a, p) && is_end(a, p) && end_mark(a, p) == p {
            let j = choose|j: int| 0 <= j < s.len() && s[j] == p;
            assert(e[j] == p);
            assert(starts[j] < ends[j]);
            assert(starts[j] as int == s[j]);
            assert(ends[j] as int == end_mark(a, e[j]));
        }
    }
}

/// The sorted, separated active intervals of one raster channel, each a pair
/// of sample indices.
#[derive(Debug)]
pub struct Trigger {
    events: Vec<(usize, usize)>,
}

impl Trigger {
    /// The intervals, in ascending order.
    pub closed spec fn view(&self) -> Seq<(usize, usize)> {
        self.events@
    }

    /// The intervals are non-empty, sorted, and do not touch.
    pub open spec fn wf(&self) -> bool {
        separated(self@)
    }

    /// Builds the index of a channel of any length, or `None` where the
    /// channel holds a lone sample with an empty interval.
    pub fn try_new(samples: &[bool]) -> (result: Option<Trigger>)
        ensures
            result is Some <==> no_lone_sample(samples@),
            result matches Some(trigger) ==> {
                &&& trigger.wf()
                &&& trigger@ == intervals(samples@)
                &&& bounded(trigger@, samples@.len() as int)
            },
    {
        let ghost a = samples@;
        let (starts, ends) = scan(samples);
        proof {
            lemma_starts_match_ends(a);
        }
        let mut events: Vec<(usize, usize)> = Vec::new();
        let mut k: usize = 0;
        while k < starts.len()
            invariant
                a == samples@,
                mirrors(starts@, self::starts(a, a.len() as int)),
                mirrors_marks(ends@, a, self::ends(a, a.len() as int)),
                starts@.len() == ends@.len(),
                k <= starts@.len(),
                events@.len() == k,
                forall|j: int| 0 <= j < k ==> #[trigger] events@[j] == (starts@[j], ends@[j]),
                forall|j: int| 0 <= j < k ==> #[trigger] starts@[j] < ends@[j],
            decreases starts.len() - k,
        {
            let start: usize = starts[k];
            let end: usize = ends[k];
            if start >= end {
                proof {
                    lemma_empty_interval(a, k as int);
                }
                return None;
            }
            events.push((start, end));
            k = k + 1;
        }
        proof {
            lemma_zipped(a, starts@, ends@, events@);
        }
        Some(Trigger { events })
    }

    /// Builds the index of a channel.
    pub fn new(samples: &[bool]) -> (trigger: Trigger)
        requires
            no_lone_sample(samples@),
        ensures
            trigger.wf(),
            trigger@ == intervals(samples@),
            bounded(trigger@, samples@.len() as int),
    {
        match Trigger::try_new(samples) {
            Some(trigger) => trigger,
            None => {
                assert(false);
                Trigger { events: Vec::new() }
            },
        }
    }

    /// The number of intervals that start below `i_start`.
    fn lower_bound(&self, i_start: usize) -> (idx: usize)
        requires
            self.wf(),
        ensures
            idx <= self@.len(),
            forall|k: int| 0 <= k < idx ==> (#[trigger] self@[k]).0 < i_start,
            forall|k: int| idx <= k < self@.len() ==> (#[trigger] self@[k]).0 >= i_start,
    {
        let mut lo: usize = 0;
        let mut hi: usize = self.events.len();
        while lo < hi
            invariant
                self.wf(),
                lo <= hi <= self@.len(),
                forall|k: int| 0 <= k < lo ==> (#[trigger] self@[k]).0 < i_start,
                forall|k: int| hi <= k < self@.len() ==> (#[trigger] self@[k]).0 >= i_start,
            decreases hi - lo,
        {
            let mid: usize = lo + (hi - lo) / 2;
            if self.events[mid].0 < i_start {
                proof {
                    assert forall|k: int| 0 <= k < mid + 1 implies (#[trigger] self@[k]).0
                        < i_start by {
                        if k < mid {
                            lemma_separated_order(self@, k, mid as int);
                            assert(self@[k].0 < self@[k].1);
                        }
                    }
                }
                lo = mid + 1;
            } else {
                proof {
                    assert forall|k: int| mid <= k < self@.len() implies (#[trigger] self@[k]).0
                        >= i_start by {
                        if mid < k {
                            lemma_separated_order(self@, mid as int, k);
                            assert(self@[mid as int].0 < self@[mid as int].1);
                        }
                    }
                }
                hi = mid;
            }
        }
        lo
    }

    /// The first interval that starts at or after `i_start`, if there is one.
    pub fn search(&self, i_start: usize) -> (result: Option<(usize, usize)>)
        requires
            self.wf(),
        ensures
            result is Some <==> exists|k: int| 0 <= k < self@.len() && (#[trigger] self@[k]).0 >= i_start,
            result matches Some(found) ==> {
                &&& self@.contains(found)
                &&& found.0 >= i_start
                &&& forall|k: int|
                    0 <= k < self@.len() && (#[trigger] self@[k]).0 >= i_start ==> found.0 <= self@[k].0
            },
    {
        let idx: usize = self.lower_bound(i_start);
        if idx < self.events.len() {
            let found: (usize, usize) = self.events[idx];
            proof {
                assert(self@[idx as int] == found);
                assert forall|k: int|
                    0 <= k < self@.len() && (#[trigger] self@[k]).0 >= i_start implies found.0
                    <= self@[k].0 by {
                    if idx < k {
                        lemma_separated_order(self@, idx as int, k);
                        assert(self@[idx as int].0 < self@[idx as int].1);
                    }
                }
            }
            Some(found)
        } else {
            None
        }
    }

    /// The intervals that meet the index range `i_start..i_end`, in order.
    pub fn events(&self, i_start: usize, i_end: usize) -> (result: Vec<(usize, usize)>)
        requires
            self.wf(),
        ensures
            result@ == touching(self@, i_start as int, i_end as int),
            separated(result@),
            forall|k: int|
                0 <= k < result@.len() ==> touches(#[trigger] result@[k], i_start as int, i_end as int),
            forall|k: int| 0 <= k < result@.len() ==> self@.contains(#[trigger] result@[k]),
    {
        let n: usize = self.events.len();
        let idx: usize = self.lower_bound(i_start);
        // The interval before the first one that starts in the range may
        // still reach into it.
        let first: usize = if idx > 0 && self.events[idx - 1].1 > i_start {
            idx - 1
        } else {
            idx
        };
        let mut result: Vec<(usize, usize)> = Vec::new();
        let mut k: usize = first;
        while k < n && i_start < self.events[k].1 && self.events[k].0 < i_end
            invariant
                n == self@.len(),
                first <= k <= n,
                result@ == self@.subrange(first as int, k as int),
                forall|j: int|
                    first <= j < k ==> touches(#[trigger] self@[j], i_start as int, i_end as int),
            decreases n - k,
        {
            result.push(self.events[k]);
            k = k + 1;
            assert(result@ =~= self@.subrange(first as int, k as int));
        }
        proof {
            lemma_touching_stretch(
                self@,
                i_start as int,
                i_end as int,
                idx as int,
                first as int,
                k as int,
            );
            lemma_stretch(self@, first as int, k as int);
        }
        result
    }
}

} // verus!

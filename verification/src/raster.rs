//! Queries on a raster sequence, in units of samples.
//!
//! Every channel of a raster sequence lives on a fixed time step of its own.
//! The queries here speak of sample indices only: a caller divides a time by
//! the step of the channel on the way in and multiplies on the way out. An
//! index range `i_start..i_end` is half open throughout.
use crate::trigger::{
    bounded, intervals, no_lone_sample, separated, touches, touching, Trigger,
};
use crate::types::{EventType, GradientChannel};
use vstd::prelude::*;

verus! {

/// The indices `first`, `first + stride`, `first + 2 * stride`, ... as far as
/// they do not pass `last`.
pub open spec fn stepped(first: int, last: int, stride: int) -> Seq<int>
    decreases
            (if first <= last {
                last - first + 1
            } else {
                0
            }),
{
    if first <= last && stride >= 1 {
        seq![first] + stepped(first + stride, last, stride)
    } else {
        Seq::empty()
    }
}

/// The first `n` entries of `s`, or all of `s` where it has no more.
pub open spec fn capped<T>(s: Seq<T>, n: int) -> Seq<T> {
    if s.len() <= n {
        s
    } else if n <= 0 {
        Seq::empty()
    } else {
        s.take(n)
    }
}

/// The entries of `v` are those of `s`.
pub open spec fn same_ints(v: Seq<usize>, s: Seq<int>) -> bool {
    &&& v.len() == s.len()
    &&& forall|k: int| 0 <= k < v.len() ==> #[trigger] v[k] as int == s[k]
}

/// The indices rise strictly and lie in `i_start..i_end`.
pub open spec fn rising_within(v: Seq<usize>, i_start: int, i_end: int) -> bool {
    &&& forall|k: int| 0 <= k < v.len() ==> i_start <= #[trigger] v[k] < i_end
    &&& forall|j: int, k: int| 0 <= j < k < v.len() ==> #[trigger] v[j] < #[trigger] v[k]
}

/// The entries of `stepped` lie between `first` and `last` and rise strictly.
proof fn lemma_stepped_rising(first: int, last: int, stride: int)
    ensures
        forall|k: int|
            0 <= k < stepped(first, last, stride).len() ==> first <= #[trigger] stepped(
                first,
                last,
                stride,
            )[k] <= last,
        forall|j: int, k: int|
            0 <= j < k < stepped(first, last, stride).len() ==> #[trigger] stepped(
                first,
                last,
                stride,
            )[j] < #[trigger] stepped(first, last, stride)[k],
    decreases
            (if first <= last {
                last - first + 1
            } else {
                0
            }),
{
    if first <= last && stride >= 1 {
        lemma_stepped_rising(first + stride, last, stride);
        let rest = stepped(first + stride, last, stride);
        let all = stepped(first, last, stride);
        assert(all =~= seq![first] + rest);
        assert forall|k: int| 0 <= k < all.len() implies first <= #[trigger] all[k] <= last by {
            if k > 0 {
                assert(all[k] == rest[k - 1]);
            }
        }
        assert forall|j: int, k: int| 0 <= j < k < all.len() implies #[trigger] all[j]
            < #[trigger] all[k] by {
            assert(all[k] == rest[k - 1]);
            if j > 0 {
                assert(all[j] == rest[j - 1]);
            }
        }
    }
}

/// Capping a concatenation caps the first part, and the second by what room
/// is left.
proof fn lemma_capped_concat<T>(a: Seq<T>, b: Seq<T>, n: int)
    requires
        n >= 0,
    ensures
        capped(a + b, n) == capped(a, n) + capped(b, n - capped(a, n).len()),
{
    assert(capped(a + b, n) =~= capped(a, n) + capped(b, n - capped(a, n).len()));
}

/// What holds of every entry of a rising list of indices holds of its capped
/// mirror image.
proof fn lemma_same_ints_rising(v: Seq<usize>, s: Seq<int>, n: int, lo: int, hi: int)
    requires
        same_ints(v, capped(s, n)),
        forall|k: int| 0 <= k < s.len() ==> lo <= #[trigger] s[k] < hi,
        forall|j: int, k: int| 0 <= j < k < s.len() ==> #[trigger] s[j] < #[trigger] s[k],
    ensures
        rising_within(v, lo, hi),
        v.len() <= n || v.len() == 0,
{
    let c = capped(s, n);
    assert forall|k: int| 0 <= k < v.len() implies lo <= #[trigger] v[k] < hi by {
        assert(v[k] as int == c[k]);
        assert(c[k] == s[k]);
    }
    assert forall|j: int, k: int| 0 <= j < k < v.len() implies #[trigger] v[j] < #[trigger] v[k] by {
        assert(v[k] as int == c[k]);
        assert(v[j] as int == c[j]);
        assert(c[k] == s[k]);
        assert(c[j] == s[j]);
    }
}

/// `after` is `before` with `added` behind it.
spec fn extends(after: Seq<usize>, before: Seq<usize>, added: Seq<int>) -> bool {
    &&& after.len() == before.len() + added.len()
    &&& forall|k: int| 0 <= k < before.len() ==> after[k] == before[k]
    &&& forall|k: int| 0 <= k < added.len() ==> after[before.len() + k] as int == added[k]
}

/// Appends the indices `first`, `first + stride`, ... up to `last` to `out`,
/// as long as `out` holds fewer than `max_count` entries.
fn push_stepped(out: &mut Vec<usize>, first: usize, last: usize, stride: usize, max_count: usize)
    requires
        stride >= 1,
        old(out)@.len() <= max_count,
    ensures
        extends(
            final(out)@,
            old(out)@,
            capped(stepped(first as int, last as int, stride as int), max_count - old(out)@.len()),
        ),
{
    let ghost full = stepped(first as int, last as int, stride as int);
    let ghost room = max_count - out@.len();
    let ghost mut done: Seq<int> = Seq::empty();
    let mut x: usize = first;
    let mut more: bool = first <= last && out.len() < max_count;
    proof {
        if !more {
            assert(capped(full, room) =~= Seq::<int>::empty());
        }
    }
    while more
        invariant
            stride >= 1,
            full == stepped(first as int, last as int, stride as int),
            room == max_count - old(out)@.len(),
            extends(out@, old(out)@, done),
            more ==> first <= x <= last && out@.len() < max_count,
            more ==> done + stepped(x as int, last as int, stride as int) == full,
            !more ==> done == capped(full, room),
        decreases
                (if more {
                    last - x + 1
                } else {
                    0
                }),
    {
        out.push(x);
        proof {
            let rest = stepped(x + stride, last as int, stride as int);
            assert(done.push(x as int) + rest =~= done + (seq![x as int] + rest));
            done = done.push(x as int);
        }
        if out.len() < max_count && last - x >= stride {
            x = x + stride;
        } else {
            more = false;
            proof {
                if out@.len() < max_count {
                    assert(stepped(x + stride, last as int, stride as int) =~= Seq::<int>::empty());
                    assert(done =~= full);
                } else {
                    assert(done.len() == room);
                    assert(done =~= full.take(room));
                }
            }
        }
    }
}

/// `v` mirrors `a`, and `after` extends `v` by `b`: then `after` mirrors the
/// two in a row.
proof fn lemma_extends_same(after: Seq<usize>, v: Seq<usize>, a: Seq<int>, b: Seq<int>)
    requires
        same_ints(v, a),
        extends(after, v, b),
    ensures
        same_ints(after, a + b),
{
    assert forall|k: int| 0 <= k < after.len() implies #[trigger] after[k] as int == (a + b)[k] by {
        if k < v.len() {
            assert(v[k] as int == a[k]);
        } else {
            assert(after[v.len() + (k - v.len())] as int == b[k - v.len()]);
        }
    }
}

/// The first sample of the interval `e` that is not below `i_start`.
pub open spec fn clip_first(e: (usize, usize), i_start: int) -> int {
    if i_start > e.0 {
        i_start
    } else {
        e.0 as int
    }
}

/// The last sample of the interval `e` that is below `i_end`.
pub open spec fn clip_last(e: (usize, usize), i_end: int) -> int {
    if i_end - 1 < e.1 {
        i_end - 1
    } else {
        e.1 as int
    }
}

/// The raster points that one interval contributes to a range query: every
/// `stride`-th sample of the part of the interval within `i_start..i_end`,
/// from half a stride behind the first.
pub open spec fn interval_points(e: (usize, usize), i_start: int, i_end: int, stride: int) -> Seq<
    int,
> {
    stepped(clip_first(e, i_start) + stride / 2, clip_last(e, i_end), stride)
}

/// The raster points that the intervals `ev` contribute, interval by
/// interval.
pub open spec fn points(ev: Seq<(usize, usize)>, i_start: int, i_end: int, stride: int) -> Seq<int>
    decreases ev.len(),
{
    if ev.len() == 0 {
        Seq::empty()
    } else {
        points(ev.drop_last(), i_start, i_end, stride) + interval_points(
            ev.last(),
            i_start,
            i_end,
            stride,
        )
    }
}

/// One of `parts` evenly spaced sample times within the samples `first` to
/// `last` of a channel: the one with the number `part`, counted from zero. It
/// lies `part + 1/2` times the `parts`-th of the window behind the start of
/// the sample `first`, where the window ends with the sample `last`.
#[derive(Debug, Clone, Copy, PartialEq, Eq, Structural)]
pub struct AdcSample {
    pub first: usize,
    pub last: usize,
    pub part: usize,
    pub parts: usize,
}

/// All `parts` sample times within the samples `first` to `last`.
pub open spec fn window_parts(first: int, last: int, parts: usize) -> Seq<AdcSample> {
    Seq::new(
        parts as nat,
        |k: int| AdcSample { first: first as usize, last: last as usize, part: k as usize, parts },
    )
}

/// The sample times that one interval contributes to a range query with a
/// resolution: `parts` of them within the part of the interval that lies in
/// `i_start..i_end`, none where that part is empty.
pub open spec fn interval_parts(e: (usize, usize), i_start: int, i_end: int, parts: usize) -> Seq<
    AdcSample,
> {
    if clip_first(e, i_start) <= clip_last(e, i_end) {
        window_parts(clip_first(e, i_start), clip_last(e, i_end), parts)
    } else {
        Seq::empty()
    }
}

/// The sample times that the intervals `ev` contribute, interval by interval.
pub open spec fn parts_of(ev: Seq<(usize, usize)>, i_start: int, i_end: int, parts: usize) -> Seq<
    AdcSample,
>
    decreases ev.len(),
{
    if ev.len() == 0 {
        Seq::empty()
    } else {
        parts_of(ev.drop_last(), i_start, i_end, parts) + interval_parts(
            ev.last(),
            i_start,
            i_end,
            parts,
        )
    }
}

/// The sample times lie in windows within `i_start..i_end` and rise
/// strictly: of two of them the later one lies in a later window, or in the
/// same window with a higher number.
pub open spec fn rising_parts(v: Seq<AdcSample>, i_start: int, i_end: int) -> bool {
    &&& forall|k: int|
        0 <= k < v.len() ==> {
            &&& i_start <= (#[trigger] v[k]).first <= v[k].last < i_end
            &&& v[k].part < v[k].parts
        }
    &&& forall|j: int, k: int|
        0 <= j < k < v.len() ==> {
            ||| (#[trigger] v[j]).last < (#[trigger] v[k]).first
            ||| v[j].first == v[k].first && v[j].last == v[k].last && v[j].part < v[k].part
        }
}

/// The raster points of separated intervals that all meet the range lie in
/// the range and rise strictly.
proof fn lemma_points_rising(ev: Seq<(usize, usize)>, i_start: int, i_end: int, stride: int)
    requires
        separated(ev),
        forall|k: int| 0 <= k < ev.len() ==> touches(#[trigger] ev[k], i_start, i_end),
    ensures
        forall|k: int|
            0 <= k < points(ev, i_start, i_end, stride).len() ==> i_start <= #[trigger] points(
                ev,
                i_start,
                i_end,
                stride,
            )[k] < i_end,
        forall|k: int|
            0 <= k < points(ev, i_start, i_end, stride).len() ==> #[trigger] points(
                ev,
                i_start,
                i_end,
                stride,
            )[k] <= ev.last().1,
        forall|j: int, k: int|
            0 <= j < k < points(ev, i_start, i_end, stride).len() ==> #[trigger] points(
                ev,
                i_start,
                i_end,
                stride,
            )[j] < #[trigger] points(ev, i_start, i_end, stride)[k],
    decreases ev.len(),
{
    if ev.len() > 0 {
        let front = ev.drop_last();
        let e = ev.last();
        assert(separated(front)) by {
            assert forall|k: int| 0 <= k < front.len() implies (#[trigger] front[k]).0
                < front[k].1 by {
                assert(front[k] == ev[k]);
            }
            assert forall|k: int| 1 <= k < front.len() implies front[k - 1].1 < (
            #[trigger] front[k]).0 by {
                assert(front[k] == ev[k]);
                assert(front[k - 1] == ev[k - 1]);
            }
        }
        assert forall|k: int| 0 <= k < front.len() implies touches(
            #[trigger] front[k],
            i_start,
            i_end,
        ) by {
            assert(front[k] == ev[k]);
        }
        lemma_points_rising(front, i_start, i_end, stride);
        let first = clip_first(e, i_start) + stride / 2;
        let last = clip_last(e, i_end);
        lemma_stepped_rising(first, last, stride);
        let before = points(front, i_start, i_end, stride);
        let here = stepped(first, last, stride);
        let all = points(ev, i_start, i_end, stride);
        assert(all =~= before + here);
        assert(touches(ev[ev.len() - 1], i_start, i_end));
        assert(ev[ev.len() - 1].0 < ev[ev.len() - 1].1);
        if front.len() > 0 {
            assert(front.last() == ev[ev.len() - 2]);
            assert(ev[ev.len() - 2].1 < ev[ev.len() - 1].0);
        }
        assert forall|k: int| 0 <= k < all.len() implies i_start <= #[trigger] all[k] < i_end
            && all[k] <= e.1 by {
            if k < before.len() {
                assert(all[k] == before[k]);
            } else {
                assert(all[k] == here[k - before.len()]);
            }
        }
        assert forall|j: int, k: int| 0 <= j < k < all.len() implies #[trigger] all[j]
            < #[trigger] all[k] by {
            if k < before.len() {
                assert(all[k] == before[k]);
                assert(all[j] == before[j]);
            } else if j < before.len() {
                assert(all[j] == before[j]);
                assert(all[k] == here[k - before.len()]);
            } else {
                assert(all[j] == here[j - before.len()]);
                assert(all[k] == here[k - before.len()]);
            }
        }
    }
}

/// The sample times of separated intervals that all meet the range lie in
/// the range and rise strictly.
proof fn lemma_parts_rising(ev: Seq<(usize, usize)>, i_start: int, i_end: int, parts: usize)
    requires
        separated(ev),
        forall|k: int| 0 <= k < ev.len() ==> touches(#[trigger] ev[k], i_start, i_end),
        0 <= i_start,
        i_end <= usize::MAX,
    ensures
        rising_parts(parts_of(ev, i_start, i_end, parts), i_start, i_end),
        forall|k: int|
            0 <= k < parts_of(ev, i_start, i_end, parts).len() ==> (#[trigger] parts_of(
                ev,
                i_start,
                i_end,
                parts,
            )[k]).last <= ev.last().1,
    decreases ev.len(),
{
    if ev.len() > 0 {
        let front = ev.drop_last();
        let e = ev.last();
        assert(separated(front)) by {
            assert forall|k: int| 0 <= k < front.len() implies (#[trigger] front[k]).0
                < front[k].1 by {
                assert(front[k] == ev[k]);
            }
            assert forall|k: int| 1 <= k < front.len() implies front[k - 1].1 < (
            #[trigger] front[k]).0 by {
                assert(front[k] == ev[k]);
                assert(front[k - 1] == ev[k - 1]);
            }
        }
        assert forall|k: int| 0 <= k < front.len() implies touches(
            #[trigger] front[k],
            i_start,
            i_end,
        ) by {
            assert(front[k] == ev[k]);
        }
        lemma_parts_rising(front, i_start, i_end, parts);
        let before = parts_of(front, i_start, i_end, parts);
        let here = interval_parts(e, i_start, i_end, parts);
        let all = parts_of(ev, i_start, i_end, parts);
        assert(all =~= before + here);
        assert(touches(ev[ev.len() - 1], i_start, i_end));
        assert(ev[ev.len() - 1].0 < ev[ev.len() - 1].1);
        if front.len() > 0 {
            assert(front.last() == ev[ev.len() - 2]);
            assert(ev[ev.len() - 2].1 < ev[ev.len() - 1].0);
        }
        assert forall|k: int| 0 <= k < all.len() implies {
            &&& i_start <= (#[trigger] all[k]).first <= all[k].last < i_end
            &&& all[k].part < all[k].parts
            &&& all[k].last <= e.1
        } by {
            if k < before.len() {
                assert(all[k] == before[k]);
            } else {
                assert(all[k] == here[k - before.len()]);
            }
        }
        assert forall|j: int, k: int| 0 <= j < k < all.len() implies {
            ||| (#[trigger] all[j]).last < (#[trigger] all[k]).first
            ||| all[j].first == all[k].first && all[j].last == all[k].last && all[j].part
                < all[k].part
        } by {
            if k < before.len() {
                assert(all[k] == before[k]);
                assert(all[j] == before[j]);
            } else if j < before.len() {
                assert(all[j] == before[j]);
                assert(all[k] == here[k - before.len()]);
            } else {
                assert(all[j] == here[j - before.len()]);
                assert(all[k] == here[k - before.len()]);
            }
        }
    }
}

/// What holds of every entry of a rising list of sample times holds of its
/// first entries.
proof fn lemma_capped_parts(s: Seq<AdcSample>, n: int, i_start: int, i_end: int)
    requires
        rising_parts(s, i_start, i_end),
    ensures
        rising_parts(capped(s, n), i_start, i_end),
{
    let c = capped(s, n);
    assert forall|k: int| 0 <= k < c.len() implies {
        &&& i_start <= (#[trigger] c[k]).first <= c[k].last < i_end
        &&& c[k].part < c[k].parts
    } by {
        assert(c[k] == s[k]);
    }
    assert forall|j: int, k: int| 0 <= j < k < c.len() implies {
        ||| (#[trigger] c[j]).last < (#[trigger] c[k]).first
        ||| c[j].first == c[k].first && c[j].last == c[k].last && c[j].part < c[k].part
    } by {
        assert(c[k] == s[k]);
        assert(c[j] == s[j]);
    }
}

/// Appends the sample times of one window to `out`, as long as `out` holds
/// fewer than `max_count` entries.
fn push_parts(out: &mut Vec<AdcSample>, first: usize, last: usize, parts: usize, max_count: usize)
    requires
        old(out)@.len() <= max_count,
    ensures
        final(out)@ == old(out)@ + capped(
            window_parts(first as int, last as int, parts),
            max_count - old(out)@.len(),
        ),
{
    let ghost full = window_parts(first as int, last as int, parts);
    let ghost room = max_count - out@.len();
    let mut k: usize = 0;
    while k < parts && out.len() < max_count
        invariant
            full == window_parts(first as int, last as int, parts),
            room == max_count - old(out)@.len(),
            k <= parts,
            out@.len() == old(out)@.len() + k,
            out@.len() <= max_count,
            out@ == old(out)@ + full.take(k as int),
        decreases parts - k,
    {
        out.push(AdcSample { first, last, part: k, parts });
        k = k + 1;
        assert(out@ =~= old(out)@ + full.take(k as int));
    }
    assert(full.take(k as int) =~= capped(full, room));
}

/// One channel of a raster sequence that events are looked up in: the number
/// of its samples and its active intervals.
#[derive(Debug)]
pub struct RasterChannel {
    samples: usize,
    events: Trigger,
}

/// What a range query on a channel yields: raster points, or sample times
/// that a resolution places within the active intervals.
#[derive(Debug, PartialEq, Eq)]
pub enum Events {
    Raster(Vec<usize>),
    Resolved(Vec<AdcSample>),
}

/// The channel on which analog-to-digital conversion is switched on and off,
/// and how sample times are placed in its active intervals: `resolution` of
/// them in each interval, or, without a resolution, one at every `stride`-th
/// raster point.
#[derive(Debug)]
pub struct Adc {
    channel: RasterChannel,
    resolution: Option<usize>,
    stride: usize,
}

/// The five channels of a raster sequence that events are looked up in.
#[derive(Debug)]
pub struct DsvSequence {
    pub rf: RasterChannel,
    pub gx: RasterChannel,
    pub gy: RasterChannel,
    pub gz: RasterChannel,
    pub adc: Adc,
}

/// Why the channels do not make up a sequence.
#[derive(Debug, Clone, Copy, PartialEq, Eq, Structural)]
pub enum Error {
    /// The channel of this kind holds a lone sample, whose interval would be
    /// empty.
    LoneSample(EventType),
    /// The stride between two ADC samples is zero.
    ZeroStride,
}

/// Whether `result` is the encounter from `i_start` on: the first interval
/// of the channel that starts at or after `i_start`, as the half open range
/// of its samples, or nothing where no interval starts there.
pub open spec fn is_encounter(
    channel: RasterChannel,
    i_start: int,
    result: Option<(usize, usize)>,
) -> bool {
    &&& result is Some <==> exists|k: int|
        0 <= k < channel.intervals().len() && (#[trigger] channel.intervals()[k]).0 >= i_start
    &&& result matches Some(range) ==> {
        &&& i_start <= range.0 < range.1 <= channel.samples()
        &&& channel.intervals().contains((range.0, (range.1 - 1) as usize))
        &&& forall|k: int|
            0 <= k < channel.intervals().len() && (#[trigger] channel.intervals()[k]).0 >= i_start
                ==> range.0 <= channel.intervals()[k].0
    }
}

/// The raster points of a channel of `samples` samples in `i_start..i_end`.
/// The point at the end of the channel, behind its last sample, is one of
/// them; no point lies beyond it.
pub open spec fn raster_points(samples: int, i_start: int, i_end: int) -> Seq<int> {
    stepped(
        i_start,
        if i_end - 1 <= samples {
            i_end - 1
        } else {
            samples
        },
        1,
    )
}

/// Whether `result` is what a range query for `i_start..i_end` yields on the
/// ADC channel: the sample times of the intervals that meet the range, in
/// ascending order, and only the first `max_count` of them where there are
/// more.
pub open spec fn is_adc_events(
    adc: Adc,
    i_start: int,
    i_end: int,
    max_count: int,
    result: Events,
) -> bool {
    let found = touching(adc.channel().intervals(), i_start, i_end);
    match (adc.resolution(), result) {
        (None, Events::Raster(v)) => {
            &&& same_ints(v@, capped(points(found, i_start, i_end, adc.stride() as int), max_count))
            &&& v@.len() <= max_count
            &&& rising_within(v@, i_start, i_end)
        },
        (Some(parts), Events::Resolved(v)) => {
            &&& v@ == capped(parts_of(found, i_start, i_end, parts), max_count)
            &&& v@.len() <= max_count
            &&& rising_parts(v@, i_start, i_end)
        },
        _ => false,
    }
}

impl RasterChannel {
    /// The number of samples of the channel.
    pub closed spec fn samples(&self) -> nat {
        self.samples as nat
    }

    /// The active intervals of the channel, in ascending order.
    pub closed spec fn intervals(&self) -> Seq<(usize, usize)> {
        self.events@
    }

    /// The intervals are separated and lie within the channel.
    pub open spec fn wf(&self) -> bool {
        &&& separated(self.intervals())
        &&& bounded(self.intervals(), self.samples() as int)
    }

    /// Indexes a channel, given one flag per sample that is set where the
    /// sample is not zero. `None` where the channel holds a lone sample.
    pub fn try_new(flags: &[bool]) -> (result: Option<RasterChannel>)
        ensures
            result is Some <==> no_lone_sample(flags@),
            result matches Some(channel) ==> {
                &&& channel.wf()
                &&& channel.samples() == flags@.len()
                &&& channel.intervals() == intervals(flags@)
            },
    {
        match Trigger::try_new(flags) {
            Some(events) => Some(RasterChannel { samples: flags.len(), events }),
            None => None,
        }
    }

    /// The number of samples of the channel.
    pub fn len(&self) -> (n: usize)
        ensures
            n == self.samples(),
    {
        self.samples
    }

    /// The first interval that starts at or after `i_start`, as the half
    /// open range of its samples.
    pub fn encounter(&self, i_start: usize) -> (result: Option<(usize, usize)>)
        requires
            self.wf(),
        ensures
            is_encounter(*self, i_start as int, result),
    {
        match self.events.search(i_start) {
            Some(found) => {
                proof {
                    let k = choose|k: int| 0 <= k < self.events@.len() && self.events@[k] == found;
                    assert(self.events@[k].0 < self.events@[k].1);
                }
                Some((found.0, found.1 + 1))
            },
            None => None,
        }
    }

    /// The raster points in `i_start..i_end` that lie on the channel or at
    /// its end, in ascending order; the first `max_count` of them where there
    /// are more.
    pub fn events(&self, i_start: usize, i_end: usize, max_count: usize) -> (result: Vec<usize>)
        ensures
            same_ints(
                result@,
                capped(
                    raster_points(self.samples() as int, i_start as int, i_end as int),
                    max_count as int,
                ),
            ),
            result@.len() <= max_count,
            rising_within(result@, i_start as int, i_end as int),
    {
        let mut result: Vec<usize> = Vec::new();
        if i_end > 0 {
            let last: usize = if i_end - 1 <= self.samples {
                i_end - 1
            } else {
                self.samples
            };
            push_stepped(&mut result, i_start, last, 1, max_count);
            proof {
                lemma_stepped_rising(i_start as int, last as int, 1);
                lemma_same_ints_rising(
                    result@,
                    stepped(i_start as int, last as int, 1),
                    max_count as int,
                    i_start as int,
                    i_end as int,
                );
            }
        } else {
            assert(stepped(i_start as int, -1, 1) =~= Seq::<int>::empty());
        }
        result
    }
}

impl Events {
    /// The number of events.
    pub open spec fn count(&self) -> nat {
        match self {
            Events::Raster(v) => v@.len(),
            Events::Resolved(v) => v@.len(),
        }
    }

    /// The number of events.
    pub fn len(&self) -> (n: usize)
        ensures
            n == self.count(),
    {
        match self {
            Events::Raster(v) => v.len(),
            Events::Resolved(v) => v.len(),
        }
    }
}

impl Adc {
    /// The channel itself.
    pub closed spec fn channel(&self) -> RasterChannel {
        self.channel
    }

    /// The number of sample times in each active interval, if it is fixed.
    pub closed spec fn resolution(&self) -> Option<usize> {
        self.resolution
    }

    /// The distance between two sample times, in raster points, where no
    /// resolution is fixed.
    pub closed spec fn stride(&self) -> usize {
        self.stride
    }

    /// The channel is well formed and the stride is not zero.
    pub open spec fn wf(&self) -> bool {
        self.channel().wf() && self.stride() >= 1
    }

    /// Indexes the ADC channel, given one flag per sample that is set where
    /// the converter is on. `None` where the stride is zero or the channel
    /// holds a lone sample.
    pub fn try_new(flags: &[bool], resolution: Option<usize>, stride: usize) -> (result: Option<
        Adc,
    >)
        ensures
            result is Some <==> no_lone_sample(flags@) && stride >= 1,
            result matches Some(adc) ==> {
                &&& adc.wf()
                &&& adc.channel().samples() == flags@.len()
                &&& adc.channel().intervals() == intervals(flags@)
                &&& adc.resolution() == resolution
                &&& adc.stride() == stride
            },
    {
        if stride == 0 {
            return None;
        }
        match RasterChannel::try_new(flags) {
            Some(channel) => Some(Adc { channel, resolution, stride }),
            None => None,
        }
    }

    /// The number of samples of the channel.
    pub fn len(&self) -> (n: usize)
        ensures
            n == self.channel().samples(),
    {
        self.channel.len()
    }

    /// The first interval that starts at or after `i_start`, as the half
    /// open range of its samples.
    pub fn encounter(&self, i_start: usize) -> (result: Option<(usize, usize)>)
        requires
            self.wf(),
        ensures
            is_encounter(self.channel(), i_start as int, result),
    {
        self.channel.encounter(i_start)
    }

    /// The sample times in `i_start..i_end`, in ascending order; the first
    /// `max_count` of them where there are more, so that a full result does
    /// not tell whether the range holds more.
    pub fn events(&self, i_start: usize, i_end: usize, max_count: usize) -> (result: Events)
        requires
            self.wf(),
        ensures
            is_adc_events(*self, i_start as int, i_end as int, max_count as int, result),
    {
        let found: Vec<(usize, usize)> = self.channel.events.events(i_start, i_end);
        let ghost ev = found@;
        match self.resolution {
            None => {
                let stride: usize = self.stride;
                let ghost all = points(ev, i_start as int, i_end as int, stride as int);
                let mut out: Vec<usize> = Vec::new();
                let mut j: usize = 0;
                while j < found.len()
                    invariant
                        ev == found@,
                        stride >= 1,
                        j <= found@.len(),
                        forall|k: int|
                            0 <= k < ev.len() ==> touches(
                                #[trigger] ev[k],
                                i_start as int,
                                i_end as int,
                            ),
                        same_ints(
                            out@,
                            capped(
                                points(ev.take(j as int), i_start as int, i_end as int, stride as int),
                                max_count as int,
                            ),
                        ),
                    decreases found.len() - j,
                {
                    let e: (usize, usize) = found[j];
                    assert(touches(ev[j as int], i_start as int, i_end as int));
                    let first: usize = if i_start > e.0 {
                        i_start
                    } else {
                        e.0
                    };
                    let last: usize = if i_end - 1 < e.1 {
                        i_end - 1
                    } else {
                        e.1
                    };
                    let half: usize = stride / 2;
                    let ghost before = out@;
                    let ghost so_far = points(
                        ev.take(j as int),
                        i_start as int,
                        i_end as int,
                        stride as int,
                    );
                    let ghost here = interval_points(e, i_start as int, i_end as int, stride as int);
                    if first <= usize::MAX - half {
                        push_stepped(&mut out, first + half, last, stride, max_count);
                    } else {
                        assert(here =~= Seq::<int>::empty());
                    }
                    proof {
                        assert(ev.take(j + 1).drop_last() =~= ev.take(j as int));
                        assert(ev.take(j + 1).last() == e);
                        lemma_capped_concat(so_far, here, max_count as int);
                        lemma_extends_same(
                            out@,
                            before,
                            capped(so_far, max_count as int),
                            capped(here, max_count - before.len()),
                        );
                    }
                    j = j + 1;
                }
                proof {
                    assert(ev.take(j as int) =~= ev);
                    lemma_points_rising(ev, i_start as int, i_end as int, stride as int);
                    lemma_same_ints_rising(
                        out@,
                        all,
                        max_count as int,
                        i_start as int,
                        i_end as int,
                    );
                }
                Events::Raster(out)
            },
            Some(parts) => {
                let ghost all = parts_of(ev, i_start as int, i_end as int, parts);
                let mut out: Vec<AdcSample> = Vec::new();
                let mut j: usize = 0;
                while j < found.len()
                    invariant
                        ev == found@,
                        j <= found@.len(),
                        forall|k: int|
                            0 <= k < ev.len() ==> touches(
                                #[trigger] ev[k],
                                i_start as int,
                                i_end as int,
                            ),
                        out@ == capped(
                            parts_of(ev.take(j as int), i_start as int, i_end as int, parts),
                            max_count as int,
                        ),
                    decreases found.len() - j,
                {
                    let e: (usize, usize) = found[j];
                    assert(touches(ev[j as int], i_start as int, i_end as int));
                    let first: usize = if i_start > e.0 {
                        i_start
                    } else {
                        e.0
                    };
                    let last: usize = if i_end - 1 < e.1 {
                        i_end - 1
                    } else {
                        e.1
                    };
                    let ghost so_far = parts_of(
                        ev.take(j as int),
                        i_start as int,
                        i_end as int,
                        parts,
                    );
                    let ghost here = interval_parts(e, i_start as int, i_end as int, parts);
                    if first <= last {
                        push_parts(&mut out, first, last, parts, max_count);
                    }
                    proof {
                        assert(ev.take(j + 1).drop_last() =~= ev.take(j as int));
                        assert(ev.take(j + 1).last() == e);
                        lemma_capped_concat(so_far, here, max_count as int);
                        assert(out@ =~= capped(so_far + here, max_count as int));
                    }
                    j = j + 1;
                }
                proof {
                    assert(ev.take(j as int) =~= ev);
                    lemma_parts_rising(ev, i_start as int, i_end as int, parts);
                    lemma_capped_parts(all, max_count as int, i_start as int, i_end as int);
                }
                Events::Resolved(out)
            },
        }
    }
}

/// The reason, if any, for which a channel of the kind `ty` with the flags
/// `flags` cannot be indexed.
pub open spec fn channel_error(flags: Seq<bool>, ty: EventType) -> Option<Error> {
    if !no_lone_sample(flags) {
        Some(Error::LoneSample(ty))
    } else {
        None
    }
}

/// The first reason, if any, for which the channels do not make up a
/// sequence: the channels are looked at in the order RF, gradient X, Y, Z,
/// ADC, and the stride last.
pub open spec fn load_error(
    rf: Seq<bool>,
    gx: Seq<bool>,
    gy: Seq<bool>,
    gz: Seq<bool>,
    adc: Seq<bool>,
    stride: usize,
) -> Option<Error> {
    if channel_error(rf, EventType::RfPulse) is Some {
        channel_error(rf, EventType::RfPulse)
    } else if channel_error(gx, EventType::Gradient(GradientChannel::X)) is Some {
        channel_error(gx, EventType::Gradient(GradientChannel::X))
    } else if channel_error(gy, EventType::Gradient(GradientChannel::Y)) is Some {
        channel_error(gy, EventType::Gradient(GradientChannel::Y))
    } else if channel_error(gz, EventType::Gradient(GradientChannel::Z)) is Some {
        channel_error(gz, EventType::Gradient(GradientChannel::Z))
    } else if channel_error(adc, EventType::Adc) is Some {
        channel_error(adc, EventType::Adc)
    } else if stride == 0 {
        Some(Error::ZeroStride)
    } else {
        None
    }
}

/// Indexes one channel of the kind `ty`.
fn load_channel(flags: &[bool], ty: EventType) -> (result: Result<RasterChannel, Error>)
    ensures
        match result {
            Ok(channel) => {
                &&& channel_error(flags@, ty) is None
                &&& channel.wf()
                &&& channel.samples() == flags@.len()
                &&& channel.intervals() == intervals(flags@)
            },
            Err(e) => channel_error(flags@, ty) == Some(e),
        },
{
    match RasterChannel::try_new(flags) {
        Some(channel) => Ok(channel),
        None => Err(Error::LoneSample(ty)),
    }
}

impl DsvSequence {
    /// Every channel is well formed.
    pub open spec fn wf(&self) -> bool {
        &&& self.rf.wf()
        &&& self.gx.wf()
        &&& self.gy.wf()
        &&& self.gz.wf()
        &&& self.adc.wf()
    }

    /// The channel that events of the kind `ty` are looked up in.
    pub open spec fn channel(&self, ty: EventType) -> RasterChannel {
        match ty {
            EventType::RfPulse => self.rf,
            EventType::Adc => self.adc.channel(),
            EventType::Gradient(GradientChannel::X) => self.gx,
            EventType::Gradient(GradientChannel::Y) => self.gy,
            EventType::Gradient(GradientChannel::Z) => self.gz,
        }
    }

    /// Indexes the five channels of a sequence, each given by one flag per
    /// sample that is set where the sample is not zero. `resolution` and
    /// `stride` say how sample times are placed in the ADC intervals.
    pub fn load(
        rf: &[bool],
        gx: &[bool],
        gy: &[bool],
        gz: &[bool],
        adc: &[bool],
        resolution: Option<usize>,
        stride: usize,
    ) -> (result: Result<DsvSequence, Error>)
        ensures
            match result {
                Ok(seq) => {
                    &&& load_error(rf@, gx@, gy@, gz@, adc@, stride) is None
                    &&& seq.wf()
                    &&& seq.rf.samples() == rf@.len() && seq.rf.intervals() == intervals(rf@)
                    &&& seq.gx.samples() == gx@.len() && seq.gx.intervals() == intervals(gx@)
                    &&& seq.gy.samples() == gy@.len() && seq.gy.intervals() == intervals(gy@)
                    &&& seq.gz.samples() == gz@.len() && seq.gz.intervals() == intervals(gz@)
                    &&& seq.adc.channel().samples() == adc@.len() && seq.adc.channel().intervals()
                        == intervals(adc@)
                    &&& seq.adc.resolution() == resolution
                    &&& seq.adc.stride() == stride
                },
                Err(e) => load_error(rf@, gx@, gy@, gz@, adc@, stride) == Some(e),
            },
    {
        let rf = match load_channel(rf, EventType::RfPulse) {
            Ok(channel) => channel,
            Err(e) => {
                return Err(e);
            },
        };
        let gx = match load_channel(gx, EventType::Gradient(GradientChannel::X)) {
            Ok(channel) => channel,
            Err(e) => {
                return Err(e);
            },
        };
        let gy = match load_channel(gy, EventType::Gradient(GradientChannel::Y)) {
            Ok(channel) => channel,
            Err(e) => {
                return Err(e);
            },
        };
        let gz = match load_channel(gz, EventType::Gradient(GradientChannel::Z)) {
            Ok(channel) => channel,
            Err(e) => {
                return Err(e);
            },
        };
        let channel = match load_channel(adc, EventType::Adc) {
            Ok(channel) => channel,
            Err(e) => {
                return Err(e);
            },
        };
        if stride == 0 {
            return Err(Error::ZeroStride);
        }
        Ok(DsvSequence { rf, gx, gy, gz, adc: Adc { channel, resolution, stride } })
    }

    /// The number of samples of the channel that events of the kind `ty` are
    /// looked up in.
    pub fn samples(&self, ty: EventType) -> (n: usize)
        ensures
            n == self.channel(ty).samples(),
    {
        match ty {
            EventType::RfPulse => self.rf.len(),
            EventType::Adc => self.adc.len(),
            EventType::Gradient(channel) => match channel {
                GradientChannel::X => self.gx.len(),
                GradientChannel::Y => self.gy.len(),
                GradientChannel::Z => self.gz.len(),
            },
        }
    }

    /// The next encounter of the kind `ty`: the first interval of its channel
    /// that starts at or after `i_start`, as the half open range of its
    /// samples.
    pub fn encounter(&self, i_start: usize, ty: EventType) -> (result: Option<(usize, usize)>)
        requires
            self.wf(),
        ensures
            is_encounter(self.channel(ty), i_start as int, result),
    {
        match ty {
            EventType::RfPulse => self.rf.encounter(i_start),
            EventType::Adc => self.adc.encounter(i_start),
            EventType::Gradient(channel) => match channel {
                GradientChannel::X => self.gx.encounter(i_start),
                GradientChannel::Y => self.gy.encounter(i_start),
                GradientChannel::Z => self.gz.encounter(i_start),
            },
        }
    }

    /// The events of the kind `ty` in `i_start..i_end`, in ascending order;
    /// the first `max_count` of them where there are more. For the RF and the
    /// gradient channels these are the raster points, for the ADC channel the
    /// sample times.
    pub fn events(&self, ty: EventType, i_start: usize, i_end: usize, max_count: usize) -> (result:
        Events)
        requires
            self.wf(),
        ensures
            result.count() <= max_count,
            match ty {
                EventType::Adc => is_adc_events(
                    self.adc,
                    i_start as int,
                    i_end as int,
                    max_count as int,
                    result,
                ),
                _ => result matches Events::Raster(v) && {
                    &&& same_ints(
                        v@,
                        capped(
                            raster_points(
                                self.channel(ty).samples() as int,
                                i_start as int,
                                i_end as int,
                            ),
                            max_count as int,
                        ),
                    )
                    &&& rising_within(v@, i_start as int, i_end as int)
                },
            },
    {
        match ty {
            EventType::RfPulse => Events::Raster(self.rf.events(i_start, i_end, max_count)),
            EventType::Adc => self.adc.events(i_start, i_end, max_count),
            EventType::Gradient(channel) => match channel {
                GradientChannel::X => Events::Raster(self.gx.events(i_start, i_end, max_count)),
                GradientChannel::Y => Events::Raster(self.gy.events(i_start, i_end, max_count)),
                GradientChannel::Z => Events::Raster(self.gz.events(i_start, i_end, max_count)),
            },
        }
    }
}

} // verus!

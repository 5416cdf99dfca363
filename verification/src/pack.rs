//! Run-length packing of waveforms: the inverse of decoding.
//!
//! Packing writes the derivative of a waveform sample by sample. After two
//! equal samples in a row it writes how often the value occurs again, and
//! then goes on with plain values; the two samples after a repeat count are
//! never taken for a repetition.
use crate::shape::{
    cooldown, counts_valid, decodable, derivative, expand, is_repeat_count, is_shape_of, prev,
    prev_prev, repeated, running_sum,
};
use vstd::prelude::*;

verus! {

/// How many entries of `d` in a row, from position `j` on, equal `v`.
pub open spec fn run_length(d: Seq<i64>, j: int, v: i64) -> int
    decreases d.len() - j,
{
    if 0 <= j < d.len() && d[j] == v {
        1 + run_length(d, j + 1, v)
    } else {
        0
    }
}

/// A run does not reach beyond the end of `d`.
pub proof fn lemma_run_length_bound(d: Seq<i64>, j: int, v: i64)
    requires
        0 <= j <= d.len(),
    ensures
        0 <= run_length(d, j, v) <= d.len() - j,
    decreases d.len() - j,
{
    if j < d.len() && d[j] == v {
        lemma_run_length_bound(d, j + 1, v);
    }
}

/// The stream that packs the derivative `d` from position `j` on, where the
/// two samples written last are `a` and `b` and `skip` more samples are
/// exempt from repeat detection.
pub open spec fn pack_from(d: Seq<i64>, j: int, a: i64, b: i64, skip: int) -> Seq<i64>
    decreases d.len() - j,
        (if a == b && skip == 0 {
            1int
        } else {
            0int
        }),
{
    if j < 0 || j > d.len() {
        Seq::empty()
    } else if a == b && skip == 0 {
        let n = run_length(d, j, b);
        proof {
            lemma_run_length_bound(d, j, b);
        }
        seq![n as i64] + pack_from(d, j + n, b, n as i64, 2)
    } else if j == d.len() {
        Seq::empty()
    } else {
        seq![d[j]] + pack_from(
            d,
            j + 1,
            b,
            d[j],
            if skip > 0 {
                skip - 1
            } else {
                0
            },
        )
    }
}

/// The stream that packs the derivative `d`.
pub open spec fn pack(d: Seq<i64>) -> Seq<i64> {
    pack_from(d, 0, i64::MIN, i64::MAX, 0)
}

/// The step of the waveform `w` that leads to its sample `k`: from the sample
/// before it, or from zero for the first sample.
pub open spec fn step(w: Seq<i64>, k: int) -> int {
    w[k] - if k > 0 {
        w[k - 1]
    } else {
        0
    }
}

/// The derivative of the waveform `w`: its steps.
pub open spec fn differences(w: Seq<i64>) -> Seq<i64> {
    Seq::new(w.len(), |k: int| step(w, k) as i64)
}

/// The waveforms that can be packed: every step is an `i64`, and so is the
/// length, which bounds every repeat count.
pub open spec fn packable(w: Seq<i64>) -> bool {
    &&& w.len() <= i64::MAX
    &&& forall|k: int| 0 <= k < w.len() ==> i64::MIN <= #[trigger] step(w, k) <= i64::MAX
}

/// Every repeat count of the stream that has a sample behind it counts all
/// the repetitions: the sample behind it is another value.
pub open spec fn counts_maximal(s: Seq<i64>) -> bool {
    forall|i: int|
        0 <= i && i + 1 < s.len() && #[trigger] is_repeat_count(s, i) ==> s[i + 1] != prev(s, i)
}

/// The streams that packing writes: no repeat count is negative, every
/// repeat count counts all the repetitions, and the stream does not end
/// where a repeat count is due.
pub open spec fn canonical(s: Seq<i64>) -> bool {
    &&& counts_valid(s)
    &&& counts_maximal(s)
    &&& !is_repeat_count(s, s.len() as int)
}

/// What is decoded from fewer samples is the beginning of what is decoded
/// from more.
proof fn lemma_expand_prefix(s: Seq<i64>, i: int, m: int)
    requires
        0 <= i <= m <= s.len(),
    ensures
        expand(s, i).len() <= expand(s, m).len(),
        expand(s, m).take(expand(s, i).len() as int) == expand(s, i),
    decreases m - i,
{
    if i < m {
        lemma_expand_prefix(s, i, m - 1);
        let shorter = expand(s, m - 1);
        let longer = expand(s, m);
        assert(longer.take(shorter.len() as int) =~= shorter);
        assert(longer.take(expand(s, i).len() as int) =~= shorter.take(expand(s, i).len() as int));
    } else {
        assert(expand(s, m).take(expand(s, i).len() as int) =~= expand(s, i));
    }
}

/// A stretch of `c` entries equal to `v` that ends at the end of `d`, or in
/// front of another value, is a run of the length `c`.
proof fn lemma_run_length_exact(d: Seq<i64>, j: int, v: i64, c: int)
    requires
        0 <= j,
        0 <= c,
        j + c <= d.len(),
        forall|k: int| j <= k < j + c ==> d[k] == v,
        j + c == d.len() || d[j + c] != v,
    ensures
        run_length(d, j, v) == c,
    decreases c,
{
    if c > 0 {
        lemma_run_length_exact(d, j + 1, v, c - 1);
    }
}

/// Packing, taken up where the first `i` samples of a canonical stream have
/// been written, writes the rest of the stream.
proof fn lemma_pack_rest(s: Seq<i64>, i: int)
    requires
        canonical(s),
        0 <= i <= s.len(),
    ensures
        pack_from(
            derivative(s),
            expand(s, i).len() as int,
            prev_prev(s, i),
            prev(s, i),
            cooldown(s, i),
        ) == s.subrange(i, s.len() as int),
    decreases s.len() - i,
{
    let n = s.len() as int;
    let d = derivative(s);
    let j = expand(s, i).len() as int;
    let a = prev_prev(s, i);
    let b = prev(s, i);
    let skip = cooldown(s, i);
    lemma_expand_prefix(s, i, n);
    if i == n {
        assert(j == d.len());
        assert(!is_repeat_count(s, n));
        assert(s.subrange(i, n) =~= Seq::<i64>::empty());
    } else {
        lemma_pack_rest(s, i + 1);
        lemma_expand_prefix(s, i + 1, n);
        let next = expand(s, i + 1);
        assert(d.take(next.len() as int) == next);
        if is_repeat_count(s, i) {
            let c = s[i] as int;
            assert(c >= 0);
            assert(next == expand(s, i) + repeated(b, c));
            assert forall|k: int| j <= k < j + c implies d[k] == b by {
                assert(d.take(next.len() as int)[k] == next[k]);
                assert(next[k] == repeated(b, c)[k - j]);
            }
            if j + c < d.len() {
                // The stream goes on, and its next sample is a plain value.
                assert(i + 1 < n) by {
                    if i + 1 == n {
                        assert(next == d);
                    }
                }
                lemma_expand_prefix(s, i + 2, n);
                let after = expand(s, i + 2);
                assert(!is_repeat_count(s, i + 1));
                assert(after == next.push(s[i + 1]));
                assert(d.take(after.len() as int)[j + c] == after[j + c]);
                assert(d[j + c] == s[i + 1]);
            }
            lemma_run_length_exact(d, j, b, c);
            assert(s.subrange(i, n) =~= seq![s[i]] + s.subrange(i + 1, n));
        } else {
            assert(next == expand(s, i).push(s[i]));
            assert(d.take(next.len() as int)[j] == next[j]);
            assert(d[j] == s[i]);
            assert(s.subrange(i, n) =~= seq![s[i]] + s.subrange(i + 1, n));
        }
    }
}

/// Packing the derivative that a canonical stream decodes to gives the
/// stream back.
pub proof fn lemma_pack_derivative(s: Seq<i64>)
    requires
        canonical(s),
    ensures
        pack(derivative(s)) == s,
{
    lemma_pack_rest(s, 0);
    assert(s.subrange(0, s.len() as int) =~= s);
}

/// The steps of the running sums of `d` are the entries of `d`.
proof fn lemma_differences_of_sums(shape: Seq<i64>, d: Seq<i64>)
    requires
        shape.len() == d.len(),
        forall|k: int| 0 <= k < shape.len() ==> shape[k] == #[trigger] running_sum(d, k + 1),
    ensures
        differences(shape) == d,
{
    assert forall|k: int| 0 <= k < d.len() implies differences(shape)[k] == d[k] by {
        assert(shape[k] == running_sum(d, k + 1));
        assert(running_sum(d, k + 1) == running_sum(d, k) + d[k]);
        if k > 0 {
            assert(shape[k - 1] == running_sum(d, k - 1 + 1));
        } else {
            assert(running_sum(d, 0) == 0);
        }
        assert(step(shape, k) == d[k]);
    }
    assert(differences(shape) =~= d);
}

/// Decoding a canonical stream and packing the waveform again gives the
/// stream back.
pub proof fn lemma_round_trip(s: Seq<i64>, shape: Seq<i64>)
    requires
        canonical(s),
        is_shape_of(shape, s),
    ensures
        pack(differences(shape)) == s,
{
    lemma_differences_of_sums(shape, derivative(s));
    lemma_pack_derivative(s);
}

/// What is read from the first `i` samples of a stream does not depend on
/// the samples behind them.
proof fn lemma_prefix_only(s: Seq<i64>, x: i64, i: int)
    requires
        0 <= i <= s.len(),
    ensures
        prev(s.push(x), i) == prev(s, i),
        prev_prev(s.push(x), i) == prev_prev(s, i),
        cooldown(s.push(x), i) == cooldown(s, i),
        is_repeat_count(s.push(x), i) == is_repeat_count(s, i),
        expand(s.push(x), i) == expand(s, i),
    decreases i,
{
    if i > 0 {
        lemma_prefix_only(s, x, i - 1);
        assert(s.push(x)[i - 1] == s[i - 1]);
    }
}

/// A run ends at the end of `d` or in front of another value, and all its
/// entries are equal.
proof fn lemma_run_length_run(d: Seq<i64>, j: int, v: i64)
    requires
        0 <= j <= d.len(),
    ensures
        forall|k: int| j <= k < j + run_length(d, j, v) ==> d[k] == v,
        j + run_length(d, j, v) == d.len() || d[j + run_length(d, j, v)] != v,
    decreases d.len() - j,
{
    lemma_run_length_bound(d, j, v);
    if j < d.len() && d[j] == v {
        lemma_run_length_run(d, j + 1, v);
    }
}

/// Where the stream written so far ends with a repeat count, the derivative
/// goes on with another value.
spec fn run_closed(out: Seq<i64>, d: Seq<i64>, j: int) -> bool {
    out.len() > 0 && is_repeat_count(out, out.len() - 1) ==> j == d.len() || d[j] != prev(
        out,
        out.len() - 1,
    )
}

/// Packing, taken up where `out` has been written for the first `j` entries
/// of the derivative, completes `out` to a canonical stream that decodes to
/// the derivative.
proof fn lemma_pack_from_decodes(d: Seq<i64>, j: int, out: Seq<i64>)
    requires
        d.len() <= i64::MAX,
        0 <= j <= d.len(),
        derivative(out) == d.take(j),
        counts_valid(out),
        counts_maximal(out),
        run_closed(out, d, j),
    ensures
        canonical(
            out + pack_from(
                d,
                j,
                prev_prev(out, out.len() as int),
                prev(out, out.len() as int),
                cooldown(out, out.len() as int),
            ),
        ),
        derivative(
            out + pack_from(
                d,
                j,
                prev_prev(out, out.len() as int),
                prev(out, out.len() as int),
                cooldown(out, out.len() as int),
            ),
        ) == d,
    decreases d.len() - j,
        (if is_repeat_count(out, out.len() as int) {
            1int
        } else {
            0int
        }),
{
    let len = out.len() as int;
    let a = prev_prev(out, len);
    let b = prev(out, len);
    let skip = cooldown(out, len);
    let rest = pack_from(d, j, a, b, skip);
    if !(a == b && skip == 0) && j == d.len() {
        assert(rest =~= Seq::<i64>::empty());
        assert(out + rest =~= out);
        assert(d.take(j) =~= d);
    } else {
        // The sample written next, and how far it takes the derivative.
        let count = a == b && skip == 0;
        let n = run_length(d, j, b);
        lemma_run_length_bound(d, j, b);
        lemma_run_length_run(d, j, b);
        let x = if count {
            n as i64
        } else {
            d[j]
        };
        let j2 = if count {
            j + n
        } else {
            j + 1
        };
        let out2 = out.push(x);
        lemma_prefix_only(out, x, len);
        assert(out2[len] == x);
        assert(prev(out2, len + 1) == x);
        assert(prev_prev(out2, len + 1) == b);
        assert(derivative(out2) == d.take(j2)) by {
            assert(expand(out2, len) == d.take(j));
            if count {
                assert(d.take(j) + repeated(b, n) =~= d.take(j2));
            } else {
                assert(d.take(j).push(d[j]) =~= d.take(j2));
            }
        }
        assert(counts_valid(out2)) by {
            assert forall|i: int| 0 <= i < out2.len() && is_repeat_count(out2, i) implies out2[i]
                >= 0 by {
                lemma_prefix_only(out, x, i);
                if i < len {
                    assert(out2[i] == out[i]);
                }
            }
        }
        assert(counts_maximal(out2)) by {
            assert forall|i: int|
                0 <= i && i + 1 < out2.len() && #[trigger] is_repeat_count(out2, i) implies out2[i
                + 1] != prev(out2, i) by {
                lemma_prefix_only(out, x, i);
                if i + 1 < len {
                    assert(out2[i + 1] == out[i + 1]);
                }
            }
        }
        assert(run_closed(out2, d, j2));
        assert(rest == seq![x] + pack_from(
            d,
            j2,
            prev_prev(out2, len + 1),
            prev(out2, len + 1),
            cooldown(out2, len + 1),
        ));
        lemma_pack_from_decodes(d, j2, out2);
        assert(out + rest =~= out2 + pack_from(
            d,
            j2,
            prev_prev(out2, len + 1),
            prev(out2, len + 1),
            cooldown(out2, len + 1),
        ));
    }
}

/// Packing writes a canonical stream, and the stream decodes to the
/// derivative that was packed.
pub proof fn lemma_pack_decodes(d: Seq<i64>)
    requires
        d.len() <= i64::MAX,
    ensures
        canonical(pack(d)),
        derivative(pack(d)) == d,
{
    let out = Seq::<i64>::empty();
    assert(d.take(0) =~= out);
    lemma_pack_from_decodes(d, 0, out);
    assert(out + pack(d) =~= pack(d));
}

/// The running sums of the steps of a waveform are its samples.
proof fn lemma_sums_of_differences(w: Seq<i64>, n: int)
    requires
        0 <= n <= w.len(),
        forall|k: int| 0 <= k < w.len() ==> i64::MIN <= #[trigger] step(w, k) <= i64::MAX,
    ensures
        running_sum(differences(w), n) == if n > 0 {
            w[n - 1] as int
        } else {
            0
        },
    decreases n,
{
    if n > 0 {
        lemma_sums_of_differences(w, n - 1);
        assert(differences(w)[n - 1] == step(w, n - 1));
    }
}

/// The stream that a waveform is packed into decodes to the waveform.
pub proof fn lemma_packed_decodes(w: Seq<i64>)
    requires
        packable(w),
    ensures
        canonical(pack(differences(w))),
        decodable(pack(differences(w)), w.len()),
        is_shape_of(w, pack(differences(w))),
{
    let d = differences(w);
    lemma_pack_decodes(d);
    assert forall|k: int| 0 <= k < w.len() implies w[k] == #[trigger] running_sum(d, k + 1) by {
        lemma_sums_of_differences(w, k + 1);
    }
}

/// Decoding the stream that a derivative is packed into gives the running
/// sums of the derivative, and packing the steps of that waveform gives the
/// stream back.
pub proof fn lemma_decode_then_pack(d: Seq<i64>, shape: Seq<i64>)
    requires
        d.len() <= i64::MAX,
        is_shape_of(shape, pack(d)),
    ensures
        shape.len() == d.len(),
        forall|k: int| 0 <= k < shape.len() ==> shape[k] == #[trigger] running_sum(d, k + 1),
        differences(shape) == d,
        pack(differences(shape)) == pack(d),
{
    lemma_pack_decodes(d);
    lemma_differences_of_sums(shape, d);
}

/// The steps of the waveform, where each of them is an `i64`.
fn steps(shape: &Vec<i64>) -> (result: Option<Vec<i64>>)
    ensures
        result is Some <==> forall|k: int|
            0 <= k < shape@.len() ==> i64::MIN <= #[trigger] step(shape@, k) <= i64::MAX,
        result matches Some(d) ==> d@ == differences(shape@),
{
    let mut d: Vec<i64> = Vec::new();
    let mut last: i64 = 0;
    let mut k: usize = 0;
    while k < shape.len()
        invariant
            k <= shape@.len(),
            last == if k > 0 {
                shape@[k - 1]
            } else {
                0
            },
            d@ == differences(shape@).take(k as int),
            forall|i: int| 0 <= i < k ==> i64::MIN <= #[trigger] step(shape@, i) <= i64::MAX,
        decreases shape.len() - k,
    {
        match shape[k].checked_sub(last) {
            Some(x) => {
                d.push(x);
                assert(x == step(shape@, k as int));
                assert(d@ =~= differences(shape@).take(k + 1));
            },
            None => {
                assert(!(i64::MIN <= step(shape@, k as int) <= i64::MAX));
                return None;
            },
        }
        last = shape[k];
        k = k + 1;
    }
    assert(d@ =~= differences(shape@));
    Some(d)
}

/// Counts the entries of `d` in a row, from position `j` on, that equal `v`.
fn count_run(d: &Vec<i64>, j: usize, v: i64) -> (c: usize)
    requires
        j <= d@.len(),
    ensures
        c == run_length(d@, j as int, v),
        j + c <= d@.len(),
{
    let n: usize = d.len();
    let mut c: usize = 0;
    while j + c < n && d[j + c] == v
        invariant
            n == d@.len(),
            j + c <= n,
            run_length(d@, j as int, v) == c + run_length(d@, j + c, v),
        decreases n - j - c,
    {
        c = c + 1;
    }
    c
}

/// Packs a derivative into a stream.
fn pack_stream(d: &Vec<i64>) -> (stream: Vec<i64>)
    requires
        d@.len() <= i64::MAX,
    ensures
        stream@ == pack(d@),
{
    let n: usize = d.len();
    let mut stream: Vec<i64> = Vec::new();
    // The two samples written last.
    let mut a: i64 = i64::MIN;
    let mut b: i64 = i64::MAX;
    // After a repeat count, the next two samples are plain values.
    let mut skip: u8 = 0;
    let mut j: usize = 0;
    assert(stream@ + pack(d@) =~= pack(d@));
    while (a == b && skip == 0) || j < n
        invariant
            n == d@.len(),
            n <= i64::MAX,
            j <= n,
            stream@ + pack_from(d@, j as int, a, b, skip as int) == pack(d@),
        decreases n - j,
            (if a == b && skip == 0 {
                1int
            } else {
                0int
            }),
    {
        let ghost rest = pack_from(d@, j as int, a, b, skip as int);
        let ghost before = stream@;
        if a == b && skip == 0 {
            let c: usize = count_run(d, j, b);
            let count: i64 = c as i64;
            stream.push(count);
            a = b;
            b = count;
            skip = 2;
            j = j + c;
        } else {
            let x: i64 = d[j];
            stream.push(x);
            a = b;
            b = x;
            if skip > 0 {
                skip = skip - 1;
            }
            j = j + 1;
        }
        proof {
            let tail = pack_from(d@, j as int, a, b, skip as int);
            assert(rest == seq![stream@.last()] + tail);
            assert(stream@ + tail =~= before + rest);
        }
    }
    assert(pack_from(d@, j as int, a, b, skip as int) =~= Seq::<i64>::empty());
    assert(stream@ + Seq::<i64>::empty() =~= stream@);
    stream
}

/// Packs a waveform into the canonical stream that decodes to it, or `None`
/// where the waveform cannot be packed.
pub fn compress_shape(shape: &Vec<i64>) -> (result: Option<Vec<i64>>)
    ensures
        result is Some <==> packable(shape@),
        result matches Some(stream) ==> {
            &&& stream@ == pack(differences(shape@))
            &&& canonical(stream@)
            &&& decodable(stream@, shape@.len())
            &&& is_shape_of(shape@, stream@)
        },
{
    if shape.len() as u64 > 0x7fff_ffff_ffff_ffff {
        return None;
    }
    match steps(shape) {
        Some(d) => {
            proof {
                lemma_packed_decodes(shape@);
            }
            Some(pack_stream(&d))
        },
        None => None,
    }
}

} // verus!

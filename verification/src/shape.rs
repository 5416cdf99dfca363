//! Decoding of run-length packed waveforms.
//!
//! A raster channel is stored as a stream of integers that encodes the
//! *derivative* of the waveform. Whenever two consecutive stream samples are
//! equal, the sample that follows them is not a value but a repeat count: the
//! value just seen occurs that many more times. After a repeat count the next
//! two samples are always plain values, whatever they hold. The waveform is
//! the running sum of the derivative obtained this way.
use vstd::prelude::*;

verus! {

/// The stream sample one place before position `i`. In front of the stream
/// the lookback is seeded with `i64::MAX`.
pub open spec fn prev(s: Seq<i64>, i: int) -> i64 {
    if i >= 1 {
        s[i - 1]
    } else {
        i64::MAX
    }
}

/// The stream sample two places before position `i`. In front of the stream
/// the lookback is seeded with the pair `i64::MIN`, `i64::MAX`, so that the
/// seeds never look like a repetition; a stream that opens with `i64::MAX`
/// itself does repeat the nearer seed.
pub open spec fn prev_prev(s: Seq<i64>, i: int) -> i64 {
    if i >= 2 {
        s[i - 2]
    } else if i == 1 {
        i64::MAX
    } else {
        i64::MIN
    }
}

/// How many samples, counted from position `i` on, are exempt from repeat
/// detection: two right after a repeat count, then one, then none.
pub open spec fn cooldown(s: Seq<i64>, i: int) -> int
    decreases i,
{
    if i <= 0 {
        0
    } else {
        let c = cooldown(s, i - 1);
        if c == 0 && prev_prev(s, i - 1) == prev(s, i - 1) {
            2
        } else if c > 0 {
            c - 1
        } else {
            0
        }
    }
}

/// Whether the sample at position `i` is read as a repeat count: the two
/// samples before it are equal and no cooldown is running.
pub open spec fn is_repeat_count(s: Seq<i64>, i: int) -> bool {
    cooldown(s, i) == 0 && prev_prev(s, i) == prev(s, i)
}

/// `n` copies of `v`; none if `n` is not positive.
pub open spec fn repeated(v: i64, n: int) -> Seq<i64> {
    Seq::new(
        if n > 0 {
            n as nat
        } else {
            0
        },
        |k: int| v,
    )
}

/// The derivative decoded from the first `i` samples of the stream.
pub open spec fn expand(s: Seq<i64>, i: int) -> Seq<i64>
    decreases i,
{
    if i <= 0 {
        Seq::empty()
    } else if is_repeat_count(s, i - 1) {
        expand(s, i - 1) + repeated(prev(s, i - 1), s[i - 1] as int)
    } else {
        expand(s, i - 1).push(s[i - 1])
    }
}

/// The derivative that the whole stream decodes to.
pub open spec fn derivative(s: Seq<i64>) -> Seq<i64> {
    expand(s, s.len() as int)
}

/// The sum of the first `n` entries of `d`.
pub open spec fn running_sum(d: Seq<i64>, n: int) -> int
    decreases n,
{
    if n <= 0 {
        0
    } else {
        running_sum(d, n - 1) + d[n - 1]
    }
}

/// No sample that is read as a repeat count is negative.
pub open spec fn counts_valid(s: Seq<i64>) -> bool {
    forall|i: int| 0 <= i < s.len() && is_repeat_count(s, i) ==> s[i] >= 0
}

/// Every running sum of `d` is an `i64`.
pub open spec fn sums_fit(d: Seq<i64>) -> bool {
    forall|k: int| 0 <= k < d.len() ==> i64::MIN <= #[trigger] running_sum(d, k + 1) <= i64::MAX
}

/// The streams that decode to a waveform of `n` samples.
pub open spec fn decodable(s: Seq<i64>, n: nat) -> bool {
    &&& counts_valid(s)
    &&& derivative(s).len() == n
    &&& sums_fit(derivative(s))
}

/// Whether `shape` is the waveform that the stream `s` decodes to: the
/// running sums of its derivative.
pub open spec fn is_shape_of(shape: Seq<i64>, s: Seq<i64>) -> bool {
    &&& shape.len() == derivative(s).len()
    &&& forall|k: int| 0 <= k < shape.len() ==> shape[k] == #[trigger] running_sum(derivative(s), k + 1)
}

/// Why a stream does not decode.
#[derive(Debug, Clone, Copy, PartialEq, Eq, Structural)]
pub enum ShapeError {
    /// A sample in the place of a repeat count is negative.
    NegativeRepeat,
    /// The stream decodes to another number of samples than was declared.
    LengthMismatch,
    /// A running sum of the derivative leaves the range of `i64`.
    Overflow,
}

/// Appends `count` copies of `value` to `out`.
fn push_repeated(out: &mut Vec<i64>, value: i64, count: i64)
    requires
        count >= 0,
    ensures
        final(out)@ == old(out)@ + repeated(value, count as int),
{
    let mut k: i64 = 0;
    while k < count
        invariant
            0 <= k <= count,
            out@ == old(out)@ + repeated(value, k as int),
        decreases count - k,
    {
        out.push(value);
        k = k + 1;
        assert(out@ =~= old(out)@ + repeated(value, k as int));
    }
}

/// Undoes the run-length packing: the derivative of the waveform, if it has
/// exactly `num_samples` entries.
///
/// A negative repeat count is reported wherever it stands in the stream, even
/// behind the place where the decoded length passes `num_samples`.
fn unpack(samples: &Vec<i64>, num_samples: usize) -> (result: Result<Vec<i64>, ShapeError>)
    ensures
        match result {
            Ok(deriv) => counts_valid(samples@) && deriv@ == derivative(samples@) && deriv@.len()
                == num_samples,
            Err(ShapeError::NegativeRepeat) => !counts_valid(samples@),
            Err(ShapeError::LengthMismatch) => counts_valid(samples@) && derivative(samples@).len()
                != num_samples,
            Err(ShapeError::Overflow) => false,
        },
{
    let mut deriv: Vec<i64> = Vec::new();
    // The two samples before the current one.
    let mut a: i64 = i64::MIN;
    let mut b: i64 = i64::MAX;
    // After a repeat count, the next two samples are plain values.
    let mut skip: u8 = 0;
    // Set once the decoded derivative has outgrown `num_samples`.
    let mut overfull = false;
    let mut i: usize = 0;
    while i < samples.len()
        invariant
            i <= samples.len(),
            a == prev_prev(samples@, i as int),
            b == prev(samples@, i as int),
            skip == cooldown(samples@, i as int),
            forall|j: int| 0 <= j < i && is_repeat_count(samples@, j) ==> samples@[j] >= 0,
            !overfull ==> deriv@ == expand(samples@, i as int) && deriv@.len() <= num_samples,
            overfull ==> expand(samples@, i as int).len() > num_samples,
        decreases samples.len() - i,
    {
        let sample: i64 = samples[i];
        if a == b && skip == 0 {
            skip = 2;
            if sample < 0 {
                assert(is_repeat_count(samples@, i as int) && samples@[i as int] < 0);
                return Err(ShapeError::NegativeRepeat);
            }
            if !overfull {
                if sample as u64 > (num_samples - deriv.len()) as u64 {
                    overfull = true;
                } else {
                    push_repeated(&mut deriv, b, sample);
                }
            }
        } else {
            if skip > 0 {
                skip = skip - 1;
            }
            if !overfull {
                if deriv.len() == num_samples {
                    overfull = true;
                } else {
                    deriv.push(sample);
                }
            }
        }
        a = b;
        b = sample;
        i = i + 1;
    }
    if overfull || deriv.len() != num_samples {
        Err(ShapeError::LengthMismatch)
    } else {
        Ok(deriv)
    }
}

/// The running sums of `deriv`, seeded at zero.
fn accumulate(deriv: &Vec<i64>) -> (result: Option<Vec<i64>>)
    ensures
        match result {
            Some(shape) => {
                &&& sums_fit(deriv@)
                &&& shape@.len() == deriv@.len()
                &&& forall|k: int|
                    0 <= k < shape@.len() ==> shape@[k] == #[trigger] running_sum(deriv@, k + 1)
            },
            None => !sums_fit(deriv@),
        },
{
    let mut shape: Vec<i64> = Vec::new();
    let mut acc: i64 = 0;
    let mut k: usize = 0;
    while k < deriv.len()
        invariant
            k <= deriv.len(),
            shape@.len() == k,
            acc == running_sum(deriv@, k as int),
            forall|j: int| 0 <= j < k ==> shape@[j] == #[trigger] running_sum(deriv@, j + 1),
        decreases deriv.len() - k,
    {
        match acc.checked_add(deriv[k]) {
            Some(next) => {
                acc = next;
                shape.push(next);
            },
            None => {
                assert(!(i64::MIN <= running_sum(deriv@, k as int + 1) <= i64::MAX));
                return None;
            },
        }
        k = k + 1;
    }
    Some(shape)
}

/// Decodes a packed stream into the waveform of `num_samples` samples that it
/// stands for, or says why the stream does not decode.
///
/// Of the three errors the first that applies is returned: a negative repeat
/// count anywhere in the stream, then a decoded length other than
/// `num_samples`, then a running sum outside of `i64`.
pub fn try_decompress_shape(samples: &Vec<i64>, num_samples: usize) -> (result: Result<
    Vec<i64>,
    ShapeError,
>)
    ensures
        result is Ok <==> decodable(samples@, num_samples as nat),
        match result {
            Ok(shape) => shape@.len() == num_samples && is_shape_of(shape@, samples@),
            Err(ShapeError::NegativeRepeat) => !counts_valid(samples@),
            Err(ShapeError::LengthMismatch) => counts_valid(samples@) && derivative(samples@).len()
                != num_samples,
            Err(ShapeError::Overflow) => counts_valid(samples@) && derivative(samples@).len()
                == num_samples && !sums_fit(derivative(samples@)),
        },
{
    match unpack(samples, num_samples) {
        Err(e) => Err(e),
        Ok(deriv) => match accumulate(&deriv) {
            Some(shape) => Ok(shape),
            None => Err(ShapeError::Overflow),
        },
    }
}

/// Decodes a packed stream into the waveform of `num_samples` samples that it
/// stands for.
pub fn decompress_shape(samples: Vec<i64>, num_samples: usize) -> (shape: Vec<i64>)
    requires
        decodable(samples@, num_samples as nat),
    ensures
        shape@.len() == num_samples,
        is_shape_of(shape@, samples@),
{
    match try_decompress_shape(&samples, num_samples) {
        Ok(shape) => shape,
        Err(_) => {
            assert(false);
            Vec::new()
        },
    }
}

} // verus!

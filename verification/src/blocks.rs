//! Lookup of the block that is active at a given time.
//!
//! Times are handled as integer keys that keep the total order of IEEE 754
//! double precision numbers, so that the index needs no floating point
//! arithmetic: a caller turns the bit pattern of a time into its key once and
//! searches with it.
use vstd::prelude::*;

verus! {

/// The key of the double precision number with the bit pattern `bits`. A
/// number with a clear sign bit has its bit pattern as key. A number with the
/// sign bit set has a negative key that falls as its magnitude grows, and
/// negative zero has the key `-1`.
pub open spec fn key_of(bits: u64) -> int {
    if bits < 0x8000_0000_0000_0000 {
        bits as int
    } else {
        0x8000_0000_0000_0000 - bits - 1
    }
}

/// Computes the key of the double precision number with the bit pattern
/// `bits`.
pub fn time_key(bits: u64) -> (key: i64)
    ensures
        key == key_of(bits),
{
    if bits < 0x8000_0000_0000_0000 {
        bits as i64
    } else {
        let magnitude: u64 = bits - 0x8000_0000_0000_0000;
        -1 - (magnitude as i64)
    }
}

/// Keys keep apart what the bit patterns keep apart, and among numbers of one
/// sign they run with the magnitude: upwards where the sign bit is clear,
/// downwards where it is set. Every key of a number with the sign bit set
/// lies below every key of a number with a clear sign bit.
pub proof fn lemma_key_order(x: u64, y: u64)
    ensures
        key_of(x) == key_of(y) <==> x == y,
        x < y < 0x8000_0000_0000_0000 ==> key_of(x) < key_of(y),
        0x8000_0000_0000_0000 <= x < y ==> key_of(x) > key_of(y),
        y < 0x8000_0000_0000_0000 <= x ==> key_of(x) < key_of(y),
{
}

/// The keys never fall from one entry to the next.
pub open spec fn ascending(s: Seq<i64>) -> bool {
    forall|j: int, k: int| 0 <= j <= k < s.len() ==> s[j] <= s[k]
}

/// Whether `idx` is the block to start from for the time `t`: the last block
/// that starts at or before `t`, or block `0` where no block does.
pub open spec fn is_at_or_before(s: Seq<i64>, t: i64, idx: int) -> bool {
    if exists|k: int| 0 <= k < s.len() && s[k] <= t {
        &&& 0 <= idx < s.len()
        &&& s[idx] <= t
        &&& forall|k: int| idx < k < s.len() ==> s[k] > t
    } else {
        idx == 0
    }
}

/// Whether `first..last` are the blocks to visit for the time span from
/// `t_start` to `t_end`: from the block to start from for `t_start`, up to
/// the first block from there on that starts at or after `t_end`.
pub open spec fn is_span(s: Seq<i64>, t_start: i64, t_end: i64, first: int, last: int) -> bool {
    &&& is_at_or_before(s, t_start, first)
    &&& first <= last <= s.len()
    &&& forall|k: int| first <= k < last ==> s[k] < t_end
    &&& last < s.len() ==> s[last] >= t_end
}

proof fn lemma_ascending(s: Seq<i64>, j: int, k: int)
    requires
        forall|i: int| 1 <= i < s.len() ==> s[i - 1] <= #[trigger] s[i],
        0 <= j <= k < s.len(),
    ensures
        s[j] <= s[k],
    decreases k - j,
{
    if j < k {
        lemma_ascending(s, j, k - 1);
    }
}

/// The start times of the blocks of a sequence, in ascending order.
#[derive(Debug)]
pub struct BlockIndex {
    starts: Vec<i64>,
}

impl BlockIndex {
    /// The keys of the block start times, in the order of the blocks.
    pub closed spec fn view(&self) -> Seq<i64> {
        self.starts@
    }

    /// The start times are in ascending order.
    pub open spec fn wf(&self) -> bool {
        ascending(self@)
    }

    /// Builds the index from the keys of the block start times, or `None`
    /// where they are not in ascending order.
    pub fn new(starts: Vec<i64>) -> (result: Option<BlockIndex>)
        ensures
            result is Some <==> ascending(starts@),
            result matches Some(index) ==> index.wf() && index@ == starts@,
    {
        let mut i: usize = 1;
        while i < starts.len()
            invariant
                1 <= i,
                forall|k: int| 1 <= k < i && k < starts@.len() ==> starts@[k - 1] <= #[trigger] starts@[k],
            decreases starts.len() - i,
        {
            if starts[i - 1] > starts[i] {
                return None;
            }
            i = i + 1;
        }
        proof {
            assert forall|j: int, k: int| 0 <= j <= k < starts@.len() implies starts@[j]
                <= starts@[k] by {
                lemma_ascending(starts@, j, k);
            }
        }
        Some(BlockIndex { starts })
    }

    /// The number of blocks.
    pub fn len(&self) -> (n: usize)
        ensures
            n == self@.len(),
    {
        self.starts.len()
    }

    /// The index of the last block that starts at or before `t`; `0` where
    /// no block does. A scan for what happens from `t` on begins there.
    pub fn at_or_before(&self, t: i64) -> (idx: usize)
        requires
            self.wf(),
        ensures
            is_at_or_before(self@, t, idx as int),
    {
        // The number of blocks that start at or before `t`.
        let mut lo: usize = 0;
        let mut hi: usize = self.starts.len();
        while lo < hi
            invariant
                self.wf(),
                lo <= hi <= self@.len(),
                forall|k: int| 0 <= k < lo ==> self@[k] <= t,
                forall|k: int| hi <= k < self@.len() ==> self@[k] > t,
            decreases hi - lo,
        {
            let mid: usize = lo + (hi - lo) / 2;
            if self.starts[mid] <= t {
                lo = mid + 1;
            } else {
                hi = mid;
            }
        }
        if lo == 0 {
            0
        } else {
            assert(self@[lo - 1] <= t);
            lo - 1
        }
    }

    /// The blocks to visit for the time span from `t_start` to `t_end`, as a
    /// half open range of block indices: a block that starts at or after
    /// `t_end` has no part in the span, nor has any block behind it.
    pub fn span(&self, t_start: i64, t_end: i64) -> (range: (usize, usize))
        requires
            self.wf(),
        ensures
            is_span(self@, t_start, t_end, range.0 as int, range.1 as int),
    {
        let first: usize = self.at_or_before(t_start);
        // The number of blocks that start before `t_end`.
        let mut lo: usize = 0;
        let mut hi: usize = self.starts.len();
        while lo < hi
            invariant
                self.wf(),
                lo <= hi <= self@.len(),
                forall|k: int| 0 <= k < lo ==> self@[k] < t_end,
                forall|k: int| hi <= k < self@.len() ==> self@[k] >= t_end,
            decreases hi - lo,
        {
            let mid: usize = lo + (hi - lo) / 2;
            if self.starts[mid] < t_end {
                lo = mid + 1;
            } else {
                hi = mid;
            }
        }
        if lo < first {
            (first, first)
        } else {
            (first, lo)
        }
    }
}

} // verus!

//! Collecting the events of a time span one by one.
//!
//! Where a sequence can only say which event comes next after a given time,
//! a range query asks again and again and offers each answer to an
//! `EventList`. The list takes an event if it lies in the time span and behind
//! the events taken before, and as long as it holds fewer events than asked
//! for; with the first event that it does not take, the query is over. Times
//! are given as the integer keys of `crate::blocks`.
use vstd::prelude::*;

verus! {

/// The times rise strictly and lie in `t_start..t_end`, the end excluded.
pub open spec fn rising_between(times: Seq<i64>, t_start: i64, t_end: i64) -> bool {
    &&& forall|k: int| 0 <= k < times.len() ==> t_start <= #[trigger] times[k] < t_end
    &&& forall|j: int, k: int| 0 <= j < k < times.len() ==> #[trigger] times[j] < #[trigger] times[k]
}

/// The events found so far in the time span from `t_start` to `t_end`, of
/// which at most `max_count` are asked for.
#[derive(Debug)]
pub struct EventList {
    times: Vec<i64>,
    t_start: i64,
    t_end: i64,
    max_count: usize,
}

impl EventList {
    /// The times of the events taken so far.
    pub closed spec fn view(&self) -> Seq<i64> {
        self.times@
    }

    /// The start of the time span; it belongs to the span.
    pub closed spec fn t_start(&self) -> i64 {
        self.t_start
    }

    /// The end of the time span; it does not belong to the span.
    pub closed spec fn t_end(&self) -> i64 {
        self.t_end
    }

    /// The number of events asked for.
    pub closed spec fn max_count(&self) -> usize {
        self.max_count
    }

    /// The events rise strictly, lie in the time span, and are no more than
    /// were asked for.
    pub open spec fn wf(&self) -> bool {
        &&& rising_between(self@, self.t_start(), self.t_end())
        &&& self@.len() <= self.max_count()
    }

    /// Whether an event at the time `t` is taken: the list is not full, and
    /// `t` lies in the time span and behind the last event taken.
    pub open spec fn takes(&self, t: i64) -> bool {
        &&& self@.len() < self.max_count()
        &&& self.t_start() <= t < self.t_end()
        &&& self@.len() > 0 ==> self@.last() < t
    }

    /// An empty list for the time span from `t_start` to `t_end`.
    pub fn new(t_start: i64, t_end: i64, max_count: usize) -> (list: EventList)
        ensures
            list.wf(),
            list@.len() == 0,
            list.t_start() == t_start,
            list.t_end() == t_end,
            list.max_count() == max_count,
    {
        EventList { times: Vec::new(), t_start, t_end, max_count }
    }

    /// Offers the next event to the list. Returns whether the list took it;
    /// if not, the query is over, and the list may well lack events of the
    /// time span where it is full.
    pub fn offer(&mut self, t: i64) -> (taken: bool)
        requires
            old(self).wf(),
        ensures
            final(self).wf(),
            final(self).t_start() == old(self).t_start(),
            final(self).t_end() == old(self).t_end(),
            final(self).max_count() == old(self).max_count(),
            taken <==> old(self).takes(t),
            taken ==> final(self)@ == old(self)@.push(t),
            !taken ==> final(self)@ == old(self)@,
    {
        let n: usize = self.times.len();
        if n >= self.max_count || t < self.t_start || t >= self.t_end {
            return false;
        }
        if n > 0 && self.times[n - 1] >= t {
            return false;
        }
        self.times.push(t);
        true
    }

    /// The number of events taken so far.
    pub fn len(&self) -> (n: usize)
        ensures
            n == self@.len(),
    {
        self.times.len()
    }

    /// The times of the events taken.
    pub fn into_times(self) -> (times: Vec<i64>)
        ensures
            times@ == self@,
    {
        self.times
    }
}

} // verus!

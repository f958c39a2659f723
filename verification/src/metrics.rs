//! Counters kept by the clients and the servers' utilisation reading.
use vstd::prelude::*;

verus! {

/// Statistics of one client thread: the summed response time (ms) of the
/// answered requests, the number of answers and the number of requests sent.
pub struct ClientStats {
    pub sum_response_time: u128,
    pub number_of_received_responses: u128,
    pub number_of_sent_requests: u128,
}

impl ClientStats {
    /// Statistics with nothing recorded.
    pub fn new() -> (s: Self)
        ensures
            s.sum_response_time == 0,
            s.number_of_received_responses == 0,
            s.number_of_sent_requests == 0,
    {
        ClientStats { sum_response_time: 0, number_of_received_responses: 0, number_of_sent_requests: 0 }
    }

    /// Counts a request sent.
    pub fn record_sent(&mut self)
        requires
            old(self).number_of_sent_requests < u128::MAX,
        ensures
            final(self).number_of_sent_requests == old(self).number_of_sent_requests + 1,
            final(self).number_of_received_responses == old(self).number_of_received_responses,
            final(self).sum_response_time == old(self).sum_response_time,
    {
        self.number_of_sent_requests = self.number_of_sent_requests + 1;
    }

    /// Counts an answer to a request sent at `start` and answered at `end`
    /// (ms), adding its response time `end - start`.
    pub fn record_response(&mut self, start: u128, end: u128)
        requires
            start <= end,
            old(self).sum_response_time + (end - start) <= u128::MAX,
            old(self).number_of_received_responses < u128::MAX,
        ensures
            final(self).sum_response_time == old(self).sum_response_time + (end - start),
            final(self).number_of_received_responses == old(self).number_of_received_responses + 1,
            final(self).number_of_sent_requests == old(self).number_of_sent_requests,
    {
        let response_time = end - start;
        self.sum_response_time = self.sum_response_time + response_time;
        self.number_of_received_responses = self.number_of_received_responses + 1;
    }
}

/// Statistics of one thread of the fixed-length load test, in `u32`.
pub struct TallyStats {
    pub sum_response_time: u32,
    pub number_of_received_responses: u32,
}

impl TallyStats {
    /// Statistics with nothing recorded.
    pub fn new() -> (s: Self)
        ensures
            s.sum_response_time == 0,
            s.number_of_received_responses == 0,
    {
        TallyStats { sum_response_time: 0, number_of_received_responses: 0 }
    }

    /// Counts an answer to a request sent at `start` and answered at `end`
    /// (ms); the response time is cut to its low 32 bits before it is added.
    pub fn record_response(&mut self, start: u128, end: u128)
        requires
            start <= end,
            old(self).number_of_received_responses < u32::MAX,
            old(self).sum_response_time + ((end - start) % 0x1_0000_0000) <= u32::MAX,
        ensures
            final(self).number_of_received_responses == old(self).number_of_received_responses + 1,
            final(self).sum_response_time == old(self).sum_response_time + ((end - start) % 0x1_0000_0000),
    {
        self.number_of_received_responses = self.number_of_received_responses + 1;
        let response_time = end - start;
        let low: u32 = (response_time % 0x1_0000_0000u128) as u32;
        self.sum_response_time = self.sum_response_time + low;
    }
}

/// Sum of a sequence of readings.
pub open spec fn total(s: Seq<i32>) -> int
    decreases s.len(),
{
    if s.len() == 0 {
        0
    } else {
        total(s.drop_last()) + s.last()
    }
}

/// Division rounding toward zero, as `/` does on Rust integers (`b > 0`).
pub open spec fn toward_zero_div(a: int, b: int) -> int {
    if a >= 0 {
        a / b
    } else {
        -((-a) / b)
    }
}

/// The running total, starting from 2500, stays within `i32` over every
/// prefix of the readings.
pub open spec fn running_total_fits(usages: Seq<i32>) -> bool {
    forall|k: int| 0 <= k <= usages.len() ==> i32::MIN <= 2500 + #[trigger] total(usages.take(k)) <= i32::MAX
}

/// A server's utilisation figure from its per-CPU usage readings (in whole
/// percent): 2500 plus the sum of the readings, divided by their number,
/// rounding toward zero.
pub fn get_cpu_util(usages: &[i32]) -> (avg: i32)
    requires
        0 < usages@.len() <= i32::MAX,
        running_total_fits(usages@),
    ensures
        avg as int == toward_zero_div(2500 + total(usages@), usages@.len() as int),
{
    let mut avg: i32 = 2500;
    let mut count: i32 = 0;
    let mut i: usize = 0;
    assert(usages@.take(0) =~= Seq::<i32>::empty());
    while i < usages.len()
        invariant
            i <= usages@.len() <= i32::MAX,
            count == i,
            running_total_fits(usages@),
            avg == 2500 + total(usages@.take(i as int)),
        decreases usages@.len() - i,
    {
        assert(usages@.take(i as int + 1).drop_last() =~= usages@.take(i as int));
        assert(i32::MIN <= 2500 + total(usages@.take(i as int + 1)) <= i32::MAX);
        avg = avg + usages[i];
        count = count + 1;
        i = i + 1;
    }
    assert(usages@.take(i as int) =~= usages@);
    let a: i64 = avg as i64;
    let c: i64 = count as i64;
    if a >= 0 {
        (a / c) as i32
    } else {
        (-((-a) / c)) as i32
    }
}

} // verus!

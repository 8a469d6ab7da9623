use vstd::prelude::*;

verus! {

/// One call to the proxied service, stamped with the instant it was made,
/// in nanoseconds since the Unix epoch.
#[derive(Debug, Clone, Copy)]
pub struct ApiCallRecord {
    pub timestamp: i64,
}

impl ApiCallRecord {
    pub fn new(timestamp: i64) -> (r: Self)
        ensures
            r.timestamp == timestamp,
    {
        Self { timestamp }
    }
}

/// Admits at most `max_calls` calls: once that many are recorded, a new call
/// is admitted only when the oldest recorded one lies more than the time
/// window (in nanoseconds) before it, and it then takes that one's place.
#[derive(Debug)]
pub struct RateLimiter {
    calls: Vec<ApiCallRecord>,
    max_calls: usize,
    time_window: u64,
}

impl RateLimiter {
    #[verifier::type_invariant]
    spec fn never_over_capacity(self) -> bool {
        self.calls.len() <= self.max_calls
    }

    /// The recorded calls' timestamps, oldest admission first.
    pub closed spec fn recorded(&self) -> Seq<int> {
        self.calls@.map_values(|c: ApiCallRecord| c.timestamp as int)
    }

    pub closed spec fn capacity(&self) -> int {
        self.max_calls as int
    }

    pub closed spec fn window(&self) -> int {
        self.time_window as int
    }

    pub fn new(max_calls: usize, time_window: u64) -> (r: Self)
        ensures
            r.recorded() == Seq::<int>::empty(),
            r.capacity() == max_calls,
            r.window() == time_window,
    {
        let r = Self { calls: Vec::new(), max_calls, time_window };
        assert(r.recorded() =~= Seq::<int>::empty());
        r
    }

    /// Records the call and says whether it was admitted.
    pub fn try_add_call_record(&mut self, call_record: ApiCallRecord) -> (admitted: bool)
        ensures
            final(self).capacity() == old(self).capacity(),
            final(self).window() == old(self).window(),
            admitted <==> (old(self).recorded().len() < old(self).capacity() || (old(self).capacity() > 0
                && old(self).recorded()[0] < call_record.timestamp - old(self).window())),
            admitted && old(self).recorded().len() < old(self).capacity()
                ==> final(self).recorded() == old(self).recorded().push(call_record.timestamp as int),
            admitted && old(self).recorded().len() >= old(self).capacity()
                ==> final(self).recorded() == old(self).recorded().drop_first().push(call_record.timestamp as int),
            !admitted ==> final(self).recorded() == old(self).recorded(),
    {
        proof {
            use_type_invariant(&*self);
        }
        let ghost before = self.calls@;
        let mut calls: Vec<ApiCallRecord> = Vec::new();
        std::mem::swap(&mut calls, &mut self.calls);
        let admitted = if calls.len() < self.max_calls {
            calls.push(call_record);
            true
        } else {
            let cutoff: i128 = call_record.timestamp as i128 - self.time_window as i128;
            if self.max_calls > 0 && (calls[0].timestamp as i128) < cutoff {
                calls.remove(0);
                calls.push(call_record);
                true
            } else {
                false
            }
        };
        self.calls = calls;
        proof {
            if admitted && before.len() < self.max_calls {
                assert(self.calls@ == before.push(call_record));
                assert(self.recorded() =~= old(self).recorded().push(call_record.timestamp as int));
            } else if admitted {
                assert(self.calls@ == before.drop_first().push(call_record));
                assert(self.recorded() =~= old(self).recorded().drop_first().push(
                    call_record.timestamp as int,
                ));
            } else {
                assert(self.recorded() =~= old(self).recorded());
            }
        }
        admitted
    }

    pub fn calls_count(&self) -> (n: usize)
        ensures
            n == self.recorded().len(),
            n <= self.capacity(),
    {
        proof {
            use_type_invariant(self);
        }
        self.calls.len()
    }
}

} // verus!

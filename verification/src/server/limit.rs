//! The global rate limit: a sliding window of one minute.

use vstd::prelude::*;

verus! {

/// The length of the window, in nanoseconds.
pub const WINDOW: u64 = 60_000_000_000;

/// Admits at most `max_per_min` requests in any minute; zero admits all.
#[derive(Debug)]
pub struct RateLimiter {
    max_per_min: u32,
    history: Vec<u64>,
}

/// How long ago `t` was; a time to come was not long ago.
pub open spec fn age(now: u64, t: u64) -> int {
    if t <= now {
        now - t
    } else {
        0
    }
}

/// Times that lie within the window.
pub open spec fn recently(now: u64) -> spec_fn(u64) -> bool {
    |t: u64| age(now, t) < WINDOW
}

/// The times of a history that lie within the window.
pub open spec fn recent(history: Seq<u64>, now: u64) -> Seq<u64> {
    history.filter(recently(now))
}

/// A request at `now` is admitted.
pub open spec fn admits(max: u32, history: Seq<u64>, now: u64) -> bool {
    max == 0 || recent(history, now).len() < max
}

/// The history after a request at `now`.
pub open spec fn after_request(max: u32, history: Seq<u64>, now: u64) -> Seq<u64> {
    if max == 0 {
        history
    } else if admits(max, history, now) {
        recent(history, now).push(now)
    } else {
        recent(history, now)
    }
}

impl RateLimiter {
    /// The number of requests per minute; zero is no limit.
    pub closed spec fn limit(&self) -> u32 {
        self.max_per_min
    }

    /// The times of the admitted requests that are remembered.
    pub closed spec fn times(&self) -> Seq<u64> {
        self.history@
    }

    /// A limiter that has seen no request.
    pub fn new(max_per_min: u32) -> (l: RateLimiter)
        ensures
            l.limit() == max_per_min,
            l.times() == Seq::<u64>::empty(),
    {
        RateLimiter { max_per_min, history: Vec::new() }
    }

    /// Whether a request at `now` (nanoseconds of a monotonic clock) is
    /// admitted. An admitted request is remembered.
    pub fn check(&mut self, now: u64) -> (admitted: bool)
        ensures
            admitted == admits(old(self).limit(), old(self).times(), now),
            final(self).limit() == old(self).limit(),
            final(self).times() == after_request(old(self).limit(), old(self).times(), now),
    {
        if self.max_per_min == 0 {
            return true;
        }
        let mut kept: Vec<u64> = Vec::new();
        proof {
            assert(self.history@.take(0).filter(recently(now)) =~= Seq::<u64>::empty());
        }
        for i in 0..self.history.len()
            invariant
                kept@ == recent(self.history@.take(i as int), now),
        {
            let t: u64 = self.history[i];
            let old_enough: bool = t <= now && now - t >= WINDOW;
            proof {
                let s = self.history@.take(i + 1);
                assert(s.drop_last() =~= self.history@.take(i as int));
                assert(s.last() == t);
                reveal(Seq::filter);
                assert(old_enough == !recently(now)(t));
            }
            if !old_enough {
                kept.push(t);
            }
        }
        proof {
            assert(self.history@.take(self.history@.len() as int) =~= self.history@);
        }
        let full: bool = kept.len() >= self.max_per_min as usize;
        if !full {
            kept.push(now);
        }
        self.history = kept;
        !full
    }
}

/// The admitted ones among requests at the given times, all with the same
/// limit, and the history after them.
pub open spec fn run(max: u32, times: Seq<u64>) -> (Seq<u64>, Seq<u64>)
    decreases times.len(),
{
    if times.len() == 0 {
        (Seq::empty(), Seq::empty())
    } else {
        let (admitted, history) = run(max, times.drop_last());
        let now = times.last();
        (
            if admits(max, history, now) {
                admitted.push(now)
            } else {
                admitted
            },
            after_request(max, history, now),
        )
    }
}

/// The times do not go back.
pub open spec fn ordered(times: Seq<u64>) -> bool {
    forall|i: int, j: int| 0 <= i <= j < times.len() ==> times[i] <= times[j]
}

/// In a window that ends at any request, no more requests are admitted than
/// the limit says.
pub proof fn law_window_limit(max: u32, times: Seq<u64>)
    requires
        max > 0,
        times.len() > 0,
        ordered(times),
    ensures
        recent(run(max, times).0, times.last()).len() <= max,
{
    lemma_run(max, times);
}

/// The history is what is recent of the admitted requests, and not longer
/// than the limit.
proof fn lemma_run(max: u32, times: Seq<u64>)
    requires
        max > 0,
        ordered(times),
    ensures
        ({
            let (admitted, history) = run(max, times);
            &&& history.len() <= max
            &&& times.len() > 0 ==> history == recent(admitted, times.last())
            &&& times.len() == 0 ==> history.len() == 0 && admitted.len() == 0
            &&& forall|i: int|
                0 <= i < admitted.len() ==> times.len() > 0 && #[trigger] admitted[i]
                    <= times.last()
        }),
    decreases times.len(),
{
    if times.len() > 0 {
        let before = times.drop_last();
        let now = times.last();
        assert(ordered(before)) by {
            assert forall|i: int, j: int| 0 <= i <= j < before.len() implies before[i]
                <= before[j] by {
                assert(times[i] <= times[j]);
            }
        }
        lemma_run(max, before);
        let (admitted0, history0) = run(max, before);
        let (admitted, history) = run(max, times);
        // What is recent now was recent at the request before.
        assert(recent(history0, now) == recent(admitted0, now)) by {
            if before.len() > 0 {
                assert(times[before.len() - 1] <= times[times.len() - 1]);
                lemma_recent_of_recent(admitted0, before.last(), now);
            } else {
                assert(history0 =~= admitted0);
            }
        }
        lemma_recent_push(admitted0, now);
        history0.lemma_filter_len(recently(now));
        assert forall|i: int| 0 <= i < admitted.len() implies #[trigger] admitted[i] <= now by {
            if i < admitted0.len() {
                assert(admitted0[i] <= before.last());
                assert(times[before.len() - 1] <= times[times.len() - 1]);
            }
        }
        if !admits(max, history0, now) {
            assert(history == recent(history0, now));
        }
    }
}

/// Looking later at what was recent earlier is looking later.
proof fn lemma_recent_of_recent(s: Seq<u64>, earlier: u64, now: u64)
    requires
        earlier <= now,
        forall|i: int| 0 <= i < s.len() ==> #[trigger] s[i] <= earlier,
    ensures
        recent(recent(s, earlier), now) == recent(s, now),
    decreases s.len(),
{
    reveal(Seq::filter);
    if s.len() > 0 {
        let t = s.drop_last();
        assert forall|i: int| 0 <= i < t.len() implies #[trigger] t[i] <= earlier by {
            assert(s[i] <= earlier);
        }
        lemma_recent_of_recent(t, earlier, now);
        let last = s.last();
        assert(s[s.len() - 1] <= earlier);
        if recently(earlier)(last) {
            let r = recent(s, earlier);
            assert(r == recent(t, earlier).push(last));
            assert(r.drop_last() =~= recent(t, earlier));
        } else {
            assert(!recently(now)(last));
        }
    }
}

/// What happens now is recent.
proof fn lemma_recent_push(s: Seq<u64>, now: u64)
    ensures
        recent(s.push(now), now) == recent(s, now).push(now),
{
    reveal(Seq::filter);
    assert(s.push(now).drop_last() =~= s);
    assert(recently(now)(now));
}

} // verus!

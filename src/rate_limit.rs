use vstd::prelude::*;

verus! {

/// Request times kept for each client key, keys in order of first use.
pub type WindowsModel = Seq<(Seq<char>, Seq<u64>)>;

/// Whether a request made at `t` still counts at time `now`.
pub open spec fn in_window(t: u64, now: u64, window: u64) -> bool {
    now < t || now - t < window
}

/// The times of `ts` that still count at `now`, in order.
pub open spec fn recent(ts: Seq<u64>, now: u64, window: u64) -> Seq<u64>
    decreases ts.len(),
{
    if ts.len() == 0 {
        Seq::empty()
    } else {
        let rest = recent(ts.drop_last(), now, window);
        if in_window(ts.last(), now, window) {
            rest.push(ts.last())
        } else {
            rest
        }
    }
}

pub open spec fn window_position(m: WindowsModel, key: Seq<char>) -> int {
    if exists|i: int| 0 <= i < m.len() && m[i].0 == key {
        choose|i: int| 0 <= i < m.len() && m[i].0 == key
    } else {
        -1
    }
}

/// The times recorded for `key`; none for a new key.
pub open spec fn times_of(m: WindowsModel, key: Seq<char>) -> Seq<u64> {
    if window_position(m, key) >= 0 {
        m[window_position(m, key)].1
    } else {
        Seq::empty()
    }
}

/// The windows with `key` holding `ts`.
pub open spec fn with_times(m: WindowsModel, key: Seq<char>, ts: Seq<u64>) -> WindowsModel {
    if window_position(m, key) >= 0 {
        m.update(window_position(m, key), (key, ts))
    } else {
        m.push((key, ts))
    }
}

/// Allows each client key at most `max_requests` requests in any sliding
/// window of `window` milliseconds.
pub struct RateLimiter {
    requests: Vec<(String, Vec<u64>)>,
    max_requests: usize,
    window: u64,
}

pub struct LimiterView {
    pub requests: WindowsModel,
    pub max_requests: usize,
    pub window: u64,
}

impl View for RateLimiter {
    type V = LimiterView;

    closed spec fn view(&self) -> LimiterView {
        LimiterView {
            requests: self.requests@.map_values(|p: (String, Vec<u64>)| (p.0@, p.1@)),
            max_requests: self.max_requests,
            window: self.window,
        }
    }
}

impl RateLimiter {
    pub open spec fn wf(&self) -> bool {
        forall|i: int, j: int|
            0 <= i < self@.requests.len() && 0 <= j < self@.requests.len() && i != j ==> self@.requests[i].0
                != self@.requests[j].0
    }

    pub fn new(max_requests: usize, window: u64) -> (r: RateLimiter)
        ensures
            r.wf(),
            r@.requests.len() == 0,
            r@.max_requests == max_requests,
            r@.window == window,
    {
        let r = RateLimiter { requests: Vec::new(), max_requests, window };
        assert(r@.requests =~= Seq::<(Seq<char>, Seq<u64>)>::empty());
        r
    }

    fn find(&self, key: &str) -> (r: Option<usize>)
        requires
            self.wf(),
        ensures
            match r {
                Some(i) => i == window_position(self@.requests, key@) && i < self@.requests.len(),
                None => window_position(self@.requests, key@) == -1,
            },
    {
        let mut i: usize = 0;
        while i < self.requests.len()
            invariant
                i <= self.requests.len(),
                self.wf(),
                forall|j: int| 0 <= j < i ==> self@.requests[j].0 != key@,
            decreases self.requests.len() - i,
        {
            if self.requests[i].0 == key.to_owned() {
                assert(self@.requests[i as int].0 == key@);
                assert(window_position(self@.requests, key@) == i as int);
                return Some(i);
            }
            i = i + 1;
        }
        None
    }

    /// Records a request from `key` at time `now` where the key has fewer
    /// than `max_requests` requests still in the window, and returns whether
    /// it was allowed. Times that fell out of the window are dropped either
    /// way.
    pub fn check_rate_limit(&mut self, key: &str, now: u64) -> (r: bool)
        requires
            old(self).wf(),
        ensures
            final(self).wf(),
            ({
                let kept = recent(times_of(old(self)@.requests, key@), now, old(self)@.window);
                &&& r == (kept.len() < old(self)@.max_requests)
                &&& final(self)@ == (LimiterView {
                    requests: with_times(old(self)@.requests, key@, if r { kept.push(now) } else { kept }),
                    ..old(self)@
                })
            }),
    {
        let ghost m = self@.requests;
        let (pos, old_times) = match self.find(key) {
            Some(i) => {
                let entry = self.requests.remove(i);
                assert(entry.1@ == m[i as int].1);
                (Some(i), entry.1)
            },
            None => (None, Vec::new()),
        };
        let ghost ts = old_times@;
        assert(ts == times_of(m, key@));
        let mut kept: Vec<u64> = Vec::new();
        let mut j: usize = 0;
        while j < old_times.len()
            invariant
                j <= old_times.len(),
                ts == old_times@,
                kept@ == recent(ts.subrange(0, j as int), now, self.window),
            decreases old_times.len() - j,
        {
            let t = old_times[j];
            if now < t || now - t < self.window {
                kept.push(t);
            }
            assert(ts.subrange(0, j + 1).drop_last() =~= ts.subrange(0, j as int));
            j = j + 1;
        }
        assert(ts.subrange(0, old_times.len() as int) =~= ts);
        let allowed = kept.len() < self.max_requests;
        if allowed {
            kept.push(now);
        }
        let ghost kv = kept@;
        match pos {
            Some(i) => {
                self.requests.insert(i, (key.to_owned(), kept));
                assert(self@.requests =~= m.update(i as int, (key@, kv)));
            },
            None => {
                self.requests.push((key.to_owned(), kept));
                assert(self@.requests =~= m.push((key@, kv)));
            },
        }
        allowed
    }
}

} // verus!

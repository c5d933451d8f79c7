//! Registry of wake conditions: which task waits on which condition, which
//! conditions fired while the current poll was running, and timer deadlines.
use vstd::prelude::*;

verus! {

/// Tasks (in registration order) waiting on `c` in the registry `ws`.
pub open spec fn tasks_on(ws: Seq<(u64, usize)>, c: u64) -> Seq<usize>
    decreases ws.len(),
{
    if ws.len() == 0 {
        seq![]
    } else if ws.last().0 == c {
        tasks_on(ws.drop_last(), c).push(ws.last().1)
    } else {
        tasks_on(ws.drop_last(), c)
    }
}

/// The registry `ws` with every entry for `c` removed.
pub open spec fn without(ws: Seq<(u64, usize)>, c: u64) -> Seq<(u64, usize)>
    decreases ws.len(),
{
    if ws.len() == 0 {
        seq![]
    } else if ws.last().0 == c {
        without(ws.drop_last(), c)
    } else {
        without(ws.drop_last(), c).push(ws.last())
    }
}

/// Conditions of the timers in `ts` whose deadline is at or before `now`,
/// in arming order.
pub open spec fn due(ts: Seq<(u64, u64)>, now: u64) -> Seq<u64>
    decreases ts.len(),
{
    if ts.len() == 0 {
        seq![]
    } else if ts.last().0 <= now {
        due(ts.drop_last(), now).push(ts.last().1)
    } else {
        due(ts.drop_last(), now)
    }
}

/// The timers in `ts` whose deadline is after `now`.
pub open spec fn pending_after(ts: Seq<(u64, u64)>, now: u64) -> Seq<(u64, u64)>
    decreases ts.len(),
{
    if ts.len() == 0 {
        seq![]
    } else if ts.last().0 <= now {
        pending_after(ts.drop_last(), now)
    } else {
        pending_after(ts.drop_last(), now).push(ts.last())
    }
}

/// Abstract state of the registry.
pub struct ReactorState {
    /// (condition, task) pairs in registration order.
    pub waiters: Seq<(u64, usize)>,
    /// Conditions notified since the current poll began.
    pub fired: Set<u64>,
    /// (deadline, condition) pairs of armed timers.
    pub timers: Seq<(u64, u64)>,
}

/// Registering `task` on `c`: when `c` already fired during this poll the
/// task is ready at once and nothing is recorded; otherwise it waits.
pub open spec fn spec_register(s: ReactorState, c: u64, task: usize) -> (ReactorState, bool) {
    if s.fired.contains(c) {
        (s, true)
    } else {
        (ReactorState { waiters: s.waiters.push((c, task)), ..s }, false)
    }
}

/// Notifying `c`: every task waiting on it is handed out, and `c` is
/// remembered until the next poll begins.
pub open spec fn spec_notify(s: ReactorState, c: u64) -> (ReactorState, Seq<usize>) {
    (
        ReactorState { waiters: without(s.waiters, c), fired: s.fired.insert(c), ..s },
        tasks_on(s.waiters, c),
    )
}

pub struct Reactor {
    waiters: Vec<(u64, usize)>,
    fired: Vec<u64>,
    timers: Vec<(u64, u64)>,
}

impl Reactor {
    pub closed spec fn view(&self) -> ReactorState {
        ReactorState {
            waiters: self.waiters@,
            fired: self.fired@.to_set(),
            timers: self.timers@,
        }
    }

    pub fn new() -> (r: Reactor)
        ensures
            r@.waiters == Seq::<(u64, usize)>::empty(),
            r@.fired == Set::<u64>::empty(),
            r@.timers == Seq::<(u64, u64)>::empty(),
    {
        Reactor { waiters: Vec::new(), fired: Vec::new(), timers: Vec::new() }
    }

    /// Starts the window of one poll: notifications from before it are
    /// already delivered to the waiters and are forgotten here.
    pub fn begin_poll(&mut self)
        ensures
            final(self)@ == (ReactorState { fired: Set::empty(), ..old(self)@ }),
    {
        self.fired = Vec::new();
        assert(self.fired@.to_set() =~= Set::empty());
    }

    /// Records that `task` waits on `c`, checked against the notifications
    /// of the current poll; returns whether the task is ready at once.
    pub fn register_interest(&mut self, c: u64, task: usize) -> (ready: bool)
        ensures
            (final(self)@, ready) == spec_register(old(self)@, c, task),
    {
        let mut i: usize = 0;
        while i < self.fired.len()
            invariant
                0 <= i <= self.fired@.len(),
                forall|k: int| 0 <= k < i ==> self.fired@[k] != c,
            decreases self.fired@.len() - i,
        {
            if self.fired[i] == c {
                assert(self.fired@.to_set().contains(c));
                return true;
            }
            i = i + 1;
        }
        assert(!self.fired@.to_set().contains(c));
        self.waiters.push((c, task));
        false
    }

    /// Hands out every task waiting on `c` and removes their entries.
    /// With nobody waiting this only remembers `c` for the current poll.
    pub fn notify(&mut self, c: u64) -> (woken: Vec<usize>)
        ensures
            (final(self)@, woken@) == spec_notify(old(self)@, c),
    {
        let ghost ws = self.waiters@;
        let mut woken: Vec<usize> = Vec::new();
        let mut kept: Vec<(u64, usize)> = Vec::new();
        let mut i: usize = 0;
        while i < self.waiters.len()
            invariant
                0 <= i <= ws.len(),
                self.waiters@ == ws,
                woken@ == tasks_on(ws.subrange(0, i as int), c),
                kept@ == without(ws.subrange(0, i as int), c),
            decreases ws.len() - i,
        {
            let w = self.waiters[i];
            assert(ws.subrange(0, i + 1).drop_last() =~= ws.subrange(0, i as int));
            if w.0 == c {
                woken.push(w.1);
            } else {
                kept.push(w);
            }
            i = i + 1;
        }
        assert(ws.subrange(0, ws.len() as int) =~= ws);
        self.waiters = kept;
        let ghost before = self.fired@;
        self.fired.push(c);
        proof {
            before.lemma_push_to_set_commute(c);
        }
        assert(self.fired@.to_set() =~= before.to_set().insert(c));
        woken
    }

    /// Arms a timer that fires `c` at `deadline`.
    pub fn add_timer(&mut self, deadline: u64, c: u64)
        ensures
            final(self)@ == (ReactorState {
                timers: old(self)@.timers.push((deadline, c)),
                ..old(self)@
            }),
    {
        self.timers.push((deadline, c));
        assert(self@.fired =~= old(self)@.fired);
    }

    /// Disarms every timer due at `now` and returns their conditions, for
    /// the caller to notify.
    pub fn expire(&mut self, now: u64) -> (fired: Vec<u64>)
        ensures
            fired@ == due(old(self)@.timers, now),
            final(self)@ == (ReactorState { timers: pending_after(old(self)@.timers, now), ..old(self)@ }),
    {
        let ghost ts = self.timers@;
        let mut fired: Vec<u64> = Vec::new();
        let mut kept: Vec<(u64, u64)> = Vec::new();
        let mut i: usize = 0;
        while i < self.timers.len()
            invariant
                0 <= i <= ts.len(),
                self.timers@ == ts,
                fired@ == due(ts.subrange(0, i as int), now),
                kept@ == pending_after(ts.subrange(0, i as int), now),
            decreases ts.len() - i,
        {
            let t = self.timers[i];
            assert(ts.subrange(0, i + 1).drop_last() =~= ts.subrange(0, i as int));
            if t.0 <= now {
                fired.push(t.1);
            } else {
                kept.push(t);
            }
            i = i + 1;
        }
        assert(ts.subrange(0, ts.len() as int) =~= ts);
        self.timers = kept;
        fired
    }

    /// The earliest deadline of an armed timer, or `None` when none is armed.
    pub fn idle_deadline(&self) -> (r: Option<u64>)
        ensures
            r is None <==> self@.timers.len() == 0,
            r matches Some(d) ==> (exists|k: int| 0 <= k < self@.timers.len() && self@.timers[k].0 == d)
                && (forall|k: int| 0 <= k < self@.timers.len() ==> d <= self@.timers[k].0),
    {
        let mut best: Option<u64> = None;
        let mut i: usize = 0;
        while i < self.timers.len()
            invariant
                0 <= i <= self.timers@.len(),
                best is None <==> i == 0,
                best matches Some(d) ==> (exists|k: int| 0 <= k < i && self.timers@[k].0 == d)
                    && (forall|k: int| 0 <= k < i ==> d <= self.timers@[k].0),
            decreases self.timers@.len() - i,
        {
            let t = self.timers[i].0;
            match best {
                None => { best = Some(t); },
                Some(d) => {
                    if t < d {
                        best = Some(t);
                    }
                },
            }
            i = i + 1;
        }
        best
    }
}

/// Race safety: within one poll, whether `c` is notified just before or
/// just after `task` registers interest in it, the task ends up woken.
pub proof fn lemma_no_lost_wakeup(s: ReactorState, c: u64, task: usize)
    ensures
        spec_register(spec_notify(s, c).0, c, task).1,
        ({
            let (s1, ready) = spec_register(s, c, task);
            ready || spec_notify(s1, c).1.contains(task)
        }),
{
    let (s1, ready) = spec_register(s, c, task);
    if !ready {
        let ws = s1.waiters;
        assert(ws.drop_last() == s.waiters);
        assert(tasks_on(ws, c) == tasks_on(s.waiters, c).push(task));
        assert(tasks_on(ws, c).last() == task);
    }
}

} // verus!

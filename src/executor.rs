//! The cooperative executor: runnable queue, task table, and the run loop.
//!
//! A task's computation is given as a script of suspension points followed
//! by the value it produces. Each poll advances it by one step: it either
//! completes, storing its output, or suspends, and the only ways to suspend
//! are to yield (stay runnable for the next pass) or to wait on a condition,
//! which registers interest with the reactor in the same step.
use vstd::prelude::*;
use crate::reactor::{Reactor, due, pending_after, tasks_on, without};

verus! {

/// One suspension point of a computation.
#[derive(Clone, Copy, PartialEq, Eq, Structural, Debug)]
pub enum Action {
    /// Suspend until the condition is notified.
    Await(u64),
    /// Suspend and be polled again on the next pass.
    Yield,
}

/// Where a task stands in its lifecycle.
#[derive(Clone, Copy, PartialEq, Eq, Structural, Debug)]
pub enum TaskState {
    Runnable,
    /// Waiting on the condition, registered with the reactor.
    Waiting(u64),
    Completed,
}

/// A computation: its suspension points in order, then its output.
pub struct Job<T> {
    pub steps: Vec<Action>,
    pub output: T,
}

/// Whether a script never waits on an outside condition.
pub open spec fn unconditional(script: Seq<Action>) -> bool {
    forall|k: int| 0 <= k < script.len() ==> script[k] == Action::Yield
}

/// Where one poll leaves a runnable task whose script is at `pc`: completed,
/// runnable past a yield, or waiting on the condition of an await.
pub open spec fn step_of(script: Seq<Action>, pc: nat) -> (nat, TaskState) {
    if pc >= script.len() {
        (pc, TaskState::Completed)
    } else {
        match script[pc as int] {
            Action::Yield => ((pc + 1) as nat, TaskState::Runnable),
            Action::Await(c) => ((pc + 1) as nat, TaskState::Waiting(c)),
        }
    }
}

/// Where a runnable task at `pc` comes to rest when polled until it is no
/// longer runnable: just past its next await, or completed.
pub open spec fn settle(script: Seq<Action>, pc: nat) -> (nat, TaskState)
    decreases script.len() - pc,
{
    if pc >= script.len() {
        (pc, TaskState::Completed)
    } else {
        match script[pc as int] {
            Action::Yield => settle(script, (pc + 1) as nat),
            Action::Await(c) => ((pc + 1) as nat, TaskState::Waiting(c)),
        }
    }
}

/// A task at (`pc`, `state`) is on its way to rest at `target`.
pub open spec fn on_track(script: Seq<Action>, pc: nat, state: TaskState, target: (nat, TaskState)) -> bool {
    if state == TaskState::Runnable {
        settle(script, pc) == target
    } else {
        (pc, state) == target
    }
}

proof fn lemma_settle_step(script: Seq<Action>, pc: nat, target: (nat, TaskState))
    requires
        on_track(script, pc, TaskState::Runnable, target),
    ensures
        on_track(script, step_of(script, pc).0, step_of(script, pc).1, target),
{
}

pub open spec fn sum(s: Seq<nat>) -> nat
    decreases s.len(),
{
    if s.len() == 0 {
        0
    } else {
        sum(s.drop_last()) + s.last()
    }
}

proof fn lemma_sum_update(s: Seq<nat>, i: int, v: nat)
    requires
        0 <= i < s.len(),
    ensures
        sum(s.update(i, v)) + s[i] == sum(s) + v,
    decreases s.len(),
{
    if i == s.len() - 1 {
        assert(s.update(i, v).drop_last() =~= s.drop_last());
    } else {
        assert(s.update(i, v).drop_last() =~= s.drop_last().update(i, v));
        lemma_sum_update(s.drop_last(), i, v);
    }
}

proof fn lemma_push_contains<A>(s: Seq<A>, x: A)
    ensures
        forall|y: A| #[trigger] s.push(x).contains(y) <==> (s.contains(y) || y == x),
{
    assert forall|y: A| #[trigger] s.push(x).contains(y) <==> (s.contains(y) || y == x) by {
        if s.push(x).contains(y) {
            let k = choose|k: int| 0 <= k < s.push(x).len() && s.push(x)[k] == y;
            if k < s.len() {
                assert(s[k] == y);
            }
        }
        if s.contains(y) {
            let k = choose|k: int| 0 <= k < s.len() && s[k] == y;
            assert(s.push(x)[k] == y);
        }
        if y == x {
            assert(s.push(x)[s.len() as int] == y);
        }
    }
}

proof fn lemma_sum_push(s: Seq<nat>, v: nat)
    ensures
        sum(s.push(v)) == sum(s) + v,
{
    assert(s.push(v).drop_last() =~= s);
}

proof fn lemma_tasks_on(ws: Seq<(u64, usize)>, c: u64)
    requires
        forall|i: int, j: int| 0 <= i < j < ws.len() ==> ws[i].1 != ws[j].1,
    ensures
        forall|t: usize| #[trigger] tasks_on(ws, c).contains(t) <==> ws.contains((c, t)),
        forall|i: int, j: int|
            0 <= i < j < tasks_on(ws, c).len() ==> tasks_on(ws, c)[i] != tasks_on(ws, c)[j],
        forall|e: (u64, usize)| #[trigger] without(ws, c).contains(e) <==> (ws.contains(e) && e.0 != c),
        forall|i: int, j: int|
            0 <= i < j < without(ws, c).len() ==> without(ws, c)[i].1 != without(ws, c)[j].1,
    decreases ws.len(),
{
    if ws.len() > 0 {
        let rest = ws.drop_last();
        lemma_tasks_on(rest, c);
        let l = ws.last();
        assert(ws =~= rest.push(l));
        lemma_push_contains(rest, l);
        assert forall|e: (u64, usize)| rest.contains(e) implies e.1 != l.1 by {
            let k = choose|k: int| 0 <= k < rest.len() && rest[k] == e;
            assert(ws[k] == e);
        }
        let tr = tasks_on(rest, c);
        let wr = without(rest, c);
        if l.0 == c {
            assert forall|i: int| 0 <= i < tr.len() implies tr[i] != l.1 by {
                assert(tr.contains(tr[i]));
                assert(rest.contains((c, tr[i])));
            }
            assert(tasks_on(ws, c) == tr.push(l.1));
            lemma_push_contains(tr, l.1);
            assert forall|t: usize| tasks_on(ws, c).contains(t) <==> ws.contains((c, t)) by {
                assert(ws.contains((c, t)) <==> (rest.contains((c, t)) || (c, t) == l));
                assert(tr.contains(t) <==> rest.contains((c, t)));
                assert(((c, t) == l) <==> (t == l.1));
                assert(tasks_on(ws, c).contains(t) <==> (tr.contains(t) || t == l.1));
            }
            assert(without(ws, c) == wr);
            assert forall|e: (u64, usize)| #[trigger] without(ws, c).contains(e) <==> (ws.contains(e) && e.0 != c) by {
                assert(ws.contains(e) <==> (rest.contains(e) || e == l));
                assert(wr.contains(e) <==> (rest.contains(e) && e.0 != c));
            }
        } else {
            assert forall|i: int| 0 <= i < wr.len() implies wr[i].1 != l.1 by {
                assert(wr.contains(wr[i]));
                assert(rest.contains(wr[i]));
            }
            assert(tasks_on(ws, c) == tr);
            assert forall|t: usize| tasks_on(ws, c).contains(t) <==> ws.contains((c, t)) by {
                assert(ws.contains((c, t)) <==> rest.contains((c, t)));
            }
            assert(without(ws, c) == wr.push(l));
            lemma_push_contains(wr, l);
            assert forall|e: (u64, usize)| #[trigger] without(ws, c).contains(e) <==> (ws.contains(e) && e.0 != c) by {
                assert(ws.contains(e) <==> (rest.contains(e) || e == l));
                assert(wr.contains(e) <==> (rest.contains(e) && e.0 != c));
            }
        }
    }
}

/// Abstract state of an executor.
pub struct ExecState {
    /// Each task's script of suspension points.
    pub scripts: Seq<Seq<Action>>,
    /// How many suspension points of each script have been passed.
    pub pcs: Seq<nat>,
    pub states: Seq<TaskState>,
    /// Runnable tasks in the order they will be polled.
    pub queue: Seq<usize>,
    /// How many times each task has been polled.
    pub polls: Seq<nat>,
    /// Every poll so far, in order.
    pub trace: Seq<usize>,
}

/// One poll of task `id`: it moves one step along its script, joins the end
/// of the queue again if it is still runnable, and the poll is counted and
/// logged.
pub open spec fn poll_spec(s: ExecState, id: usize) -> ExecState {
    let (pc, st) = step_of(s.scripts[id as int], s.pcs[id as int]);
    ExecState {
        scripts: s.scripts,
        pcs: s.pcs.update(id as int, pc),
        states: s.states.update(id as int, st),
        queue: if st == TaskState::Runnable { s.queue.push(id) } else { s.queue },
        polls: s.polls.update(id as int, s.polls[id as int] + 1),
        trace: s.trace.push(id),
    }
}

/// Polls the tasks `ids` one after the other, in order.
pub open spec fn poll_all(s: ExecState, ids: Seq<usize>) -> ExecState
    decreases ids.len(),
{
    if ids.len() == 0 {
        s
    } else {
        poll_spec(poll_all(s, ids.drop_last()), ids.last())
    }
}

/// One pass: the queue at the start is taken whole and each task in it is
/// polled once, in queue order; tasks that stay runnable form the next queue.
pub open spec fn pass(s: ExecState) -> ExecState {
    poll_all(ExecState { queue: Seq::empty(), ..s }, s.queue)
}

/// `n` passes in a row.
pub open spec fn passes(s: ExecState, n: nat) -> ExecState
    decreases n,
{
    if n == 0 {
        s
    } else {
        pass(passes(s, (n - 1) as nat))
    }
}

/// `t` is what passes from `s` give when they go on until the queue is
/// empty: the first state along them with an empty queue.
pub open spec fn drained(s: ExecState, t: ExecState) -> bool {
    exists|n: nat| #![trigger passes(s, n)]
        passes(s, n) == t && t.queue.len() == 0
            && forall|k: nat| k < n ==> (#[trigger] passes(s, k)).queue.len() > 0
}

/// `t` is what passes from `s` give when they go on until task `id` has
/// completed or the queue is empty, whichever comes first.
pub open spec fn ran_until(s: ExecState, id: int, t: ExecState) -> bool {
    exists|n: nat| #![trigger passes(s, n)]
        passes(s, n) == t && (t.states[id] == TaskState::Completed || t.queue.len() == 0)
            && forall|k: nat| k < n ==> (#[trigger] passes(s, k)).queue.len() > 0
                && passes(s, k).states[id] != TaskState::Completed
}

/// State right after spawning a task with script `steps`.
pub open spec fn spawn_spec(s: ExecState, steps: Seq<Action>) -> ExecState {
    ExecState {
        scripts: s.scripts.push(steps),
        pcs: s.pcs.push(0),
        states: s.states.push(TaskState::Runnable),
        queue: s.queue.push(s.scripts.len() as usize),
        polls: s.polls.push(0),
        trace: s.trace,
    }
}

/// The executor of one core: the task table, the runnable queue in polling
/// order, and the reactor that holds what waiting tasks wait on. A program
/// keeps one for its whole life, made by `new` on first use; state shared with
/// interrupt handlers goes through an `IrqMutex` around it.
pub struct Executor<T> {
    scripts: Vec<Vec<Action>>,
    pcs: Vec<usize>,
    states: Vec<TaskState>,
    slots: Vec<Option<T>>,
    queue: Vec<usize>,
    reactor: Reactor,
    values: Ghost<Seq<T>>,
    polls: Ghost<Seq<nat>>,
    trace: Ghost<Seq<usize>>,
}

impl<T> Executor<T> {
    pub closed spec fn view(&self) -> ExecState {
        ExecState {
            scripts: Seq::new(self.scripts@.len(), |i: int| self.scripts@[i]@),
            pcs: Seq::new(self.pcs@.len(), |i: int| self.pcs@[i] as nat),
            states: self.states@,
            queue: self.queue@,
            polls: self.polls@,
            trace: self.trace@,
        }
    }

    /// What each task produces when it completes.
    pub closed spec fn values(&self) -> Seq<T> {
        self.values@
    }

    /// Output slots: a completed task's output until it is taken.
    pub closed spec fn slots(&self) -> Seq<Option<T>> {
        self.slots@
    }

    /// Number of tasks spawned.
    pub closed spec fn len(&self) -> nat {
        self.scripts@.len()
    }

    /// Steps still ahead of task `i`, its completion included.
    pub open spec fn remaining(&self, i: int) -> nat {
        if self@.states[i] == TaskState::Completed {
            0
        } else {
            (self@.scripts[i].len() - self@.pcs[i] + 1) as nat
        }
    }

    /// Steps still ahead of all tasks: each poll takes one.
    pub open spec fn work(&self) -> nat {
        sum(Seq::new(self.len(), |i: int| self.remaining(i)))
    }

    /// The tables agree, given that the tasks in `pending` were taken off
    /// the queue for the pass under way and are still to be polled.
    pub closed spec fn inv(&self, pending: Seq<usize>) -> bool {
        let n = self.scripts@.len();
        let ws = self.reactor@.waiters;
        &&& n <= usize::MAX
        &&& self.pcs@.len() == n
        &&& self.states@.len() == n
        &&& self.slots@.len() == n
        &&& self.values@.len() == n
        &&& self.polls@.len() == n
        &&& forall|i: int| #![trigger self.states@[i]] 0 <= i < n ==> {
            &&& self.pcs@[i] <= self.scripts@[i]@.len()
            &&& self.polls@[i] == self.pcs@[i] + if self.states@[i] == TaskState::Completed { 1nat } else { 0nat }
            &&& (self.states@[i] == TaskState::Completed ==> self.pcs@[i] == self.scripts@[i]@.len())
            &&& (self.slots@[i] is Some ==> self.slots@[i] == Some(self.values@[i]))
            &&& (self.states@[i] != TaskState::Completed ==> self.slots@[i] == Some(self.values@[i]))
            &&& (self.states@[i] matches TaskState::Waiting(c) ==> self.pcs@[i] >= 1
                && self.scripts@[i]@[self.pcs@[i] - 1] == Action::Await(c)
                && ws.contains((c, i as usize)))
            &&& (self.states@[i] == TaskState::Runnable <==> (self.queue@.contains(i as usize) || pending.contains(i as usize)))
        }
        &&& forall|k: int| 0 <= k < self.queue@.len() ==> self.queue@[k] < n
        &&& forall|k: int| 0 <= k < pending.len() ==> pending[k] < n
        &&& forall|a: int, b: int| 0 <= a < b < self.queue@.len() ==> self.queue@[a] != self.queue@[b]
        &&& forall|a: int, b: int| 0 <= a < b < pending.len() ==> pending[a] != pending[b]
        &&& forall|a: int, b: int| 0 <= a < self.queue@.len() && 0 <= b < pending.len() ==> self.queue@[a] != pending[b]
        &&& forall|k: int| 0 <= k < ws.len() ==> ws[k].1 < n && self.states@[ws[k].1 as int] == TaskState::Waiting(ws[k].0)
        &&& forall|a: int, b: int| 0 <= a < b < ws.len() ==> ws[a].1 != ws[b].1
    }

    /// Well-formedness between passes.
    pub open spec fn wf(&self) -> bool {
        &&& self.inv(seq![])
        &&& self@.scripts.len() == self.len()
        &&& self@.pcs.len() == self.len()
        &&& self@.states.len() == self.len()
        &&& self@.polls.len() == self.len()
        &&& self.values().len() == self.len()
        &&& self.slots().len() == self.len()
        &&& forall|i: int| 0 <= i < self.len() ==> #[trigger] self@.polls[i]
            == self@.pcs[i] + if self@.states[i] == TaskState::Completed { 1nat } else { 0nat }
        &&& forall|i: int| 0 <= i < self.len() && #[trigger] self@.states[i] == TaskState::Completed
            ==> self@.pcs[i] == self@.scripts[i].len()
        &&& forall|i: int| 0 <= i < self.len() ==> (#[trigger] self@.states[i] == TaskState::Runnable
            <==> self@.queue.contains(i as usize))
        &&& forall|k: int| 0 <= k < self@.queue.len() ==> #[trigger] self@.queue[k] < self.len()
        &&& forall|a: int, b: int| 0 <= a < b < self@.queue.len() ==> self@.queue[a] != self@.queue[b]
    }

    /// An executor with no tasks and no timers.
    pub fn new() -> (r: Executor<T>)
        ensures
            r.wf(),
            r.len() == 0,
            r@.queue.len() == 0,
            r@.trace.len() == 0,
    {
        Executor {
            scripts: Vec::new(),
            pcs: Vec::new(),
            states: Vec::new(),
            slots: Vec::new(),
            queue: Vec::new(),
            reactor: Reactor::new(),
            values: Ghost(Seq::empty()),
            polls: Ghost(Seq::empty()),
            trace: Ghost(Seq::empty()),
        }
    }
}

impl<T> Executor<T> {
    proof fn lemma_work_step(&self, old_ex: &Executor<T>, id: int)
        requires
            self.len() == old_ex.len(),
            0 <= id < old_ex.len(),
            old_ex.remaining(id) >= 1,
            self.remaining(id) + 1 == old_ex.remaining(id),
            forall|j: int| 0 <= j < old_ex.len() && j != id ==> self.remaining(j) == old_ex.remaining(j),
        ensures
            self.work() + 1 == old_ex.work(),
    {
        let s0 = Seq::new(old_ex.len(), |i: int| old_ex.remaining(i));
        let s1 = Seq::new(self.len(), |i: int| self.remaining(i));
        assert(s1 =~= s0.update(id, (s0[id] - 1) as nat));
        lemma_sum_update(s0, id, (s0[id] - 1) as nat);
    }

    /// Polls task `id`, the first of the tasks still to be polled in this
    /// pass: it completes, yields, or waits on the condition its script names.
    fn poll(&mut self, id: usize, Ghost(rest): Ghost<Seq<usize>>)
        requires
            old(self).inv(seq![id] + rest),
        ensures
            final(self).inv(rest),
            final(self).len() == old(self).len(),
            final(self).work() + 1 == old(self).work(),
            final(self)@.scripts == old(self)@.scripts,
            final(self).values() == old(self).values(),
            final(self).slots() == old(self).slots(),
            final(self)@.trace == old(self)@.trace.push(id),
            final(self)@.polls == old(self)@.polls.update(id as int, old(self)@.polls[id as int] + 1),
            final(self)@ == poll_spec(old(self)@, id),
            (final(self)@.pcs[id as int], final(self)@.states[id as int])
                == step_of(old(self)@.scripts[id as int], old(self)@.pcs[id as int]),
            forall|j: int| 0 <= j < old(self).len() && j != id ==> final(self)@.states[j] == old(self)@.states[j]
                && final(self)@.pcs[j] == old(self)@.pcs[j],
            old(self)@.pcs[id as int] == old(self)@.scripts[id as int].len() ==> {
                &&& final(self)@.states[id as int] == TaskState::Completed
                &&& final(self)@.pcs[id as int] == old(self)@.pcs[id as int]
                &&& final(self)@.queue == old(self)@.queue
            },
            old(self)@.pcs[id as int] < old(self)@.scripts[id as int].len() ==> {
                &&& final(self)@.pcs[id as int] == old(self)@.pcs[id as int] + 1
                &&& (old(self)@.scripts[id as int][old(self)@.pcs[id as int] as int] == Action::Yield ==> {
                    &&& final(self)@.states[id as int] == TaskState::Runnable
                    &&& final(self)@.queue == old(self)@.queue.push(id)
                })
                &&& (old(self)@.scripts[id as int][old(self)@.pcs[id as int] as int] matches Action::Await(c) ==> {
                    &&& final(self)@.states[id as int] == TaskState::Waiting(c)
                    &&& final(self)@.queue == old(self)@.queue
                })
            },
    {
        let ghost pending = seq![id] + rest;
        let ghost old_ex = *self;
        assert(pending[0] == id);
        assert(pending.contains(id));
        assert(forall|k: int| 0 <= k < rest.len() ==> rest[k] == pending[k + 1]);
        assert(!rest.contains(id)) by {
            if rest.contains(id) {
                let k = choose|k: int| 0 <= k < rest.len() && rest[k] == id;
                assert(pending[k + 1] == pending[0]);
            }
        }
        assert(!self.queue@.contains(id)) by {
            if self.queue@.contains(id) {
                let k = choose|k: int| 0 <= k < self.queue@.len() && self.queue@[k] == id;
                assert(self.queue@[k] != pending[0]);
            }
        }
        assert(self.states@[id as int] == TaskState::Runnable);
        self.reactor.begin_poll();
        let pc = self.pcs[id];
        let len = self.scripts[id].len();
        if pc == len {
            self.states.set(id, TaskState::Completed);
        } else {
            let a = self.scripts[id][pc];
            self.pcs.set(id, pc + 1);
            match a {
                Action::Yield => {
                    self.queue.push(id);
                },
                Action::Await(c) => {
                    let ready = self.reactor.register_interest(c, id);
                    if ready {
                        self.queue.push(id);
                    } else {
                        self.states.set(id, TaskState::Waiting(c));
                    }
                },
            }
        }
        self.polls = Ghost(self.polls@.update(id as int, self.polls@[id as int] + 1));
        self.trace = Ghost(self.trace@.push(id));
        assert(self@.scripts =~= old_ex@.scripts);
        assert(self.queue@ == old_ex.queue@ || self.queue@ == old_ex.queue@.push(id));
        proof {
            let ws = self.reactor@.waiters;
            let ws0 = old_ex.reactor@.waiters;
            assert forall|e: (u64, usize)| ws0.contains(e) implies ws.contains(e) by {
                let k = choose|k: int| 0 <= k < ws0.len() && ws0[k] == e;
                assert(ws[k] == e);
            }
            assert forall|i: int| 0 <= i < self.len() && i != id implies
                (self.queue@.contains(i as usize) || rest.contains(i as usize))
                    == (#[trigger] old_ex.queue@.contains(i as usize) || pending.contains(i as usize)) by {
                if self.queue@.contains(i as usize) {
                    let k = choose|k: int| 0 <= k < self.queue@.len() && self.queue@[k] == i as usize;
                    if k < old_ex.queue@.len() {
                        assert(old_ex.queue@[k] == i as usize);
                    }
                    assert(old_ex.queue@.contains(i as usize));
                }
                if old_ex.queue@.contains(i as usize) {
                    let k = choose|k: int| 0 <= k < old_ex.queue@.len() && old_ex.queue@[k] == i as usize;
                    assert(self.queue@[k] == i as usize);
                }
                if pending.contains(i as usize) {
                    let k = choose|k: int| 0 <= k < pending.len() && pending[k] == i as usize;
                    assert(k != 0);
                    assert(pending[k] == rest[k - 1]);
                }
                if rest.contains(i as usize) {
                    let k = choose|k: int| 0 <= k < rest.len() && rest[k] == i as usize;
                    assert(pending[k + 1] == i as usize);
                }
            }
            if self.queue@.len() > old_ex.queue@.len() {
                assert(self.queue@.last() == id);
                assert(self.queue@.contains(id));
            }
            assert forall|j: int| 0 <= j < self.len() && j != id implies self.remaining(j) == old_ex.remaining(j) by {}
            self.lemma_work_step(&old_ex, id as int);
            let ps = poll_spec(old_ex@, id);
            assert(self@.pcs =~= ps.pcs);
            assert(self@.states =~= ps.states);
            assert(self@.queue =~= ps.queue);
            assert(self@.polls =~= ps.polls);
            let n = self.scripts@.len();
            assert forall|i: int| #![trigger self.states@[i]] 0 <= i < n implies
                (self.states@[i] matches TaskState::Waiting(c) ==> ws.contains((c, i as usize))) by {
                match self.states@[i] {
                    TaskState::Waiting(c) => {
                        if i == id {
                            assert(ws[ws.len() - 1] == (c, id));
                        } else {
                            assert(ws0.contains((c, i as usize)));
                        }
                    },
                    _ => {},
                }
            }
        }
    }
}

impl<T> Executor<T> {
    /// One pass of the run loop: every task runnable when the pass starts is
    /// polled exactly once, in queue order; tasks made runnable during the
    /// pass wait for the next one.
    pub fn run_pass(&mut self)
        requires
            old(self).wf(),
        ensures
            final(self).wf(),
            final(self).len() == old(self).len(),
            final(self)@.scripts == old(self)@.scripts,
            final(self).values() == old(self).values(),
            final(self).slots() == old(self).slots(),
            final(self)@ == pass(old(self)@),
            final(self)@.trace == old(self)@.trace + old(self)@.queue,
            final(self).work() + old(self)@.queue.len() == old(self).work(),
            forall|i: int| 0 <= i < old(self).len() ==> #[trigger] final(self)@.polls[i]
                == old(self)@.polls[i] + if old(self)@.queue.contains(i as usize) { 1nat } else { 0nat },
            forall|i: int| 0 <= i < old(self).len() && !old(self)@.queue.contains(i as usize)
                ==> #[trigger] final(self)@.states[i] == old(self)@.states[i] && final(self)@.pcs[i] == old(self)@.pcs[i],
            forall|i: int| 0 <= i < old(self).len() && old(self)@.queue.contains(i as usize)
                ==> (final(self)@.pcs[i], #[trigger] final(self)@.states[i]) == step_of(old(self)@.scripts[i], old(self)@.pcs[i]),
    {
        let ghost old_ex = *self;
        let mut snapshot: Vec<usize> = Vec::new();
        core::mem::swap(&mut snapshot, &mut self.queue);
        let ghost snap = snapshot@;
        assert(snap.subrange(0, snap.len() as int) =~= snap);
        assert(forall|x: usize| !Seq::<usize>::empty().contains(x));
        assert(self.inv(snap));
        assert(Seq::new(self.len(), |i: int| self.remaining(i)) =~= Seq::new(old_ex.len(), |i: int| old_ex.remaining(i)));
        assert(snap.subrange(0, 0) =~= Seq::<usize>::empty());
        let ghost start = ExecState { queue: Seq::empty(), ..old_ex@ };
        assert(self@ == poll_all(start, snap.subrange(0, 0)));
        let mut j: usize = 0;
        while j < snapshot.len()
            invariant
                snapshot@ == snap,
                self@ == poll_all(start, snap.subrange(0, j as int)),
                snap == old_ex@.queue,
                forall|a: int, b: int| 0 <= a < b < snap.len() ==> snap[a] != snap[b],
                0 <= j <= snap.len(),
                self.inv(snap.subrange(j as int, snap.len() as int)),
                self.len() == old_ex.len(),
                self@.scripts == old_ex@.scripts,
                self.values() == old_ex.values(),
                self.slots() == old_ex.slots(),
                self@.trace == old_ex@.trace + snap.subrange(0, j as int),
                self.work() + j == old_ex.work(),
                forall|i: int| 0 <= i < old_ex.len() ==> #[trigger] self@.polls[i]
                    == old_ex@.polls[i] + if snap.subrange(0, j as int).contains(i as usize) { 1nat } else { 0nat },
                forall|i: int| 0 <= i < old_ex.len() && !snap.subrange(0, j as int).contains(i as usize)
                    ==> #[trigger] self@.states[i] == old_ex@.states[i] && self@.pcs[i] == old_ex@.pcs[i],
                forall|i: int| 0 <= i < old_ex.len() && snap.subrange(0, j as int).contains(i as usize)
                    ==> (self@.pcs[i], #[trigger] self@.states[i]) == step_of(old_ex@.scripts[i], old_ex@.pcs[i]),
            decreases snap.len() - j,
        {
            let id = snapshot[j];
            let ghost before = *self;
            proof {
                assert(snap.subrange(j as int, snap.len() as int)[0] == id);
                assert(id < self.len());
                assert(snap.subrange(j as int, snap.len() as int) =~= seq![id] + snap.subrange(j + 1, snap.len() as int));
            }
            self.poll(id, Ghost(snap.subrange(j + 1, snap.len() as int)));
            proof {
                let done0 = snap.subrange(0, j as int);
                let done1 = snap.subrange(0, j + 1);
                assert(done1 =~= done0.push(id));
                assert(done1.drop_last() == done0);
                assert(!done0.contains(id)) by {
                    if done0.contains(id) {
                        let k = choose|k: int| 0 <= k < done0.len() && done0[k] == id;
                        assert(snap[k] == snap[j as int]);
                    }
                }
                lemma_push_contains(done0, id);
                assert(self@.trace =~= old_ex@.trace + done1);
                assert forall|i: int| 0 <= i < old_ex.len() implies #[trigger] self@.polls[i]
                    == old_ex@.polls[i] + if done1.contains(i as usize) { 1nat } else { 0nat } by {
                    assert(before@.polls[i] == old_ex@.polls[i] + if done0.contains(i as usize) { 1nat } else { 0nat });
                    if i == id as int {
                        assert(self@.polls[i] == before@.polls[i] + 1);
                    } else {
                        assert(0 <= i < before@.polls.len());
                        assert(0 <= id < before@.polls.len());
                        assert(self@.polls[i] == before@.polls[i]);
                    }
                }
                assert forall|i: int| 0 <= i < old_ex.len() && !done1.contains(i as usize)
                    implies #[trigger] self@.states[i] == old_ex@.states[i] && self@.pcs[i] == old_ex@.pcs[i] by {
                    assert(before@.states[i] == old_ex@.states[i]);
                }
                assert(before@.states[id as int] == old_ex@.states[id as int]);
                assert(before@.pcs[id as int] == old_ex@.pcs[id as int]);
                assert forall|i: int| 0 <= i < old_ex.len() && done1.contains(i as usize)
                    implies (self@.pcs[i], #[trigger] self@.states[i]) == step_of(old_ex@.scripts[i], old_ex@.pcs[i]) by {
                    if i != id as int {
                        assert(before@.states[i] == self@.states[i]);
                        assert(done0.contains(i as usize));
                    }
                }
            }
            j = j + 1;
        }
        proof {
            assert(snap.subrange(j as int, snap.len() as int) =~= Seq::<usize>::empty());
            assert(snap.subrange(0, j as int) =~= snap);
        }
    }
}

/// Tasks `states` makes runnable when `c` is notified: those waiting on it.
pub open spec fn woken_by(states: Seq<TaskState>, c: u64) -> Seq<TaskState> {
    Seq::new(states.len(), |i: int| if states[i] == TaskState::Waiting(c) { TaskState::Runnable } else { states[i] })
}

/// Wake coalescing: notifying `c` a second time before any poll changes
/// no task's state, since after the first no task waits on `c` any more.
pub proof fn lemma_notify_coalesces(states: Seq<TaskState>, c: u64)
    ensures
        woken_by(woken_by(states, c), c) == woken_by(states, c),
        forall|i: int| 0 <= i < states.len() ==> #[trigger] woken_by(states, c)[i] != TaskState::Waiting(c),
{
    assert(woken_by(woken_by(states, c), c) =~= woken_by(states, c));
}

/// `states` after every condition in `cs` has been notified.
pub open spec fn woken_by_all(states: Seq<TaskState>, cs: Seq<u64>) -> Seq<TaskState> {
    Seq::new(states.len(), |i: int|
        if (states[i] matches TaskState::Waiting(c) && cs.contains(c)) { TaskState::Runnable } else { states[i] })
}

impl<T> Executor<T> {
    /// Time has reached `now`: every timer due by then is disarmed and its
    /// condition notified. Tasks already in the queue keep their places; the
    /// tasks woken join behind them.
    pub fn fire_timers(&mut self, now: u64)
        requires
            old(self).wf(),
        ensures
            final(self).wf(),
            final(self).len() == old(self).len(),
            final(self)@.scripts == old(self)@.scripts,
            final(self)@.pcs == old(self)@.pcs,
            final(self)@.polls == old(self)@.polls,
            final(self)@.trace == old(self)@.trace,
            final(self).values() == old(self).values(),
            final(self).slots() == old(self).slots(),
            final(self).timers() == pending_after(old(self).timers(), now),
            final(self)@.states == woken_by_all(old(self)@.states, due(old(self).timers(), now)),
            final(self)@.queue.len() >= old(self)@.queue.len(),
            final(self)@.queue.subrange(0, old(self)@.queue.len() as int) == old(self)@.queue,
    {
        let ghost old_ex = *self;
        let fired = self.reactor.expire(now);
        let ghost cs = fired@;
        assert(self@.queue.subrange(0, old_ex@.queue.len() as int) =~= old_ex@.queue);
        assert(self@.states == old_ex@.states);
        assert(woken_by_all(old_ex@.states, cs.subrange(0, 0)) =~= old_ex@.states);
        let mut k: usize = 0;
        while k < fired.len()
            invariant
                self.wf(),
                fired@ == cs,
                0 <= k <= cs.len(),
                self.len() == old_ex.len(),
                self@.scripts == old_ex@.scripts,
                self@.pcs == old_ex@.pcs,
                self@.polls == old_ex@.polls,
                self@.trace == old_ex@.trace,
                self.values() == old_ex.values(),
                self.slots() == old_ex.slots(),
                self.timers() == pending_after(old_ex.timers(), now),
                self@.states == woken_by_all(old_ex@.states, cs.subrange(0, k as int)),
                self@.queue.len() >= old_ex@.queue.len(),
                self@.queue.subrange(0, old_ex@.queue.len() as int) == old_ex@.queue,
            decreases cs.len() - k,
        {
            let c = fired[k];
            let ghost before = self@.states;
            let ghost q_before = self@.queue;
            self.notify(c);
            proof {
                assert(self@.queue.subrange(0, old_ex@.queue.len() as int)
                    =~= q_before.subrange(0, old_ex@.queue.len() as int));
                let c0 = cs.subrange(0, k as int);
                let c1 = cs.subrange(0, k + 1);
                assert(c1 =~= c0.push(c));
                lemma_push_contains(c0, c);
                assert(self@.states =~= woken_by_all(old_ex@.states, c1));
            }
            k = k + 1;
        }
        assert(cs.subrange(0, cs.len() as int) =~= cs);
    }

    /// Delivers condition `c`: every task waiting on it becomes runnable and
    /// joins the end of the queue once. Other tasks are untouched, so a
    /// second notification before the next pass changes nothing.
    pub fn notify(&mut self, c: u64)
        requires
            old(self).wf(),
        ensures
            final(self).wf(),
            final(self).len() == old(self).len(),
            final(self)@.scripts == old(self)@.scripts,
            final(self)@.pcs == old(self)@.pcs,
            final(self)@.polls == old(self)@.polls,
            final(self)@.trace == old(self)@.trace,
            final(self).values() == old(self).values(),
            final(self).slots() == old(self).slots(),
            final(self).timers() == old(self).timers(),
            final(self)@.states == woken_by(old(self)@.states, c),
            final(self)@.queue.len() >= old(self)@.queue.len(),
            final(self)@.queue.subrange(0, old(self)@.queue.len() as int) == old(self)@.queue,
            forall|t: usize| #[trigger] final(self)@.queue.subrange(old(self)@.queue.len() as int, final(self)@.queue.len() as int).contains(t)
                <==> (t < old(self).len() && old(self)@.states[t as int] == TaskState::Waiting(c)),
            forall|a: int, b: int| 0 <= a < b < final(self)@.queue.len() ==> final(self)@.queue[a] != final(self)@.queue[b],
    {
        let ghost old_ex = *self;
        let ghost ws0 = self.reactor@.waiters;
        let woken = self.reactor.notify(c);
        proof {
            lemma_tasks_on(ws0, c);
        }
        let ghost w = woken@;
        let ghost n = self.len();
        let mut k: usize = 0;
        while k < woken.len()
            invariant
                woken@ == w,
                w == tasks_on(ws0, c),
                forall|t: usize| w.contains(t) <==> ws0.contains((c, t)),
                forall|a: int, b: int| 0 <= a < b < w.len() ==> w[a] != w[b],
                forall|kk: int| 0 <= kk < ws0.len() ==> ws0[kk].1 < n && old_ex@.states[ws0[kk].1 as int] == TaskState::Waiting(ws0[kk].0),
                0 <= k <= w.len(),
                n == old_ex.len(),
                n <= usize::MAX,
                self.scripts == old_ex.scripts,
                self.pcs == old_ex.pcs,
                self.slots == old_ex.slots,
                self.values == old_ex.values,
                self.polls == old_ex.polls,
                self.trace == old_ex.trace,
                self.reactor@.waiters == without(ws0, c),
                self.reactor@.timers == old_ex.reactor@.timers,
                self.states@.len() == n,
                self.queue@ == old_ex.queue@ + w.subrange(0, k as int),
                forall|i: int| 0 <= i < n ==> #[trigger] self.states@[i]
                    == if w.subrange(0, k as int).contains(i as usize) { TaskState::Runnable } else { old_ex@.states[i] },
            decreases w.len() - k,
        {
            let t = woken[k];
            proof {
                assert(w.contains(t));
                let kk = choose|kk: int| 0 <= kk < ws0.len() && ws0[kk] == (c, t);
                assert(ws0[kk].1 == t);
                assert(w.subrange(0, k + 1) =~= w.subrange(0, k as int).push(t));
                lemma_push_contains(w.subrange(0, k as int), t);
            }
            let ghost s0 = self.states@;
            self.states.set(t, TaskState::Runnable);
            self.queue.push(t);
            proof {
                assert forall|i: int| 0 <= i < n implies #[trigger] self.states@[i]
                    == if w.subrange(0, k + 1).contains(i as usize) { TaskState::Runnable } else { old_ex@.states[i] } by {
                    if i != t as int {
                        assert(self.states@[i] == s0[i]);
                        assert(w.subrange(0, k + 1).contains(i as usize) == w.subrange(0, k as int).contains(i as usize));
                    }
                }
            }
            k = k + 1;
        }
        proof {
            assert(w.subrange(0, w.len() as int) =~= w);
            Self::lemma_notify_done(old_ex, *self, c);
        }
    }

    proof fn lemma_notify_done(old_ex: Executor<T>, ex: Executor<T>, c: u64)
        requires
            old_ex.wf(),
            ex.reactor@.waiters == without(old_ex.reactor@.waiters, c),
            ex.scripts == old_ex.scripts,
            ex.pcs == old_ex.pcs,
            ex.slots == old_ex.slots,
            ex.values == old_ex.values,
            ex.polls == old_ex.polls,
            ex.trace == old_ex.trace,
            ex.states@.len() == old_ex.len(),
            ex.queue@ == old_ex.queue@ + tasks_on(old_ex.reactor@.waiters, c),
            forall|i: int| 0 <= i < old_ex.len() ==> #[trigger] ex.states@[i]
                == if tasks_on(old_ex.reactor@.waiters, c).contains(i as usize) { TaskState::Runnable } else { old_ex@.states[i] },
        ensures
            ex.wf(),
            ex.len() == old_ex.len(),
            ex@.states == woken_by(old_ex@.states, c),
            ex@.queue.len() >= old_ex@.queue.len(),
            ex@.queue.subrange(0, old_ex@.queue.len() as int) == old_ex@.queue,
            forall|t: usize| #[trigger] ex@.queue.subrange(old_ex@.queue.len() as int, ex@.queue.len() as int).contains(t)
                <==> (t < old_ex.len() && old_ex@.states[t as int] == TaskState::Waiting(c)),
            forall|a: int, b: int| 0 <= a < b < ex@.queue.len() ==> ex@.queue[a] != ex@.queue[b],
    {
        let ws0 = old_ex.reactor@.waiters;
        let w = tasks_on(ws0, c);
        let n = old_ex.len();
        lemma_tasks_on(ws0, c);
        let q0 = old_ex.queue@;
        let q = ex.queue@;
        assert(w.subrange(0, w.len() as int) =~= w);
        assert(q.subrange(0, q0.len() as int) =~= q0);
        assert(q.subrange(q0.len() as int, q.len() as int) =~= w);
        assert forall|i: int| 0 <= i < n implies (old_ex@.states[i] == TaskState::Waiting(c) <==> #[trigger] w.contains(i as usize)) by {
            if old_ex@.states[i] == TaskState::Waiting(c) {
                assert(ws0.contains((c, i as usize)));
            }
            if w.contains(i as usize) {
                let kk = choose|kk: int| 0 <= kk < ws0.len() && ws0[kk] == (c, i as usize);
                assert(old_ex@.states[i] == TaskState::Waiting(c));
            }
        }
        assert(ex@.states =~= woken_by(old_ex@.states, c));
        assert forall|x: usize| #[trigger] q.contains(x) <==> (q0.contains(x) || w.contains(x)) by {
            if q.contains(x) {
                let p = choose|p: int| 0 <= p < q.len() && q[p] == x;
                if p < q0.len() {
                    assert(q0[p] == x);
                } else {
                    assert(w[p - q0.len()] == x);
                }
            }
            if q0.contains(x) {
                let p = choose|p: int| 0 <= p < q0.len() && q0[p] == x;
                assert(q[p] == x);
            }
            if w.contains(x) {
                let p = choose|p: int| 0 <= p < w.len() && w[p] == x;
                assert(q[q0.len() + p] == x);
            }
        }
        assert forall|a: int, b: int| 0 <= a < b < q.len() implies q[a] != q[b] by {
            if b >= q0.len() && a < q0.len() {
                let t = q[b];
                assert(w[b - q0.len()] == t);
                assert(w.contains(t));
                assert(q0.contains(q[a]));
                if q[a] == t {
                    assert(old_ex@.states[t as int] == TaskState::Runnable);
                }
            } else if a >= q0.len() {
                assert(w[a - q0.len()] != w[b - q0.len()]);
            }
        }
        let ws = ex.reactor@.waiters;
        assert forall|kk: int| 0 <= kk < ws.len() implies ws[kk].1 < n
            && ex.states@[ws[kk].1 as int] == TaskState::Waiting(ws[kk].0) by {
            let e = ws[kk];
            assert(ws.contains(e));
            assert(without(ws0, c).contains(e));
            assert(ws0.contains(e) && e.0 != c);
            let p = choose|p: int| 0 <= p < ws0.len() && ws0[p] == e;
            assert(old_ex@.states[ws0[p].1 as int] == TaskState::Waiting(ws0[p].0));
            if w.contains(e.1) {
                let p2 = choose|p2: int| 0 <= p2 < ws0.len() && ws0[p2] == (c, e.1);
                assert(old_ex@.states[ws0[p2].1 as int] == TaskState::Waiting(ws0[p2].0));
            }
            assert(ex.states@[e.1 as int] == old_ex@.states[e.1 as int]);
        }
        assert forall|i: int| 0 <= i < n && (#[trigger] ex.states@[i]) is Waiting
            implies ws.contains((ex.states@[i]->Waiting_0, i as usize)) by {
            match ex.states@[i] {
                TaskState::Waiting(cc) => {
                    assert(old_ex@.states[i] == TaskState::Waiting(cc));
                    assert(ws0.contains((cc, i as usize)));
                    assert(cc != c);
                },
                _ => {},
            }
        }
        assert(forall|x: usize| !Seq::<usize>::empty().contains(x));
        assert forall|k: int| 0 <= k < ex.queue@.len() implies ex.queue@[k] < n by {
            if k >= q0.len() {
                let t = w[k - q0.len()];
                assert(w.contains(t));
                assert(ws0.contains((c, t)));
                let p = choose|p: int| 0 <= p < ws0.len() && ws0[p] == (c, t);
                assert(ws0[p].1 < n);
            }
        }
    }
}

/// Runs passes until no task is runnable: what is left waits on a condition
/// that only a later `notify` can fire. Every task whose script never waits
/// completes, having been polled once per step and once to complete.
pub fn complete_all<T>(ex: &mut Executor<T>)
    requires
        old(ex).wf(),
    ensures
        final(ex).wf(),
        final(ex).len() == old(ex).len(),
        final(ex)@.scripts == old(ex)@.scripts,
        final(ex).values() == old(ex).values(),
        final(ex).slots() == old(ex).slots(),
        final(ex)@.queue.len() == 0,
        forall|i: int| 0 <= i < final(ex).len() ==> #[trigger] final(ex)@.states[i] != TaskState::Runnable,
        forall|i: int| 0 <= i < final(ex).len() && unconditional(#[trigger] final(ex)@.scripts[i]) ==> {
            &&& final(ex)@.states[i] == TaskState::Completed
            &&& final(ex)@.polls[i] == final(ex)@.scripts[i].len() + 1
        },
        forall|i: int| 0 <= i < old(ex).len() && #[trigger] old(ex)@.states[i] == TaskState::Completed ==> {
            &&& final(ex)@.states[i] == TaskState::Completed
            &&& final(ex)@.polls[i] == old(ex)@.polls[i]
        },
        forall|i: int| 0 <= i < old(ex).len() && #[trigger] old(ex)@.states[i] == TaskState::Runnable
            ==> (final(ex)@.pcs[i], final(ex)@.states[i]) == settle(old(ex)@.scripts[i], old(ex)@.pcs[i]),
        forall|i: int| 0 <= i < old(ex).len() && #[trigger] old(ex)@.states[i] != TaskState::Runnable
            ==> final(ex)@.pcs[i] == old(ex)@.pcs[i] && final(ex)@.states[i] == old(ex)@.states[i]
                && final(ex)@.polls[i] == old(ex)@.polls[i],
        drained(old(ex)@, final(ex)@),
        old(ex)@.queue.len() == 0 ==> final(ex)@ == old(ex)@,
{
    let ghost old_ex = *ex;
    let ghost mut k: nat = 0;
    while ex.queue.len() > 0
        invariant
            ex@ == passes(old_ex@, k),
            forall|j: nat| j < k ==> (#[trigger] passes(old_ex@, j)).queue.len() > 0,
            ex.wf(),
            ex.len() == old_ex.len(),
            ex@.scripts == old_ex@.scripts,
            ex.values() == old_ex.values(),
            ex.slots() == old_ex.slots(),
            forall|i: int| 0 <= i < old_ex.len() && #[trigger] old_ex@.states[i] == TaskState::Completed ==> {
                &&& ex@.states[i] == TaskState::Completed
                &&& ex@.polls[i] == old_ex@.polls[i]
            },
            forall|i: int| 0 <= i < old_ex.len() && #[trigger] old_ex@.states[i] == TaskState::Runnable
                ==> on_track(ex@.scripts[i], ex@.pcs[i], ex@.states[i], settle(old_ex@.scripts[i], old_ex@.pcs[i])),
            forall|i: int| 0 <= i < old_ex.len() && #[trigger] old_ex@.states[i] != TaskState::Runnable
                ==> ex@.pcs[i] == old_ex@.pcs[i] && ex@.states[i] == old_ex@.states[i],
        decreases ex.work(),
    {
        let ghost before = *ex;
        ex.run_pass();
        proof {
            assert(passes(old_ex@, k + 1) == pass(passes(old_ex@, k)));
            k = k + 1;
            assert forall|i: int| 0 <= i < old_ex.len() && #[trigger] old_ex@.states[i] == TaskState::Runnable
                implies on_track(ex@.scripts[i], ex@.pcs[i], ex@.states[i], settle(old_ex@.scripts[i], old_ex@.pcs[i])) by {
                if before.queue@.contains(i as usize) {
                    assert(before@.states[i] == TaskState::Runnable);
                    assert((ex@.pcs[i], ex@.states[i]) == step_of(before@.scripts[i], before@.pcs[i]));
                    lemma_settle_step(before@.scripts[i], before@.pcs[i], settle(old_ex@.scripts[i], old_ex@.pcs[i]));
                } else {
                    assert(ex@.states[i] == before@.states[i]);
                }
            }
            assert forall|i: int| 0 <= i < old_ex.len() && #[trigger] old_ex@.states[i] != TaskState::Runnable
                implies ex@.pcs[i] == old_ex@.pcs[i] && ex@.states[i] == old_ex@.states[i] by {
                assert(before@.states[i] != TaskState::Runnable);
                assert(!before.queue@.contains(i as usize));
                assert(ex@.states[i] == before@.states[i]);
            }
            assert forall|i: int| 0 <= i < old_ex.len() && #[trigger] old_ex@.states[i] == TaskState::Completed implies {
                &&& ex@.states[i] == TaskState::Completed
                &&& ex@.polls[i] == old_ex@.polls[i]
            } by {
                assert(before@.states[i] == TaskState::Completed);
                assert(!before.queue@.contains(i as usize));
                assert(ex@.states[i] == before@.states[i]);
                assert(ex@.polls[i] == before@.polls[i]);
            }
        }
    }
    proof {
        assert forall|i: int| 0 <= i < ex.len() implies #[trigger] ex@.states[i] != TaskState::Runnable by {
            assert(!ex.queue@.contains(i as usize));
            assert(!Seq::<usize>::empty().contains(i as usize));
        }
        assert forall|i: int| 0 <= i < old_ex.len() && #[trigger] old_ex@.states[i] == TaskState::Runnable
            implies (ex@.pcs[i], ex@.states[i]) == settle(old_ex@.scripts[i], old_ex@.pcs[i]) by {
            assert(ex@.states[i] != TaskState::Runnable);
        }
        assert(passes(old_ex@, k) == ex@);
        if old_ex@.queue.len() == 0 {
            assert(passes(old_ex@, 0) == old_ex@);
            assert(k == 0);
        }
        assert forall|i: int| 0 <= i < ex.len() && unconditional(#[trigger] ex@.scripts[i]) implies {
            &&& ex@.states[i] == TaskState::Completed
            &&& ex@.polls[i] == ex@.scripts[i].len() + 1
        } by {
            assert(!ex.queue@.contains(i as usize));
            assert(!Seq::<usize>::empty().contains(i as usize));
            match ex@.states[i] {
                TaskState::Waiting(c) => {
                    assert(ex@.scripts[i][ex@.pcs[i] - 1] == Action::Await(c));
                },
                _ => {},
            }
        }
    }
}

/// Adds a task for `job`, runnable, at the end of the queue; returns its index.
pub fn spawn<T>(ex: &mut Executor<T>, job: Job<T>) -> (id: usize)
    requires
        old(ex).wf(),
        old(ex).len() < usize::MAX,
    ensures
        final(ex).wf(),
        id == old(ex).len(),
        final(ex).len() == old(ex).len() + 1,
        final(ex)@.scripts == old(ex)@.scripts.push(job.steps@),
        final(ex)@.pcs == old(ex)@.pcs.push(0),
        final(ex)@.states == old(ex)@.states.push(TaskState::Runnable),
        final(ex)@.queue == old(ex)@.queue.push(id),
        final(ex)@.polls == old(ex)@.polls.push(0),
        final(ex)@.trace == old(ex)@.trace,
        final(ex).values() == old(ex).values().push(job.output),
        final(ex).slots() == old(ex).slots().push(Some(job.output)),
        final(ex).work() == old(ex).work() + job.steps@.len() + 1,
        final(ex)@ == spawn_spec(old(ex)@, job.steps@),
{
    let ghost old_ex = *ex;
    let id = ex.scripts.len();
    let Job { steps, output } = job;
    let ghost steps_view = steps@;
    ex.scripts.push(steps);
    ex.pcs.push(0);
    ex.states.push(TaskState::Runnable);
    ex.values = Ghost(ex.values@.push(output));
    ex.slots.push(Some(output));
    ex.queue.push(id);
    ex.polls = Ghost(ex.polls@.push(0));
    proof {
        assert(ex@.scripts =~= old_ex@.scripts.push(steps_view));
        assert(ex@.pcs =~= old_ex@.pcs.push(0));
        assert(ex.queue@[ex.queue@.len() - 1] == id);
        assert(ex.queue@.contains(id));
        assert forall|i: int| 0 <= i < old_ex.len() implies
            (ex.queue@.contains(i as usize) <==> #[trigger] old_ex.queue@.contains(i as usize)) by {
            if ex.queue@.contains(i as usize) {
                let k = choose|k: int| 0 <= k < ex.queue@.len() && ex.queue@[k] == i as usize;
                assert(old_ex.queue@[k] == i as usize);
            }
            if old_ex.queue@.contains(i as usize) {
                let k = choose|k: int| 0 <= k < old_ex.queue@.len() && old_ex.queue@[k] == i as usize;
                assert(ex.queue@[k] == i as usize);
            }
        }
        let s0 = Seq::new(old_ex.len(), |i: int| old_ex.remaining(i));
        let s1 = Seq::new(ex.len(), |i: int| ex.remaining(i));
        assert(s1 =~= s0.push((steps_view.len() + 1) as nat));
        lemma_sum_push(s0, (steps_view.len() + 1) as nat);
    }
    id
}

impl<T> Executor<T> {
    /// Where task `id` stands.
    pub fn state(&self, id: usize) -> (r: TaskState)
        requires
            self.wf(),
            id < self.len(),
        ensures
            r == self@.states[id as int],
    {
        self.states[id]
    }

    /// Number of tasks spawned so far.
    pub fn task_count(&self) -> (r: usize)
        requires
            self.wf(),
        ensures
            r == self.len(),
    {
        self.scripts.len()
    }

    /// Number of tasks in the runnable queue.
    pub fn runnable_count(&self) -> (r: usize)
        ensures
            r == self@.queue.len(),
    {
        self.queue.len()
    }

    /// The stored output of task `id`, once it has completed and until the
    /// output is taken.
    pub fn output(&self, id: usize) -> (r: Option<&T>)
        requires
            self.wf(),
            id < self.len(),
        ensures
            r is Some <==> (self@.states[id as int] == TaskState::Completed && self.slots()[id as int] is Some),
            r matches Some(v) ==> *v == self.values()[id as int],
    {
        if self.states[id] == TaskState::Completed {
            match &self.slots[id] {
                Some(v) => Some(v),
                None => None,
            }
        } else {
            None
        }
    }

    /// Moves the output of completed task `id` out of its slot.
    pub fn take_output(&mut self, id: usize) -> (r: Option<T>)
        requires
            old(self).wf(),
            id < old(self).len(),
        ensures
            final(self).wf(),
            final(self).len() == old(self).len(),
            final(self)@ == old(self)@,
            final(self).values() == old(self).values(),
            final(self).work() == old(self).work(),
            old(self)@.states[id as int] == TaskState::Completed ==> {
                &&& r == old(self).slots()[id as int]
                &&& final(self).slots() == old(self).slots().update(id as int, None)
            },
            old(self)@.states[id as int] != TaskState::Completed ==> {
                &&& r is None
                &&& final(self).slots() == old(self).slots()
            },
    {
        if self.states[id] == TaskState::Completed {
            let ghost old_ex = *self;
            let ghost old_slots = self.slots@;
            let out = self.slots.remove(id);
            self.slots.insert(id, None);
            assert(self.slots@ =~= old_slots.update(id as int, None));
            assert(Seq::new(self.len(), |i: int| self.remaining(i)) =~= Seq::new(old_ex.len(), |i: int| old_ex.remaining(i)));
            out
        } else {
            None
        }
    }

    /// Arms a timer that fires condition `c` at `deadline`.
    pub fn add_timer(&mut self, deadline: u64, c: u64)
        requires
            old(self).wf(),
        ensures
            final(self).wf(),
            final(self)@ == old(self)@,
            final(self).len() == old(self).len(),
            final(self).values() == old(self).values(),
            final(self).slots() == old(self).slots(),
            final(self).timers() == old(self).timers().push((deadline, c)),
    {
        self.reactor.add_timer(deadline, c);
    }

    /// Armed timers as (deadline, condition) pairs.
    pub closed spec fn timers(&self) -> Seq<(u64, u64)> {
        self.reactor@.timers
    }

    /// The earliest armed deadline, or `None`: when nothing is runnable the
    /// core may sleep until then instead of spinning.
    pub fn idle_deadline(&self) -> (r: Option<u64>)
        ensures
            r is None <==> self.timers().len() == 0,
            r matches Some(d) ==> (exists|k: int| 0 <= k < self.timers().len() && self.timers()[k].0 == d)
                && (forall|k: int| 0 <= k < self.timers().len() ==> d <= self.timers()[k].0),
    {
        let r = self.reactor.idle_deadline();
        proof {
            if let Some(d) = r {
                let k = choose|k: int| 0 <= k < self.reactor@.timers.len() && self.reactor@.timers[k].0 == d;
                assert(self.timers()[k].0 == d);
            }
        }
        r
    }
}

/// Spawns `job` and runs passes until it completes, returning its output.
/// Other tasks progress on the way. When nothing is left runnable and the
/// task waits on a condition, no pass can make progress until an outside
/// `notify`, and `None` is returned with the task still waiting.
pub fn block_on<T>(ex: &mut Executor<T>, job: Job<T>) -> (r: Option<T>)
    requires
        old(ex).wf(),
        old(ex).len() < usize::MAX,
    ensures
        final(ex).wf(),
        final(ex).len() == old(ex).len() + 1,
        final(ex)@.scripts == old(ex)@.scripts.push(job.steps@),
        final(ex).values() == old(ex).values().push(job.output),
        r matches Some(v) ==> v == job.output && final(ex)@.states[old(ex).len() as int] == TaskState::Completed,
        r is None ==> final(ex)@.queue.len() == 0 && final(ex)@.states[old(ex).len() as int] is Waiting,
        unconditional(job.steps@) ==> r == Some(job.output),
        r is Some <==> settle(job.steps@, 0).1 == TaskState::Completed,
        r is None ==> (final(ex)@.pcs[old(ex).len() as int], final(ex)@.states[old(ex).len() as int])
            == settle(job.steps@, 0),
        r is Some ==> final(ex)@.polls[old(ex).len() as int] == job.steps@.len() + 1,
        ran_until(spawn_spec(old(ex)@, job.steps@), old(ex).len() as int, final(ex)@),
        forall|i: int| 0 <= i < old(ex).len() && #[trigger] old(ex)@.states[i] != TaskState::Runnable
            ==> final(ex)@.pcs[i] == old(ex)@.pcs[i] && final(ex)@.states[i] == old(ex)@.states[i]
                && final(ex)@.polls[i] == old(ex)@.polls[i],
{
    let ghost steps = job.steps@;
    let ghost value = job.output;
    let ghost old_ex = *ex;
    let id = spawn(ex, job);
    let ghost s0 = ex@;
    let ghost mut k: nat = 0;
    while ex.states[id] != TaskState::Completed && ex.queue.len() > 0
        invariant
            ex@ == passes(s0, k),
            s0 == spawn_spec(old_ex@, steps),
            forall|j: nat| j < k ==> (#[trigger] passes(s0, j)).queue.len() > 0
                && passes(s0, j).states[id as int] != TaskState::Completed,
            forall|i: int| 0 <= i < old_ex.len() && #[trigger] old_ex@.states[i] != TaskState::Runnable
                ==> ex@.pcs[i] == old_ex@.pcs[i] && ex@.states[i] == old_ex@.states[i],
            old_ex.wf(),
            ex.len() == old_ex.len() + 1,
            ex.wf(),
            id == ex.len() - 1,
            ex@.scripts[id as int] == steps,
            ex.values()[id as int] == value,
            ex.slots()[id as int] == Some(value),
            ex@.scripts.len() == ex.len(),
            ex.len() == old(ex).len() + 1,
            ex@.scripts == old(ex)@.scripts.push(steps),
            ex.values() == old(ex).values().push(value),
            on_track(steps, ex@.pcs[id as int], ex@.states[id as int], settle(steps, 0)),
        decreases ex.work(),
    {
        let ghost before = *ex;
        ex.run_pass();
        proof {
            assert(passes(s0, k + 1) == pass(passes(s0, k)));
            k = k + 1;
            assert forall|i: int| 0 <= i < old_ex.len() && #[trigger] old_ex@.states[i] != TaskState::Runnable
                implies ex@.pcs[i] == old_ex@.pcs[i] && ex@.states[i] == old_ex@.states[i] by {
                assert(before@.states[i] == old_ex@.states[i]);
                assert(before@.states[i] != TaskState::Runnable);
                assert(i < before.len());
                assert(!before@.queue.contains(i as usize));
                assert(ex@.states[i] == before@.states[i]);
                assert(ex@.pcs[i] == before@.pcs[i]);
            }
            if before.queue@.contains(id) {
                lemma_settle_step(steps, before@.pcs[id as int], settle(steps, 0));
            } else {
                assert(ex@.states[id as int] == before@.states[id as int]);
            }
        }
    }
    proof {
        assert(passes(s0, k) == ex@);
        assert(!Seq::<usize>::empty().contains(id));
        if ex.queue@.len() == 0 {
            assert(!ex.queue@.contains(id));
        }
        match ex@.states[id as int] {
            TaskState::Waiting(c) => {
                assert(steps[ex@.pcs[id as int] - 1] == Action::Await(c));
            },
            _ => {},
        }
    }
    if ex.states[id] == TaskState::Completed {
        ex.take_output(id)
    } else {
        None
    }
}

} // verus!

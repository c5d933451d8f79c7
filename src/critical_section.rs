//! A nestable critical section over the core's interrupt-enable flag.
//!
//! Policy for interrupt context: entering a critical section from an interrupt
//! handler behaves exactly as it does from mainline code. Interrupts are
//! already masked there, so the entry saves `false` and the matching exit
//! restores `false`; nesting is allowed from both contexts. Exit consumes the
//! token returned by the matching entry, so an exit without an entry cannot be
//! written.
use vstd::prelude::*;

verus! {

/// The interrupt-enable flag of the one execution core and the current
/// nesting depth of critical sections.
pub struct Core {
    interrupts_enabled: bool,
    depth: u64,
}

/// What `enter` saw of the interrupt-enable flag, and the depth that entry
/// opened; consumed by `exit`.
pub struct RestoreToken {
    was_enabled: bool,
    depth: u64,
}

/// Abstract state of the core: whether interrupts are enabled, and the depth.
pub struct CoreState {
    pub enabled: bool,
    pub depth: nat,
}

/// State after one entry, and the flag that the entry saved.
pub open spec fn spec_enter(s: CoreState) -> (CoreState, bool) {
    (CoreState { enabled: false, depth: s.depth + 1 }, s.enabled)
}

/// State after one exit that restores `saved`.
pub open spec fn spec_exit(s: CoreState, saved: bool) -> CoreState {
    CoreState { enabled: saved, depth: (s.depth - 1) as nat }
}

/// State after `n` nested entries from `s`, with the saved flags in entry order.
pub open spec fn enter_times(s: CoreState, n: nat) -> (CoreState, Seq<bool>)
    decreases n,
{
    if n == 0 {
        (s, seq![])
    } else {
        let (s1, saved) = enter_times(s, (n - 1) as nat);
        let (s2, t) = spec_enter(s1);
        (s2, saved.push(t))
    }
}

/// State after the innermost `j` of the sections whose saved flags are
/// `saved` (innermost last) have been exited.
pub open spec fn exit_times(s: CoreState, saved: Seq<bool>, j: nat) -> CoreState
    decreases j,
{
    if j == 0 || saved.len() == 0 {
        s
    } else {
        exit_times(spec_exit(s, saved.last()), saved.drop_last(), (j - 1) as nat)
    }
}

impl RestoreToken {
    /// The interrupt-enable flag that the matching entry saw.
    pub closed spec fn saved(&self) -> bool {
        self.was_enabled
    }

    /// The nesting depth of the section that this token closes.
    pub closed spec fn depth(&self) -> nat {
        self.depth as nat
    }
}

impl Core {
    pub closed spec fn view(&self) -> CoreState {
        CoreState { enabled: self.interrupts_enabled, depth: self.depth as nat }
    }

    /// A core with the given interrupt-enable flag and no open section.
    pub fn new(interrupts_enabled: bool) -> (r: Core)
        ensures
            r@ == (CoreState { enabled: interrupts_enabled, depth: 0 }),
    {
        Core { interrupts_enabled, depth: 0 }
    }

    pub fn interrupts_enabled(&self) -> (r: bool)
        ensures
            r == self@.enabled,
    {
        self.interrupts_enabled
    }

    pub fn depth(&self) -> (r: u64)
        ensures
            r as nat == self@.depth,
    {
        self.depth
    }

    /// Masks interrupts and returns what the flag was before.
    pub fn enter(&mut self) -> (t: RestoreToken)
        requires
            old(self)@.depth < u64::MAX,
        ensures
            (final(self)@, t.saved()) == spec_enter(old(self)@),
            t.depth() == final(self)@.depth,
    {
        self.depth = self.depth + 1;
        let t = RestoreToken { was_enabled: self.interrupts_enabled, depth: self.depth };
        self.interrupts_enabled = false;
        t
    }

    /// Restores the flag that the matching `enter` saw. Only the token of
    /// the innermost open section is accepted.
    pub fn exit(&mut self, t: RestoreToken)
        requires
            old(self)@.depth > 0,
            t.depth() == old(self)@.depth,
        ensures
            final(self)@ == spec_exit(old(self)@, t.saved()),
    {
        self.interrupts_enabled = t.was_enabled;
        self.depth = self.depth - 1;
    }
}

proof fn lemma_enter_times_shape(s: CoreState, n: nat)
    ensures
        enter_times(s, n).0 == (CoreState {
            enabled: if n == 0 { s.enabled } else { false },
            depth: s.depth + n,
        }),
        enter_times(s, n).1.len() == n,
        n > 0 ==> enter_times(s, n).1[0] == s.enabled,
        forall|i: int| 1 <= i < n ==> !enter_times(s, n).1[i],
    decreases n,
{
    if n > 0 {
        lemma_enter_times_shape(s, (n - 1) as nat);
    }
}

proof fn lemma_exit_times_shape(s: CoreState, saved: Seq<bool>, j: nat)
    requires
        1 <= saved.len(),
        j <= saved.len(),
        s.depth >= saved.len(),
        !s.enabled,
        forall|i: int| 1 <= i < saved.len() ==> !saved[i],
    ensures
        exit_times(s, saved, j).depth == s.depth - j,
        j < saved.len() ==> !exit_times(s, saved, j).enabled,
        j == saved.len() ==> exit_times(s, saved, j).enabled == saved[0],
    decreases j,
{
    if j > 0 {
        let s1 = spec_exit(s, saved.last());
        let rest = saved.drop_last();
        if rest.len() == 0 {
            assert(exit_times(s1, rest, (j - 1) as nat) == s1);
        } else {
            assert(forall|i: int| 1 <= i < rest.len() ==> rest[i] == saved[i]);
            lemma_exit_times_shape(s1, rest, (j - 1) as nat);
            assert(rest[0] == saved[0]);
        }
    }
}

/// Entering `n` nested critical sections and exiting them all leaves the
/// core exactly as it was before the first entry, and interrupts are masked
/// after every entry and after every exit but the last.
pub proof fn lemma_nesting_restores(s: CoreState, n: nat)
    requires
        n >= 1,
    ensures
        exit_times(enter_times(s, n).0, enter_times(s, n).1, n) == s,
        forall|k: nat| 1 <= k <= n ==> !(#[trigger] enter_times(s, k)).0.enabled,
        forall|j: nat|
            j < n ==> !(#[trigger] exit_times(enter_times(s, n).0, enter_times(s, n).1, j)).enabled,
{
    lemma_enter_times_shape(s, n);
    let (top, saved) = enter_times(s, n);
    assert forall|j: nat| j <= n implies exit_times(top, saved, j).depth == top.depth - j
        && (j < n ==> !exit_times(top, saved, j).enabled)
        && (j == n ==> exit_times(top, saved, j).enabled == s.enabled) by {
        lemma_exit_times_shape(top, saved, j);
    }
    assert forall|k: nat| 1 <= k <= n implies !(#[trigger] enter_times(s, k)).0.enabled by {
        lemma_enter_times_shape(s, k);
    }
}

} // verus!

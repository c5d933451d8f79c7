//! A cell shared between mainline code and interrupt handlers. Every access
//! runs inside a critical section of the core, entered and exited within the
//! same call, so the value is never seen half-updated. No access blocks.
use vstd::prelude::*;
use crate::critical_section::Core;

verus! {

/// Owns exactly one value, reached only under a critical section.
pub struct IrqMutex<T> {
    value: T,
}

impl<T> IrqMutex<T> {
    pub closed spec fn view(&self) -> T {
        self.value
    }

    pub fn new(value: T) -> (r: IrqMutex<T>)
        ensures
            r@ == value,
    {
        IrqMutex { value }
    }

    /// Puts `value` in the cell and returns what it held.
    pub fn swap(&mut self, core: &mut Core, value: T) -> (r: T)
        requires
            old(core)@.depth < u64::MAX,
        ensures
            r == old(self)@,
            final(self)@ == value,
            final(core)@ == old(core)@,
    {
        let token = core.enter();
        let mut v = value;
        core::mem::swap(&mut self.value, &mut v);
        core.exit(token);
        v
    }

    pub fn into_inner(self) -> (r: T)
        ensures
            r == self@,
    {
        self.value
    }
}

impl<T: Copy> IrqMutex<T> {
    /// A copy of the value held.
    pub fn get(&self, core: &mut Core) -> (r: T)
        requires
            old(core)@.depth < u64::MAX,
        ensures
            r == self@,
            final(core)@ == old(core)@,
    {
        let token = core.enter();
        let v = self.value;
        core.exit(token);
        v
    }
}

} // verus!

//! Per-thread switches and thresholds for the collector.

use vstd::prelude::*;

verus! {

/// Switches and thresholds that steer one thread's garbage collection.
#[derive(Clone, Copy, Debug)]
pub struct Options {
    /// Whether the thread runs the local collector.
    pub local_gc: bool,
    /// Whether the thread runs the global collector.
    pub global_gc: bool,
    /// Whether local garbage is migrated rather than collected.
    pub migrate_local: bool,
    /// Once set, no collector runs and no later setting clears it.
    pub force_no_gc: bool,
    /// Number of items at which a collection is attempted.
    pub gc_num: usize,
    /// Most items freed in one collection cycle.
    pub items_per_gc: usize,
}

impl Options {
    /// The defaults: both collectors on, migration on, nothing forced off,
    /// a collection every 32 items and no cap on the items of one cycle.
    pub fn new() -> (r: Options)
        ensures
            r == (Options {
                local_gc: true,
                global_gc: true,
                migrate_local: true,
                force_no_gc: false,
                gc_num: 32,
                items_per_gc: usize::MAX,
            }),
    {
        Options {
            local_gc: true,
            global_gc: true,
            migrate_local: true,
            force_no_gc: false,
            gc_num: 32,
            items_per_gc: usize::MAX,
        }
    }

    /// Sets the local collector switch.
    pub fn with_local_gc(&mut self, val: bool) -> (r: &mut Options)
        ensures
            *r == (Options { local_gc: val, ..*old(self) }),
            *final(self) == *final(r),
    {
        self.local_gc = val;
        self
    }

    /// Sets the global collector switch.
    pub fn with_global_gc(&mut self, val: bool) -> (r: &mut Options)
        ensures
            *r == (Options { global_gc: val, ..*old(self) }),
            *final(self) == *final(r),
    {
        self.global_gc = val;
        self
    }

    /// Sets whether local garbage is migrated instead of collected.
    pub fn with_migrate_local(&mut self, val: bool) -> (r: &mut Options)
        ensures
            *r == (Options { migrate_local: val, ..*old(self) }),
            *final(self) == *final(r),
    {
        self.migrate_local = val;
        self
    }

    /// Forces every collector off. The switch is sticky: once it is set,
    /// a later call cannot clear it.
    pub fn with_force_no_gc(&mut self, val: bool) -> (r: &mut Options)
        ensures
            *r == (Options { force_no_gc: old(self).force_no_gc || val, ..*old(self) }),
            *final(self) == *final(r),
    {
        if !self.force_no_gc {
            self.force_no_gc = val;
        }
        self
    }

    /// Sets both collector switches to `val`.
    pub fn set_gc(&mut self, val: bool) -> (r: &mut Options)
        ensures
            *r == (Options { local_gc: val, global_gc: val, ..*old(self) }),
            *final(self) == *final(r),
    {
        self.with_local_gc(val).with_global_gc(val)
    }

    /// Turns both collectors off.
    pub fn disable_gc(&mut self) -> (r: &mut Options)
        ensures
            *r == (Options { local_gc: false, global_gc: false, ..*old(self) }),
            *final(self) == *final(r),
    {
        self.set_gc(false)
    }

    /// Turns both collectors on.
    pub fn enable_gc(&mut self) -> (r: &mut Options)
        ensures
            *r == (Options { local_gc: true, global_gc: true, ..*old(self) }),
            *final(self) == *final(r),
    {
        self.set_gc(true)
    }

    /// Whether the local collector runs under these options.
    pub fn will_run_local_gc(&self) -> (r: bool)
        ensures
            r == (!self.force_no_gc && self.local_gc),
    {
        !self.force_no_gc && self.local_gc
    }

    /// Whether the global collector runs under these options.
    pub fn will_run_global_gc(&self) -> (r: bool)
        ensures
            r == (!self.force_no_gc && self.global_gc),
    {
        !self.force_no_gc && self.global_gc
    }

    /// Sets the number of items at which a collection is attempted.
    pub fn with_gc_num(&mut self, val: usize) -> (r: &mut Options)
        ensures
            *r == (Options { gc_num: val, ..*old(self) }),
            *final(self) == *final(r),
    {
        self.gc_num = val;
        self
    }

    /// Sets the most items that one collection cycle frees.
    pub fn with_items_per_gc(&mut self, val: usize) -> (r: &mut Options)
        ensures
            *r == (Options { items_per_gc: val, ..*old(self) }),
            *final(self) == *final(r),
    {
        self.items_per_gc = val;
        self
    }
}

} // verus!

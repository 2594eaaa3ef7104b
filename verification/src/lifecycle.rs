//! Widget handle lifecycle: the live editor instance is created lazily and
//! exactly once per component lifetime.

use vstd::prelude::*;

verus! {

/// Tracks whether the host widget instance has been created yet. Both
/// reconciliation units treat "not created" as a safe deferred no-op, and
/// creation itself must happen exactly once, on the first opportunity.
pub struct WidgetLifecycle {
    created: bool,
}

impl WidgetLifecycle {
    pub closed spec fn is_created(&self) -> bool {
        self.created
    }

    /// A fresh lifecycle, before any widget instance exists.
    pub fn new() -> (r: WidgetLifecycle)
        ensures
            !r.is_created(),
    {
        WidgetLifecycle { created: false }
    }

    /// Whether the widget instance exists, i.e. whether reconciliation
    /// passes may run rather than defer.
    pub fn ready(&self) -> (b: bool)
        ensures
            b == self.is_created(),
    {
        self.created
    }

    /// The decision taken on each mount opportunity: returns `true`, and the
    /// caller must then invoke the external widget factory and install the
    /// change subscription, exactly on the first call; every later call is a
    /// re-entrant no-op and returns `false`.
    pub fn claim_creation(&mut self) -> (create_now: bool)
        ensures
            final(self).is_created(),
            create_now == !old(self).is_created(),
    {
        let first = !self.created;
        self.created = true;
        first
    }
}

} // verus!

//! What a caller has to do after the store or the engine changed.

use vstd::prelude::*;

verus! {

/// The side effects that an operation asks its caller for. The store never
/// redraws or resizes anything itself.
#[derive(Debug, Clone, Copy, PartialEq, Eq, Structural)]
pub struct WidgetFlags {
    /// The task loop is to end.
    pub quit: bool,
    /// The canvas needs to be drawn again.
    pub redraw: bool,
    /// The document may need another size.
    pub resize: bool,
    /// The state shown in the user interface changed.
    pub refresh_ui: bool,
    /// The store holds changes that are not saved.
    pub indicate_changed_store: bool,
}

impl WidgetFlags {
    /// The flags that either of the two has.
    pub open spec fn merged(self, other: WidgetFlags) -> WidgetFlags {
        WidgetFlags {
            quit: self.quit || other.quit,
            redraw: self.redraw || other.redraw,
            resize: self.resize || other.resize,
            refresh_ui: self.refresh_ui || other.refresh_ui,
            indicate_changed_store: self.indicate_changed_store || other.indicate_changed_store,
        }
    }

    /// No flag set.
    pub open spec fn none() -> WidgetFlags {
        WidgetFlags {
            quit: false,
            redraw: false,
            resize: false,
            refresh_ui: false,
            indicate_changed_store: false,
        }
    }

    /// Adds the flags of `other` to these.
    pub fn merge_with_other(&mut self, other: WidgetFlags)
        ensures
            *final(self) == old(self).merged(other),
    {
        self.quit = self.quit || other.quit;
        self.redraw = self.redraw || other.redraw;
        self.resize = self.resize || other.resize;
        self.refresh_ui = self.refresh_ui || other.refresh_ui;
        self.indicate_changed_store = self.indicate_changed_store || other.indicate_changed_store;
    }
}

impl Default for WidgetFlags {
    fn default() -> (r: Self)
        ensures
            r == WidgetFlags::none(),
    {
        WidgetFlags {
            quit: false,
            redraw: false,
            resize: false,
            refresh_ui: false,
            indicate_changed_store: false,
        }
    }
}

} // verus!

//! The registry's data model: one remembered document reference.

use vstd::prelude::*;

verus! {

/// Mathematical view of one registry entry.
pub struct EntryView {
    pub path: Seq<char>,
    pub name: Seq<char>,
    pub last_opened: int,
}

/// One remembered document: its filesystem path (the unique key), a display
/// name, and the time it was last opened, in seconds since the Unix epoch.
pub struct RecentFile {
    pub path: String,
    pub name: String,
    pub last_opened: i64,
}

impl View for RecentFile {
    type V = EntryView;

    open spec fn view(&self) -> EntryView {
        EntryView { path: self.path@, name: self.name@, last_opened: self.last_opened as int }
    }
}

impl DeepView for RecentFile {
    type V = EntryView;

    open spec fn deep_view(&self) -> EntryView {
        self.view()
    }
}

impl RecentFile {
    /// Field-by-field copy; the result has the same view as the original.
    pub fn duplicate(&self) -> (r: RecentFile)
        ensures
            r@ == self@,
    {
        RecentFile {
            path: self.path.clone(),
            name: self.name.clone(),
            last_opened: self.last_opened,
        }
    }
}

} // verus!

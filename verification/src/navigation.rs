//! Drill-down navigation state: the path of selections a user has made.

use vstd::prelude::*;

verus! {

/// One step of the navigation path.
#[derive(Debug, Clone)]
pub enum NavigationStep {
    /// A group was selected.
    Group { _uuid: String, name: String },
    /// An entry was selected.
    Entry { _uuid: String, title: String },
}

/// The drill-down state: each selection appends a step.
#[derive(Debug, Clone)]
pub struct NavigationPath {
    pub steps: Vec<NavigationStep>,
}

impl NavigationPath {
    /// An empty path.
    pub fn new() -> (r: Self)
        ensures
            r.steps@ == Seq::<NavigationStep>::empty(),
    {
        NavigationPath { steps: Vec::new() }
    }

    /// Appends a group selection.
    pub fn push_group(&mut self, uuid: String, name: String)
        ensures
            final(self).steps@ == old(self).steps@.push(
                NavigationStep::Group { _uuid: uuid, name },
            ),
    {
        self.steps.push(NavigationStep::Group { _uuid: uuid, name });
    }

    /// Appends an entry selection.
    pub fn push_entry(&mut self, uuid: String, title: String)
        ensures
            final(self).steps@ == old(self).steps@.push(
                NavigationStep::Entry { _uuid: uuid, title },
            ),
    {
        self.steps.push(NavigationStep::Entry { _uuid: uuid, title });
    }

    /// Cuts the path back to the given depth; zero clears it, and a depth
    /// beyond the current one changes nothing.
    pub fn truncate(&mut self, depth: usize)
        ensures
            depth <= old(self).steps@.len() ==> final(self).steps@ == old(self).steps@.subrange(
                0,
                depth as int,
            ),
            depth > old(self).steps@.len() ==> final(self).steps@ == old(self).steps@,
    {
        self.steps.truncate(depth);
    }

    /// The current depth.
    pub fn depth(&self) -> (r: usize)
        ensures
            r == self.steps@.len(),
    {
        self.steps.len()
    }
}

impl Default for NavigationPath {
    fn default() -> (r: Self)
        ensures
            r.steps@ == Seq::<NavigationStep>::empty(),
    {
        NavigationPath::new()
    }
}

} // verus!

//! A row of tabs with one of them selected.
use vstd::prelude::*;
use vstd::string::*;
use crate::viewer::error::DotViewerError;

verus! {

/// Tabs shown in the main screen; `state` is the index of the selected tab.
pub struct Tabs<T> {
    pub state: usize,
    pub tabs: Vec<T>,
}

/// The index after `state` among `len` tabs, wrapping around after the last one.
pub open spec fn next_index(state: int, len: int) -> int {
    if state < len - 1 { state + 1 } else { 0 }
}

/// The index before `state` among `len` tabs, wrapping around before the first one.
pub open spec fn previous_index(state: int, len: int) -> int {
    if state == 0 { len - 1 } else { state - 1 }
}

impl<T> Tabs<T> {
    /// The selected index points at an existing tab.
    pub open spec fn wf(&self) -> bool {
        self.state < self.tabs.len()
    }

    /// Builds tabs from a list of tabs, selecting the first.
    pub fn from_vec(tabs: Vec<T>) -> (res: Tabs<T>)
        ensures
            res.state == 0,
            res.tabs@ == tabs@,
    {
        Tabs { state: 0, tabs }
    }

    /// Selects the next tab, wrapping around after the last one.
    pub fn next(&mut self)
        requires
            old(self).tabs.len() > 0,
        ensures
            final(self).tabs@ == old(self).tabs@,
            final(self).state == next_index(old(self).state as int, old(self).tabs.len() as int),
    {
        let state = self.state;
        let len = self.tabs.len();
        self.state = if state < len - 1 { state + 1 } else { 0 };
    }

    /// Selects the previous tab, wrapping around before the first one.
    pub fn previous(&mut self)
        requires
            old(self).tabs.len() > 0,
        ensures
            final(self).tabs@ == old(self).tabs@,
            final(self).state == previous_index(old(self).state as int, old(self).tabs.len() as int),
    {
        let state = self.state;
        let len = self.tabs.len();
        self.state = if state == 0 { len - 1 } else { state - 1 };
    }

    /// Adds a tab at the end and selects it.
    pub fn open(&mut self, tab: T)
        requires
            old(self).tabs.len() < usize::MAX,
        ensures
            final(self).tabs@ == old(self).tabs@.push(tab),
            final(self).state == old(self).tabs.len(),
            final(self).wf(),
    {
        self.tabs.push(tab);
        self.state = self.tabs.len() - 1;
    }

    /// Closes the selected tab and selects the one that took its place, or the new last tab;
    /// the first tab cannot be closed.
    pub fn close(&mut self) -> (res: Result<(), DotViewerError>)
        requires
            old(self).wf(),
        ensures
            old(self).state == 0 ==> *final(self) == *old(self),
            old(self).state == 0 ==> (res matches Err(DotViewerError::ViewerError(m)) && m@ == "cannot close the first tab"@),
            old(self).state > 0 ==> res is Ok
                && final(self).tabs@ == old(self).tabs@.remove(old(self).state as int)
                && final(self).state == (if old(self).state == old(self).tabs.len() - 1 {
                    old(self).state - 1
                } else {
                    old(self).state as int
                }),
            final(self).wf(),
    {
        if self.state == 0 {
            return Err(DotViewerError::ViewerError(String::from_str("cannot close the first tab")));
        }
        self.tabs.remove(self.state);
        if self.state == self.tabs.len() {
            self.state -= 1;
        }
        Ok(())
    }

    /// Selects the tab at `state` if there is one.
    pub fn select(&mut self, state: usize)
        ensures
            final(self).tabs@ == old(self).tabs@,
            final(self).state == (if state < old(self).tabs.len() { state } else { old(self).state }),
    {
        if state < self.tabs.len() {
            self.state = state;
        }
    }

    /// The selected tab, to read or change.
    pub fn selected(&mut self) -> (tab: &mut T)
        requires
            old(self).wf(),
        ensures
            *tab == old(self).tabs@[old(self).state as int],
            final(self).state == old(self).state,
            final(self).tabs@ == old(self).tabs@.update(old(self).state as int, *final(tab)),
    {
        &mut self.tabs[self.state]
    }
}

/// Moving to the next tab and back again selects the same tab.
pub proof fn lemma_next_previous(state: int, len: int)
    requires
        0 <= state < len,
    ensures
        previous_index(next_index(state, len), len) == state,
        next_index(previous_index(state, len), len) == state,
        0 <= next_index(state, len) < len,
        0 <= previous_index(state, len) < len,
{
}

} // verus!

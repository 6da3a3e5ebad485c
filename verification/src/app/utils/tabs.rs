//! A row of tabs with one of them selected.
use vstd::prelude::*;
use vstd::string::*;
use crate::app::error::{DotViewerError, Res};
pub use crate::viewer::utils::tabs::{next_index, previous_index};

verus! {

/// Tabs of the navigator; `state` is the index of the selected tab.
pub struct StatefulTabs<T> {
    pub state: usize,
    pub tabs: Vec<T>,
}

impl<T> StatefulTabs<T> {
    /// The selected index points at an existing tab.
    pub open spec fn wf(&self) -> bool {
        self.state < self.tabs.len()
    }

    /// Tabs over a non-empty list, selecting the first; an empty list is refused.
    pub fn with_tabs(tabs: Vec<T>) -> (res: Result<StatefulTabs<T>, DotViewerError>)
        ensures
            tabs@.len() == 0 <==> res is Err,
            res matches Ok(t) ==> t.state == 0 && t.tabs@ == tabs@ && t.wf(),
            res matches Err(e) ==> (e matches DotViewerError::TabError(m) && m@ == "no tab given to tabs constructor"@),
    {
        if tabs.len() == 0 {
            return Err(DotViewerError::TabError(String::from_str("no tab given to tabs constructor")));
        }
        Ok(StatefulTabs { state: 0, tabs })
    }

    /// Selects the next tab, wrapping around after the last one.
    pub fn next(&mut self)
        requires
            old(self).tabs.len() > 0,
        ensures
            final(self).tabs@ == old(self).tabs@,
            final(self).state == next_index(old(self).state as int, old(self).tabs.len() as int),
    {
        let state = self.state;
        let len = self.tabs.len();
        self.state = if state < len - 1 { state + 1 } else { 0 };
    }

    /// Selects the previous tab, wrapping around before the first one.
    pub fn previous(&mut self)
        requires
            old(self).tabs.len() > 0,
        ensures
            final(self).tabs@ == old(self).tabs@,
            final(self).state == previous_index(old(self).state as int, old(self).tabs.len() as int),
    {
        let state = self.state;
        let len = self.tabs.len();
        self.state = if state == 0 { len - 1 } else { state - 1 };
    }

    /// Adds a tab at the end and selects it.
    pub fn open(&mut self, tab: T)
        requires
            old(self).tabs.len() < usize::MAX,
        ensures
            final(self).tabs@ == old(self).tabs@.push(tab),
            final(self).state == old(self).tabs.len(),
            final(self).wf(),
    {
        self.tabs.push(tab);
        self.state = self.tabs.len() - 1;
    }

    /// Closes the selected tab and selects the one that took its place, or the new last tab;
    /// the first tab cannot be closed.
    pub fn close(&mut self) -> (res: Res)
        requires
            old(self).wf(),
        ensures
            old(self).state == 0 ==> *final(self) == *old(self),
            old(self).state == 0 ==> (res matches Err(DotViewerError::TabError(m)) && m@ == "cannot close the first tab"@),
            old(self).state > 0 ==> res == Ok::<Option<String>, DotViewerError>(None)
                && final(self).tabs@ == old(self).tabs@.remove(old(self).state as int)
                && final(self).state == (if old(self).state == old(self).tabs.len() - 1 {
                    old(self).state - 1
                } else {
                    old(self).state as int
                }),
            final(self).wf(),
    {
        if self.state == 0 {
            return Err(DotViewerError::TabError(String::from_str("cannot close the first tab")));
        }
        self.tabs.remove(self.state);
        if self.state == self.tabs.len() {
            self.state -= 1;
        }
        Ok(None)
    }

    /// Selects the tab at `state` if there is one.
    pub fn select(&mut self, state: usize)
        ensures
            final(self).tabs@ == old(self).tabs@,
            final(self).state == (if state < old(self).tabs.len() { state } else { old(self).state }),
    {
        if state < self.tabs.len() {
            self.state = state;
        }
    }

    /// The selected tab, to read or change.
    pub fn selected(&mut self) -> (tab: &mut T)
        requires
            old(self).wf(),
        ensures
            *tab == old(self).tabs@[old(self).state as int],
            final(self).state == old(self).state,
            final(self).tabs@ == old(self).tabs@.update(old(self).state as int, *final(tab)),
    {
        &mut self.tabs[self.state]
    }
}

} // verus!

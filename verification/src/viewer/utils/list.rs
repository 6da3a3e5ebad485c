//! A list with an optional selected item, as the views show their node lists.
use vstd::prelude::*;

verus! {

/// Items and the index of the selected one, if any.
pub struct List<T> {
    pub state: Option<usize>,
    pub items: Vec<T>,
}

/// The selection after moving down: the next item, wrapping around after the last one; the
/// first item when nothing was selected.
pub open spec fn next_selection(state: Option<usize>, len: int) -> Option<usize> {
    if len == 0 {
        state
    } else {
        match state {
            Some(i) => Some(if i >= len - 1 { 0usize } else { (i + 1) as usize }),
            None => Some(0usize),
        }
    }
}

/// The selection after moving up: the previous item, wrapping around before the first one;
/// the first item when nothing was selected.
pub open spec fn previous_selection(state: Option<usize>, len: int) -> Option<usize> {
    if len == 0 {
        state
    } else {
        match state {
            Some(i) => Some(if i == 0 { (len - 1) as usize } else { (i - 1) as usize }),
            None => Some(0usize),
        }
    }
}

impl<T> List<T> {
    /// The selection, if any, points at an item.
    pub open spec fn wf(&self) -> bool {
        self.state matches Some(i) ==> i < self.items.len()
    }

    /// A list of the items, with the first one selected if there is one.
    pub fn from_vec(items: Vec<T>) -> (res: List<T>)
        ensures
            res.items@ == items@,
            res.state == (if items@.len() > 0 { Some(0usize) } else { None }),
            res.wf(),
    {
        let state = if items.len() > 0 { Some(0) } else { None };
        List { state, items }
    }

    /// Selects the next item, wrapping around after the last one.
    pub fn next(&mut self)
        requires
            old(self).wf(),
        ensures
            final(self).items@ == old(self).items@,
            final(self).state == next_selection(old(self).state, old(self).items.len() as int),
            final(self).wf(),
    {
        if self.items.len() > 0 {
            let i = match self.state {
                Some(i) => if i >= self.items.len() - 1 { 0 } else { i + 1 },
                None => 0,
            };
            self.state = Some(i);
        }
    }

    /// Selects the previous item, wrapping around before the first one.
    pub fn previous(&mut self)
        requires
            old(self).wf(),
        ensures
            final(self).items@ == old(self).items@,
            final(self).state == previous_selection(old(self).state, old(self).items.len() as int),
            final(self).wf(),
    {
        if self.items.len() > 0 {
            let i = match self.state {
                Some(i) => if i == 0 { self.items.len() - 1 } else { i - 1 },
                None => 0,
            };
            self.state = Some(i);
        }
    }

    /// Selects the first item, if there is one.
    pub fn first(&mut self)
        ensures
            final(self).items@ == old(self).items@,
            final(self).state == (if old(self).items.len() > 0 { Some(0usize) } else { old(self).state }),
    {
        if self.items.len() > 0 {
            self.state = Some(0);
        }
    }

    /// Selects the last item, if there is one.
    pub fn last(&mut self)
        ensures
            final(self).items@ == old(self).items@,
            final(self).state == (if old(self).items.len() > 0 {
                Some((old(self).items.len() - 1) as usize)
            } else {
                old(self).state
            }),
    {
        if self.items.len() > 0 {
            self.state = Some(self.items.len() - 1);
        }
    }

    /// Selects the item at `idx`, if there is one.
    pub fn select(&mut self, idx: usize)
        ensures
            final(self).items@ == old(self).items@,
            final(self).state == (if idx < old(self).items.len() { Some(idx) } else { old(self).state }),
    {
        if idx < self.items.len() {
            self.state = Some(idx);
        }
    }
}

impl<T: Clone> List<T> {
    /// A copy of the selected item, if any.
    pub fn selected(&self) -> (res: Option<T>)
        requires
            self.wf(),
        ensures
            self.state is None ==> res is None,
            self.state matches Some(i) ==> (res matches Some(r) && cloned(self.items@[i as int], r)),
    {
        match self.state {
            Some(i) => Some(self.items[i].clone()),
            None => None,
        }
    }
}

impl List<String> {
    /// The index of the first item equal to `key`.
    pub fn find(&self, key: &str) -> (res: Option<usize>)
        ensures
            res matches Some(i) ==> i < self.items@.len() && self.items@[i as int]@ == key@
                && forall|j: int| 0 <= j < i ==> self.items@[j]@ != key@,
            res is None ==> forall|j: int| 0 <= j < self.items@.len() ==> self.items@[j]@ != key@,
    {
        for i in 0..self.items.len()
            invariant
                forall|j: int| 0 <= j < i ==> self.items@[j]@ != key@,
        {
            if crate::words::same_text(self.items[i].as_str(), key) {
                return Some(i);
            }
        }
        None
    }
}

/// Moving down then up (or up then down) from an item selects it again.
pub proof fn lemma_next_previous(state: Option<usize>, len: int)
    requires
        len > 0,
        state matches Some(i) ==> i < len,
        len <= usize::MAX,
    ensures
        state is Some ==> previous_selection(next_selection(state, len), len) == state,
        state is Some ==> next_selection(previous_selection(state, len), len) == state,
{
}

} // verus!

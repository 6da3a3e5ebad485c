//! The navigator's lists: the viewer's list type, built from its items.
use vstd::prelude::*;
pub use crate::viewer::utils::list::List as StatefulList;

verus! {

impl<T> StatefulList<T> {
    /// A list of the items, with the first one selected if there is one.
    pub fn with_items(items: Vec<T>) -> (res: StatefulList<T>)
        ensures
            res.items@ == items@,
            res.state == (if items@.len() > 0 { Some(0usize) } else { None }),
            res.wf(),
    {
        StatefulList::from_vec(items)
    }
}

} // verus!

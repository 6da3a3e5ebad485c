//! The prompt's highlighting: the colored prompt replaces the default one.
use vstd::prelude::*;

verus! {

/// Line-editor helper holding the colored version of the prompt.
pub struct ReplHelper {
    pub colored_prompt: String,
}

impl ReplHelper {
    /// The prompt to show: the colored one in place of the default prompt, any other prompt
    /// as it is.
    pub fn highlight_prompt<'b>(&'b self, prompt: &'b str, default: bool) -> (res: &'b str)
        ensures
            res@ == (if default { self.colored_prompt@ } else { prompt@ }),
    {
        if default {
            self.colored_prompt.as_str()
        } else {
            prompt
        }
    }
}

} // verus!

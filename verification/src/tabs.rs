//! The message tab's contribution to the interactive shell's footer: the
//! key bindings it answers to.  The rendering itself belongs to the
//! terminal layer outside this crate.

use vstd::prelude::*;

verus! {

/// The request and response tab.  `sub` selects the focused pane:
/// 0 for the request editor, 1 for the response view.
pub struct MessagesTab {
    pub sub: usize,
}

impl MessagesTab {
    /// The key bindings shown in the footer while this tab is active.
    pub fn footer_keys() -> (r: Vec<(&'static str, &'static str)>)
        ensures
            r@.len() == 5,
            r@[0].0@ == "q"@ && r@[0].1@ == "Quit"@,
            r@[1].0@ == "Tab"@ && r@[1].1@ == "Next Tab"@,
            r@[2].0@ == "\u{2191}"@ && r@[2].1@ == "Up"@,
            r@[3].0@ == "\u{2193}"@ && r@[3].1@ == "Down"@,
            r@[4].0@ == "Enter"@ && r@[4].1@ == "gRPC"@,
    {
        let mut out: Vec<(&'static str, &'static str)> = Vec::new();
        out.push(("q", "Quit"));
        out.push(("Tab", "Next Tab"));
        out.push(("\u{2191}", "Up"));
        out.push(("\u{2193}", "Down"));
        out.push(("Enter", "gRPC"));
        out
    }
}

/// The headers tab: the address and authentication entries the user
/// edits before a call.  Its model and rendering belong to the
/// terminal layer outside this crate.
pub struct HeadersTab {
    pub sub: usize,
}

impl HeadersTab {
    /// The key bindings shown in the footer while this tab is active.
    pub fn footer_keys() -> (r: Vec<(&'static str, &'static str)>)
        ensures
            r@.len() == 5,
            r@[0].0@ == "q"@ && r@[0].1@ == "Quit"@,
            r@[1].0@ == "Tab"@ && r@[1].1@ == "Next Tab"@,
            r@[2].0@ == "\u{2191}/k"@ && r@[2].1@ == "Up"@,
            r@[3].0@ == "\u{2193}/j"@ && r@[3].1@ == "Down"@,
            r@[4].0@ == "Enter"@ && r@[4].1@ == "Select"@,
    {
        let mut out: Vec<(&'static str, &'static str)> = Vec::new();
        out.push(("q", "Quit"));
        out.push(("Tab", "Next Tab"));
        out.push(("\u{2191}/k", "Up"));
        out.push(("\u{2193}/j", "Down"));
        out.push(("Enter", "Select"));
        out
    }
}

} // verus!

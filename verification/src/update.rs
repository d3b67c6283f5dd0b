use vstd::prelude::*;

use crate::location::Location;

verus! {

/// What a host should do after a command: nothing, or adopt a whole new
/// text and selection.
pub enum ComposerUpdate {
    /// The host's view is already in sync.
    Keep,
    /// The host must replace its text and selection wholesale.
    ReplaceAll { replacement_html: Vec<u16>, start: Location, end: Location },
}

impl ComposerUpdate {
    pub fn keep() -> (r: ComposerUpdate)
        ensures
            r is Keep,
    {
        ComposerUpdate::Keep
    }

    pub fn replace_all(replacement_html: Vec<u16>, start: Location, end: Location) -> (r:
        ComposerUpdate)
        ensures
            r matches ComposerUpdate::ReplaceAll { replacement_html: h, start: s, end: e }
                && h == replacement_html && s == start && e == end,
    {
        ComposerUpdate::ReplaceAll { replacement_html, start, end }
    }
}

/// The result of an asynchronous action, reported back by the host.
/// Reserved for a future protocol; no command acts on it yet.
#[derive(Clone, Copy, PartialEq, Eq, Structural, Debug)]
pub enum ActionResponse {
    Success,
    Failed,
}

} // verus!

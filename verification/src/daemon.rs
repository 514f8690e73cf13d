//! The capture loop's decision logic. The loop around it polls the
//! clipboard, sleeps, and persists the store; every decision about what a
//! tick records and what it tracks is made here.

use vstd::prelude::*;
use crate::history::{spec_add, History};
use crate::password::{is_likely_password, spec_is_likely_password};
use crate::text::{str_equal, trim_spaces};

verus! {

/// A tick takes no action: the clipboard was empty or unavailable, the text
/// equals the tracked snapshot, or the text trims to nothing.
pub open spec fn tick_ignored(last_snapshot: Option<String>, current: Option<String>) -> bool {
    match current {
        None => true,
        Some(text) => (match last_snapshot {
            Some(prev) => prev@ == text@,
            None => false,
        }) || trim_spaces(text@).len() == 0,
    }
}

/// One tick of the capture loop: classifies and records new clipboard text,
/// and returns the snapshot to track next to it, plus whether the store
/// changed and must be persisted. The tracked snapshot moves only when the
/// store actually recorded the text, so a tick that records nothing leaves
/// the tracking unchanged and a later differing read is examined afresh.
pub fn observe_clipboard(
    history: &mut History,
    last_snapshot: Option<String>,
    current: Option<String>,
) -> (r: (Option<String>, bool))
    ensures
        final(history).max_spec() == old(history).max_spec(),
        tick_ignored(last_snapshot, current) ==> r.0 == last_snapshot && r.1 == false
            && final(history)@ == old(history)@,
        !tick_ignored(last_snapshot, current) ==> r.1 == true && (current matches Some(text)
            && (r.0 matches Some(s) && s@ == text@) && (exists|ts: i64|
            final(history)@ == spec_add(
                old(history)@,
                trim_spaces(text@),
                ts,
                spec_is_likely_password(text@),
                old(history).max_spec() as int,
            ))),
{
    match current {
        None => (last_snapshot, false),
        Some(text) => {
            let same: bool = match &last_snapshot {
                Some(prev) => str_equal(prev.as_str(), text.as_str()),
                None => false,
            };
            if same {
                (last_snapshot, false)
            } else {
                let flagged = is_likely_password(text.as_str());
                let added = history.add_text(text.as_str(), flagged);
                if added {
                    (Some(text), true)
                } else {
                    (last_snapshot, false)
                }
            }
        },
    }
}

} // verus!

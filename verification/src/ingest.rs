//! The ingest hook's decisions between its file operations: what to do with one streamed
//! event, where a message's text is buffered, and whether a finished message was already
//! spoken.

use vstd::prelude::*;
use crate::json::{same_text, HookEvent};

verus! {

/// What to do with one hook event.
pub struct IngestPlan {
    /// Text to append to the message's buffer.
    pub append: Option<String>,
    /// The message is finished: its buffer is to be spoken now.
    pub finish: bool,
}

/// An event without a message id is ignored. Otherwise its delta, where there is one, is
/// appended to the message's buffer, and a final event finishes the message.
pub fn plan_event(ev: &HookEvent) -> (r: IngestPlan)
    ensures
        match r.append {
            Some(d) => ev.message_id@.len() > 0 && ev.delta@.len() > 0 && d@ == ev.delta@,
            None => ev.message_id@.len() == 0 || ev.delta@.len() == 0,
        },
        r.finish == (ev.message_id@.len() > 0 && ev.final_flag),
{
    if ev.message_id.as_str().is_empty() {
        return IngestPlan { append: None, finish: false };
    }
    let append = if ev.delta.as_str().is_empty() {
        None
    } else {
        Some(ev.delta.clone())
    };
    IngestPlan { append, finish: ev.final_flag }
}

/// The name of the file that buffers a message's deltas.
pub fn buffer_file_name(message_id: &str) -> (r: String)
    ensures
        r@ == "buffer-"@ + message_id@ + ".txt"@,
{
    let mut r = String::from_str("buffer-");
    r.append(message_id);
    r.append(".txt");
    r
}

/// Whether a finished message is the one last spoken, which a repeated final event must not
/// speak again.
pub fn already_spoken(last_spoken: Option<&str>, message_id: &str) -> (r: bool)
    ensures
        r == (last_spoken matches Some(p) && p@ == message_id@),
{
    match last_spoken {
        Some(p) => same_text(p, message_id),
        None => false,
    }
}

} // verus!

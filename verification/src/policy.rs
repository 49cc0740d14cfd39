//! Supervisor policy for asynchronous events: when the display layer reports
//! readiness, the machine's run state is queried, and a machine still waiting
//! in prelaunch is started. The awaiting of replies happens outside this
//! crate; these functions take the event or reply as a value and return the
//! decision.

use vstd::prelude::*;
use vstd::string::StringSliceAdditionalSpecFns;

use crate::msg::{Message, Val, bytes_match, execute_command, execute_val, get_field, key_event,
    obj_lookup};

verus! {

/// The event name on which the supervisor queries the machine's status.
pub open spec fn vnc_initialized_name() -> Seq<u8> {
    "VNC_INITIALIZED".spec_bytes()
}

/// The status key of a query-status reply.
pub open spec fn key_status() -> Seq<u8> {
    "status".spec_bytes()
}

/// The machine state that asks for a start.
pub open spec fn prelaunch_state() -> Seq<u8> {
    "prelaunch".spec_bytes()
}

/// True exactly when the event is the display-initialized notification.
pub fn event_requests_status_query(event: &Message) -> (r: bool)
    ensures
        r == (obj_lookup(event@, key_event()) == Some(Val::Str(vnc_initialized_name()))),
{
    match get_field(event, "event") {
        Some(m) => match m {
            Message::Str(name) => bytes_match(name, "VNC_INITIALIZED"),
            _ => false,
        },
        None => false,
    }
}

/// The status-query command.
pub fn query_status_command() -> (m: Message)
    ensures
        m@ == execute_val("query-status".spec_bytes()),
{
    execute_command("query-status")
}

/// The start command, issued when the machine is still in prelaunch.
pub fn cont_command() -> (m: Message)
    ensures
        m@ == execute_val("cont".spec_bytes()),
{
    execute_command("cont")
}

/// True exactly when a status reply reports the prelaunch state.
pub fn reply_reports_prelaunch(reply: &Message) -> (r: bool)
    ensures
        r == (obj_lookup(reply@, key_status()) == Some(Val::Str(prelaunch_state()))),
{
    match get_field(reply, "status") {
        Some(m) => match m {
            Message::Str(state) => bytes_match(state, "prelaunch"),
            _ => false,
        },
        None => false,
    }
}

} // verus!

//! One turn of the bot's main loop: what to do with the thing that the
//! gateway has just handed over.
//!
//! The loop itself, which waits for the gateway and talks to Discord, is the
//! caller's. It hands each event over as an `Incoming`, together with
//! whether a shutdown has been asked for, and does what the `Action` says.

use crate::table::{MessageMap, UserData};
use crate::tracker::{role_earned, should_assign_role, table_after, AssignConfig, NewMessage};
use vstd::prelude::*;

verus! {

/// What the gateway handed over.
#[derive(Debug)]
pub enum Incoming {
    /// Nothing: receiving failed.
    Failed,
    /// The connection to the gateway was closed.
    Closed,
    /// A message was created.
    Message(NewMessage),
    /// An event of no interest.
    Other,
}

/// What the loop is to do next.
#[derive(Copy, Clone, Debug, PartialEq, Eq, Structural)]
pub enum Action {
    /// Leave the loop.
    Stop,
    /// Wait for the next event.
    Continue,
    /// Give the role to this user, and wait for the next event.
    AssignRole(u64),
}

/// What is to be done on `incoming`, the table being `table`.
///
/// A failure or a closed connection ends the loop once a shutdown has been
/// asked for; before that the gateway reconnects by itself. Messages are
/// taken as long as they come, shutdown or not.
pub open spec fn action_on(
    incoming: Incoming,
    shutting_down: bool,
    config: AssignConfig,
    table: Map<u64, UserData>,
) -> Action {
    match incoming {
        Incoming::Failed | Incoming::Closed => if shutting_down {
            Action::Stop
        } else {
            Action::Continue
        },
        Incoming::Message(message) => if role_earned(message, config, table) {
            Action::AssignRole(message.author)
        } else {
            Action::Continue
        },
        Incoming::Other => Action::Continue,
    }
}

/// What becomes of `table` on `incoming`: only a message changes it.
pub open spec fn table_on(incoming: Incoming, config: AssignConfig, table: Map<u64, UserData>) -> Map<
    u64,
    UserData,
> {
    match incoming {
        Incoming::Message(message) => table_after(message, config, table),
        _ => table,
    }
}

/// Takes one event: tells the loop what to do next and keeps the table up
/// to date.
pub fn handle_event(
    incoming: &Incoming,
    shutting_down: bool,
    config: AssignConfig,
    message_map: &mut MessageMap,
) -> (action: Action)
    requires
        old(message_map).wf(),
        incoming matches Incoming::Message(message) ==> message.author != 0,
    ensures
        final(message_map).wf(),
        action == action_on(*incoming, shutting_down, config, old(message_map)@),
        final(message_map)@ == table_on(*incoming, config, old(message_map)@),
{
    match incoming {
        Incoming::Failed | Incoming::Closed => {
            if shutting_down {
                Action::Stop
            } else {
                Action::Continue
            }
        },
        Incoming::Message(message) => {
            if should_assign_role(message, config, message_map) {
                Action::AssignRole(message.author)
            } else {
                Action::Continue
            }
        },
        Incoming::Other => Action::Continue,
    }
}

} // verus!

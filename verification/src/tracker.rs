//! The decision taken on each new message: whether its author has now
//! earned the role.
//!
//! A user is untracked, or tracked with a count of messages. The first
//! message starts the count at one. A later message counts only if it was
//! sent at least the cooldown after the last counted one. Once the count has
//! reached the requirement, the next message that clears the cooldown grants
//! the role and the user is untracked again.
//!
//! Time is read from the message's own identifier, which holds the
//! millisecond at which the message was created. Replaying the same messages
//! therefore gives the same decisions, whenever they are replayed.

use crate::table::{MessageMap, UserData};
use vstd::prelude::*;

verus! {

/// The cooldown in seconds where none is configured.
pub const DEFAULT_MESSAGE_COOLDOWN: u64 = 60;

/// The message requirement where none is configured.
pub const DEFAULT_MESSAGE_REQUIREMENT: u64 = 60;

/// What is asked of a user before the role is given, and which role it is.
#[derive(Clone, Copy, Debug)]
pub struct AssignConfig {
    /// The role to give.
    pub role: u64,
    /// The seconds that have to pass between two counted messages.
    pub message_cooldown: u64,
    /// The count of messages at which the role is earned.
    pub message_requirement: u64,
}

/// What the tracker reads of a newly created message.
#[derive(Debug)]
pub struct NewMessage {
    /// The message's identifier.
    pub id: u64,
    /// The identity of the user who sent it. It is never zero.
    pub author: u64,
    /// The roles that the author holds, where the message says so.
    pub member_roles: Option<Vec<u64>>,
}

/// The second at which the message with identifier `id` was created.
pub open spec fn sent_at(id: u64) -> u64 {
    ((id >> 22) / 1000) as u64
}

/// Whether the message shows its author to hold `role` already.
pub open spec fn holds_role(message: NewMessage, role: u64) -> bool {
    message.member_roles matches Some(roles) && roles@.contains(role)
}

/// The seconds from `last` to `now`; zero where `last` is the later one.
pub open spec fn elapsed(now: u64, last: u64) -> int {
    if now >= last {
        now - last
    } else {
        0
    }
}

/// Whether a message sent at `now` earns the role for a user whose record
/// is `stored`.
pub open spec fn grants(stored: Option<UserData>, now: u64, config: AssignConfig) -> bool {
    stored matches Some(data) && elapsed(now, data.last_message_at) >= config.message_cooldown
        && data.messages >= config.message_requirement
}

/// The user's record after a message sent at `now`.
pub open spec fn next_record(stored: Option<UserData>, now: u64, config: AssignConfig) -> Option<
    UserData,
> {
    match stored {
        None => Some(UserData { messages: 1, last_message_at: now }),
        Some(data) => if elapsed(now, data.last_message_at) < config.message_cooldown {
            Some(data)
        } else if data.messages < config.message_requirement {
            Some(UserData { messages: (data.messages + 1) as u64, last_message_at: now })
        } else {
            None
        },
    }
}

/// The table with the record of `id` replaced by `record`.
pub open spec fn with_record(table: Map<u64, UserData>, id: u64, record: Option<UserData>) -> Map<
    u64,
    UserData,
> {
    match record {
        Some(data) => table.insert(id, data),
        None => table.remove(id),
    }
}

/// The table after a message of `author` sent at `now`, where the message
/// does not show the author to hold the role.
pub open spec fn after_message(
    table: Map<u64, UserData>,
    author: u64,
    now: u64,
    config: AssignConfig,
) -> Map<u64, UserData> {
    with_record(table, author, next_record(table.get(author), now, config))
}

/// Whether `message` earns its author the role, the table being `table`.
pub open spec fn role_earned(
    message: NewMessage,
    config: AssignConfig,
    table: Map<u64, UserData>,
) -> bool {
    !holds_role(message, config.role) && grants(
        table.get(message.author),
        sent_at(message.id),
        config,
    )
}

/// What becomes of `table` on `message`.
pub open spec fn table_after(
    message: NewMessage,
    config: AssignConfig,
    table: Map<u64, UserData>,
) -> Map<u64, UserData> {
    if holds_role(message, config.role) {
        table
    } else {
        after_message(table, message.author, sent_at(message.id), config)
    }
}

/// The user's record after messages sent at `times`, one after the other.
pub open spec fn replay(stored: Option<UserData>, times: Seq<u64>, config: AssignConfig) -> Option<
    UserData,
>
    decreases times.len(),
{
    if times.len() == 0 {
        stored
    } else {
        next_record(replay(stored, times.drop_last(), config), times.last(), config)
    }
}

/// Whether each of `times` is at least `cooldown` after the one before it.
pub open spec fn spaced(times: Seq<u64>, cooldown: u64) -> bool {
    forall|i: int, j: int|
        0 <= i && j == i + 1 && j < times.len() ==> #[trigger] times[j] - #[trigger] times[i]
            >= cooldown
}

/// The number of counted messages after which the next one grants the role:
/// the requirement, though the first message always counts.
pub open spec fn messages_needed(config: AssignConfig) -> int {
    if config.message_requirement == 0 {
        1
    } else {
        config.message_requirement as int
    }
}

/// The first message of an untracked user starts the count at one and
/// grants nothing.
pub proof fn lemma_first_message(now: u64, config: AssignConfig)
    ensures
        !grants(None, now, config),
        next_record(None, now, config) == Some(UserData { messages: 1, last_message_at: now }),
{
}

/// A message sent before the cooldown is over leaves the record as it is
/// and grants nothing.
pub proof fn lemma_within_cooldown(data: UserData, now: u64, config: AssignConfig)
    requires
        elapsed(now, data.last_message_at) < config.message_cooldown,
    ensures
        !grants(Some(data), now, config),
        next_record(Some(data), now, config) == Some(data),
{
}

/// The role is granted exactly when a record is dropped, and a record that
/// stays never counts down, nor up by more than one.
pub proof fn lemma_record_steps(stored: Option<UserData>, now: u64, config: AssignConfig)
    ensures
        grants(stored, now, config) <==> stored is Some && next_record(stored, now, config) is None,
        stored is Some && next_record(stored, now, config) is Some ==> stored->Some_0.messages
            <= next_record(stored, now, config)->Some_0.messages <= stored->Some_0.messages + 1,
{
}

/// After a grant the user is untracked: the next message, whenever it was
/// sent, grants nothing and starts the count at one again.
pub proof fn lemma_after_grant(
    stored: Option<UserData>,
    now: u64,
    later: u64,
    config: AssignConfig,
)
    requires
        grants(stored, now, config),
    ensures
        next_record(stored, now, config) is None,
        !grants(next_record(stored, now, config), later, config),
        next_record(next_record(stored, now, config), later, config) == Some(
            UserData { messages: 1, last_message_at: later },
        ),
{
}

/// Messages of different users do not touch each other: what one user's
/// message is granted and leaves behind is the same whether the other
/// user's message is taken before it or after it.
pub proof fn lemma_users_are_independent(
    table: Map<u64, UserData>,
    one: u64,
    one_sent: u64,
    other: u64,
    other_sent: u64,
    config: AssignConfig,
)
    requires
        one != other,
    ensures
        after_message(table, other, other_sent, config).get(one) == table.get(one),
        after_message(after_message(table, one, one_sent, config), other, other_sent, config)
            == after_message(
            after_message(table, other, other_sent, config),
            one,
            one_sent,
            config,
        ),
{
    let one_first = after_message(
        after_message(table, one, one_sent, config),
        other,
        other_sent,
        config,
    );
    let other_first = after_message(
        after_message(table, other, other_sent, config),
        one,
        one_sent,
        config,
    );
    assert(after_message(table, one, one_sent, config).get(other) == table.get(other));
    assert(one_first =~= other_first);
}

/// Messages of an untracked user that keep the cooldown are all counted
/// until the count is what is needed, and none of them grants the role.
pub proof fn lemma_counting(times: Seq<u64>, config: AssignConfig)
    requires
        1 <= times.len() <= messages_needed(config),
        spaced(times, config.message_cooldown),
    ensures
        replay(None, times, config) == Some(
            UserData { messages: times.len() as u64, last_message_at: times.last() },
        ),
        forall|sent: int|
            0 <= sent < times.len() ==> !grants(
                replay(None, #[trigger] times.take(sent), config),
                times[sent],
                config,
            ),
    decreases times.len(),
{
    let earlier = times.drop_last();
    if times.len() > 1 {
        lemma_counting(earlier, config);
    }
    assert forall|sent: int| 0 <= sent < times.len() implies !grants(
        replay(None, #[trigger] times.take(sent), config),
        times[sent],
        config,
    ) by {
        if sent < times.len() - 1 {
            assert(times.take(sent) =~= earlier.take(sent));
        } else {
            assert(times.take(sent) =~= earlier);
        }
    }
}

/// Once as many messages as needed have been counted, the next message of
/// the user that keeps the cooldown grants the role and ends the tracking:
/// the role is granted at the last of `times`, and at none before it.
pub proof fn lemma_grant_when_earned(times: Seq<u64>, config: AssignConfig)
    requires
        times.len() == messages_needed(config) + 1,
        spaced(times, config.message_cooldown),
    ensures
        forall|sent: int|
            0 <= sent < times.len() ==> (grants(
                replay(None, #[trigger] times.take(sent), config),
                times[sent],
                config,
            ) <==> sent == times.len() - 1),
        replay(None, times, config) is None,
{
    let earlier = times.drop_last();
    lemma_counting(earlier, config);
    assert forall|sent: int| 0 <= sent < times.len() implies (grants(
        replay(None, #[trigger] times.take(sent), config),
        times[sent],
        config,
    ) <==> sent == times.len() - 1) by {
        if sent < times.len() - 1 {
            assert(times.take(sent) =~= earlier.take(sent));
        } else {
            assert(times.take(sent) =~= earlier);
        }
    }
}

/// The second at which the message with identifier `id` was created:
/// the identifier without its low 22 bits is a count of milliseconds.
pub fn snowflake_to_timestamp(id: u64) -> (seconds: u64)
    ensures
        seconds == sent_at(id),
{
    (id >> 22) / 1000
}

/// Whether `role` is among `roles`.
fn has_role(roles: &Vec<u64>, role: u64) -> (found: bool)
    ensures
        found == roles@.contains(role),
{
    let mut i: usize = 0;
    while i < roles.len()
        invariant
            i <= roles@.len(),
            forall|j: int| 0 <= j < i ==> roles@[j] != role,
        decreases roles@.len() - i,
    {
        if roles[i] == role {
            return true;
        }
        i += 1;
    }
    false
}

/// Decides whether the author of `message` is to get the role now, and
/// keeps the author's record up to date.
///
/// A message whose author is known to hold the role changes nothing. For
/// any other message the author's record is started, left alone, counted up
/// or dropped as the module's description says, and the role is granted
/// exactly when the record is dropped.
pub fn should_assign_role(
    message: &NewMessage,
    config: AssignConfig,
    message_map: &mut MessageMap,
) -> (grant: bool)
    requires
        old(message_map).wf(),
        message.author != 0,
    ensures
        final(message_map).wf(),
        grant == role_earned(*message, config, old(message_map)@),
        final(message_map)@ == table_after(*message, config, old(message_map)@),
{
    let already_holds = match &message.member_roles {
        Some(roles) => has_role(roles, config.role),
        None => false,
    };
    if already_holds {
        return false;
    }
    let message_sent_at = snowflake_to_timestamp(message.id);

    match message_map.get(message.author) {
        Some(data) => {
            if message_sent_at.saturating_sub(data.last_message_at) >= config.message_cooldown {
                if data.messages >= config.message_requirement {
                    message_map.remove(message.author);
                    true
                } else {
                    message_map.insert(
                        message.author,
                        UserData { messages: data.messages + 1, last_message_at: message_sent_at },
                    );
                    false
                }
            } else {
                false
            }
        },
        None => {
            message_map.insert(
                message.author,
                UserData { messages: 1, last_message_at: message_sent_at },
            );
            false
        },
    }
}

} // verus!

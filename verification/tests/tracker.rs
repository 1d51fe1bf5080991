use ephemerole::tracker::{
    snowflake_to_timestamp, DEFAULT_MESSAGE_COOLDOWN, DEFAULT_MESSAGE_REQUIREMENT,
};
use ephemerole::{should_assign_role, AssignConfig, MessageMap, NewMessage, UserData};

const ROLE: u64 = 900;

const CONFIG: AssignConfig =
    AssignConfig { role: ROLE, message_cooldown: 60, message_requirement: 60 };

/// The identifier of a message created `seconds` after the epoch.
fn id_at(seconds: u64) -> u64 {
    (seconds * 1000) << 22
}

fn message(author: u64, seconds: u64) -> NewMessage {
    NewMessage { id: id_at(seconds), author, member_roles: None }
}

fn record(messages: u64, last_message_at: u64) -> UserData {
    UserData { messages, last_message_at }
}

#[test]
fn defaults_are_sixty() {
    assert_eq!(DEFAULT_MESSAGE_COOLDOWN, 60);
    assert_eq!(DEFAULT_MESSAGE_REQUIREMENT, 60);
}

#[test]
fn timestamp_drops_22_bits_and_turns_milliseconds_into_seconds() {
    assert_eq!(snowflake_to_timestamp(0), 0);
    assert_eq!(snowflake_to_timestamp((1 << 22) * 1000), 1);
    assert_eq!(snowflake_to_timestamp((1 << 22) * 1000 - 1), 0);
    assert_eq!(snowflake_to_timestamp(251_658_240_000), 60);
    assert_eq!(snowflake_to_timestamp(175_928_847_299_117_063), 41_944_705);
    assert_eq!(snowflake_to_timestamp(u64::MAX), 4_398_046_511);
}

#[test]
fn first_message_starts_the_count() {
    let mut table = MessageMap::new();
    assert!(!should_assign_role(&message(5, 0), CONFIG, &mut table));
    assert_eq!(table.entries(), vec![(5, record(1, 0))]);
}

#[test]
fn message_within_cooldown_changes_nothing() {
    let mut table = MessageMap::new();
    should_assign_role(&message(5, 0), CONFIG, &mut table);
    assert!(!should_assign_role(&message(5, 30), CONFIG, &mut table));
    assert_eq!(table.get(5), Some(record(1, 0)));
    assert!(!should_assign_role(&message(5, 59), CONFIG, &mut table));
    assert_eq!(table.get(5), Some(record(1, 0)));
}

#[test]
fn message_at_cooldown_is_counted() {
    let mut table = MessageMap::new();
    should_assign_role(&message(5, 0), CONFIG, &mut table);
    assert!(!should_assign_role(&message(5, 60), CONFIG, &mut table));
    assert_eq!(table.get(5), Some(record(2, 60)));
}

#[test]
fn cooldown_runs_from_the_last_counted_message() {
    let mut table = MessageMap::new();
    should_assign_role(&message(5, 0), CONFIG, &mut table);
    should_assign_role(&message(5, 59), CONFIG, &mut table);
    assert!(!should_assign_role(&message(5, 61), CONFIG, &mut table));
    assert_eq!(table.get(5), Some(record(2, 61)));
    assert!(!should_assign_role(&message(5, 120), CONFIG, &mut table));
    assert_eq!(table.get(5), Some(record(2, 61)));
}

#[test]
fn role_is_granted_once_sixty_messages_are_counted() {
    let mut table = MessageMap::new();
    for n in 0..60 {
        assert!(!should_assign_role(&message(5, 60 * n), CONFIG, &mut table), "message {}", n);
        assert_eq!(table.get(5), Some(record(n + 1, 60 * n)));
        assert!(!should_assign_role(&message(5, 60 * n + 30), CONFIG, &mut table));
        assert_eq!(table.get(5), Some(record(n + 1, 60 * n)));
    }
    assert!(should_assign_role(&message(5, 3600), CONFIG, &mut table));
    assert_eq!(table.get(5), None);
    assert_eq!(table, MessageMap::new());
}

#[test]
fn message_after_a_grant_starts_a_new_count() {
    let mut table = MessageMap::new();
    table.insert(5, record(60, 0));
    assert!(should_assign_role(&message(5, 60), CONFIG, &mut table));
    assert_eq!(table.get(5), None);
    assert!(!should_assign_role(&message(5, 60), CONFIG, &mut table));
    assert_eq!(table.get(5), Some(record(1, 60)));
}

#[test]
fn no_grant_within_cooldown_even_with_enough_messages() {
    let mut table = MessageMap::new();
    table.insert(5, record(1000, 100));
    assert!(!should_assign_role(&message(5, 159), CONFIG, &mut table));
    assert_eq!(table.get(5), Some(record(1000, 100)));
    assert!(should_assign_role(&message(5, 160), CONFIG, &mut table));
    assert_eq!(table.get(5), None);
}

#[test]
fn message_older_than_the_record_counts_as_no_time_passed() {
    let mut table = MessageMap::new();
    table.insert(5, record(60, 1000));
    assert!(!should_assign_role(&message(5, 10), CONFIG, &mut table));
    assert_eq!(table.get(5), Some(record(60, 1000)));
}

#[test]
fn without_cooldown_an_older_message_still_counts() {
    let config = AssignConfig { role: ROLE, message_cooldown: 0, message_requirement: 3 };
    let mut table = MessageMap::new();
    table.insert(5, record(1, 1000));
    assert!(!should_assign_role(&message(5, 10), config, &mut table));
    assert_eq!(table.get(5), Some(record(2, 10)));
}

#[test]
fn without_requirement_the_second_counted_message_grants() {
    let config = AssignConfig { role: ROLE, message_cooldown: 60, message_requirement: 0 };
    let mut table = MessageMap::new();
    assert!(!should_assign_role(&message(5, 0), config, &mut table));
    assert_eq!(table.get(5), Some(record(1, 0)));
    assert!(!should_assign_role(&message(5, 59), config, &mut table));
    assert!(should_assign_role(&message(5, 60), config, &mut table));
    assert_eq!(table.get(5), None);
}

#[test]
fn count_does_not_overflow_below_the_largest_requirement() {
    let config = AssignConfig { role: ROLE, message_cooldown: 0, message_requirement: u64::MAX };
    let mut table = MessageMap::new();
    table.insert(5, record(u64::MAX - 1, 0));
    assert!(!should_assign_role(&message(5, 1), config, &mut table));
    assert_eq!(table.get(5), Some(record(u64::MAX, 1)));
    assert!(should_assign_role(&message(5, 2), config, &mut table));
    assert_eq!(table.get(5), None);
}

#[test]
fn users_are_tracked_apart() {
    let mut table = MessageMap::new();
    should_assign_role(&message(5, 0), CONFIG, &mut table);
    should_assign_role(&message(6, 30), CONFIG, &mut table);
    should_assign_role(&message(5, 60), CONFIG, &mut table);
    assert_eq!(table.get(5), Some(record(2, 60)));
    assert_eq!(table.get(6), Some(record(1, 30)));
}

#[test]
fn holder_of_the_role_is_ignored() {
    let mut table = MessageMap::new();
    table.insert(5, record(60, 0));
    table.insert(6, record(1, 0));
    let holder =
        |author, seconds| NewMessage { id: id_at(seconds), author, member_roles: Some(vec![
            1, ROLE, 2,
        ]) };
    assert!(!should_assign_role(&holder(5, 1000), CONFIG, &mut table));
    assert!(!should_assign_role(&holder(6, 1000), CONFIG, &mut table));
    assert!(!should_assign_role(&holder(7, 1000), CONFIG, &mut table));
    assert_eq!(table.get(5), Some(record(60, 0)));
    assert_eq!(table.get(6), Some(record(1, 0)));
    assert_eq!(table.get(7), None);
}

#[test]
fn member_with_other_roles_is_tracked() {
    let mut table = MessageMap::new();
    let other = NewMessage { id: id_at(0), author: 5, member_roles: Some(vec![1, 2, 3]) };
    assert!(!should_assign_role(&other, CONFIG, &mut table));
    assert_eq!(table.get(5), Some(record(1, 0)));
    let none = NewMessage { id: id_at(0), author: 6, member_roles: Some(vec![]) };
    assert!(!should_assign_role(&none, CONFIG, &mut table));
    assert_eq!(table.get(6), Some(record(1, 0)));
}

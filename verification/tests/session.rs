use ephemerole::session::{Action, Incoming};
use ephemerole::{handle_event, AssignConfig, MessageMap, NewMessage, UserData};

const CONFIG: AssignConfig = AssignConfig { role: 900, message_cooldown: 60, message_requirement: 60 };

fn counts() -> MessageMap {
    let mut table = MessageMap::new();
    table.insert(5, UserData { messages: 60, last_message_at: 0 });
    table.insert(6, UserData { messages: 59, last_message_at: 0 });
    table
}

fn message(author: u64, seconds: u64, member_roles: Option<Vec<u64>>) -> Incoming {
    Incoming::Message(NewMessage { id: (seconds * 1000) << 22, author, member_roles })
}

#[test]
fn failure_ends_the_loop_only_on_shutdown() {
    let mut table = counts();
    assert_eq!(handle_event(&Incoming::Failed, false, CONFIG, &mut table), Action::Continue);
    assert_eq!(handle_event(&Incoming::Failed, true, CONFIG, &mut table), Action::Stop);
    assert_eq!(table, counts());
}

#[test]
fn close_ends_the_loop_only_on_shutdown() {
    let mut table = counts();
    assert_eq!(handle_event(&Incoming::Closed, false, CONFIG, &mut table), Action::Continue);
    assert_eq!(handle_event(&Incoming::Closed, true, CONFIG, &mut table), Action::Stop);
    assert_eq!(table, counts());
}

#[test]
fn other_events_are_passed_over() {
    let mut table = counts();
    assert_eq!(handle_event(&Incoming::Other, false, CONFIG, &mut table), Action::Continue);
    assert_eq!(handle_event(&Incoming::Other, true, CONFIG, &mut table), Action::Continue);
    assert_eq!(table, counts());
}

#[test]
fn message_that_earns_the_role_names_its_author() {
    let mut table = counts();
    assert_eq!(handle_event(&message(5, 60, None), false, CONFIG, &mut table), Action::AssignRole(5));
    assert_eq!(table.get(5), None);
    assert_eq!(table.get(6), Some(UserData { messages: 59, last_message_at: 0 }));
}

#[test]
fn message_that_is_counted_goes_on() {
    let mut table = counts();
    assert_eq!(handle_event(&message(6, 60, None), false, CONFIG, &mut table), Action::Continue);
    assert_eq!(table.get(6), Some(UserData { messages: 60, last_message_at: 60 }));
    assert_eq!(handle_event(&message(7, 60, None), false, CONFIG, &mut table), Action::Continue);
    assert_eq!(table.get(7), Some(UserData { messages: 1, last_message_at: 60 }));
}

#[test]
fn messages_are_taken_during_shutdown() {
    let mut table = counts();
    assert_eq!(handle_event(&message(5, 60, None), true, CONFIG, &mut table), Action::AssignRole(5));
    assert_eq!(handle_event(&message(6, 60, None), true, CONFIG, &mut table), Action::Continue);
    assert_eq!(table.get(5), None);
    assert_eq!(table.get(6), Some(UserData { messages: 60, last_message_at: 60 }));
}

#[test]
fn message_of_a_holder_changes_nothing() {
    let mut table = counts();
    assert_eq!(
        handle_event(&message(5, 60, Some(vec![900])), false, CONFIG, &mut table),
        Action::Continue
    );
    assert_eq!(table, counts());
}

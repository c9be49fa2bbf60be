use chatlib::reactor::{react, react_at, Action, Event};
use chatlib::{Message, Server};

fn readable(token: usize, text: &str) -> Event {
    Event::Readable(token, Ok(text.as_bytes().to_vec()))
}

fn write(to: usize, text: &str) -> Action {
    Action::Write(to, String::from(text))
}

#[test]
fn message_for_an_offline_token_is_delivered_on_connect() {
    let mut server = Server::new();
    assert_eq!(react_at(&mut server, Event::Incoming(Ok(())), 10), vec![Action::Register(1)]);
    assert_eq!(react_at(&mut server, readable(1, "2~hello"), 20), Vec::new());
    assert_eq!(
        server.unread_messages(&2),
        Some(&vec![Message { timestamp: 20, from: 1, to: 2, content: String::from("hello") }])
    );
    assert_eq!(
        react_at(&mut server, Event::Incoming(Ok(())), 30),
        vec![write(2, "hello"), Action::Register(2)]
    );
    assert_eq!(server.unread_messages(&2), None);
    assert!(server.unread_messages.empty());
    assert!(server.connections.contains_key(&2));
}

#[test]
fn queued_messages_are_flushed_in_order() {
    let mut server = Server::new();
    react_at(&mut server, Event::Incoming(Ok(())), 1);
    assert_eq!(react_at(&mut server, readable(1, "2~hi"), 5), Vec::new());
    assert_eq!(react_at(&mut server, readable(1, "2~again"), 4), Vec::new());
    assert_eq!(
        react_at(&mut server, Event::Incoming(Ok(())), 6),
        vec![write(2, "hi"), write(2, "again"), Action::Register(2)]
    );
    assert!(server.unread_messages.empty());
}

#[test]
fn malformed_input_is_dropped() {
    let mut server = Server::new();
    react_at(&mut server, Event::Incoming(Ok(())), 1);
    react_at(&mut server, Event::Incoming(Ok(())), 1);
    assert_eq!(react_at(&mut server, readable(1, "garbage"), 2), Vec::new());
    assert_eq!(react_at(&mut server, readable(1, "x~y"), 2), Vec::new());
    assert!(server.connections.contains_key(&1));
    assert!(server.connections.contains_key(&2));
    assert!(server.unread_messages.empty());
    assert_eq!(react_at(&mut server, readable(1, "2~still here"), 3), vec![write(2, "still here")]);
}

#[test]
fn message_for_a_connected_token_is_written() {
    let mut server = Server::new();
    react_at(&mut server, Event::Incoming(Ok(())), 1);
    react_at(&mut server, Event::Incoming(Ok(())), 1);
    assert_eq!(react_at(&mut server, readable(2, "1~ping\r\n"), 2), vec![write(1, "ping")]);
    assert!(server.unread_messages.empty());
    assert_eq!(react_at(&mut server, Event::Written(1, Ok(4)), 3), Vec::new());
    assert!(server.connections.contains_key(&1));
}

#[test]
fn message_to_oneself_is_written_back() {
    let mut server = Server::new();
    react_at(&mut server, Event::Incoming(Ok(())), 1);
    assert_eq!(react_at(&mut server, readable(1, "1~echo"), 2), vec![write(1, "echo")]);
}

#[test]
fn read_of_no_byte_closes_the_connection() {
    let mut server = Server::new();
    react_at(&mut server, Event::Incoming(Ok(())), 1);
    react_at(&mut server, Event::Incoming(Ok(())), 1);
    assert_eq!(react_at(&mut server, Event::Readable(1, Ok(Vec::new())), 2), vec![Action::Close(1)]);
    assert!(!server.connections.contains_key(&1));
    assert!(server.connections.contains_key(&2));
    assert_eq!(react_at(&mut server, readable(2, "1~late"), 3), Vec::new());
    assert_eq!(server.unread_messages(&1).map(|queue| queue.len()), Some(1));
}

#[test]
fn failed_read_closes_that_connection_only() {
    let mut server = Server::new();
    react_at(&mut server, Event::Incoming(Ok(())), 1);
    react_at(&mut server, Event::Incoming(Ok(())), 1);
    assert_eq!(
        react_at(&mut server, Event::Readable(2, Err(String::from("reset"))), 2),
        vec![Action::Close(2)]
    );
    assert!(server.connections.contains_key(&1));
    assert!(!server.connections.contains_key(&2));
}

#[test]
fn failed_write_closes_that_connection_only() {
    let mut server = Server::new();
    react_at(&mut server, Event::Incoming(Ok(())), 1);
    react_at(&mut server, Event::Incoming(Ok(())), 1);
    assert_eq!(
        react_at(&mut server, Event::Written(1, Err(String::from("broken pipe"))), 2),
        vec![Action::Close(1)]
    );
    assert!(!server.connections.contains_key(&1));
    assert!(server.connections.contains_key(&2));
}

#[test]
fn failed_accept_is_survived() {
    let mut server = Server::new();
    assert_eq!(react_at(&mut server, Event::Incoming(Err(String::from("emfile"))), 1), Vec::new());
    assert_eq!(server.token_counter, 1);
    assert_eq!(react_at(&mut server, Event::Incoming(Ok(())), 2), vec![Action::Register(1)]);
}

#[test]
fn connection_without_token_is_refused() {
    let mut server = Server::new();
    server.token_counter = usize::MAX;
    assert_eq!(react_at(&mut server, Event::Incoming(Ok(())), 1), vec![Action::Refuse]);
    assert!(server.connections.is_empty());
}

#[test]
fn tokens_rise_over_the_turns() {
    let mut server = Server::new();
    let mut given = Vec::new();
    for turn in 0..5 {
        for action in react_at(&mut server, Event::Incoming(Ok(())), turn) {
            if let Action::Register(token) = action {
                given.push(token);
            }
        }
        react_at(&mut server, Event::Readable(turn as usize + 1, Ok(Vec::new())), turn);
    }
    assert_eq!(given, vec![1, 2, 3, 4, 5]);
    assert!(server.connections.is_empty());
}

#[test]
fn react_stamps_with_the_clock() {
    let mut server = Server::new();
    assert_eq!(react(&mut server, Event::Incoming(Ok(()))), vec![Action::Register(1)]);
    let before = chrono::Utc::now().timestamp_millis();
    assert_eq!(react(&mut server, readable(1, "9~later")), Vec::new());
    let after = chrono::Utc::now().timestamp_millis();
    let queued = server.unread_messages(&9).unwrap();
    assert_eq!(queued.len(), 1);
    assert!(before <= queued[0].timestamp && queued[0].timestamp <= after);
    assert_eq!(queued[0].content, "later");
}

#[test]
fn tick_sweeps_what_has_outlived_the_lifetime() {
    let mut server = Server::new();
    react_at(&mut server, Event::Incoming(Ok(())), 0);
    react_at(&mut server, readable(1, "7~old"), 1_000);
    react_at(&mut server, readable(1, "7~new"), 200_000);
    react_at(&mut server, readable(1, "8~edge"), 1_001);
    assert_eq!(react_at(&mut server, Event::Tick, 301_001), Vec::new());
    assert_eq!(
        server.unread_messages(&7).map(|queue| queue.iter().map(|m| m.content.clone()).collect()),
        Some(vec![String::from("new")])
    );
    assert_eq!(server.unread_messages(&8).map(|queue| queue.len()), Some(1));
    assert_eq!(server.unread_messages.size(), 2);
    assert!(server.connections.contains_key(&1));
    react_at(&mut server, Event::Tick, 301_002);
    assert_eq!(server.unread_messages(&8), None);
}

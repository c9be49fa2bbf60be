use chatlib::Message;

#[test]
fn stamped_keeps_every_field() {
    let message = Message::stamped(42, 1, 2, String::from("hello"));
    assert_eq!(message.timestamp, 42);
    assert_eq!(message.from, 1);
    assert_eq!(message.to, 2);
    assert_eq!(message.content, "hello");
}

#[test]
fn stamped_takes_any_time() {
    assert_eq!(Message::stamped(i64::MIN, 0, 0, String::new()).timestamp, i64::MIN);
    assert_eq!(Message::stamped(i64::MAX, 0, 0, String::new()).timestamp, i64::MAX);
}

#[test]
fn generate_stamps_with_the_clock() {
    let before = chrono::Utc::now().timestamp_millis();
    let message = Message::generate(3, 4, String::from("now"));
    let after = chrono::Utc::now().timestamp_millis();
    assert!(before <= message.timestamp);
    assert!(message.timestamp <= after);
    assert!(message.timestamp >= 0);
    assert_eq!(message.from, 3);
    assert_eq!(message.to, 4);
    assert_eq!(message.content, "now");
}

#[test]
fn clone_is_equal() {
    let message = Message::stamped(7, 1, 2, String::from("again"));
    let copy = message.clone();
    assert_eq!(copy, message);
    assert_eq!(copy.content, "again");
}

#[test]
fn messages_with_equal_fields_are_equal() {
    let one = Message::stamped(7, 1, 2, String::from("x"));
    let other = Message { timestamp: 7, from: 1, to: 2, content: String::from("x") };
    assert_eq!(one, other);
    assert_ne!(one, Message::stamped(8, 1, 2, String::from("x")));
    assert_ne!(one, Message::stamped(7, 1, 2, String::from("y")));
}

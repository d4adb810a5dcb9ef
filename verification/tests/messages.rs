use discord_exporter::api::ChannelMessage;
use discord_exporter::messages::MessageStore;

fn message(id: u64, data: &str) -> ChannelMessage<String> {
    ChannelMessage { id, channel_id: 3, data: data.to_string() }
}

#[test]
fn a_new_message_is_inserted() {
    let mut store = MessageStore::new();
    assert_eq!(store.len(), 0);
    assert!(!store.contains(5));
    assert!(store.insert_if_absent(message(5, "five")));
    assert!(store.contains(5));
    assert_eq!(store.len(), 1);
    let stored = store.get(5).expect("the message is stored");
    assert_eq!(stored.id, 5);
    assert_eq!(stored.channel_id, 3);
    assert_eq!(stored.data, "five");
}

#[test]
fn a_known_identifier_is_skipped() {
    let mut store = MessageStore::new();
    assert!(store.insert_if_absent(message(5, "first")));
    assert!(!store.insert_if_absent(message(5, "second")));
    assert_eq!(store.len(), 1);
    assert_eq!(store.get(5).map(|m| m.data.as_str()), Some("first"));
}

#[test]
fn messages_are_told_apart_by_identifier() {
    let mut store = MessageStore::new();
    assert!(store.insert_if_absent(message(5, "five")));
    assert!(store.insert_if_absent(message(6, "six")));
    assert_eq!(store.len(), 2);
    assert_eq!(store.get(6).map(|m| m.data.as_str()), Some("six"));
    assert!(store.get(7).is_none());
}

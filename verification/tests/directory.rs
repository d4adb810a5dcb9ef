use discord_exporter::api::{Channel, Guild};
use discord_exporter::directory::{Directory, MetadataRequest};

fn channel(id: u64, guild_id: Option<u64>) -> Channel<&'static str> {
    Channel { id, guild_id, data: "channel" }
}

#[test]
fn an_unknown_channel_is_fetched_first() {
    let directory: Directory<&'static str> = Directory::new();
    assert_eq!(directory.next_request(7, None), MetadataRequest::Channel(7));
}

#[test]
fn an_unknown_guild_is_fetched_after_its_channel() {
    let directory: Directory<&'static str> = Directory::new();
    let fetched = channel(7, Some(3));
    assert_eq!(directory.next_request(7, Some(&fetched)), MetadataRequest::Guild(3));
}

#[test]
fn a_channel_without_guild_needs_nothing_more() {
    let directory: Directory<&'static str> = Directory::new();
    let fetched = channel(7, None);
    assert_eq!(directory.next_request(7, Some(&fetched)), MetadataRequest::Nothing);
}

#[test]
fn a_known_guild_is_not_fetched_again() {
    let mut directory = Directory::new();
    assert!(directory.store_guild(Guild { id: 3, data: "guild" }));
    let fetched = channel(7, Some(3));
    assert_eq!(directory.next_request(7, Some(&fetched)), MetadataRequest::Nothing);
}

#[test]
fn a_known_channel_needs_nothing() {
    let mut directory = Directory::new();
    assert!(directory.store_guild(Guild { id: 3, data: "guild" }));
    assert!(directory.store_channel(channel(7, Some(3))));
    assert!(directory.has_channel(7));
    assert!(directory.has_guild(3));
    assert_eq!(directory.next_request(7, None), MetadataRequest::Nothing);
    assert_eq!(directory.channel(7).map(|c| c.guild_id), Some(Some(3)));
    assert_eq!(directory.guild(3).map(|g| g.data), Some("guild"));
    assert!(directory.channel(8).is_none());
    assert!(directory.guild(4).is_none());
}

#[test]
fn what_is_known_is_kept() {
    let mut directory = Directory::new();
    assert!(directory.store_guild(Guild { id: 3, data: "first" }));
    assert!(!directory.store_guild(Guild { id: 3, data: "second" }));
    assert_eq!(directory.guild(3).map(|g| g.data), Some("first"));
    assert!(directory.store_channel(Channel { id: 7, guild_id: None, data: "first" }));
    assert!(!directory.store_channel(Channel { id: 7, guild_id: Some(3), data: "second" }));
    assert_eq!(directory.channel(7).map(|c| (c.guild_id, c.data)), Some((None, "first")));
}

#[test]
fn a_channel_is_stored_without_a_guild() {
    let mut directory = Directory::new();
    assert!(directory.store_channel(channel(7, None)));
    assert!(directory.has_channel(7));
    assert!(!directory.has_guild(3));
}

//! The guilds and channels that are known, and what has to be fetched before
//! the messages of a channel are downloaded.
//!
//! A channel is fetched once, when it is not known. If it belongs to a guild
//! that is not known, the guild is fetched too and stored before the channel.

use crate::api::{Channel, Guild};
use std::collections::HashMap;
use vstd::prelude::*;

verus! {

broadcast use vstd::std_specs::hash::group_hash_axioms;

/// What is known of guilds and channels, as a value.
#[verifier::ext_equal]
pub struct DirectoryView<P> {
    pub guilds: Map<u64, Guild<P>>,
    pub channels: Map<u64, Channel<P>>,
}

/// The guilds and channels that are known, by identifier.
pub struct Directory<P> {
    guilds: HashMap<u64, Guild<P>>,
    channels: HashMap<u64, Channel<P>>,
}

/// What to fetch next before a download can begin.
#[derive(Clone, Copy, Debug, PartialEq, Eq, Structural)]
pub enum MetadataRequest {
    /// The channel with this identifier.
    Channel(u64),
    /// The guild with this identifier.
    Guild(u64),
    /// Nothing: the channel is known, or it has been fetched and can be stored.
    Nothing,
}

/// What has to be fetched for a download of `channel_id`, given the channel
/// that was fetched so far.
pub open spec fn spec_next_request<P>(
    directory: DirectoryView<P>,
    channel_id: u64,
    fetched: Option<Channel<P>>,
) -> MetadataRequest {
    if directory.channels.contains_key(channel_id) {
        MetadataRequest::Nothing
    } else {
        match fetched {
            None => MetadataRequest::Channel(channel_id),
            Some(channel) => match channel.guild_id {
                Some(guild_id) => if directory.guilds.contains_key(guild_id) {
                    MetadataRequest::Nothing
                } else {
                    MetadataRequest::Guild(guild_id)
                },
                None => MetadataRequest::Nothing,
            },
        }
    }
}

/// The directory after `guild` has been offered: it is taken where its
/// identifier was not known.
pub open spec fn spec_store_guild<P>(directory: DirectoryView<P>, guild: Guild<P>) -> DirectoryView<
    P,
> {
    if directory.guilds.contains_key(guild.id) {
        directory
    } else {
        DirectoryView { guilds: directory.guilds.insert(guild.id, guild), ..directory }
    }
}

/// The directory after `channel` has been offered: it is taken where its
/// identifier was not known.
pub open spec fn spec_store_channel<P>(
    directory: DirectoryView<P>,
    channel: Channel<P>,
) -> DirectoryView<P> {
    if directory.channels.contains_key(channel.id) {
        directory
    } else {
        DirectoryView { channels: directory.channels.insert(channel.id, channel), ..directory }
    }
}

impl<P> View for Directory<P> {
    type V = DirectoryView<P>;

    closed spec fn view(&self) -> DirectoryView<P> {
        DirectoryView { guilds: self.guilds@, channels: self.channels@ }
    }
}

impl<P> Directory<P> {
    /// A directory that knows nothing.
    pub fn new() -> (directory: Directory<P>)
        ensures
            directory@.guilds == Map::<u64, Guild<P>>::empty(),
            directory@.channels == Map::<u64, Channel<P>>::empty(),
    {
        Directory { guilds: HashMap::new(), channels: HashMap::new() }
    }

    /// Whether the channel with the identifier `channel_id` is known.
    pub fn has_channel(&self, channel_id: u64) -> (known: bool)
        ensures
            known == self@.channels.contains_key(channel_id),
    {
        self.channels.contains_key(&channel_id)
    }

    /// Whether the guild with the identifier `guild_id` is known.
    pub fn has_guild(&self, guild_id: u64) -> (known: bool)
        ensures
            known == self@.guilds.contains_key(guild_id),
    {
        self.guilds.contains_key(&guild_id)
    }

    /// The channel with the identifier `channel_id`, if it is known.
    pub fn channel(&self, channel_id: u64) -> (found: Option<&Channel<P>>)
        ensures
            match found {
                Some(channel) => self@.channels.contains_key(channel_id) && *channel
                    == self@.channels[channel_id],
                None => !self@.channels.contains_key(channel_id),
            },
    {
        self.channels.get(&channel_id)
    }

    /// The guild with the identifier `guild_id`, if it is known.
    pub fn guild(&self, guild_id: u64) -> (found: Option<&Guild<P>>)
        ensures
            match found {
                Some(guild) => self@.guilds.contains_key(guild_id) && *guild
                    == self@.guilds[guild_id],
                None => !self@.guilds.contains_key(guild_id),
            },
    {
        self.guilds.get(&guild_id)
    }

    /// Decides what to fetch next before the messages of `channel_id` are
    /// downloaded. `fetched` is the channel as far as it has been fetched.
    ///
    /// A known channel needs nothing. An unknown channel is fetched first;
    /// once it is there, its guild is fetched if it has one that is not known.
    pub fn next_request(&self, channel_id: u64, fetched: Option<&Channel<P>>) -> (request:
        MetadataRequest)
        ensures
            request == spec_next_request(
                self@,
                channel_id,
                match fetched {
                    Some(channel) => Some(*channel),
                    None => None,
                },
            ),
    {
        if self.channels.contains_key(&channel_id) {
            return MetadataRequest::Nothing;
        }
        match fetched {
            None => MetadataRequest::Channel(channel_id),
            Some(channel) => match channel.guild_id {
                Some(guild_id) => if self.guilds.contains_key(&guild_id) {
                    MetadataRequest::Nothing
                } else {
                    MetadataRequest::Guild(guild_id)
                },
                None => MetadataRequest::Nothing,
            },
        }
    }

    /// Stores `guild` unless a guild with its identifier is known, and tells
    /// whether it was stored.
    pub fn store_guild(&mut self, guild: Guild<P>) -> (stored: bool)
        ensures
            stored == !old(self)@.guilds.contains_key(guild.id),
            final(self)@ == spec_store_guild(old(self)@, guild),
    {
        if self.guilds.contains_key(&guild.id) {
            false
        } else {
            let id: u64 = guild.id;
            self.guilds.insert(id, guild);
            true
        }
    }

    /// Stores `channel` unless a channel with its identifier is known, and
    /// tells whether it was stored.
    pub fn store_channel(&mut self, channel: Channel<P>) -> (stored: bool)
        ensures
            stored == !old(self)@.channels.contains_key(channel.id),
            final(self)@ == spec_store_channel(old(self)@, channel),
    {
        if self.channels.contains_key(&channel.id) {
            false
        } else {
            let id: u64 = channel.id;
            self.channels.insert(id, channel);
            true
        }
    }
}

} // verus!

//! What the Discord API hands out: guilds, channels and messages.
//!
//! Each record keeps the document it was read from as `data`. The library
//! reads the identifiers and nothing else, so the type of the document is left
//! to the caller.

use crate::snowflake::{parse_id, spec_parse_id};
use vstd::prelude::*;

verus! {

/// A JSON document as `serde_json` holds it.
#[verifier::external_type_specification]
#[verifier::external_body]
pub struct ExValue(serde_json::Value);

/// The members of a JSON object whose values are strings, by name. A document
/// that is no object has none.
pub uninterp spec fn string_members(document: serde_json::Value) -> Map<Seq<char>, Seq<char>>;

/// Looks up a member of a JSON object and hands back its text.
///
/// Indexes the document with `name` and calls `Value::as_str` on what it
/// finds. `serde_json` answers an index into a document that is no object, or
/// that has no such member, with `Null`, and `as_str` answers everything but a
/// string with `None`: the result is the text of the member where the document
/// is an object with a member of that name whose value is a string.
#[verifier::external_body]
fn string_member<'a>(document: &'a serde_json::Value, name: &str) -> (text: Option<&'a str>)
    ensures
        match text {
            Some(t) => string_members(*document).contains_key(name@) && string_members(
                *document,
            )[name@] == t@,
            None => !string_members(*document).contains_key(name@),
        },
{
    document[name].as_str()
}

/// Why a document of the API is no guild, channel or message.
#[derive(Clone, Copy, Debug, PartialEq, Eq, Structural)]
pub enum ApiError {
    /// The document has no member `id` that is a string.
    MissingId,
    /// The member `id` is no decimal identifier.
    InvalidId,
    /// The member `guild_id` is a string, and no decimal identifier.
    InvalidGuildId,
    /// The document has no member `channel_id` that is a string.
    MissingChannelId,
    /// The member `channel_id` is no decimal identifier.
    InvalidChannelId,
}

/// The name of the member that holds the identifier of a record.
pub const ID_MEMBER: &'static str = "id";

/// The name of the member that holds the guild of a channel.
pub const GUILD_ID_MEMBER: &'static str = "guild_id";

/// The name of the member that holds the channel of a message.
pub const CHANNEL_ID_MEMBER: &'static str = "channel_id";

/// The name of the query parameter for the lower bound of a page.
pub const AFTER_PARAMETER: &'static str = "after";

/// The name of the query parameter for the upper bound of a page.
pub const BEFORE_PARAMETER: &'static str = "before";

/// The name of the query parameter for the size of a page.
pub const LIMIT_PARAMETER: &'static str = "limit";

/// The text of the member `name` of `document`, where it is a string.
pub open spec fn member_text(document: serde_json::Value, name: Seq<char>) -> Option<Seq<char>> {
    if string_members(document).contains_key(name) {
        Some(string_members(document)[name])
    } else {
        None
    }
}

/// The text behind an optional string.
pub open spec fn text_of(text: Option<&str>) -> Option<Seq<char>> {
    match text {
        Some(t) => Some(t@),
        None => None,
    }
}

/// The identifier in a member that has to be there: `missing` where it is
/// not, `invalid` where its text is no decimal identifier.
pub open spec fn spec_required_id(
    text: Option<Seq<char>>,
    missing: ApiError,
    invalid: ApiError,
) -> Result<u64, ApiError> {
    match text {
        None => Err(missing),
        Some(t) => match spec_parse_id(t) {
            Some(id) => Ok(id),
            None => Err(invalid),
        },
    }
}

/// The identifier in a member that may be left out: `invalid` where it is
/// there and its text is no decimal identifier.
pub open spec fn spec_optional_id(text: Option<Seq<char>>, invalid: ApiError) -> Result<
    Option<u64>,
    ApiError,
> {
    match text {
        None => Ok(None),
        Some(t) => match spec_parse_id(t) {
            Some(id) => Ok(Some(id)),
            None => Err(invalid),
        },
    }
}

/// The identifiers of a channel whose members `id` and `guild_id` have the
/// given texts.
pub open spec fn spec_channel_ids(id: Option<Seq<char>>, guild_id: Option<Seq<char>>) -> Result<
    (u64, Option<u64>),
    ApiError,
> {
    match spec_required_id(id, ApiError::MissingId, ApiError::InvalidId) {
        Err(e) => Err(e),
        Ok(id) => match spec_optional_id(guild_id, ApiError::InvalidGuildId) {
            Err(e) => Err(e),
            Ok(guild_id) => Ok((id, guild_id)),
        },
    }
}

/// The identifiers of a message whose members `id` and `channel_id` have the
/// given texts.
pub open spec fn spec_message_ids(id: Option<Seq<char>>, channel_id: Option<Seq<char>>) -> Result<
    (u64, u64),
    ApiError,
> {
    match spec_required_id(id, ApiError::MissingId, ApiError::InvalidId) {
        Err(e) => Err(e),
        Ok(id) => match spec_required_id(
            channel_id,
            ApiError::MissingChannelId,
            ApiError::InvalidChannelId,
        ) {
            Err(e) => Err(e),
            Ok(channel_id) => Ok((id, channel_id)),
        },
    }
}

/// Reads the identifier in a member that has to be there.
fn required_id(text: Option<&str>, missing: ApiError, invalid: ApiError) -> (r: Result<
    u64,
    ApiError,
>)
    ensures
        r == spec_required_id(text_of(text), missing, invalid),
{
    match text {
        None => Err(missing),
        Some(t) => match parse_id(t) {
            Some(id) => Ok(id),
            None => Err(invalid),
        },
    }
}

/// Reads the identifier in a member that may be left out.
fn optional_id(text: Option<&str>, invalid: ApiError) -> (r: Result<Option<u64>, ApiError>)
    ensures
        r == spec_optional_id(text_of(text), invalid),
{
    match text {
        None => Ok(None),
        Some(t) => match parse_id(t) {
            Some(id) => Ok(Some(id)),
            None => Err(invalid),
        },
    }
}

/// A guild: the server that a channel belongs to.
pub struct Guild<P> {
    pub id: u64,
    pub data: P,
}

/// A channel: one stream of messages.
pub struct Channel<P> {
    pub id: u64,
    /// The guild of the channel; a direct-message channel has none.
    pub guild_id: Option<u64>,
    pub data: P,
}

/// A message of a channel.
pub struct ChannelMessage<P> {
    pub id: u64,
    pub channel_id: u64,
    pub data: P,
}

/// The parameters of a request for one page of a channel's messages, oldest
/// first. A bound that is `None` is left out of the request.
#[derive(Clone, Copy, Debug, PartialEq, Eq, Structural)]
pub struct PageRequest {
    pub channel_id: u64,
    /// Only messages with a greater identifier are wanted.
    pub after: Option<u64>,
    /// Only messages with a smaller identifier are wanted.
    pub before: Option<u64>,
    /// The greatest number of messages wanted.
    pub limit: Option<u32>,
}

impl<P> Guild<P> {
    /// The guild with the document `data` whose member `id` has the text `id`.
    pub fn from_parts(id: Option<&str>, data: P) -> (r: Result<Guild<P>, ApiError>)
        ensures
            match r {
                Ok(guild) => spec_required_id(
                    text_of(id),
                    ApiError::MissingId,
                    ApiError::InvalidId,
                ) == Ok::<u64, ApiError>(guild.id) && guild.data == data,
                Err(e) => spec_required_id(text_of(id), ApiError::MissingId, ApiError::InvalidId)
                    == Err::<u64, ApiError>(e),
            },
    {
        match required_id(id, ApiError::MissingId, ApiError::InvalidId) {
            Ok(id) => Ok(Guild { id, data }),
            Err(e) => Err(e),
        }
    }
}

impl Guild<serde_json::Value> {
    /// Reads a guild from the document that the API sent.
    pub fn from_json(json: serde_json::Value) -> (r: Result<Guild<serde_json::Value>, ApiError>)
        ensures
            match r {
                Ok(guild) => spec_required_id(
                    member_text(json, ID_MEMBER@),
                    ApiError::MissingId,
                    ApiError::InvalidId,
                ) == Ok::<u64, ApiError>(guild.id) && guild.data == json,
                Err(e) => spec_required_id(
                    member_text(json, ID_MEMBER@),
                    ApiError::MissingId,
                    ApiError::InvalidId,
                ) == Err::<u64, ApiError>(e),
            },
    {
        let id = required_id(
            string_member(&json, ID_MEMBER),
            ApiError::MissingId,
            ApiError::InvalidId,
        );
        match id {
            Ok(id) => Ok(Guild { id, data: json }),
            Err(e) => Err(e),
        }
    }
}

impl<P> Channel<P> {
    /// The channel with the document `data` whose members `id` and `guild_id`
    /// have the given texts. The identifier is read first.
    pub fn from_parts(id: Option<&str>, guild_id: Option<&str>, data: P) -> (r: Result<
        Channel<P>,
        ApiError,
    >)
        ensures
            match r {
                Ok(channel) => spec_channel_ids(text_of(id), text_of(guild_id)) == Ok::<
                    (u64, Option<u64>),
                    ApiError,
                >((channel.id, channel.guild_id)) && channel.data == data,
                Err(e) => spec_channel_ids(text_of(id), text_of(guild_id)) == Err::<
                    (u64, Option<u64>),
                    ApiError,
                >(e),
            },
    {
        match required_id(id, ApiError::MissingId, ApiError::InvalidId) {
            Err(e) => Err(e),
            Ok(id) => match optional_id(guild_id, ApiError::InvalidGuildId) {
                Err(e) => Err(e),
                Ok(guild_id) => Ok(Channel { id, guild_id, data }),
            },
        }
    }
}

impl Channel<serde_json::Value> {
    /// Reads a channel from the document that the API sent.
    pub fn from_json(json: serde_json::Value) -> (r: Result<Channel<serde_json::Value>, ApiError>)
        ensures
            match r {
                Ok(channel) => spec_channel_ids(
                    member_text(json, ID_MEMBER@),
                    member_text(json, GUILD_ID_MEMBER@),
                ) == Ok::<(u64, Option<u64>), ApiError>((channel.id, channel.guild_id))
                    && channel.data == json,
                Err(e) => spec_channel_ids(
                    member_text(json, ID_MEMBER@),
                    member_text(json, GUILD_ID_MEMBER@),
                ) == Err::<(u64, Option<u64>), ApiError>(e),
            },
    {
        let id = required_id(
            string_member(&json, ID_MEMBER),
            ApiError::MissingId,
            ApiError::InvalidId,
        );
        match id {
            Err(e) => Err(e),
            Ok(id) => {
                let guild_id = optional_id(
                    string_member(&json, GUILD_ID_MEMBER),
                    ApiError::InvalidGuildId,
                );
                match guild_id {
                    Err(e) => Err(e),
                    Ok(guild_id) => Ok(Channel { id, guild_id, data: json }),
                }
            },
        }
    }
}

impl<P> ChannelMessage<P> {
    /// The message with the document `data` whose members `id` and
    /// `channel_id` have the given texts. The identifier is read first.
    pub fn from_parts(id: Option<&str>, channel_id: Option<&str>, data: P) -> (r: Result<
        ChannelMessage<P>,
        ApiError,
    >)
        ensures
            match r {
                Ok(message) => spec_message_ids(text_of(id), text_of(channel_id)) == Ok::<
                    (u64, u64),
                    ApiError,
                >((message.id, message.channel_id)) && message.data == data,
                Err(e) => spec_message_ids(text_of(id), text_of(channel_id)) == Err::<
                    (u64, u64),
                    ApiError,
                >(e),
            },
    {
        match required_id(id, ApiError::MissingId, ApiError::InvalidId) {
            Err(e) => Err(e),
            Ok(id) => match required_id(
                channel_id,
                ApiError::MissingChannelId,
                ApiError::InvalidChannelId,
            ) {
                Err(e) => Err(e),
                Ok(channel_id) => Ok(ChannelMessage { id, channel_id, data }),
            },
        }
    }
}

/// What reading a message from `json` comes to.
pub open spec fn spec_message_from_json(json: serde_json::Value) -> Result<(u64, u64), ApiError> {
    spec_message_ids(member_text(json, ID_MEMBER@), member_text(json, CHANNEL_ID_MEMBER@))
}

impl ChannelMessage<serde_json::Value> {
    /// Reads a message from the document that the API sent.
    pub fn from_json(json: serde_json::Value) -> (r: Result<
        ChannelMessage<serde_json::Value>,
        ApiError,
    >)
        ensures
            match r {
                Ok(message) => spec_message_from_json(json) == Ok::<(u64, u64), ApiError>(
                    (message.id, message.channel_id),
                ) && message.data == json,
                Err(e) => spec_message_from_json(json) == Err::<(u64, u64), ApiError>(e),
            },
    {
        let id = required_id(
            string_member(&json, ID_MEMBER),
            ApiError::MissingId,
            ApiError::InvalidId,
        );
        match id {
            Err(e) => Err(e),
            Ok(id) => {
                let channel_id = required_id(
                    string_member(&json, CHANNEL_ID_MEMBER),
                    ApiError::MissingChannelId,
                    ApiError::InvalidChannelId,
                );
                match channel_id {
                    Err(e) => Err(e),
                    Ok(channel_id) => Ok(ChannelMessage { id, channel_id, data: json }),
                }
            },
        }
    }
}

/// Reads a page of messages from the documents that the API sent, in their
/// order. The first document that is no message decides the error.
pub fn messages_from_json(documents: Vec<serde_json::Value>) -> (r: Result<
    Vec<ChannelMessage<serde_json::Value>>,
    ApiError,
>)
    ensures
        match r {
            Ok(messages) => messages@.len() == documents@.len() && forall|i: int|
                0 <= i < documents@.len() ==> spec_message_from_json(#[trigger] documents@[i])
                    == Ok::<(u64, u64), ApiError>((messages@[i].id, messages@[i].channel_id))
                    && messages@[i].data == documents@[i],
            Err(e) => exists|i: int|
                0 <= i < documents@.len() && spec_message_from_json(#[trigger] documents@[i])
                    == Err::<(u64, u64), ApiError>(e) && forall|j: int|
                    0 <= j < i ==> spec_message_from_json(#[trigger] documents@[j]) is Ok,
        },
{
    let ghost items = documents@;
    let mut messages: Vec<ChannelMessage<serde_json::Value>> = Vec::new();
    for json in iter: documents
        invariant
            iter.seq() == items,
            messages@.len() == iter.index(),
            forall|i: int|
                0 <= i < iter.index() ==> spec_message_from_json(#[trigger] items[i]) == Ok::<
                    (u64, u64),
                    ApiError,
                >((messages@[i].id, messages@[i].channel_id)) && messages@[i].data == items[i],
    {
        match ChannelMessage::from_json(json) {
            Ok(message) => {
                messages.push(message);
            },
            Err(e) => {
                assert(spec_message_from_json(items[iter.index() as int]) == Err::<
                    (u64, u64),
                    ApiError,
                >(e));
                return Err(e);
            },
        }
    }
    Ok(messages)
}

/// The query parameters of a request, in the order in which they are sent:
/// each bound that is set, by name, with its value.
pub open spec fn spec_query(request: PageRequest) -> Seq<(Seq<char>, u64)> {
    let after = match request.after {
        Some(id) => seq![(AFTER_PARAMETER@, id)],
        None => seq![],
    };
    let before = match request.before {
        Some(id) => seq![(BEFORE_PARAMETER@, id)],
        None => seq![],
    };
    let limit = match request.limit {
        Some(n) => seq![(LIMIT_PARAMETER@, n as u64)],
        None => seq![],
    };
    after + before + limit
}

impl PageRequest {
    /// The query parameters of the request.
    pub fn query(&self) -> (parameters: Vec<(&'static str, u64)>)
        ensures
            parameters@.len() == spec_query(*self).len(),
            forall|i: int|
                0 <= i < parameters@.len() ==> (#[trigger] parameters@[i]).0@ == spec_query(
                    *self,
                )[i].0 && parameters@[i].1 == spec_query(*self)[i].1,
    {
        let mut parameters: Vec<(&'static str, u64)> = Vec::new();
        if let Some(after) = self.after {
            parameters.push((AFTER_PARAMETER, after));
        }
        if let Some(before) = self.before {
            parameters.push((BEFORE_PARAMETER, before));
        }
        if let Some(limit) = self.limit {
            parameters.push((LIMIT_PARAMETER, limit as u64));
        }
        parameters
    }
}

} // verus!

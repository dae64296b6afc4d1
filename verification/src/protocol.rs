//! Plain data carried between the chat components: messages, envelopes,
//! the events that drive the router and the discovery engine, and the
//! error taxonomy.

use vstd::prelude::*;

use crate::node_id::NodeId;

verus! {

/// Errors raised while handling an inbound envelope.
///
/// `InvalidNodeId` is the only error an inbound envelope can produce: a
/// caller identity that is not a well-formed node id.  A well-formed but
/// unknown identity is accepted, not an error.
#[derive(Clone, Copy, PartialEq, Eq, Structural, Debug)]
pub enum ChatError {
    Rejected,
    UnknownUser,
    InvalidNodeId,
}

/// Errors of the discovery engine.  Only a publish failure during a join
/// aborts anything; poll and unsubscribe failures are recovered from.
#[derive(Clone, Copy, PartialEq, Eq, Structural, Debug)]
pub enum DiscoveryError {
    PublishFailed,
}

/// One text item: content plus its UTC timestamp in milliseconds since
/// the epoch.  Immutable once built.
pub struct TextMessage {
    pub content: String,
    pub timestamp: i64,
}

impl Clone for TextMessage {
    fn clone(&self) -> (r: Self)
        ensures
            r.deep_view() == self.deep_view(),
    {
        TextMessage { content: self.content.clone(), timestamp: self.timestamp }
    }
}

/// Mathematical value of a `TextMessage`.
pub struct TextMessageModel {
    pub content: Seq<char>,
    pub timestamp: int,
}

impl DeepView for TextMessage {
    type V = TextMessageModel;

    open spec fn deep_view(&self) -> TextMessageModel {
        TextMessageModel { content: self.content@, timestamp: self.timestamp as int }
    }
}

/// The wire envelope: the sender's claimed display name and a batch of
/// text items, delivered in order.
pub struct SendText {
    pub user: String,
    pub messages: Vec<TextMessage>,
}

impl Clone for SendText {
    fn clone(&self) -> (r: Self)
        ensures
            r.deep_view() == self.deep_view(),
    {
        let messages = self.messages.clone();
        proof {
            assert forall|i: int|
                0 <= i < messages@.len() implies messages.deep_view()[i]
                == self.messages.deep_view()[i] by {
                assert(vstd::pervasive::cloned::<TextMessage>(self.messages[i], messages[i]));
            }
            assert(messages.deep_view() =~= self.messages.deep_view());
        }
        SendText { user: self.user.clone(), messages }
    }
}

/// Mathematical value of a `SendText` envelope.
pub struct SendTextModel {
    pub user: Seq<char>,
    pub messages: Seq<TextMessageModel>,
}

impl DeepView for SendText {
    type V = SendTextModel;

    open spec fn deep_view(&self) -> SendTextModel {
        SendTextModel { user: self.user@, messages: self.messages.deep_view() }
    }
}

/// An appearance event: the discovery engine found a peer with this
/// display name and identity in this group.
pub struct NewUser {
    pub user: String,
    pub address: NodeId,
    pub group: String,
}

/// Mathematical value of a `NewUser` event.
pub struct NewUserModel {
    pub user: Seq<char>,
    pub address: Seq<u8>,
    pub group: Seq<char>,
}

impl DeepView for NewUser {
    type V = NewUserModel;

    open spec fn deep_view(&self) -> NewUserModel {
        NewUserModel { user: self.user@, address: self.address@, group: self.group@ }
    }
}

/// One line typed at the console, to be fanned out to every known peer.
pub struct NewLine(pub String);

/// A batch that could not be delivered now and must be queued for the
/// addressed peer.
pub struct DeliverLater {
    pub address: NodeId,
    pub messages: SendText,
}

/// Request to join a chat group under a display name.
pub struct InitChatGroup {
    pub me: String,
    pub group: String,
}

/// Request for one full polling pass over all subscriptions.
pub struct DiscoverUsers;

/// Request to shut the engine down and release its subscriptions.
pub struct Shutdown;

} // verus!

//! The message router.
//!
//! One `Chat` owns the peer registry and the delivery queue; every
//! mutation of either goes through its handlers, which keeps appearance
//! processing, inbound rendering and outbound queuing totally ordered.
//! The transport itself lives outside: the handlers decide, and their
//! results say what the outside loop must send, queue or print.

use vstd::prelude::*;
use vstd::string::StringExecFns;

use crate::delivery::{
    contains_entry, entry_index, pending_of, queue_spec, DeliveryQueue, PendingModel,
};
use crate::node_id::{valid_node_id_text, node_id_decoded, NodeId};
use crate::protocol::{ChatError, DeliverLater, NewLine, NewUser, SendText, TextMessage,
    TextMessageModel};
use crate::registry::{contains_id, name_of, PeerDescriptor, PeerModel, Registry};
use crate::timefmt::{local_stamp, local_offset_seconds, now_epoch_ms};

verus! {

/// What the router decided about one appearance event.
pub enum Appearance {
    /// The proposal carried our own display name: discarded silently.
    SelfIgnored,
    /// A first appearance: the peer is now registered.
    Appeared,
    /// A known identity appeared again.  If messages were buffered for
    /// it, here is the whole buffer, to be resent as one unit.
    Reappeared { pending: Option<Vec<TextMessage>> },
}

/// How one inbound text item is shown: the localized timestamp, the
/// sender, a `>`, and the content.
pub open spec fn rendered_line(
    ts_ms: int,
    offset_s: int,
    sender: Seq<char>,
    content: Seq<char>,
) -> Seq<char> {
    local_stamp(ts_ms, offset_s) + seq![' '] + sender + seq![' ', '>', ' '] + content
}

/// The name an envelope is shown under: the registered name of the
/// caller when the caller is known, else the name the envelope claims.
pub open spec fn display_name_for(
    peers: Seq<PeerModel>,
    caller: Seq<u8>,
    claimed: Seq<char>,
) -> Seq<char> {
    if contains_id(peers, caller) {
        name_of(peers, caller)
    } else {
        claimed
    }
}

/// Each line is the rendering of the matching text item under some
/// local offset (the offset is the environment's; only its bounds are
/// known).
pub open spec fn lines_render(
    lines: Seq<Seq<char>>,
    msgs: Seq<TextMessageModel>,
    sender: Seq<char>,
) -> bool {
    exists|offs: Seq<int>|
        #![trigger offs.len()]
        {
            &&& offs.len() == msgs.len()
            &&& lines.len() == msgs.len()
            &&& forall|i: int|
                0 <= i < msgs.len() ==> -86400 < #[trigger] offs[i] < 86400 && lines[i]
                    == rendered_line(msgs[i].timestamp, offs[i], sender, msgs[i].content)
        }
}

/// Renders one text item for display.
pub fn render_line(offset_s: i32, sender: &String, message: &TextMessage) -> (r: String)
    requires
        -86400 < offset_s < 86400,
    ensures
        r@ == rendered_line(
            message.timestamp as int,
            offset_s as int,
            sender@,
            message.content@,
        ),
{
    let mut r = crate::timefmt::format_local_stamp(message.timestamp, offset_s);
    crate::node_id::push_char(&mut r, ' ');
    r.append(sender.as_str());
    crate::node_id::push_char(&mut r, ' ');
    crate::node_id::push_char(&mut r, '>');
    crate::node_id::push_char(&mut r, ' ');
    r.append(message.content.as_str());
    proof {
        assert(r@ =~= rendered_line(
            message.timestamp as int,
            offset_s as int,
            sender@,
            message.content@,
        ));
    }
    r
}

/// The chat state: who we are, which group we joined, whom we know,
/// and what still waits to be delivered.
pub struct Chat {
    pub me: String,
    pub group: String,
    pub registry: Registry,
    pub delivery: DeliveryQueue,
}

impl Chat {
    /// The router's invariant: registry and queue are well-formed.
    pub open spec fn wf(&self) -> bool {
        self.registry.wf() && self.delivery.wf()
    }

    /// A fresh chat for this display name and group: nobody known,
    /// nothing queued.
    pub fn new(me: String, group: String) -> (r: Chat)
        ensures
            r.wf(),
            r.me@ == me@,
            r.group@ == group@,
            r.registry@ == Seq::<PeerModel>::empty(),
            r.delivery@ == Seq::<PendingModel>::empty(),
    {
        Chat { me, group, registry: Registry::new(), delivery: DeliveryQueue::new() }
    }

    /// Handles an appearance event.  Our own display name is discarded
    /// without touching anything.  A new identity is registered.  A
    /// known identity signals reappearance: its buffered messages, if
    /// any, are drained — whole, in order — and handed back for resend.
    pub fn handle_new_user(&mut self, msg: NewUser) -> (r: Appearance)
        requires
            old(self).wf(),
        ensures
            final(self).wf(),
            final(self).me == old(self).me && final(self).group == old(self).group,
            (r is SelfIgnored) <==> msg.user@ == old(self).me@,
            r is SelfIgnored ==> final(self).registry@ == old(self).registry@ && final(self).delivery@ == old(self).delivery@,
            (r is Appeared) <==> (msg.user@ != old(self).me@ && !contains_id(
                old(self).registry@,
                msg.address@,
            )),
            r is Appeared ==> final(self).registry@ == old(self).registry@.push(
                PeerModel { name: msg.user@, address: msg.address@ },
            ) && final(self).delivery@ == old(self).delivery@,
            (r is Reappeared) <==> (msg.user@ != old(self).me@ && contains_id(
                old(self).registry@,
                msg.address@,
            )),
            r is Reappeared ==> final(self).registry@ == old(self).registry@,
            r matches Appearance::Reappeared { pending: Some(batch) } ==> contains_entry(
                old(self).delivery@,
                msg.address@,
            ) && batch.deep_view() == pending_of(old(self).delivery@, msg.address@) && final(self).delivery@ == old(self).delivery@.remove(
                entry_index(old(self).delivery@, msg.address@),
            ) && !contains_entry(final(self).delivery@, msg.address@),
            r matches Appearance::Reappeared { pending: None } ==> !contains_entry(
                old(self).delivery@,
                msg.address@,
            ) && final(self).delivery@ == old(self).delivery@,
    {
        if msg.user == self.me {
            return Appearance::SelfIgnored;
        }
        let reappeared = self.registry.record_appearance(msg.user, msg.address.clone());
        if reappeared {
            let pending = self.delivery.take(&msg.address);
            Appearance::Reappeared { pending }
        } else {
            Appearance::Appeared
        }
    }

    /// Buffers a batch whose delivery failed, behind whatever is
    /// already buffered for that peer.
    pub fn handle_deliver_later(&mut self, msg: DeliverLater)
        requires
            old(self).wf(),
        ensures
            final(self).wf(),
            final(self).me == old(self).me && final(self).group == old(self).group,
            final(self).registry@ == old(self).registry@,
            final(self).delivery@ == queue_spec(
                old(self).delivery@,
                msg.address@,
                msg.messages.messages.deep_view(),
            ),
    {
        self.delivery.queue(msg.address, msg.messages.messages);
    }

    /// Settles one send attempt.  A delivered batch needs nothing
    /// more; a failed one is buffered, never raised to the author:
    /// either way the hand-off has succeeded.
    pub fn settle_send(&mut self, address: NodeId, text: SendText, delivered: bool)
        requires
            old(self).wf(),
        ensures
            final(self).wf(),
            final(self).me == old(self).me && final(self).group == old(self).group,
            final(self).registry@ == old(self).registry@,
            delivered ==> final(self).delivery@ == old(self).delivery@,
            !delivered ==> final(self).delivery@ == queue_spec(
                old(self).delivery@,
                address@,
                text.messages.deep_view(),
            ),
    {
        if !delivered {
            self.delivery.queue(address, text.messages);
        }
    }

    /// Builds the outbound envelope for one typed line, stamped with
    /// the clock's current reading, and snapshots the peers to fan it
    /// out to, in registration order.  Each send then either succeeds
    /// or is settled by `settle_send`.
    pub fn handle_new_line(&self, line: NewLine) -> (r: (SendText, Vec<NodeId>))
        ensures
            r.0.user@ == self.me@,
            r.0.messages.deep_view().len() == 1,
            r.0.messages.deep_view()[0].content == line.0@,
            r.1.deep_view() == Seq::new(self.registry@.len(), |i: int| self.registry@[i].address),
    {
        let timestamp = now_epoch_ms();
        let message = TextMessage { content: line.0, timestamp };
        let mut messages: Vec<TextMessage> = Vec::new();
        messages.push(message);
        proof {
            assert(messages.deep_view() =~= seq![
                TextMessageModel { content: line.0@, timestamp: timestamp as int },
            ]);
        }
        let text = SendText { user: self.me.clone(), messages };
        let peers = self.registry.all_peers();
        let mut addresses: Vec<NodeId> = Vec::new();
        let n = peers.len();
        proof {
            assert(peers.deep_view().len() == self.registry@.len());
            assert(peers@.len() == peers.deep_view().len());
        }
        let mut i: usize = 0;
        while i < n
            invariant
                n == peers.len(),
                peers.deep_view() == self.registry@,
                n == self.registry@.len(),
                i <= n,
                addresses.deep_view() =~= Seq::new(i as nat, |j: int| self.registry@[j].address),
            decreases n - i,
        {
            proof {
                assert(peers.deep_view()[i as int] == peers@[i as int].deep_view());
            }
            let a = peers[i].address.clone();
            let ghost preva = addresses.deep_view();
            proof {
                assert(addresses.deep_view().len() == i as int);
                assert(addresses@.len() == i as int);
            }
            addresses.push(a);
            proof {
                assert(addresses@.len() == i + 1);
                assert(forall|j: int| 0 <= j < i ==> #[trigger] addresses.deep_view()[j]
                    == preva[j]);
                assert(addresses.deep_view()[i as int] == a@);
                assert(a@ == self.registry@[i as int].address);
                assert(addresses.deep_view() =~= Seq::new(
                    (i + 1) as nat,
                    |j: int| self.registry@[j].address,
                ));
            }
            i = i + 1;
        }
        (text, addresses)
    }

    /// Handles an inbound envelope.  A malformed caller identity is
    /// rejected with `InvalidNodeId`; a well-formed but unknown caller
    /// is accepted and shown under the envelope's claimed name.  Each
    /// text item becomes one display line, in arrival order; the
    /// registry is read, never changed.
    pub fn receive(&self, caller: &str, envelope: SendText) -> (r: Result<Vec<String>, ChatError>)
        requires
            self.registry.wf(),
        ensures
            (r is Ok) <==> valid_node_id_text(caller@),
            r matches Err(e) ==> e == ChatError::InvalidNodeId,
            r matches Ok(lines) ==> lines_render(
                lines.deep_view(),
                envelope.messages.deep_view(),
                display_name_for(self.registry@, node_id_decoded(caller@), envelope.user@),
            ),
    {
        let caller_id = match NodeId::parse(caller) {
            Ok(id) => id,
            Err(e) => {
                return Err(e);
            },
        };
        let SendText { user: claimed, messages } = envelope;
        let sender = match self.registry.resolve(&caller_id) {
            Some(name) => name,
            None => claimed,
        };
        proof {
            assert(sender@ == display_name_for(
                self.registry@,
                node_id_decoded(caller@),
                envelope.user@,
            ));
        }
        let mut lines: Vec<String> = Vec::new();
        let n = messages.len();
        let ghost msgs = messages.deep_view();
        proof {
            assert(msgs == envelope.messages.deep_view());
            assert(msgs.len() == n);
        }
        let mut i: usize = 0;
        let ghost mut offs: Seq<int> = Seq::empty();
        while i < n
            invariant
                n == messages.len(),
                msgs == messages.deep_view(),
                msgs.len() == n,
                i <= n,
                lines.deep_view().len() == i,
                offs.len() == i,
                forall|j: int|
                    0 <= j < i ==> -86400 < #[trigger] offs[j] < 86400 && lines.deep_view()[j]
                        == rendered_line(msgs[j].timestamp, offs[j], sender@, msgs[j].content),
            decreases n - i,
        {
            let message = &messages[i];
            let offset = match local_offset_seconds(message.timestamp) {
                Some(o) => o,
                None => 0,
            };
            let line = render_line(offset, &sender, message);
            proof {
                assert(message.deep_view() == msgs[i as int]);
            }
            let ghost prev = lines.deep_view();
            proof {
                assert(lines.deep_view().len() == i as int);
                assert(lines@.len() == i as int);
            }
            lines.push(line);
            proof {
                offs = offs.push(offset as int);
                assert(lines.deep_view().len() == i + 1);
                assert(forall|j: int| 0 <= j < i ==> #[trigger] lines.deep_view()[j] == prev[j]);
                assert(lines.deep_view()[i as int] == line@);
            }
            i = i + 1;
        }
        proof {
            assert(offs.len() == msgs.len());
            assert(lines.deep_view().len() == msgs.len());
            assert(lines_render(lines.deep_view(), msgs, sender@));
            assert(lines_render(
                lines.deep_view(),
                envelope.messages.deep_view(),
                display_name_for(self.registry@, node_id_decoded(caller@), envelope.user@),
            ));
        }
        Ok(lines)
    }
}

} // verus!

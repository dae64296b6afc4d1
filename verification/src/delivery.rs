//! The delivery queue: per-peer buffers of messages that could not be
//! delivered while the peer was unreachable.
//!
//! A buffer is created on the first failed send to a peer, appended to
//! on later failures in call order, and drained whole — never
//! partially — when a reappearance triggers a resend.  A buffer exists
//! only while it is non-empty.

use vstd::prelude::*;

use crate::node_id::NodeId;
use crate::protocol::{TextMessage, TextMessageModel};

verus! {

/// The buffered messages for one peer, oldest first.
pub struct PendingDelivery {
    pub address: NodeId,
    pub messages: Vec<TextMessage>,
}

/// Mathematical value of a `PendingDelivery`.
pub struct PendingModel {
    pub address: Seq<u8>,
    pub messages: Seq<TextMessageModel>,
}

impl DeepView for PendingDelivery {
    type V = PendingModel;

    open spec fn deep_view(&self) -> PendingModel {
        PendingModel { address: self.address@, messages: self.messages.deep_view() }
    }
}

/// Is there a buffer for this identity?
pub open spec fn contains_entry(s: Seq<PendingModel>, id: Seq<u8>) -> bool {
    exists|i: int| 0 <= i < s.len() && s[i].address == id
}

/// The index of the buffer for this identity (meaningful only when
/// `contains_entry` holds and the identities are unique).
pub open spec fn entry_index(s: Seq<PendingModel>, id: Seq<u8>) -> int {
    choose|i: int| 0 <= i < s.len() && s[i].address == id
}

/// The messages buffered for this identity, or empty if there is no
/// buffer.
pub open spec fn pending_of(s: Seq<PendingModel>, id: Seq<u8>) -> Seq<TextMessageModel> {
    if contains_entry(s, id) {
        s[entry_index(s, id)].messages
    } else {
        Seq::empty()
    }
}

/// No identity has two buffers.
pub open spec fn unique_entries(s: Seq<PendingModel>) -> bool {
    forall|i: int, j: int| 0 <= i < j < s.len() ==> s[i].address != s[j].address
}

/// Every buffer is non-empty.
pub open spec fn entries_nonempty(s: Seq<PendingModel>) -> bool {
    forall|i: int| 0 <= i < s.len() ==> #[trigger] s[i].messages.len() > 0
}

/// What the queue looks like after buffering `msgs` for `id`: nothing
/// for an empty batch; otherwise the batch is appended to the peer's
/// buffer, which is created at the back if absent.  No other buffer
/// moves or changes.
pub open spec fn queue_spec(s: Seq<PendingModel>, id: Seq<u8>, msgs: Seq<TextMessageModel>) -> Seq<
    PendingModel,
> {
    if msgs.len() == 0 {
        s
    } else if contains_entry(s, id) {
        let i = entry_index(s, id);
        s.update(i, PendingModel { address: id, messages: s[i].messages + msgs })
    } else {
        s.push(PendingModel { address: id, messages: msgs })
    }
}

/// With unique identities, the buffer found at index `i` is the buffer
/// `pending_of` speaks of.
pub proof fn lemma_entry_at(s: Seq<PendingModel>, i: int)
    requires
        unique_entries(s),
        0 <= i < s.len(),
    ensures
        contains_entry(s, s[i].address),
        entry_index(s, s[i].address) == i,
        pending_of(s, s[i].address) == s[i].messages,
{
    let id = s[i].address;
    assert(contains_entry(s, id));
    let j = entry_index(s, id);
    if i < j {
        assert(s[i].address != s[j].address);
    } else if j < i {
        assert(s[j].address != s[i].address);
    }
}

/// Buffering touches exactly the buffer of the addressed peer: its
/// messages gain the batch at the back, every other peer's buffer is
/// untouched, and no buffer appears for any other peer.
pub proof fn lemma_queue_pending(s: Seq<PendingModel>, id: Seq<u8>, msgs: Seq<TextMessageModel>)
    requires
        unique_entries(s),
    ensures
        pending_of(queue_spec(s, id, msgs), id) == pending_of(s, id) + msgs,
        forall|other: Seq<u8>| other != id ==> pending_of(queue_spec(s, id, msgs), other)
            == pending_of(s, other),
        forall|other: Seq<u8>| other != id ==> contains_entry(queue_spec(s, id, msgs), other)
            == contains_entry(s, other),
        unique_entries(queue_spec(s, id, msgs)),
{
    let t = queue_spec(s, id, msgs);
    if msgs.len() == 0 {
        assert(pending_of(s, id) + msgs =~= pending_of(s, id));
    } else if contains_entry(s, id) {
        let i = entry_index(s, id);
        lemma_entry_at(s, i);
        assert(t[i].address == id);
        lemma_entry_at_preserved(s, t, i);
    } else {
        assert(t[s.len() as int].address == id);
        assert(forall|k: int| 0 <= k < s.len() ==> t[k] == s[k]);
        assert(unique_entries(t)) by {
            assert(forall|k: int| 0 <= k < s.len() ==> #[trigger] t[k].address != id);
        }
        lemma_entry_at(t, s.len() as int);
        assert(pending_of(s, id) + msgs =~= msgs);
        assert(forall|other: Seq<u8>| other != id ==> contains_entry(t, other) == contains_entry(
            s,
            other,
        )) by {
            assert forall|other: Seq<u8>|
                other != id && contains_entry(t, other) implies contains_entry(s, other) by {
                let k = choose|k: int| 0 <= k < t.len() && t[k].address == other;
                assert(k < s.len() && s[k].address == other);
            }
        }
        assert(forall|other: Seq<u8>| other != id && contains_entry(s, other) ==> pending_of(
            t,
            other,
        ) == pending_of(s, other)) by {
            assert forall|other: Seq<u8>|
                other != id && contains_entry(s, other) implies pending_of(t, other) == pending_of(
                s,
                other,
            ) by {
                let k = entry_index(s, other);
                lemma_entry_at(s, k);
                lemma_entry_at(t, k);
            }
        }
    }
}

/// Helper for the updated-in-place case: every other buffer keeps its
/// place, identity and contents.
proof fn lemma_entry_at_preserved(s: Seq<PendingModel>, t: Seq<PendingModel>, i: int)
    requires
        unique_entries(s),
        0 <= i < s.len(),
        t.len() == s.len(),
        t[i].address == s[i].address,
        forall|k: int| 0 <= k < s.len() && k != i ==> t[k] == s[k],
    ensures
        unique_entries(t),
        pending_of(t, s[i].address) == t[i].messages,
        forall|other: Seq<u8>| other != s[i].address ==> pending_of(t, other) == pending_of(
            s,
            other,
        ) && contains_entry(t, other) == contains_entry(s, other),
{
    let id = s[i].address;
    assert(forall|k: int| 0 <= k < t.len() ==> t[k].address == s[k].address);
    assert(unique_entries(t));
    lemma_entry_at(t, i);
    assert forall|other: Seq<u8>| other != id implies pending_of(t, other) == pending_of(s, other)
        && contains_entry(t, other) == contains_entry(s, other) by {
        if contains_entry(s, other) {
            let k = entry_index(s, other);
            lemma_entry_at(s, k);
            assert(k != i);
            lemma_entry_at(t, k);
        } else {
            assert(!contains_entry(t, other));
        }
    }
}

/// Failed batches for one peer accumulate in call order: after two
/// failures the buffer holds the first batch and then the second,
/// behind whatever sat there before.  The drain of a reappearance
/// (`take`) then hands out exactly this buffer, whole — never a part —
/// as its contract states.
pub proof fn lemma_accumulate_in_order(
    s: Seq<PendingModel>,
    id: Seq<u8>,
    m1: Seq<TextMessageModel>,
    m2: Seq<TextMessageModel>,
)
    requires
        unique_entries(s),
    ensures
        pending_of(queue_spec(queue_spec(s, id, m1), id, m2), id) == pending_of(s, id) + m1 + m2,
{
    lemma_queue_pending(s, id, m1);
    lemma_queue_pending(queue_spec(s, id, m1), id, m2);
}

/// The full life of a reappearance resend, over the queue's own
/// transitions.  Three failed batches for a peer with nothing buffered
/// land in one buffer in call order — none dropped, none reordered,
/// none deduplicated.  The drain of a reappearance takes that whole
/// buffer and leaves none behind (`take`'s contract removes the
/// entry), and if the resend of the drained batch fails in turn,
/// re-queuing it restores exactly the same buffer, unchanged.
pub proof fn lemma_reappearance_resend_cycle(
    s: Seq<PendingModel>,
    id: Seq<u8>,
    m1: Seq<TextMessageModel>,
    m2: Seq<TextMessageModel>,
    m3: Seq<TextMessageModel>,
)
    requires
        unique_entries(s),
        !contains_entry(s, id),
        m1.len() > 0,
        m2.len() > 0,
        m3.len() > 0,
    ensures
        ({
            let q = queue_spec(queue_spec(queue_spec(s, id, m1), id, m2), id, m3);
            let drained = q.remove(entry_index(q, id));
            &&& pending_of(q, id) == m1 + m2 + m3
            &&& !contains_entry(drained, id)
            &&& pending_of(queue_spec(drained, id, m1 + m2 + m3), id) == m1 + m2 + m3
        }),
{
    let q1 = queue_spec(s, id, m1);
    lemma_queue_pending(s, id, m1);
    let q2 = queue_spec(q1, id, m2);
    lemma_queue_pending(q1, id, m2);
    let q = queue_spec(q2, id, m3);
    lemma_queue_pending(q2, id, m3);
    assert(pending_of(s, id) == Seq::<TextMessageModel>::empty());
    assert(pending_of(q, id) =~= m1 + m2 + m3);
    assert(contains_entry(q, id)) by {
        if !contains_entry(q, id) {
            assert(pending_of(q, id).len() == 0);
        }
    }
    let i = entry_index(q, id);
    assert(0 <= i < q.len() && q[i].address == id);
    lemma_take_removed(q, i);
    let drained = q.remove(i);
    lemma_queue_pending(drained, id, m1 + m2 + m3);
    assert(pending_of(queue_spec(drained, id, m1 + m2 + m3), id) =~= m1 + m2 + m3);
}

/// The per-peer buffers of undelivered messages.
pub struct DeliveryQueue {
    entries: Vec<PendingDelivery>,
}

impl View for DeliveryQueue {
    type V = Seq<PendingModel>;

    closed spec fn view(&self) -> Seq<PendingModel> {
        self.entries.deep_view()
    }
}

impl DeliveryQueue {
    /// The queue's invariant: one buffer per identity, none empty.
    pub open spec fn wf(&self) -> bool {
        unique_entries(self@) && entries_nonempty(self@)
    }

    /// An empty queue.
    pub fn new() -> (r: DeliveryQueue)
        ensures
            r@ == Seq::<PendingModel>::empty(),
            r.wf(),
    {
        let r = DeliveryQueue { entries: Vec::new() };
        proof {
            assert(r@ =~= Seq::<PendingModel>::empty());
        }
        r
    }

    /// The index of the buffer for this identity, if any.
    fn find(&self, address: &NodeId) -> (r: Option<usize>)
        ensures
            match r {
                Some(i) => i < self@.len() && self@[i as int].address == address@,
                None => !contains_entry(self@, address@),
            },
    {
        let n = self.entries.len();
        assert(n == self@.len());
        let mut i: usize = 0;
        while i < n
            invariant
                n == self@.len() == self.entries.len(),
                i <= n,
                forall|j: int| 0 <= j < i ==> self@[j].address != address@,
            decreases n - i,
        {
            assert(self@[i as int].address == self.entries@[i as int].address@);
            if &self.entries[i].address == address {
                return Some(i);
            }
            i = i + 1;
        }
        None
    }

    /// Buffers a batch for a peer whose send failed.  The batch lands
    /// behind everything already buffered for that peer; an empty batch
    /// changes nothing, so buffers stay non-empty.
    pub fn queue(&mut self, address: NodeId, messages: Vec<TextMessage>)
        requires
            old(self).wf(),
        ensures
            final(self).wf(),
            final(self)@ == queue_spec(old(self)@, address@, messages.deep_view()),
    {
        if messages.len() == 0 {
            proof {
                assert(messages.deep_view().len() == 0);
            }
            return ;
        }
        proof {
            assert(messages.deep_view().len() == messages@.len());
        }
        let ghost batch = messages.deep_view();
        let mut messages = messages;
        match self.find(&address) {
            Some(i) => {
                proof {
                    lemma_entry_at(old(self)@, i as int);
                }
                let mut entry = self.entries.remove(i);
                entry.messages.append(&mut messages);
                proof {
                    assert(entry.messages.deep_view() =~= old(self)@[i as int].messages + batch);
                }
                self.entries.insert(i, entry);
                proof {
                    assert(final(self)@ =~= queue_spec(old(self)@, address@, batch));
                    lemma_queue_pending(old(self)@, address@, batch);
                }
            },
            None => {
                self.entries.push(PendingDelivery { address, messages });
                proof {
                    assert(final(self)@ =~= old(self)@.push(
                        PendingModel { address: address@, messages: batch },
                    ));
                    lemma_queue_pending(old(self)@, address@, batch);
                }
            },
        }
    }

    /// Drains the buffer for a reappeared peer: the whole buffer, in
    /// order, never a part of it.  `None` when nothing was buffered.
    pub fn take(&mut self, address: &NodeId) -> (r: Option<Vec<TextMessage>>)
        requires
            old(self).wf(),
        ensures
            final(self).wf(),
            match r {
                Some(m) => contains_entry(old(self)@, address@) && m.deep_view() == pending_of(
                    old(self)@,
                    address@,
                ) && final(self)@ == old(self)@.remove(entry_index(old(self)@, address@)),
                None => !contains_entry(old(self)@, address@) && final(self)@ == old(self)@,
            },
            !contains_entry(final(self)@, address@),
            forall|other: Seq<u8>| other != address@ ==> pending_of(final(self)@, other)
                == pending_of(old(self)@, other) && contains_entry(final(self)@, other)
                == contains_entry(old(self)@, other),
    {
        match self.find(address) {
            Some(i) => {
                proof {
                    lemma_entry_at(old(self)@, i as int);
                }
                let entry = self.entries.remove(i);
                proof {
                    assert(final(self)@ =~= old(self)@.remove(i as int));
                    lemma_take_removed(old(self)@, i as int);
                }
                Some(entry.messages)
            },
            None => None,
        }
    }

    /// How many peers have buffered messages.
    pub fn len(&self) -> (r: usize)
        ensures
            r == self@.len(),
    {
        self.entries.len()
    }
}

/// Removing a buffer leaves every other peer's buffer as it was, and
/// leaves the removed identity without a buffer.
proof fn lemma_take_removed(s: Seq<PendingModel>, i: int)
    requires
        unique_entries(s),
        0 <= i < s.len(),
    ensures
        unique_entries(s.remove(i)),
        entries_nonempty(s) ==> entries_nonempty(s.remove(i)),
        !contains_entry(s.remove(i), s[i].address),
        forall|other: Seq<u8>| other != s[i].address ==> pending_of(s.remove(i), other)
            == pending_of(s, other) && contains_entry(s.remove(i), other) == contains_entry(
            s,
            other,
        ),
{
    let t = s.remove(i);
    let id = s[i].address;
    assert(forall|k: int| 0 <= k < i ==> t[k] == s[k]);
    assert(forall|k: int| i <= k < t.len() ==> t[k] == s[k + 1]);
    assert(unique_entries(t)) by {
        assert forall|a: int, b: int| 0 <= a < b < t.len() implies t[a].address != t[b].address by {
            if b < i {
            } else if a < i {
                assert(t[b] == s[b + 1]);
            } else {
                assert(t[a] == s[a + 1] && t[b] == s[b + 1]);
            }
        }
    }
    assert(!contains_entry(t, id)) by {
        assert forall|k: int| 0 <= k < t.len() implies t[k].address != id by {
            if k < i {
            } else {
                assert(t[k] == s[k + 1]);
            }
        }
    }
    assert forall|other: Seq<u8>| other != id implies pending_of(t, other) == pending_of(s, other)
        && contains_entry(t, other) == contains_entry(s, other) by {
        if contains_entry(s, other) {
            let k = entry_index(s, other);
            lemma_entry_at(s, k);
            let k2 = if k < i {
                k
            } else {
                k - 1
            };
            assert(t[k2].address == other && t[k2].messages == s[k].messages);
            lemma_entry_at(t, k2);
        } else {
            assert(!contains_entry(t, other)) by {
                assert forall|k: int| 0 <= k < t.len() implies t[k].address != other by {
                    if k >= i {
                        assert(t[k] == s[k + 1]);
                    }
                }
            }
        }
    }
}

} // verus!

//! The peer registry: a map from peer identity to display name.
//!
//! It is mutated only by appearance events.  A descriptor is immutable
//! once created: a later appearance of the same identity changes
//! nothing and only signals reappearance.  The registry never holds two
//! descriptors for one identity.

use vstd::prelude::*;

use crate::node_id::NodeId;

verus! {

/// A known peer: its display name and its identity.  The identity is
/// the lookup key; the descriptor never changes after creation.
pub struct PeerDescriptor {
    pub name: String,
    pub address: NodeId,
}

/// Mathematical value of a `PeerDescriptor`.
pub struct PeerModel {
    pub name: Seq<char>,
    pub address: Seq<u8>,
}

impl DeepView for PeerDescriptor {
    type V = PeerModel;

    open spec fn deep_view(&self) -> PeerModel {
        PeerModel { name: self.name@, address: self.address@ }
    }
}

impl Clone for PeerDescriptor {
    fn clone(&self) -> (r: Self)
        ensures
            r.deep_view() == self.deep_view(),
    {
        PeerDescriptor { name: self.name.clone(), address: self.address.clone() }
    }
}

/// Does the sequence hold a descriptor for this identity?
pub open spec fn contains_id(s: Seq<PeerModel>, id: Seq<u8>) -> bool {
    exists|i: int| 0 <= i < s.len() && s[i].address == id
}

/// No identity appears twice.
pub open spec fn unique_ids(s: Seq<PeerModel>) -> bool {
    forall|i: int, j: int| 0 <= i < j < s.len() ==> s[i].address != s[j].address
}

/// The display name registered for this identity (meaningful only when
/// `contains_id` holds and the identities are unique).
pub open spec fn name_of(s: Seq<PeerModel>, id: Seq<u8>) -> Seq<char> {
    let i = choose|i: int| 0 <= i < s.len() && s[i].address == id;
    s[i].name
}

/// With unique identities, the name registered for `s[i].address` is
/// `s[i].name`.
pub proof fn lemma_name_at(s: Seq<PeerModel>, i: int)
    requires
        unique_ids(s),
        0 <= i < s.len(),
    ensures
        name_of(s, s[i].address) == s[i].name,
{
    let id = s[i].address;
    assert(contains_id(s, id));
    let j = choose|j: int| 0 <= j < s.len() && s[j].address == id;
    if i < j {
        assert(s[i].address != s[j].address);
    } else if j < i {
        assert(s[j].address != s[i].address);
    }
}

/// Repeated appearances of one identity: the first call records the
/// peer — the registry grows by exactly one and reports no
/// reappearance (`record_appearance` returns `false` on an absent
/// identity) — and every later call reports reappearance and mutates
/// nothing (`record_appearance` on a present identity), however many
/// other peers appear in between, since appearances only ever add
/// peers.
pub proof fn lemma_record_appearance_repeated(s: Seq<PeerModel>, name: Seq<char>, id: Seq<u8>)
    requires
        !contains_id(s, id),
    ensures
        s.push(PeerModel { name, address: id }).len() == s.len() + 1,
        contains_id(s.push(PeerModel { name, address: id }), id),
        forall|more: Seq<PeerModel>| contains_id(
            #[trigger] (s.push(PeerModel { name, address: id }) + more),
            id,
        ),
{
    let p = PeerModel { name, address: id };
    assert(s.push(p)[s.len() as int] == p);
    assert forall|more: Seq<PeerModel>| contains_id(
        #[trigger] (s.push(p) + more),
        id,
    ) by {
        assert((s.push(p) + more)[s.len() as int] == p);
    }
}

/// The identity-to-name map, backed by a vector in registration order.
pub struct Registry {
    peers: Vec<PeerDescriptor>,
}

impl View for Registry {
    type V = Seq<PeerModel>;

    closed spec fn view(&self) -> Seq<PeerModel> {
        self.peers.deep_view()
    }
}

impl Registry {
    /// The registry's invariant: one descriptor per identity.
    pub open spec fn wf(&self) -> bool {
        unique_ids(self@)
    }

    /// An empty registry.
    pub fn new() -> (r: Registry)
        ensures
            r@ == Seq::<PeerModel>::empty(),
            r.wf(),
    {
        let r = Registry { peers: Vec::new() };
        proof {
            assert(r@ =~= Seq::<PeerModel>::empty());
        }
        r
    }

    /// The index of the descriptor for this identity, if any.
    fn find(&self, address: &NodeId) -> (r: Option<usize>)
        ensures
            match r {
                Some(i) => i < self@.len() && self@[i as int].address == address@,
                None => !contains_id(self@, address@),
            },
    {
        let n = self.peers.len();
        assert(n == self@.len());
        let mut i: usize = 0;
        while i < n
            invariant
                n == self@.len() == self.peers.len(),
                i <= n,
                forall|j: int| 0 <= j < i ==> self@[j].address != address@,
            decreases n - i,
        {
            assert(self@[i as int].address == self.peers@[i as int].address@);
            if &self.peers[i].address == address {
                return Some(i);
            }
            i = i + 1;
        }
        None
    }

    /// Records that a peer with this identity and display name was
    /// discovered.  The first appearance of an identity inserts a
    /// descriptor and reports `false`; every later appearance of the
    /// same identity mutates nothing and reports `true`.  The size thus
    /// grows by exactly one over all calls with one identity.
    pub fn record_appearance(&mut self, name: String, address: NodeId) -> (reappeared: bool)
        requires
            old(self).wf(),
        ensures
            final(self).wf(),
            reappeared == contains_id(old(self)@, address@),
            reappeared ==> final(self)@ == old(self)@,
            !reappeared ==> final(self)@ == old(self)@.push(
                PeerModel { name: name@, address: address@ },
            ),
    {
        match self.find(&address) {
            Some(_) => true,
            None => {
                self.peers.push(PeerDescriptor { name, address });
                proof {
                    assert(final(self)@ =~= old(self)@.push(
                        PeerModel { name: name@, address: address@ },
                    ));
                }
                false
            },
        }
    }

    /// The display name registered for this identity, if the identity
    /// is known.
    pub fn resolve(&self, address: &NodeId) -> (r: Option<String>)
        requires
            self.wf(),
        ensures
            match r {
                Some(n) => contains_id(self@, address@) && n@ == name_of(self@, address@),
                None => !contains_id(self@, address@),
            },
    {
        match self.find(address) {
            Some(i) => {
                proof {
                    lemma_name_at(self@, i as int);
                }
                Some(self.peers[i].name.clone())
            },
            None => None,
        }
    }

    /// A snapshot of every known peer, in registration order.
    pub fn all_peers(&self) -> (r: Vec<PeerDescriptor>)
        ensures
            r.deep_view() == self@,
    {
        let n = self.peers.len();
        let mut r: Vec<PeerDescriptor> = Vec::new();
        let mut i: usize = 0;
        while i < n
            invariant
                n == self.peers.len(),
                i <= n,
                r.deep_view() =~= self@.take(i as int),
            decreases n - i,
        {
            let p = self.peers[i].clone();
            proof {
                assert(r.deep_view().len() == i as int);
                assert(r@.len() == i as int);
            }
            r.push(p);
            proof {
                assert(r@.len() == i + 1);
                assert(r@[i as int].deep_view() == self.peers@[i as int].deep_view());
                assert(forall|j: int| 0 <= j < i ==> r.deep_view()[j] == self@.take(i as int)[j]);
                assert(r.deep_view() =~= self@.take(i + 1));
            }
            i = i + 1;
        }
        proof {
            assert(self@.take(n as int) == self@);
        }
        r
    }

    /// How many peers are known.
    pub fn len(&self) -> (r: usize)
        ensures
            r == self@.len(),
    {
        self.peers.len()
    }
}

} // verus!

//! The discovery engine.
//!
//! Peers of a group find each other through a matching service: each
//! process publishes an offer and a demand tagged with the group, and
//! polls its demand subscription for proposals.  This module owns the
//! subscriptions' state machine (`Requested` → `Active` → `Closing` →
//! `Closed`), turns raw proposals into appearance events — skipping
//! malformed ones and our own name — and decides what a poll failure
//! means: a fixed backoff and the same subscription again, never its
//! removal.  The HTTP calls themselves happen outside and feed their
//! results back in as plain values.

use vstd::prelude::*;
use vstd::string::StringExecFns;

use crate::node_id::{valid_node_id_text, node_id_decoded, NodeId};
use crate::protocol::{DiscoveryError, NewUser, NewUserModel};

verus! {

/// Seconds waited after a failed poll before the same subscription is
/// polled again.
pub const POLL_BACKOFF_SECS: u64 = 4;

/// The life of one group subscription.
#[derive(Clone, Copy, PartialEq, Eq, Structural, Debug)]
pub enum SubscriptionState {
    /// The join was requested; the two publishes are in flight.
    Requested,
    /// Both legs are published; the subscription is being polled.
    Active,
    /// Shutdown began; the legs await their best-effort unsubscribe.
    Closing,
    /// Both legs were released.
    Closed,
}

/// One joined group: the group and owner names, the two published
/// legs (an offer and a demand), and where in its life it stands.
pub struct GroupSubscription {
    pub group: String,
    pub me: String,
    pub offer_id: Option<String>,
    pub demand_id: Option<String>,
    pub state: SubscriptionState,
}

/// Mathematical value of a `GroupSubscription`.
pub struct GroupSubModel {
    pub group: Seq<char>,
    pub me: Seq<char>,
    pub offer_id: Option<Seq<char>>,
    pub demand_id: Option<Seq<char>>,
    pub state: SubscriptionState,
}

impl DeepView for GroupSubscription {
    type V = GroupSubModel;

    open spec fn deep_view(&self) -> GroupSubModel {
        GroupSubModel {
            group: self.group@,
            me: self.me@,
            offer_id: self.offer_id.deep_view(),
            demand_id: self.demand_id.deep_view(),
            state: self.state,
        }
    }
}

/// A candidate peer as the matching service reports it: the issuer's
/// identity in textual form, and the display name found in the
/// proposal's properties, if the property was there at all.  Consumed
/// immediately, never stored.
pub struct Proposal {
    pub issuer: String,
    pub display_name: Option<String>,
}

/// Mathematical value of a `Proposal`.
pub struct ProposalModel {
    pub issuer: Seq<char>,
    pub display_name: Option<Seq<char>>,
}

impl DeepView for Proposal {
    type V = ProposalModel;

    open spec fn deep_view(&self) -> ProposalModel {
        ProposalModel { issuer: self.issuer@, display_name: self.display_name.deep_view() }
    }
}

/// The appearance event one proposal produces, if any: none when the
/// display name is missing, the issuer identity is malformed, or the
/// name is our own.
pub open spec fn appearance_of(me: Seq<char>, group: Seq<char>, p: ProposalModel) -> Option<
    NewUserModel,
> {
    match p.display_name {
        Option::None => Option::None,
        Option::Some(name) => {
            if !valid_node_id_text(p.issuer) {
                Option::None
            } else if name == me {
                Option::None
            } else {
                Option::Some(
                    NewUserModel { user: name, address: node_id_decoded(p.issuer), group },
                )
            }
        },
    }
}

/// The appearance events of a whole batch, in batch order.
pub open spec fn appearances(me: Seq<char>, group: Seq<char>, ps: Seq<ProposalModel>) -> Seq<
    NewUserModel,
>
    decreases ps.len(),
{
    if ps.len() == 0 {
        Seq::empty()
    } else {
        appearances(me, group, ps.drop_last()) + match appearance_of(me, group, ps.last()) {
            Option::Some(u) => seq![u],
            Option::None => Seq::empty(),
        }
    }
}

/// A proposal that produces no event can be dropped from a batch
/// without changing the batch's events: the proposals around it are
/// processed exactly as before.
proof fn lemma_skipped_proposal(me: Seq<char>, group: Seq<char>, ps: Seq<ProposalModel>, i: int)
    requires
        0 <= i < ps.len(),
        appearance_of(me, group, ps[i]) is None,
    ensures
        appearances(me, group, ps) == appearances(me, group, ps.remove(i)),
    decreases ps.len(),
{
    if i == ps.len() - 1 {
        assert(ps.remove(i) =~= ps.drop_last());
        assert(appearances(me, group, ps) =~= appearances(me, group, ps.drop_last()));
    } else {
        lemma_skipped_proposal(me, group, ps.drop_last(), i);
        assert(ps.remove(i).drop_last() =~= ps.drop_last().remove(i));
        assert(ps.remove(i).last() == ps.last());
        assert(appearances(me, group, ps.remove(i)) =~= appearances(
            me,
            group,
            ps.drop_last().remove(i),
        ) + match appearance_of(me, group, ps.last()) {
            Option::Some(u) => seq![u],
            Option::None => Seq::empty(),
        });
    }
}

/// A proposal that carries our own display name never produces an
/// appearance event: the batch's events are those of the batch without
/// it.
pub proof fn lemma_own_name_filtered(
    me: Seq<char>,
    group: Seq<char>,
    ps: Seq<ProposalModel>,
    i: int,
)
    requires
        0 <= i < ps.len(),
        ps[i].display_name == Option::Some(me),
    ensures
        appearance_of(me, group, ps[i]) is None,
        appearances(me, group, ps) == appearances(me, group, ps.remove(i)),
{
    lemma_skipped_proposal(me, group, ps, i);
}

/// A malformed proposal in the middle of a batch — its display name
/// missing or its issuer identity not well-formed — does not block the
/// rest: the batch's events are those of the batch without it.
pub proof fn lemma_malformed_skipped(
    me: Seq<char>,
    group: Seq<char>,
    ps: Seq<ProposalModel>,
    i: int,
)
    requires
        0 <= i < ps.len(),
        ps[i].display_name is None || !valid_node_id_text(ps[i].issuer),
    ensures
        appearance_of(me, group, ps[i]) is None,
        appearances(me, group, ps) == appearances(me, group, ps.remove(i)),
{
    lemma_skipped_proposal(me, group, ps, i);
}

/// Turns one polled batch into appearance events, in order: proposals
/// without a display name and proposals with a malformed issuer are
/// skipped without aborting the rest, and our own display name is
/// discarded silently.
pub fn process_batch(me: &str, group: &str, proposals: Vec<Proposal>) -> (events: Vec<NewUser>)
    ensures
        events.deep_view() == appearances(me@, group@, proposals.deep_view()),
{
    let mut events: Vec<NewUser> = Vec::new();
    let n = proposals.len();
    let ghost ps = proposals.deep_view();
    proof {
        assert(ps.len() == n);
    }
    let mut i: usize = 0;
    while i < n
        invariant
            n == proposals.len(),
            ps == proposals.deep_view(),
            ps.len() == n,
            i <= n,
            events.deep_view() =~= appearances(me@, group@, ps.take(i as int)),
        decreases n - i,
    {
        let proposal = &proposals[i];
        proof {
            assert(proposal.deep_view() == ps[i as int]);
            assert(ps.take(i + 1).drop_last() =~= ps.take(i as int));
            assert(ps.take(i + 1).last() == ps[i as int]);
        }
        match &proposal.display_name {
            Option::None => {},
            Option::Some(name) => {
                match NodeId::parse(proposal.issuer.as_str()) {
                    Err(_) => {},
                    Ok(address) => {
                        if !str_eq(name.as_str(), me) {
                            let user = NewUser {
                                user: name.clone(),
                                address,
                                group: group_to_string(group),
                            };
                            let ghost prev = events.deep_view();
                            proof {
                                assert(events.deep_view().len() == prev.len());
                                assert(events@.len() == prev.len());
                            }
                            events.push(user);
                            proof {
                                assert(forall|j: int|
                                    0 <= j < prev.len() ==> #[trigger] events.deep_view()[j]
                                        == prev[j]);
                                assert(events.deep_view()[prev.len() as int] == NewUserModel {
                                    user: name@,
                                    address: node_id_decoded(proposal.issuer@),
                                    group: group@,
                                });
                            }
                        }
                    },
                }
            },
        }
        proof {
            assert(events.deep_view() =~= appearances(me@, group@, ps.take(i + 1)));
        }
        i = i + 1;
    }
    proof {
        assert(ps.take(n as int) == ps);
    }
    events
}

/// Compares two string slices.
fn str_eq(a: &str, b: &str) -> (r: bool)
    ensures
        r == (a@ == b@),
{
    let sa = a.to_owned();
    let sb = b.to_owned();
    sa == sb
}

/// Copies a string slice into an owned string.
fn group_to_string(s: &str) -> (r: String)
    ensures
        r@ == s@,
{
    s.to_owned()
}

/// Is some subscription of this group still alive (not yet closed)?
pub open spec fn open_for(s: Seq<GroupSubModel>, group: Seq<char>) -> bool {
    exists|i: int| 0 <= i < s.len() && s[i].group == group && !(s[i].state is Closed)
}

/// Is a join of this group awaiting its publish results?
pub open spec fn has_requested(s: Seq<GroupSubModel>, group: Seq<char>) -> bool {
    exists|i: int| 0 <= i < s.len() && s[i].group == group && s[i].state is Requested
}

/// The index of the pending join for this group (meaningful only when
/// `has_requested` holds and the engine is well-formed).
pub open spec fn requested_index(s: Seq<GroupSubModel>, group: Seq<char>) -> int {
    choose|i: int| 0 <= i < s.len() && s[i].group == group && s[i].state is Requested
}

/// No group has two live subscriptions.
pub open spec fn unique_groups(s: Seq<GroupSubModel>) -> bool {
    forall|i: int, j: int|
        0 <= i < j < s.len() && !(s[i].state is Closed) && !(s[j].state is Closed)
            ==> s[i].group != s[j].group
}

/// A subscription as shutdown leaves it: anything still alive starts
/// closing.
pub open spec fn closing_one(g: GroupSubModel) -> GroupSubModel {
    if g.state is Closed {
        g
    } else {
        GroupSubModel { state: SubscriptionState::Closing, ..g }
    }
}

/// A subscription after its legs were released: closing becomes
/// closed.
pub open spec fn closed_one(g: GroupSubModel) -> GroupSubModel {
    if g.state is Closing {
        GroupSubModel { state: SubscriptionState::Closed, ..g }
    } else {
        g
    }
}

/// The offer legs shutdown must release, in subscription order.
pub open spec fn offer_legs(s: Seq<GroupSubModel>) -> Seq<Seq<char>>
    decreases s.len(),
{
    if s.len() == 0 {
        Seq::empty()
    } else {
        offer_legs(s.drop_last()) + match s.last().offer_id {
            Option::Some(id) => if !(s.last().state is Closed) {
                seq![id]
            } else {
                Seq::empty()
            },
            Option::None => Seq::empty(),
        }
    }
}

/// The demand legs shutdown must release, in subscription order.
pub open spec fn demand_legs(s: Seq<GroupSubModel>) -> Seq<Seq<char>>
    decreases s.len(),
{
    if s.len() == 0 {
        Seq::empty()
    } else {
        demand_legs(s.drop_last()) + match s.last().demand_id {
            Option::Some(id) => if !(s.last().state is Closed) {
                seq![id]
            } else {
                Seq::empty()
            },
            Option::None => Seq::empty(),
        }
    }
}

/// The discovery engine: the subscriptions it owns, one per joined
/// group.
pub struct Discovery {
    pub subs: Vec<GroupSubscription>,
}

impl View for Discovery {
    type V = Seq<GroupSubModel>;

    open spec fn view(&self) -> Seq<GroupSubModel> {
        self.subs.deep_view()
    }
}

/// With unique live groups, the pending join found at index `i` is
/// the one `requested_index` speaks of.
pub proof fn lemma_requested_at(s: Seq<GroupSubModel>, i: int)
    requires
        unique_groups(s),
        0 <= i < s.len(),
        s[i].state is Requested,
    ensures
        has_requested(s, s[i].group),
        requested_index(s, s[i].group) == i,
{
    let g = s[i].group;
    assert(has_requested(s, g));
    let j = requested_index(s, g);
    if i < j {
        assert(s[i].group != s[j].group);
    } else if j < i {
        assert(s[j].group != s[i].group);
    }
}

/// A join's two outcomes, over the engine's own transitions.  For a
/// group with no live subscription, requesting a join appends the one
/// pending entry (`begin_join`).  If both legs then publish,
/// completing the join turns exactly that entry active, with both leg
/// ids recorded and the group live (`complete_join`, both ids given).
/// If either leg fails, removing the pending entry leaves the engine
/// exactly as it stood before the join — nothing half-initialized is
/// retained, and the group again has no live subscription
/// (`complete_join` without both ids).
pub proof fn lemma_join_outcomes(
    s: Seq<GroupSubModel>,
    me: Seq<char>,
    group: Seq<char>,
    offer: Seq<char>,
    demand: Seq<char>,
)
    requires
        unique_groups(s),
        !open_for(s, group),
    ensures
        ({
            let pending = GroupSubModel {
                group,
                me,
                offer_id: Option::None,
                demand_id: Option::None,
                state: SubscriptionState::Requested,
            };
            let s1 = s.push(pending);
            let active = GroupSubModel {
                group,
                me,
                offer_id: Option::Some(offer),
                demand_id: Option::Some(demand),
                state: SubscriptionState::Active,
            };
            let s2 = s1.update(s.len() as int, active);
            &&& unique_groups(s1)
            &&& has_requested(s1, group)
            &&& requested_index(s1, group) == s.len()
            &&& unique_groups(s2)
            &&& open_for(s2, group)
            &&& s2[s.len() as int] == active
            &&& s1.remove(s.len() as int) == s
        }),
{
    let pending = GroupSubModel {
        group,
        me,
        offer_id: Option::None,
        demand_id: Option::None,
        state: SubscriptionState::Requested,
    };
    let s1 = s.push(pending);
    let active = GroupSubModel {
        group,
        me,
        offer_id: Option::Some(offer),
        demand_id: Option::Some(demand),
        state: SubscriptionState::Active,
    };
    let s2 = s1.update(s.len() as int, active);
    assert(forall|k: int| 0 <= k < s.len() ==> s1[k] == s[k]);
    assert(unique_groups(s1)) by {
        assert forall|i: int, j: int|
            0 <= i < j < s1.len() && !(s1[i].state is Closed) && !(s1[j].state is Closed)
            implies s1[i].group != s1[j].group by {
            if j == s.len() {
                assert(s1[j].group == group);
                assert(!open_for(s, group));
            }
        }
    }
    assert(s1[s.len() as int].state is Requested);
    lemma_requested_at(s1, s.len() as int);
    assert(unique_groups(s2)) by {
        assert(forall|k: int| 0 <= k < s2.len() ==> s2[k].group == s1[k].group);
        assert forall|i: int, j: int|
            0 <= i < j < s2.len() && !(s2[i].state is Closed) && !(s2[j].state is Closed)
            implies s2[i].group != s2[j].group by {
            if j == s.len() {
                assert(s2[j].group == group);
                assert(!open_for(s, group));
            } else {
                assert(!(s1[i].state is Closed) && !(s1[j].state is Closed));
            }
        }
    }
    assert(open_for(s2, group)) by {
        assert(s2[s.len() as int].group == group && !(s2[s.len() as int].state is Closed));
    }
    assert(s1.remove(s.len() as int) =~= s);
}

impl Discovery {
    /// The engine's invariant: at most one live subscription per
    /// group.
    pub open spec fn wf(&self) -> bool {
        unique_groups(self@)
    }

    /// A fresh engine with no subscriptions.
    pub fn new() -> (r: Discovery)
        ensures
            r@ == Seq::<GroupSubModel>::empty(),
            r.wf(),
    {
        let r = Discovery { subs: Vec::new() };
        proof {
            assert(r@ =~= Seq::<GroupSubModel>::empty());
        }
        r
    }

    /// Starts a join: the group's subscription exists from here on,
    /// waiting for the results of the two publishes.  A group can only
    /// be joined while it has no live subscription.
    pub fn begin_join(&mut self, me: String, group: String)
        requires
            old(self).wf(),
            !open_for(old(self)@, group@),
        ensures
            final(self).wf(),
            final(self)@ == old(self)@.push(
                GroupSubModel {
                    group: group@,
                    me: me@,
                    offer_id: Option::None,
                    demand_id: Option::None,
                    state: SubscriptionState::Requested,
                },
            ),
    {
        let ghost orig = self@;
        proof {
            assert(self.subs.deep_view().len() == orig.len());
            assert(self.subs@.len() == orig.len());
        }
        self.subs.push(
            GroupSubscription {
                group,
                me,
                offer_id: Option::None,
                demand_id: Option::None,
                state: SubscriptionState::Requested,
            },
        );
        proof {
            assert(final(self)@ =~= orig.push(
                GroupSubModel {
                    group: group@,
                    me: me@,
                    offer_id: Option::None,
                    demand_id: Option::None,
                    state: SubscriptionState::Requested,
                },
            ));
            assert forall|i: int, j: int|
                0 <= i < j < final(self)@.len() && !(final(self)@[i].state is Closed) && !(final(self)@[j].state is Closed) implies final(self)@[i].group != final(self)@[j].group by {
                if j < orig.len() {
                } else {
                    assert(final(self)@[j].group == group@);
                    assert(!open_for(orig, group@));
                }
            }
        }
    }

    /// The index of the pending join for this group, if any.
    fn find_requested(&self, group: &str) -> (r: Option<usize>)
        ensures
            match r {
                Some(i) => i < self@.len() && self@[i as int].group == group@ && self@[
                    i as int
                ].state is Requested,
                None => !has_requested(self@, group@),
            },
    {
        let n = self.subs.len();
        assert(n == self@.len());
        let mut i: usize = 0;
        while i < n
            invariant
                n == self@.len() == self.subs.len(),
                i <= n,
                forall|j: int|
                    0 <= j < i ==> !(#[trigger] self@[j].group == group@ && self@[
                        j
                    ].state is Requested),
            decreases n - i,
        {
            proof {
                assert(self@[i as int] == self.subs@[i as int].deep_view());
            }
            let is_requested = match self.subs[i].state {
                SubscriptionState::Requested => true,
                _ => false,
            };
            if is_requested && str_eq(self.subs[i].group.as_str(), group) {
                return Some(i);
            }
            i = i + 1;
        }
        None
    }

    /// Finishes a join with the results of the two publishes.  Only
    /// both legs publishing makes the subscription active; a partial
    /// success fails the join, and the half-initialized subscription
    /// is not retained — the group ends up with no live subscription
    /// at all.
    pub fn complete_join(
        &mut self,
        group: &str,
        offer_id: Option<String>,
        demand_id: Option<String>,
    ) -> (r: Result<(), DiscoveryError>)
        requires
            old(self).wf(),
            has_requested(old(self)@, group@),
        ensures
            final(self).wf(),
            offer_id is Some && demand_id is Some ==> r is Ok && final(self)@ == old(self)@.update(
                requested_index(old(self)@, group@),
                GroupSubModel {
                    group: old(self)@[requested_index(old(self)@, group@)].group,
                    me: old(self)@[requested_index(old(self)@, group@)].me,
                    offer_id: offer_id.deep_view(),
                    demand_id: demand_id.deep_view(),
                    state: SubscriptionState::Active,
                },
            ),
            !(offer_id is Some && demand_id is Some) ==> r == Err::<(), DiscoveryError>(
                DiscoveryError::PublishFailed,
            ) && final(self)@ == old(self)@.remove(requested_index(old(self)@, group@))
                && !open_for(final(self)@, group@),
    {
        let i = match self.find_requested(group) {
            Some(i) => i,
            None => {
                proof {
                    assert(false);
                }
                return Err(DiscoveryError::PublishFailed);
            },
        };
        proof {
            lemma_requested_at(old(self)@, i as int);
        }
        let ghost orig = self@;
        let both = match (&offer_id, &demand_id) {
            (Some(_), Some(_)) => true,
            _ => false,
        };
        let mut entry = self.subs.remove(i);
        if both {
            entry.offer_id = offer_id;
            entry.demand_id = demand_id;
            entry.state = SubscriptionState::Active;
            self.subs.insert(i, entry);
            proof {
                let updated = GroupSubModel {
                    group: orig[i as int].group,
                    me: orig[i as int].me,
                    offer_id: offer_id.deep_view(),
                    demand_id: demand_id.deep_view(),
                    state: SubscriptionState::Active,
                };
                assert(final(self)@ =~= orig.update(i as int, updated));
                assert forall|a: int, b: int|
                    0 <= a < b < final(self)@.len() && !(final(self)@[a].state is Closed) && !(
                    final(self)@[b].state is Closed) implies final(self)@[a].group != final(self)@[b].group by {
                    assert(final(self)@[a].group == orig[a].group);
                    assert(final(self)@[b].group == orig[b].group);
                    assert(!(orig[a].state is Closed) && !(orig[b].state is Closed));
                }
            }
            Ok(())
        } else {
            proof {
                assert(final(self)@ =~= orig.remove(i as int));
                assert forall|a: int, b: int|
                    0 <= a < b < final(self)@.len() && !(final(self)@[a].state is Closed) && !(
                    final(self)@[b].state is Closed) implies final(self)@[a].group != final(self)@[b].group by {
                    let a0 = if a < i { a } else { a + 1 };
                    let b0 = if b < i { b } else { b + 1 };
                    assert(final(self)@[a] == orig[a0] && final(self)@[b] == orig[b0]);
                }
                assert(!open_for(final(self)@, group@)) by {
                    assert forall|k: int|
                        0 <= k < final(self)@.len() implies !(final(self)@[k].group == group@
                            && !(final(self)@[k].state is Closed)) by {
                        let k0 = if k < i { k } else { k + 1 };
                        assert(final(self)@[k] == orig[k0]);
                        if orig[k0].group == group@ && !(orig[k0].state is Closed) {
                            if k0 < i as int {
                                assert(orig[k0].group != orig[i as int].group);
                            } else {
                                assert(orig[i as int].group != orig[k0].group);
                            }
                        }
                    }
                }
            }
            Err(DiscoveryError::PublishFailed)
        }
    }

    /// Starts shutdown: every live subscription begins closing, and
    /// the legs to release come back — first the offers, then the
    /// demands, each in subscription order.  Releasing is best-effort;
    /// nothing here can fail.
    pub fn begin_shutdown(&mut self) -> (r: (Vec<String>, Vec<String>))
        requires
            old(self).wf(),
        ensures
            final(self).wf(),
            final(self)@ == Seq::new(old(self)@.len(), |i: int| closing_one(old(self)@[i])),
            r.0.deep_view() == offer_legs(old(self)@),
            r.1.deep_view() == demand_legs(old(self)@),
    {
        let ghost orig = self@;
        let mut offers: Vec<String> = Vec::new();
        let mut demands: Vec<String> = Vec::new();
        let n = self.subs.len();
        assert(n == orig.len());
        let mut i: usize = 0;
        while i < n
            invariant
                n == self.subs.len(),
                n == orig.len(),
                self@.len() == orig.len(),
                i <= n,
                forall|j: int| 0 <= j < i ==> self@[j] == closing_one(orig[j]),
                forall|j: int| i <= j < n ==> self@[j] == orig[j],
                offers.deep_view() =~= offer_legs(orig.take(i as int)),
                demands.deep_view() =~= demand_legs(orig.take(i as int)),
            decreases n - i,
        {
            proof {
                assert(orig.take(i + 1).drop_last() =~= orig.take(i as int));
                assert(orig.take(i + 1).last() == orig[i as int]);
                assert(self@[i as int] == self.subs@[i as int].deep_view());
            }
            let closed_already = match self.subs[i].state {
                SubscriptionState::Closed => true,
                _ => false,
            };
            let ghost pre = self@;
            if !closed_already {
                let mut entry = self.subs.remove(i);
                match &entry.offer_id {
                    Some(id) => {
                        let ghost prevo = offers.deep_view();
                        proof {
                            assert(offers.deep_view().len() == prevo.len());
                            assert(offers@.len() == prevo.len());
                        }
                        offers.push(id.clone());
                        proof {
                            assert(forall|j: int|
                                0 <= j < prevo.len() ==> #[trigger] offers.deep_view()[j]
                                    == prevo[j]);
                            assert(offers.deep_view() =~= prevo.push(id@));
                        }
                    },
                    None => {},
                }
                match &entry.demand_id {
                    Some(id) => {
                        let ghost prevd = demands.deep_view();
                        proof {
                            assert(demands.deep_view().len() == prevd.len());
                            assert(demands@.len() == prevd.len());
                        }
                        demands.push(id.clone());
                        proof {
                            assert(forall|j: int|
                                0 <= j < prevd.len() ==> #[trigger] demands.deep_view()[j]
                                    == prevd[j]);
                            assert(demands.deep_view() =~= prevd.push(id@));
                        }
                    },
                    None => {},
                }
                entry.state = SubscriptionState::Closing;
                self.subs.insert(i, entry);
                proof {
                    assert(self@ =~= pre.update(i as int, closing_one(orig[i as int])));
                    assert(forall|j: int| 0 <= j < i ==> self@[j] == closing_one(orig[j]));
                    assert(forall|j: int| i < j < n ==> self@[j] == orig[j]);
                }
            }
            proof {
                assert(offers.deep_view() =~= offer_legs(orig.take(i + 1)));
                assert(demands.deep_view() =~= demand_legs(orig.take(i + 1)));
            }
            i = i + 1;
        }
        proof {
            assert(orig.take(n as int) == orig);
            assert(final(self)@ =~= Seq::new(orig.len(), |i: int| closing_one(orig[i])));
            assert forall|a: int, b: int|
                0 <= a < b < final(self)@.len() && !(final(self)@[a].state is Closed) && !(final(self)@[b].state is Closed) implies final(self)@[a].group != final(self)@[b].group by {
                assert(final(self)@[a] == closing_one(orig[a]));
                assert(final(self)@[b] == closing_one(orig[b]));
            }
        }
        (offers, demands)
    }

    /// Finishes shutdown after the best-effort releases: everything
    /// that was closing is closed.  Release failures were logged
    /// outside and change nothing here.
    pub fn finish_shutdown(&mut self)
        requires
            old(self).wf(),
        ensures
            final(self).wf(),
            final(self)@ == Seq::new(old(self)@.len(), |i: int| closed_one(old(self)@[i])),
    {
        let ghost orig = self@;
        let n = self.subs.len();
        assert(n == orig.len());
        let mut i: usize = 0;
        while i < n
            invariant
                n == self.subs.len(),
                n == orig.len(),
                self@.len() == orig.len(),
                i <= n,
                forall|j: int| 0 <= j < i ==> self@[j] == closed_one(orig[j]),
                forall|j: int| i <= j < n ==> self@[j] == orig[j],
            decreases n - i,
        {
            proof {
                assert(self@[i as int] == self.subs@[i as int].deep_view());
            }
            let closing = match self.subs[i].state {
                SubscriptionState::Closing => true,
                _ => false,
            };
            let ghost pre = self@;
            if closing {
                let mut entry = self.subs.remove(i);
                entry.state = SubscriptionState::Closed;
                self.subs.insert(i, entry);
                proof {
                    assert(self@ =~= pre.update(i as int, closed_one(orig[i as int])));
                    assert(forall|j: int| 0 <= j < i ==> self@[j] == closed_one(orig[j]));
                    assert(forall|j: int| i < j < n ==> self@[j] == orig[j]);
                }
            }
            i = i + 1;
        }
        proof {
            assert(final(self)@ =~= Seq::new(orig.len(), |i: int| closed_one(orig[i])));
            assert forall|a: int, b: int|
                0 <= a < b < final(self)@.len() && !(final(self)@[a].state is Closed) && !(final(self)@[b].state is Closed) implies final(self)@[a].group != final(self)@[b].group by {
                assert(final(self)@[a] == closed_one(orig[a]));
                assert(final(self)@[b] == closed_one(orig[b]));
            }
        }
    }
}

/// What the polling loop must do next with one subscription.
pub enum PollAction {
    /// The poll succeeded: dispatch these appearance events, then go
    /// on to the next subscription.
    Dispatch(Vec<NewUser>),
    /// The poll failed: log it, wait this many seconds, and poll the
    /// same subscription again.
    Backoff(u64),
}

impl Discovery {
    /// Decides what one poll result means for the subscription at
    /// `index`.  A failure is never fatal and never removes the
    /// subscription: the answer is a fixed backoff and another try.  A
    /// success turns the batch into appearance events for dispatch.
    pub fn handle_poll(
        &self,
        index: usize,
        outcome: Result<Vec<Proposal>, DiscoveryError>,
    ) -> (r: PollAction)
        requires
            index < self@.len(),
            self@[index as int].state is Active,
        ensures
            match outcome {
                Ok(batch) => r matches PollAction::Dispatch(events) && events.deep_view()
                    == appearances(
                    self@[index as int].me,
                    self@[index as int].group,
                    batch.deep_view(),
                ),
                Err(_) => r matches PollAction::Backoff(secs) && secs == POLL_BACKOFF_SECS,
            },
    {
        match outcome {
            Err(_) => PollAction::Backoff(POLL_BACKOFF_SECS),
            Ok(batch) => {
                proof {
                    assert(self@[index as int] == self.subs@[index as int].deep_view());
                }
                let sub = &self.subs[index];
                PollAction::Dispatch(process_batch(sub.me.as_str(), sub.group.as_str(), batch))
            },
        }
    }
}

/// What a string looks like as a JSON string literal, quotes included.
pub uninterp spec fn json_string_of(s: Seq<char>) -> Seq<char>;

/// Relies on serde_json's `to_string`: a string slice serializes to
/// its JSON string literal, and serializing a string cannot fail.
#[verifier::external_body]
fn json_quote(s: &str) -> (r: String)
    ensures
        r@ == json_string_of(s@),
{
    // serializing a string slice cannot fail, so the fallback arm is
    // dead; it only keeps the body total without a panic path
    match serde_json::to_string(s) {
        Ok(r) => r,
        Err(_) => String::new(),
    }
}

/// The two texts a join publishes under: the property object naming
/// our display name and the group, and the constraint that matches
/// peers of the same group.
pub fn discovery_properties(me: &str, group: &str) -> (r: (String, String))
    ensures
        r.0@ == "{\"yachat.talk.me\":"@ + json_string_of(me@) + ",\"yachat.talk.group\":"@
            + json_string_of(group@) + "}"@,
        r.1@ == "(yachat.talk.group="@ + group@ + ")"@,
{
    let quoted_me = json_quote(me);
    let quoted_group = json_quote(group);
    let mut props = String::new();
    props.append("{\"yachat.talk.me\":");
    props.append(quoted_me.as_str());
    props.append(",\"yachat.talk.group\":");
    props.append(quoted_group.as_str());
    props.append("}");
    let mut cons = String::new();
    cons.append("(yachat.talk.group=");
    cons.append(group);
    cons.append(")");
    proof {
        assert(props@ =~= "{\"yachat.talk.me\":"@ + json_string_of(me@)
            + ",\"yachat.talk.group\":"@ + json_string_of(group@) + "}"@);
        assert(cons@ =~= "(yachat.talk.group="@ + group@ + ")"@);
    }
    (props, cons)
}

} // verus!

//! The node: a state machine fed with events.
use crate::messages::Action;
use crate::messages::Config;
use crate::messages::Denied;
use crate::messages::LeaseRequest;
use crate::messages::LeaseResponse;
use crate::messages::Limit;
use crate::messages::RequestItem;
use crate::messages::ResponseItem;
use crate::messages::Stats;
use crate::node::LeaseState;
use crate::node::backoff;
use crate::node::ever_given;
use crate::node::playing;
use crate::node::released;
use crate::node::releasing;
use crate::node::reporting;
use crate::order::ascending;
use crate::order::copy_of;
use crate::order::copy_of_option;
use crate::order::holds;
use crate::order::in_order;
use crate::order::keys_of;
use crate::order::lawful;
use crate::order::lemma_filter_push;
use crate::order::lemma_in_order;
use crate::order::lemma_iter;
use crate::order::lemma_to_set_push;
use crate::order::names_in;
use crate::order::same;
use crate::quota::Quota;
use crate::quota::QuotaState;
use crate::quota::lemma_lent_less;
use crate::quota::lemma_lent_without;
use std::collections::BTreeMap;
use std::collections::BTreeSet;
use vstd::arithmetic::power2::lemma2_to64;
use vstd::arithmetic::power2::lemma_pow2_pos;
use vstd::arithmetic::power2::lemma_pow2_strictly_increases;
use vstd::bits::lemma_u64_shl_is_mul;
use vstd::prelude::*;

verus! {

// ------------------------------------------------------------ every limit at once

/// What the limits in memory stand for.
spec fn states<Id: Ord + Clone, K>(m: Map<K, Quota<Id>>) -> Map<K, QuotaState<Id>> {
    Map::new(|k: K| m.contains_key(k), |k: K| m[k]@)
}

/// Every limit is as it should be.
spec fn sound<Id, K>(m: Map<K, QuotaState<Id>>) -> bool {
    &&& m.dom().finite()
    &&& forall|k: K| #[trigger] m.contains_key(k) ==> m[k].inv()
}

/// Something that happens to every limit.
enum Change<Id> {
    Hold,
    LetGo,
    StartOver,
    Forget(Id),
    Tick(u64, u64, bool),
}

/// What a change makes of one limit.
spec fn makes<Id>(change: Change<Id>, q: QuotaState<Id>) -> QuotaState<Id> {
    match change {
        Change::Hold => q.held(),
        Change::LetGo => q.let_go(),
        Change::StartOver => QuotaState { refusals: 0, ..q.let_go() },
        Change::Forget(c) => q.without(Set::empty().insert(c)),
        Change::Tick(now, n, leader) => q.ticked(now, n, leader),
    }
}

/// Whether the parent should hear of it.
spec fn tells<Id>(change: Change<Id>, q: QuotaState<Id>) -> bool {
    match change {
        Change::Forget(c) => q.children.contains_key(c),
        Change::Tick(now, n, leader) => q.tick_changes(now, n, leader),
        _ => false,
    }
}

fn apply<Id: Ord + Clone>(q: &mut Quota<Id>, change: &Change<Id>) -> (r: bool)
    requires
        lawful::<Id>(),
        old(q)@.inv(),
    ensures
        final(q)@ == makes(*change, old(q)@),
        final(q)@.inv(),
        r == tells(*change, old(q)@),
{
    match change {
        Change::Hold => {
            q.hold_limit();
            false
        },
        Change::LetGo => {
            q.let_go();
            false
        },
        Change::StartOver => {
            q.start_over();
            false
        },
        Change::Forget(c) => q.forget(c),
        Change::Tick(now, n, leader) => q.tick(*now, *n, *leader),
    }
}

/// Make a change to every limit. Whether the parent should hear of it.
fn apply_all<Id: Ord + Clone, K: Ord + Clone>(
    quotas: &mut BTreeMap<K, Quota<Id>>,
    change: &Change<Id>,
) -> (r: bool)
    requires
        lawful::<Id>(),
        lawful::<K>(),
        sound(states(old(quotas)@)),
    ensures
        sound(states(final(quotas)@)),
        states(final(quotas)@) == Map::new(
            |k: K| states(old(quotas)@).contains_key(k),
            |k: K| makes(*change, states(old(quotas)@)[k]),
        ),
        r == exists|k: K| #[trigger]
            states(old(quotas)@).contains_key(k) && tells(*change, states(old(quotas)@)[k]),
{
    let keys = keys_of(quotas);
    let ghost start = states(quotas@);
    let mut any: bool = false;
    proof {
        lemma_in_order(quotas@.dom());
        assert(start.dom() =~= quotas@.dom());
    }
    for i in 0..keys.len()
        invariant
            lawful::<Id>(),
            lawful::<K>(),
            keys@ == in_order(start.dom()),
            keys@.no_duplicates(),
            forall|j: int| 0 <= j < keys@.len() ==> start.contains_key(#[trigger] keys@[j]),
            sound(start),
            quotas@.dom() == start.dom(),
            forall|j: int|
                0 <= j < keys@.len() ==> quotas@[#[trigger] keys@[j]]@ == if j < i {
                    makes(*change, start[keys@[j]])
                } else {
                    start[keys@[j]]
                },
            forall|j: int| 0 <= j < i ==> quotas@[#[trigger] keys@[j]]@.inv(),
            any == exists|j: int| 0 <= j < i && tells(*change, start[#[trigger] keys@[j]]),
    {
        let ghost was = quotas@;
        let ghost key = keys@[i as int];
        assert(start.contains_key(key));
        if let Some(taken) = quotas.remove(&keys[i]) {
            let mut q = taken;
            let told = apply(&mut q, change);
            quotas.insert(copy_of(&keys[i]), q);
            if told {
                any = true;
            }
            proof {
                assert(quotas@ =~= was.insert(key, q));
                assert(quotas@.dom() =~= start.dom());
                assert forall|j: int| 0 <= j < keys@.len() implies quotas@[#[trigger] keys@[j]]@
                    == if j < i + 1 {
                    makes(*change, start[keys@[j]])
                } else {
                    start[keys@[j]]
                } by {
                    if j != i {
                        assert(keys@[j] != key);
                    }
                }
                assert forall|j: int| 0 <= j < i + 1 implies quotas@[#[trigger] keys@[j]]@.inv() by {
                    if j != i {
                        assert(keys@[j] != key);
                    }
                }
            }
        }
    }
    proof {
        let want = Map::new(|k: K| start.contains_key(k), |k: K| makes(*change, start[k]));
        assert forall|k: K| start.contains_key(k) implies quotas@[k]@ == makes(*change, start[k])
            && quotas@[k]@.inv() by {
            assert(keys@.contains(k));
            let j = choose|j: int| 0 <= j < keys@.len() && keys@[j] == k;
        }
        assert(states(quotas@) =~= want);
        if exists|k: K| #[trigger] start.contains_key(k) && tells(*change, start[k]) {
            let k = choose|k: K| #[trigger] start.contains_key(k) && tells(*change, start[k]);
            assert(keys@.contains(k));
            let j = choose|j: int| 0 <= j < keys@.len() && keys@[j] == k;
            assert(tells(*change, start[keys@[j]]));
        }
    }
    any
}

// ------------------------------------------------------------ forgetting, step by step

proof fn lemma_forget_none<Id, K: Ord>(s: LeaseState<Id, K>)
    ensures
        s.forgetting(Set::empty()) == s,
{
    assert forall|k: K| #[trigger] s.quotas.contains_key(k) implies s.quotas[k].without(
        Set::empty(),
    ) == s.quotas[k] by {
        assert(s.quotas[k].without(Set::empty()).children =~= s.quotas[k].children);
        assert(s.quotas[k].without(Set::empty()) =~= s.quotas[k]);
    }
    assert(s.forgetting(Set::empty()).quotas =~= s.quotas);
    assert(s.forgetting(Set::empty()) =~= s);
}

proof fn lemma_forget_more<Id, K: Ord>(s: LeaseState<Id, K>, a: Set<Id>, b: Set<Id>)
    ensures
        s.forgetting(a).forgetting(b) == s.forgetting(a.union(b)),
{
    let t = s.forgetting(a);
    let ab = a.union(b);
    assert forall|k: K| #[trigger] s.quotas.contains_key(k) implies t.quotas[k].without(b)
        == s.quotas[k].without(ab) by {
        assert(t.quotas[k].without(b).children =~= s.quotas[k].without(ab).children);
        assert(t.quotas[k].without(b) =~= s.quotas[k].without(ab));
    }
    assert(t.forgetting(b).quotas =~= s.forgetting(ab).quotas);
    if exists|k: K, c: Id| #[trigger]
        s.quotas.contains_key(k) && #[trigger] ab.contains(c)
            && s.quotas[k].children.contains_key(c) {
        let (k, c) = choose|k: K, c: Id| #[trigger]
            s.quotas.contains_key(k) && #[trigger] ab.contains(c)
                && s.quotas[k].children.contains_key(c);
        if a.contains(c) {
            assert(t.dirty);
        } else {
            assert(t.quotas.contains_key(k) && b.contains(c));
            assert(t.quotas[k].children.contains_key(c));
        }
    }
    if exists|k: K, c: Id| #[trigger]
        s.quotas.contains_key(k) && #[trigger] a.contains(c)
            && s.quotas[k].children.contains_key(c) {
        let (k, c) = choose|k: K, c: Id| #[trigger]
            s.quotas.contains_key(k) && #[trigger] a.contains(c)
                && s.quotas[k].children.contains_key(c);
        assert(ab.contains(c));
    }
    if exists|k: K, c: Id| #[trigger]
        t.quotas.contains_key(k) && #[trigger] b.contains(c)
            && t.quotas[k].children.contains_key(c) {
        let (k, c) = choose|k: K, c: Id| #[trigger]
            t.quotas.contains_key(k) && #[trigger] b.contains(c)
                && t.quotas[k].children.contains_key(c);
        assert(ab.contains(c));
        assert(s.quotas.contains_key(k));
    }
    assert(t.forgetting(b) =~= s.forgetting(ab));
}

proof fn lemma_child_kept<Id, K: Ord>(s: LeaseState<Id, K>, done: Set<Id>, c: Id)
    ensures
        s.with_down(done).has_child(c) == (s.has_child(c) && !done.contains(c)),
{
    let t = s.with_down(done);
    let gone = s.children().intersect(done);
    if t.has_child(c) {
        let k = choose|k: K| #[trigger] t.quotas.contains_key(k) && t.quotas[k].has_child(c);
        assert(s.quotas.contains_key(k) && s.quotas[k].has_child(c));
        assert(s.has_child(c));
        assert(!gone.contains(c));
    }
    if s.has_child(c) && !done.contains(c) {
        let k = choose|k: K| #[trigger] s.quotas.contains_key(k) && s.quotas[k].has_child(c);
        assert(t.quotas.contains_key(k) && t.quotas[k].has_child(c));
    }
}

// ------------------------------------------------------------ what an event leaves alone

proof fn lemma_served_all_frame<Id: Ord, K: Ord>(
    s: LeaseState<Id, K>,
    from: Id,
    items: Seq<RequestItem<K>>,
)
    ensures
        s.served_all(from, items).term == s.term,
        s.served_all(from, items).leader == s.leader,
        s.served_all(from, items).now == s.now,
    decreases items.len(),
{
    if items.len() > 0 {
        lemma_served_all_frame(s, from, items.drop_last());
    }
}

proof fn lemma_leader_ticked<Id: Ord + Clone>(q: QuotaState<Id>, now: u64, n: u64)
    requires
        q.inv(),
        q.lent() <= q.share(),
    ensures
        q.ticked(now, n, true).lent() <= q.ticked(now, n, true).share(),
{
    let r = q.refilled(now, n);
    let after = r.children_lapsed(now, true).children;
    assert(after.dom() =~= r.children.dom());
    lemma_lent_less(r.children, after);
}

/// The same limits with the same buckets, on the same node at the same time.
spec fn alike<Id, K>(a: LeaseState<Id, K>, b: LeaseState<Id, K>) -> bool {
    &&& a.me == b.me
    &&& a.leader == b.leader
    &&& a.now == b.now
    &&& a.quotas.dom() == b.quotas.dom()
    &&& forall|k: K| #[trigger]
        a.quotas.contains_key(k) ==> a.quotas[k].tokens == b.quotas[k].tokens
            && a.quotas[k].valid_until == b.quotas[k].valid_until
}

/// A list of names with numbers as a map: of a name listed twice, the last number counts.
pub open spec fn listed<Id>(list: Seq<(Id, u64)>) -> Map<Id, u64>
    decreases list.len(),
{
    if list.len() == 0 {
        Map::empty()
    } else {
        listed(list.drop_last()).insert(list.last().0, list.last().1)
    }
}

// ------------------------------------------------------------ the node

/// One node's lease state, for every limit.
pub struct Lease<Id: Ord + Clone, K: Ord + Clone> {
    me: Id,
    cfg: Config,
    now: u64,
    term: u64,
    leader: Option<Id>,
    members: BTreeSet<Id>,
    down: BTreeSet<Id>,
    parent: Option<Id>,
    parent_misses: u32,
    quotas: BTreeMap<K, Quota<Id>>,
    weights: BTreeMap<Id, u64>,
    dirty: bool,
    last_call: u64,
    /// The `sent` of the last call the parent has not answered, and how many times it has been
    /// re-sent: a call is retried until answered, keepalive or not, or one lost keepalive would
    /// lapse the share.
    awaiting: Option<u64>,
    unanswered: u32,
    /// The `in_reply_to` of the last answer applied: `given` is adopted from answers in order,
    /// so an older answer cannot undo a newer gift.
    accepted: u64,
    outbound: Vec<Action<Id, K>>,
}

impl<Id: Ord + Clone, K: Ord + Clone> View for Lease<Id, K> {
    type V = LeaseState<Id, K>;

    closed spec fn view(&self) -> LeaseState<Id, K> {
        LeaseState {
            me: self.me,
            ttl: self.cfg.ttl,
            now: self.now,
            term: self.term,
            leader: self.leader,
            members: self.members@,
            down: self.down@,
            parent: self.parent,
            parent_misses: self.parent_misses,
            quotas: states(self.quotas@),
            weights: self.weights@,
            dirty: self.dirty,
            last_call: self.last_call,
            awaiting: self.awaiting,
            unanswered: self.unanswered,
            accepted: self.accepted,
            outbound: self.outbound@.map_values(|a: Action<Id, K>| a@),
        }
    }
}

impl<Id: Ord + Clone, K: Ord + Clone> Lease<Id, K> {
    /// What holds of a node at all times.
    pub open spec fn inv(&self) -> bool {
        &&& lawful::<Id>()
        &&& lawful::<K>()
        &&& self@.inv()
    }

    /// A new node. It holds nothing until the leader lends to it, or until it is the leader.
    pub fn new(me: Id, cfg: Config) -> (r: Self)
        requires
            lawful::<Id>(),
            lawful::<K>(),
        ensures
            r.inv(),
            r@ == LeaseState::<Id, K>::fresh(me, cfg.ttl),
    {
        let r = Lease {
            me,
            cfg,
            now: 0,
            term: 0,
            leader: None,
            members: BTreeSet::new(),
            down: BTreeSet::new(),
            parent: None,
            parent_misses: 0,
            quotas: BTreeMap::new(),
            weights: BTreeMap::new(),
            dirty: false,
            last_call: 0,
            awaiting: None,
            unanswered: 0,
            accepted: 0,
            outbound: Vec::new(),
        };
        assert(r@ =~= LeaseState::<Id, K>::fresh(me, cfg.ttl));
        r
    }

    // ------------------------------------------------------------ configuration

    /// Add or change a limit. On the leader, the share becomes the whole rate at once.
    pub fn set_limit(&mut self, key: K, limit: Limit) -> (woke: bool)
        requires
            old(self).inv(),
        ensures
            final(self).inv(),
            final(self)@ == old(self)@.with_limit(key, limit),
            woke == old(self)@.wakes(final(self)@),
    {
        let ghost s = self@;
        let was_empty = self.outbound.is_empty();
        let leader = self.is_leader();
        let mut q = match self.quotas.remove(&key) {
            Some(q) => {
                assert(s.quotas.contains_key(key));
                q
            },
            None => Quota::new(limit),
        };
        q.set_limit(limit);
        if leader {
            q.hold_limit();
        }
        self.quotas.insert(key, q);
        proof {
            assert(self@.quotas =~= s.with_limit(key, limit).quotas);
            assert(self@ =~= s.with_limit(key, limit));
        }
        self.woke(was_empty)
    }

    /// Drop a limit: hand its share back to the parent and forget it. With nothing left in
    /// play, nothing more goes on the wire.
    pub fn remove_limit(&mut self, key: &K) -> (woke: bool)
        requires
            old(self).inv(),
        ensures
            final(self).inv(),
            final(self)@ == old(self)@.without_limit(*key),
            woke == old(self)@.wakes(final(self)@),
    {
        let ghost s = self@;
        let was_empty = self.outbound.is_empty();
        if let Some(q) = self.quotas.remove(key) {
            proof {
                assert(s.quotas.contains_key(*key));
                assert(self@.quotas =~= s.quotas.remove(*key));
            }
            if self.parent.is_some() && q.total_given() > 0 {
                let given = q.total_given();
                let mut items: Vec<RequestItem<K>> = Vec::new();
                items.push(
                    RequestItem {
                        key: copy_of(key),
                        given,
                        returned: given,
                        needed: 0,
                        wanted: 0,
                    },
                );
                assert(items@ =~= seq![released(*key, given)]);
                self.send_to_parent(items);
            }
        } else {
            proof {
                assert(!s.quotas.contains_key(*key));
                assert(self@.quotas =~= s.quotas.remove(*key));
            }
        }
        assert(self@ =~= s.without_limit(*key));
        self.woke(was_empty)
    }

    // ------------------------------------------------------------ the cluster

    /// The cluster's members, its leader, and the term, as the caller's Raft shows them. Call
    /// it on every change; `members` may be omitted when only the leader changed. A term older
    /// than the current one is ignored.
    pub fn set_cluster_view(&mut self, members: Option<&[Id]>, leader: Id, term: u64) -> (woke:
        bool)
        requires
            old(self).inv(),
        ensures
            final(self).inv(),
            final(self)@ == (match members {
                Some(m) => old(self)@.with_members(m@.to_set()),
                None => old(self)@,
            }).with_leader(leader, term),
            woke == old(self)@.wakes(final(self)@),
    {
        let was_empty = self.outbound.is_empty();
        if let Some(m) = members {
            self.set_members(m);
        }
        self.set_leader(leader, term);
        self.woke(was_empty)
    }

    /// Take the members: forget the children and the parent that are not among them.
    fn set_members(&mut self, members: &[Id])
        requires
            old(self).inv(),
        ensures
            final(self).inv(),
            final(self)@ == old(self)@.with_members(members@.to_set()),
    {
        let ghost s = self@;
        let ghost m = members@.to_set();
        self.members = names_in(members);
        let children = self.children();
        let ghost start = self@;
        let ghost done = Set::<Id>::empty();
        proof {
            lemma_forget_none(start);
        }
        for i in 0..children.len()
            invariant
                self.inv(),
                start == (LeaseState { members: m, ..s }),
                self@ == start.forgetting(done),
                self.members@ == m,
                done == children@.take(i as int).to_set().difference(m),
        {
            let ghost c = children@[i as int];
            proof {
                assert(children@.take(i + 1) =~= children@.take(i as int).push(c));
                lemma_to_set_push(children@.take(i as int), c);
            }
            if !self.members.contains(&children[i]) {
                proof {
                    lemma_forget_more(start, done, Set::empty().insert(c));
                    let more = done.union(Set::empty().insert(c));
                    assert(children@.take(i + 1).to_set().difference(m) =~= more);
                    done = more;
                }
                self.forget_child(&children[i]);
            } else {
                assert(children@.take(i + 1).to_set().difference(m) =~= done);
            }
        }
        proof {
            assert(children@.take(children@.len() as int) =~= children@);
            assert(children@.to_set() =~= s.children());
        }
        let gone = match &self.parent {
            Some(p) => !self.members.contains(p),
            None => false,
        };
        if gone {
            self.parent = None;
        }
        assert(self@ =~= s.with_members(m));
    }

    /// Take news of the leader.
    fn set_leader(&mut self, leader: Id, term: u64)
        requires
            old(self).inv(),
        ensures
            final(self).inv(),
            final(self)@ == old(self)@.with_leader(leader, term),
    {
        let ghost s = self@;
        if term < self.term {
            return ;
        }
        let changed = term > self.term || !holds(&self.leader, &leader);
        if !changed {
            self.term = term;
            self.leader = Some(leader);
            assert(self@ =~= s.with_leader(leader, term));
            return ;
        }
        let was_leader = self.is_leader();
        let leads = same(&leader, &self.me);
        let leader_changed = !holds(&self.leader, &leader);
        let under_old = match (&self.parent, &self.leader) {
            (Some(p), Some(l)) => same(p, l),
            _ => false,
        };
        self.term = term;
        self.leader = Some(leader);
        if leads && !was_leader {
            self.crown();
        } else if !leads && was_leader {
            self.demote();
        } else if leader_changed && under_old {
            // The old leader is most likely gone: a node under it takes the first upstream it
            // is offered rather than waiting for two deliveries.
            self.parent = None;
            self.parent_misses = 0;
        }
        // A new term: call now, so the new tree books what we hold.
        self.dirty = true;
        assert(self@ =~= s.with_leader(leader, term));
    }

    /// `peer` just delivered the leader's traffic: it is on a live path to the leader. Taken as
    /// parent if we have none, or if the current parent missed the last two deliveries; never
    /// if it is our own child.
    pub fn set_upstream(&mut self, peer: Id) -> (woke: bool)
        requires
            old(self).inv(),
        ensures
            final(self).inv(),
            final(self)@ == old(self)@.with_upstream(peer),
            woke == old(self)@.wakes(final(self)@),
    {
        let was_empty = self.outbound.is_empty();
        if self.is_leader() || same(&peer, &self.me) {
            return false;
        }
        if holds(&self.parent, &peer) {
            self.parent_misses = 0;
            return false;
        }
        self.parent_misses = self.parent_misses.saturating_add(1);
        if self.parent.is_some() && self.parent_misses < 2 {
            return false;
        }
        if self.has_child(&peer) {
            return false;
        }
        self.reparent(peer);
        self.woke(was_empty)
    }

    /// The children's weights for a split: each one's subtree size, from the same view the tree
    /// was computed from ([`tree::weights`](crate::tree::weights)). A child not listed weighs
    /// one; of a child listed twice, the last weight counts.
    pub fn set_weights(&mut self, weights: &[(Id, u64)])
        requires
            old(self).inv(),
        ensures
            final(self).inv(),
            final(self)@ == (LeaseState { weights: listed(weights@), ..old(self)@ }),
    {
        let mut map: BTreeMap<Id, u64> = BTreeMap::new();
        for i in 0..weights.len()
            invariant
                lawful::<Id>(),
                map@ == listed(weights@.take(i as int)),
        {
            map.insert(copy_of(&weights[i].0), weights[i].1);
            assert(weights@.take(i + 1).drop_last() =~= weights@.take(i as int));
        }
        assert(weights@.take(weights@.len() as int) =~= weights@);
        self.weights = map;
    }

    /// The parent is known exactly -- computed from a cluster view every node shares, say -- so
    /// take `peer` as parent now, with none of [`set_upstream`](Lease::set_upstream)'s
    /// hysteresis. A peer that was our child stops being one first, so a reordering that swaps a
    /// parent and a child cannot make a cycle. Nothing to do for the leader, for ourselves, or
    /// for the parent we already have.
    pub fn set_parent(&mut self, peer: Id) -> (woke: bool)
        requires
            old(self).inv(),
        ensures
            final(self).inv(),
            final(self)@ == old(self)@.with_parent(peer),
            woke == old(self)@.wakes(final(self)@),
    {
        let was_empty = self.outbound.is_empty();
        if self.is_leader() || same(&peer, &self.me) || holds(&self.parent, &peer) {
            self.parent_misses = 0;
            return false;
        }
        if self.has_child(&peer) {
            self.forget_child(&peer);
        }
        self.reparent(peer);
        self.woke(was_empty)
    }

    /// `peers` are unreachable. A child among them is lapsed at once; a parent among them is
    /// left, and the next delivery picks a new one.
    pub fn down(&mut self, peers: &[Id]) -> (woke: bool)
        requires
            old(self).inv(),
        ensures
            final(self).inv(),
            final(self)@ == old(self)@.with_down(peers@.to_set()),
            !woke,
    {
        let ghost s = self@;
        proof {
            assert(peers@.take(0).to_set() =~= Set::<Id>::empty());
            lemma_forget_none(s);
            assert(s.children().intersect(Set::<Id>::empty()) =~= Set::<Id>::empty());
            assert(self@ =~= s.with_down(Set::<Id>::empty()));
        }
        for i in 0..peers.len()
            invariant
                self.inv(),
                self@ == s.with_down(peers@.take(i as int).to_set()),
        {
            let ghost done = peers@.take(i as int).to_set();
            let ghost c = peers@[i as int];
            let ghost before = self@;
            proof {
                assert(peers@.take(i + 1) =~= peers@.take(i as int).push(c));
                lemma_to_set_push(peers@.take(i as int), c);
                lemma_child_kept(s, done, c);
            }
            self.down.insert(copy_of(&peers[i]));
            if self.has_child(&peers[i]) {
                self.forget_child(&peers[i]);
            }
            if holds(&self.parent, &peers[i]) {
                self.parent = None;
                self.parent_misses = 0;
            }
            proof {
                let start = LeaseState { down: s.down.union(done.insert(c)), ..s };
                let gone = s.children().intersect(done);
                let more = s.children().intersect(done.insert(c));
                if before.has_child(c) {
                    lemma_forget_more(start, gone, Set::empty().insert(c));
                    assert(gone.union(Set::empty().insert(c)) =~= more);
                } else {
                    assert(gone =~= more);
                }
                assert(s.down.union(done).insert(c) =~= s.down.union(done.insert(c)));
                assert(self@ =~= s.with_down(done.insert(c)));
            }
        }
        assert(peers@.take(peers@.len() as int) =~= peers@);
        false
    }

    /// `peers` are reachable again. They re-attach by themselves.
    pub fn up(&mut self, peers: &[Id]) -> (woke: bool)
        requires
            old(self).inv(),
        ensures
            final(self).inv(),
            final(self)@ == (LeaseState {
                down: old(self)@.down.difference(peers@.to_set()),
                ..old(self)@
            }),
            !woke,
    {
        let ghost s = self@;
        assert(s.down.difference(peers@.take(0).to_set()) =~= s.down);
        for i in 0..peers.len()
            invariant
                self.inv(),
                self@ == (LeaseState {
                    down: s.down.difference(peers@.take(i as int).to_set()),
                    ..s
                }),
        {
            proof {
                assert(peers@.take(i + 1) =~= peers@.take(i as int).push(peers@[i as int]));
                lemma_to_set_push(peers@.take(i as int), peers@[i as int]);
                assert(s.down.difference(peers@.take(i as int).to_set()).remove(peers@[i as int])
                    =~= s.down.difference(peers@.take(i + 1).to_set()));
            }
            self.down.remove(&peers[i]);
        }
        assert(peers@.take(peers@.len() as int) =~= peers@);
        false
    }

    // ------------------------------------------------------------ the protocol

    /// A child's call. Book what it returned, work out its entitlement, give or cut, and answer
    /// with the edge's counters.
    pub fn on_request(&mut self, from: Id, req: LeaseRequest<Id, K>) -> (resp: LeaseResponse<
        Id,
        K,
    >)
        requires
            old(self).inv(),
        ensures
            final(self).inv(),
            final(self)@ == old(self)@.after_request(from, req@),
            resp@ == old(self)@.response(from, req@),
    {
        self.hear(&req.leader, req.term);
        let ghost s = self@;
        let mut items: Vec<ResponseItem<K>> = Vec::new();
        for i in 0..req.items.len()
            invariant
                self.inv(),
                self@ == s.served_all(from, req.items@.take(i as int)),
                self@.quotas.dom() == s.quotas.dom(),
                items@ == s.answers(from, req.items@.take(i as int)),
        {
            proof {
                let done = req.items@.take(i + 1);
                assert(done.drop_last() =~= req.items@.take(i as int));
                assert(done.last() == req.items@[i as int]);
                assert(self@.quotas.contains_key(done.last().key) == s.quotas.contains_key(
                    done.last().key,
                ));
            }
            if let Some((given, returned)) = self.serve(&from, &req.items[i]) {
                items.push(ResponseItem { key: copy_of(&req.items[i].key), given, returned });
            }
        }
        assert(req.items@.take(req.items@.len() as int) =~= req.items@);
        let resp = LeaseResponse {
            term: self.term,
            leader: copy_of_option(&self.leader),
            in_reply_to: req.sent,
            sent: self.now,
            items,
        };
        proof {
            lemma_served_all_frame(s, from, req.items@);
        }
        resp
    }

    /// Serve one item of a child's call: the edge's counters, if the limit is configured here.
    fn serve(&mut self, from: &Id, it: &RequestItem<K>) -> (r: Option<(u64, u64)>)
        requires
            old(self).inv(),
        ensures
            final(self).inv(),
            final(self)@ == old(self)@.served(*from, *it),
            final(self)@.quotas.dom() == old(self)@.quotas.dom(),
            match r {
                None => !old(self)@.quotas.contains_key(it.key),
                Some((given, returned)) => {
                    &&& old(self)@.quotas.contains_key(it.key)
                    &&& given == final(self)@.quotas[it.key].children[*from].given
                    &&& returned == final(self)@.quotas[it.key].children[*from].returned
                },
            },
    {
        let ghost s = self@;
        let can_ask = self.parent.is_some();
        match self.quotas.remove(&it.key) {
            None => {
                proof {
                    assert(!s.quotas.contains_key(it.key));
                    assert(self@.quotas =~= s.quotas);
                    assert(self@ =~= s);
                }
                None
            },
            Some(taken) => {
                let mut q = taken;
                assert(s.quotas.contains_key(it.key));
                let more = q.returns_more(from, it.returned);
                proof {
                    s.quotas[it.key].lemma_served(
                        *from,
                        *it,
                        self.weights@,
                        self.now,
                        self.cfg.ttl,
                        can_ask,
                    );
                }
                let counters = q.serve(from, it, &self.weights, self.now, self.cfg.ttl, can_ask);
                self.quotas.insert(copy_of(&it.key), q);
                if more {
                    self.dirty = true;
                }
                proof {
                    assert(self@.quotas =~= s.served(*from, *it).quotas);
                    assert(self@.quotas.dom() =~= s.quotas.dom());
                    assert(self@ =~= s.served(*from, *it));
                }
                Some(counters)
            },
        }
    }

    /// The answer to a call. Answers from anyone but the current parent only carry news of the
    /// term. `given` is adopted from answers in order; `returned` is merged by max.
    pub fn on_response(&mut self, from: Id, resp: LeaseResponse<Id, K>) -> (woke: bool)
        requires
            old(self).inv(),
        ensures
            final(self).inv(),
            final(self)@ == old(self)@.after_response(from, resp@),
            woke == old(self)@.wakes(final(self)@),
    {
        let was_empty = self.outbound.is_empty();
        self.hear(&resp.leader, resp.term);
        if !holds(&self.parent, &from) || resp.in_reply_to < self.accepted {
            return self.woke(was_empty);
        }
        self.accepted = resp.in_reply_to;
        let answered = match self.awaiting {
            Some(sent) => resp.in_reply_to >= sent,
            None => false,
        };
        if answered {
            self.awaiting = None;
            self.unanswered = 0;
        }
        let ghost s = self@;
        for i in 0..resp.items.len()
            invariant
                self.inv(),
                !self@.is_leader(),
                self@ == s.adopted_all(resp.items@.take(i as int), resp.in_reply_to),
        {
            proof {
                let done = resp.items@.take(i + 1);
                assert(done.drop_last() =~= resp.items@.take(i as int));
                assert(done.last() == resp.items@[i as int]);
            }
            self.adopt(&resp.items[i], resp.in_reply_to);
        }
        assert(resp.items@.take(resp.items@.len() as int) =~= resp.items@);
        self.woke(was_empty)
    }

    /// Adopt one item of the parent's answer to the call sent at `sent`.
    fn adopt(&mut self, it: &ResponseItem<K>, sent: u64)
        requires
            old(self).inv(),
            !old(self)@.is_leader(),
        ensures
            final(self).inv(),
            !final(self)@.is_leader(),
            final(self)@ == old(self)@.adopted(*it, sent),
    {
        let ghost s = self@;
        match self.quotas.remove(&it.key) {
            None => {
                proof {
                    assert(!s.quotas.contains_key(it.key));
                    assert(self@.quotas =~= s.quotas);
                    assert(self@ =~= s);
                }
            },
            Some(taken) => {
                let mut q = taken;
                assert(s.quotas.contains_key(it.key));
                let cut = q.adopt(it, sent, self.cfg.ttl);
                self.quotas.insert(copy_of(&it.key), q);
                if cut {
                    self.dirty = true;
                }
                proof {
                    assert(self@.quotas =~= s.adopted(*it, sent).quotas);
                    assert(self@ =~= s.adopted(*it, sent));
                }
            },
        }
    }

    /// Advance the clock by `n` ticks: refill the buckets, lapse children, drop lapsed shares,
    /// and call the parent when it is time.
    pub fn tick(&mut self, n: u64) -> (woke: bool)
        requires
            old(self).inv(),
        ensures
            final(self).inv(),
            final(self)@ == old(self)@.after_ticks(n),
            woke == old(self)@.wakes(final(self)@),
    {
        let ghost s = self@;
        let was_empty = self.outbound.is_empty();
        let leader = self.is_leader();
        self.now = self.now.saturating_add(n);
        let told = apply_all(&mut self.quotas, &Change::Tick(self.now, n, leader));
        if told {
            self.dirty = true;
        }
        proof {
            let now = self.now;
            assert(self@.quotas =~= s.elapsed(n).quotas);
            if told {
                let k = choose|k: K| #[trigger]
                    s.quotas.contains_key(k) && tells(
                        Change::<Id>::Tick(now, n, leader),
                        s.quotas[k],
                    );
                assert(s.quotas[k].tick_changes(now, n, leader));
            }
            if exists|k: K| #[trigger]
                s.quotas.contains_key(k) && s.quotas[k].tick_changes(now, n, leader) {
                let k = choose|k: K| #[trigger]
                    s.quotas.contains_key(k) && s.quotas[k].tick_changes(now, n, leader);
                assert(tells(Change::<Id>::Tick(now, n, leader), s.quotas[k]));
            }
            assert(self@ =~= s.elapsed(n));
            if leader {
                assert forall|k: K| #[trigger] self@.quotas.contains_key(k) implies self@.quotas[k].lent()
                    <= self@.quotas[k].share() by {
                    lemma_leader_ticked(s.quotas[k], now, n);
                }
            }
        }
        self.call_if_due();
        self.woke(was_empty)
    }

    /// Call the parent now if a call is due, without moving the clock: after an `acquire` that
    /// put a key in play, so the ask does not wait for the next tick.
    pub fn poke(&mut self) -> (woke: bool)
        requires
            old(self).inv(),
        ensures
            final(self).inv(),
            final(self)@ == old(self)@.poked(),
            woke == old(self)@.wakes(final(self)@),
    {
        let was_empty = self.outbound.is_empty();
        self.call_if_due();
        self.woke(was_empty)
    }

    /// Drain the outbound queue, in FIFO order.
    #[must_use]
    pub fn ready(&mut self) -> (r: Vec<Action<Id, K>>)
        requires
            old(self).inv(),
        ensures
            final(self).inv(),
            final(self)@ == (LeaseState { outbound: Seq::empty(), ..old(self)@ }),
            r@.map_values(|a: Action<Id, K>| a@) == old(self)@.outbound,
    {
        let mut out: Vec<Action<Id, K>> = Vec::new();
        std::mem::swap(&mut out, &mut self.outbound);
        assert(self@.outbound =~= Seq::empty());
        out
    }

    /// Whether the outbound queue holds anything.
    #[must_use]
    pub fn has_ready(&self) -> (r: bool)
        ensures
            r == (self@.outbound.len() > 0),
    {
        !self.outbound.is_empty()
    }

    // ------------------------------------------------------------ enforcement

    /// Draw `amount` tokens on each limit, all or none. A limit not configured is unlimited.
    /// Without a good share a node admits, and asks for one. A refusal, or a missing share, marks
    /// the limit wanted; the next tick asks.
    pub fn acquire(&mut self, keys: &[(K, u64)]) -> (r: Result<(), Denied<K>>)
        requires
            old(self).inv(),
        ensures
            final(self).inv(),
            final(self)@ == old(self)@.after_acquire(keys@),
            match r {
                Ok(_) => !old(self)@.denies(keys@),
                Err(d) => exists|i: int| #[trigger]
                    old(self)@.first_refused(keys@, i) && d.key == keys@[i].0 && d.available
                        == old(self)@.quotas[keys@[i].0].available(),
            },
    {
        let ghost s = self@;
        let mut denied: Option<Denied<K>> = None;
        for i in 0..keys.len()
            invariant
                self.inv(),
                self@ == s.marked_all(keys@.take(i as int)),
                alike(s, self@),
                match denied {
                    None => forall|j: int| 0 <= j < i ==> !#[trigger] s.refuses(keys@, j),
                    Some(d) => exists|j: int| #[trigger]
                        s.first_refused(keys@, j) && d.key == keys@[j].0 && d.available
                            == s.quotas[keys@[j].0].available(),
                },
        {
            proof {
                let done = keys@.take(i + 1);
                assert(done.drop_last() =~= keys@.take(i as int));
                assert(done.last() == keys@[i as int]);
            }
            let short = self.mark(&keys[i].0, keys[i].1);
            if let Some(available) = short {
                assert(s.refuses(keys@, i as int));
                if denied.is_none() {
                    assert(s.first_refused(keys@, i as int));
                    denied = Some(Denied { key: copy_of(&keys[i].0), available });
                }
            }
        }
        assert(keys@.take(keys@.len() as int) =~= keys@);
        if let Some(d) = denied {
            proof {
                let j = choose|j: int| #[trigger]
                    s.first_refused(keys@, j) && d.key == keys@[j].0 && d.available
                        == s.quotas[keys@[j].0].available();
                assert(s.refuses(keys@, j));
            }
            return Err(d);
        }
        let ghost t = self@;
        for i in 0..keys.len()
            invariant
                self.inv(),
                self@ == t.drawn_all(keys@.take(i as int)),
        {
            proof {
                let done = keys@.take(i + 1);
                assert(done.drop_last() =~= keys@.take(i as int));
                assert(done.last() == keys@[i as int]);
            }
            self.draw(&keys[i].0, keys[i].1);
        }
        Ok(())
    }

    /// Mark a limit wanted if a draw on it is short. What it has, if it refuses the draw.
    fn mark(&mut self, key: &K, amount: u64) -> (r: Option<u64>)
        requires
            old(self).inv(),
        ensures
            final(self).inv(),
            final(self)@ == old(self)@.marked(*key, amount),
            alike(old(self)@, final(self)@),
            match r {
                None => !(old(self)@.quotas.contains_key(*key) && old(self)@.good(*key)
                    && old(self)@.quotas[*key].available() < amount),
                Some(have) => {
                    &&& old(self)@.quotas.contains_key(*key)
                    &&& old(self)@.good(*key)
                    &&& have == old(self)@.quotas[*key].available()
                    &&& have < amount
                },
            },
    {
        let ghost s = self@;
        let leader = self.is_leader();
        match self.quotas.remove(key) {
            None => {
                proof {
                    assert(!s.quotas.contains_key(*key));
                    assert(self@.quotas =~= s.quotas);
                    assert(self@ =~= s);
                }
                None
            },
            Some(taken) => {
                let mut q = taken;
                assert(s.quotas.contains_key(*key));
                let good = leader || q.good_at(self.now);
                let have = q.available();
                if (!good || have < amount) && q.still_wanted() == 0 {
                    // A key newly in play is reported at once, so the parent books us.
                    self.dirty = true;
                }
                q.mark(amount, good);
                self.quotas.insert(copy_of(key), q);
                proof {
                    assert(self@.quotas =~= s.marked(*key, amount).quotas);
                    assert(self@ =~= s.marked(*key, amount));
                    assert(self@.quotas.dom() =~= s.quotas.dom());
                }
                if good && have < amount {
                    Some(have)
                } else {
                    None
                }
            },
        }
    }

    /// Draw on one limit.
    fn draw(&mut self, key: &K, amount: u64)
        requires
            old(self).inv(),
        ensures
            final(self).inv(),
            final(self)@ == old(self)@.drawn(*key, amount),
    {
        let ghost s = self@;
        let leader = self.is_leader();
        match self.quotas.remove(key) {
            None => {
                proof {
                    assert(!s.quotas.contains_key(*key));
                    assert(self@.quotas =~= s.quotas);
                    assert(self@ =~= s);
                }
            },
            Some(taken) => {
                let mut q = taken;
                assert(s.quotas.contains_key(*key));
                let good = leader || q.good_at(self.now);
                q.draw(amount, good);
                self.quotas.insert(copy_of(key), q);
                proof {
                    assert(self@.quotas =~= s.drawn(*key, amount).quotas);
                    assert(self@ =~= s.drawn(*key, amount));
                }
            },
        }
    }

    // ------------------------------------------------------------ internals

    fn woke(&self, was_empty: bool) -> (r: bool)
        ensures
            r == (was_empty && self@.outbound.len() > 0),
    {
        was_empty && !self.outbound.is_empty()
    }

    /// Queue a call of the parent.
    fn send_to_parent(&mut self, items: Vec<RequestItem<K>>)
        requires
            lawful::<Id>(),
            old(self)@.parent is Some,
        ensures
            final(self)@ == old(self)@.sending(old(self)@.parent->0, items@),
    {
        if let Some(p) = &self.parent {
            let peer = copy_of(p);
            let req = LeaseRequest {
                term: self.term,
                leader: copy_of_option(&self.leader),
                sent: self.now,
                items,
            };
            self.outbound.push(Action::Call(peer, req));
            assert(self@.outbound =~= old(self)@.sending(
                old(self)@.parent->0,
                items@,
            ).outbound);
        }
    }

    /// What lets the parent go: every limit it ever gave, returned in full.
    fn releases(&self) -> (r: Vec<RequestItem<K>>)
        requires
            lawful::<K>(),
            sound(self@.quotas),
        ensures
            r@ == self@.releases(),
    {
        let mut out: Vec<RequestItem<K>> = Vec::new();
        let all = self.quotas.iter();
        let ghost keys = in_order(self.quotas@.dom());
        let ghost p = ever_given(self@.quotas);
        let ghost g = releasing(self@.quotas);
        proof {
            lemma_iter(&self.quotas, all);
            lemma_in_order(self.quotas@.dom());
            assert(self@.quotas.dom() =~= self.quotas@.dom());
            assert(keys.take(0).filter(p) =~= Seq::<K>::empty()) by {
                reveal(Seq::filter);
            }
        }
        for e in it: all
            invariant
                lawful::<K>(),
                it.seq().len() == keys.len(),
                p == ever_given(self@.quotas),
                g == releasing(self@.quotas),
                forall|i: int|
                    #![trigger it.seq()[i]]
                    0 <= i < it.seq().len() ==> *it.seq()[i].0 == keys[i] && *it.seq()[i].1
                        == self.quotas@[keys[i]],
                forall|i: int| 0 <= i < keys.len() ==> self.quotas@.contains_key(#[trigger] keys[i]),
                out@ == keys.take(it.index() as int).filter(p).map_values(g),
        {
            let (key, q) = e;
            proof {
                let i = it.index() as int;
                assert(keys.take(i + 1) =~= keys.take(i).push(keys[i]));
                lemma_filter_push(keys.take(i), keys[i], p);
                assert(self@.quotas.contains_key(keys[i]));
            }
            let given = q.total_given();
            if given > 0 {
                out.push(
                    RequestItem {
                        key: copy_of(key),
                        given,
                        returned: given,
                        needed: 0,
                        wanted: 0,
                    },
                );
            }
            assert(out@ =~= keys.take(it.index() + 1).filter(p).map_values(g));
        }
        proof {
            assert(keys.take(keys.len() as int) =~= keys);
        }
        out
    }

    /// Tell the parent, if there is one and it ever gave anything, that we hold nothing from
    /// it.
    fn leave(&mut self)
        requires
            lawful::<Id>(),
            lawful::<K>(),
            sound(old(self)@.quotas),
        ensures
            final(self)@ == old(self)@.leaving(),
    {
        if self.parent.is_some() {
            let release = self.releases();
            if !release.is_empty() {
                self.send_to_parent(release);
            }
        }
    }

    /// Become the leader: hold the whole rate, and let the old parent go.
    fn crown(&mut self)
        requires
            lawful::<Id>(),
            lawful::<K>(),
            sound(old(self)@.quotas),
            old(self)@.is_leader(),
        ensures
            final(self).inv(),
            final(self)@ == old(self)@.crowned(),
    {
        let ghost s = self@;
        self.leave();
        self.parent = None;
        self.parent_misses = 0;
        apply_all(&mut self.quotas, &Change::Hold);
        assert(self@ =~= s.crowned());
    }

    /// Stop being the leader: the rate is not ours; what our children hold, we now need.
    fn demote(&mut self)
        requires
            lawful::<Id>(),
            lawful::<K>(),
            sound(old(self)@.quotas),
            !old(self)@.is_leader(),
        ensures
            final(self).inv(),
            final(self)@ == old(self)@.demoted(),
    {
        apply_all(&mut self.quotas, &Change::LetGo);
        self.parent = None;
        self.parent_misses = 0;
        self.accepted = 0;
        assert(self@ =~= old(self)@.demoted());
    }

    /// A child that left the cluster: its share is ours, and its counters go.
    fn forget_child(&mut self, c: &Id)
        requires
            old(self).inv(),
        ensures
            final(self).inv(),
            final(self)@ == old(self)@.forgetting(Set::empty().insert(*c)),
    {
        let ghost s = self@;
        let told = apply_all(&mut self.quotas, &Change::Forget(copy_of(c)));
        if told {
            self.dirty = true;
        }
        proof {
            let gone = Set::empty().insert(*c);
            let want = s.forgetting(gone);
            assert(self@.quotas =~= want.quotas);
            if exists|k: K, x: Id| #[trigger]
                s.quotas.contains_key(k) && #[trigger] gone.contains(x)
                    && s.quotas[k].children.contains_key(x) {
                let (k, x) = choose|k: K, x: Id| #[trigger]
                    s.quotas.contains_key(k) && #[trigger] gone.contains(x)
                        && s.quotas[k].children.contains_key(x);
                assert(x == *c);
                assert(tells(Change::Forget(*c), s.quotas[k]));
            }
            if told {
                let k = choose|k: K| #[trigger]
                    s.quotas.contains_key(k) && tells(Change::Forget(*c), s.quotas[k]);
                assert(gone.contains(*c));
            }
            assert forall|k: K| #[trigger] s.quotas.contains_key(k) implies s.quotas[k].without(
                gone,
            ).lent() <= s.quotas[k].lent() by {
                lemma_lent_without(s.quotas[k].children, gone);
            }
            assert(self@ =~= want);
        }
    }

    /// Lease from `peer` from now on. The old parent is told we hold nothing from it; the edge
    /// to the new one starts at zero, and what our children hold we ask for as need.
    fn reparent(&mut self, peer: Id)
        requires
            old(self).inv(),
            !old(self)@.is_leader(),
        ensures
            final(self).inv(),
            final(self)@ == old(self)@.reparented(peer),
    {
        let ghost s = self@;
        self.leave();
        self.awaiting = None;
        self.unanswered = 0;
        self.accepted = 0;
        self.parent = Some(peer);
        self.parent_misses = 0;
        apply_all(&mut self.quotas, &Change::StartOver);
        proof {
            let t = LeaseState {
                awaiting: None,
                unanswered: 0,
                accepted: 0,
                parent: Some(peer),
                parent_misses: 0,
                quotas: Map::new(
                    |k: K| s.quotas.contains_key(k),
                    |k: K| QuotaState { refusals: 0, ..s.quotas[k].let_go() },
                ),
                ..s.leaving()
            };
            assert(self@.quotas =~= t.quotas);
            assert(self@ =~= t);
        }
        self.call();
    }

    /// How long to wait after `count` vain tries.
    fn wait(&self, count: u32) -> (r: u64)
        ensures
            r == backoff(count as int, self@.ttl),
    {
        let cap = if self.cfg.ttl / 8 > 1 {
            self.cfg.ttl / 8
        } else {
            1
        };
        let shift: u64 = if count < 16 {
            count as u64
        } else {
            16
        };
        proof {
            lemma2_to64();
            if shift < 16 {
                lemma_pow2_strictly_increases(shift as nat, 16);
            }
            lemma_pow2_pos(shift as nat);
            lemma_u64_shl_is_mul(2, shift);
        }
        let wait: u64 = 2u64 << shift;
        if wait < cap {
            wait
        } else {
            cap
        }
    }

    /// Whether it is time to call the parent: something changed, the keepalive is due, a call
    /// went unanswered, or something is wanted and the retry has run out. A retry waits a round
    /// trip at first -- the parent may be fetching it -- and twice as long after each empty
    /// answer, up to `ttl / 8`.
    fn call_due(&self) -> (r: bool)
        requires
            self.inv(),
        ensures
            r == self@.call_due(),
    {
        let now: u128 = self.now as u128;
        if self.dirty || now >= self.last_call as u128 + (self.cfg.ttl / 2) as u128 {
            return true;
        }
        if let Some(sent) = self.awaiting {
            if now >= sent as u128 + self.wait(self.unanswered) as u128 {
                return true;
            }
        }
        let all = self.quotas.iter();
        let ghost keys = in_order(self.quotas@.dom());
        proof {
            lemma_iter(&self.quotas, all);
            lemma_in_order(self.quotas@.dom());
        }
        for e in it: all
            invariant
                self.inv(),
                now == self.now,
                it.seq().len() == keys.len(),
                forall|i: int|
                    #![trigger it.seq()[i]]
                    0 <= i < it.seq().len() ==> *it.seq()[i].0 == keys[i] && *it.seq()[i].1
                        == self.quotas@[keys[i]],
                forall|i: int| 0 <= i < keys.len() ==> self.quotas@.contains_key(#[trigger] keys[i]),
                forall|i: int| 0 <= i < it.index() ==> !self@.ask_due(#[trigger] keys[i]),
        {
            let q = e.1;
            let ghost k = keys[it.index() as int];
            assert(self@.quotas.contains_key(k));
            let (last, refusals) = q.asked();
            let due = match last {
                None => true,
                Some(t) => now >= t as u128 + self.wait(refusals.saturating_sub(1)) as u128,
            };
            if q.ask() > 0 && due {
                assert(self@.ask_due(k));
                return true;
            }
        }
        proof {
            assert forall|k: K| #[trigger] self@.quotas.contains_key(k) implies !self@.ask_due(
                k,
            ) by {
                assert(keys.contains(k));
                let i = choose|i: int| 0 <= i < keys.len() && keys[i] == k;
            }
        }
        false
    }

    /// Report every limit in play, after handing back what is not used.
    fn reports(&mut self) -> (r: Vec<RequestItem<K>>)
        requires
            old(self).inv(),
            !old(self)@.is_leader(),
        ensures
            final(self).inv(),
            final(self)@ == (LeaseState {
                quotas: Map::new(
                    |k: K| old(self)@.quotas.contains_key(k),
                    |k: K| old(self)@.quotas[k].called(old(self)@.now),
                ),
                ..old(self)@
            }),
            r@ == old(self)@.reports(),
    {
        let now = self.now;
        let ghost s = self@;
        let keys = keys_of(&self.quotas);
        let mut out: Vec<RequestItem<K>> = Vec::new();
        let ghost p = playing(s.quotas);
        let ghost g = reporting(s.quotas);
        proof {
            lemma_in_order(self.quotas@.dom());
            assert(s.quotas.dom() =~= self.quotas@.dom());
            assert(keys@.take(0).filter(p) =~= Seq::<K>::empty()) by {
                reveal(Seq::filter);
            }
        }
        for i in 0..keys.len()
            invariant
                lawful::<Id>(),
                lawful::<K>(),
                now == s.now,
                keys@ == in_order(s.quotas.dom()),
                keys@.no_duplicates(),
                p == playing(s.quotas),
                g == reporting(s.quotas),
                forall|j: int| 0 <= j < keys@.len() ==> s.quotas.contains_key(#[trigger] keys@[j]),
                sound(s.quotas),
                self@ == (LeaseState { quotas: self@.quotas, ..s }),
                self.quotas@.dom() == s.quotas.dom(),
                forall|j: int|
                    0 <= j < keys@.len() ==> self.quotas@[#[trigger] keys@[j]]@ == if j < i {
                        s.quotas[keys@[j]].called(now)
                    } else {
                        s.quotas[keys@[j]]
                    },
                forall|j: int| 0 <= j < i ==> self.quotas@[#[trigger] keys@[j]]@.inv(),
                out@ == keys@.take(i as int).filter(p).map_values(g),
        {
            let ghost was = self.quotas@;
            let ghost key = keys@[i as int];
            proof {
                assert(s.quotas.contains_key(key));
                assert(keys@.take(i + 1) =~= keys@.take(i as int).push(key));
                lemma_filter_push(keys@.take(i as int), key, p);
            }
            if let Some(taken) = self.quotas.remove(&keys[i]) {
                let mut q = taken;
                if q.in_play() {
                    out.push(q.report(copy_of(&keys[i]), now));
                }
                self.quotas.insert(copy_of(&keys[i]), q);
                proof {
                    assert(self.quotas@ =~= was.insert(key, q));
                    assert(self.quotas@.dom() =~= s.quotas.dom());
                    assert forall|j: int| 0 <= j < keys@.len() implies self.quotas@[#[trigger] keys@[j]]@
                        == if j < i + 1 {
                        s.quotas[keys@[j]].called(now)
                    } else {
                        s.quotas[keys@[j]]
                    } by {
                        if j != i {
                            assert(keys@[j] != key);
                        }
                    }
                    assert forall|j: int| 0 <= j < i + 1 implies self.quotas@[#[trigger] keys@[j]]@.inv() by {
                        if j != i {
                            assert(keys@[j] != key);
                        }
                    }
                }
            }
            assert(out@ =~= keys@.take(i + 1).filter(p).map_values(g));
        }
        proof {
            let want = Map::new(
                |k: K| s.quotas.contains_key(k),
                |k: K| s.quotas[k].called(s.now),
            );
            assert forall|k: K| s.quotas.contains_key(k) implies self.quotas@[k]@
                == s.quotas[k].called(now) && self.quotas@[k]@.inv() by {
                assert(keys@.contains(k));
                let j = choose|j: int| 0 <= j < keys@.len() && keys@[j] == k;
            }
            assert(self@.quotas =~= want);
            assert(keys@.take(keys@.len() as int) =~= keys@);
        }
        out
    }

    /// Call the parent: every limit in play, what we returned and what we want, after handing
    /// back what we do not use. Nothing in play: nothing on the wire.
    fn call(&mut self)
        requires
            old(self).inv(),
            !old(self)@.is_leader(),
        ensures
            final(self).inv(),
            final(self)@ == old(self)@.called(),
    {
        if self.parent.is_none() {
            return ;
        }
        let ghost s = self@;
        self.dirty = false;
        self.last_call = self.now;
        if self.awaiting.is_some() {
            self.unanswered = self.unanswered.saturating_add(1);
        }
        assert(self@.reports() == s.reports());
        let items = self.reports();
        if items.is_empty() {
            assert(self@ =~= s.called());
            return ;
        }
        self.send_to_parent(items);
        self.awaiting = Some(self.now);
        assert(self@ =~= s.called());
    }

    /// Call the parent, if there is one and it is time.
    fn call_if_due(&mut self)
        requires
            old(self).inv(),
        ensures
            final(self).inv(),
            final(self)@ == old(self)@.poked(),
    {
        if !self.is_leader() && self.parent.is_some() && self.call_due() {
            self.call();
        }
    }

    /// Take news of the leader from a message, if its term is newer.
    fn hear(&mut self, leader: &Option<Id>, term: u64)
        requires
            old(self).inv(),
        ensures
            final(self).inv(),
            final(self)@ == old(self)@.with_news(*leader, term),
    {
        if term > self.term {
            if let Some(l) = leader {
                self.set_leader(copy_of(l), term);
            }
        }
    }

    /// Whether `c` leases from this node.
    fn has_child(&self, c: &Id) -> (r: bool)
        requires
            self.inv(),
        ensures
            r == self@.has_child(*c),
    {
        let all = self.quotas.iter();
        let ghost keys = in_order(self.quotas@.dom());
        proof {
            lemma_iter(&self.quotas, all);
            lemma_in_order(self.quotas@.dom());
        }
        for e in it: all
            invariant
                self.inv(),
                it.seq().len() == keys.len(),
                forall|i: int|
                    #![trigger it.seq()[i]]
                    0 <= i < it.seq().len() ==> *it.seq()[i].0 == keys[i] && *it.seq()[i].1
                        == self.quotas@[keys[i]],
                forall|i: int| 0 <= i < keys.len() ==> self.quotas@.contains_key(#[trigger] keys[i]),
                forall|i: int|
                    0 <= i < it.index() ==> !self@.quotas[#[trigger] keys[i]].has_child(*c),
        {
            let ghost k = keys[it.index() as int];
            assert(self@.quotas.contains_key(k));
            if e.1.has_child(c) {
                return true;
            }
        }
        proof {
            assert forall|k: K| #[trigger] self@.quotas.contains_key(k) implies !self@.quotas[k].has_child(
                *c,
            ) by {
                assert(keys.contains(k));
                let i = choose|i: int| 0 <= i < keys.len() && keys[i] == k;
            }
        }
        false
    }

    // ------------------------------------------------------------ observation

    /// The nodes that lease from this one, on any limit, in order.
    pub fn children(&self) -> (r: Vec<Id>)
        requires
            self.inv(),
        ensures
            r@ == in_order(self@.children()),
            self@.children().finite(),
            r@.to_set() == self@.children(),
    {
        let mut out: Vec<Id> = Vec::new();
        let all = self.quotas.iter();
        let ghost keys = in_order(self.quotas@.dom());
        proof {
            lemma_iter(&self.quotas, all);
            lemma_in_order(self.quotas@.dom());
            assert(out@.to_set() =~= Set::new(
                |c: Id| exists|i: int| 0 <= i < 0 && self@.quotas[#[trigger] keys[i]].has_child(c),
            ));
        }
        for e in it: all
            invariant
                self.inv(),
                it.seq().len() == keys.len(),
                forall|i: int|
                    #![trigger it.seq()[i]]
                    0 <= i < it.seq().len() ==> *it.seq()[i].0 == keys[i] && *it.seq()[i].1
                        == self.quotas@[keys[i]],
                forall|i: int| 0 <= i < keys.len() ==> self.quotas@.contains_key(#[trigger] keys[i]),
                ascending(out@),
                out@.to_set() == Set::new(
                    |c: Id|
                        exists|i: int|
                            0 <= i < it.index() && self@.quotas[#[trigger] keys[i]].has_child(c),
                ),
        {
            let ghost n = it.index() as int;
            let ghost k = keys[n];
            assert(self@.quotas.contains_key(k));
            e.1.list_children(&mut out);
            proof {
                let want = Set::new(
                    |c: Id|
                        exists|i: int|
                            0 <= i < n + 1 && self@.quotas[#[trigger] keys[i]].has_child(c),
                );
                assert forall|c: Id| out@.to_set().contains(c) <==> want.contains(c) by {
                    if self@.quotas[keys[n]].has_child(c) {
                        assert(0 <= n < n + 1);
                    }
                    if want.contains(c) {
                        let i = choose|i: int|
                            0 <= i < n + 1 && self@.quotas[#[trigger] keys[i]].has_child(c);
                        if i < n {
                            assert(0 <= i < n && self@.quotas[keys[i]].has_child(c));
                        }
                    }
                }
                assert(out@.to_set() =~= want);
            }
        }
        proof {
            assert forall|c: Id| out@.to_set().contains(c) <==> self@.children().contains(c) by {
                if out@.to_set().contains(c) {
                    let i = choose|i: int|
                        0 <= i < keys.len() && self@.quotas[#[trigger] keys[i]].has_child(c);
                    assert(self.quotas@.contains_key(keys[i]));
                    assert(self@.quotas.contains_key(keys[i]));
                }
                if self@.has_child(c) {
                    let k = choose|k: K| #[trigger]
                        self@.quotas.contains_key(k) && self@.quotas[k].has_child(c);
                    assert(self.quotas@.contains_key(k));
                    assert(keys.contains(k));
                    let i = choose|i: int| 0 <= i < keys.len() && keys[i] == k;
                    assert(self@.quotas[keys[i]].has_child(c));
                }
            }
            assert(out@.to_set() =~= self@.children());
            lemma_in_order(self@.children());
        }
        out
    }

    /// Whether this node is the leader.
    pub fn is_leader(&self) -> (r: bool)
        requires
            self.inv(),
        ensures
            r == self@.is_leader(),
    {
        holds(&self.leader, &self.me)
    }

    /// The node this one leases from, if any.
    pub fn parent(&self) -> (r: Option<&Id>)
        ensures
            match r {
                Some(p) => self@.parent == Some(*p),
                None => self@.parent is None,
            },
    {
        self.parent.as_ref()
    }

    /// The limits configured on this node, in order.
    pub fn keys(&self) -> (r: Vec<K>)
        requires
            self.inv(),
        ensures
            r@ == in_order(self@.quotas.dom()),
            r@.to_set() == self@.quotas.dom(),
    {
        let r = keys_of(&self.quotas);
        proof {
            assert(self@.quotas.dom() =~= self.quotas@.dom());
            lemma_in_order(self@.quotas.dom());
        }
        r
    }

    /// One limit as this node sees it.
    pub fn stats(&self, key: &K) -> (r: Option<Stats>)
        requires
            self.inv(),
        ensures
            match r {
                None => !self@.quotas.contains_key(*key),
                Some(stats) => self@.quotas.contains_key(*key) && self@.shows(*key, stats),
            },
    {
        match self.quotas.get(key) {
            None => None,
            Some(q) => {
                assert(self@.quotas.contains_key(*key));
                Some(
                    Stats {
                        granted: q.share(),
                        lent: q.lent(),
                        overcommit: q.overcommit(),
                        wanted: q.still_wanted(),
                        children: q.child_count(),
                        tokens: q.available(),
                        good: self.is_leader() || q.good_at(self.now),
                    },
                )
            },
        }
    }

    /// The current term.
    pub fn term(&self) -> (r: u64)
        ensures
            r == self@.term,
    {
        self.term
    }
}

} // verus!

//! One node's state, and what every event makes of it.
use crate::messages::CallView;
use crate::messages::Limit;
use crate::messages::RequestItem;
use crate::messages::RequestView;
use crate::messages::ResponseItem;
use crate::messages::ResponseView;
use crate::messages::Stats;
use crate::order::in_order;
use crate::quota::QuotaState;
use crate::quota::clip;
use vstd::arithmetic::power2::pow2;
use vstd::math::max;
use vstd::math::min;
use vstd::prelude::*;

verus! {

/// One node's lease state, for every limit.
#[verifier::ext_equal]
#[verifier::reject_recursive_types(Id)]
#[verifier::reject_recursive_types(K)]
pub struct LeaseState<Id, K> {
    /// This node.
    pub me: Id,
    /// How long a share is good without renewal.
    pub ttl: u64,
    /// The clock.
    pub now: u64,
    /// The term.
    pub term: u64,
    /// The leader, once known.
    pub leader: Option<Id>,
    /// The cluster's members.
    pub members: Set<Id>,
    /// The peers that are unreachable.
    pub down: Set<Id>,
    /// The node this one leases from.
    pub parent: Option<Id>,
    /// Deliveries of the leader's traffic through other peers since the parent last delivered.
    pub parent_misses: u32,
    /// The limits.
    pub quotas: Map<K, QuotaState<Id>>,
    /// Each child's weight in a split.
    pub weights: Map<Id, u64>,
    /// Something changed since the last call.
    pub dirty: bool,
    /// When the parent was last called.
    pub last_call: u64,
    /// When the call was sent that the parent has not answered.
    pub awaiting: Option<u64>,
    /// How many times it has been sent again.
    pub unanswered: u32,
    /// The call that the last answer taken was for.
    pub accepted: u64,
    /// The calls to make, oldest first.
    pub outbound: Seq<CallView<Id, K>>,
}

// ------------------------------------------------------------ what is read off the state

impl<Id, K> LeaseState<Id, K> {
    /// This node is the leader.
    pub open spec fn is_leader(self) -> bool {
        self.leader == Some(self.me)
    }

    /// What holds of a node at all times. A leader leases from nobody and has not lent more
    /// than it holds.
    pub open spec fn inv(self) -> bool {
        &&& self.quotas.dom().finite()
        &&& forall|k: K| #[trigger] self.quotas.contains_key(k) ==> self.quotas[k].inv()
        &&& self.is_leader() ==> self.parent is None && forall|k: K| #[trigger]
            self.quotas.contains_key(k) ==> self.quotas[k].lent() <= self.quotas[k].share()
    }

    /// `c` leases from this node, on some limit.
    pub open spec fn has_child(self, c: Id) -> bool {
        exists|k: K| #[trigger] self.quotas.contains_key(k) && self.quotas[k].has_child(c)
    }

    /// The nodes that lease from this one, on any limit.
    pub open spec fn children(self) -> Set<Id> {
        Set::new(|c: Id| self.has_child(c))
    }

    /// The share of a limit is good: the leader's always is.
    pub open spec fn good(self, k: K) -> bool {
        self.is_leader() || self.quotas[k].good_at(self.now)
    }

    /// What is shown of a limit.
    pub open spec fn shows(self, k: K, stats: Stats) -> bool {
        let q = self.quotas[k];
        &&& stats.granted == q.share()
        &&& stats.lent == q.lent()
        &&& stats.overcommit == q.overcommit()
        &&& stats.wanted == q.wanted
        &&& stats.children == q.active_children().len()
        &&& stats.tokens == q.available()
        &&& stats.good == self.good(k)
    }

    /// `after` has calls to make, where there were none.
    pub open spec fn wakes(self, after: Self) -> bool {
        self.outbound.len() == 0 && after.outbound.len() > 0
    }
}

/// Which limits the parent ever gave a share of.
pub open spec fn ever_given<Id, K>(quotas: Map<K, QuotaState<Id>>) -> spec_fn(K) -> bool {
    |k: K| quotas[k].given > 0
}

/// What a release of a limit says: everything given is returned.
pub open spec fn released<K>(key: K, given: u64) -> RequestItem<K> {
    RequestItem { key, given, returned: given, needed: 0, wanted: 0 }
}

/// What a release of each limit says.
pub open spec fn releasing<Id, K>(quotas: Map<K, QuotaState<Id>>) -> spec_fn(K) -> RequestItem<K> {
    |k: K| released(k, quotas[k].given)
}

/// Which limits are in play.
pub open spec fn playing<Id, K>(quotas: Map<K, QuotaState<Id>>) -> spec_fn(K) -> bool {
    |k: K| quotas[k].in_play()
}

/// What a call says of each limit.
pub open spec fn reporting<Id, K>(quotas: Map<K, QuotaState<Id>>) -> spec_fn(K) -> RequestItem<K> {
    |k: K| quotas[k].report(k)
}

// ------------------------------------------------------------ calls

/// The longest wait before a request is repeated.
pub open spec fn retry_cap(ttl: u64) -> int {
    max(ttl as int / 8, 1)
}

/// How long to wait after `count` vain tries: two ticks, and twice as long each time, up to
/// the cap.
pub open spec fn backoff(count: int, ttl: u64) -> int {
    max(min(2 * pow2(min(count, 16) as nat) as int, retry_cap(ttl)), 1)
}

impl<Id, K: Ord> LeaseState<Id, K> {
    /// A request with these items, sent now.
    pub open spec fn request(self, items: Seq<RequestItem<K>>) -> RequestView<Id, K> {
        RequestView { term: self.term, leader: self.leader, sent: self.now, items }
    }

    /// With one more call to make.
    pub open spec fn sending(self, peer: Id, items: Seq<RequestItem<K>>) -> Self {
        LeaseState {
            outbound: self.outbound.push(CallView { peer, request: self.request(items) }),
            ..self
        }
    }

    /// What lets the parent go: every limit that it ever gave, returned in full, in key order.
    pub open spec fn releases(self) -> Seq<RequestItem<K>> {
        in_order(self.quotas.dom()).filter(ever_given(self.quotas)).map_values(
            releasing(self.quotas),
        )
    }

    /// With the parent told, if there is one and it ever gave anything, that we hold nothing
    /// from it.
    pub open spec fn leaving(self) -> Self {
        match self.parent {
            Some(p) if self.releases().len() > 0 => self.sending(p, self.releases()),
            _ => self,
        }
    }

    /// What a call reports: every limit in play, in key order.
    pub open spec fn reports(self) -> Seq<RequestItem<K>> {
        in_order(self.quotas.dom()).filter(playing(self.quotas)).map_values(
            reporting(self.quotas),
        )
    }

    /// After a call of the parent. With nothing in play, nothing goes out.
    pub open spec fn called(self) -> Self {
        match self.parent {
            None => self,
            Some(p) => {
                let s = LeaseState {
                    dirty: false,
                    last_call: self.now,
                    unanswered: if self.awaiting is Some && self.unanswered < u32::MAX {
                        (self.unanswered + 1) as u32
                    } else {
                        self.unanswered
                    },
                    quotas: Map::new(
                        |k: K| self.quotas.contains_key(k),
                        |k: K| self.quotas[k].called(self.now),
                    ),
                    ..self
                };
                if self.reports().len() == 0 {
                    s
                } else {
                    LeaseState { awaiting: Some(self.now), ..s.sending(p, self.reports()) }
                }
            },
        }
    }

    /// It is time to ask for this limit again.
    pub open spec fn ask_due(self, k: K) -> bool {
        let q = self.quotas[k];
        q.ask() > 0 && match q.last_request {
            None => true,
            Some(t) => self.now >= t + backoff(max(q.refusals - 1, 0), self.ttl),
        }
    }

    /// It is time to call the parent: something changed, the keepalive is due, a call went
    /// unanswered, or something is wanted and the wait has run out.
    pub open spec fn call_due(self) -> bool {
        ||| self.dirty
        ||| self.now >= self.last_call + self.ttl / 2
        ||| self.awaiting matches Some(sent) && self.now >= sent + backoff(
            self.unanswered as int,
            self.ttl,
        )
        ||| exists|k: K| #[trigger] self.quotas.contains_key(k) && self.ask_due(k)
    }

    /// After a call, if one is due and there is someone to call.
    pub open spec fn poked(self) -> Self {
        if !self.is_leader() && self.parent is Some && self.call_due() {
            self.called()
        } else {
            self
        }
    }
}

// ------------------------------------------------------------ configuration

impl<Id, K: Ord> LeaseState<Id, K> {
    /// A new node.
    pub open spec fn fresh(me: Id, ttl: u64) -> Self {
        LeaseState {
            me,
            ttl,
            now: 0,
            term: 0,
            leader: None,
            members: Set::empty(),
            down: Set::empty(),
            parent: None,
            parent_misses: 0,
            quotas: Map::empty(),
            weights: Map::empty(),
            dirty: false,
            last_call: 0,
            awaiting: None,
            unanswered: 0,
            accepted: 0,
            outbound: Seq::empty(),
        }
    }

    /// With a limit added or changed. On the leader, the share becomes the whole rate at once.
    pub open spec fn with_limit(self, key: K, limit: Limit) -> Self {
        let q = if self.quotas.contains_key(key) {
            QuotaState { limit, ..self.quotas[key] }
        } else {
            QuotaState::fresh(limit)
        };
        LeaseState {
            quotas: self.quotas.insert(
                key,
                if self.is_leader() {
                    q.held()
                } else {
                    q
                },
            ),
            ..self
        }
    }

    /// Without a limit. If the parent ever gave anything for it, the parent is told.
    pub open spec fn without_limit(self, key: K) -> Self {
        let s = LeaseState { quotas: self.quotas.remove(key), ..self };
        match self.parent {
            Some(p) if self.quotas.contains_key(key) && self.quotas[key].given > 0 => s.sending(
                p,
                seq![released(key, self.quotas[key].given)],
            ),
            _ => s,
        }
    }
}

// ------------------------------------------------------------ the cluster

impl<Id, K: Ord> LeaseState<Id, K> {
    /// Without the bookings of the children in `gone`.
    pub open spec fn forgetting(self, gone: Set<Id>) -> Self {
        LeaseState {
            quotas: Map::new(
                |k: K| self.quotas.contains_key(k),
                |k: K| self.quotas[k].without(gone),
            ),
            dirty: self.dirty || exists|k: K, c: Id| #[trigger]
                self.quotas.contains_key(k) && #[trigger] gone.contains(c)
                    && self.quotas[k].children.contains_key(c),
            ..self
        }
    }

    /// With other members: children that are not among them are forgotten, and so is a parent.
    pub open spec fn with_members(self, members: Set<Id>) -> Self {
        let s = LeaseState { members, ..self }.forgetting(self.children().difference(members));
        match self.parent {
            Some(p) if !members.contains(p) => LeaseState { parent: None, ..s },
            _ => s,
        }
    }

    /// As the leader: the old parent let go, and the whole rate held.
    pub open spec fn crowned(self) -> Self {
        let s = self.leaving();
        LeaseState {
            parent: None,
            parent_misses: 0,
            quotas: Map::new(|k: K| self.quotas.contains_key(k), |k: K| self.quotas[k].held()),
            ..s
        }
    }

    /// As the leader no more: the rate is not ours.
    pub open spec fn demoted(self) -> Self {
        LeaseState {
            quotas: Map::new(|k: K| self.quotas.contains_key(k), |k: K| self.quotas[k].let_go()),
            parent: None,
            parent_misses: 0,
            accepted: 0,
            ..self
        }
    }

    /// With news of the leader and the term. An older term is ignored.
    pub open spec fn with_leader(self, leader: Id, term: u64) -> Self {
        if term < self.term {
            self
        } else {
            let s = LeaseState { term, leader: Some(leader), ..self };
            if term == self.term && self.leader == Some(leader) {
                s
            } else {
                let t = if leader == self.me && !self.is_leader() {
                    s.crowned()
                } else if leader != self.me && self.is_leader() {
                    s.demoted()
                } else {
                    s
                };
                // The old leader is most likely gone: a node under it takes the first upstream
                // it is offered.
                let u = if self.leader != Some(leader) && t.parent is Some && t.parent
                    == self.leader {
                    LeaseState { parent: None, parent_misses: 0, ..t }
                } else {
                    t
                };
                // A new term: call now, so the new tree books what we hold.
                LeaseState { dirty: true, ..u }
            }
        }
    }

    /// With news of the leader from a message of a newer term.
    pub open spec fn with_news(self, leader: Option<Id>, term: u64) -> Self {
        match leader {
            Some(l) if term > self.term => self.with_leader(l, term),
            _ => self,
        }
    }

    /// Leasing from `peer` from now on. The old parent is told that we hold nothing from it,
    /// and the edge to the new one starts at zero.
    pub open spec fn reparented(self, peer: Id) -> Self {
        let s = self.leaving();
        LeaseState {
            awaiting: None,
            unanswered: 0,
            accepted: 0,
            parent: Some(peer),
            parent_misses: 0,
            quotas: Map::new(
                |k: K| self.quotas.contains_key(k),
                |k: K| QuotaState { refusals: 0, ..self.quotas[k].let_go() },
            ),
            ..s
        }.called()
    }

    /// After `peer` delivered the leader's traffic. It is taken as parent if there is none, or
    /// if the parent missed the last two deliveries; never if it is our own child.
    pub open spec fn with_upstream(self, peer: Id) -> Self {
        if self.is_leader() || peer == self.me {
            self
        } else if self.parent == Some(peer) {
            LeaseState { parent_misses: 0, ..self }
        } else {
            let s = LeaseState {
                parent_misses: if self.parent_misses < u32::MAX {
                    (self.parent_misses + 1) as u32
                } else {
                    u32::MAX
                },
                ..self
            };
            if self.parent is Some && s.parent_misses < 2 || self.has_child(peer) {
                s
            } else {
                s.reparented(peer)
            }
        }
    }

    /// With `peer` as parent at once. A peer that was our child stops being one first.
    pub open spec fn with_parent(self, peer: Id) -> Self {
        if self.is_leader() || peer == self.me || self.parent == Some(peer) {
            LeaseState { parent_misses: 0, ..self }
        } else {
            let s = if self.has_child(peer) {
                self.forgetting(Set::empty().insert(peer))
            } else {
                self
            };
            s.reparented(peer)
        }
    }

    /// With `peers` unreachable: children among them are forgotten, a parent among them is
    /// left.
    pub open spec fn with_down(self, peers: Set<Id>) -> Self {
        let s = LeaseState { down: self.down.union(peers), ..self }.forgetting(
            self.children().intersect(peers),
        );
        match self.parent {
            Some(p) if peers.contains(p) => LeaseState { parent: None, parent_misses: 0, ..s },
            _ => s,
        }
    }
}

// ------------------------------------------------------------ the protocol

impl<Id: Ord, K: Ord> LeaseState<Id, K> {
    /// After one item of a child's call.
    pub open spec fn served(self, from: Id, it: RequestItem<K>) -> Self {
        if !self.quotas.contains_key(it.key) {
            self
        } else {
            let q = self.quotas[it.key];
            LeaseState {
                quotas: self.quotas.insert(
                    it.key,
                    q.served(from, it, self.weights, self.now, self.ttl, self.parent is Some),
                ),
                dirty: self.dirty || it.returned > q.booking_of(from).returned,
                ..self
            }
        }
    }

    /// After the items of a child's call, in order.
    pub open spec fn served_all(self, from: Id, items: Seq<RequestItem<K>>) -> Self
        decreases items.len(),
    {
        if items.len() == 0 {
            self
        } else {
            self.served_all(from, items.drop_last()).served(from, items.last())
        }
    }

    /// The answers to the items of a child's call: the edge's counters for each limit that is
    /// configured here, in the request's order.
    pub open spec fn answers(self, from: Id, items: Seq<RequestItem<K>>) -> Seq<ResponseItem<K>>
        decreases items.len(),
    {
        if items.len() == 0 {
            Seq::empty()
        } else {
            let sofar = self.answers(from, items.drop_last());
            let it = items.last();
            let s = self.served_all(from, items);
            if !self.quotas.contains_key(it.key) {
                sofar
            } else {
                let b = s.quotas[it.key].children[from];
                sofar.push(ResponseItem { key: it.key, given: b.given, returned: b.returned })
            }
        }
    }

    /// After a child's call.
    pub open spec fn after_request(self, from: Id, req: RequestView<Id, K>) -> Self {
        self.with_news(req.leader, req.term).served_all(from, req.items)
    }

    /// The answer to a child's call.
    pub open spec fn response(self, from: Id, req: RequestView<Id, K>) -> ResponseView<Id, K> {
        let s = self.with_news(req.leader, req.term);
        ResponseView {
            term: s.term,
            leader: s.leader,
            in_reply_to: req.sent,
            sent: s.now,
            items: s.answers(from, req.items),
        }
    }

    /// After one item of the parent's answer to the call sent at `sent`.
    pub open spec fn adopted(self, it: ResponseItem<K>, sent: u64) -> Self {
        if !self.quotas.contains_key(it.key) {
            self
        } else {
            let q = self.quotas[it.key];
            LeaseState {
                quotas: self.quotas.insert(it.key, q.adopted(it, sent, self.ttl)),
                dirty: self.dirty || q.cut_by(it),
                ..self
            }
        }
    }

    /// After the items of the parent's answer, in order.
    pub open spec fn adopted_all(self, items: Seq<ResponseItem<K>>, sent: u64) -> Self
        decreases items.len(),
    {
        if items.len() == 0 {
            self
        } else {
            self.adopted_all(items.drop_last(), sent).adopted(items.last(), sent)
        }
    }

    /// After an answer. From anyone but the parent it only carries news of the term; one that
    /// is older than the last taken is ignored.
    pub open spec fn after_response(self, from: Id, resp: ResponseView<Id, K>) -> Self {
        let s = self.with_news(resp.leader, resp.term);
        if s.parent != Some(from) || resp.in_reply_to < s.accepted {
            s
        } else {
            let answered = s.awaiting matches Some(sent) && resp.in_reply_to >= sent;
            LeaseState {
                accepted: resp.in_reply_to,
                awaiting: if answered {
                    None
                } else {
                    s.awaiting
                },
                unanswered: if answered {
                    0
                } else {
                    s.unanswered
                },
                ..s
            }.adopted_all(resp.items, resp.in_reply_to)
        }
    }

    /// The clock and every limit moved by `n` ticks.
    pub open spec fn elapsed(self, n: u64) -> Self {
        let now = clip(self.now + n);
        LeaseState {
            now,
            quotas: Map::new(
                |k: K| self.quotas.contains_key(k),
                |k: K| self.quotas[k].ticked(now, n, self.is_leader()),
            ),
            dirty: self.dirty || exists|k: K| #[trigger]
                self.quotas.contains_key(k) && self.quotas[k].tick_changes(
                    now,
                    n,
                    self.is_leader(),
                ),
            ..self
        }
    }

    /// After `n` ticks: time passed, and the parent called if it is time.
    pub open spec fn after_ticks(self, n: u64) -> Self {
        self.elapsed(n).poked()
    }
}

// ------------------------------------------------------------ drawing

impl<Id, K> LeaseState<Id, K> {
    /// The `i`th draw is refused: its limit has a good share and too few tokens.
    pub open spec fn refuses(self, keys: Seq<(K, u64)>, i: int) -> bool {
        let (k, amount) = keys[i];
        self.quotas.contains_key(k) && self.good(k) && self.quotas[k].available() < amount
    }

    /// The `i`th draw is the first that is refused.
    pub open spec fn first_refused(self, keys: Seq<(K, u64)>, i: int) -> bool {
        &&& 0 <= i < keys.len()
        &&& self.refuses(keys, i)
        &&& forall|j: int| 0 <= j < i ==> !#[trigger] self.refuses(keys, j)
    }

    /// With one limit marked wanted, if a draw on it is short.
    pub open spec fn marked(self, k: K, amount: u64) -> Self {
        if !self.quotas.contains_key(k) {
            self
        } else {
            let q = self.quotas[k];
            LeaseState {
                quotas: self.quotas.insert(k, q.marked(amount, self.good(k))),
                dirty: self.dirty || (q.short_of(amount, self.good(k)) && q.wanted == 0),
                ..self
            }
        }
    }

    /// With every limit marked wanted on which a draw is short.
    pub open spec fn marked_all(self, keys: Seq<(K, u64)>) -> Self
        decreases keys.len(),
    {
        if keys.len() == 0 {
            self
        } else {
            self.marked_all(keys.drop_last()).marked(keys.last().0, keys.last().1)
        }
    }

    /// After one draw.
    pub open spec fn drawn(self, k: K, amount: u64) -> Self {
        if !self.quotas.contains_key(k) {
            self
        } else {
            LeaseState {
                quotas: self.quotas.insert(k, self.quotas[k].drawn(amount, self.good(k))),
                ..self
            }
        }
    }

    /// After every draw.
    pub open spec fn drawn_all(self, keys: Seq<(K, u64)>) -> Self
        decreases keys.len(),
    {
        if keys.len() == 0 {
            self
        } else {
            self.drawn_all(keys.drop_last()).drawn(keys.last().0, keys.last().1)
        }
    }

    /// Some draw is refused.
    pub open spec fn denies(self, keys: Seq<(K, u64)>) -> bool {
        exists|i: int| 0 <= i < keys.len() && #[trigger] self.refuses(keys, i)
    }

    /// After drawing on each limit, all or none.
    pub open spec fn after_acquire(self, keys: Seq<(K, u64)>) -> Self {
        if self.denies(keys) {
            self.marked_all(keys)
        } else {
            self.marked_all(keys).drawn_all(keys)
        }
    }
}

} // verus!

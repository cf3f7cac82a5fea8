//! One limit's state on one node: the edge above it, the edges below it, and its bucket.
use crate::fair::fair_split;
use crate::fair::law_split_within_demand;
use crate::fair::water_fill;
use crate::messages::Limit;
use crate::messages::RequestItem;
use crate::messages::ResponseItem;
use crate::order::ascending;
use crate::order::copy_of;
use crate::order::in_order;
use crate::order::keys_of;
use crate::order::lawful;
use crate::order::lemma_in_order;
use crate::order::lemma_iter;
use crate::order::lemma_sum_compare;
use crate::order::lemma_sum_listing;
use crate::order::lemma_sum_part;
use crate::order::lemma_sum_remove;
use crate::order::put_name;
use crate::order::same;
use crate::order::sum_along;
use crate::order::sum_over;
use std::collections::BTreeMap;
use vstd::math::max;
use vstd::math::min;
use vstd::prelude::*;

verus! {

/// What is owed by a bucket at most. A single draw that names a limit many times may take more
/// than the bucket holds.
pub const DEBT: i128 = 0x4000_0000_0000_0000_0000_0000_0000_0000;

// ------------------------------------------------------------ whole numbers

/// A number of units, as far as a counter counts.
pub open spec fn clip(x: int) -> u64 {
    if x > u64::MAX {
        u64::MAX
    } else {
        x as u64
    }
}

/// How much `a` is beyond `b`.
pub open spec fn beyond(a: int, b: int) -> int {
    if a > b {
        a - b
    } else {
        0
    }
}

// ------------------------------------------------------------ the edge to a child

/// What a parent books for one child on one limit: the edge's two counters, and what the child
/// asked for and did not get.
#[derive(Clone, Copy, Debug)]
pub struct Booking {
    /// What the child was handed, ever.
    pub given: u64,
    /// What came back from it, ever.
    pub returned: u64,
    /// The last tick that the booking lasts.
    pub expires: u64,
    /// What the child asked for and did not get: earmarked, so that what we fetch for it is not
    /// handed back as spare before it asks again.
    pub wanted: u64,
    /// What the child needs and did not get.
    pub needed: u64,
}

/// What is booked for a child that never called.
pub open spec fn no_booking() -> Booking {
    Booking { given: 0, returned: 0, expires: 0, wanted: 0, needed: 0 }
}

impl Default for Booking {
    fn default() -> (r: Self)
        ensures
            r == no_booking(),
    {
        Booking { given: 0, returned: 0, expires: 0, wanted: 0, needed: 0 }
    }
}

impl Booking {
    /// What the child holds.
    pub open spec fn spec_share(self) -> int {
        beyond(self.given as int, self.returned as int)
    }

    /// What the child holds: given, and not returned.
    pub fn share(&self) -> (r: u64)
        ensures
            r == self.spec_share(),
    {
        self.given.saturating_sub(self.returned)
    }

    /// Holds something, or waits for something.
    pub open spec fn spec_active(self) -> bool {
        self.spec_share() > 0 || self.wanted > 0 || self.needed > 0
    }

    /// Holds something, or waits for something: a child. Otherwise a former one whose counters
    /// we keep, so that it can come back and catch up.
    pub fn active(&self) -> (r: bool)
        ensures
            r == self.spec_active(),
    {
        self.share() > 0 || self.wanted > 0 || self.needed > 0
    }

    /// Everything the child asks for: what it holds, needs and wants.
    pub open spec fn claim(self) -> u64 {
        clip(self.spec_share() + self.needed + self.wanted)
    }

    /// The booking once the child has reported `returned`: the larger count, but never more
    /// than was given.
    pub open spec fn merged(self, returned: u64) -> Booking {
        Booking {
            returned: max(
                self.returned as int,
                min(returned as int, self.given as int),
            ) as u64,
            ..self
        }
    }

    /// The booking at `now`: if it is past its time, what the child held is ours again. The
    /// counters stay, so that the child can come back and catch up.
    pub open spec fn lapsed(self, now: u64) -> Booking {
        if self.expires < now && self.spec_active() {
            Booking { returned: self.given, wanted: 0, needed: 0, ..self }
        } else {
            self
        }
    }

    /// The counters make sense: no more came back than was given.
    pub open spec fn inv(self) -> bool {
        self.returned <= self.given
    }
}

// ------------------------------------------------------------ one limit

/// One limit's state on this node.
#[verifier::ext_equal]
#[verifier::reject_recursive_types(Id)]
pub struct QuotaState<Id> {
    /// As configured.
    pub limit: Limit,
    /// What the parent gave us, ever. On the leader, the whole rate.
    pub given: u64,
    /// What we gave back, ever.
    pub returned: u64,
    /// The bucket.
    pub tokens: int,
    /// The edges below.
    pub children: Map<Id, Booking>,
    /// Until when the share is good; `None` while there is none.
    pub valid_until: Option<u64>,
    /// How much more we want from the parent.
    pub wanted: u64,
    /// When we last asked for anything.
    pub last_request: Option<u64>,
    /// Asks answered with nothing, in a row.
    pub refusals: u32,
    /// Tokens drawn since the last tick.
    pub used: int,
    /// The rate of use that those of the last tick made, rounded up.
    pub use_rate: u64,
    /// Since when we have lent more than we hold.
    pub over_since: Option<u64>,
}

/// Each child's share.
pub open spec fn shares<Id>(children: Map<Id, Booking>) -> spec_fn(Id) -> nat {
    |c: Id| children[c].spec_share() as nat
}

/// What each child wants and did not get.
pub open spec fn wants<Id>(children: Map<Id, Booking>) -> spec_fn(Id) -> nat {
    |c: Id| children[c].wanted as nat
}

/// What each child needs and did not get.
pub open spec fn needs<Id>(children: Map<Id, Booking>) -> spec_fn(Id) -> nat {
    |c: Id| children[c].needed as nat
}

/// What the children hold in all.
pub open spec fn lent_to<Id>(children: Map<Id, Booking>) -> int {
    sum_over(children.dom(), shares(children)) as int
}

/// What was drawn in `n` ticks, per tick, rounded up.
pub open spec fn rate_of(used: int, n: u64) -> u64 {
    if n == 0 {
        if used > 0 {
            u64::MAX
        } else {
            0
        }
    } else if used % n as int == 0 {
        clip(used / n as int)
    } else {
        clip(used / n as int + 1)
    }
}

impl<Id> QuotaState<Id> {
    /// A limit just configured: nothing held, nothing lent, an empty bucket.
    pub open spec fn fresh(limit: Limit) -> Self {
        QuotaState {
            limit,
            given: 0,
            returned: 0,
            tokens: 0,
            children: Map::empty(),
            valid_until: None,
            wanted: 0,
            last_request: None,
            refusals: 0,
            used: 0,
            use_rate: 0,
            over_since: None,
        }
    }

    /// What holds of a limit at all times.
    pub open spec fn inv(self) -> bool {
        &&& self.children.dom().finite()
        &&& forall|c: Id| #[trigger]
            self.children.contains_key(c) ==> self.children[c].inv()
        &&& self.lent() <= u64::MAX
        &&& -DEBT <= self.tokens <= 0x2_0000_0000_0000_0000
        &&& 0 <= self.used <= u128::MAX
    }

    /// The share: units per tick.
    pub open spec fn share(self) -> int {
        beyond(self.given as int, self.returned as int)
    }

    /// What the children hold from us.
    pub open spec fn lent(self) -> int {
        lent_to(self.children)
    }

    /// What we may still lend.
    pub open spec fn room(self) -> int {
        beyond(self.share(), self.lent())
    }

    /// What we lent beyond our share.
    pub open spec fn overcommit(self) -> int {
        beyond(self.lent(), self.share())
    }

    /// What the children asked for and did not get.
    pub open spec fn earmarked(self) -> u64 {
        clip(sum_over(self.children.dom(), wants(self.children)) as int)
    }

    /// What the children need and did not get.
    pub open spec fn reserved(self) -> u64 {
        clip(sum_over(self.children.dom(), needs(self.children)) as int)
    }

    /// What we need from the parent: what we and our children lent beyond our share.
    pub open spec fn need(self) -> u64 {
        clip(self.overcommit() + self.reserved())
    }

    /// What we would take from the parent beyond that: our own want and the children's.
    pub open spec fn want(self) -> u64 {
        clip(self.wanted + self.earmarked())
    }

    /// Everything we ask for.
    pub open spec fn ask(self) -> u64 {
        clip(self.need() + self.want())
    }

    /// What the bucket holds when full: two ticks of our own refill, or the burst.
    pub open spec fn capacity(self) -> int {
        max(2 * max(self.room(), 1), self.limit.burst as int)
    }

    /// The whole tokens that can be drawn.
    pub open spec fn available(self) -> u64 {
        if self.tokens < 0 {
            0
        } else {
            clip(self.tokens)
        }
    }

    /// The share is good at `now`.
    pub open spec fn good_at(self, now: u64) -> bool {
        self.valid_until matches Some(v) && now <= v
    }

    /// `amount` handed back to the parent, as far as the share goes.
    pub open spec fn handed_back(self, amount: int) -> Self {
        QuotaState { returned: (self.returned + min(amount, self.share())) as u64, ..self }
    }

    /// The leader holds the whole rate, and no less than it lent.
    pub open spec fn held(self) -> Self {
        QuotaState {
            given: max(self.limit.limit as int, self.lent()) as u64,
            returned: 0,
            valid_until: Some(u64::MAX),
            wanted: 0,
            refusals: 0,
            ..self
        }
    }

    /// The edge above is gone: nothing held.
    pub open spec fn let_go(self) -> Self {
        QuotaState { given: 0, returned: 0, valid_until: None, ..self }
    }

    /// A child's booking.
    pub open spec fn booking_of(self, c: Id) -> Booking {
        if self.children.contains_key(c) {
            self.children[c]
        } else {
            no_booking()
        }
    }

    /// `c` is a child: it holds something from us or waits for something.
    pub open spec fn has_child(self, c: Id) -> bool {
        self.children.contains_key(c) && self.children[c].spec_active()
    }

    /// The children: those that hold something from us or wait for something.
    pub open spec fn active_children(self) -> Set<Id> {
        Set::new(|c: Id| self.has_child(c))
    }

    /// Without the children in `gone`, counters and all.
    pub open spec fn without(self, gone: Set<Id>) -> Self {
        QuotaState { children: self.children.remove_keys(gone), ..self }
    }
}

// ------------------------------------------------------------ time

impl<Id> QuotaState<Id> {
    /// After `n` ticks that the clock has moved to `now`: use measured, the bucket refilled.
    pub open spec fn refilled(self, now: u64, n: u64) -> Self {
        QuotaState {
            use_rate: rate_of(self.used, n),
            used: 0,
            over_since: if self.lent() > self.share() {
                match self.over_since {
                    Some(since) => Some(since),
                    None => Some(now),
                }
            } else {
                None
            },
            tokens: min(self.tokens + self.room() * n, self.capacity()),
            ..self
        }
    }

    /// Some child's booking is past its time.
    pub open spec fn any_lapses(self, now: u64) -> bool {
        exists|c: Id| #[trigger]
            self.children.contains_key(c) && self.children[c].expires < now
                && self.children[c].spec_active()
    }

    /// With the bookings past their time lapsed. What lapsed goes back to the parent.
    pub open spec fn children_lapsed(self, now: u64, leader: bool) -> Self {
        let q = QuotaState {
            children: Map::new(
                |c: Id| self.children.contains_key(c),
                |c: Id| self.children[c].lapsed(now),
            ),
            ..self
        };
        let expired = self.lent() - q.lent();
        if expired > 0 && !leader {
            q.handed_back(min(expired, q.room()))
        } else {
            q
        }
    }

    /// The share is past its time, and more than the children hold.
    pub open spec fn drops(self, now: u64, leader: bool) -> bool {
        !leader && !self.good_at(now) && self.share() > self.lent()
    }

    /// A lapsed share has been lent to someone else by the parent: only what the children hold
    /// is kept.
    pub open spec fn share_lapsed(self, now: u64, leader: bool) -> Self {
        if self.drops(now, leader) {
            self.handed_back(self.share() - self.lent())
        } else {
            self
        }
    }

    /// One limit after `n` ticks.
    pub open spec fn ticked(self, now: u64, n: u64, leader: bool) -> Self {
        self.refilled(now, n).children_lapsed(now, leader).share_lapsed(now, leader)
    }

    /// Something changed in those ticks that the parent should hear of.
    pub open spec fn tick_changes(self, now: u64, n: u64, leader: bool) -> bool {
        ||| self.any_lapses(now)
        ||| self.refilled(now, n).children_lapsed(now, leader).drops(now, leader)
    }
}

// ------------------------------------------------------------ the call to the parent

impl<Id> QuotaState<Id> {
    /// Something is held, lent or asked for.
    pub open spec fn in_play(self) -> bool {
        self.given > 0 || self.lent() > 0 || self.ask() > 0
    }

    /// What is kept while the bucket is full: what we lent, one chunk, and what the children
    /// are waiting for.
    pub open spec fn keep(self) -> u64 {
        clip(self.lent() + self.limit.chunk + self.earmarked() + self.reserved())
    }

    /// The bucket is full: we are not using our share.
    pub open spec fn full(self) -> bool {
        self.tokens >= self.capacity()
    }

    /// Spare share handed back.
    pub open spec fn trimmed(self) -> Self {
        if self.full() && self.share() > self.keep() {
            self.handed_back(self.share() - self.keep())
        } else {
            self
        }
    }

    /// One limit after a call at `now`.
    pub open spec fn called(self, now: u64) -> Self {
        if !self.in_play() {
            self
        } else {
            let q = self.trimmed();
            if q.need() > 0 || q.want() > 0 {
                QuotaState { last_request: Some(now), ..q }
            } else {
                q
            }
        }
    }

    /// What the call says of one limit in play.
    pub open spec fn report<K>(self, key: K) -> RequestItem<K> {
        let q = self.trimmed();
        RequestItem {
            key,
            given: q.given,
            returned: q.returned,
            needed: q.need(),
            wanted: q.want(),
        }
    }
}

// ------------------------------------------------------------ the answer from the parent

impl<Id> QuotaState<Id> {
    /// The edge's counters as the parent answered them: its `given`, the larger `returned`.
    pub open spec fn counted<K>(self, it: ResponseItem<K>) -> Self {
        QuotaState {
            given: it.given,
            returned: max(self.returned as int, it.returned as int) as u64,
            ..self
        }
    }

    /// The answer cut the share.
    pub open spec fn cut_by<K>(self, it: ResponseItem<K>) -> bool {
        self.counted(it).share() < self.share()
    }

    /// One limit after an answer to a call sent at `sent`.
    pub open spec fn adopted<K>(self, it: ResponseItem<K>, sent: u64, ttl: u64) -> Self {
        let q = self.counted(it);
        let got = q.share() - self.share();
        // What arrived goes to the children waiting for it first; only the rest counts
        // against our own want.
        let spoken_for = min(clip(q.need() + q.earmarked()) as int, got);
        QuotaState {
            wanted: if got > 0 {
                beyond(q.wanted as int, got - spoken_for) as u64
            } else {
                q.wanted
            },
            refusals: if got > 0 {
                0
            } else if q.ask() > 0 && q.refusals < u32::MAX {
                (q.refusals + 1) as u32
            } else {
                q.refusals
            },
            tokens: if got < 0 {
                min(q.tokens, max(max(q.room(), 1), q.limit.burst as int))
            } else {
                q.tokens
            },
            // A share is dated from the tick that the call was sent.
            valid_until: Some(
                match q.valid_until {
                    Some(v) => max(v as int, clip(sent + ttl) as int) as u64,
                    None => clip(sent + ttl),
                },
            ),
            ..q
        }
    }
}

// ------------------------------------------------------------ a child's call

/// A child's weight in a split. A child not listed weighs one.
pub open spec fn weight_in<Id>(weights: Map<Id, u64>, c: Id) -> u64 {
    if weights.contains_key(c) {
        weights[c]
    } else {
        1
    }
}

impl<Id: Ord> QuotaState<Id> {
    /// With what the child returned merged into its booking, and the time noted if we have lent
    /// more than we hold.
    pub open spec fn booked<K>(self, from: Id, it: RequestItem<K>, now: u64) -> Self {
        let q = QuotaState {
            children: self.children.insert(from, self.booking_of(from).merged(it.returned)),
            ..self
        };
        QuotaState {
            over_since: if q.lent() > q.share() && q.over_since is None {
                Some(now)
            } else {
                q.over_since
            },
            ..q
        }
    }

    /// What the child returned since it last called.
    pub open spec fn came_back<K>(self, from: Id, it: RequestItem<K>) -> int {
        self.booking_of(from).merged(it.returned).returned - self.booking_of(from).returned
    }

    /// The share that the child knows of.
    pub open spec fn known<K>(self, from: Id, it: RequestItem<K>) -> int {
        let b = self.children[from];
        beyond(min(it.given as int, b.given as int), b.returned as int)
    }

    /// What the child would hold in all, by what it says: the share it knows of, what it needs
    /// and what it wants; and never less than we booked for it.
    pub open spec fn demand<K>(self, from: Id, it: RequestItem<K>) -> u64 {
        max(
            clip(self.known(from, it) + it.needed + it.wanted) as int,
            self.children[from].spec_share(),
        ) as u64
    }

    /// The claims on our share: the caller as it just reported, the other children as booked,
    /// in id order, and our own use and want at weight one.
    pub open spec fn claims<K>(
        self,
        from: Id,
        it: RequestItem<K>,
        weights: Map<Id, u64>,
    ) -> Seq<(u64, u64)> {
        in_order(self.children.dom()).map_values(
            |c: Id|
                (
                    weight_in(weights, c),
                    if c == from {
                        self.demand(from, it)
                    } else {
                        self.children[c].claim()
                    },
                ),
        ).push((1, clip(self.use_rate + self.wanted)))
    }

    /// The child's entitlement: its part of our share in the fair split among all claims.
    pub open spec fn entitlement<K>(
        self,
        from: Id,
        it: RequestItem<K>,
        weights: Map<Id, u64>,
    ) -> int {
        fair_split(self.share() as nat, self.claims(from, it, weights))[in_order(
            self.children.dom(),
        ).index_of(from)] as int
    }

    /// We have lent more than we hold, but not for a keepalive round yet, and can ask upward:
    /// our own answer may cover it.
    pub open spec fn in_grace(self, now: u64, ttl: u64, can_ask: bool) -> bool {
        &&& self.lent() > self.share()
        &&& can_ask
        &&& !(self.over_since matches Some(since) && now >= since + ttl / 2)
    }

    /// What the child may be over its entitlement before it is cut.
    pub open spec fn slack(self) -> u64 {
        if self.lent() > self.share() {
            0
        } else {
            self.limit.chunk
        }
    }

    /// What the child holds after the call. Past its entitlement and the slack it is cut to its
    /// entitlement, unless grace runs; otherwise it gets up to its entitlement, within the room
    /// we have.
    pub open spec fn settled<K>(
        self,
        from: Id,
        it: RequestItem<K>,
        weights: Map<Id, u64>,
        now: u64,
        ttl: u64,
        can_ask: bool,
    ) -> int {
        let booked = self.children[from].spec_share();
        let fair = self.entitlement(from, it, weights);
        if self.in_grace(now, ttl, can_ask) || booked <= fair + self.slack() {
            min(
                max(min(self.demand(from, it) as int, fair), booked),
                booked + self.room(),
            )
        } else {
            fair
        }
    }

    /// What the child needs and does not get when it holds `total`. Needs are served first.
    pub open spec fn short_need<K>(self, from: Id, it: RequestItem<K>, total: int) -> int {
        it.needed - min(beyond(total, self.known(from, it)), it.needed as int)
    }

    /// What the child wants and does not get when it holds `total`.
    pub open spec fn short_want<K>(self, from: Id, it: RequestItem<K>, total: int) -> int {
        let served = beyond(total, self.known(from, it));
        it.wanted - min(served - min(served, it.needed as int), it.wanted as int)
    }

    /// The child's booking once it holds `total`: a gift raises `given`, a cut raises
    /// `returned`.
    pub open spec fn rebooked<K>(
        self,
        from: Id,
        it: RequestItem<K>,
        total: int,
        now: u64,
        ttl: u64,
    ) -> Booking {
        let b = self.children[from];
        Booking {
            given: clip(b.given + beyond(total, b.spec_share())),
            returned: (b.returned + beyond(b.spec_share(), total)) as u64,
            expires: clip(now + ttl),
            wanted: self.short_want(from, it, total) as u64,
            needed: self.short_need(from, it, total) as u64,
        }
    }

    /// One limit after a child's call.
    pub open spec fn served<K>(
        self,
        from: Id,
        it: RequestItem<K>,
        weights: Map<Id, u64>,
        now: u64,
        ttl: u64,
        can_ask: bool,
    ) -> Self {
        let q = self.booked(from, it, now);
        let total = q.settled(from, it, weights, now, ttl, can_ask);
        let b = q.rebooked(from, it, total, now, ttl);
        let came_back = self.came_back(from, it);
        let was = self.booking_of(from);
        // What a child gave back was fetched for it and is the tree's, not ours.
        let r = if came_back > 0 && can_ask {
            q.handed_back(min(came_back, q.room()))
        } else {
            q
        };
        QuotaState {
            children: r.children.insert(from, b),
            // New demand from below: ask upward at the next tick.
            last_request: if can_ask && (b.needed > was.needed || b.wanted > was.wanted) {
                None
            } else {
                r.last_request
            },
            ..r
        }
    }
}

// ------------------------------------------------------------ drawing

impl<Id> QuotaState<Id> {
    /// A draw of `amount` is short of tokens, or there is no good share to draw on.
    pub open spec fn short_of(self, amount: u64, good: bool) -> bool {
        !good || self.available() < amount
    }

    /// Marked wanted, when a draw is short.
    pub open spec fn marked(self, amount: u64, good: bool) -> Self {
        if self.short_of(amount, good) {
            QuotaState {
                wanted: max(max(self.wanted as int, self.limit.chunk as int), amount as int) as u64,
                ..self
            }
        } else {
            self
        }
    }

    /// After a draw of `amount`. Without a good share nothing leaves the bucket, but the use
    /// counts.
    pub open spec fn drawn(self, amount: u64, good: bool) -> Self {
        QuotaState {
            tokens: if good {
                max(self.tokens - amount, -DEBT)
            } else {
                self.tokens
            },
            used: min(self.used + amount, u128::MAX as int),
            ..self
        }
    }
}

// ------------------------------------------------------------ sums over the children

/// Rebooking one child changes what is lent by the difference of its shares.
pub proof fn lemma_lent_insert<Id>(children: Map<Id, Booking>, c: Id, b: Booking)
    requires
        children.dom().finite(),
    ensures
        children.insert(c, b).dom().finite(),
        lent_to(children.insert(c, b)) == lent_to(children) + b.spec_share() - (
        if children.contains_key(c) {
            children[c].spec_share()
        } else {
            0
        }),
{
    let after = children.insert(c, b);
    let rest = children.dom().remove(c);
    assert(after.dom().remove(c) =~= rest);
    lemma_sum_remove(after.dom(), c, shares(after));
    lemma_sum_compare(rest, shares(after), shares(children));
    if children.contains_key(c) {
        lemma_sum_remove(children.dom(), c, shares(children));
    } else {
        assert(rest =~= children.dom());
    }
}

/// A child's share is at most what is lent.
pub proof fn lemma_lent_part<Id>(children: Map<Id, Booking>, c: Id)
    requires
        children.dom().finite(),
        children.contains_key(c),
    ensures
        children[c].spec_share() <= lent_to(children),
{
    lemma_sum_part(children.dom(), c, shares(children));
}

/// With smaller shares, less is lent.
pub proof fn lemma_lent_less<Id>(children: Map<Id, Booking>, after: Map<Id, Booking>)
    requires
        children.dom().finite(),
        after.dom() == children.dom(),
        forall|c: Id| #[trigger]
            children.contains_key(c) ==> after[c].spec_share() <= children[c].spec_share(),
    ensures
        lent_to(after) <= lent_to(children),
{
    assert forall|c: Id| children.dom().contains(c) implies #[trigger] shares(after)(c) <= shares(
        children,
    )(c) by {
        assert(children.contains_key(c));
    }
    lemma_sum_compare(children.dom(), shares(after), shares(children));
}

/// Without some children, less is lent.
pub proof fn lemma_lent_without<Id>(children: Map<Id, Booking>, gone: Set<Id>)
    requires
        children.dom().finite(),
    ensures
        children.remove_keys(gone).dom().finite(),
        lent_to(children.remove_keys(gone)) <= lent_to(children),
    decreases children.dom().len(),
{
    let after = children.remove_keys(gone);
    if exists|c: Id| children.contains_key(c) && gone.contains(c) {
        let c = choose|c: Id| children.contains_key(c) && gone.contains(c);
        let rest = children.remove(c);
        lemma_lent_without(rest, gone);
        assert(rest.remove_keys(gone) =~= after);
        lemma_sum_remove(children.dom(), c, shares(children));
        assert(rest.dom() =~= children.dom().remove(c));
        lemma_sum_compare(rest.dom(), shares(rest), shares(children));
    } else {
        assert(after =~= children);
    }
}

proof fn lemma_prefix_sum<T>(s: Seq<T>, f: spec_fn(T) -> nat, k: nat)
    requires
        k <= s.len(),
    ensures
        sum_along(s.take(k as int), f) <= sum_along(s, f),
        k < s.len() ==> sum_along(s.take((k + 1) as int), f) == sum_along(s.take(k as int), f) + f(
            s[k as int],
        ),
    decreases s.len() - k,
{
    if k < s.len() {
        lemma_prefix_sum(s, f, k + 1);
        assert(s.take((k + 1) as int).drop_last() =~= s.take(k as int));
    } else {
        assert(s.take(k as int) =~= s);
    }
}

// ------------------------------------------------------------ the state in memory

/// One limit's state on this node, in memory.
pub struct Quota<Id: Ord + Clone> {
    limit: Limit,
    given: u64,
    returned: u64,
    tokens: i128,
    children: BTreeMap<Id, Booking>,
    valid_until: Option<u64>,
    wanted: u64,
    last_request: Option<u64>,
    refusals: u32,
    used: u128,
    use_rate: u64,
    over_since: Option<u64>,
}

impl<Id: Ord + Clone> View for Quota<Id> {
    type V = QuotaState<Id>;

    closed spec fn view(&self) -> QuotaState<Id> {
        QuotaState {
            limit: self.limit,
            given: self.given,
            returned: self.returned,
            tokens: self.tokens as int,
            children: self.children@,
            valid_until: self.valid_until,
            wanted: self.wanted,
            last_request: self.last_request,
            refusals: self.refusals,
            used: self.used as int,
            use_rate: self.use_rate,
            over_since: self.over_since,
        }
    }
}

fn larger(a: u64, b: u64) -> (r: u64)
    ensures
        r == max(a as int, b as int),
{
    if a > b {
        a
    } else {
        b
    }
}

fn smaller(a: u64, b: u64) -> (r: u64)
    ensures
        r == min(a as int, b as int),
{
    if a < b {
        a
    } else {
        b
    }
}

/// What was drawn in `n` ticks, per tick, rounded up.
fn rate(used: u128, n: u64) -> (r: u64)
    ensures
        r == rate_of(used as int, n),
{
    if n == 0 {
        if used > 0 {
            u64::MAX
        } else {
            0
        }
    } else {
        let whole: u128 = used / n as u128;
        if whole >= u64::MAX as u128 {
            u64::MAX
        } else if used % n as u128 == 0 {
            whole as u64
        } else {
            (whole + 1) as u64
        }
    }
}

impl<Id: Ord + Clone> Quota<Id> {
    /// A limit just configured.
    pub fn new(limit: Limit) -> (r: Self)
        ensures
            r@ == QuotaState::<Id>::fresh(limit),
            r@.inv(),
    {
        let r = Quota {
            limit,
            given: 0,
            returned: 0,
            tokens: 0,
            children: BTreeMap::new(),
            valid_until: None,
            wanted: 0,
            last_request: None,
            refusals: 0,
            used: 0,
            use_rate: 0,
            over_since: None,
        };
        assert(r@ =~= QuotaState::<Id>::fresh(limit));
        r
    }

    /// What was given by the parent, ever.
    pub fn total_given(&self) -> (r: u64)
        ensures
            r == self@.given,
    {
        self.given
    }

    /// What is still wanted from the parent.
    pub fn still_wanted(&self) -> (r: u64)
        ensures
            r == self@.wanted,
    {
        self.wanted
    }

    /// How the limit was last asked for: when, and how often in vain.
    pub fn asked(&self) -> (r: (Option<u64>, u32))
        ensures
            r == (self@.last_request, self@.refusals),
    {
        (self.last_request, self.refusals)
    }

    /// The share: units per tick.
    pub fn share(&self) -> (r: u64)
        ensures
            r == self@.share(),
    {
        self.given.saturating_sub(self.returned)
    }

    /// What the children hold from us.
    pub fn lent(&self) -> (r: u64)
        requires
            lawful::<Id>(),
            self@.inv(),
        ensures
            r == self@.lent(),
    {
        let mut sum: u64 = 0;
        let all = self.children.iter();
        let ghost ids = in_order(self.children@.dom());
        let ghost f = shares(self.children@);
        proof {
            lemma_iter(&self.children, all);
            lemma_in_order(self.children@.dom());
            lemma_sum_listing(ids, f);
            assert(ids.take(0) =~= Seq::<Id>::empty());
        }
        for e in it: all
            invariant
                it.seq().len() == ids.len(),
                sum_along(ids, f) <= u64::MAX,
                f == shares(self.children@),
                forall|i: int|
                    #![trigger it.seq()[i]]
                    0 <= i < it.seq().len() ==> *it.seq()[i].0 == ids[i] && *it.seq()[i].1
                        == self.children@[ids[i]],
                sum == sum_along(ids.take(it.index() as int), f),
        {
            proof {
                lemma_prefix_sum(ids, f, it.index() as nat);
                lemma_prefix_sum(ids, f, (it.index() + 1) as nat);
            }
            sum = sum + e.1.share();
        }
        proof {
            assert(ids.take(ids.len() as int) =~= ids);
        }
        sum
    }

    /// What we may still lend.
    pub fn room(&self) -> (r: u64)
        requires
            lawful::<Id>(),
            self@.inv(),
        ensures
            r == self@.room(),
    {
        self.share().saturating_sub(self.lent())
    }

    /// What we lent beyond our share.
    pub fn overcommit(&self) -> (r: u64)
        requires
            lawful::<Id>(),
            self@.inv(),
        ensures
            r == self@.overcommit(),
    {
        self.lent().saturating_sub(self.share())
    }

    /// What the children asked for and did not get.
    fn earmarked(&self) -> (r: u64)
        requires
            lawful::<Id>(),
            self@.inv(),
        ensures
            r == self@.earmarked(),
    {
        let mut sum: u64 = 0;
        let all = self.children.iter();
        let ghost ids = in_order(self.children@.dom());
        let ghost f = wants(self.children@);
        proof {
            lemma_iter(&self.children, all);
            lemma_in_order(self.children@.dom());
            lemma_sum_listing(ids, f);
            assert(ids.take(0) =~= Seq::<Id>::empty());
        }
        for e in it: all
            invariant
                it.seq().len() == ids.len(),
                f == wants(self.children@),
                forall|i: int|
                    #![trigger it.seq()[i]]
                    0 <= i < it.seq().len() ==> *it.seq()[i].0 == ids[i] && *it.seq()[i].1
                        == self.children@[ids[i]],
                sum == clip(sum_along(ids.take(it.index() as int), f) as int),
        {
            proof {
                lemma_prefix_sum(ids, f, it.index() as nat);
            }
            sum = sum.saturating_add(e.1.wanted);
        }
        proof {
            assert(ids.take(ids.len() as int) =~= ids);
        }
        sum
    }

    /// What the children need and did not get.
    fn reserved(&self) -> (r: u64)
        requires
            lawful::<Id>(),
            self@.inv(),
        ensures
            r == self@.reserved(),
    {
        let mut sum: u64 = 0;
        let all = self.children.iter();
        let ghost ids = in_order(self.children@.dom());
        let ghost f = needs(self.children@);
        proof {
            lemma_iter(&self.children, all);
            lemma_in_order(self.children@.dom());
            lemma_sum_listing(ids, f);
            assert(ids.take(0) =~= Seq::<Id>::empty());
        }
        for e in it: all
            invariant
                it.seq().len() == ids.len(),
                f == needs(self.children@),
                forall|i: int|
                    #![trigger it.seq()[i]]
                    0 <= i < it.seq().len() ==> *it.seq()[i].0 == ids[i] && *it.seq()[i].1
                        == self.children@[ids[i]],
                sum == clip(sum_along(ids.take(it.index() as int), f) as int),
        {
            proof {
                lemma_prefix_sum(ids, f, it.index() as nat);
            }
            sum = sum.saturating_add(e.1.needed);
        }
        proof {
            assert(ids.take(ids.len() as int) =~= ids);
        }
        sum
    }

    /// What we need from the parent.
    fn need(&self) -> (r: u64)
        requires
            lawful::<Id>(),
            self@.inv(),
        ensures
            r == self@.need(),
    {
        self.overcommit().saturating_add(self.reserved())
    }

    /// What we would take from the parent beyond that.
    fn want(&self) -> (r: u64)
        requires
            lawful::<Id>(),
            self@.inv(),
        ensures
            r == self@.want(),
    {
        self.wanted.saturating_add(self.earmarked())
    }

    /// Everything we ask for.
    pub fn ask(&self) -> (r: u64)
        requires
            lawful::<Id>(),
            self@.inv(),
        ensures
            r == self@.ask(),
    {
        self.need().saturating_add(self.want())
    }

    /// What the bucket holds when full.
    fn capacity(&self) -> (r: i128)
        requires
            lawful::<Id>(),
            self@.inv(),
        ensures
            r == self@.capacity(),
            2 <= r <= 0x2_0000_0000_0000_0000,
    {
        let twice: i128 = 2 * (larger(self.room(), 1) as i128);
        let burst: i128 = self.limit.burst as i128;
        if twice > burst {
            twice
        } else {
            burst
        }
    }

    /// The whole tokens that can be drawn.
    pub fn available(&self) -> (r: u64)
        ensures
            r == self@.available(),
    {
        if self.tokens < 0 {
            0
        } else if self.tokens > u64::MAX as i128 {
            u64::MAX
        } else {
            self.tokens as u64
        }
    }

    /// Whether the share is good at `now`.
    pub fn good_at(&self, now: u64) -> (r: bool)
        ensures
            r == self@.good_at(now),
    {
        match self.valid_until {
            Some(v) => now <= v,
            None => false,
        }
    }

    /// Hand `amount` back to the parent, from the share.
    fn hand_back(&mut self, amount: u64)
        ensures
            final(self)@ == old(self)@.handed_back(amount as int),
    {
        let back = smaller(amount, self.share());
        self.returned = self.returned + back;
    }

    /// Set the limit.
    pub fn set_limit(&mut self, limit: Limit)
        ensures
            final(self)@ == (QuotaState { limit, ..old(self)@ }),
    {
        self.limit = limit;
    }

    /// Hold the whole rate.
    pub fn hold_limit(&mut self)
        requires
            lawful::<Id>(),
            old(self)@.inv(),
        ensures
            final(self)@ == old(self)@.held(),
            final(self)@.inv(),
    {
        let lent = self.lent();
        self.returned = 0;
        self.given = larger(self.limit.limit, lent);
        self.valid_until = Some(u64::MAX);
        self.wanted = 0;
        self.refusals = 0;
    }

    /// Hold nothing: the edge above is gone.
    pub fn let_go(&mut self)
        ensures
            final(self)@ == old(self)@.let_go(),
    {
        self.given = 0;
        self.returned = 0;
        self.valid_until = None;
    }

    /// Start over with a new parent: nothing held, nothing refused yet.
    pub fn start_over(&mut self)
        ensures
            final(self)@ == (QuotaState { refusals: 0, ..old(self)@.let_go() }),
    {
        self.let_go();
        self.refusals = 0;
    }
}

impl<Id: Ord + Clone> Quota<Id> {
    /// Measure use and refill the bucket.
    fn refill(&mut self, now: u64, n: u64)
        requires
            lawful::<Id>(),
            old(self)@.inv(),
        ensures
            final(self)@ == old(self)@.refilled(now, n),
            final(self)@.inv(),
    {
        let room = self.room();
        let cap = self.capacity();
        let over = self.lent() > self.share();
        self.use_rate = rate(self.used, n);
        self.used = 0;
        self.over_since = if over {
            match self.over_since {
                Some(since) => Some(since),
                None => Some(now),
            }
        } else {
            None
        };
        proof {
            assert(0 <= room as nat * n as nat <= 0xffff_ffff_ffff_ffff * 0xffff_ffff_ffff_ffff)
                by (nonlinear_arith)
                requires
                    room <= 0xffff_ffff_ffff_ffff,
                    n <= 0xffff_ffff_ffff_ffff,
            ;
        }
        let gain: u128 = room as u128 * n as u128;
        let lack: i128 = cap - self.tokens;
        if lack <= 0 || gain >= lack as u128 {
            self.tokens = cap;
        } else {
            self.tokens = self.tokens + gain as i128;
        }
    }

    /// Lapse the bookings past their time. Whether there were any.
    fn lapse_children(&mut self, now: u64, leader: bool) -> (r: bool)
        requires
            lawful::<Id>(),
            old(self)@.inv(),
        ensures
            final(self)@ == old(self)@.children_lapsed(now, leader),
            final(self)@.inv(),
            r == old(self)@.any_lapses(now),
    {
        let before = self.lent();
        let ids = keys_of(&self.children);
        let ghost start = self@;
        let ghost kids = self.children@;
        let mut any: bool = false;
        proof {
            lemma_in_order(kids.dom());
        }
        for i in 0..ids.len()
            invariant
                lawful::<Id>(),
                ids@ == in_order(kids.dom()),
                ids@.no_duplicates(),
                forall|j: int| 0 <= j < ids@.len() ==> kids.contains_key(#[trigger] ids@[j]),
                forall|c: Id| #[trigger] kids.contains_key(c) ==> kids[c].inv(),
                self@ == (QuotaState { children: self.children@, ..start }),
                self.children@.dom() == kids.dom(),
                forall|j: int|
                    0 <= j < ids@.len() ==> self.children@[#[trigger] ids@[j]] == if j < i {
                        kids[ids@[j]].lapsed(now)
                    } else {
                        kids[ids@[j]]
                    },
                any == exists|j: int|
                    0 <= j < i && kids[#[trigger] ids@[j]].expires < now
                        && kids[ids@[j]].spec_active(),
        {
            let ghost was = self.children@;
            let b = match self.children.get(&ids[i]) {
                Some(b) => *b,
                None => Booking::default(),
            };
            assert(kids.contains_key(ids@[i as int]));
            assert(b == kids[ids@[i as int]]);
            if b.expires < now && b.active() {
                let gone = Booking {
                    given: b.given,
                    returned: b.given,
                    expires: b.expires,
                    wanted: 0,
                    needed: 0,
                };
                self.children.insert(copy_of(&ids[i]), gone);
                any = true;
                assert(self.children@ =~= was.insert(ids@[i as int], gone));
                assert(self.children@.dom() =~= kids.dom());
                assert forall|j: int| 0 <= j < ids@.len() implies self.children@[#[trigger] ids@[j]]
                    == if j < i + 1 {
                    kids[ids@[j]].lapsed(now)
                } else {
                    kids[ids@[j]]
                } by {
                    if j != i {
                        assert(ids@[j] != ids@[i as int]);
                    }
                }
            }
        }
        proof {
            let after = Map::new(
                |c: Id| start.children.contains_key(c),
                |c: Id| start.children[c].lapsed(now),
            );
            assert forall|c: Id| kids.contains_key(c) implies self.children@[c] == kids[c].lapsed(
                now,
            ) by {
                assert(ids@.contains(c));
                let j = choose|j: int| 0 <= j < ids@.len() && ids@[j] == c;
            }
            assert(self.children@ =~= after);
            lemma_lent_less(kids, after);
            if start.any_lapses(now) {
                let c = choose|c: Id| #[trigger]
                    start.children.contains_key(c) && start.children[c].expires < now
                        && start.children[c].spec_active();
                assert(ids@.contains(c));
                let j = choose|j: int| 0 <= j < ids@.len() && ids@[j] == c;
                assert(kids[ids@[j]].expires < now);
            }
        }
        let expired: u64 = before - self.lent();
        if expired > 0 && !leader {
            let back = smaller(expired, self.room());
            self.hand_back(back);
        }
        any
    }

    /// Drop a share past its time, but for what the children hold. Whether it was.
    fn lapse_share(&mut self, now: u64, leader: bool) -> (r: bool)
        requires
            lawful::<Id>(),
            old(self)@.inv(),
        ensures
            final(self)@ == old(self)@.share_lapsed(now, leader),
            final(self)@.inv(),
            r == old(self)@.drops(now, leader),
    {
        let (share, lent) = (self.share(), self.lent());
        if !leader && !self.good_at(now) && share > lent {
            self.hand_back(share - lent);
            true
        } else {
            false
        }
    }

    /// Pass `n` ticks, up to `now`. Whether anything changed that the parent should hear of.
    pub fn tick(&mut self, now: u64, n: u64, leader: bool) -> (r: bool)
        requires
            lawful::<Id>(),
            old(self)@.inv(),
        ensures
            final(self)@ == old(self)@.ticked(now, n, leader),
            final(self)@.inv(),
            r == old(self)@.tick_changes(now, n, leader),
    {
        self.refill(now, n);
        let lapsed = self.lapse_children(now, leader);
        let dropped = self.lapse_share(now, leader);
        lapsed || dropped
    }

    /// Whether anything is held, lent or asked for.
    pub fn in_play(&self) -> (r: bool)
        requires
            lawful::<Id>(),
            self@.inv(),
        ensures
            r == self@.in_play(),
    {
        self.given > 0 || self.lent() > 0 || self.ask() > 0
    }

    /// What to tell the parent of this limit, after handing back what is spare.
    pub fn report<K>(&mut self, key: K, now: u64) -> (r: RequestItem<K>)
        requires
            lawful::<Id>(),
            old(self)@.inv(),
            old(self)@.in_play(),
        ensures
            final(self)@ == old(self)@.called(now),
            final(self)@.inv(),
            r == old(self)@.report(key),
    {
        // While the bucket is full we are not using our share: keep one chunk beyond what we
        // lent, and never what a child is waiting for; hand back the rest.
        if self.tokens >= self.capacity() {
            let keep = self.lent().saturating_add(self.limit.chunk).saturating_add(
                self.earmarked(),
            ).saturating_add(self.reserved());
            let share = self.share();
            if share > keep {
                self.hand_back(share - keep);
            }
        }
        assert(self@ == old(self)@.trimmed());
        let (need, want) = (self.need(), self.want());
        if need > 0 || want > 0 {
            self.last_request = Some(now);
        }
        RequestItem { key, given: self.given, returned: self.returned, needed: need, wanted: want }
    }

    /// Take the parent's answer to a call sent at `sent`. Whether it cut our share.
    pub fn adopt<K>(&mut self, it: &ResponseItem<K>, sent: u64, ttl: u64) -> (r: bool)
        requires
            lawful::<Id>(),
            old(self)@.inv(),
        ensures
            final(self)@ == old(self)@.adopted(*it, sent, ttl),
            final(self)@.inv(),
            r == old(self)@.cut_by(*it),
    {
        let had = self.share();
        self.given = it.given;
        self.returned = larger(self.returned, it.returned);
        assert(self@ == old(self)@.counted(*it));
        let share = self.share();
        let ghost q = self@;
        if share > had {
            let got: u64 = share - had;
            let spoken_for = smaller(self.need().saturating_add(self.earmarked()), got);
            self.wanted = self.wanted.saturating_sub(got - spoken_for);
            self.refusals = 0;
        } else if self.ask() > 0 {
            self.refusals = self.refusals.saturating_add(1);
        }
        if share < had {
            // A cut: the bucket shrinks to one tick of the new share, no burst, or every cut
            // would leak one.
            let most: i128 = larger(larger(self.room(), 1), self.limit.burst) as i128;
            if self.tokens > most {
                self.tokens = most;
            }
        }
        let until = sent.saturating_add(ttl);
        self.valid_until = Some(
            match self.valid_until {
                Some(v) => larger(v, until),
                None => until,
            },
        );
        share < had
    }
}

/// A child's weight in a split.
fn weight_of_child<Id: Ord + Clone>(weights: &BTreeMap<Id, u64>, c: &Id) -> (r: u64)
    requires
        lawful::<Id>(),
    ensures
        r == weight_in(weights@, *c),
{
    match weights.get(c) {
        Some(w) => *w,
        None => 1,
    }
}

impl<Id: Ord + Clone> QuotaState<Id> {
    /// Booking what a child returned keeps what holds of a limit; the child has a claim.
    pub proof fn lemma_booked<K>(self, from: Id, it: RequestItem<K>, now: u64)
        requires
            lawful::<Id>(),
            self.inv(),
        ensures
            self.booked(from, it, now).inv(),
            self.booked(from, it, now).children == self.children.insert(
                from,
                self.booking_of(from).merged(it.returned),
            ),
            self.booked(from, it, now).lent() <= self.lent(),
            self.booked(from, it, now).children[from].spec_share() <= self.booked(
                from,
                it,
                now,
            ).lent(),
            0 <= in_order(self.booked(from, it, now).children.dom()).index_of(from) < in_order(
                self.booked(from, it, now).children.dom(),
            ).len(),
            in_order(self.booked(from, it, now).children.dom())[in_order(
                self.booked(from, it, now).children.dom(),
            ).index_of(from)] == from,
    {
        let b = self.booking_of(from).merged(it.returned);
        let q = self.booked(from, it, now);
        lemma_lent_insert(self.children, from, b);
        assert(q.children == self.children.insert(from, b));
        let ids = in_order(q.children.dom());
        lemma_in_order(q.children.dom());
        assert(q.children.dom().contains(from));
        assert(ids.contains(from));
        lemma_lent_part(q.children, from);
    }

    /// The entitlement is at most what is demanded.
    pub proof fn lemma_entitled<K>(self, from: Id, it: RequestItem<K>, weights: Map<Id, u64>)
        requires
            0 <= in_order(self.children.dom()).index_of(from) < in_order(self.children.dom()).len(),
            in_order(self.children.dom())[in_order(self.children.dom()).index_of(from)] == from,
        ensures
            0 <= self.entitlement(from, it, weights) <= self.demand(from, it),
    {
        let mine = in_order(self.children.dom()).index_of(from);
        let claims = self.claims(from, it, weights);
        law_split_within_demand(self.share() as nat, claims, mine);
        assert(claims[mine].1 == self.demand(from, it));
    }

    /// A child's call keeps what holds of a limit, and lends no more than there was lent or
    /// than we hold.
    pub proof fn lemma_served<K>(
        self,
        from: Id,
        it: RequestItem<K>,
        weights: Map<Id, u64>,
        now: u64,
        ttl: u64,
        can_ask: bool,
    )
        requires
            lawful::<Id>(),
            self.inv(),
        ensures
            0 <= self.booked(from, it, now).settled(from, it, weights, now, ttl, can_ask)
                <= u64::MAX,
            self.served(from, it, weights, now, ttl, can_ask).inv(),
            self.served(from, it, weights, now, ttl, can_ask).lent() <= max(
                self.lent(),
                self.share(),
            ),
    {
        let q = self.booked(from, it, now);
        self.lemma_booked(from, it, now);
        q.lemma_entitled(from, it, weights);
        let b = q.children[from];
        assert(q.children.contains_key(from));
        assert(b.inv());
        let total = q.settled(from, it, weights, now, ttl, can_ask);
        let c = q.rebooked(from, it, total, now, ttl);
        assert(c.inv());
        lemma_lent_insert(q.children, from, c);
        let after = self.served(from, it, weights, now, ttl, can_ask);
        assert(after.children == q.children.insert(from, c));
        assert(c.spec_share() <= total);
        assert(total <= max(b.spec_share(), b.spec_share() + q.room()));
        assert(after.lent() <= max(q.lent(), q.share()));
    }
}

impl<Id: Ord + Clone> Quota<Id> {
    /// The claims on our share, and which of them is the caller's.
    fn claims<K>(
        &self,
        from: &Id,
        it: &RequestItem<K>,
        demand: u64,
        weights: &BTreeMap<Id, u64>,
    ) -> (r: (Vec<(u64, u64)>, usize))
        requires
            lawful::<Id>(),
            self@.inv(),
            self@.children.contains_key(*from),
            demand == self@.demand(*from, *it),
        ensures
            r.0@ == self@.claims(*from, *it, weights@),
            r.1 == in_order(self@.children.dom()).index_of(*from),
            r.1 < r.0@.len(),
    {
        let mut claims: Vec<(u64, u64)> = Vec::new();
        let mut mine: usize = 0;
        let all = self.children.iter();
        let ghost ids = in_order(self.children@.dom());
        let ghost want = self@.claims(*from, *it, weights@);
        proof {
            lemma_iter(&self.children, all);
            lemma_in_order(self.children@.dom());
            assert(ids.contains(*from));
        }
        for e in x: all
            invariant
                lawful::<Id>(),
                x.seq().len() == ids.len(),
                ids == in_order(self@.children.dom()),
                ids.contains(*from),
                ids.no_duplicates(),
                demand == self@.demand(*from, *it),
                want == self@.claims(*from, *it, weights@),
                forall|i: int|
                    #![trigger x.seq()[i]]
                    0 <= i < x.seq().len() ==> *x.seq()[i].0 == ids[i] && *x.seq()[i].1
                        == self@.children[ids[i]],
                claims@ =~= want.take(x.index() as int),
                x.index() > ids.index_of(*from) ==> mine == ids.index_of(*from),
        {
            let (c, b) = e;
            if same(c, from) {
                assert(ids[x.index() as int] == *from);
                mine = claims.len();
                claims.push((weight_of_child(weights, from), demand));
            } else {
                claims.push(
                    (
                        weight_of_child(weights, c),
                        b.share().saturating_add(b.needed).saturating_add(b.wanted),
                    ),
                );
            }
        }
        claims.push((1, self.use_rate.saturating_add(self.wanted)));
        assert(claims@ =~= want);
        (claims, mine)
    }

    /// Merge what a child returned into its booking. The booking before.
    fn book<K>(&mut self, from: &Id, it: &RequestItem<K>, now: u64) -> (was: Booking)
        requires
            lawful::<Id>(),
            old(self)@.inv(),
        ensures
            was == old(self)@.booking_of(*from),
            final(self)@ == old(self)@.booked(*from, *it, now),
            final(self)@.inv(),
    {
        let ghost start = self@;
        proof {
            start.lemma_booked(*from, *it, now);
        }
        let was = match self.children.get(from) {
            Some(b) => *b,
            None => Booking::default(),
        };
        let b = Booking {
            given: was.given,
            returned: larger(was.returned, smaller(it.returned, was.given)),
            expires: was.expires,
            wanted: was.wanted,
            needed: was.needed,
        };
        assert(b == start.booking_of(*from).merged(it.returned));
        self.children.insert(copy_of(from), b);
        proof {
            lemma_lent_insert(start.children, *from, b);
        }
        if self.lent() > self.share() && self.over_since.is_none() {
            self.over_since = Some(now);
        }
        assert(self@ =~= start.booked(*from, *it, now));
        was
    }

    /// What a child that was just booked holds after its call.
    fn settle<K>(
        &self,
        from: &Id,
        it: &RequestItem<K>,
        b: &Booking,
        known: u64,
        weights: &BTreeMap<Id, u64>,
        now: u64,
        ttl: u64,
        can_ask: bool,
    ) -> (total: u64)
        requires
            lawful::<Id>(),
            self@.inv(),
            self@.children.contains_key(*from),
            *b == self@.children[*from],
            known == self@.known(*from, *it),
        ensures
            total == self@.settled(*from, *it, weights@, now, ttl, can_ask),
    {
        let booked = b.share();
        let (share, lent) = (self.share(), self.lent());
        let demand = larger(known.saturating_add(it.needed).saturating_add(it.wanted), booked);
        let (claims, mine) = self.claims(from, it, demand, weights);
        let split = water_fill(share, claims.as_slice());
        let fair = split[mine];
        assert(fair == self@.entitlement(*from, *it, weights@));
        // Past a chunk over its entitlement the child is cut to it -- past anything at all
        // while we are over our own share, or a unit's overcommit would sit on every level for
        // good. Not while a keepalive round of grace runs on that overcommit, though: children
        // we adopted, or a cut from above, are asked for upward first, and our own answer may
        // cover them. A root has nobody to ask. Otherwise the child may take up to its
        // entitlement, but never more than we hold: the others are cut on their own keepalives,
        // and the room frees up.
        let over = lent > share;
        let waited = match self.over_since {
            Some(since) => now as u128 >= since as u128 + (ttl / 2) as u128,
            None => false,
        };
        let grace = over && can_ask && !waited;
        let slack = if over {
            0
        } else {
            self.limit.chunk
        };
        if grace || booked <= fair.saturating_add(slack) {
            let room = share.saturating_sub(lent);
            smaller(larger(smaller(demand, fair), booked), booked.saturating_add(room))
        } else {
            fair
        }
    }

    /// A child's booking once it holds `total`.
    fn rebook<K>(
        &self,
        from: &Id,
        it: &RequestItem<K>,
        b: &Booking,
        known: u64,
        total: u64,
        now: u64,
        ttl: u64,
    ) -> (r: Booking)
        requires
            self@.children.contains_key(*from),
            *b == self@.children[*from],
            b.inv(),
            known == self@.known(*from, *it),
        ensures
            r == self@.rebooked(*from, *it, total as int, now, ttl),
    {
        let booked = b.share();
        // Served: what the child got beyond the share it knew of, needs first.
        let served = total.saturating_sub(known);
        let give_need = smaller(served, it.needed);
        let give_want = smaller(served - give_need, it.wanted);
        Booking {
            given: b.given.saturating_add(total.saturating_sub(booked)),
            // A cut: count the difference as returned. The child takes the larger of its own
            // count and ours.
            returned: b.returned + booked.saturating_sub(total),
            expires: now.saturating_add(ttl),
            wanted: it.wanted - give_want,
            needed: it.needed - give_need,
        }
    }

    /// Serve a child's call: book what it returned, work out its entitlement, and give or cut.
    /// The edge's counters.
    pub fn serve<K>(
        &mut self,
        from: &Id,
        it: &RequestItem<K>,
        weights: &BTreeMap<Id, u64>,
        now: u64,
        ttl: u64,
        can_ask: bool,
    ) -> (r: (u64, u64))
        requires
            lawful::<Id>(),
            old(self)@.inv(),
        ensures
            final(self)@ == old(self)@.served(*from, *it, weights@, now, ttl, can_ask),
            final(self)@.inv(),
            r.0 == final(self)@.children[*from].given,
            r.1 == final(self)@.children[*from].returned,
    {
        let ghost start = self@;
        proof {
            start.lemma_booked(*from, *it, now);
            start.lemma_served(*from, *it, weights@, now, ttl, can_ask);
        }
        // Merge what the child returned. Its share is what we gave less that.
        let was = self.book(from, it, now);
        let b = match self.children.get(from) {
            Some(b) => *b,
            None => Booking::default(),
        };
        let ghost q = self@;
        assert(q.children.contains_key(*from));
        assert(b == q.children[*from]);
        // What the child wants is beyond the share it knows of; what we gave since covers it
        // first.
        let known = smaller(it.given, b.given).saturating_sub(b.returned);
        let total = self.settle(from, it, &b, known, weights, now, ttl, can_ask);
        let c = self.rebook(from, it, &b, known, total, now, ttl);
        let came_back: u64 = b.returned - was.returned;
        if came_back > 0 && can_ask {
            // What a child gave back was fetched for it and is the tree's, not ours: hand it
            // back up, or a share that moved is held twice, here and under its new parent. If we
            // want more, we ask like anyone. A root keeps it: it is the rate.
            let back = smaller(came_back, self.room());
            self.hand_back(back);
        }
        if (c.needed > was.needed || c.wanted > was.wanted) && can_ask {
            // A shortfall already known is already asked for; asking again on every keepalive
            // would be a call per tick with a few short children.
            self.last_request = None;
        }
        self.children.insert(copy_of(from), c);
        assert(self@ =~= start.served(*from, *it, weights@, now, ttl, can_ask));
        (c.given, c.returned)
    }

    /// Whether a child reports a return that was not counted yet.
    pub fn returns_more(&self, from: &Id, returned: u64) -> (r: bool)
        requires
            lawful::<Id>(),
        ensures
            r == (returned > self@.booking_of(*from).returned),
    {
        match self.children.get(from) {
            Some(b) => returned > b.returned,
            None => returned > 0,
        }
    }

    /// Mark the limit wanted if a draw of `amount` is short.
    pub fn mark(&mut self, amount: u64, good: bool)
        requires
            old(self)@.inv(),
        ensures
            final(self)@ == old(self)@.marked(amount, good),
            final(self)@.inv(),
    {
        if !good || self.available() < amount {
            self.wanted = larger(larger(self.wanted, self.limit.chunk), amount);
        }
    }

    /// Draw `amount`.
    pub fn draw(&mut self, amount: u64, good: bool)
        requires
            old(self)@.inv(),
        ensures
            final(self)@ == old(self)@.drawn(amount, good),
            final(self)@.inv(),
    {
        if good {
            let left: i128 = self.tokens - amount as i128;
            self.tokens = if left < -DEBT {
                -DEBT
            } else {
                left
            };
        }
        self.used = self.used.saturating_add(amount as u128);
    }

    /// Whether `c` is a child.
    pub fn has_child(&self, c: &Id) -> (r: bool)
        requires
            lawful::<Id>(),
        ensures
            r == self@.has_child(*c),
    {
        match self.children.get(c) {
            Some(b) => b.active(),
            None => false,
        }
    }

    /// Forget a child. Whether there was anything to forget.
    pub fn forget(&mut self, c: &Id) -> (r: bool)
        requires
            lawful::<Id>(),
            old(self)@.inv(),
        ensures
            final(self)@ == old(self)@.without(Set::empty().insert(*c)),
            final(self)@.inv(),
            r == old(self)@.children.contains_key(*c),
    {
        let was = self.children.remove(c);
        proof {
            lemma_lent_without(old(self)@.children, Set::empty().insert(*c));
            assert(self.children@ =~= old(self)@.children.remove_keys(Set::empty().insert(*c)));
        }
        was.is_some()
    }
}

impl<Id: Ord + Clone> Quota<Id> {
    /// Put the children into an ascending list.
    pub fn list_children(&self, list: &mut Vec<Id>)
        requires
            lawful::<Id>(),
            ascending(old(list)@),
        ensures
            ascending(final(list)@),
            final(list)@.to_set() == old(list)@.to_set().union(
                self@.active_children(),
            ),
    {
        let ghost was = list@.to_set();
        let all = self.children.iter();
        let ghost ids = in_order(self.children@.dom());
        proof {
            lemma_iter(&self.children, all);
            lemma_in_order(self.children@.dom());
            assert(was =~= was.union(
                Set::new(|c: Id| self@.has_child(c) && ids.take(0).contains(c)),
            ));
        }
        for e in it: all
            invariant
                lawful::<Id>(),
                it.seq().len() == ids.len(),
                forall|i: int|
                    #![trigger it.seq()[i]]
                    0 <= i < it.seq().len() ==> *it.seq()[i].0 == ids[i] && *it.seq()[i].1
                        == self@.children[ids[i]],
                forall|i: int| 0 <= i < ids.len() ==> self@.children.contains_key(#[trigger] ids[i]),
                ascending(list@),
                list@.to_set() == was.union(
                    Set::new(
                        |c: Id| self@.has_child(c) && ids.take(it.index() as int).contains(c),
                    ),
                ),
        {
            let ghost i = it.index() as int;
            let ghost before = list@.to_set();
            let (c, b) = e;
            if b.active() {
                put_name(list, c);
            }
            proof {
                let want = was.union(
                    Set::new(|x: Id| self@.has_child(x) && ids.take(i + 1).contains(x)),
                );
                assert forall|x: Id| ids.take(i + 1).contains(x) <==> ids.take(i).contains(x) || x
                    == ids[i] by {
                    assert(ids.take(i + 1) =~= ids.take(i).push(ids[i]));
                    if ids.take(i).contains(x) {
                        let j = choose|j: int| 0 <= j < i && ids.take(i)[j] == x;
                        assert(ids.take(i + 1)[j] == x);
                    }
                    assert(ids.take(i + 1)[i] == ids[i]);
                }
                assert forall|x: Id| list@.to_set().contains(x) <==> want.contains(x) by {
                    assert(before.contains(x) <==> was.contains(x) || (self@.has_child(x)
                        && ids.take(i).contains(x)));
                }
                assert(list@.to_set() =~= want);
            }
        }
        proof {
            assert(ids.take(ids.len() as int) =~= ids);
            assert(list@.to_set() =~= was.union(self@.active_children()));
        }
    }

    /// How many children there are.
    pub fn child_count(&self) -> (r: usize)
        requires
            lawful::<Id>(),
        ensures
            self@.active_children().finite(),
            r == self@.active_children().len(),
    {
        let mut count: usize = 0;
        let len = self.children.len();
        let all = self.children.iter();
        let ghost ids = in_order(self.children@.dom());
        let ghost found = Set::<Id>::empty();
        proof {
            lemma_iter(&self.children, all);
            lemma_in_order(self.children@.dom());
        }
        for e in it: all
            invariant
                lawful::<Id>(),
                it.seq().len() == ids.len(),
                ids.len() == len,
                ids.no_duplicates(),
                forall|i: int|
                    #![trigger it.seq()[i]]
                    0 <= i < it.seq().len() ==> *it.seq()[i].0 == ids[i] && *it.seq()[i].1
                        == self@.children[ids[i]],
                forall|i: int| 0 <= i < ids.len() ==> self@.children.contains_key(#[trigger] ids[i]),
                count <= it.index(),
                found.finite(),
                found.len() == count,
                forall|c: Id| #[trigger]
                    found.contains(c) ==> self@.has_child(c) && exists|i: int|
                        0 <= i < it.index() && ids[i] == c,
                forall|i: int|
                    0 <= i < it.index() && self@.has_child(#[trigger] ids[i]) ==> found.contains(
                        ids[i],
                    ),
        {
            let ghost c = ids[it.index() as int];
            if e.1.active() {
                proof {
                    assert(!found.contains(c));
                    found = found.insert(c);
                }
                count = count + 1;
            }
        }
        proof {
            assert forall|c: Id| self@.has_child(c) implies found.contains(c) by {
                assert(ids.contains(c));
                let i = choose|i: int| 0 <= i < ids.len() && ids[i] == c;
            }
            assert(found =~= self@.active_children());
        }
        count
    }
}

} // verus!

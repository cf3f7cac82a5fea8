//! What holds across calls and across nodes.
use crate::fair::law_split_steady;
use crate::messages::Limit;
use crate::messages::RequestItem;
use crate::messages::RequestView;
use crate::messages::ResponseItem;
use crate::messages::ResponseView;
use crate::node::LeaseState;
use crate::node::backoff;
use crate::node::ever_given;
use crate::node::playing;
use crate::node::released;
use crate::node::releasing;
use crate::node::reporting;
use crate::node::retry_cap;
use crate::order::in_order;
use crate::order::lawful;
use crate::order::lemma_filter_keeps;
use crate::order::lemma_filter_none;
use crate::order::lemma_in_order;
use crate::order::lemma_sum_compare;
use crate::order::lemma_sum_part;
use crate::order::lemma_sum_remove;
use crate::order::sum_over;
use crate::quota::Booking;
use crate::quota::QuotaState;
use crate::quota::beyond;
use crate::quota::clip;
use crate::quota::lemma_lent_insert;
use crate::quota::lemma_lent_less;
use crate::quota::needs;
use crate::quota::shares;
use crate::quota::wants;
use vstd::arithmetic::power2::lemma2_to64;
use vstd::arithmetic::power2::lemma_pow2_pos;
use vstd::arithmetic::power2::lemma_pow2_unfold;
use vstd::math::max;
use vstd::math::min;
use vstd::prelude::*;

verus! {

// ------------------------------------------------------------ steps

/// News of the leader keeps what holds of a node, and the edges below it.
pub proof fn lemma_leader_news<Id: Ord + Clone, K: Ord + Clone>(
    s: LeaseState<Id, K>,
    leader: Id,
    term: u64,
)
    requires
        s.inv(),
    ensures
        s.with_leader(leader, term).inv(),
        s.with_leader(leader, term).quotas.dom() == s.quotas.dom(),
        forall|k: K| #[trigger]
            s.quotas.contains_key(k) ==> s.with_leader(leader, term).quotas[k].children
                == s.quotas[k].children,
{
    let t = s.with_leader(leader, term);
    assert(t.quotas.dom() =~= s.quotas.dom());
    assert forall|k: K| #[trigger] t.quotas.contains_key(k) implies t.quotas[k].inv() by {
        assert(s.quotas.contains_key(k));
    }
    if t.is_leader() {
        assert forall|k: K| #[trigger] t.quotas.contains_key(k) implies t.quotas[k].lent()
            <= t.quotas[k].share() by {
            assert(s.quotas.contains_key(k));
        }
    }
}

/// One item of a child's call keeps what holds of a node.
pub proof fn lemma_item_served<Id: Ord + Clone, K: Ord + Clone>(
    s: LeaseState<Id, K>,
    from: Id,
    it: RequestItem<K>,
)
    requires
        lawful::<Id>(),
        s.inv(),
    ensures
        s.served(from, it).inv(),
        s.served(from, it).quotas.dom() == s.quotas.dom(),
{
    let t = s.served(from, it);
    assert(t.quotas.dom() =~= s.quotas.dom());
    if s.quotas.contains_key(it.key) {
        s.quotas[it.key].lemma_served(from, it, s.weights, s.now, s.ttl, s.parent is Some);
    }
}

/// A child's call keeps what holds of a node.
pub proof fn lemma_items_served<Id: Ord + Clone, K: Ord + Clone>(
    s: LeaseState<Id, K>,
    from: Id,
    items: Seq<RequestItem<K>>,
)
    requires
        lawful::<Id>(),
        s.inv(),
    ensures
        s.served_all(from, items).inv(),
        s.served_all(from, items).quotas.dom() == s.quotas.dom(),
        s.served_all(from, items) == (LeaseState {
            quotas: s.served_all(from, items).quotas,
            dirty: s.served_all(from, items).dirty,
            ..s
        }),
    decreases items.len(),
{
    if items.len() > 0 {
        lemma_items_served(s, from, items.drop_last());
        lemma_item_served(s.served_all(from, items.drop_last()), from, items.last());
    }
}

/// A child's call keeps what holds of a node.
pub proof fn lemma_request_served<Id: Ord + Clone, K: Ord + Clone>(
    s: LeaseState<Id, K>,
    from: Id,
    req: RequestView<Id, K>,
)
    requires
        lawful::<Id>(),
        s.inv(),
    ensures
        s.after_request(from, req).inv(),
        s.after_request(from, req).quotas.dom() == s.quotas.dom(),
{
    if let Some(l) = req.leader {
        lemma_leader_news(s, l, req.term);
    }
    lemma_items_served(s.with_news(req.leader, req.term), from, req.items);
}

// ------------------------------------------------------------ the edge's counters

/// `b` is later than `a` on the same edge: both counters grew or stayed, and no more came back
/// than was given.
pub open spec fn grown(a: Booking, b: Booking) -> bool {
    a.given <= b.given && a.returned <= b.returned && b.returned <= b.given
}

/// The counters of an edge only grow, whoever calls: a gift raises `given`, a return and a cut
/// raise `returned`.
pub proof fn law_counters_grow_with_a_call<Id: Ord + Clone, K>(
    q: QuotaState<Id>,
    from: Id,
    it: RequestItem<K>,
    weights: Map<Id, u64>,
    now: u64,
    ttl: u64,
    can_ask: bool,
    c: Id,
)
    requires
        lawful::<Id>(),
        q.inv(),
        q.children.contains_key(c),
    ensures
        q.served(from, it, weights, now, ttl, can_ask).children.contains_key(c),
        grown(q.children[c], q.served(from, it, weights, now, ttl, can_ask).children[c]),
{
    q.lemma_booked(from, it, now);
    q.lemma_served(from, it, weights, now, ttl, can_ask);
    assert(q.served(from, it, weights, now, ttl, can_ask).children.contains_key(c));
}

proof fn lemma_counters_grow<Id: Ord + Clone, K: Ord + Clone>(
    s: LeaseState<Id, K>,
    from: Id,
    items: Seq<RequestItem<K>>,
    k: K,
    c: Id,
)
    requires
        lawful::<Id>(),
        s.inv(),
        s.quotas.contains_key(k),
        s.quotas[k].children.contains_key(c),
    ensures
        s.served_all(from, items).quotas[k].children.contains_key(c),
        grown(s.quotas[k].children[c], s.served_all(from, items).quotas[k].children[c]),
    decreases items.len(),
{
    if items.len() > 0 {
        let t = s.served_all(from, items.drop_last());
        let it = items.last();
        lemma_counters_grow(s, from, items.drop_last(), k, c);
        lemma_items_served(s, from, items.drop_last());
        if it.key == k {
            law_counters_grow_with_a_call(
                t.quotas[k],
                from,
                it,
                t.weights,
                t.now,
                t.ttl,
                t.parent is Some,
                c,
            );
        }
    }
}

/// The counters of every edge below a node only grow, as calls arrive and as time passes.
pub proof fn law_counters_only_grow<Id: Ord + Clone, K: Ord + Clone>(
    s: LeaseState<Id, K>,
    from: Id,
    req: RequestView<Id, K>,
    n: u64,
    k: K,
    c: Id,
)
    requires
        lawful::<Id>(),
        s.inv(),
        s.quotas.contains_key(k),
        s.quotas[k].children.contains_key(c),
    ensures
        s.after_request(from, req).quotas[k].children.contains_key(c),
        grown(s.quotas[k].children[c], s.after_request(from, req).quotas[k].children[c]),
        s.after_ticks(n).quotas[k].children.contains_key(c),
        grown(s.quotas[k].children[c], s.after_ticks(n).quotas[k].children[c]),
{
    if let Some(l) = req.leader {
        lemma_leader_news(s, l, req.term);
    }
    lemma_counters_grow(s.with_news(req.leader, req.term), from, req.items, k, c);
    let e = s.elapsed(n);
    assert(e.quotas.contains_key(k));
    assert(e.quotas[k].children.contains_key(c));
    assert(e.quotas[k].children[c] == s.quotas[k].children[c].lapsed(e.now));
    assert(s.quotas[k].children[c].inv());
    assert(s.after_ticks(n).quotas[k].children == e.quotas[k].children);
}

/// A node's own count of what it handed back to its parent is never set back by an answer.
pub proof fn law_returns_stay_returned<Id, K>(
    q: QuotaState<Id>,
    it: ResponseItem<K>,
    sent: u64,
    ttl: u64,
)
    ensures
        q.adopted(it, sent, ttl).given == it.given,
        q.adopted(it, sent, ttl).returned >= q.returned,
        q.adopted(it, sent, ttl).returned >= it.returned,
        q.adopted(it, sent, ttl).returned == q.returned || q.adopted(it, sent, ttl).returned
            == it.returned,
{
}

/// A child that returns everything it was given, and asks for nothing, holds nothing afterwards
/// and is no child any more. The other children keep what they hold.
pub proof fn law_release_lets_go<Id: Ord + Clone, K>(
    q: QuotaState<Id>,
    from: Id,
    it: RequestItem<K>,
    weights: Map<Id, u64>,
    now: u64,
    ttl: u64,
    can_ask: bool,
)
    requires
        lawful::<Id>(),
        q.inv(),
        it.returned >= q.booking_of(from).given,
        it.needed == 0,
        it.wanted == 0,
    ensures
        !q.served(from, it, weights, now, ttl, can_ask).has_child(from),
        forall|c: Id|
            c != from && #[trigger] q.children.contains_key(c) ==> q.served(
                from,
                it,
                weights,
                now,
                ttl,
                can_ask,
            ).children[c] == q.children[c],
{
    q.lemma_booked(from, it, now);
    q.lemma_served(from, it, weights, now, ttl, can_ask);
    let r = q.booked(from, it, now);
    r.lemma_entitled(from, it, weights);
    assert(r.children[from].spec_share() == 0);
    assert(r.demand(from, it) == 0);
}

/// After a call and its answer, the child counts no more than the parent booked for it; and
/// exactly that, unless the parent has forgotten what it gave: a re-sent call, a lost answer or
/// a cut leave no difference behind.
pub proof fn law_an_exchange_reconciles<Id: Ord + Clone, K>(
    child: QuotaState<Id>,
    called_at: u64,
    parent: QuotaState<Id>,
    from: Id,
    key: K,
    weights: Map<Id, u64>,
    now: u64,
    ttl: u64,
    can_ask: bool,
    sent: u64,
)
    requires
        lawful::<Id>(),
        child.in_play(),
        parent.inv(),
    ensures
        ({
            let it = child.report(key);
            let b = parent.served(from, it, weights, now, ttl, can_ask).children[from];
            let answer = ResponseItem { key, given: b.given, returned: b.returned };
            let after = child.called(called_at).adopted(answer, sent, ttl);
            &&& after.share() <= b.spec_share()
            &&& it.returned <= parent.booking_of(from).given ==> {
                &&& after.share() == b.spec_share()
                &&& after.given == b.given
                &&& after.returned == b.returned
            }
        }),
{
    let it = child.report(key);
    parent.lemma_booked(from, it, now);
    parent.lemma_served(from, it, weights, now, ttl, can_ask);
}

// ------------------------------------------------------------ a call made again

proof fn lemma_again<Id: Ord + Clone, K>(
    q: QuotaState<Id>,
    from: Id,
    it: RequestItem<K>,
    weights: Map<Id, u64>,
    now: u64,
    ttl: u64,
    can_ask: bool,
)
    requires
        lawful::<Id>(),
        q.inv(),
        it.returned <= q.booking_of(from).given,
        it.given <= q.booking_of(from).given,
        can_ask ==> it.returned <= q.booking_of(from).returned,
        q.served(from, it, weights, now, ttl, can_ask).children[from].given < u64::MAX,
    ensures
        ({
            let once = q.served(from, it, weights, now, ttl, can_ask);
            let b = q.booked(from, it, now);
            let total = b.settled(from, it, weights, now, ttl, can_ask);
            let again = once.booked(from, it, now);
            &&& again.children == once.children
            &&& again.share() == b.share()
            &&& once.children[from].spec_share() == total
            &&& again.lent() == b.lent() + total - b.children[from].spec_share()
            &&& again.entitlement(from, it, weights) == b.entitlement(from, it, weights)
            &&& again.over_since == b.over_since
            &&& total >= b.children[from].spec_share() ==> again.demand(from, it) == b.demand(
                from,
                it,
            ) && again.known(from, it) == b.known(from, it)
        }),
{
    let once = q.served(from, it, weights, now, ttl, can_ask);
    let b = q.booked(from, it, now);
    q.lemma_booked(from, it, now);
    q.lemma_served(from, it, weights, now, ttl, can_ask);
    b.lemma_entitled(from, it, weights);
    let total = b.settled(from, it, weights, now, ttl, can_ask);
    let c = b.rebooked(from, it, total, now, ttl);
    assert(once.children == b.children.insert(from, c));
    assert(once.children[from] == c);
    lemma_lent_insert(b.children, from, c);
    let again = once.booked(from, it, now);
    assert(c.merged(it.returned) == c);
    assert(again.children =~= once.children);
    assert(again.children.dom() =~= b.children.dom());
    assert(again.share() == b.share());
    // What the split sees of the second call is the same but for a smaller demand after a cut.
    let ids = in_order(b.children.dom());
    let i = ids.index_of(from);
    let first = b.claims(from, it, weights);
    let second = again.claims(from, it, weights);
    assert(second =~= first.update(i, (first[i].0, again.demand(from, it)))) by {
        lemma_in_order(b.children.dom());
        assert forall|j: int| 0 <= j < ids.len() && j != i implies ids[j] != from by {}
    }
    assert(first[i].1 == b.demand(from, it));
    law_split_steady(b.share() as nat, first, i, again.demand(from, it));
}

/// A call made again, because its answer was lost, gets the same answer and lends nothing more.
/// This is for a call that returns nothing new to a parent that passes it on upward: what goes
/// up is no longer there to be split.
pub proof fn law_a_call_made_again_changes_nothing<Id: Ord + Clone, K>(
    q: QuotaState<Id>,
    from: Id,
    it: RequestItem<K>,
    weights: Map<Id, u64>,
    now: u64,
    ttl: u64,
    can_ask: bool,
)
    requires
        lawful::<Id>(),
        q.inv(),
        it.returned <= q.booking_of(from).given,
        it.given <= q.booking_of(from).given,
        can_ask ==> it.returned <= q.booking_of(from).returned,
        q.served(from, it, weights, now, ttl, can_ask).children[from].given < u64::MAX,
    ensures
        ({
            let once = q.served(from, it, weights, now, ttl, can_ask);
            let twice = once.served(from, it, weights, now, ttl, can_ask);
            &&& twice.children[from].given == once.children[from].given
            &&& twice.children[from].returned == once.children[from].returned
            &&& twice.lent() == once.lent()
            &&& twice.share() == once.share()
        }),
{
    let once = q.served(from, it, weights, now, ttl, can_ask);
    let b = q.booked(from, it, now);
    let again = once.booked(from, it, now);
    q.lemma_booked(from, it, now);
    q.lemma_served(from, it, weights, now, ttl, can_ask);
    lemma_again(q, from, it, weights, now, ttl, can_ask);
    once.lemma_booked(from, it, now);
    once.lemma_served(from, it, weights, now, ttl, can_ask);
    b.lemma_entitled(from, it, weights);
    let total = b.settled(from, it, weights, now, ttl, can_ask);
    let second = again.settled(from, it, weights, now, ttl, can_ask);
    assert(second == total);
    let twice = once.served(from, it, weights, now, ttl, can_ask);
    let c = again.rebooked(from, it, second, now, ttl);
    lemma_lent_insert(again.children, from, c);
    assert(twice.children == again.children.insert(from, c));
}

/// No limit is named twice.
pub open spec fn names_each_once<K>(items: Seq<RequestItem<K>>) -> bool {
    forall|i: int, j: int|
        0 <= i < j < items.len() ==> (#[trigger] items[i]).key != (#[trigger] items[j]).key
}

/// What a limit becomes when one item of a call is served.
pub open spec fn limit_served<Id: Ord, K: Ord>(
    s: LeaseState<Id, K>,
    from: Id,
    it: RequestItem<K>,
) -> QuotaState<Id> {
    s.quotas[it.key].served(from, it, s.weights, s.now, s.ttl, s.parent is Some)
}

/// A call that names each limit once serves each limit on its own.
proof fn lemma_each_served<Id: Ord + Clone, K: Ord + Clone>(
    s: LeaseState<Id, K>,
    from: Id,
    items: Seq<RequestItem<K>>,
    k: K,
)
    requires
        lawful::<Id>(),
        s.inv(),
        names_each_once(items),
        s.quotas.contains_key(k),
    ensures
        forall|i: int|
            0 <= i < items.len() && (#[trigger] items[i]).key == k ==> s.served_all(
                from,
                items,
            ).quotas[k] == limit_served(s, from, items[i]),
        (forall|i: int| 0 <= i < items.len() ==> (#[trigger] items[i]).key != k) ==> s.served_all(
            from,
            items,
        ).quotas[k] == s.quotas[k],
    decreases items.len(),
{
    if items.len() > 0 {
        let rest = items.drop_last();
        assert forall|i: int, j: int| 0 <= i < j < rest.len() implies (#[trigger] rest[i]).key != (
        #[trigger] rest[j]).key by {
            assert(rest[i] == items[i] && rest[j] == items[j]);
        }
        lemma_each_served(s, from, rest, k);
        lemma_items_served(s, from, rest);
        let t = s.served_all(from, rest);
        assert(s.served_all(from, items) == t.served(from, items.last()));
        if items.last().key == k {
            assert forall|i: int| 0 <= i < rest.len() implies (#[trigger] rest[i]).key != k by {
                assert(rest[i] == items[i]);
                assert(items[items.len() - 1].key == k);
            }
            assert(t.quotas[k] == s.quotas[k]);
        } else {
            assert forall|i: int| 0 <= i < items.len() && (#[trigger] items[i]).key == k implies (
            s.served_all(from, items).quotas[k] == limit_served(s, from, items[i])) by {
                assert(rest[i] == items[i]);
            }
            if forall|i: int| 0 <= i < items.len() ==> (#[trigger] items[i]).key != k {
                assert forall|i: int| 0 <= i < rest.len() implies (#[trigger] rest[i]).key != k by {
                    assert(rest[i] == items[i]);
                }
            }
        }
    }
}

/// Two nodes that serve each limit to the same counters answer the same.
proof fn lemma_same_answers<Id: Ord + Clone, K: Ord + Clone>(
    s: LeaseState<Id, K>,
    t: LeaseState<Id, K>,
    from: Id,
    items: Seq<RequestItem<K>>,
)
    requires
        lawful::<Id>(),
        s.inv(),
        t.inv(),
        t.quotas.dom() == s.quotas.dom(),
        names_each_once(items),
        forall|i: int|
            0 <= i < items.len() && s.quotas.contains_key((#[trigger] items[i]).key) ==> {
                let a = limit_served(s, from, items[i]).children[from];
                let b = limit_served(t, from, items[i]).children[from];
                a.given == b.given && a.returned == b.returned
            },
    ensures
        s.answers(from, items) == t.answers(from, items),
    decreases items.len(),
{
    if items.len() > 0 {
        let rest = items.drop_last();
        assert forall|i: int, j: int| 0 <= i < j < rest.len() implies (#[trigger] rest[i]).key != (
        #[trigger] rest[j]).key by {
            assert(rest[i] == items[i] && rest[j] == items[j]);
        }
        assert forall|i: int|
            0 <= i < rest.len() && s.quotas.contains_key((#[trigger] rest[i]).key) implies {
            let a = limit_served(s, from, rest[i]).children[from];
            let b = limit_served(t, from, rest[i]).children[from];
            a.given == b.given && a.returned == b.returned
        } by {
            assert(rest[i] == items[i]);
        }
        lemma_same_answers(s, t, from, rest);
        let it = items.last();
        assert(items[items.len() - 1] == it);
        assert(s.quotas.dom().contains(it.key) == t.quotas.dom().contains(it.key));
        if s.quotas.contains_key(it.key) {
            lemma_each_served(s, from, items, it.key);
            lemma_each_served(t, from, items, it.key);
        }
    }
}

/// A request sent again, because its answer was lost, gets the same answer and lends nothing
/// more, on any limit. This is for a request that names each limit once, from a child that
/// counts no more than this node gave it; and, where this node has a parent, that returns
/// nothing new, since what comes back is passed on upward and no longer there to be split.
pub proof fn law_a_request_sent_again_changes_nothing<Id: Ord + Clone, K: Ord + Clone>(
    s: LeaseState<Id, K>,
    from: Id,
    req: RequestView<Id, K>,
)
    requires
        lawful::<Id>(),
        s.inv(),
        req.term <= s.term,
        names_each_once(req.items),
        forall|i: int|
            0 <= i < req.items.len() && s.quotas.contains_key((#[trigger] req.items[i]).key) ==> {
                let b = s.quotas[req.items[i].key].booking_of(from);
                &&& req.items[i].returned <= b.given
                &&& req.items[i].given <= b.given
                &&& s.parent is Some ==> req.items[i].returned <= b.returned
                &&& limit_served(s, from, req.items[i]).children[from].given < u64::MAX
            },
    ensures
        s.after_request(from, req).response(from, req).items == s.response(from, req).items,
        forall|k: K| #[trigger]
            s.quotas.contains_key(k) ==> s.after_request(from, req).after_request(
                from,
                req,
            ).quotas[k].lent() == s.after_request(from, req).quotas[k].lent(),
{
    let t = s.after_request(from, req);
    lemma_items_served(s, from, req.items);
    assert(t == s.served_all(from, req.items));
    assert(t.after_request(from, req) == t.served_all(from, req.items));
    assert forall|i: int|
        0 <= i < req.items.len() && s.quotas.contains_key((#[trigger] req.items[i]).key) implies {
        let a = limit_served(s, from, req.items[i]);
        let b = limit_served(t, from, req.items[i]);
        &&& a.children[from].given == b.children[from].given
        &&& a.children[from].returned == b.children[from].returned
        &&& a.lent() == b.lent()
    } by {
        let it = req.items[i];
        let q = s.quotas[it.key];
        lemma_each_served(s, from, req.items, it.key);
        law_a_call_made_again_changes_nothing(
            q,
            from,
            it,
            s.weights,
            s.now,
            s.ttl,
            s.parent is Some,
        );
    }
    lemma_same_answers(s, t, from, req.items);
    assert forall|k: K| #[trigger] s.quotas.contains_key(k) implies t.served_all(
        from,
        req.items,
    ).quotas[k].lent() == t.quotas[k].lent() by {
        assert(t.quotas.dom().contains(k));
        lemma_each_served(s, from, req.items, k);
        lemma_each_served(t, from, req.items, k);
        if exists|i: int| 0 <= i < req.items.len() && (#[trigger] req.items[i]).key == k {
            let i = choose|i: int| 0 <= i < req.items.len() && (#[trigger] req.items[i]).key == k;
            assert(t.quotas[k] == limit_served(s, from, req.items[i]));
        }
    }
}

// ------------------------------------------------------------ what is lent

/// A leader never lends more than it holds, whatever its children ask for.
pub proof fn law_a_leader_lends_what_it_holds<Id: Ord + Clone, K: Ord + Clone>(
    s: LeaseState<Id, K>,
    from: Id,
    req: RequestView<Id, K>,
    k: K,
)
    requires
        lawful::<Id>(),
        s.inv(),
        s.quotas.contains_key(k),
        s.after_request(from, req).is_leader(),
    ensures
        s.after_request(from, req).quotas[k].lent() <= s.after_request(from, req).quotas[k].share(),
        s.after_request(from, req).quotas[k].overcommit() == 0,
{
    lemma_request_served(s, from, req);
    assert(s.after_request(from, req).quotas.contains_key(k));
}

/// A call never makes a node lend more than it holds: what it lent before, or its share if that
/// is more, is the most it lends afterwards.
pub proof fn law_no_call_overlends<Id: Ord + Clone, K>(
    q: QuotaState<Id>,
    from: Id,
    it: RequestItem<K>,
    weights: Map<Id, u64>,
    now: u64,
    ttl: u64,
    can_ask: bool,
)
    requires
        lawful::<Id>(),
        q.inv(),
    ensures
        q.served(from, it, weights, now, ttl, can_ask).lent() <= q.lent() || q.served(
            from,
            it,
            weights,
            now,
            ttl,
            can_ask,
        ).lent() <= q.share(),
{
    q.lemma_served(from, it, weights, now, ttl, can_ask);
}

/// The leader holds the whole rate of every limit, or what it has lent if that is more, for good;
/// and a node that stops leading holds nothing.
pub proof fn law_the_leader_holds_the_rate<Id: Ord + Clone, K: Ord + Clone>(
    s: LeaseState<Id, K>,
    leader: Id,
    term: u64,
    k: K,
)
    requires
        s.inv(),
        s.quotas.contains_key(k),
        term >= s.term,
    ensures
        leader == s.me && !s.is_leader() ==> {
            let q = s.with_leader(leader, term).quotas[k];
            &&& s.with_leader(leader, term).is_leader()
            &&& q.share() == max(q.limit.limit as int, q.lent())
            &&& q.valid_until == Some(u64::MAX)
            &&& q.wanted == 0
        },
        leader != s.me && s.is_leader() ==> {
            let q = s.with_leader(leader, term).quotas[k];
            &&& !s.with_leader(leader, term).is_leader()
            &&& q.share() == 0
            &&& q.valid_until is None
            &&& q.overcommit() == q.lent()
        },
{
}

/// A limit set on the leader is held in full at once, or what is lent of it if that is more.
pub proof fn law_a_limit_set_on_the_leader_is_held<Id: Ord + Clone, K: Ord + Clone>(
    s: LeaseState<Id, K>,
    k: K,
    limit: Limit,
)
    requires
        s.inv(),
        s.is_leader(),
    ensures
        s.with_limit(k, limit).quotas[k].share() == max(
            limit.limit as int,
            s.with_limit(k, limit).quotas[k].lent(),
        ),
{
    if !s.quotas.contains_key(k) {
        let q = QuotaState::<Id>::fresh(limit);
        assert(q.children.dom() =~= Set::empty());
        assert(q.lent() == 0);
    } else {
        assert(s.quotas[k].inv());
    }
}

/// Needs are served before wants: while a need is short, no want is served.
pub proof fn law_needs_come_first<Id: Ord + Clone, K>(
    q: QuotaState<Id>,
    from: Id,
    it: RequestItem<K>,
    weights: Map<Id, u64>,
    now: u64,
    ttl: u64,
    can_ask: bool,
)
    requires
        lawful::<Id>(),
        q.inv(),
    ensures
        ({
            let b = q.served(from, it, weights, now, ttl, can_ask).children[from];
            &&& b.needed <= it.needed
            &&& b.wanted <= it.wanted
            &&& b.needed > 0 ==> b.wanted == it.wanted
        }),
{
    q.lemma_served(from, it, weights, now, ttl, can_ask);
}

/// While a node has lent more than it holds, and can ask its parent, and has not been so for a
/// keepalive round, no child that calls is cut.
pub proof fn law_no_cut_in_the_round_of_grace<Id: Ord + Clone, K>(
    q: QuotaState<Id>,
    from: Id,
    it: RequestItem<K>,
    weights: Map<Id, u64>,
    now: u64,
    ttl: u64,
)
    requires
        lawful::<Id>(),
        q.inv(),
        q.booked(from, it, now).lent() > q.share(),
        match q.over_since {
            Some(since) => now < since + ttl / 2,
            None => ttl >= 2,
        },
    ensures
        q.served(from, it, weights, now, ttl, true).children[from].spec_share() >= q.booking_of(
            from,
        ).merged(it.returned).spec_share(),
{
    q.lemma_booked(from, it, now);
    q.lemma_served(from, it, weights, now, ttl, true);
}

/// Once the round of grace is over, or there is nobody to ask, a child over its entitlement is
/// cut to it, as long as the node has lent more than it holds.
pub proof fn law_an_overcommitted_node_cuts_to_the_fair_split<Id: Ord + Clone, K>(
    q: QuotaState<Id>,
    from: Id,
    it: RequestItem<K>,
    weights: Map<Id, u64>,
    now: u64,
    ttl: u64,
    can_ask: bool,
)
    requires
        lawful::<Id>(),
        q.inv(),
        q.booked(from, it, now).lent() > q.share(),
        !can_ask || (q.over_since matches Some(since) && now >= since + ttl / 2),
    ensures
        ({
            let b = q.booked(from, it, now);
            let fair = b.entitlement(from, it, weights);
            let had = b.children[from].spec_share();
            q.served(from, it, weights, now, ttl, can_ask).children[from].spec_share() == if had
                > fair {
                fair
            } else {
                had
            }
        }),
{
    q.lemma_booked(from, it, now);
    q.lemma_served(from, it, weights, now, ttl, can_ask);
    q.booked(from, it, now).lemma_entitled(from, it, weights);
}

/// What a call hands back as spare is never what is lent, nor what a child waits for, nor the
/// chunk that a node keeps in hand.
pub proof fn law_what_a_child_waits_for_is_kept<Id>(q: QuotaState<Id>, now: u64)
    requires
        q.inv(),
    ensures
        q.called(now).share() == q.share() || q.called(now).share() >= clip(
            q.lent() + q.limit.chunk + q.earmarked() + q.reserved(),
        ),
        q.called(now).share() < q.share() ==> q.full(),
{
}

/// A node that does not use its share hands back what is beyond that, and a node that uses it
/// hands nothing back.
pub proof fn law_an_idle_node_hands_back_what_is_spare<Id>(q: QuotaState<Id>, now: u64)
    requires
        q.inv(),
        q.in_play(),
    ensures
        q.full() && q.share() > q.keep() ==> q.called(now).share() == q.keep(),
        !q.full() ==> q.called(now).share() == q.share(),
{
}

/// What a child gives back was fetched for it: a node passes it on to its own parent, as far as
/// it holds more than it lent. A root keeps it.
pub proof fn law_what_comes_back_goes_up<Id: Ord + Clone, K>(
    q: QuotaState<Id>,
    from: Id,
    it: RequestItem<K>,
    weights: Map<Id, u64>,
    now: u64,
    ttl: u64,
    can_ask: bool,
)
    requires
        lawful::<Id>(),
        q.inv(),
    ensures
        q.served(from, it, weights, now, ttl, can_ask).share() == q.share() - if can_ask {
            min(q.came_back(from, it), q.booked(from, it, now).room())
        } else {
            0
        },
{
    q.lemma_booked(from, it, now);
}

/// What arrives from the parent goes to the children that wait for it first: the node's own want
/// is only served by what is beyond that.
pub proof fn law_what_arrives_goes_to_the_children_first<Id, K>(
    q: QuotaState<Id>,
    it: ResponseItem<K>,
    sent: u64,
    ttl: u64,
)
    ensures
        ({
            let after = q.adopted(it, sent, ttl);
            let got = after.share() - q.share();
            &&& after.wanted <= q.wanted
            &&& q.wanted - after.wanted <= beyond(got, 0)
            &&& after.wanted < q.wanted ==> q.wanted - after.wanted <= got - min(
                clip(q.counted(it).need() + q.earmarked()) as int,
                got,
            )
        }),
{
}

// ------------------------------------------------------------ time

/// The booking lasts at least as long as the share it is for, on clocks that run at the same
/// pace: `ahead` is how far the child's clock is ahead of the parent's.
pub open spec fn outlasts(expires: u64, valid_until: Option<u64>, ahead: int) -> bool {
    valid_until matches Some(v) ==> v <= expires + ahead || expires == u64::MAX
}

/// Once a booking that outlasts the share is past its time, the share is good no more: the parent
/// never lends again what the child still counts as its own.
pub proof fn law_a_share_ends_before_its_booking<Id>(
    booking: Booking,
    child: QuotaState<Id>,
    ahead: int,
    now: u64,
    childs_now: u64,
)
    requires
        outlasts(booking.expires, child.valid_until, ahead),
        childs_now == now + ahead,
        booking.expires < now,
    ensures
        !child.good_at(childs_now),
{
}

/// A child's call renews its booking from the tick it arrived, and no one else's: a booking that
/// outlasted the share still does.
pub proof fn law_a_call_renews_the_booking<Id: Ord + Clone, K>(
    parent: QuotaState<Id>,
    from: Id,
    it: RequestItem<K>,
    weights: Map<Id, u64>,
    arrived: u64,
    ttl: u64,
    can_ask: bool,
    c: Id,
    valid_until: Option<u64>,
    ahead: int,
)
    requires
        parent.children.contains_key(c),
        parent.children[c].expires <= clip(arrived + ttl),
        outlasts(parent.children[c].expires, valid_until, ahead),
    ensures
        ({
            let after = parent.served(from, it, weights, arrived, ttl, can_ask).children;
            &&& after[from].expires == clip(arrived + ttl)
            &&& c != from ==> after[c].expires == parent.children[c].expires
            &&& after[c].expires <= clip(arrived + ttl)
            &&& outlasts(after[c].expires, valid_until, ahead)
        }),
{
}

/// A share is dated from the tick its call was sent, the booking from the tick it arrived. A call
/// arrives no earlier than it was sent, however far the clocks are apart: so the share that an
/// answer dates is outlasted by the booking that the call renewed.
pub proof fn law_a_share_is_dated_from_its_call<Id, K>(
    child: QuotaState<Id>,
    answer: ResponseItem<K>,
    sent: u64,
    arrived: u64,
    ttl: u64,
    expires: u64,
    ahead: int,
)
    requires
        sent <= arrived + ahead,
        expires >= clip(arrived + ttl),
        outlasts(expires, child.valid_until, ahead),
    ensures
        outlasts(expires, child.adopted(answer, sent, ttl).valid_until, ahead),
        child.adopted(answer, sent, ttl).valid_until matches Some(v) && v >= clip(sent + ttl),
{
}

/// As time passes, neither a booking nor a share is dated anew.
pub proof fn law_time_dates_nothing_anew<Id: Ord + Clone, K: Ord + Clone>(
    s: LeaseState<Id, K>,
    n: u64,
    k: K,
    c: Id,
)
    requires
        s.quotas.contains_key(k),
    ensures
        s.after_ticks(n).quotas[k].valid_until == s.quotas[k].valid_until,
        s.quotas[k].children.contains_key(c) ==> s.after_ticks(n).quotas[k].children[c].expires
            == s.quotas[k].children[c].expires,
{
    let e = s.elapsed(n);
    assert(e.quotas.contains_key(k));
    assert(s.after_ticks(n).quotas[k].children == e.quotas[k].children);
}

/// A booking past its time is nothing any more: the child holds nothing and waits for nothing.
/// Its counters stay, so that it can come back and catch up.
pub proof fn law_a_silent_child_is_lapsed<Id: Ord + Clone, K: Ord + Clone>(
    s: LeaseState<Id, K>,
    n: u64,
    k: K,
    c: Id,
)
    requires
        s.inv(),
        s.quotas.contains_key(k),
        s.quotas[k].children.contains_key(c),
        s.quotas[k].children[c].expires < clip(s.now + n),
    ensures
        !s.after_ticks(n).quotas[k].has_child(c),
        s.after_ticks(n).quotas[k].children[c].given == s.quotas[k].children[c].given,
        s.quotas[k].children[c].spec_active() ==> s.after_ticks(
            n,
        ).quotas[k].children[c].returned == s.quotas[k].children[c].given,
{
    let e = s.elapsed(n);
    assert(e.quotas.contains_key(k));
    assert(s.after_ticks(n).quotas[k].children == e.quotas[k].children);
    assert(s.quotas[k].children[c].inv());
}

proof fn lemma_ticked_lent<Id>(q: QuotaState<Id>, now: u64, n: u64, leader: bool)
    requires
        q.inv(),
    ensures
        q.ticked(now, n, leader).lent() <= q.lent(),
        q.ticked(now, n, leader).share() <= q.share(),
        q.ticked(now, n, leader).given == q.given,
        q.ticked(now, n, leader).wanted == q.wanted,
{
    let r = q.refilled(now, n);
    let after = r.children_lapsed(now, leader).children;
    assert(after.dom() =~= r.children.dom());
    lemma_lent_less(r.children, after);
}

/// A node that is not the leader drops a lapsed share at once: it keeps no more than its
/// children hold, since the parent lends the rest to others.
pub proof fn law_a_lapsed_share_is_dropped<Id: Ord + Clone, K: Ord + Clone>(
    s: LeaseState<Id, K>,
    n: u64,
    k: K,
)
    requires
        s.inv(),
        !s.is_leader(),
        s.quotas.contains_key(k),
        !s.quotas[k].good_at(clip(s.now + n)),
    ensures
        s.after_ticks(n).quotas[k].share() <= s.after_ticks(n).quotas[k].lent(),
{
    let now = clip(s.now + n);
    let e = s.elapsed(n);
    let q = s.quotas[k];
    assert(e.quotas.contains_key(k));
    lemma_ticked_lent(q, now, n, false);
    assert(e.quotas[k] == q.ticked(now, n, false));
    assert(e.quotas[k].share() <= e.quotas[k].lent());
    assert(s.after_ticks(n).quotas[k].children == e.quotas[k].children);
}

/// A jump of the clock past every date lapses everything at once: nothing is held and nothing is
/// lent.
pub proof fn law_a_large_tick_lapses_everything<Id: Ord + Clone, K: Ord + Clone>(
    s: LeaseState<Id, K>,
    n: u64,
    k: K,
)
    requires
        s.inv(),
        !s.is_leader(),
        s.quotas.contains_key(k),
        s.quotas[k].valid_until matches Some(v) ==> v < clip(s.now + n),
        forall|c: Id| #[trigger]
            s.quotas[k].children.contains_key(c) ==> s.quotas[k].children[c].expires < clip(
                s.now + n,
            ),
    ensures
        s.after_ticks(n).quotas[k].share() == 0,
        s.after_ticks(n).quotas[k].lent() == 0,
{
    law_a_lapsed_share_is_dropped(s, n, k);
    let e = s.elapsed(n);
    let q = s.quotas[k];
    let after = e.quotas[k].children;
    assert(s.after_ticks(n).quotas[k].children == after);
    assert(after.dom() =~= q.children.dom());
    assert forall|c: Id| after.dom().contains(c) implies #[trigger] shares(after)(c)
        == 0 by {
        assert(q.children.contains_key(c));
        assert(q.children[c].inv());
    }
    lemma_sum_of_nothing(after.dom(), shares(after));
}

proof fn lemma_sum_of_nothing<T>(s: Set<T>, f: spec_fn(T) -> nat)
    requires
        s.finite(),
        forall|x: T| s.contains(x) ==> #[trigger] f(x) == 0,
    ensures
        sum_over(s, f) == 0,
    decreases s.len(),
{
    if s.len() > 0 {
        lemma_sum_of_nothing(s.remove(s.choose()), f);
    }
}

/// The bucket never holds more than two ticks of what the node keeps for itself, or the burst;
/// and a cut leaves no more than one tick in it, or the burst.
pub proof fn law_the_bucket_is_bounded<Id, K>(
    q: QuotaState<Id>,
    now: u64,
    n: u64,
    it: ResponseItem<K>,
    sent: u64,
    ttl: u64,
)
    ensures
        q.refilled(now, n).tokens <= q.capacity(),
        q.refilled(now, n).tokens <= q.tokens + q.room() * n,
        q.cut_by(it) ==> q.adopted(it, sent, ttl).tokens <= max(
            max(q.counted(it).room(), 1),
            q.limit.burst as int,
        ),
{
}

// ------------------------------------------------------------ calls

/// The calls that `after` has to make beyond those of `before`.
pub open spec fn calls_once<Id, K>(
    before: LeaseState<Id, K>,
    after: LeaseState<Id, K>,
    peer: Id,
) -> bool {
    &&& after.outbound.len() == before.outbound.len() + 1
    &&& after.outbound.take(before.outbound.len() as int) == before.outbound
    &&& after.outbound.last().peer == peer
}

/// A call goes out, and what it says of a limit in play is among its items.
proof fn lemma_call_goes_out<Id: Ord + Clone, K: Ord + Clone>(s: LeaseState<Id, K>, k: K)
    requires
        lawful::<K>(),
        s.quotas.dom().finite(),
        s.parent is Some,
        s.quotas.contains_key(k),
        s.quotas[k].in_play(),
    ensures
        calls_once(s, s.called(), s.parent->0),
        exists|j: int|
            0 <= j < s.called().outbound.last().request.items.len()
                && #[trigger] s.called().outbound.last().request.items[j] == s.quotas[k].report(k),
{
    let p = playing(s.quotas);
    let g = reporting(s.quotas);
    let keys = in_order(s.quotas.dom());
    lemma_in_order(s.quotas.dom());
    assert(keys.contains(k));
    let i = choose|i: int| 0 <= i < keys.len() && keys[i] == k;
    lemma_filter_keeps(keys, p, i);
    let j = choose|j: int| 0 <= j < keys.filter(p).len() && keys.filter(p)[j] == k;
    assert(s.reports()[j] == g(k));
    assert(s.called().outbound.take(s.outbound.len() as int) =~= s.outbound);
    assert(s.called().outbound.last().request.items[j] == s.quotas[k].report(k));
}

/// No limit is in play: nothing held, lent or asked for.
pub open spec fn idle<Id, K>(s: LeaseState<Id, K>) -> bool {
    forall|k: K| #[trigger] s.quotas.contains_key(k) ==> !s.quotas[k].in_play()
}

/// A node with nothing in play puts nothing on the wire, however long; nothing comes into play
/// by itself.
pub proof fn law_nothing_in_play_nothing_on_the_wire<Id: Ord + Clone, K: Ord + Clone>(
    s: LeaseState<Id, K>,
    n: u64,
)
    requires
        lawful::<K>(),
        s.inv(),
        idle(s),
    ensures
        s.after_ticks(n).outbound == s.outbound,
        s.poked().outbound == s.outbound,
        idle(s.after_ticks(n)),
{
    let e = s.elapsed(n);
    assert forall|k: K| #[trigger] e.quotas.contains_key(k) implies !e.quotas[k].in_play() by {
        let q = s.quotas[k];
        assert(s.quotas.contains_key(k));
        lemma_ticked_lent(q, e.now, n, s.is_leader());
        lemma_idle_ticked(q, e.now, n, s.is_leader());
    }
    lemma_idle_called(s);
    assert(e.quotas.dom() =~= s.quotas.dom());
    lemma_idle_called(e);
    assert forall|k: K| #[trigger] s.after_ticks(n).quotas.contains_key(k) implies !s.after_ticks(
        n,
    ).quotas[k].in_play() by {
        assert(e.quotas.contains_key(k));
    }
}

proof fn lemma_idle_called<Id: Ord + Clone, K: Ord + Clone>(s: LeaseState<Id, K>)
    requires
        lawful::<K>(),
        s.quotas.dom().finite(),
        idle(s),
    ensures
        s.called().outbound == s.outbound,
{
    let p = playing(s.quotas);
    let keys = in_order(s.quotas.dom());
    lemma_in_order(s.quotas.dom());
    assert forall|i: int| 0 <= i < keys.len() implies !p(#[trigger] keys[i]) by {
        assert(s.quotas.contains_key(keys[i]));
    }
    lemma_filter_none(keys, p);
}

/// What the children wait for only shrinks as time passes.
proof fn lemma_idle_ticked<Id>(q: QuotaState<Id>, now: u64, n: u64, leader: bool)
    requires
        q.inv(),
        !q.in_play(),
    ensures
        !q.ticked(now, n, leader).in_play(),
{
    lemma_ticked_lent(q, now, n, leader);
    let after = q.ticked(now, n, leader).children;
    assert(after.dom() =~= q.children.dom());
    let (w, v) = (wants(after), wants(q.children));
    assert forall|c: Id| q.children.dom().contains(c) implies #[trigger] w(c) <= v(c) by {
        assert(q.children.contains_key(c));
    }
    lemma_sum_compare(q.children.dom(), w, v);
    let (w, v) = (needs(after), needs(q.children));
    assert forall|c: Id| q.children.dom().contains(c) implies #[trigger] w(c) <= v(c) by {
        assert(q.children.contains_key(c));
    }
    lemma_sum_compare(q.children.dom(), w, v);
}

/// Half a TTL after the last call at the latest, a node that leases from another calls it, as
/// long as anything is in play.
pub proof fn law_a_keepalive_is_sent<Id: Ord + Clone, K: Ord + Clone>(
    s: LeaseState<Id, K>,
    n: u64,
    k: K,
)
    requires
        lawful::<K>(),
        s.inv(),
        !s.is_leader(),
        s.parent is Some,
        clip(s.now + n) >= s.last_call + s.ttl / 2,
        s.quotas.contains_key(k),
        s.elapsed(n).quotas[k].in_play(),
    ensures
        calls_once(s, s.after_ticks(n), s.parent->0),
        s.after_ticks(n).last_call == clip(s.now + n),
{
    let e = s.elapsed(n);
    lemma_elapsed_inv(s, n);
    assert(e.quotas.contains_key(k));
    assert(e.call_due());
    lemma_call_goes_out(e, k);
}

proof fn lemma_elapsed_inv<Id: Ord + Clone, K: Ord + Clone>(s: LeaseState<Id, K>, n: u64)
    requires
        s.inv(),
        !s.is_leader(),
    ensures
        s.elapsed(n).inv(),
        s.elapsed(n).quotas.dom() == s.quotas.dom(),
{
    let e = s.elapsed(n);
    assert(e.quotas.dom() =~= s.quotas.dom());
    assert forall|k: K| #[trigger] e.quotas.contains_key(k) implies e.quotas[k].inv() by {
        let q = s.quotas[k];
        assert(s.quotas.contains_key(k));
        lemma_ticked_lent(q, e.now, n, false);
        assert(e.quotas[k].children.dom() =~= q.children.dom());
        assert forall|c: Id| #[trigger] e.quotas[k].children.contains_key(c) implies e.quotas[k].children[c].inv() by {
            assert(q.children.contains_key(c));
        }
        assert(q.refilled(e.now, n).tokens >= q.tokens || q.refilled(e.now, n).tokens >= 0) by {
            assert(q.room() * n >= 0) by (nonlinear_arith)
                requires
                    q.room() >= 0,
            ;
        }
    }
}

/// Whatever changed what a node holds, wants or covers makes it call at the next tick, as long as
/// anything is in play.
pub proof fn law_a_change_is_reported_at_the_next_tick<Id: Ord + Clone, K: Ord + Clone>(
    s: LeaseState<Id, K>,
    n: u64,
    k: K,
)
    requires
        lawful::<K>(),
        s.inv(),
        !s.is_leader(),
        s.parent is Some,
        s.dirty,
        s.quotas.contains_key(k),
        s.elapsed(n).quotas[k].in_play(),
    ensures
        calls_once(s, s.after_ticks(n), s.parent->0),
        !s.after_ticks(n).dirty,
{
    let e = s.elapsed(n);
    lemma_elapsed_inv(s, n);
    assert(e.quotas.contains_key(k));
    assert(e.call_due());
    lemma_call_goes_out(e, k);
}

/// The parent never calls the child: serving a call makes none, unless it brings the news that
/// this node leads, which lets its old parent go.
pub proof fn law_serving_calls_nobody<Id: Ord + Clone, K: Ord + Clone>(
    s: LeaseState<Id, K>,
    from: Id,
    req: RequestView<Id, K>,
)
    requires
        lawful::<Id>(),
        s.inv(),
    ensures
        req.term <= s.term || req.leader != Some(s.me) ==> s.after_request(from, req).outbound
            == s.outbound,
        s.after_request(from, req).outbound == s.outbound || calls_once(
            s,
            s.after_request(from, req),
            s.parent->0,
        ),
{
    if let Some(l) = req.leader {
        lemma_leader_news(s, l, req.term);
    }
    let t = s.with_news(req.leader, req.term);
    lemma_items_served(t, from, req.items);
    assert(t.outbound.take(s.outbound.len() as int) =~= s.outbound);
}

/// As time passes, nobody but the parent is called, and once at most.
pub proof fn law_only_the_parent_is_called<Id: Ord + Clone, K: Ord + Clone>(
    s: LeaseState<Id, K>,
    n: u64,
)
    ensures
        s.after_ticks(n).outbound == s.outbound || (s.parent is Some && calls_once(
            s,
            s.after_ticks(n),
            s.parent->0,
        )),
        s.poked().outbound == s.outbound || (s.parent is Some && calls_once(
            s,
            s.poked(),
            s.parent->0,
        )),
{
    assert(s.after_ticks(n).outbound.take(s.outbound.len() as int) =~= s.outbound);
    assert(s.poked().outbound.take(s.outbound.len() as int) =~= s.outbound);
}

/// A retry waits two ticks at first, twice as long each time, and never longer than an eighth of
/// the TTL (or a tick, if that is longer).
pub proof fn law_retries_back_off(count: int, ttl: u64)
    requires
        0 <= count < 16,
    ensures
        backoff(0, ttl) == min(2, retry_cap(ttl)),
        backoff(count + 1, ttl) == min(
            2 * backoff(count, ttl),
            retry_cap(ttl),
        ),
        1 <= backoff(count, ttl) <= retry_cap(ttl),
{
    lemma2_to64();
    lemma_pow2_unfold((count + 1) as nat);
    lemma_pow2_pos(count as nat);
}

/// A call that went unanswered is made again, within an eighth of the TTL (or a tick, if that is
/// longer), as long as anything is in play.
pub proof fn law_an_unanswered_call_is_made_again<Id: Ord + Clone, K: Ord + Clone>(
    s: LeaseState<Id, K>,
    n: u64,
    k: K,
    sent: u64,
)
    requires
        lawful::<K>(),
        s.inv(),
        !s.is_leader(),
        s.parent is Some,
        s.awaiting == Some(sent),
        clip(s.now + n) >= sent + retry_cap(s.ttl),
        s.quotas.contains_key(k),
        s.elapsed(n).quotas[k].in_play(),
    ensures
        calls_once(s, s.after_ticks(n), s.parent->0),
{
    let e = s.elapsed(n);
    lemma_elapsed_inv(s, n);
    assert(e.quotas.contains_key(k));
    assert(backoff(s.unanswered as int, s.ttl) <= retry_cap(s.ttl));
    assert(e.call_due());
    lemma_call_goes_out(e, k);
}

/// What is wanted is asked for again, within an eighth of the TTL (or a tick, if that is longer)
/// of the last time.
pub proof fn law_what_is_wanted_is_asked_for_again<Id: Ord + Clone, K: Ord + Clone>(
    s: LeaseState<Id, K>,
    n: u64,
    k: K,
)
    requires
        lawful::<K>(),
        s.inv(),
        !s.is_leader(),
        s.parent is Some,
        s.quotas.contains_key(k),
        s.elapsed(n).quotas[k].ask() > 0,
        s.quotas[k].last_request matches Some(t) ==> clip(s.now + n) >= t + retry_cap(s.ttl),
    ensures
        calls_once(s, s.after_ticks(n), s.parent->0),
{
    let e = s.elapsed(n);
    lemma_elapsed_inv(s, n);
    assert(e.quotas.contains_key(k));
    assert(backoff(max(e.quotas[k].refusals - 1, 0), s.ttl) <= retry_cap(s.ttl));
    assert(e.ask_due(k));
    lemma_call_goes_out(e, k);
}

/// What a child needs or wants and did not get, when it is news, is asked for upward at the next
/// occasion.
pub proof fn law_a_shortfall_is_asked_for_upward<Id: Ord + Clone, K: Ord + Clone>(
    s: LeaseState<Id, K>,
    from: Id,
    it: RequestItem<K>,
)
    requires
        lawful::<Id>(),
        lawful::<K>(),
        s.inv(),
        !s.is_leader(),
        s.parent is Some,
        s.quotas.contains_key(it.key),
        ({
            let was = s.quotas[it.key].booking_of(from);
            let b = s.served(from, it).quotas[it.key].children[from];
            b.needed > was.needed || b.wanted > was.wanted
        }),
    ensures
        s.served(from, it).call_due(),
        calls_once(s, s.served(from, it).poked(), s.parent->0),
{
    let t = s.served(from, it);
    lemma_item_served(s, from, it);
    let q = t.quotas[it.key];
    let b = q.children[from];
    assert(t.quotas.contains_key(it.key));
    assert(q.inv());
    assert(q.children.contains_key(from));
    lemma_sum_part(q.children.dom(), from, wants(q.children));
    lemma_sum_part(q.children.dom(), from, needs(q.children));
    assert(q.ask() > 0);
    assert(t.ask_due(it.key));
    lemma_call_goes_out(t, it.key);
}

// ------------------------------------------------------------ drawing

proof fn lemma_marked_all<Id, K>(s: LeaseState<Id, K>, keys: Seq<(K, u64)>)
    ensures
        ({
            let t = s.marked_all(keys);
            &&& t == (LeaseState { quotas: t.quotas, dirty: t.dirty, ..s })
            &&& t.quotas.dom() == s.quotas.dom()
            &&& s.dirty ==> t.dirty
            &&& forall|k: K| #[trigger]
                s.quotas.contains_key(k) ==> {
                    &&& t.quotas[k] == (QuotaState { wanted: t.quotas[k].wanted, ..s.quotas[k] })
                    &&& t.quotas[k].wanted >= s.quotas[k].wanted
                }
        }),
    decreases keys.len(),
{
    if keys.len() > 0 {
        lemma_marked_all(s, keys.drop_last());
        assert(s.marked_all(keys).quotas.dom() =~= s.quotas.dom());
    }
}

/// A limit on which a draw is short is wanted afterwards, by a chunk or the draw.
proof fn lemma_marked_short<Id, K>(s: LeaseState<Id, K>, keys: Seq<(K, u64)>, i: int)
    requires
        0 <= i < keys.len(),
        s.quotas.contains_key(keys[i].0),
        s.quotas[keys[i].0].short_of(keys[i].1, s.good(keys[i].0)),
    ensures
        ({
            let q = s.marked_all(keys).quotas[keys[i].0];
            q.wanted >= keys[i].1 && q.wanted >= q.limit.chunk
        }),
        s.quotas[keys[i].0].wanted == 0 && (keys[i].1 > 0 || s.quotas[keys[i].0].limit.chunk > 0)
            ==> s.marked_all(keys).dirty,
    decreases keys.len(),
{
    let rest = keys.drop_last();
    lemma_marked_all(s, rest);
    lemma_marked_all(s, keys);
    let k = keys[i].0;
    let t = s.marked_all(rest);
    assert(t.quotas.dom().contains(k));
    assert(t.good(k) == s.good(k));
    if i < keys.len() - 1 {
        assert(rest[i] == keys[i]);
        lemma_marked_short(s, rest, i);
    } else if s.quotas[k].wanted == 0 && t.quotas[k].wanted > 0 {
        lemma_wanted_is_news(s, rest, k);
    }
}

proof fn lemma_wanted_is_news<Id, K>(s: LeaseState<Id, K>, keys: Seq<(K, u64)>, k: K)
    requires
        s.quotas.contains_key(k),
        s.quotas[k].wanted == 0,
        s.marked_all(keys).quotas[k].wanted > 0,
    ensures
        s.marked_all(keys).dirty,
    decreases keys.len(),
{
    if keys.len() > 0 {
        lemma_marked_all(s, keys.drop_last());
        if s.marked_all(keys.drop_last()).quotas[k].wanted > 0 {
            lemma_wanted_is_news(s, keys.drop_last(), k);
        }
    }
}

proof fn lemma_drawn_all<Id, K>(s: LeaseState<Id, K>, keys: Seq<(K, u64)>)
    ensures
        ({
            let t = s.drawn_all(keys);
            &&& t == (LeaseState { quotas: t.quotas, ..s })
            &&& t.quotas.dom() == s.quotas.dom()
            &&& forall|k: K| #[trigger]
                s.quotas.contains_key(k) ==> t.quotas[k] == (QuotaState {
                    tokens: t.quotas[k].tokens,
                    used: t.quotas[k].used,
                    ..s.quotas[k]
                })
        }),
    decreases keys.len(),
{
    if keys.len() > 0 {
        lemma_drawn_all(s, keys.drop_last());
        assert(s.drawn_all(keys).quotas.dom() =~= s.quotas.dom());
    }
}

proof fn lemma_drawn_once<Id, K>(s: LeaseState<Id, K>, keys: Seq<(K, u64)>, k: K)
    requires
        s.quotas.contains_key(k),
        forall|i: int, j: int|
            0 <= i < j < keys.len() ==> (#[trigger] keys[i]).0 != (#[trigger] keys[j]).0,
    ensures
        forall|i: int|
            0 <= i < keys.len() && (#[trigger] keys[i]).0 == k ==> s.drawn_all(keys).quotas[k]
                == s.quotas[k].drawn(keys[i].1, s.good(k)),
        (forall|i: int| 0 <= i < keys.len() ==> (#[trigger] keys[i]).0 != k) ==> s.drawn_all(
            keys,
        ).quotas[k] == s.quotas[k],
    decreases keys.len(),
{
    if keys.len() > 0 {
        let rest = keys.drop_last();
        assert forall|i: int, j: int| 0 <= i < j < rest.len() implies (#[trigger] rest[i]).0 != (
        #[trigger] rest[j]).0 by {
            assert(rest[i] == keys[i] && rest[j] == keys[j]);
        }
        lemma_drawn_once(s, rest, k);
        lemma_drawn_all(s, rest);
        let t = s.drawn_all(rest);
        assert(t.quotas.dom().contains(k));
        assert(t.good(k) == s.good(k));
        if keys.last().0 == k {
            assert forall|i: int| 0 <= i < rest.len() implies (#[trigger] rest[i]).0 != k by {
                assert(rest[i] == keys[i]);
                assert(keys[keys.len() - 1].0 == k);
            }
        } else {
            assert forall|i: int| 0 <= i < keys.len() && (#[trigger] keys[i]).0 == k implies (
            s.drawn_all(keys).quotas[k] == s.quotas[k].drawn(keys[i].1, s.good(k))) by {
                assert(rest[i] == keys[i]);
            }
            if forall|i: int| 0 <= i < keys.len() ==> (#[trigger] keys[i]).0 != k {
                assert forall|i: int| 0 <= i < rest.len() implies (#[trigger] rest[i]).0 != k by {
                    assert(rest[i] == keys[i]);
                }
            }
        }
    }
}

/// A draw calls nobody, and changes nothing about what is held, lent or booked.
pub proof fn law_a_draw_never_calls<Id, K>(s: LeaseState<Id, K>, keys: Seq<(K, u64)>, k: K)
    requires
        s.quotas.contains_key(k),
    ensures
        s.after_acquire(keys).outbound == s.outbound,
        s.after_acquire(keys).quotas[k].children == s.quotas[k].children,
        s.after_acquire(keys).quotas[k].given == s.quotas[k].given,
        s.after_acquire(keys).quotas[k].returned == s.quotas[k].returned,
        s.after_acquire(keys).quotas[k].valid_until == s.quotas[k].valid_until,
{
    lemma_marked_all(s, keys);
    lemma_drawn_all(s.marked_all(keys), keys);
    assert(s.marked_all(keys).quotas.dom().contains(k));
}

/// A draw is all or none. Refused, it takes no token and counts as no use, on any limit.
/// Admitted, it takes its amount from each limit that it names, once, out of the bucket of a good
/// share.
pub proof fn law_a_draw_is_all_or_none<Id: Ord + Clone, K: Ord + Clone>(
    s: LeaseState<Id, K>,
    keys: Seq<(K, u64)>,
    k: K,
)
    requires
        s.inv(),
        s.quotas.contains_key(k),
    ensures
        s.denies(keys) ==> {
            &&& s.after_acquire(keys).quotas[k].tokens == s.quotas[k].tokens
            &&& s.after_acquire(keys).quotas[k].used == s.quotas[k].used
        },
        !s.denies(keys) && (forall|i: int, j: int|
            0 <= i < j < keys.len() ==> (#[trigger] keys[i]).0 != (#[trigger] keys[j]).0)
            ==> forall|i: int|
            0 <= i < keys.len() && (#[trigger] keys[i]).0 == k ==> s.after_acquire(
                keys,
            ).quotas[k].tokens == s.quotas[k].tokens - if s.good(k) {
                keys[i].1
            } else {
                0
            },
{
    lemma_marked_all(s, keys);
    let t = s.marked_all(keys);
    assert(t.quotas.dom().contains(k));
    assert(t.good(k) == s.good(k));
    if !s.denies(keys) && (forall|i: int, j: int|
        0 <= i < j < keys.len() ==> (#[trigger] keys[i]).0 != (#[trigger] keys[j]).0) {
        lemma_drawn_once(t, keys, k);
        assert forall|i: int| 0 <= i < keys.len() && (#[trigger] keys[i]).0 == k implies (
        s.after_acquire(keys).quotas[k].tokens == s.quotas[k].tokens - if s.good(k) {
            keys[i].1
        } else {
            0
        }) by {
            assert(!s.refuses(keys, i));
            assert(s.quotas[k].inv());
        }
    }
}

/// A node without a good share of any limit that a draw names admits it, whatever the amounts.
pub proof fn law_without_a_share_everything_is_admitted<Id, K>(
    s: LeaseState<Id, K>,
    keys: Seq<(K, u64)>,
)
    requires
        forall|i: int|
            0 <= i < keys.len() && s.quotas.contains_key((#[trigger] keys[i]).0) ==> !s.good(
                keys[i].0,
            ),
    ensures
        !s.denies(keys),
{
    assert forall|i: int| 0 <= i < keys.len() implies !#[trigger] s.refuses(keys, i) by {
        assert(keys[i].0 == keys[i].0);
    }
}

proof fn lemma_untouched<Id, K>(s: LeaseState<Id, K>, keys: Seq<(K, u64)>)
    requires
        forall|i: int| 0 <= i < keys.len() ==> !s.quotas.contains_key((#[trigger] keys[i]).0),
    ensures
        s.marked_all(keys) == s,
        s.drawn_all(keys) == s,
    decreases keys.len(),
{
    if keys.len() > 0 {
        let rest = keys.drop_last();
        assert forall|i: int| 0 <= i < rest.len() implies !s.quotas.contains_key(
            (#[trigger] rest[i]).0,
        ) by {
            assert(rest[i] == keys[i]);
        }
        lemma_untouched(s, rest);
        assert(!s.quotas.contains_key(keys[keys.len() - 1].0));
    }
}

/// A limit that is not configured is unlimited.
pub proof fn law_a_limit_not_configured_is_unlimited<Id, K>(
    s: LeaseState<Id, K>,
    keys: Seq<(K, u64)>,
)
    requires
        forall|i: int| 0 <= i < keys.len() ==> !s.quotas.contains_key((#[trigger] keys[i]).0),
    ensures
        !s.denies(keys),
        s.after_acquire(keys) == s,
{
    assert forall|i: int| 0 <= i < keys.len() implies !#[trigger] s.refuses(keys, i) by {
        assert(keys[i].0 == keys[i].0);
    }
    lemma_untouched(s, keys);
}

/// A refused draw, and one on a limit without a good share, marks the limit wanted, by a chunk or
/// by the draw if that is more; and when that is news, the next tick asks the parent for it.
pub proof fn law_a_short_draw_asks_at_the_next_tick<Id: Ord + Clone, K: Ord + Clone>(
    s: LeaseState<Id, K>,
    keys: Seq<(K, u64)>,
    i: int,
    n: u64,
)
    requires
        lawful::<Id>(),
        lawful::<K>(),
        s.inv(),
        0 <= i < keys.len(),
        s.quotas.contains_key(keys[i].0),
        s.quotas[keys[i].0].short_of(keys[i].1, s.good(keys[i].0)),
    ensures
        ({
            let wanted = s.after_acquire(keys).quotas[keys[i].0].wanted;
            wanted >= keys[i].1 && wanted >= s.quotas[keys[i].0].limit.chunk
        }),
        !s.is_leader() && s.parent is Some && s.quotas[keys[i].0].wanted == 0 && keys[i].1 > 0
            ==> {
            let t = s.after_acquire(keys).after_ticks(n);
            &&& calls_once(s, t, s.parent->0)
            &&& exists|j: int|
                0 <= j < t.outbound.last().request.items.len() && {
                    let it = #[trigger] t.outbound.last().request.items[j];
                    it.key == keys[i].0 && it.wanted >= keys[i].1
                }
        },
{
    let k = keys[i].0;
    lemma_marked_all(s, keys);
    lemma_marked_short(s, keys, i);
    lemma_drawn_all(s.marked_all(keys), keys);
    let a = s.after_acquire(keys);
    assert(s.marked_all(keys).quotas.dom().contains(k));
    assert(a.quotas.dom().contains(k));
    if !s.is_leader() && s.parent is Some && s.quotas[k].wanted == 0 && keys[i].1 > 0 {
        assert(a.dirty);
        let e = a.elapsed(n);
        assert(e.quotas.dom() =~= s.quotas.dom());
        assert(e.quotas.dom().contains(k));
        assert(a.quotas[k].wanted >= keys[i].1);
        assert(e.quotas[k].wanted == a.quotas[k].wanted);
        assert(e.quotas[k].in_play());
        assert(e.call_due());
        lemma_call_goes_out(e, k);
        let report = e.quotas[k].report(k);
        assert(report.wanted >= e.quotas[k].wanted);
    }
}

// ------------------------------------------------------------ the term and the leader

/// The term never falls, whatever arrives; and news of an older term is ignored.
pub proof fn law_the_term_never_falls<Id: Ord + Clone, K: Ord + Clone>(
    s: LeaseState<Id, K>,
    leader: Id,
    term: u64,
    from: Id,
    req: RequestView<Id, K>,
    resp: ResponseView<Id, K>,
)
    requires
        lawful::<Id>(),
        s.inv(),
    ensures
        s.with_leader(leader, term).term >= s.term,
        s.with_leader(leader, term).term == if term >= s.term {
            term
        } else {
            s.term
        },
        term < s.term ==> s.with_leader(leader, term) == s,
        s.after_request(from, req).term >= s.term,
        s.after_response(from, resp).term >= s.term,
{
    if let Some(l) = req.leader {
        lemma_leader_news(s, l, req.term);
    }
    lemma_items_served(s.with_news(req.leader, req.term), from, req.items);
    let t = s.with_news(resp.leader, resp.term);
    if t.parent == Some(from) && resp.in_reply_to >= t.accepted {
        let answered = t.awaiting matches Some(sent) && resp.in_reply_to >= sent;
        let u = LeaseState {
            accepted: resp.in_reply_to,
            awaiting: if answered {
                None
            } else {
                t.awaiting
            },
            unanswered: if answered {
                0
            } else {
                t.unanswered
            },
            ..t
        };
        lemma_adopted_frame(u, resp.items, resp.in_reply_to);
    }
}

/// Adopting an answer changes the limits only.
proof fn lemma_adopted_frame<Id: Ord + Clone, K: Ord + Clone>(
    s: LeaseState<Id, K>,
    items: Seq<ResponseItem<K>>,
    sent: u64,
)
    ensures
        s.adopted_all(items, sent) == (LeaseState {
            quotas: s.adopted_all(items, sent).quotas,
            dirty: s.adopted_all(items, sent).dirty,
            ..s
        }),
        s.adopted_all(items, sent).quotas.dom() == s.quotas.dom(),
    decreases items.len(),
{
    if items.len() > 0 {
        lemma_adopted_frame(s, items.drop_last(), sent);
        assert(s.adopted_all(items, sent).quotas.dom() =~= s.quotas.dom());
    }
}

/// A stale leader steps down on the first call with a newer term: it holds nothing afterwards,
/// and knows the new leader and the new term.
pub proof fn law_a_stale_leader_steps_down<Id: Ord + Clone, K: Ord + Clone>(
    s: LeaseState<Id, K>,
    from: Id,
    req: RequestView<Id, K>,
    k: K,
)
    requires
        lawful::<Id>(),
        s.inv(),
        s.is_leader(),
        req.term > s.term,
        req.leader matches Some(l) && l != s.me,
        s.quotas.contains_key(k),
    ensures
        !s.after_request(from, req).is_leader(),
        s.after_request(from, req).leader == req.leader,
        s.after_request(from, req).term == req.term,
        s.after_request(from, req).quotas[k].share() == 0,
{
    let t = s.with_news(req.leader, req.term);
    lemma_leader_news(s, req.leader->0, req.term);
    lemma_items_served(t, from, req.items);
    lemma_share_kept(t, from, req.items, k);
}

proof fn lemma_share_kept<Id: Ord + Clone, K: Ord + Clone>(
    s: LeaseState<Id, K>,
    from: Id,
    items: Seq<RequestItem<K>>,
    k: K,
)
    requires
        lawful::<Id>(),
        s.inv(),
        s.quotas.contains_key(k),
    ensures
        s.served_all(from, items).quotas[k].share() <= s.quotas[k].share(),
    decreases items.len(),
{
    if items.len() > 0 {
        lemma_share_kept(s, from, items.drop_last(), k);
        lemma_items_served(s, from, items.drop_last());
        let t = s.served_all(from, items.drop_last());
        let it = items.last();
        if it.key == k {
            t.quotas[k].lemma_booked(from, it, t.now);
        }
    }
}

/// An answer from anyone but the parent carries news of the term and nothing else.
pub proof fn law_a_stranger_s_answer_only_carries_the_term<Id: Ord + Clone, K: Ord + Clone>(
    s: LeaseState<Id, K>,
    from: Id,
    resp: ResponseView<Id, K>,
    k: K,
)
    requires
        s.parent != Some(from),
        s.quotas.contains_key(k),
    ensures
        s.after_response(from, resp) == s.with_news(resp.leader, resp.term),
        resp.term <= s.term ==> s.after_response(from, resp) == s,
        !s.is_leader() && resp.leader != Some(s.me) ==> s.after_response(from, resp).quotas
            == s.quotas,
{
}

/// Answers are taken in the order of the calls they are for: once one is taken, an answer to an
/// older call changes nothing.
pub proof fn law_an_older_answer_is_ignored<Id: Ord + Clone, K: Ord + Clone>(
    s: LeaseState<Id, K>,
    newer: ResponseView<Id, K>,
    older: ResponseView<Id, K>,
    from: Id,
)
    requires
        s.parent == Some(from),
        newer.term <= s.term,
        older.term <= s.term,
        newer.in_reply_to >= s.accepted,
        older.in_reply_to < newer.in_reply_to,
    ensures
        s.after_response(from, newer).accepted == newer.in_reply_to,
        s.after_response(from, newer).after_response(from, older) == s.after_response(from, newer),
{
    let answered = s.awaiting matches Some(sent) && newer.in_reply_to >= sent;
    let u = LeaseState {
        accepted: newer.in_reply_to,
        awaiting: if answered {
            None
        } else {
            s.awaiting
        },
        unanswered: if answered {
            0
        } else {
            s.unanswered
        },
        ..s
    };
    lemma_adopted_frame(u, newer.items, newer.in_reply_to);
}

// ------------------------------------------------------------ parents and children

/// A node keeps its parent while the parent delivers, and through a single delivery by another;
/// after two in a row by another it follows that one, unless it is its own child.
pub proof fn law_the_parent_is_left_after_two_misses<Id: Ord + Clone, K: Ord + Clone>(
    s: LeaseState<Id, K>,
    p: Id,
    peer: Id,
)
    requires
        !s.is_leader(),
        s.parent == Some(p),
        s.parent_misses == 0,
        peer != s.me,
        peer != p,
    ensures
        s.with_upstream(peer).parent == Some(p),
        s.with_upstream(p).parent == Some(p),
        p != s.me ==> s.with_upstream(peer).with_upstream(p).with_upstream(peer).parent == Some(p),
        s.with_upstream(peer).with_upstream(peer).parent == if s.has_child(peer) {
            Some(p)
        } else {
            Some(peer)
        },
{
    let t = s.with_upstream(peer);
    assert(t == (LeaseState { parent_misses: 1, ..s }));
    assert(t.has_child(peer) == s.has_child(peer));
}

/// A delivery gives a node without a parent one; and whoever the parent is afterwards, it is the
/// one before or the deliverer, who is then neither this node nor its child.
pub proof fn law_no_node_takes_its_own_child_as_parent<Id: Ord + Clone, K: Ord + Clone>(
    s: LeaseState<Id, K>,
    peer: Id,
)
    ensures
        s.with_upstream(peer).parent == s.parent || {
            &&& s.with_upstream(peer).parent == Some(peer)
            &&& !s.has_child(peer)
            &&& peer != s.me
            &&& !s.is_leader()
        },
        s.parent is None && !s.is_leader() && peer != s.me && !s.has_child(peer)
            ==> s.with_upstream(peer).parent == Some(peer),
{
}

proof fn lemma_children_kept_by_a_call<Id: Ord + Clone, K: Ord + Clone>(
    s: LeaseState<Id, K>,
    peer: Id,
    c: Id,
)
    ensures
        s.reparented(peer).has_child(c) == s.has_child(c),
        s.reparented(peer).parent == Some(peer),
{
    let t = s.reparented(peer);
    if s.has_child(c) {
        let k = choose|k: K| #[trigger] s.quotas.contains_key(k) && s.quotas[k].has_child(c);
        assert(t.quotas.contains_key(k) && t.quotas[k].has_child(c));
    }
    if t.has_child(c) {
        let k = choose|k: K| #[trigger] t.quotas.contains_key(k) && t.quotas[k].has_child(c);
        assert(s.quotas.contains_key(k) && s.quotas[k].has_child(c));
    }
}

/// A parent known exactly is taken at once, and is no child afterwards: swapping a parent and a
/// child makes no cycle of two.
pub proof fn law_a_child_that_becomes_the_parent_is_no_child<Id: Ord + Clone, K: Ord + Clone>(
    s: LeaseState<Id, K>,
    peer: Id,
)
    requires
        !s.is_leader(),
        peer != s.me,
        s.parent != Some(peer),
    ensures
        s.with_parent(peer).parent == Some(peer),
        !s.with_parent(peer).has_child(peer),
{
    let t = if s.has_child(peer) {
        s.forgetting(Set::empty().insert(peer))
    } else {
        s
    };
    lemma_children_kept_by_a_call(t, peer, peer);
    if s.has_child(peer) {
        assert forall|k: K| #[trigger] t.quotas.contains_key(k) implies !t.quotas[k].has_child(
            peer,
        ) by {
            assert(Set::<Id>::empty().insert(peer).contains(peer));
        }
    }
}

/// A node that moves starts its edge to the new parent at zero, and asks for what its children
/// hold as need.
pub proof fn law_a_move_starts_at_zero<Id: Ord + Clone, K: Ord + Clone>(
    s: LeaseState<Id, K>,
    peer: Id,
    k: K,
)
    requires
        s.inv(),
        s.quotas.contains_key(k),
    ensures
        ({
            let q = s.reparented(peer).quotas[k];
            &&& s.reparented(peer).parent == Some(peer)
            &&& q.given == 0
            &&& q.returned == 0
            &&& q.children == s.quotas[k].children
            &&& q.need() == clip(s.quotas[k].lent() + s.quotas[k].reserved())
        }),
{
}

/// A node that moves tells its old parent first that it holds nothing from it, if that parent
/// ever gave anything; then, if its children hold anything, it calls the new one.
pub proof fn law_a_move_releases_the_old_parent<Id: Ord + Clone, K: Ord + Clone>(
    s: LeaseState<Id, K>,
    old_parent: Id,
    peer: Id,
    k: K,
)
    requires
        lawful::<K>(),
        s.inv(),
        s.parent == Some(old_parent),
        s.quotas.contains_key(k),
        s.quotas[k].given > 0,
    ensures
        s.reparented(peer).outbound.len() > s.outbound.len(),
        s.reparented(peer).outbound[s.outbound.len() as int].peer == old_parent,
        s.reparented(peer).outbound[s.outbound.len() as int].request.items.contains(
            released(k, s.quotas[k].given),
        ),
        forall|i: int|
            0 <= i < s.reparented(peer).outbound[s.outbound.len() as int].request.items.len() ==> {
                let it = #[trigger] s.reparented(
                    peer,
                ).outbound[s.outbound.len() as int].request.items[i];
                it.returned == it.given && it.needed == 0 && it.wanted == 0
            },
        s.quotas[k].lent() > 0 ==> {
            &&& s.reparented(peer).outbound.len() == s.outbound.len() + 2
            &&& s.reparented(peer).outbound.last().peer == peer
        },
{
    let p = ever_given(s.quotas);
    let g = releasing(s.quotas);
    let keys = in_order(s.quotas.dom());
    lemma_in_order(s.quotas.dom());
    assert(keys.contains(k));
    let i = choose|i: int| 0 <= i < keys.len() && keys[i] == k;
    lemma_filter_keeps(keys, p, i);
    let j = choose|j: int| 0 <= j < keys.filter(p).len() && keys.filter(p)[j] == k;
    assert(s.releases()[j] == g(k));
    assert(s.leaving().outbound[s.outbound.len() as int].request.items == s.releases());
    assert(s.reparented(peer).outbound[s.outbound.len() as int]
        == s.leaving().outbound[s.outbound.len() as int]);
    if s.quotas[k].lent() > 0 {
        let t = LeaseState {
            awaiting: None,
            unanswered: 0,
            accepted: 0,
            parent: Some(peer),
            parent_misses: 0,
            quotas: Map::new(
                |k: K| s.quotas.contains_key(k),
                |k: K| QuotaState { refusals: 0, ..s.quotas[k].let_go() },
            ),
            ..s.leaving()
        };
        assert(t.quotas.dom() =~= s.quotas.dom());
        assert(t.called() == s.reparented(peer));
        lemma_call_goes_out(t, k);
    }
}

/// A limit that is removed is forgotten, and its parent is told; the parent that hears of it books
/// nothing for this node any more, unless it gave more meanwhile.
pub proof fn law_a_removed_limit_is_handed_back<Id: Ord + Clone, K: Ord + Clone>(
    child: LeaseState<Id, K>,
    parent: LeaseState<Id, K>,
    k: K,
)
    requires
        lawful::<Id>(),
        parent.inv(),
        child.parent == Some(parent.me),
        child.quotas.contains_key(k),
        child.quotas[k].given > 0,
        parent.quotas.contains_key(k),
        parent.quotas[k].booking_of(child.me).given <= child.quotas[k].given,
    ensures
        !child.without_limit(k).quotas.contains_key(k),
        calls_once(child, child.without_limit(k), parent.me),
        !parent.after_request(
            child.me,
            child.without_limit(k).outbound.last().request,
        ).quotas[k].has_child(child.me),
{
    let t = child.without_limit(k);
    let req = t.outbound.last().request;
    assert(t.outbound.take(child.outbound.len() as int) =~= child.outbound);
    let it = released(k, child.quotas[k].given);
    assert(req.items == seq![it]);
    if let Some(l) = req.leader {
        lemma_leader_news(parent, l, req.term);
    }
    let p = parent.with_news(req.leader, req.term);
    assert(p.quotas.dom().contains(k));
    assert(p.quotas[k].inv());
    law_release_lets_go(
        p.quotas[k],
        child.me,
        it,
        p.weights,
        p.now,
        p.ttl,
        p.parent is Some,
    );
    assert(req.items.drop_last() =~= Seq::empty());
    assert(p.served_all(child.me, req.items.drop_last()) == p);
    assert(p.served_all(child.me, req.items) == p.served(child.me, it));
}

/// Without members that left, a node has no child and no parent that left.
pub proof fn law_who_left_the_cluster_is_forgotten<Id: Ord + Clone, K: Ord + Clone>(
    s: LeaseState<Id, K>,
    members: Set<Id>,
    c: Id,
)
    requires
        !members.contains(c),
    ensures
        !s.with_members(members).has_child(c),
        s.with_members(members).parent != Some(c),
{
    let gone = s.children().difference(members);
    let t = s.with_members(members);
    assert forall|k: K| #[trigger] t.quotas.contains_key(k) implies !t.quotas[k].has_child(c) by {
        if t.quotas[k].has_child(c) {
            assert(s.quotas.contains_key(k) && s.quotas[k].has_child(c));
            assert(gone.contains(c));
        }
    }
}

/// A peer that is down is neither child nor parent.
pub proof fn law_who_is_down_is_forgotten<Id: Ord + Clone, K: Ord + Clone>(
    s: LeaseState<Id, K>,
    peers: Set<Id>,
    c: Id,
)
    requires
        peers.contains(c),
    ensures
        !s.with_down(peers).has_child(c),
        s.with_down(peers).parent != Some(c),
        s.with_down(peers).outbound == s.outbound,
{
    let gone = s.children().intersect(peers);
    let t = s.with_down(peers);
    assert forall|k: K| #[trigger] t.quotas.contains_key(k) implies !t.quotas[k].has_child(c) by {
        if t.quotas[k].has_child(c) {
            assert(s.quotas.contains_key(k) && s.quotas[k].has_child(c));
            assert(gone.contains(c));
        }
    }
}

// ------------------------------------------------------------ a whole tree

/// One limit on a node and on all the nodes below it.
#[verifier::reject_recursive_types(Id)]
pub struct Subtree<Id> {
    pub id: Id,
    pub quota: QuotaState<Id>,
    pub below: Seq<Subtree<Id>>,
}

impl<Id> Subtree<Id> {
    /// Nobody in it has lent more than it holds, and nobody counts more than its parent booked
    /// for it.
    pub open spec fn settled(self) -> bool
        decreases self,
    {
        &&& self.quota.inv()
        &&& self.quota.lent() <= self.quota.share()
        &&& forall|i: int|
            0 <= i < self.below.len() ==> {
                let c = #[trigger] self.below[i];
                &&& c.settled()
                &&& self.quota.children.contains_key(c.id)
                &&& c.quota.share() <= self.quota.children[c.id].spec_share()
            }
        &&& forall|i: int, j: int|
            0 <= i < j < self.below.len() ==> (#[trigger] self.below[i]).id != (
            #[trigger] self.below[j]).id
    }

    /// What all the buckets in it are refilled with in a tick.
    pub open spec fn refills(self) -> int
        decreases self, self.below.len() + 1,
    {
        self.quota.room() + self.refills_below(self.below.len())
    }

    /// What the buckets under the first `k` children are refilled with in a tick.
    pub open spec fn refills_below(self, k: nat) -> int
        decreases self, k,
    {
        if 0 < k <= self.below.len() {
            self.refills_below((k - 1) as nat) + self.below[k - 1].refills()
        } else {
            0
        }
    }
}

proof fn lemma_refills_below<Id>(t: Subtree<Id>, k: nat)
    requires
        t.settled(),
        k <= t.below.len(),
    ensures
        t.refills_below(k) + sum_over(
            t.quota.children.dom().difference(Set::new(|c: Id| among(t, c, k))),
            shares(t.quota.children),
        ) <= t.quota.lent(),
    decreases t, k,
{
    let dom = t.quota.children.dom();
    let f = shares(t.quota.children);
    let rest = dom.difference(Set::new(|c: Id| among(t, c, k)));
    if k == 0 {
        assert(rest =~= dom);
    } else {
        let c = t.below[k - 1];
        let before = dom.difference(Set::new(|c: Id| among(t, c, (k - 1) as nat)));
        lemma_refills_below(t, (k - 1) as nat);
        law_the_rate_is_handed_out_once(c);
        assert(before.contains(c.id)) by {
            if among(t, c.id, (k - 1) as nat) {
                let i = choose|i: int| 0 <= i < k - 1 && (#[trigger] t.below[i]).id == c.id;
                assert(t.below[i].id != t.below[k - 1].id);
            }
        }
        lemma_sum_remove(before, c.id, f);
        assert(before.remove(c.id) =~= rest) by {
            assert forall|x: Id| among(t, x, k) <==> among(t, x, (k - 1) as nat) || x == c.id by {
                if among(t, x, (k - 1) as nat) {
                    let i = choose|i: int| 0 <= i < k - 1 && (#[trigger] t.below[i]).id == x;
                    assert(0 <= i < k && t.below[i].id == x);
                }
                if x == c.id {
                    assert(t.below[k - 1].id == x);
                }
            }
        }
    }
}

/// `c` is one of the first `k` children.
spec fn among<Id>(t: Subtree<Id>, c: Id, k: nat) -> bool {
    exists|i: int| 0 <= i < k && (#[trigger] t.below[i]).id == c
}

/// In a settled tree all the buckets together are refilled with no more than the share at its
/// root: the rate is handed out once.
pub proof fn law_the_rate_is_handed_out_once<Id>(t: Subtree<Id>)
    requires
        t.settled(),
    ensures
        t.refills() <= t.quota.share(),
    decreases t, t.below.len() + 1,
{
    lemma_refills_below(t, t.below.len());
}

} // verus!

//! What each event does to a node, field by field, in plain numbers.
use crate::fair::fair_split;
use crate::fair::law_split_spends;
use crate::fair::law_split_within_demand;
use crate::fair::split_sum;
use crate::laws::lemma_items_served;
use crate::lease::listed;
use crate::messages::Action;
use crate::messages::LeaseRequest;
use crate::messages::LeaseResponse;
use crate::messages::Limit;
use crate::messages::RequestItem;
use crate::messages::RequestView;
use crate::messages::ResponseItem;
use crate::messages::ResponseView;
use crate::messages::Stats;
use crate::node::LeaseState;
use crate::node::ever_given;
use crate::node::playing;
use crate::node::releasing;
use crate::node::reporting;
use crate::order::ascending;
use crate::order::in_order;
use crate::order::lawful;
use crate::order::lemma_filter_keeps;
use crate::order::lemma_filter_none;
use crate::order::lemma_filter_push;
use crate::order::lemma_in_order;
use crate::order::lemma_sum_compare;
use crate::order::lemma_sum_listing;
use crate::order::precedes;
use crate::order::sum_along;
use crate::order::sum_over;
use crate::quota::Booking;
use crate::quota::DEBT;
use crate::quota::QuotaState;
use crate::quota::clip;
use crate::quota::lemma_lent_insert;
use crate::quota::lemma_lent_less;
use crate::quota::needs;
use crate::quota::shares;
use crate::quota::wants;
use vstd::arithmetic::div_mod::lemma_fundamental_div_mod;
use vstd::arithmetic::power2::lemma_pow2_pos;
use vstd::arithmetic::power2::pow2;
use vstd::math::max;
use vstd::math::min;
use vstd::prelude::*;

verus! {

// ------------------------------------------------------------ plain numbers

/// What `a` has beyond `b`, and nothing if it has less.
pub open spec fn surplus(a: int, b: int) -> int {
    if a > b {
        a - b
    } else {
        0
    }
}

/// A number, or the largest that a counter counts to.
pub open spec fn capped(x: int) -> int {
    if x > 0xffff_ffff_ffff_ffff {
        0xffff_ffff_ffff_ffff
    } else {
        x
    }
}

/// What children hold in all: what each was given and did not return.
pub open spec fn out<Id>(children: Map<Id, Booking>) -> int {
    sum_over(
        children.dom(),
        |c: Id| surplus(children[c].given as int, children[c].returned as int) as nat,
    ) as int
}

/// What children want in all and did not get.
pub open spec fn wanted_below<Id>(children: Map<Id, Booking>) -> int {
    capped(sum_over(children.dom(), |c: Id| children[c].wanted as nat) as int)
}

/// What children need in all and did not get.
pub open spec fn needed_below<Id>(children: Map<Id, Booking>) -> int {
    capped(sum_over(children.dom(), |c: Id| children[c].needed as nat) as int)
}

/// What a node holds of a limit: what it was given and did not return.
pub open spec fn held<Id>(q: QuotaState<Id>) -> int {
    surplus(q.given as int, q.returned as int)
}

/// What a node keeps for itself of a limit: what it holds and did not lend.
pub open spec fn kept<Id>(q: QuotaState<Id>) -> int {
    surplus(held(q), out(q.children))
}

/// What a node needs of its parent: what it lent beyond what it holds, and what its children
/// need.
pub open spec fn lacks<Id>(q: QuotaState<Id>) -> int {
    capped(surplus(out(q.children), held(q)) + needed_below(q.children))
}

/// What a node would take of its parent beyond that.
pub open spec fn would_take<Id>(q: QuotaState<Id>) -> int {
    capped(q.wanted + wanted_below(q.children))
}

proof fn lemma_plain<Id>(q: QuotaState<Id>)
    requires
        q.children.dom().finite(),
    ensures
        q.share() == held(q),
        q.lent() == out(q.children),
        q.room() == kept(q),
        q.earmarked() == wanted_below(q.children),
        q.reserved() == needed_below(q.children),
        q.need() == lacks(q),
        q.want() == would_take(q),
        out(q.children) >= 0,
        wanted_below(q.children) >= 0,
        needed_below(q.children) >= 0,
{
    let m = q.children;
    lemma_sum_compare(
        m.dom(),
        shares(m),
        |c: Id| surplus(m[c].given as int, m[c].returned as int) as nat,
    );
    lemma_sum_compare(m.dom(), wants(m), |c: Id| m[c].wanted as nat);
    lemma_sum_compare(m.dom(), needs(m), |c: Id| m[c].needed as nat);
}

// ------------------------------------------------------------ messages

/// What is said of a message is all that it holds, field by field.
pub proof fn law_a_message_says_what_it_holds<Id, K>(
    peer: Id,
    req: LeaseRequest<Id, K>,
    resp: LeaseResponse<Id, K>,
)
    ensures
        req@.term == req.term,
        req@.leader == req.leader,
        req@.sent == req.sent,
        req@.items == req.items@,
        resp@.term == resp.term,
        resp@.leader == resp.leader,
        resp@.in_reply_to == resp.in_reply_to,
        resp@.sent == resp.sent,
        resp@.items == resp.items@,
        Action::Call(peer, req)@.peer == peer,
        Action::Call(peer, req)@.request == req@,
{
}

// ------------------------------------------------------------ a tick

/// What a tick makes of a limit, but for what a call at its end hands back and notes.
proof fn lemma_tick_of_limit<Id: Ord + Clone, K: Ord + Clone>(
    s: LeaseState<Id, K>,
    n: u64,
    k: K,
)
    requires
        s.quotas.contains_key(k),
    ensures
        ({
            let q = s.quotas[k];
            let r = s.after_ticks(n).quotas[k];
            let m = q.refilled(clip(s.now + n), n);
            &&& s.after_ticks(n).quotas.contains_key(k)
            &&& r == (QuotaState {
                children: r.children,
                returned: r.returned,
                last_request: r.last_request,
                ..m
            })
            &&& r.children == m.children_lapsed(clip(s.now + n), s.is_leader()).children
        }),
{
    let q = s.quotas[k];
    let e = s.elapsed(n);
    assert(e.quotas.contains_key(k));
    assert(e.quotas[k] == q.ticked(e.now, n, s.is_leader()));
    let r = s.after_ticks(n).quotas[k];
    assert(r == e.quotas[k] || r == e.quotas[k].called(e.now));
}

/// The clock after `n` ticks.
pub open spec fn later<Id, K>(s: LeaseState<Id, K>, n: u64) -> int {
    capped(s.now + n)
}

/// A tick moves the clock by its ticks, as far as it counts; and of what a node knows about
/// itself and the cluster it changes nothing else.
pub proof fn law_a_tick_moves_the_clock<Id: Ord + Clone, K: Ord + Clone>(
    s: LeaseState<Id, K>,
    n: u64,
)
    ensures
        ({
            let t = s.after_ticks(n);
            &&& t.now == later(s, n)
            &&& t.quotas.dom() == s.quotas.dom()
            &&& t == (LeaseState {
                now: t.now,
                quotas: t.quotas,
                dirty: t.dirty,
                last_call: t.last_call,
                awaiting: t.awaiting,
                unanswered: t.unanswered,
                outbound: t.outbound,
                ..s
            })
        }),
{
    assert(s.after_ticks(n).quotas.dom() =~= s.quotas.dom());
}

/// In a tick every bucket gains what the node keeps for itself, once for each tick; it stops at
/// two ticks of that, or two units, or the burst, whichever is most, and no earlier.
pub proof fn law_a_tick_refills_the_bucket<Id: Ord + Clone, K: Ord + Clone>(
    s: LeaseState<Id, K>,
    n: u64,
    k: K,
)
    requires
        s.inv(),
        s.quotas.contains_key(k),
    ensures
        ({
            let q = s.quotas[k];
            let r = s.after_ticks(n).quotas[k];
            let gained = q.tokens + kept(q) * n;
            &&& r.tokens <= gained
            &&& r.tokens == gained || r.tokens == 2 * kept(q) || r.tokens == 2 || r.tokens
                == q.limit.burst
            &&& r.tokens >= min(gained, 2 * kept(q))
            &&& r.tokens >= min(gained, 2)
            &&& r.tokens >= min(gained, q.limit.burst as int)
            &&& r.tokens <= 2 * kept(q) || r.tokens <= 2 || r.tokens <= q.limit.burst
        }),
{
    let q = s.quotas[k];
    lemma_plain(q);
    lemma_tick_of_limit(s, n, k);
}

/// A tick measures use: the tokens drawn since the last one, divided by its ticks and rounded
/// up, and counts from zero again.
pub proof fn law_a_tick_measures_use<Id: Ord + Clone, K: Ord + Clone>(
    s: LeaseState<Id, K>,
    n: u64,
    k: K,
)
    requires
        s.inv(),
        s.quotas.contains_key(k),
    ensures
        ({
            let q = s.quotas[k];
            let r = s.after_ticks(n).quotas[k];
            &&& r.used == 0
            &&& q.used == 0 ==> r.use_rate == 0
            &&& n == 0 && q.used > 0 ==> r.use_rate == u64::MAX
            &&& n > 0 && q.used <= u64::MAX * n ==> r.use_rate * n >= q.used && (r.use_rate - 1)
                * n < q.used
            &&& n > 0 && q.used > u64::MAX * n ==> r.use_rate == u64::MAX
        }),
{
    let q = s.quotas[k];
    lemma_tick_of_limit(s, n, k);
    if n > 0 {
        let m = n as int;
        let w = q.used / m;
        lemma_fundamental_div_mod(q.used, m);
        let d = q.used % m;
        assert(q.used == m * w + d && 0 <= d < m);
        if d == 0 {
            assert(w * m >= q.used && (w - 1) * m < q.used) by (nonlinear_arith)
                requires
                    q.used == m * w + d,
                    d == 0,
                    m > 0,
            ;
        } else {
            assert((w + 1) * m >= q.used && w * m < q.used) by (nonlinear_arith)
                requires
                    q.used == m * w + d,
                    0 < d < m,
            ;
        }
        let top = u64::MAX as int;
        if q.used <= top * m {
            assert(w <= top && (d > 0 ==> w < top)) by (nonlinear_arith)
                requires
                    q.used == m * w + d,
                    0 <= d < m,
                    q.used <= top * m,
            ;
        } else {
            assert(w >= top) by (nonlinear_arith)
                requires
                    q.used == m * w + d,
                    0 <= d < m,
                    q.used > top * m,
            ;
            if w == top && d == 0 {
                assert(false) by (nonlinear_arith)
                    requires
                        q.used == m * w + d,
                        w == top,
                        d == 0,
                        q.used > top * m,
                ;
            }
        }
        if q.used == 0 {
            assert(w == 0 && d == 0) by (nonlinear_arith)
                requires
                    q.used == 0,
                    q.used == m * w + d,
                    0 <= d < m,
            ;
        }
    }
}

/// A tick that finds a booking past its time, and the child still holding or waiting, counts all
/// that the child was given as returned and drops what it waits for. Every other booking stays.
pub proof fn law_a_tick_lapses_bookings<Id: Ord + Clone, K: Ord + Clone>(
    s: LeaseState<Id, K>,
    n: u64,
    k: K,
    c: Id,
)
    requires
        s.inv(),
        s.quotas.contains_key(k),
    ensures
        ({
            let q = s.quotas[k];
            let r = s.after_ticks(n).quotas[k];
            let b = q.children[c];
            let a = r.children[c];
            &&& r.children.dom() == q.children.dom()
            &&& q.children.contains_key(c) ==> if b.expires < later(s, n) && (b.given > b.returned
                || b.wanted > 0 || b.needed > 0) {
                a == (Booking { returned: b.given, wanted: 0, needed: 0, ..b })
            } else {
                a == b
            }
        }),
{
    lemma_tick_of_limit(s, n, k);
    assert(s.after_ticks(n).quotas[k].children.dom() =~= s.quotas[k].children.dom());
}

/// A tick leaves the configuration, what was given, the date of the share, what is wanted and the
/// count of refusals alone. It notes when a node began to have lent more than it holds, and
/// forgets it when that is over.
pub proof fn law_a_tick_keeps_the_rest<Id: Ord + Clone, K: Ord + Clone>(
    s: LeaseState<Id, K>,
    n: u64,
    k: K,
)
    requires
        s.inv(),
        s.quotas.contains_key(k),
    ensures
        ({
            let q = s.quotas[k];
            let r = s.after_ticks(n).quotas[k];
            &&& r.limit == q.limit
            &&& r.given == q.given
            &&& r.valid_until == q.valid_until
            &&& r.wanted == q.wanted
            &&& r.refusals == q.refusals
            &&& out(q.children) <= held(q) ==> r.over_since is None
            &&& out(q.children) > held(q) && q.over_since is Some ==> r.over_since == q.over_since
            &&& out(q.children) > held(q) && q.over_since is None ==> (r.over_since matches Some(t)
                && t == later(s, n))
        }),
{
    lemma_plain(s.quotas[k]);
    lemma_tick_of_limit(s, n, k);
}

/// What a node without a parent to call hands back in a tick: a leader nothing; another what its
/// silent children held, as far as it holds more than is still lent; and once its share is past
/// its date, all that is not lent.
pub proof fn law_a_tick_gives_up_what_lapsed<Id: Ord + Clone, K: Ord + Clone>(
    s: LeaseState<Id, K>,
    n: u64,
    k: K,
)
    requires
        s.inv(),
        s.quotas.contains_key(k),
        s.parent is None,
    ensures
        ({
            let q = s.quotas[k];
            let r = s.after_ticks(n).quotas[k];
            let silent = out(q.children) - out(r.children);
            let rest = held(q) - min(silent, surplus(held(q), out(r.children)));
            let dated = q.valid_until matches Some(v) && later(s, n) <= v;
            &&& silent >= 0
            &&& r.returned >= q.returned
            &&& s.leader == Some(s.me) ==> r.returned == q.returned
            &&& s.leader != Some(s.me) && dated ==> held(r) == rest
            &&& s.leader != Some(s.me) && !dated ==> held(r) == min(rest, out(r.children))
            &&& r.last_request == q.last_request
        }),
{
    let q = s.quotas[k];
    let e = s.elapsed(n);
    assert(e.quotas.contains_key(k));
    let r = s.after_ticks(n).quotas[k];
    assert(r == e.quotas[k]);
    let m = q.refilled(e.now, n).children_lapsed(e.now, s.is_leader());
    assert(m.children.dom() =~= q.children.dom());
    assert(r.children == m.children);
    lemma_lent_less(q.children, r.children);
    lemma_plain(q);
    lemma_plain(r);
}

/// A tick makes a call due that was not when a booking lapsed in it, or when a share past its
/// date held more than is lent.
pub proof fn law_a_tick_notes_what_the_parent_should_hear<Id: Ord + Clone, K: Ord + Clone>(
    s: LeaseState<Id, K>,
    n: u64,
)
    requires
        s.inv(),
        s.parent is None,
    ensures
        s.after_ticks(n).dirty == (s.dirty || exists|k: K| #[trigger]
            s.quotas.contains_key(k) && {
                let q = s.quotas[k];
                let r = s.after_ticks(n).quotas[k];
                let silent = out(q.children) - out(r.children);
                let rest = held(q) - min(silent, surplus(held(q), out(r.children)));
                ||| exists|c: Id| #[trigger]
                    q.children.contains_key(c) && q.children[c].expires < later(s, n) && (
                    q.children[c].given > q.children[c].returned || q.children[c].wanted > 0
                        || q.children[c].needed > 0)
                ||| s.leader != Some(s.me) && !(q.valid_until matches Some(v) && later(s, n) <= v)
                    && rest > out(r.children)
            }),
        s.after_ticks(n).outbound == s.outbound,
        s.after_ticks(n).last_call == s.last_call,
        s.after_ticks(n).awaiting == s.awaiting,
        s.after_ticks(n).unanswered == s.unanswered,
{
    let e = s.elapsed(n);
    let leader = s.is_leader();
    assert forall|k: K| #[trigger] s.quotas.contains_key(k) implies s.quotas[k].tick_changes(
        e.now,
        n,
        leader,
    ) == {
        let q = s.quotas[k];
        let r = s.after_ticks(n).quotas[k];
        let silent = out(q.children) - out(r.children);
        let rest = held(q) - min(silent, surplus(held(q), out(r.children)));
        ||| exists|c: Id| #[trigger]
            q.children.contains_key(c) && q.children[c].expires < later(s, n) && (
            q.children[c].given > q.children[c].returned || q.children[c].wanted > 0
                || q.children[c].needed > 0)
        ||| s.leader != Some(s.me) && !(q.valid_until matches Some(v) && later(s, n) <= v) && rest
            > out(r.children)
    } by {
        let q = s.quotas[k];
        assert(e.quotas.contains_key(k));
        let r = s.after_ticks(n).quotas[k];
        let m = q.refilled(e.now, n).children_lapsed(e.now, leader);
        assert(m.children.dom() =~= q.children.dom());
        assert(r.children == m.children);
        lemma_lent_less(q.children, r.children);
        lemma_plain(q);
        lemma_plain(m);
    }
}

/// A tick of a node that has a parent is the same tick without it, and then a poke.
pub proof fn law_a_tick_ends_with_a_poke<Id: Ord + Clone, K: Ord + Clone>(
    s: LeaseState<Id, K>,
    n: u64,
)
    ensures
        s.after_ticks(n) == (LeaseState {
            parent: s.parent,
            ..(LeaseState { parent: None, ..s }).after_ticks(n)
        }).poked(),
{
    let a = LeaseState { parent: None::<Id>, ..s };
    assert(a.elapsed(n).quotas =~= s.elapsed(n).quotas);
    assert(a.after_ticks(n) == a.elapsed(n));
    assert(LeaseState { parent: s.parent, ..a.after_ticks(n) } =~= s.elapsed(n));
}

// ------------------------------------------------------------ a call of the parent

/// How long to wait after `count` vain tries: two ticks, doubled each time, sixteen times at most,
/// and never more than an eighth of the TTL or a tick.
pub open spec fn patience(count: int, ttl: u64) -> int {
    min(2 * pow2(min(count, 16) as nat) as int, max(ttl as int / 8, 1))
}

/// A limit for which it is time to ask again.
pub open spec fn asks_again<Id, K>(s: LeaseState<Id, K>, k: K) -> bool {
    let q = s.quotas[k];
    &&& lacks(q) > 0 || would_take(q) > 0
    &&& q.last_request matches Some(t) ==> s.now >= t + patience(surplus(q.refusals as int, 1), s.ttl)
}

/// It is time to call: something changed, half a TTL has passed since the last call, a call went
/// unanswered for long enough, or something is wanted and was not asked for lately.
pub open spec fn time_to_call<Id, K>(s: LeaseState<Id, K>) -> bool {
    ||| s.dirty
    ||| s.now >= s.last_call + s.ttl / 2
    ||| s.awaiting matches Some(t) && s.now >= t + patience(s.unanswered as int, s.ttl)
    ||| exists|k: K| #[trigger] s.quotas.contains_key(k) && asks_again(s, k)
}

/// Something of a limit was ever given to us, is lent, or is asked for.
pub open spec fn counts<Id>(q: QuotaState<Id>) -> bool {
    q.given > 0 || out(q.children) > 0 || lacks(q) > 0 || would_take(q) > 0
}

/// The bucket holds two ticks of what the node keeps, two units and the burst, at least.
pub open spec fn brimful<Id>(q: QuotaState<Id>) -> bool {
    q.tokens >= 2 * kept(q) && q.tokens >= 2 && q.tokens >= q.limit.burst
}

/// What a node whose bucket is full holds on to: what it lent, a chunk, and what its children
/// wait for.
pub open spec fn holds_on_to<Id>(q: QuotaState<Id>) -> int {
    capped(out(q.children) + q.limit.chunk + wanted_below(q.children) + needed_below(q.children))
}

proof fn lemma_counts<Id>(q: QuotaState<Id>)
    requires
        q.children.dom().finite(),
    ensures
        q.in_play() == counts(q),
        q.full() == brimful(q),
        q.keep() == holds_on_to(q),
        (q.ask() > 0) == (lacks(q) > 0 || would_take(q) > 0),
{
    lemma_plain(q);
}

proof fn lemma_due<Id: Ord + Clone, K: Ord + Clone>(s: LeaseState<Id, K>)
    requires
        s.inv(),
    ensures
        s.call_due() == time_to_call(s),
{
    lemma_pow2_pos(min(s.unanswered as int, 16) as nat);
    assert forall|k: K| #[trigger] s.quotas.contains_key(k) implies s.ask_due(k) == asks_again(
        s,
        k,
    ) by {
        lemma_counts(s.quotas[k]);
        lemma_pow2_pos(min(surplus(s.quotas[k].refusals as int, 1), 16) as nat);
    }
}

/// A poke of a leader, of a node without a parent, and one before it is time to call, changes
/// nothing.
pub proof fn law_a_poke_waits_its_time<Id: Ord + Clone, K: Ord + Clone>(s: LeaseState<Id, K>)
    requires
        s.inv(),
        s.leader == Some(s.me) || s.parent is None || !time_to_call(s),
    ensures
        s.poked() == s,
{
    lemma_due(s);
}

/// A poke when it is time to call notes the time, and whether a call before it went unanswered;
/// and of every limit that counts for something it hands back, if the bucket is full, what is
/// beyond what the node holds on to, and notes when something was asked for. Nothing else of a
/// limit changes.
pub proof fn law_a_poke_in_time_hands_back_what_is_spare<Id: Ord + Clone, K: Ord + Clone>(
    s: LeaseState<Id, K>,
    k: K,
)
    requires
        s.inv(),
        s.leader != Some(s.me),
        s.parent is Some,
        time_to_call(s),
    ensures
        ({
            let t = s.poked();
            &&& t == (LeaseState {
                quotas: t.quotas,
                dirty: false,
                last_call: s.now,
                awaiting: t.awaiting,
                unanswered: t.unanswered,
                outbound: t.outbound,
                ..s
            })
            &&& s.awaiting is None ==> t.unanswered == s.unanswered
            &&& s.awaiting is Some ==> t.unanswered == s.unanswered + 1 || t.unanswered
                == s.unanswered && s.unanswered == u32::MAX
            &&& t.quotas.dom() == s.quotas.dom()
            &&& s.quotas.contains_key(k) ==> {
                let q = s.quotas[k];
                let r = t.quotas[k];
                &&& r == (QuotaState {
                    returned: r.returned,
                    last_request: r.last_request,
                    ..q
                })
                &&& r.returned >= q.returned
                &&& counts(q) && brimful(q) && held(q) > holds_on_to(q) ==> held(r) == holds_on_to(q)
                &&& !(counts(q) && brimful(q) && held(q) > holds_on_to(q)) ==> r.returned
                    == q.returned
                &&& counts(q) && (lacks(r) > 0 || would_take(r) > 0) ==> r.last_request == Some(
                    s.now,
                )
                &&& !(counts(q) && (lacks(r) > 0 || would_take(r) > 0)) ==> r.last_request
                    == q.last_request
            }
        }),
{
    lemma_due(s);
    assert(s.poked().quotas.dom() =~= s.quotas.dom());
    if s.quotas.contains_key(k) {
        let q = s.quotas[k];
        lemma_counts(q);
        lemma_plain(q);
        lemma_plain(s.poked().quotas[k]);
        lemma_plain(q.trimmed());
    }
}

/// Some limit counts for something.
pub open spec fn has_to_report<Id, K>(s: LeaseState<Id, K>) -> bool {
    exists|k: K| #[trigger] s.quotas.contains_key(k) && counts(s.quotas[k])
}

/// The items name limits in ascending order, none twice.
pub open spec fn sorted<K: Ord>(items: Seq<RequestItem<K>>) -> bool {
    forall|i: int, j: int|
        0 <= i < j < items.len() ==> precedes((#[trigger] items[i]).key, (#[trigger] items[j]).key)
}

proof fn lemma_filter_sorted<K: Ord + Clone>(keys: Seq<K>, p: spec_fn(K) -> bool)
    requires
        ascending(keys),
    ensures
        ascending(keys.filter(p)),
        forall|i: int|
            0 <= i < keys.filter(p).len() ==> keys.contains(#[trigger] keys.filter(p)[i]) && p(
                keys.filter(p)[i],
            ),
    decreases keys.len(),
{
    if keys.len() > 0 {
        let r = keys.drop_last();
        let y = keys.last();
        assert(keys =~= r.push(y));
        assert forall|i: int, j: int| 0 <= i < j < r.len() implies precedes(
            #[trigger] r[i],
            #[trigger] r[j],
        ) by {
            assert(r[i] == keys[i] && r[j] == keys[j]);
        }
        lemma_filter_sorted(r, p);
        lemma_filter_push(r, y, p);
        let f = r.filter(p);
        let g = keys.filter(p);
        assert forall|i: int| 0 <= i < g.len() implies keys.contains(#[trigger] g[i]) && p(g[i]) by {
            if i < f.len() {
                assert(g[i] == f[i]);
                let j = choose|j: int| 0 <= j < r.len() && r[j] == f[i];
                assert(keys[j] == g[i]);
            } else {
                assert(keys[keys.len() - 1] == y);
            }
        }
        assert forall|i: int, j: int| 0 <= i < j < g.len() implies precedes(
            #[trigger] g[i],
            #[trigger] g[j],
        ) by {
            assert(g[i] == f[i]);
            if j < f.len() {
                assert(g[j] == f[j]);
            } else {
                let m = choose|m: int| 0 <= m < r.len() && r[m] == f[i];
                assert(keys[m] == f[i]);
                assert(precedes(keys[m], keys[keys.len() - 1]));
            }
        }
    } else {
        reveal(Seq::filter);
    }
}

/// A poke when it is time to call, with something to report, queues one call of the parent. It
/// carries this node's term, leader and tick, and names every limit that counts for something and
/// no other, in order: what was given, what was returned by then, what the node lacks and what
/// it would take.
pub proof fn law_a_poke_in_time_reports_every_limit_in_play<Id: Ord + Clone, K: Ord + Clone>(
    s: LeaseState<Id, K>,
    k: K,
)
    requires
        lawful::<K>(),
        s.inv(),
        s.leader != Some(s.me),
        s.parent is Some,
        time_to_call(s),
    ensures
        !has_to_report(s) ==> s.poked().outbound == s.outbound && s.poked().awaiting == s.awaiting,
        has_to_report(s) ==> {
            let t = s.poked();
            let call = t.outbound.last();
            let items = call.request.items;
            &&& t.awaiting == Some(s.now)
            &&& t.outbound == s.outbound.push(call)
            &&& Some(call.peer) == s.parent
            &&& call.request.term == s.term
            &&& call.request.leader == s.leader
            &&& call.request.sent == s.now
            &&& sorted(items)
            &&& s.quotas.contains_key(k) && counts(s.quotas[k]) ==> exists|i: int|
                0 <= i < items.len() && (#[trigger] items[i]).key == k
            &&& forall|i: int|
                #![trigger items[i]]
                0 <= i < items.len() ==> {
                    let r = t.quotas[items[i].key];
                    &&& s.quotas.contains_key(items[i].key)
                    &&& counts(s.quotas[items[i].key])
                    &&& items[i].given == r.given
                    &&& items[i].returned == r.returned
                    &&& items[i].needed == lacks(r)
                    &&& items[i].wanted == would_take(r)
                }
        },
{
    lemma_due(s);
    let t = s.poked();
    let p = playing(s.quotas);
    let g = reporting(s.quotas);
    let keys = in_order(s.quotas.dom());
    lemma_in_order(s.quotas.dom());
    lemma_filter_sorted(keys, p);
    let f = keys.filter(p);
    assert forall|x: K| #[trigger] s.quotas.contains_key(x) implies p(x) == counts(s.quotas[x]) by {
        lemma_counts(s.quotas[x]);
    }
    if has_to_report(s) {
        let x = choose|x: K| #[trigger] s.quotas.contains_key(x) && counts(s.quotas[x]);
        assert(keys.contains(x));
        let i = choose|i: int| 0 <= i < keys.len() && keys[i] == x;
        lemma_filter_keeps(keys, p, i);
        let items = t.outbound.last().request.items;
        assert(items == f.map_values(g));
        assert forall|i: int|
            #![trigger items[i]]
            0 <= i < items.len() implies {
            let r = t.quotas[items[i].key];
            &&& s.quotas.contains_key(items[i].key)
            &&& counts(s.quotas[items[i].key])
            &&& items[i].given == r.given
            &&& items[i].returned == r.returned
            &&& items[i].needed == lacks(r)
            &&& items[i].wanted == would_take(r)
        } by {
            assert(items[i] == g(f[i]));
            assert(keys.contains(f[i]));
            let q = s.quotas[f[i]];
            lemma_plain(q.trimmed());
            lemma_plain(t.quotas[f[i]]);
        }
        assert forall|i: int, j: int| 0 <= i < j < items.len() implies precedes(
            (#[trigger] items[i]).key,
            (#[trigger] items[j]).key,
        ) by {
            assert(items[i] == g(f[i]) && items[j] == g(f[j]));
        }
        if s.quotas.contains_key(k) && counts(s.quotas[k]) {
            assert(keys.contains(k));
            let i = choose|i: int| 0 <= i < keys.len() && keys[i] == k;
            lemma_filter_keeps(keys, p, i);
            let j = choose|j: int| 0 <= j < f.len() && f[j] == k;
            assert(items[j] == g(f[j]));
            assert(items[j].key == k);
        }
    } else {
        assert forall|i: int| 0 <= i < keys.len() implies !p(#[trigger] keys[i]) by {
            assert(s.quotas.contains_key(keys[i]));
        }
        lemma_filter_none(keys, p);
    }
}

// ------------------------------------------------------------ a child's call

/// A request brings no news of the term.
pub open spec fn stale<Id, K>(s: LeaseState<Id, K>, leader: Option<Id>, term: u64) -> bool {
    term <= s.term || leader is None
}

/// A request of a newer term is first of all news of the leader, and then served as any other.
pub proof fn law_a_newer_request_is_news_first<Id: Ord + Clone, K: Ord + Clone>(
    s: LeaseState<Id, K>,
    from: Id,
    req: RequestView<Id, K>,
)
    requires
        req.term > s.term,
        req.leader is Some,
    ensures
        s.after_request(from, req) == s.with_leader(req.leader->0, req.term).after_request(
            from,
            req,
        ),
        s.response(from, req) == s.with_leader(req.leader->0, req.term).response(from, req),
{
    assert(s.with_leader(req.leader->0, req.term).term == req.term);
}

/// Of a request's header only news of the term counts for what becomes of the node. The answer
/// carries the term, the leader and the tick of the node that answers, and the tick of the
/// request.
pub proof fn law_an_answer_says_whose_it_is<Id: Ord + Clone, K: Ord + Clone>(
    s: LeaseState<Id, K>,
    from: Id,
    req: RequestView<Id, K>,
    other: RequestView<Id, K>,
)
    requires
        lawful::<Id>(),
        s.inv(),
        stale(s, req.leader, req.term),
        stale(s, other.leader, other.term),
        req.items == other.items,
    ensures
        s.after_request(from, req) == s.after_request(from, other),
        s.response(from, req).items == s.response(from, other).items,
        s.response(from, req).term == s.term,
        s.response(from, req).leader == s.leader,
        s.response(from, req).in_reply_to == req.sent,
        s.response(from, req).sent == s.now,
{
}

/// A request is served item by item, in its order: a request of two parts is the same as one
/// request for each part, and its answer is the two answers in a row.
pub proof fn law_a_request_is_served_in_its_order<Id: Ord + Clone, K: Ord + Clone>(
    s: LeaseState<Id, K>,
    from: Id,
    req: RequestView<Id, K>,
    first: Seq<RequestItem<K>>,
    second: Seq<RequestItem<K>>,
)
    requires
        lawful::<Id>(),
        s.inv(),
        stale(s, req.leader, req.term),
        req.items == first + second,
    ensures
        ({
            let a = RequestView { items: first, ..req };
            let b = RequestView { items: second, ..req };
            &&& s.after_request(from, req) == s.after_request(from, a).after_request(from, b)
            &&& s.response(from, req).items == s.response(from, a).items + s.after_request(
                from,
                a,
            ).response(from, b).items
        }),
    decreases second.len(),
{
    let a = RequestView { items: first, ..req };
    lemma_items_served(s, from, first);
    let t = s.served_all(from, first);
    assert(t == s.after_request(from, a));
    if second.len() == 0 {
        assert(first + second =~= first);
        assert(s.answers(from, first) + Seq::<ResponseItem<K>>::empty() =~= s.answers(from, first));
    } else {
        let rest = second.drop_last();
        let shorter = RequestView { items: first + rest, ..req };
        law_a_request_is_served_in_its_order(s, from, shorter, first, rest);
        assert(req.items.drop_last() =~= first + rest);
        assert(req.items.last() == second.last());
        assert(t.quotas.dom() == s.quotas.dom());
        let key = second.last().key;
        assert(t.quotas.dom().contains(key) == s.quotas.dom().contains(key));
        let x = s.answers(from, first);
        let y = t.answers(from, rest);
        assert(s.served_all(from, req.items) == t.served_all(from, second));
        assert(s.answers(from, first + rest) == x + y);
        if s.quotas.contains_key(key) {
            let b = t.served_all(from, second).quotas[key].children[from];
            let it = ResponseItem { key, given: b.given, returned: b.returned };
            assert(s.answers(from, req.items) == (x + y).push(it));
            assert((x + y).push(it) =~= x + y.push(it));
        }
    }
}

/// A request without items, or for a limit that is not configured, changes nothing and is
/// answered with nothing.
pub proof fn law_an_unknown_limit_is_not_served<Id: Ord + Clone, K: Ord + Clone>(
    s: LeaseState<Id, K>,
    from: Id,
    req: RequestView<Id, K>,
)
    requires
        stale(s, req.leader, req.term),
        req.items.len() == 0 || req.items.len() == 1 && !s.quotas.contains_key(req.items[0].key),
    ensures
        s.after_request(from, req) == s,
        s.response(from, req).items == Seq::<ResponseItem<K>>::empty(),
{
    if req.items.len() == 1 {
        assert(req.items.drop_last() =~= Seq::empty());
        assert(s.served_all(from, req.items.drop_last()) == s);
        assert(s.answers(from, req.items.drop_last()) == Seq::<ResponseItem<K>>::empty());
    }
}

/// What a parent has on a child before a call: what was given, returned, needed and wanted.
pub open spec fn before<Id>(q: QuotaState<Id>, from: Id) -> Booking {
    if q.children.contains_key(from) {
        q.children[from]
    } else {
        Booking { given: 0, returned: 0, expires: 0, wanted: 0, needed: 0 }
    }
}

/// What the child has returned by now, as far as it was given.
pub open spec fn returned_by<Id, K>(q: QuotaState<Id>, from: Id, it: RequestItem<K>) -> int {
    max(
        before(q, from).returned as int,
        min(it.returned as int, before(q, from).given as int),
    )
}

/// What the child holds when it calls.
pub open spec fn comes_with<Id, K>(q: QuotaState<Id>, from: Id, it: RequestItem<K>) -> int {
    before(q, from).given - returned_by(q, from, it)
}

/// What is lent when the child calls.
pub open spec fn lent_then<Id, K>(q: QuotaState<Id>, from: Id, it: RequestItem<K>) -> int {
    out(q.children) - (returned_by(q, from, it) - before(q, from).returned)
}

/// The share that the child knows of.
pub open spec fn knows<Id, K>(q: QuotaState<Id>, from: Id, it: RequestItem<K>) -> int {
    surplus(min(it.given as int, before(q, from).given as int), returned_by(q, from, it))
}

/// What the child would hold if it got all it asks for.
pub open spec fn asks_to_hold<Id, K>(q: QuotaState<Id>, from: Id, it: RequestItem<K>) -> int {
    max(capped(knows(q, from, it) + it.needed + it.wanted), comes_with(q, from, it))
}

/// `order` lists the children and the caller, ascending.
pub open spec fn lists<Id: Ord>(order: Seq<Id>, q: QuotaState<Id>, from: Id) -> bool {
    &&& forall|i: int, j: int|
        0 <= i < j < order.len() ==> precedes(#[trigger] order[i], #[trigger] order[j])
    &&& forall|c: Id| #[trigger]
        order.contains(c) <==> q.children.contains_key(c) || c == from
}

/// `claims` are those on a node's share when `from` calls: each of those listed with its weight,
/// one if it has none, the caller for all it would hold, the others for what they hold, need and
/// want; and last the node itself, at weight one, for what it uses and wants.
pub open spec fn claimed<Id: Ord, K>(
    claims: Seq<(u64, u64)>,
    order: Seq<Id>,
    q: QuotaState<Id>,
    from: Id,
    it: RequestItem<K>,
    weights: Map<Id, u64>,
) -> bool {
    &&& claims.len() == order.len() + 1
    &&& claims[order.len() as int].0 == 1
    &&& claims[order.len() as int].1 == capped(q.use_rate + q.wanted)
    &&& forall|i: int|
        #![trigger claims[i]]
        #![trigger order[i]]
        0 <= i < order.len() ==> {
            let c = order[i];
            let b = q.children[c];
            &&& weights.contains_key(c) ==> claims[i].0 == weights[c]
            &&& !weights.contains_key(c) ==> claims[i].0 == 1
            &&& c == from ==> claims[i].1 == asks_to_hold(q, from, it)
            &&& c != from ==> claims[i].1 == capped(
                surplus(b.given as int, b.returned as int) + b.needed + b.wanted,
            )
        }
}

/// What a call finds, in the words of the booking it makes first.
proof fn lemma_call_finds<Id: Ord + Clone, K>(
    q: QuotaState<Id>,
    from: Id,
    it: RequestItem<K>,
    now: u64,
)
    requires
        lawful::<Id>(),
        q.inv(),
    ensures
        ({
            let b = q.booked(from, it, now);
            &&& b.share() == held(q)
            &&& b.lent() == lent_then(q, from, it)
            &&& b.children.contains_key(from)
            &&& b.children[from].given == before(q, from).given
            &&& b.children[from].returned == returned_by(q, from, it)
            &&& b.children[from].spec_share() == comes_with(q, from, it)
            &&& b.known(from, it) == knows(q, from, it)
            &&& b.demand(from, it) == asks_to_hold(q, from, it)
            &&& q.came_back(from, it) == returned_by(q, from, it) - before(q, from).returned
            &&& q.booking_of(from) == before(q, from)
            &&& b.room() == surplus(held(q), lent_then(q, from, it))
            &&& comes_with(q, from, it) <= lent_then(q, from, it)
        }),
{
    lemma_plain(q);
    q.lemma_booked(from, it, now);
    let b = q.booking_of(from).merged(it.returned);
    lemma_lent_insert(q.children, from, b);
}

proof fn lemma_call_claims<Id: Ord + Clone, K>(
    q: QuotaState<Id>,
    from: Id,
    it: RequestItem<K>,
    weights: Map<Id, u64>,
    now: u64,
    order: Seq<Id>,
    claims: Seq<(u64, u64)>,
    mine: int,
)
    requires
        lawful::<Id>(),
        q.inv(),
        lists(order, q, from),
        claimed(claims, order, q, from, it, weights),
        0 <= mine < order.len(),
        order[mine] == from,
    ensures
        ({
            let b = q.booked(from, it, now);
            &&& order == in_order(b.children.dom())
            &&& claims == b.claims(from, it, weights)
            &&& b.entitlement(from, it, weights) == fair_split(held(q) as nat, claims)[mine]
            &&& claims[mine].1 == b.demand(from, it)
        }),
{
    let b = q.booked(from, it, now);
    q.lemma_booked(from, it, now);
    lemma_call_finds(q, from, it, now);
    assert(order.to_set() =~= b.children.dom()) by {
        assert forall|c: Id| order.to_set().contains(c) <==> b.children.dom().contains(c) by {
            assert(order.contains(c) <==> q.children.contains_key(c) || c == from);
        }
    }
    assert(ascending(order));
    lemma_in_order(b.children.dom());
    let all = b.claims(from, it, weights);
    assert forall|i: int| 0 <= i < claims.len() implies claims[i] == all[i] by {
        if i < order.len() {
            let c = order[i];
            assert(order.contains(c));
            assert(all[i].1 == if c == from {
                b.demand(from, it)
            } else {
                b.children[c].claim()
            });
        }
    }
    assert(claims =~= all);
    let at = order.index_of(from);
    assert(order[at] == from);
    assert(at == mine);
}

/// What a child holds after its call, and what it still waits for. A node that holds `share` and
/// has lent `lent` splits its share among all claims by weighted max-min fairness. A child that is
/// over its part by more than a chunk is cut to it; while the node has lent more than it holds, by
/// anything at all. Otherwise the child keeps what it holds and is given up to its part, as far as
/// the node holds more than it lent. In the round of grace of a node that has lent more than it
/// holds and has a parent, nobody is cut.
pub proof fn law_a_call_is_settled_by_the_fair_split<Id: Ord + Clone, K: Ord + Clone>(
    s: LeaseState<Id, K>,
    from: Id,
    req: RequestView<Id, K>,
    it: RequestItem<K>,
    order: Seq<Id>,
    claims: Seq<(u64, u64)>,
    mine: int,
)
    requires
        lawful::<Id>(),
        s.inv(),
        stale(s, req.leader, req.term),
        req.items == seq![it],
        s.quotas.contains_key(it.key),
        lists(order, s.quotas[it.key], from),
        claimed(claims, order, s.quotas[it.key], from, it, s.weights),
        0 <= mine < order.len(),
        order[mine] == from,
    ensures
        ({
            let q = s.quotas[it.key];
            let b = s.after_request(from, req).quotas[it.key].children[from];
            let (share, lent) = (held(q), lent_then(q, from, it));
            let had = comes_with(q, from, it);
            let fair = fair_split(share as nat, claims)[mine] as int;
            let spared = lent > share && s.parent is Some && match q.over_since {
                Some(since) => s.now < since + s.ttl / 2,
                None => s.ttl >= 2,
            };
            let slack = if lent > share {
                0
            } else {
                q.limit.chunk as int
            };
            let total = if !spared && had > fair + slack {
                fair
            } else {
                max(had, min(fair, had + surplus(share, lent)))
            };
            let got = surplus(total, knows(q, from, it));
            &&& 0 <= fair <= asks_to_hold(q, from, it)
            &&& b.given == capped(before(q, from).given + surplus(total, had))
            &&& b.returned == returned_by(q, from, it) + surplus(had, total)
            &&& b.expires == capped(s.now + s.ttl)
            &&& b.needed == surplus(it.needed as int, got)
            &&& b.wanted == surplus(it.wanted as int, surplus(got, it.needed as int))
        }),
{
    let q = s.quotas[it.key];
    let b = q.booked(from, it, s.now);
    assert(req.items.drop_last() =~= Seq::empty());
    assert(s.served_all(from, req.items.drop_last()) == s);
    assert(s.after_request(from, req) == s.served(from, it));
    lemma_call_finds(q, from, it, s.now);
    lemma_call_claims(q, from, it, s.weights, s.now, order, claims, mine);
    law_split_within_demand(held(q) as nat, claims, mine);
    q.lemma_served(from, it, s.weights, s.now, s.ttl, s.parent is Some);
}

/// What else a call changes: the answer carries the counters of the caller's edge; the other
/// children's bookings stay; what came back is handed on to the node's parent, as far as the node
/// holds more than it lent; a shortfall that is news makes the limit due to be asked for; the time
/// is noted when a node is first seen to have lent more than it holds. Nothing else.
pub proof fn law_a_call_changes_one_edge<Id: Ord + Clone, K: Ord + Clone>(
    s: LeaseState<Id, K>,
    from: Id,
    req: RequestView<Id, K>,
    it: RequestItem<K>,
)
    requires
        lawful::<Id>(),
        s.inv(),
        stale(s, req.leader, req.term),
        req.items == seq![it],
        s.quotas.contains_key(it.key),
    ensures
        ({
            let q = s.quotas[it.key];
            let t = s.after_request(from, req);
            let r = t.quotas[it.key];
            let b = r.children[from];
            let back = returned_by(q, from, it) - before(q, from).returned;
            let (share, lent) = (held(q), lent_then(q, from, it));
            &&& s.response(from, req).items == seq![
                ResponseItem { key: it.key, given: b.given, returned: b.returned },
            ]
            &&& t == (LeaseState {
                quotas: s.quotas.insert(it.key, r),
                dirty: s.dirty || it.returned > before(q, from).returned,
                ..s
            })
            &&& r == (QuotaState {
                children: q.children.insert(from, b),
                returned: r.returned,
                last_request: r.last_request,
                over_since: r.over_since,
                ..q
            })
            &&& s.parent is None ==> r.returned == q.returned
            &&& s.parent is Some ==> r.returned == q.returned + min(back, surplus(share, lent))
            &&& r.last_request == if s.parent is Some && (b.needed > before(q, from).needed
                || b.wanted > before(q, from).wanted) {
                None
            } else {
                q.last_request
            }
            &&& r.over_since == if lent > share && q.over_since is None {
                Some(s.now)
            } else {
                q.over_since
            }
        }),
{
    let q = s.quotas[it.key];
    assert(req.items.drop_last() =~= Seq::empty());
    assert(s.served_all(from, req.items.drop_last()) == s);
    assert(s.answers(from, req.items.drop_last()) == Seq::<ResponseItem<K>>::empty());
    let t = s.after_request(from, req);
    assert(t == s.served(from, it));
    lemma_call_finds(q, from, it, s.now);
    let b = t.quotas[it.key].children[from];
    assert(s.response(from, req).items =~= seq![
        ResponseItem { key: it.key, given: b.given, returned: b.returned },
    ]);
    let m = q.children.insert(from, q.booking_of(from).merged(it.returned));
    assert(m.insert(from, b) =~= q.children.insert(from, b));
}

/// A node shares fairly with itself: where no other child holds more than its part of the fair
/// split, a child that is given something leaves the node its own part, in a split in which the
/// node claims all that it uses and wants at weight one.
pub proof fn law_a_gift_leaves_the_node_its_own_part<Id: Ord + Clone, K: Ord + Clone>(
    s: LeaseState<Id, K>,
    from: Id,
    req: RequestView<Id, K>,
    it: RequestItem<K>,
    order: Seq<Id>,
    claims: Seq<(u64, u64)>,
    mine: int,
)
    requires
        lawful::<Id>(),
        s.inv(),
        stale(s, req.leader, req.term),
        req.items == seq![it],
        s.quotas.contains_key(it.key),
        lists(order, s.quotas[it.key], from),
        claimed(claims, order, s.quotas[it.key], from, it, s.weights),
        0 <= mine < order.len(),
        order[mine] == from,
        s.parent is Some ==> it.returned <= before(s.quotas[it.key], from).returned,
        s.after_request(from, req).quotas[it.key].children[from].given > before(
            s.quotas[it.key],
            from,
        ).given,
        forall|i: int|
            0 <= i < order.len() && i != mine ==> {
                let b = s.quotas[it.key].children[#[trigger] order[i]];
                surplus(b.given as int, b.returned as int) <= fair_split(
                    held(s.quotas[it.key]) as nat,
                    claims,
                )[i]
            },
    ensures
        kept(s.after_request(from, req).quotas[it.key]) >= fair_split(
            held(s.quotas[it.key]) as nat,
            claims,
        )[order.len() as int],
{
    law_a_call_is_settled_by_the_fair_split(s, from, req, it, order, claims, mine);
    law_a_call_changes_one_edge(s, from, req, it);
    let q = s.quotas[it.key];
    let r = s.after_request(from, req).quotas[it.key];
    let split = fair_split(held(q) as nat, claims);
    lemma_call_finds(q, from, it, s.now);
    lemma_call_claims(q, from, it, s.weights, s.now, order, claims, mine);
    q.lemma_served(from, it, s.weights, s.now, s.ttl, s.parent is Some);
    q.lemma_booked(from, it, s.now);
    assert(req.items.drop_last() =~= Seq::empty());
    assert(s.served_all(from, req.items.drop_last()) == s);
    assert(r.inv());
    lemma_plain(r);
    lemma_in_order(q.booked(from, it, s.now).children.dom());
    assert(r.children.dom() =~= order.to_set());
    let f = shares(r.children);
    lemma_sum_listing(order, f);
    let n = order.len();
    assert forall|i: int| 0 <= i < n implies f(#[trigger] order[i]) <= split[i] by {
        assert(order.contains(order[i]));
        if i != mine {
            assert(order[i] != from);
        }
    }
    lemma_listed_sum(order, f, split, n);
    law_split_spends(held(q) as nat, claims);
    assert(split_sum(split, n + 1) == split_sum(split, n) + split[n as int]);
}

proof fn lemma_listed_sum<T>(order: Seq<T>, f: spec_fn(T) -> nat, split: Seq<nat>, k: nat)
    requires
        k <= order.len(),
        forall|i: int| 0 <= i < order.len() ==> f(#[trigger] order[i]) <= split[i],
    ensures
        sum_along(order.take(k as int), f) <= split_sum(split, k),
        k == order.len() ==> sum_along(order, f) <= split_sum(split, k),
    decreases k,
{
    if k > 0 {
        lemma_listed_sum(order, f, split, (k - 1) as nat);
        assert(order.take(k as int).drop_last() =~= order.take(k - 1));
        assert(f(order[k - 1]) <= split[k - 1]);
    }
    if k == order.len() {
        assert(order.take(k as int) =~= order);
    }
}

// ------------------------------------------------------------ the parent's answer

/// An answer of a newer term is first of all news of the leader, and then taken as any other.
pub proof fn law_a_newer_answer_is_news_first<Id: Ord + Clone, K: Ord + Clone>(
    s: LeaseState<Id, K>,
    from: Id,
    resp: ResponseView<Id, K>,
)
    requires
        resp.term > s.term,
        resp.leader is Some,
    ensures
        s.after_response(from, resp) == s.with_leader(resp.leader->0, resp.term).after_response(
            from,
            resp,
        ),
{
    assert(s.with_leader(resp.leader->0, resp.term).term == resp.term);
}

/// An answer that is not the parent's, or to a call before the last one answered, changes
/// nothing, unless it brings news of the term.
pub proof fn law_only_the_parent_s_answers_are_taken_in_order<Id: Ord + Clone, K: Ord + Clone>(
    s: LeaseState<Id, K>,
    from: Id,
    resp: ResponseView<Id, K>,
)
    requires
        stale(s, resp.leader, resp.term),
        s.parent != Some(from) || resp.in_reply_to < s.accepted,
    ensures
        s.after_response(from, resp) == s,
{
}

/// The parent's answer, without items: the call it is for is noted, and no call to it or before
/// it is awaited any more.
pub proof fn law_an_answer_settles_what_is_awaited<Id: Ord + Clone, K: Ord + Clone>(
    s: LeaseState<Id, K>,
    from: Id,
    resp: ResponseView<Id, K>,
)
    requires
        stale(s, resp.leader, resp.term),
        s.parent == Some(from),
        resp.in_reply_to >= s.accepted,
        resp.items.len() == 0,
    ensures
        ({
            let t = s.after_response(from, resp);
            let answered = s.awaiting matches Some(sent) && sent <= resp.in_reply_to;
            &&& t == (LeaseState {
                accepted: resp.in_reply_to,
                awaiting: t.awaiting,
                unanswered: t.unanswered,
                ..s
            })
            &&& answered ==> t.awaiting is None && t.unanswered == 0
            &&& !answered ==> t.awaiting == s.awaiting && t.unanswered == s.unanswered
        }),
{
}

proof fn lemma_adopted_more<Id: Ord + Clone, K: Ord + Clone>(
    s: LeaseState<Id, K>,
    first: Seq<ResponseItem<K>>,
    second: Seq<ResponseItem<K>>,
    sent: u64,
)
    ensures
        s.adopted_all(first + second, sent) == s.adopted_all(first, sent).adopted_all(
            second,
            sent,
        ),
    decreases second.len(),
{
    if second.len() == 0 {
        assert(first + second =~= first);
    } else {
        let all = first + second;
        lemma_adopted_more(s, first, second.drop_last(), sent);
        assert(all.drop_last() =~= first + second.drop_last());
        assert(all.last() == second.last());
    }
}

proof fn lemma_adopted_keeps<Id: Ord + Clone, K: Ord + Clone>(
    s: LeaseState<Id, K>,
    items: Seq<ResponseItem<K>>,
    sent: u64,
)
    ensures
        s.adopted_all(items, sent) == (LeaseState {
            quotas: s.adopted_all(items, sent).quotas,
            dirty: s.adopted_all(items, sent).dirty,
            ..s
        }),
    decreases items.len(),
{
    if items.len() > 0 {
        lemma_adopted_keeps(s, items.drop_last(), sent);
    }
}

/// An answer is taken item by item, in its order: an answer of two parts is the same as one
/// answer for each part.
pub proof fn law_an_answer_is_taken_in_its_order<Id: Ord + Clone, K: Ord + Clone>(
    s: LeaseState<Id, K>,
    from: Id,
    resp: ResponseView<Id, K>,
    first: Seq<ResponseItem<K>>,
    second: Seq<ResponseItem<K>>,
)
    requires
        stale(s, resp.leader, resp.term),
        s.parent == Some(from),
        resp.in_reply_to >= s.accepted,
        resp.items == first + second,
    ensures
        s.after_response(from, resp) == s.after_response(
            from,
            ResponseView { items: first, ..resp },
        ).after_response(from, ResponseView { items: second, ..resp }),
{
    let a = ResponseView { items: first, ..resp };
    let t = s.after_response(from, a);
    let answered = s.awaiting matches Some(sent) && resp.in_reply_to >= sent;
    let u = LeaseState {
        accepted: resp.in_reply_to,
        awaiting: if answered {
            None
        } else {
            s.awaiting
        },
        unanswered: if answered {
            0
        } else {
            s.unanswered
        },
        ..s
    };
    lemma_adopted_keeps(u, first, resp.in_reply_to);
    lemma_adopted_more(u, first, second, resp.in_reply_to);
    assert(t == u.adopted_all(first, resp.in_reply_to));
    assert(t == (LeaseState { accepted: t.accepted, awaiting: t.awaiting, ..t }));
}

/// What one item of the parent's answer does. The node takes the parent's count of what was given
/// and the larger count of what was returned, and dates the share a TTL from the call, if it is
/// not dated later. What the node gains goes to what it lacks and what its children want first;
/// the rest is taken off its own want, and no refusal counts any more. Gaining nothing while
/// anything is asked for is one refusal more. A cut, and only a cut, takes from the bucket what is
/// beyond one tick of what the node keeps, one unit and the burst.
pub proof fn law_an_answer_sets_one_limit<Id: Ord + Clone, K: Ord + Clone>(
    s: LeaseState<Id, K>,
    from: Id,
    resp: ResponseView<Id, K>,
    it: ResponseItem<K>,
)
    requires
        s.inv(),
        stale(s, resp.leader, resp.term),
        s.parent == Some(from),
        resp.in_reply_to >= s.accepted,
        resp.items == seq![it],
        s.quotas.contains_key(it.key),
    ensures
        ({
            let t = s.after_response(from, resp);
            let q = s.quotas[it.key];
            let r = t.quotas[it.key];
            let gained = held(r) - held(q);
            let dated = capped(resp.in_reply_to + s.ttl);
            let answered = s.awaiting matches Some(sent) && sent <= resp.in_reply_to;
            &&& t == (LeaseState {
                quotas: s.quotas.insert(it.key, r),
                dirty: s.dirty || gained < 0,
                accepted: resp.in_reply_to,
                awaiting: t.awaiting,
                unanswered: t.unanswered,
                ..s
            })
            &&& answered ==> t.awaiting is None && t.unanswered == 0
            &&& !answered ==> t.awaiting == s.awaiting && t.unanswered == s.unanswered
            &&& r == (QuotaState {
                given: it.given,
                returned: r.returned,
                wanted: r.wanted,
                refusals: r.refusals,
                tokens: r.tokens,
                valid_until: r.valid_until,
                ..q
            })
            &&& r.returned == max(q.returned as int, it.returned as int)
            &&& r.valid_until is Some
            &&& r.valid_until->0 == match q.valid_until {
                Some(v) => max(v as int, dated),
                None => dated,
            }
            &&& gained >= 0 ==> r.tokens == q.tokens
            &&& gained < 0 ==> {
                &&& r.tokens <= q.tokens
                &&& r.tokens <= kept(r) || r.tokens <= 1 || r.tokens <= q.limit.burst
                &&& r.tokens == q.tokens || (r.tokens >= kept(r) && r.tokens >= 1 && r.tokens
                    >= q.limit.burst)
            }
            &&& gained > 0 ==> {
                &&& r.refusals == 0
                &&& r.wanted == surplus(
                    q.wanted as int,
                    surplus(gained, capped(lacks(r) + wanted_below(q.children))),
                )
            }
            &&& gained <= 0 ==> {
                let asks = lacks(r) > 0 || would_take(r) > 0;
                &&& r.wanted == q.wanted
                &&& asks && q.refusals < u32::MAX ==> r.refusals == q.refusals + 1
                &&& !asks || q.refusals == u32::MAX ==> r.refusals == q.refusals
            }
        }),
{
    let q = s.quotas[it.key];
    let t = s.after_response(from, resp);
    assert(resp.items.drop_last() =~= Seq::empty());
    let answered = s.awaiting matches Some(sent) && resp.in_reply_to >= sent;
    let u = LeaseState {
        accepted: resp.in_reply_to,
        awaiting: if answered {
            None
        } else {
            s.awaiting
        },
        unanswered: if answered {
            0
        } else {
            s.unanswered
        },
        ..s
    };
    assert(u.adopted_all(resp.items.drop_last(), resp.in_reply_to) == u);
    assert(t == u.adopted(it, resp.in_reply_to));
    lemma_plain(q);
    lemma_plain(q.counted(it));
    lemma_plain(t.quotas[it.key]);
}

/// An item of an answer for a limit that is not configured changes nothing.
pub proof fn law_an_answer_for_an_unknown_limit_is_dropped<Id: Ord + Clone, K: Ord + Clone>(
    s: LeaseState<Id, K>,
    from: Id,
    resp: ResponseView<Id, K>,
)
    requires
        stale(s, resp.leader, resp.term),
        resp.items.len() == 1,
        !s.quotas.contains_key(resp.items[0].key),
    ensures
        s.after_response(from, resp) == s.after_response(
            from,
            ResponseView { items: Seq::empty(), ..resp },
        ),
{
    assert(resp.items.drop_last() =~= Seq::empty());
}

// ------------------------------------------------------------ a draw

/// A limit's share is good: the node leads, or the share is not past its date.
pub open spec fn is_good<Id, K>(s: LeaseState<Id, K>, k: K) -> bool {
    s.leader == Some(s.me) || (s.quotas[k].valid_until matches Some(v) && s.now <= v)
}

/// The bucket has too little for a draw.
pub open spec fn too_little<Id>(q: QuotaState<Id>, amount: u64) -> bool {
    amount > 0 && q.tokens < amount
}

/// A draw is admitted exactly if every limit it names that is configured and has a good share
/// holds at least the amount. The limit that a refusal names is the first that does not, and what
/// it says is there is what the bucket holds, and nothing if it owes.
pub proof fn law_a_draw_is_admitted_when_every_bucket_has_enough<Id: Ord + Clone, K: Ord + Clone>(
    s: LeaseState<Id, K>,
    keys: Seq<(K, u64)>,
)
    ensures
        s.denies(keys) <==> exists|i: int|
            0 <= i < keys.len() && s.quotas.contains_key((#[trigger] keys[i]).0) && is_good(
                s,
                keys[i].0,
            ) && too_little(s.quotas[keys[i].0], keys[i].1),
        !s.denies(keys) ==> forall|i: int|
            0 <= i < keys.len() && s.quotas.contains_key((#[trigger] keys[i]).0) && is_good(
                s,
                keys[i].0,
            ) ==> s.quotas[keys[i].0].tokens >= keys[i].1 || keys[i].1 == 0,
        forall|i: int| #[trigger]
            s.first_refused(keys, i) ==> {
                let q = s.quotas[keys[i].0];
                &&& 0 <= i < keys.len()
                &&& s.quotas.contains_key(keys[i].0)
                &&& is_good(s, keys[i].0)
                &&& too_little(q, keys[i].1)
                &&& q.available() == surplus(q.tokens, 0)
                &&& forall|j: int|
                    0 <= j < i && s.quotas.contains_key((#[trigger] keys[j]).0) && is_good(
                        s,
                        keys[j].0,
                    ) ==> !too_little(s.quotas[keys[j].0], keys[j].1)
            },
{
    assert forall|i: int| 0 <= i < keys.len() implies (#[trigger] s.refuses(keys, i)) == (
    s.quotas.contains_key(keys[i].0) && is_good(s, keys[i].0) && too_little(
        s.quotas[keys[i].0],
        keys[i].1,
    )) by {}
    if s.denies(keys) {
        let i = choose|i: int| 0 <= i < keys.len() && #[trigger] s.refuses(keys, i);
        assert(s.quotas.contains_key(keys[i].0));
    } else {
        assert forall|i: int|
            0 <= i < keys.len() && s.quotas.contains_key((#[trigger] keys[i]).0) && is_good(
                s,
                keys[i].0,
            ) implies !too_little(s.quotas[keys[i].0], keys[i].1) by {
            assert(!s.refuses(keys, i));
        }
    }
    if exists|i: int|
        0 <= i < keys.len() && s.quotas.contains_key((#[trigger] keys[i]).0) && is_good(
            s,
            keys[i].0,
        ) && too_little(s.quotas[keys[i].0], keys[i].1) {
        let i = choose|i: int|
            0 <= i < keys.len() && s.quotas.contains_key((#[trigger] keys[i]).0) && is_good(
                s,
                keys[i].0,
            ) && too_little(s.quotas[keys[i].0], keys[i].1);
        assert(s.refuses(keys, i));
    }
    assert forall|i: int| #[trigger] s.first_refused(keys, i) implies {
        let q = s.quotas[keys[i].0];
        &&& 0 <= i < keys.len()
        &&& s.quotas.contains_key(keys[i].0)
        &&& is_good(s, keys[i].0)
        &&& too_little(q, keys[i].1)
        &&& q.available() == surplus(q.tokens, 0)
        &&& forall|j: int|
            0 <= j < i && s.quotas.contains_key((#[trigger] keys[j]).0) && is_good(
                s,
                keys[j].0,
            ) ==> !too_little(s.quotas[keys[j].0], keys[j].1)
    } by {
        assert(s.refuses(keys, i));
        assert forall|j: int|
            0 <= j < i && s.quotas.contains_key((#[trigger] keys[j]).0) && is_good(
                s,
                keys[j].0,
            ) implies !too_little(s.quotas[keys[j].0], keys[j].1) by {
            assert(!s.refuses(keys, j));
        }
    }
}

/// What a draw takes of one limit in all.
pub open spec fn drawn_of<K>(keys: Seq<(K, u64)>, k: K) -> int
    decreases keys.len(),
{
    if keys.len() == 0 {
        0
    } else {
        drawn_of(keys.drop_last(), k) + if keys.last().0 == k {
            keys.last().1 as int
        } else {
            0
        }
    }
}

proof fn lemma_draws_marked<Id, K>(s: LeaseState<Id, K>, keys: Seq<(K, u64)>)
    ensures
        ({
            let t = s.marked_all(keys);
            &&& t == (LeaseState { quotas: t.quotas, dirty: t.dirty, ..s })
            &&& t.quotas.dom() == s.quotas.dom()
            &&& forall|k: K| #[trigger]
                s.quotas.contains_key(k) ==> t.quotas[k] == (QuotaState {
                    wanted: t.quotas[k].wanted,
                    ..s.quotas[k]
                })
        }),
    decreases keys.len(),
{
    if keys.len() > 0 {
        lemma_draws_marked(s, keys.drop_last());
        assert(s.marked_all(keys).quotas.dom() =~= s.quotas.dom());
    }
}

/// A draw on `k` of the draw `i` is short: no good share, or too little.
pub open spec fn falls_short<Id, K>(s: LeaseState<Id, K>, keys: Seq<(K, u64)>, i: int) -> bool {
    let k = keys[i].0;
    s.quotas.contains_key(k) && (!is_good(s, k) || too_little(s.quotas[k], keys[i].1))
}

proof fn lemma_draws_wanted<Id, K>(s: LeaseState<Id, K>, keys: Seq<(K, u64)>, k: K)
    requires
        s.quotas.contains_key(k),
    ensures
        ({
            let q = s.quotas[k];
            let w = s.marked_all(keys).quotas[k].wanted;
            &&& w >= q.wanted
            &&& forall|i: int|
                0 <= i < keys.len() && (#[trigger] keys[i]).0 == k && falls_short(s, keys, i)
                    ==> w >= keys[i].1 && w >= q.limit.chunk
            &&& w == q.wanted || exists|i: int|
                0 <= i < keys.len() && (#[trigger] keys[i]).0 == k && falls_short(s, keys, i) && (w
                    == keys[i].1 || w == q.limit.chunk)
        }),
    decreases keys.len(),
{
    if keys.len() > 0 {
        let rest = keys.drop_last();
        lemma_draws_wanted(s, rest, k);
        lemma_draws_marked(s, rest);
        let t = s.marked_all(rest);
        let q = s.quotas[k];
        assert(t.quotas.dom().contains(k));
        assert(t.good(k) == is_good(s, k));
        let n = keys.len() - 1;
        let w = s.marked_all(keys).quotas[k].wanted;
        let v = t.quotas[k].wanted;
        assert forall|i: int| 0 <= i < rest.len() implies falls_short(s, rest, i) == falls_short(
            s,
            keys,
            i,
        ) by {
            assert(rest[i] == keys[i]);
        }
        assert forall|i: int|
            0 <= i < keys.len() && (#[trigger] keys[i]).0 == k && falls_short(s, keys, i) implies w
            >= keys[i].1 && w >= q.limit.chunk by {
            if i < n {
                assert(rest[i] == keys[i]);
            }
        }
        if w == v && v != q.wanted {
            let i = choose|i: int|
                0 <= i < rest.len() && (#[trigger] rest[i]).0 == k && falls_short(s, rest, i) && (v
                    == rest[i].1 || v == q.limit.chunk);
            assert(keys[i] == rest[i]);
            assert(keys[i].0 == k && falls_short(s, keys, i));
        }
        if w != v {
            assert(keys[n].0 == k && falls_short(s, keys, n));
        }
    }
}

proof fn lemma_draws_dirty<Id, K>(s: LeaseState<Id, K>, keys: Seq<(K, u64)>)
    ensures
        s.marked_all(keys).dirty == (s.dirty || exists|i: int|
            0 <= i < keys.len() && #[trigger] falls_short(s, keys, i) && s.quotas[keys[i].0].wanted
                == 0),
    decreases keys.len(),
{
    if keys.len() > 0 {
        let rest = keys.drop_last();
        lemma_draws_dirty(s, rest);
        lemma_draws_marked(s, rest);
        let t = s.marked_all(rest);
        let n = keys.len() - 1;
        let k = keys[n].0;
        assert forall|i: int| 0 <= i < rest.len() implies falls_short(s, rest, i) == falls_short(
            s,
            keys,
            i,
        ) && rest[i] == keys[i] by {}
        if s.quotas.contains_key(k) {
            assert(t.quotas.dom().contains(k));
            assert(t.good(k) == is_good(s, k));
            lemma_draws_wanted(s, rest, k);
            assert(t.quotas[k].short_of(keys[n].1, t.good(k)) == falls_short(s, keys, n));
            if falls_short(s, keys, n) && s.quotas[k].wanted == 0 && t.quotas[k].wanted != 0 {
                let i = choose|i: int|
                    0 <= i < rest.len() && (#[trigger] rest[i]).0 == k && falls_short(s, rest, i);
                assert(falls_short(s, rest, i) && s.quotas[rest[i].0].wanted == 0);
            }
        }
        if exists|i: int|
            0 <= i < rest.len() && #[trigger] falls_short(s, rest, i) && s.quotas[rest[i].0].wanted
                == 0 {
            let i = choose|i: int|
                0 <= i < rest.len() && #[trigger] falls_short(s, rest, i)
                    && s.quotas[rest[i].0].wanted == 0;
            assert(falls_short(s, keys, i) && s.quotas[keys[i].0].wanted == 0);
        }
        if exists|i: int|
            0 <= i < keys.len() && #[trigger] falls_short(s, keys, i) && s.quotas[keys[i].0].wanted
                == 0 {
            let i = choose|i: int|
                0 <= i < keys.len() && #[trigger] falls_short(s, keys, i)
                    && s.quotas[keys[i].0].wanted == 0;
            if i < n {
                assert(falls_short(s, rest, i) && s.quotas[rest[i].0].wanted == 0);
            } else {
                assert(falls_short(s, keys, n));
            }
        }
        if s.marked_all(keys).dirty && !t.dirty {
            assert(falls_short(s, keys, n));
            assert(s.quotas[k].wanted == 0);
        }
    }
}

/// A draw that falls short on a limit, for want of tokens or of a good share, makes the node want
/// it: a chunk, the amount, or what it wanted before, whichever is most. A call is due if it
/// wanted nothing of it before.
pub proof fn law_a_draw_that_falls_short_wants_more<Id: Ord + Clone, K: Ord + Clone>(
    s: LeaseState<Id, K>,
    keys: Seq<(K, u64)>,
    k: K,
)
    ensures
        s.after_acquire(keys).dirty == (s.dirty || exists|i: int|
            0 <= i < keys.len() && #[trigger] falls_short(s, keys, i) && s.quotas[keys[i].0].wanted
                == 0),
        s.quotas.contains_key(k) ==> {
            let q = s.quotas[k];
            let w = s.after_acquire(keys).quotas[k].wanted;
            &&& w >= q.wanted
            &&& forall|i: int|
                0 <= i < keys.len() && (#[trigger] keys[i]).0 == k && falls_short(s, keys, i)
                    ==> w >= keys[i].1 && w >= q.limit.chunk
            &&& w == q.wanted || exists|i: int|
                0 <= i < keys.len() && (#[trigger] keys[i]).0 == k && falls_short(s, keys, i) && (w
                    == keys[i].1 || w == q.limit.chunk)
        },
{
    lemma_draws_marked(s, keys);
    lemma_draws_dirty(s, keys);
    lemma_draws_taken(s.marked_all(keys), keys);
    if s.quotas.contains_key(k) {
        lemma_draws_wanted(s, keys, k);
        assert(s.marked_all(keys).quotas.dom().contains(k));
    }
}

proof fn lemma_draws_taken<Id, K>(s: LeaseState<Id, K>, keys: Seq<(K, u64)>)
    ensures
        ({
            let t = s.drawn_all(keys);
            &&& t == (LeaseState { quotas: t.quotas, ..s })
            &&& t.quotas.dom() == s.quotas.dom()
            &&& forall|k: K| #[trigger]
                s.quotas.contains_key(k) ==> {
                    let q = s.quotas[k];
                    let r = t.quotas[k];
                    let d = drawn_of(keys, k);
                    &&& d >= 0
                    &&& r == (QuotaState { tokens: r.tokens, used: r.used, ..q })
                    &&& q.used <= u128::MAX ==> r.used == min(q.used + d, u128::MAX as int)
                    &&& !is_good(s, k) ==> r.tokens == q.tokens
                    &&& is_good(s, k) && q.tokens >= -DEBT ==> r.tokens == max(q.tokens - d, -DEBT)
                }
        }),
    decreases keys.len(),
{
    if keys.len() > 0 {
        let rest = keys.drop_last();
        lemma_draws_taken(s, rest);
        let t = s.drawn_all(rest);
        assert(s.drawn_all(keys).quotas.dom() =~= s.quotas.dom());
        assert forall|k: K| #[trigger] s.quotas.contains_key(k) implies {
            let q = s.quotas[k];
            let r = s.drawn_all(keys).quotas[k];
            let d = drawn_of(keys, k);
            &&& d >= 0
            &&& r == (QuotaState { tokens: r.tokens, used: r.used, ..q })
            &&& q.used <= u128::MAX ==> r.used == min(q.used + d, u128::MAX as int)
            &&& !is_good(s, k) ==> r.tokens == q.tokens
            &&& is_good(s, k) && q.tokens >= -DEBT ==> r.tokens == max(q.tokens - d, -DEBT)
        } by {
            assert(t.quotas.dom().contains(k));
            assert(t.good(k) == is_good(s, k));
        }
    }
}

/// A refused draw takes nothing. An admitted one takes its amounts, each time a limit is named,
/// out of the bucket of a good share and out of none other, and counts them as use either way.
/// Nothing else of a node changes but what it wants. The debt and the use that are counted have a
/// bound, far beyond what fits in a draw.
pub proof fn law_a_draw_takes_its_amounts<Id: Ord + Clone, K: Ord + Clone>(
    s: LeaseState<Id, K>,
    keys: Seq<(K, u64)>,
    k: K,
)
    requires
        s.inv(),
    ensures
        ({
            let t = s.after_acquire(keys);
            &&& t == (LeaseState { quotas: t.quotas, dirty: t.dirty, ..s })
            &&& t.quotas.dom() == s.quotas.dom()
            &&& s.quotas.contains_key(k) ==> {
                let q = s.quotas[k];
                let r = t.quotas[k];
                let d = drawn_of(keys, k);
                &&& r == (QuotaState { tokens: r.tokens, used: r.used, wanted: r.wanted, ..q })
                &&& s.denies(keys) ==> r.tokens == q.tokens && r.used == q.used
                &&& !s.denies(keys) ==> r.used == min(q.used + d, u128::MAX as int)
                &&& !s.denies(keys) && !is_good(s, k) ==> r.tokens == q.tokens
                &&& !s.denies(keys) && is_good(s, k) ==> r.tokens == max(
                    q.tokens - d,
                    -0x4000_0000_0000_0000_0000_0000_0000_0000,
                )
            }
        }),
{
    lemma_draws_marked(s, keys);
    let m = s.marked_all(keys);
    lemma_draws_taken(m, keys);
    if s.quotas.contains_key(k) {
        assert(m.quotas.dom().contains(k));
    }
}

// ------------------------------------------------------------ configuration

/// A limit of which nothing is known yet but how it is configured.
pub open spec fn untouched<Id>(q: QuotaState<Id>, limit: Limit) -> bool {
    &&& q.limit == limit
    &&& q.given == 0
    &&& q.returned == 0
    &&& q.tokens == 0
    &&& q.used == 0
    &&& q.use_rate == 0
    &&& q.wanted == 0
    &&& q.refusals == 0
    &&& q.valid_until is None
    &&& q.last_request is None
    &&& q.over_since is None
    &&& forall|c: Id| !q.children.contains_key(c)
}

/// A new node knows its name and its timing; it has no limit, no parent, nothing to call, and
/// knows of no leader.
pub proof fn law_a_new_node_has_nothing<Id: Ord + Clone, K: Ord + Clone>(me: Id, ttl: u64)
    ensures
        ({
            let s = LeaseState::<Id, K>::fresh(me, ttl);
            &&& s.me == me
            &&& s.ttl == ttl
            &&& s.now == 0
            &&& s.term == 0
            &&& s.leader is None
            &&& s.parent is None
            &&& s.parent_misses == 0
            &&& !s.dirty
            &&& s.last_call == 0
            &&& s.awaiting is None
            &&& s.unanswered == 0
            &&& s.accepted == 0
            &&& s.outbound.len() == 0
            &&& forall|k: K| !s.quotas.contains_key(k)
            &&& forall|c: Id| !s.members.contains(c) && !s.down.contains(c)
                && !s.weights.contains_key(c)
        }),
{
}

/// A limit is set on its own: a new one starts from nothing, one that is there keeps all but its
/// configuration; every other limit, and all else, stays. The leader holds of it the whole rate,
/// or what it lent if that is more, for good, returned nothing and wants nothing.
pub proof fn law_a_limit_is_set_on_its_own<Id: Ord + Clone, K: Ord + Clone>(
    s: LeaseState<Id, K>,
    k: K,
    limit: Limit,
)
    requires
        s.inv(),
    ensures
        ({
            let t = s.with_limit(k, limit);
            let r = t.quotas[k];
            let old = s.quotas[k];
            &&& t == (LeaseState { quotas: s.quotas.insert(k, r), ..s })
            &&& r.limit == limit
            &&& s.leader != Some(s.me) && !s.quotas.contains_key(k) ==> untouched(r, limit)
            &&& s.leader != Some(s.me) && s.quotas.contains_key(k) ==> r == (QuotaState {
                limit,
                ..old
            })
            &&& s.leader == Some(s.me) ==> {
                &&& r.given == max(limit.limit as int, out(r.children))
                &&& r.returned == 0
                &&& r.valid_until == Some(u64::MAX)
                &&& r.wanted == 0
                &&& r.refusals == 0
                &&& !s.quotas.contains_key(k) ==> untouched(
                    QuotaState { given: 0, valid_until: None, ..r },
                    limit,
                )
                &&& s.quotas.contains_key(k) ==> r == (QuotaState {
                    limit,
                    given: r.given,
                    returned: 0,
                    valid_until: Some(u64::MAX),
                    wanted: 0,
                    refusals: 0,
                    ..old
                })
            }
        }),
{
    let r = s.with_limit(k, limit).quotas[k];
    if s.quotas.contains_key(k) {
        lemma_plain(s.quotas[k]);
    } else {
        assert(r.children.dom() =~= Set::empty());
    }
    lemma_plain(r);
}

/// A limit is removed on its own. If the parent ever gave anything of it, one call to the parent
/// says that all of it is returned, and nothing is needed or wanted any more.
pub proof fn law_a_limit_is_removed_on_its_own<Id: Ord + Clone, K: Ord + Clone>(
    s: LeaseState<Id, K>,
    k: K,
)
    ensures
        ({
            let t = s.without_limit(k);
            let tells = s.parent is Some && s.quotas.contains_key(k) && s.quotas[k].given > 0;
            &&& t == (LeaseState { quotas: s.quotas.remove(k), outbound: t.outbound, ..s })
            &&& !tells ==> t.outbound == s.outbound
            &&& tells ==> {
                let call = t.outbound.last();
                let it = call.request.items[0];
                &&& t.outbound == s.outbound.push(call)
                &&& Some(call.peer) == s.parent
                &&& call.request.term == s.term
                &&& call.request.leader == s.leader
                &&& call.request.sent == s.now
                &&& call.request.items.len() == 1
                &&& it.key == k
                &&& it.given == s.quotas[k].given
                &&& it.returned == s.quotas[k].given
                &&& it.needed == 0
                &&& it.wanted == 0
            }
        }),
{
}

/// Of a name listed more than once, the last weight counts; a name that is not listed has none.
pub proof fn law_the_last_weight_listed_counts<Id>(list: Seq<(Id, u64)>, c: Id)
    ensures
        forall|i: int|
            0 <= i < list.len() && (#[trigger] list[i]).0 == c && (forall|j: int|
                i < j < list.len() ==> (#[trigger] list[j]).0 != c) ==> listed(list).contains_key(c)
                && listed(list)[c] == list[i].1,
        listed(list).contains_key(c) ==> exists|i: int|
            0 <= i < list.len() && (#[trigger] list[i]).0 == c,
    decreases list.len(),
{
    if list.len() > 0 {
        let rest = list.drop_last();
        law_the_last_weight_listed_counts(rest, c);
        let n = list.len() - 1;
        assert forall|i: int|
            0 <= i < list.len() && (#[trigger] list[i]).0 == c && (forall|j: int|
                i < j < list.len() ==> (#[trigger] list[j]).0 != c) implies listed(
            list,
        ).contains_key(c) && listed(list)[c] == list[i].1 by {
            if i < n {
                assert(rest[i] == list[i]);
                assert(list[n].0 != c);
                assert forall|j: int| i < j < rest.len() implies (#[trigger] rest[j]).0 != c by {
                    assert(rest[j] == list[j]);
                }
            }
        }
        if listed(list).contains_key(c) {
            if list[n].0 != c {
                let i = choose|i: int| 0 <= i < rest.len() && (#[trigger] rest[i]).0 == c;
                assert(list[i].0 == c);
            }
        }
    }
}

// ------------------------------------------------------------ the cluster

/// A child holds something or waits for something.
pub open spec fn busy(b: Booking) -> bool {
    b.given > b.returned || b.wanted > 0 || b.needed > 0
}

/// `c` is busy on some limit.
pub open spec fn attached<Id, K>(s: LeaseState<Id, K>, c: Id) -> bool {
    exists|k: K| #[trigger]
        s.quotas.contains_key(k) && s.quotas[k].children.contains_key(c) && busy(
            s.quotas[k].children[c],
        )
}

/// A node's children are those that hold something from it or wait for something, on any limit.
pub proof fn law_children_hold_or_wait<Id: Ord + Clone, K: Ord + Clone>(s: LeaseState<Id, K>, c: Id)
    ensures
        s.children().contains(c) <==> attached(s, c),
        s.has_child(c) <==> attached(s, c),
{
    if attached(s, c) {
        let k = choose|k: K| #[trigger]
            s.quotas.contains_key(k) && s.quotas[k].children.contains_key(c) && busy(
                s.quotas[k].children[c],
            );
        assert(s.quotas.contains_key(k) && s.quotas[k].has_child(c));
    }
    if s.has_child(c) {
        let k = choose|k: K| #[trigger] s.quotas.contains_key(k) && s.quotas[k].has_child(c);
        assert(s.quotas.contains_key(k) && busy(s.quotas[k].children[c]));
    }
}

/// `t` is `s` without every booking of the children in `gone`, and with no other booking changed;
/// a call is due if there was any.
pub open spec fn lost<Id, K>(s: LeaseState<Id, K>, t: LeaseState<Id, K>, gone: Set<Id>) -> bool {
    &&& t.quotas.dom() == s.quotas.dom()
    &&& t.dirty == (s.dirty || exists|k: K, c: Id| #[trigger]
        s.quotas.contains_key(k) && #[trigger] gone.contains(c)
            && s.quotas[k].children.contains_key(c))
    &&& forall|k: K, c: Id|
        #![trigger t.quotas[k].children.contains_key(c)]
        s.quotas.contains_key(k) ==> (t.quotas[k].children.contains_key(c)
            <==> s.quotas[k].children.contains_key(c) && !gone.contains(c))
    &&& forall|k: K, c: Id|
        #![trigger t.quotas[k].children[c]]
        s.quotas.contains_key(k) && s.quotas[k].children.contains_key(c) && !gone.contains(c)
            ==> t.quotas[k].children[c] == s.quotas[k].children[c]
    &&& forall|k: K| #[trigger]
        s.quotas.contains_key(k) ==> t.quotas[k] == (QuotaState {
            children: t.quotas[k].children,
            ..s.quotas[k]
        })
}

/// With other members, a node loses the children and the parent that are not among them, and
/// nothing else changes.
pub proof fn law_only_who_left_is_lost<Id: Ord + Clone, K: Ord + Clone>(
    s: LeaseState<Id, K>,
    members: Set<Id>,
)
    ensures
        ({
            let t = s.with_members(members);
            &&& t == (LeaseState {
                members,
                quotas: t.quotas,
                dirty: t.dirty,
                parent: t.parent,
                ..s
            })
            &&& lost(s, t, Set::new(|c: Id| attached(s, c) && !members.contains(c)))
            &&& t.parent == match s.parent {
                Some(p) if !members.contains(p) => None,
                _ => s.parent,
            }
        }),
{
    let gone = Set::new(|c: Id| attached(s, c) && !members.contains(c));
    assert forall|c: Id| s.children().difference(members).contains(c) <==> gone.contains(c) by {
        law_children_hold_or_wait(s, c);
    }
    assert(s.children().difference(members) =~= gone);
    let t = s.with_members(members);
    assert(t.quotas.dom() =~= s.quotas.dom());
}

/// When peers are down, a node loses the children and the parent among them, and nothing else
/// changes but what it knows to be down.
pub proof fn law_only_who_is_down_is_lost<Id: Ord + Clone, K: Ord + Clone>(
    s: LeaseState<Id, K>,
    peers: Set<Id>,
)
    ensures
        ({
            let t = s.with_down(peers);
            &&& t == (LeaseState {
                down: t.down,
                quotas: t.quotas,
                dirty: t.dirty,
                parent: t.parent,
                parent_misses: t.parent_misses,
                ..s
            })
            &&& forall|c: Id| t.down.contains(c) <==> s.down.contains(c) || peers.contains(c)
            &&& lost(s, t, Set::new(|c: Id| attached(s, c) && peers.contains(c)))
            &&& match s.parent {
                Some(p) if peers.contains(p) => t.parent is None && t.parent_misses == 0,
                _ => t.parent == s.parent && t.parent_misses == s.parent_misses,
            }
        }),
{
    let gone = Set::new(|c: Id| attached(s, c) && peers.contains(c));
    assert forall|c: Id| s.children().intersect(peers).contains(c) <==> gone.contains(c) by {
        law_children_hold_or_wait(s, c);
    }
    assert(s.children().intersect(peers) =~= gone);
    let t = s.with_down(peers);
    assert(t.quotas.dom() =~= s.quotas.dom());
}

/// `t` has one more call to make than `s` if the parent of `s` ever gave anything: it tells that
/// parent, in the header that `t` has, that every limit that it ever gave is returned in full.
pub open spec fn let_parent_go<Id, K: Ord>(s: LeaseState<Id, K>, t: LeaseState<Id, K>, at: int) -> bool {
    let ever = exists|k: K| #[trigger] s.quotas.contains_key(k) && s.quotas[k].given > 0;
    &&& t.outbound.len() >= s.outbound.len()
    &&& t.outbound.take(s.outbound.len() as int) == s.outbound
    &&& s.parent is None || !ever ==> at == s.outbound.len()
    &&& s.parent is Some && ever ==> {
        let call = t.outbound[s.outbound.len() as int];
        let items = call.request.items;
        &&& at == s.outbound.len() + 1
        &&& t.outbound.len() >= at
        &&& Some(call.peer) == s.parent
        &&& call.request.term == t.term
        &&& call.request.leader == t.leader
        &&& call.request.sent == t.now
        &&& sorted(items)
        &&& forall|k: K| #[trigger]
            s.quotas.contains_key(k) && s.quotas[k].given > 0 ==> exists|i: int|
                0 <= i < items.len() && (#[trigger] items[i]).key == k
        &&& forall|i: int|
            #![trigger items[i]]
            0 <= i < items.len() ==> {
                let k = items[i].key;
                &&& s.quotas.contains_key(k)
                &&& s.quotas[k].given > 0
                &&& items[i].given == s.quotas[k].given
                &&& items[i].returned == s.quotas[k].given
                &&& items[i].needed == 0
                &&& items[i].wanted == 0
            }
    }
}

proof fn lemma_let_go<Id: Ord + Clone, K: Ord + Clone>(s: LeaseState<Id, K>) -> (at: int)
    requires
        lawful::<K>(),
        s.quotas.dom().finite(),
    ensures
        let_parent_go(s, s.leaving(), at),
        s.leaving().outbound.len() == at,
        s.leaving() == (LeaseState { outbound: s.leaving().outbound, ..s }),
{
    let t = s.leaving();
    let p = ever_given(s.quotas);
    let g = releasing(s.quotas);
    let keys = in_order(s.quotas.dom());
    lemma_in_order(s.quotas.dom());
    lemma_filter_sorted(keys, p);
    let f = keys.filter(p);
    if exists|k: K| #[trigger] s.quotas.contains_key(k) && s.quotas[k].given > 0 {
        let x = choose|x: K| #[trigger] s.quotas.contains_key(x) && s.quotas[x].given > 0;
        assert(keys.contains(x));
        let i = choose|i: int| 0 <= i < keys.len() && keys[i] == x;
        lemma_filter_keeps(keys, p, i);
        if s.parent is Some {
            let items = t.outbound[s.outbound.len() as int].request.items;
            assert(items == f.map_values(g));
            assert forall|k: K| #[trigger]
                s.quotas.contains_key(k) && s.quotas[k].given > 0 implies exists|i: int|
                0 <= i < items.len() && (#[trigger] items[i]).key == k by {
                assert(keys.contains(k));
                let i = choose|i: int| 0 <= i < keys.len() && keys[i] == k;
                lemma_filter_keeps(keys, p, i);
                let j = choose|j: int| 0 <= j < f.len() && f[j] == k;
                assert(items[j] == g(f[j]));
                assert(items[j].key == k);
            }
            assert forall|i: int|
                #![trigger items[i]]
                0 <= i < items.len() implies {
                let k = items[i].key;
                &&& s.quotas.contains_key(k)
                &&& s.quotas[k].given > 0
                &&& items[i].given == s.quotas[k].given
                &&& items[i].returned == s.quotas[k].given
                &&& items[i].needed == 0
                &&& items[i].wanted == 0
            } by {
                assert(items[i] == g(f[i]));
                assert(keys.contains(f[i]));
            }
            assert forall|i: int, j: int| 0 <= i < j < items.len() implies precedes(
                (#[trigger] items[i]).key,
                (#[trigger] items[j]).key,
            ) by {
                assert(items[i] == g(f[i]) && items[j] == g(f[j]));
            }
            assert(t.outbound.take(s.outbound.len() as int) =~= s.outbound);
        } else {
            assert(t.outbound.take(s.outbound.len() as int) =~= s.outbound);
        }
    } else {
        assert forall|i: int| 0 <= i < keys.len() implies !p(#[trigger] keys[i]) by {
            assert(s.quotas.contains_key(keys[i]));
        }
        lemma_filter_none(keys, p);
        assert(t.outbound.take(s.outbound.len() as int) =~= s.outbound);
    }
    t.outbound.len() as int
}

/// News of an older term, and of the leader and term that are known, change nothing.
pub proof fn law_old_news_of_the_leader_changes_nothing<Id: Ord + Clone, K: Ord + Clone>(
    s: LeaseState<Id, K>,
    leader: Id,
    term: u64,
)
    requires
        term < s.term || term == s.term && s.leader == Some(leader),
    ensures
        s.with_leader(leader, term) == s,
{
}

/// News of another leader, or of a newer term, is taken, and a call is due. A node that was not
/// the leader and is now lets its parent go and holds the whole rate of every limit, or what it
/// lent if that is more. One that was the leader and is not any more holds nothing. One whose
/// parent was the leader that is now another has no parent. Nothing else changes.
pub proof fn law_news_of_the_leader_is_taken<Id: Ord + Clone, K: Ord + Clone>(
    s: LeaseState<Id, K>,
    leader: Id,
    term: u64,
    k: K,
)
    requires
        lawful::<K>(),
        s.inv(),
        term > s.term || term == s.term && s.leader != Some(leader),
    ensures
        ({
            let t = s.with_leader(leader, term);
            let q = s.quotas[k];
            let r = t.quotas[k];
            let led = s.leader == Some(s.me);
            let leads = leader == s.me;
            let orphaned = s.parent is Some && s.parent == s.leader && s.leader != Some(leader);
            &&& t == (LeaseState {
                term,
                leader: Some(leader),
                dirty: true,
                quotas: t.quotas,
                parent: t.parent,
                parent_misses: t.parent_misses,
                accepted: t.accepted,
                outbound: t.outbound,
                ..s
            })
            &&& t.quotas.dom() == s.quotas.dom()
            &&& leads && !led ==> {
                &&& t.parent is None
                &&& t.parent_misses == 0
                &&& t.accepted == s.accepted
                &&& let_parent_go(s, t, t.outbound.len() as int)
                &&& s.quotas.contains_key(k) ==> r == (QuotaState {
                    given: r.given,
                    returned: 0,
                    valid_until: Some(u64::MAX),
                    wanted: 0,
                    refusals: 0,
                    ..q
                }) && r.given == max(q.limit.limit as int, out(q.children))
            }
            &&& !leads && led ==> {
                &&& t.parent is None
                &&& t.parent_misses == 0
                &&& t.accepted == 0
                &&& t.outbound == s.outbound
                &&& s.quotas.contains_key(k) ==> r == (QuotaState {
                    given: 0,
                    returned: 0,
                    valid_until: None,
                    ..q
                })
            }
            &&& leads == led ==> {
                &&& t.accepted == s.accepted
                &&& t.outbound == s.outbound
                &&& s.quotas.contains_key(k) ==> r == q
                &&& orphaned ==> t.parent is None && t.parent_misses == 0
                &&& !orphaned ==> t.parent == s.parent && t.parent_misses == s.parent_misses
            }
        }),
{
    let t = s.with_leader(leader, term);
    assert(t.quotas.dom() =~= s.quotas.dom());
    if s.quotas.contains_key(k) {
        lemma_plain(s.quotas[k]);
    }
    let u = LeaseState { term, leader: Some(leader), ..s };
    let at = lemma_let_go(u);
}

/// A delivery by the parent, or by the node itself, or at the leader, moves nobody. Another's
/// counts as a miss; the node moves there if it has no parent or this was its parent's second
/// miss, unless the deliverer is its own child.
pub proof fn law_a_delivery_moves_a_node_or_counts_a_miss<Id: Ord + Clone, K: Ord + Clone>(
    s: LeaseState<Id, K>,
    peer: Id,
)
    ensures
        s.leader == Some(s.me) || peer == s.me ==> s.with_upstream(peer) == s,
        s.leader != Some(s.me) && peer != s.me && s.parent == Some(peer) ==> s.with_upstream(peer)
            == (LeaseState { parent_misses: 0, ..s }),
        s.leader != Some(s.me) && peer != s.me && s.parent != Some(peer) ==> {
            let stays = attached(s, peer) || s.parent is Some && s.parent_misses == 0;
            let t = s.with_upstream(peer);
            &&& stays ==> t == (LeaseState { parent_misses: t.parent_misses, ..s })
                && t.parent_misses == min(s.parent_misses + 1, u32::MAX as int)
            &&& !stays ==> t == s.reparented(peer)
        },
{
    law_children_hold_or_wait(s, peer);
    let m = if s.parent_misses < u32::MAX {
        (s.parent_misses + 1) as u32
    } else {
        u32::MAX
    };
    let u = LeaseState { parent_misses: m, ..s };
    assert(u.reparented(peer) == s.reparented(peer));
}

/// A parent that is known exactly is taken at once: not by the leader, nor the node itself, nor
/// again. If it was a child, its bookings are dropped first.
pub proof fn law_an_exact_parent_is_taken_at_once<Id: Ord + Clone, K: Ord + Clone>(
    s: LeaseState<Id, K>,
    peer: Id,
)
    ensures
        s.leader == Some(s.me) || peer == s.me || s.parent == Some(peer) ==> s.with_parent(peer)
            == (LeaseState { parent_misses: 0, ..s }),
        s.leader != Some(s.me) && peer != s.me && s.parent != Some(peer) && !attached(s, peer)
            ==> s.with_parent(peer) == s.reparented(peer),
        s.leader != Some(s.me) && peer != s.me && s.parent != Some(peer) && attached(s, peer)
            ==> exists|u: LeaseState<Id, K>|
            s.with_parent(peer) == #[trigger] u.reparented(peer) && lost(
                s,
                u,
                Set::empty().insert(peer),
            ) && u == (LeaseState { quotas: u.quotas, dirty: u.dirty, ..s }),
{
    law_children_hold_or_wait(s, peer);
    let u = s.forgetting(Set::empty().insert(peer));
    assert(u.quotas.dom() =~= s.quotas.dom());
    assert(lost(s, u, Set::empty().insert(peer)));
    assert(u.reparented(peer) == u.reparented(peer));
}

/// A move: the old parent is told that all it ever gave is returned; the edge to the new parent
/// starts at zero, with no date and no refusal; nothing is awaited, no answer was taken; and then
/// the new parent is called, as by a poke when it is time.
pub proof fn law_a_move_lets_go_starts_over_and_calls<Id: Ord + Clone, K: Ord + Clone>(
    s: LeaseState<Id, K>,
    peer: Id,
    k: K,
) -> (u: LeaseState<Id, K>)
    requires
        lawful::<K>(),
        s.inv(),
        s.leader != Some(s.me),
    ensures
        s.reparented(peer) == (LeaseState { dirty: true, ..u }).poked(),
        u == (LeaseState {
            quotas: u.quotas,
            parent: Some(peer),
            parent_misses: 0,
            awaiting: None,
            unanswered: 0,
            accepted: 0,
            outbound: u.outbound,
            ..s
        }),
        let_parent_go(s, u, u.outbound.len() as int),
        u.quotas.dom() == s.quotas.dom(),
        s.quotas.contains_key(k) ==> u.quotas[k] == (QuotaState {
            given: 0,
            returned: 0,
            valid_until: None,
            refusals: 0,
            ..s.quotas[k]
        }),
{
    let u = LeaseState {
        awaiting: None,
        unanswered: 0,
        accepted: 0,
        parent: Some(peer),
        parent_misses: 0,
        quotas: Map::new(
            |k: K| s.quotas.contains_key(k),
            |k: K| QuotaState { refusals: 0, ..s.quotas[k].let_go() },
        ),
        ..s.leaving()
    };
    let at = lemma_let_go(s);
    assert(u.quotas.dom() =~= s.quotas.dom());
    let d = LeaseState { dirty: true, ..u };
    assert(d.reports() == u.reports());
    assert(d.called() =~= u.called());
    u
}

// ------------------------------------------------------------ what is shown

/// What is shown of a limit: what the node holds, what it lent, what it lent beyond that, what it
/// still wants, how many children it books, the whole tokens in the bucket and whether the share
/// is good.
pub proof fn law_what_is_shown_is_what_is<Id: Ord + Clone, K: Ord + Clone>(
    s: LeaseState<Id, K>,
    k: K,
    stats: Stats,
)
    requires
        s.inv(),
        s.quotas.contains_key(k),
        s.shows(k, stats),
    ensures
        ({
            let q = s.quotas[k];
            &&& stats.granted == held(q)
            &&& stats.lent == out(q.children)
            &&& stats.overcommit == surplus(out(q.children), held(q))
            &&& stats.wanted == q.wanted
            &&& stats.children == Set::new(
                |c: Id| q.children.contains_key(c) && busy(q.children[c]),
            ).len()
            &&& stats.tokens == capped(surplus(q.tokens, 0))
            &&& stats.good == is_good(s, k)
        }),
{
    let q = s.quotas[k];
    lemma_plain(q);
    assert(q.active_children() =~= Set::new(
        |c: Id| q.children.contains_key(c) && busy(q.children[c]),
    ));
}

/// The edge on which to wake a caller: there was nothing to call, and there is now.
pub proof fn law_waking_is_an_edge<Id: Ord + Clone, K: Ord + Clone>(
    s: LeaseState<Id, K>,
    t: LeaseState<Id, K>,
)
    ensures
        s.wakes(t) <==> s.outbound.len() == 0 && t.outbound.len() > 0,
        s.is_leader() <==> s.leader == Some(s.me),
{
}

} // verus!

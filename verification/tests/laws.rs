//! Laws and edges on concrete values.
use leasetree::fair::water_fill;
use leasetree::tree::place;
use leasetree::tree::weights;
use leasetree::tree::Place;
use leasetree::Action;
use leasetree::Config;
use leasetree::Denied;
use leasetree::Lease;
use leasetree::LeaseRequest;
use leasetree::LeaseResponse;
use leasetree::Limit;
use leasetree::RequestItem;
use leasetree::ResponseItem;
use leasetree::Stats;

type Node = Lease<u32, &'static str>;

fn limit(limit: u64, chunk: u64, burst: u64) -> Limit {
    Limit {
        limit,
        chunk,
        burst,
    }
}

/// A node with one limit, in term 1 under leader 1.
fn node(id: u32, ttl: u64) -> Node {
    let mut n = Lease::new(id, Config { ttl });
    n.set_limit("k", limit(30, 2, 0));
    n.set_cluster_view(None, 1, 1);
    n
}

fn request(sent: u64, given: u64, returned: u64, needed: u64, wanted: u64) -> LeaseRequest<u32, &'static str> {
    LeaseRequest {
        term: 1,
        leader: Some(1),
        sent,
        items: vec![RequestItem {
            key: "k",
            given,
            returned,
            needed,
            wanted,
        }],
    }
}

fn answer(in_reply_to: u64, given: u64, returned: u64) -> LeaseResponse<u32, &'static str> {
    LeaseResponse {
        term: 1,
        leader: Some(1),
        in_reply_to,
        sent: in_reply_to,
        items: vec![ResponseItem {
            key: "k",
            given,
            returned,
        }],
    }
}

fn stats(n: &Node) -> Stats {
    n.stats(&"k").unwrap()
}

fn calls(n: &mut Node) -> Vec<(u32, LeaseRequest<u32, &'static str>)> {
    n.ready()
        .into_iter()
        .map(|Action::Call(to, req)| (to, req))
        .collect()
}

/// A node 2 that leases from 1 and holds `share`, dated from tick 1.
fn leased(share: u64) -> Node {
    let mut n = node(2, 40);
    n.set_parent(1);
    n.tick(1);
    n.on_response(1, answer(1, share, 0));
    let _ = n.ready();
    n
}

// ------------------------------------------------------------ a new node

#[test]
fn the_default_ttl_is_forty() {
    assert_eq!(Config::default().ttl, 40);
}

#[test]
fn a_new_node_knows_nothing() {
    let n: Node = Lease::new(4, Config { ttl: 40 });
    assert!(!n.is_leader());
    assert_eq!(n.term(), 0);
    assert_eq!(n.parent(), None);
    assert!(n.children().is_empty());
    assert!(n.keys().is_empty());
    assert!(!n.has_ready());
    assert!(n.stats(&"k").is_none());
}

#[test]
fn a_fresh_limit_shows_zeros() {
    let n = node(2, 40);
    assert_eq!(stats(&n), Stats::default());
    assert_eq!(n.keys(), vec!["k"]);
}

#[test]
fn limits_are_listed_in_order() {
    let mut n: Lease<u32, u64> = Lease::new(1, Config { ttl: 40 });
    for k in [5, 1, 9, 3, 5] {
        assert!(!n.set_limit(k, limit(1, 1, 1)));
    }
    assert_eq!(n.keys(), vec![1, 3, 5, 9]);
}

// ------------------------------------------------------------ the leader

#[test]
fn the_leader_holds_the_rate_or_what_it_lent() {
    let mut l = node(1, 40);
    assert!(l.is_leader());
    assert_eq!(stats(&l).granted, 30);
    assert!(stats(&l).good);
    l.on_request(2, request(1, 0, 0, 0, 20));
    assert_eq!(stats(&l).lent, 20);
    // A lower limit than is lent: the leader holds what it lent.
    l.set_limit("k", limit(5, 2, 0));
    assert_eq!((stats(&l).granted, stats(&l).overcommit), (20, 0));
    l.set_limit("k", limit(25, 2, 0));
    assert_eq!(stats(&l).granted, 25);
}

#[test]
fn a_node_that_stops_leading_holds_nothing_and_needs_what_it_lent() {
    let mut l = node(1, 40);
    l.on_request(2, request(1, 0, 0, 0, 20));
    l.set_cluster_view(None, 3, 2);
    assert!(!l.is_leader());
    assert_eq!(
        (stats(&l).granted, stats(&l).lent, stats(&l).overcommit),
        (0, 20, 20)
    );
    assert!(!stats(&l).good);
}

#[test]
fn an_older_term_is_ignored() {
    let mut n = node(2, 40);
    n.set_cluster_view(None, 2, 5);
    assert!(n.is_leader());
    n.set_cluster_view(None, 3, 4);
    assert!(n.is_leader());
    assert_eq!(n.term(), 5);
    let mut req = request(1, 0, 0, 0, 1);
    req.term = 3;
    req.leader = Some(7);
    let resp = n.on_request(9, req);
    assert_eq!((resp.term, resp.leader), (5, Some(2)));
}

#[test]
fn a_leader_steps_down_on_an_answer_with_a_newer_term() {
    let mut l = node(1, 40);
    let mut resp = answer(0, 0, 0);
    resp.term = 2;
    resp.leader = Some(3);
    assert!(!l.on_response(3, resp));
    assert!(!l.is_leader());
    assert_eq!(l.term(), 2);
    assert_eq!(stats(&l).granted, 0);
}

#[test]
fn a_new_term_under_the_same_leader_keeps_the_parent_and_another_leader_leaves_it() {
    let mut n = leased(4);
    n.set_cluster_view(None, 1, 2);
    assert_eq!(n.parent(), Some(&1));
    n.set_cluster_view(None, 3, 3);
    assert_eq!(n.parent(), None);
    assert_eq!(stats(&n).granted, 4);
}

// ------------------------------------------------------------ the edge

#[test]
fn a_release_lets_the_parent_go_entirely() {
    let mut l = node(1, 40);
    l.on_request(2, request(1, 0, 0, 0, 20));
    assert_eq!(l.children(), vec![2]);
    let resp = l.on_request(2, request(2, 20, 20, 0, 0));
    assert_eq!((resp.items[0].given, resp.items[0].returned), (20, 20));
    assert!(l.children().is_empty());
    assert_eq!((stats(&l).lent, stats(&l).children), (0, 0));
}

#[test]
fn counters_only_grow_and_a_return_is_never_more_than_was_given() {
    let mut l = node(1, 40);
    let a = l.on_request(2, request(1, 0, 0, 0, 10));
    assert_eq!((a.items[0].given, a.items[0].returned), (10, 0));
    let b = l.on_request(2, request(2, 10, 4, 0, 0));
    assert_eq!((b.items[0].given, b.items[0].returned), (10, 4));
    let c = l.on_request(2, request(3, 10, 2, 0, 0));
    assert_eq!((c.items[0].given, c.items[0].returned), (10, 4));
    let d = l.on_request(2, request(4, 10, 500, 0, 3));
    assert_eq!((d.items[0].given, d.items[0].returned), (13, 10));
}

#[test]
fn an_exchange_leaves_both_ends_with_the_same_counts() {
    let mut l = node(1, 40);
    let mut c = node(2, 40);
    c.set_parent(1);
    assert!(c.acquire(&[("k", 5)]).is_ok());
    assert!(c.tick(1));
    for (to, req) in calls(&mut c) {
        assert_eq!(to, 1);
        assert_eq!((req.items[0].given, req.items[0].wanted), (0, 5));
        let resp = l.on_request(2, req);
        c.on_response(1, resp);
    }
    assert_eq!((stats(&c).granted, stats(&l).lent), (5, 5));
    assert_eq!(stats(&c).wanted, 0);
}

#[test]
fn an_unknown_limit_is_left_out_of_the_answer_and_the_order_is_the_request_s() {
    let mut l = node(1, 40);
    l.set_limit("a", limit(10, 1, 0));
    let item = |key| RequestItem {
        key,
        given: 0,
        returned: 0,
        needed: 0,
        wanted: 1,
    };
    let resp = l.on_request(
        2,
        LeaseRequest {
            term: 1,
            leader: Some(1),
            sent: 7,
            items: vec![item("z"), item("k"), item("a")],
        },
    );
    assert_eq!(resp.in_reply_to, 7);
    let keys: Vec<&str> = resp.items.iter().map(|i| i.key).collect();
    assert_eq!(keys, vec!["k", "a"]);
}

#[test]
fn a_request_sent_again_on_two_limits_gets_the_same_answer() {
    let mut l = node(1, 40);
    l.set_limit("a", limit(10, 1, 0));
    let req = LeaseRequest {
        term: 1,
        leader: Some(1),
        sent: 1,
        items: vec![
            RequestItem {
                key: "a",
                given: 0,
                returned: 0,
                needed: 3,
                wanted: 100,
            },
            RequestItem {
                key: "k",
                given: 0,
                returned: 0,
                needed: 0,
                wanted: 8,
            },
        ],
    };
    let first = l.on_request(2, req.clone());
    let again = l.on_request(2, req);
    assert_eq!(first, again);
    assert_eq!(first.items[0].given, 10);
    assert_eq!(first.items[1].given, 8);
}

#[test]
fn needs_are_served_before_wants() {
    let mut mid = leased(6);
    let resp = mid.on_request(3, request(1, 0, 0, 5, 5));
    assert_eq!(resp.items[0].given, 6);
    mid.tick(1);
    // Five of the six were the need; four of the wanted five are fetched.
    let (_, req) = calls(&mut mid).remove(0);
    assert_eq!((req.items[0].needed, req.items[0].wanted), (0, 4));
}

#[test]
fn what_a_child_gives_back_goes_up() {
    let mut mid = leased(6);
    mid.on_request(3, request(1, 0, 0, 0, 4));
    assert_eq!((stats(&mid).granted, stats(&mid).lent), (6, 4));
    mid.on_request(3, request(2, 4, 3, 0, 0));
    assert_eq!((stats(&mid).granted, stats(&mid).lent), (3, 1));
}

#[test]
fn a_root_keeps_what_a_child_gives_back() {
    let mut l = node(1, 40);
    l.on_request(3, request(1, 0, 0, 0, 4));
    l.on_request(3, request(2, 4, 3, 0, 0));
    assert_eq!((stats(&l).granted, stats(&l).lent), (30, 1));
}

#[test]
fn what_arrives_goes_to_the_children_first() {
    let mut mid = leased(0);
    assert!(mid.acquire(&[("k", 0)]).is_ok());
    assert!(mid.acquire(&[("k", 3)]).is_err());
    mid.on_request(3, request(1, 0, 0, 0, 4));
    assert_eq!(stats(&mid).wanted, 3);
    // Four of the five are the child's; one is its own.
    mid.on_response(1, answer(2, 5, 0));
    assert_eq!((stats(&mid).granted, stats(&mid).wanted), (5, 2));
}

#[test]
fn a_counter_that_runs_full_stays_full() {
    let mut n = node(1, u64::MAX);
    n.set_limit("k", limit(u64::MAX, u64::MAX, u64::MAX));
    let resp = n.on_request(2, request(1, 0, 0, u64::MAX, u64::MAX));
    assert_eq!(resp.items[0].given, u64::MAX);
    let resp = n.on_request(2, request(1, u64::MAX, u64::MAX, 1, 0));
    assert_eq!(
        (resp.items[0].given, resp.items[0].returned),
        (u64::MAX, u64::MAX)
    );
    n.tick(u64::MAX);
    n.tick(u64::MAX);
    assert_eq!(stats(&n).tokens, u64::MAX);
}

// ------------------------------------------------------------ time

#[test]
fn a_large_tick_lapses_everything() {
    let mut mid = leased(6);
    mid.on_request(3, request(1, 0, 0, 0, 4));
    mid.tick(1000);
    let s = stats(&mid);
    assert_eq!((s.granted, s.lent, s.children, s.good), (0, 0, 0, false));
    assert!(mid.children().is_empty());
}

#[test]
fn a_share_is_good_through_its_last_tick() {
    let mut n = leased(6);
    n.tick(40); // 41: dated from 1
    assert!(stats(&n).good);
    assert_eq!(stats(&n).granted, 6 - 4, "all but a chunk is handed back");
    n.tick(1);
    assert!(!stats(&n).good);
    assert_eq!(stats(&n).granted, 0);
}

#[test]
fn a_lapsed_child_comes_back_and_catches_up() {
    let mut l = node(1, 40);
    l.on_request(2, request(1, 0, 0, 0, 10));
    l.tick(41);
    assert_eq!(stats(&l).lent, 0);
    let resp = l.on_request(2, request(50, 10, 0, 0, 10));
    assert_eq!((resp.items[0].given, resp.items[0].returned), (20, 10));
}

#[test]
fn the_bucket_holds_two_ticks_or_the_burst() {
    let mut l = node(1, 40);
    l.tick(1);
    assert_eq!(stats(&l).tokens, 30);
    l.tick(5);
    assert_eq!(stats(&l).tokens, 60);
    l.set_limit("k", limit(3, 1, 50));
    l.tick(1);
    assert_eq!(stats(&l).tokens, 50);
}

#[test]
fn a_cut_leaves_one_tick_in_the_bucket() {
    let mut n = leased(10);
    n.tick(5);
    assert_eq!(stats(&n).tokens, 20);
    n.on_response(1, answer(2, 10, 7));
    assert_eq!((stats(&n).granted, stats(&n).tokens), (3, 3));
}

// ------------------------------------------------------------ calls

#[test]
fn a_keepalive_goes_out_at_half_the_ttl() {
    // At tick 1; the last occasion to call was at 0, with nothing in play.
    let mut n = leased(2);
    for _ in 2..=19 {
        assert!(!n.tick(1));
    }
    assert!(n.tick(1));
    let out = calls(&mut n);
    assert_eq!(out.len(), 1);
    assert_eq!((out[0].0, out[0].1.sent, out[0].1.term), (1, 20, 1));
    assert_eq!(out[0].1.items[0].given, 2);
}

#[test]
fn waking_is_an_edge() {
    let mut n = node(2, 40);
    n.set_parent(1);
    assert!(!n.has_ready());
    assert!(n.acquire(&[("k", 1)]).is_ok());
    assert!(!n.has_ready(), "a draw calls nobody");
    assert!(n.poke(), "the ask does not wait for the tick");
    assert!(n.has_ready());
    assert!(!n.tick(40), "not empty before");
    let out = calls(&mut n);
    assert_eq!(out.len(), 2);
    assert!(out[0].1.sent < out[1].1.sent, "first in, first out");
    assert!(!n.has_ready());
}

#[test]
fn a_poke_with_nothing_due_does_nothing() {
    let mut n = leased(2);
    n.tick(1);
    let _ = n.ready();
    assert!(!n.poke());
    assert!(calls(&mut n).is_empty());
}

#[test]
fn an_unanswered_call_is_made_again_after_two_ticks_and_then_four_and_five() {
    let mut n = node(2, 40);
    n.set_parent(1);
    assert!(n.acquire(&[("k", 1)]).is_ok());
    let mut at = Vec::new();
    for t in 1..=13u64 {
        if n.tick(1) {
            at.push(t);
            assert_eq!(calls(&mut n).len(), 1);
        }
    }
    assert_eq!(at, vec![1, 3, 5, 7, 9, 11, 13], "asking, while nothing was refused");
    let mut n = leased(2);
    let mut at = Vec::new();
    n.tick(20);
    for t in 22..=36u64 {
        let _ = n.ready();
        if n.tick(1) {
            at.push(t);
        }
    }
    assert_eq!(at, vec![23, 27, 32], "no answer: two ticks, four, then an eighth of the TTL");
}

#[test]
fn a_removed_limit_is_handed_back_in_a_call_of_its_own() {
    let mut n = leased(6);
    assert!(n.remove_limit(&"k"));
    let out = calls(&mut n);
    assert_eq!(out.len(), 1);
    assert_eq!(out[0].0, 1);
    assert_eq!(
        out[0].1.items,
        vec![RequestItem {
            key: "k",
            given: 6,
            returned: 6,
            needed: 0,
            wanted: 0
        }]
    );
    assert!(n.keys().is_empty());
    assert!(!n.remove_limit(&"k"), "it is gone");
    assert!(!n.tick(100), "nothing in play");
}

#[test]
fn an_idle_node_hands_back_its_spare_but_not_what_a_child_waits_for() {
    let mut n = leased(10);
    n.tick(19);
    let (_, req) = calls(&mut n).remove(0);
    assert_eq!((req.items[0].given, req.items[0].returned), (10, 8), "all but a chunk");
    let mut n = leased(10);
    n.on_request(3, request(1, 0, 0, 0, 16));
    assert_eq!(stats(&n).lent, 10);
    n.on_response(1, answer(2, 20, 0));
    // Six are the child's as soon as it asks again; two are the chunk; two are spare.
    n.tick(18);
    let (_, req) = calls(&mut n).remove(0);
    assert_eq!((req.items[0].given, req.items[0].returned), (20, 2));
    assert_eq!(req.items[0].wanted, 6);
}

#[test]
fn a_busy_node_hands_nothing_back() {
    let mut n = leased(10);
    n.tick(18);
    assert!(n.acquire(&[("k", 15)]).is_ok());
    n.tick(1);
    let (_, req) = calls(&mut n).remove(0);
    assert_eq!((req.items[0].given, req.items[0].returned), (10, 0));
}

#[test]
fn serving_a_child_calls_nobody_until_the_next_occasion() {
    let mut mid = leased(0);
    let resp = mid.on_request(3, request(1, 0, 0, 0, 4));
    assert_eq!(resp.items[0].given, 0);
    assert!(!mid.has_ready());
    assert!(mid.poke());
    let out = calls(&mut mid);
    assert_eq!((out.len(), out[0].0, out[0].1.items[0].wanted), (1, 1, 4));
    // The same shortfall again is no news.
    mid.on_request(3, request(2, 0, 0, 0, 4));
    assert!(!mid.poke());
}

#[test]
fn the_news_that_it_leads_lets_a_node_s_parent_go() {
    let mut n = leased(6);
    let mut req = request(1, 0, 0, 0, 1);
    req.term = 2;
    req.leader = Some(2);
    n.on_request(5, req);
    assert!(n.is_leader());
    let out = calls(&mut n);
    assert_eq!((out.len(), out[0].0, out[0].1.term), (1, 1, 2));
    assert_eq!((out[0].1.items[0].given, out[0].1.items[0].returned), (6, 6));
}

#[test]
fn nothing_goes_out_without_a_parent() {
    let mut n = node(2, 40);
    assert!(n.acquire(&[("k", 1)]).is_ok());
    assert!(!n.tick(100));
    assert!(!n.poke());
    assert!(!n.has_ready());
}

// ------------------------------------------------------------ draws

#[test]
fn a_refusal_names_the_first_limit_and_what_it_has() {
    let mut l = node(1, 40);
    l.set_limit("a", limit(5, 1, 0));
    l.tick(1);
    assert_eq!(
        l.acquire(&[("k", 3), ("a", 6), ("k", 31)]),
        Err(Denied {
            key: "a",
            available: 5
        })
    );
    assert_eq!(stats(&l).tokens, 30);
    assert_eq!(stats(&l).wanted, 31, "but the short ones are wanted");
    assert_eq!(l.stats(&"a").unwrap().wanted, 6);
}

#[test]
fn an_unknown_limit_is_unlimited() {
    let mut l = node(1, 40);
    assert!(l.acquire(&[("nope", u64::MAX)]).is_ok());
    assert!(l.acquire(&[]).is_ok());
    assert_eq!(stats(&l).tokens, 0);
}

#[test]
fn without_a_good_share_everything_is_admitted_and_wanted() {
    let mut n = node(2, 40);
    assert!(n.acquire(&[("k", u64::MAX)]).is_ok());
    assert_eq!((stats(&n).tokens, stats(&n).wanted), (0, u64::MAX));
    let mut n = node(2, 40);
    assert!(n.acquire(&[("k", 1)]).is_ok());
    assert_eq!(stats(&n).wanted, 2, "a chunk at least");
}

#[test]
fn a_limit_named_twice_in_a_draw_is_drawn_twice() {
    let mut l = node(1, 40);
    l.tick(1);
    assert!(l.acquire(&[("k", 20), ("k", 20)]).is_ok());
    assert_eq!(stats(&l).tokens, 0);
    l.tick(1);
    assert_eq!(stats(&l).tokens, 20, "ten were owed");
}

#[test]
fn a_node_s_own_use_is_a_claim_at_weight_one() {
    let mut l = node(1, 40);
    l.tick(1);
    assert!(l.acquire(&[("k", 20)]).is_ok());
    l.tick(2);
    // Ten a tick: of thirty, two claims of fifteen, and the leader takes its ten.
    let resp = l.on_request(2, request(1, 0, 0, 0, 100));
    assert_eq!(resp.items[0].given, 20);
}

// ------------------------------------------------------------ parents and children

#[test]
fn a_move_tells_the_old_parent_first() {
    let mut n = leased(6);
    n.on_request(4, request(1, 0, 0, 0, 6));
    let _ = n.ready();
    assert!(n.set_parent(3));
    let out = calls(&mut n);
    assert_eq!((out[0].0, out[1].0), (1, 3));
    assert_eq!((out[0].1.items[0].given, out[0].1.items[0].returned), (6, 6));
    assert_eq!(
        (
            out[1].1.items[0].given,
            out[1].1.items[0].returned,
            out[1].1.items[0].needed
        ),
        (0, 0, 6)
    );
}

#[test]
fn a_node_is_never_its_own_parent() {
    let mut n = node(2, 40);
    assert!(!n.set_parent(2));
    assert!(!n.set_upstream(2));
    assert_eq!(n.parent(), None);
    let mut l = node(1, 40);
    assert!(!l.set_parent(2));
    assert!(!l.set_upstream(2));
    assert_eq!(l.parent(), None);
}

#[test]
fn a_peer_that_is_down_is_neither_child_nor_parent() {
    let mut n = leased(6);
    n.on_request(3, request(1, 0, 0, 0, 2));
    n.on_request(4, request(1, 0, 0, 0, 2));
    assert_eq!(n.children(), vec![3, 4]);
    assert!(!n.down(&[4, 1, 9]));
    assert_eq!(n.children(), vec![3]);
    assert_eq!(n.parent(), None);
    assert!(!n.up(&[4, 1]));
    assert_eq!(n.children(), vec![3], "it re-attaches by itself");
}

#[test]
fn who_left_the_cluster_is_forgotten() {
    let mut n = leased(6);
    n.on_request(3, request(1, 0, 0, 0, 2));
    n.on_request(4, request(1, 0, 0, 0, 2));
    n.set_cluster_view(Some(&[1, 2, 4]), 1, 1);
    assert_eq!(n.children(), vec![4]);
    assert_eq!(n.parent(), Some(&1));
    assert_eq!(stats(&n).lent, 2);
    n.set_cluster_view(Some(&[2, 4]), 1, 1);
    assert_eq!(n.parent(), None);
}

#[test]
fn an_answer_to_an_older_call_is_ignored() {
    let mut n = leased(6);
    n.on_response(1, answer(5, 8, 0));
    assert_eq!(stats(&n).granted, 8);
    n.on_response(1, answer(4, 100, 0));
    assert_eq!(stats(&n).granted, 8);
    n.on_response(1, answer(5, 9, 0));
    assert_eq!(stats(&n).granted, 9, "the same call may be answered twice");
}

#[test]
fn the_last_weight_listed_counts() {
    let mut l = node(1, 40);
    l.set_weights(&[(2, 7), (3, 1), (2, 2)]);
    for _ in 0..3 {
        l.on_request(2, request(1, 0, 0, 0, 100));
        l.on_request(3, request(1, 0, 0, 0, 100));
    }
    let a = l.on_request(2, request(1, 0, 0, 0, 100));
    let b = l.on_request(3, request(1, 0, 0, 0, 100));
    let share = |r: &LeaseResponse<u32, &'static str>| r.items[0].given - r.items[0].returned;
    assert_eq!((share(&a), share(&b)), (20, 10));
}

// ------------------------------------------------------------ the split

#[test]
fn a_split_spends_all_there_is_or_all_that_is_asked() {
    let claims = [(3, 10), (0, 7), (5, 0), (2, 9)];
    for total in 0..40u64 {
        let out = water_fill(total, &claims);
        assert_eq!(out.iter().sum::<u64>(), total.min(26));
        for (got, (_, demand)) in out.iter().zip(claims) {
            assert!(*got <= demand);
        }
    }
}

#[test]
fn a_split_of_huge_claims_does_not_overflow() {
    let m = u64::MAX;
    assert_eq!(water_fill(m, &[(m, m), (m, m)]), vec![m / 2 + 1, m / 2]);
    assert_eq!(water_fill(m, &[(1, m)]), vec![m]);
    assert_eq!(water_fill(5, &[]), Vec::<u64>::new());
}

#[test]
fn a_weight_of_zero_counts_as_one() {
    assert_eq!(water_fill(10, &[(0, 100), (1, 100)]), vec![5, 5]);
    assert_eq!(water_fill(11, &[(0, 100), (1, 100)]), vec![6, 5]);
}

#[test]
fn a_claimant_that_asks_for_what_it_got_gets_it_again() {
    let claims = [(1, 50), (2, 50), (1, 3)];
    let out = water_fill(31, &claims);
    assert_eq!(out, vec![10, 18, 3]);
    let mut less = claims;
    less[0].1 = 10;
    assert_eq!(water_fill(31, &less)[0], 10);
}

// ------------------------------------------------------------ the tree

fn parent(id: u64, leader: u64, members: &[(u64, u8)], radix: usize) -> Option<u64> {
    match place(&id, &leader, members, radix) {
        Some(Place::Under(p)) => Some(p),
        _ => None,
    }
}

#[test]
fn a_radix_below_two_is_two() {
    let members: Vec<(u64, u8)> = (1..=12).map(|id| (id, 0)).collect();
    for id in 1..=12 {
        assert_eq!(
            parent(id, 5, &members, 0),
            parent(id, 5, &members, 2)
        );
        assert_eq!(
            parent(id, 5, &members, 1),
            parent(id, 5, &members, 2)
        );
    }
    assert_eq!(parent(12, 1, &members, 2), Some(8));
    assert_eq!(parent(12, 1, &members, 10), Some(10));
}

#[test]
fn small_ids_are_numbers_too() {
    let members: [(u8, bool); 3] = [(6, true), (4, true), (9, false)];
    assert_eq!(place(&6, &4, &members, 2), Some(Place::Under(4)));
    assert_eq!(place(&9, &4, &members, 2), Some(Place::Under(4)));
    let members: [(u16, u8); 2] = [(6, 0), (4, 0)];
    assert_eq!(place(&4, &6, &members, 2), Some(Place::Under(6)));
    let members: [(u32, u8); 2] = [(0, 0), (4_000_000_000, 0)];
    assert_eq!(place(&4_000_000_000, &0, &members, 2), Some(Place::Under(0)));
}

#[test]
fn the_largest_radix_and_ids_work() {
    let m = u64::MAX;
    let members = [(m, 0u8), (m - 1, 0), (1, 0)];
    assert_eq!(parent(m, 1, &members, 2), Some(m - 1));
    assert_eq!(parent(m, 1, &members, usize::MAX), Some(1));
}

#[test]
fn every_way_up_leads_to_the_leader() {
    let members: Vec<(u64, u64)> = (1..=60).map(|id| (id * 3, id % 4)).collect();
    for (leader, _) in &members {
        for (id, _) in &members {
            let mut at = *id;
            let mut steps = 0;
            while let Some(Place::Under(p)) = place(&at, leader, &members, 3) {
                at = p;
                steps += 1;
                assert!(steps < members.len());
            }
            assert_eq!(at, *leader);
        }
    }
}

#[test]
fn a_leaver_s_children_move_to_their_grandparent_and_nobody_else_moves() {
    let members: Vec<(u64, u8)> = (1..=40).map(|id| (id, (id % 2) as u8)).collect();
    let fewer: Vec<(u64, u8)> = members.iter().copied().filter(|m| m.0 != 12).collect();
    let mut moved = 0;
    for (id, _) in &fewer {
        let (before, after) = (parent(*id, 5, &members, 2), parent(*id, 5, &fewer, 2));
        if before == Some(12) {
            assert_eq!(after, parent(12, 5, &members, 2));
            moved += 1;
        } else {
            assert_eq!(before, after);
        }
    }
    assert_eq!(moved, 1, "14");
}

#[test]
fn odd_ids_in_base_two_all_hang_under_the_lowest() {
    let members: Vec<(u64, u8)> = (0..8).map(|i| (2 * i + 1, 0)).collect();
    for (id, _) in &members[1..] {
        assert_eq!(parent(*id, 1, &members, 2), Some(1));
    }
}

#[test]
fn few_children_climb_past_nobody() {
    // Three digits in base four: at most three children for each digit.
    let members: Vec<(u64, u8)> = (0..64).map(|id| (id, 0)).collect();
    for (x, _) in &members {
        let kids = members
            .iter()
            .filter(|(id, _)| parent(*id, 0, &members, 4) == Some(*x))
            .count();
        assert!(kids <= 9);
        if *x == 0 {
            assert_eq!(kids, 9);
        }
    }
}

#[test]
fn a_member_listed_twice_is_counted_where_it_is_listed_first() {
    let members = [(1u64, 0u8), (2, 0), (2, 0), (3, 0)];
    assert_eq!(parent(3, 1, &members, 2), Some(2));
    assert_eq!(weights(&1, &1, &members, 2), vec![(2, 3), (2, 0)]);
}

#[test]
fn no_weights_without_a_member_leader() {
    let members = [(1u64, 0u8), (2, 0)];
    assert_eq!(weights(&1, &9, &members, 2), vec![]);
    assert_eq!(weights(&9, &1, &members, 2), vec![]);
    assert_eq!(weights(&1, &1, &members, 2), vec![(2, 1)]);
}

#[test]
fn the_leader_s_children_carry_everyone_else() {
    let members: Vec<(u64, u64)> = (1..=50).map(|id| (id, id % 3)).collect();
    let w = weights(&7, &7, &members, 2);
    assert_eq!(w.iter().map(|(_, n)| n).sum::<u64>(), 49);
}

//! Nodes lending to each other.
use leasetree::fair::water_fill;
use leasetree::Action;
use leasetree::Config;
use leasetree::Lease;
use leasetree::LeaseRequest;
use leasetree::LeaseResponse;
use leasetree::Limit;
use leasetree::RequestItem;
use leasetree::ResponseItem;

const RPS: &str = "rps";

fn rate() -> Limit {
    Limit {
        limit: 30,
        chunk: 2,
        burst: 0,
    }
}

fn node(id: u32) -> Lease<u32, &'static str> {
    let mut n = Lease::new(id, Config { ttl: 40 });
    n.set_limit(RPS, rate());
    n
}

/// Make every queued call among `nodes` (ids 1..) and feed back the answers, until quiet.
fn route(nodes: &mut [Lease<u32, &'static str>]) {
    for _ in 0..16 {
        let mut moved = false;
        for i in 0..nodes.len() {
            let from = i as u32 + 1;
            for Action::Call(to, req) in nodes[i].ready() {
                let resp = nodes[(to - 1) as usize].on_request(from, req);
                nodes[i].on_response(to, resp);
                moved = true;
            }
        }
        if !moved {
            break;
        }
    }
}

fn dump(ns: &[Lease<u32, &'static str>]) -> String {
    ns.iter()
        .enumerate()
        .map(|(i, n)| {
            format!(
                "{}: {:?} parent {:?}",
                i + 1,
                n.stats(&RPS).unwrap(),
                n.parent()
            )
        })
        .collect::<Vec<_>>()
        .join("\n")
}

/// One tick everywhere, then every call and answer.
fn step(ns: &mut [Lease<u32, &'static str>]) {
    for n in ns.iter_mut() {
        n.tick(1);
    }
    route(ns);
}

/// A leader (1) and a child (2), linked.
fn pair() -> Vec<Lease<u32, &'static str>> {
    let mut ns = vec![node(1), node(2)];
    for n in ns.iter_mut() {
        n.set_cluster_view(Some(&[1, 2]), 1, 1);
    }
    ns[1].set_upstream(1);
    route(&mut ns);
    ns
}

#[test]
fn the_leader_holds_the_rate_and_everyone_else_nothing() {
    let mut ns = pair();
    assert!(ns[0].is_leader());
    assert_eq!(ns[0].stats(&RPS).unwrap().granted, 30);
    assert_eq!(ns[1].stats(&RPS).unwrap().granted, 0);
    ns[0].tick(1);
    assert!(ns[0].acquire(&[(RPS, 1)]).is_ok());
}

#[test]
fn a_node_without_a_share_admits_and_asks() {
    let mut ns = pair();
    assert!(ns[1].acquire(&[(RPS, 1)]).is_ok(), "no share: admitted");
    step(&mut ns);
    assert_eq!(
        ns[1].stats(&RPS).unwrap().granted,
        2,
        "and it asked for a chunk"
    );
    assert!(ns[1].stats(&RPS).unwrap().good);
    // Unleased, any amount is admitted; leased, the bucket decides.
    let mut lone = node(3);
    lone.set_cluster_view(Some(&[1, 3]), 1, 1);
    assert!(lone.acquire(&[(RPS, 100)]).is_ok(), "any amount");
}

#[test]
fn a_share_is_a_token_bucket() {
    let mut ns = pair();
    let _ = ns[1].acquire(&[(RPS, 1)]);
    step(&mut ns);
    ns[1].tick(1);
    assert!(ns[1].acquire(&[(RPS, 1)]).is_ok());
    assert!(ns[1].acquire(&[(RPS, 1)]).is_ok());
    assert_eq!(
        ns[1].acquire(&[(RPS, 1)]).unwrap_err().key,
        RPS,
        "two per tick"
    );
    ns[1].tick(1);
    assert!(ns[1].acquire(&[(RPS, 1)]).is_ok());
}

#[test]
fn a_throttled_node_asks_for_more_and_an_idle_one_hands_it_back() {
    let mut ns = pair();
    let _ = ns[1].acquire(&[(RPS, 1)]);
    step(&mut ns);
    // Throttled: it asks for another chunk.
    ns[1].tick(1);
    let _ = ns[1].acquire(&[(RPS, 1)]);
    let _ = ns[1].acquire(&[(RPS, 1)]);
    let _ = ns[1].acquire(&[(RPS, 1)]);
    for _ in 0..3 {
        step(&mut ns);
    }
    assert_eq!(ns[1].stats(&RPS).unwrap().granted, 4);
    assert_eq!(ns[0].stats(&RPS).unwrap().lent, 4);
    // Idle: the bucket fills, and the next keepalive hands back all but one chunk.
    for _ in 0..25 {
        step(&mut ns);
    }
    assert_eq!(ns[1].stats(&RPS).unwrap().granted, 2);
    assert_eq!(ns[0].stats(&RPS).unwrap().lent, 2);
}

#[test]
fn a_share_lapses_without_renewal_and_the_node_admits_meanwhile() {
    let mut ns = pair();
    let _ = ns[1].acquire(&[(RPS, 1)]);
    step(&mut ns);
    assert_eq!(ns[1].stats(&RPS).unwrap().granted, 2);
    ns[1].tick(41); // no exchange: the parent never answers
    let s = ns[1].stats(&RPS).unwrap();
    assert!(!s.good);
    assert_eq!(s.granted, 0, "the share was dropped");
    assert!(
        ns[1].acquire(&[(RPS, 5)]).is_ok(),
        "and the node admits anyway"
    );
    ns[0].tick(42);
    assert_eq!(
        ns[0].stats(&RPS).unwrap().lent,
        0,
        "the parent lapsed it too"
    );
}

#[test]
fn the_child_s_share_ends_before_the_parent_s_booking() {
    let mut ns = pair();
    let _ = ns[1].acquire(&[(RPS, 1)]);
    // The call goes at 100, arrives at 101, is answered at 102.
    ns[1].tick(100);
    ns[0].tick(101);
    let Action::Call(_, req) = ns[1].ready().remove(0);
    let resp = ns[0].on_request(2, req);
    ns[1].on_response(1, resp);
    assert_eq!(ns[1].stats(&RPS).unwrap().granted, 2);
    ns[1].tick(40); // 140: still good
    assert!(ns[1].stats(&RPS).unwrap().good);
    ns[1].tick(1); // 141: lapsed
    assert!(!ns[1].stats(&RPS).unwrap().good);
    ns[0].tick(40); // 141: the parent still books it
    assert_eq!(ns[0].stats(&RPS).unwrap().lent, 2);
    ns[0].tick(1); // 142: and only now lets it go
    assert_eq!(ns[0].stats(&RPS).unwrap().lent, 0);
}

#[test]
fn a_shortfall_is_fetched_by_the_parent_and_found_on_the_child_s_retry() {
    let mut ns = vec![node(1), node(2), node(3)];
    for n in ns.iter_mut() {
        n.set_cluster_view(Some(&[1, 2, 3]), 1, 1);
    }
    ns[1].set_upstream(1);
    ns[2].set_upstream(2);
    route(&mut ns);
    let _ = ns[2].acquire(&[(RPS, 1)]);
    ns[2].tick(1);
    let Action::Call(to, req) = ns[2].ready().remove(0);
    assert_eq!(to, 2);
    let resp = ns[1].on_request(3, req);
    assert_eq!(resp.items[0].given, 0, "the middle node has nothing");
    ns[2].on_response(2, resp);
    ns[1].tick(1);
    route(&mut ns);
    ns[2].tick(2);
    route(&mut ns);
    assert_eq!(ns[2].stats(&RPS).unwrap().granted, 2);
}

#[test]
fn a_refused_ask_backs_off_up_to_ttl_over_eight() {
    let mut l = node(1);
    l.set_cluster_view(Some(&[1, 2]), 1, 1);
    l.set_limit(
        RPS,
        Limit {
            limit: 0,
            chunk: 2,
            burst: 0,
        },
    ); // nothing to lend
    let mut c = node(2);
    c.set_cluster_view(Some(&[1, 2]), 1, 1);
    c.set_upstream(1);
    let _ = c.acquire(&[(RPS, 1)]);
    let mut asked_at = Vec::new();
    for t in 1..=19 {
        c.tick(1);
        for Action::Call(_, req) in c.ready() {
            if req.items.iter().any(|i| i.wanted > 0) {
                asked_at.push(t);
            }
            let resp = l.on_request(2, req);
            c.on_response(1, resp);
        }
    }
    let gaps: Vec<u64> = asked_at.windows(2).map(|w| w[1] - w[0]).collect();
    assert_eq!(&gaps[..3], &[2, 4, 5], "{gaps:?}");
}

#[test]
fn a_node_with_nothing_in_play_is_silent() {
    let mut c = node(2);
    c.set_cluster_view(Some(&[1, 2]), 1, 1);
    c.set_upstream(1);
    assert!(c.ready().is_empty());
    c.tick(50);
    assert!(c.ready().is_empty(), "nor a keepalive");
}

#[test]
fn removing_a_limit_hands_it_back_and_forgets_it() {
    let mut ns = pair();
    let _ = ns[1].acquire(&[(RPS, 1)]);
    step(&mut ns);
    assert_eq!(ns[0].stats(&RPS).unwrap().lent, 2);
    ns[1].remove_limit(&RPS);
    route(&mut ns);
    assert_eq!(ns[0].stats(&RPS).unwrap().lent, 0);
    assert!(ns[1].stats(&RPS).is_none());
}

#[test]
fn a_stale_leader_steps_down_on_the_first_call_with_a_newer_term() {
    let mut ns = pair();
    let _ = ns[1].acquire(&[(RPS, 1)]);
    step(&mut ns);
    // Raft moved on; the child heard, the old leader did not.
    ns[1].set_cluster_view(None, 2, 2);
    assert!(ns[1].is_leader());
    assert_eq!(ns[1].stats(&RPS).unwrap().granted, 30);
    route(&mut ns); // the crown tells the old parent
    assert!(!ns[0].is_leader());
    assert_eq!(ns[0].term(), 2);
    assert_eq!(ns[0].stats(&RPS).unwrap().lent, 0);
    ns[0].tick(1);
    assert_eq!(
        ns[0].stats(&RPS).unwrap().granted,
        0,
        "the rate was dropped"
    );
}

#[test]
fn the_parent_is_kept_while_it_delivers_and_left_after_two_misses() {
    let mut c = node(3);
    c.set_cluster_view(Some(&[1, 2, 3]), 1, 1);
    c.set_upstream(1);
    assert_eq!(c.parent(), Some(&1));
    c.set_upstream(2);
    assert_eq!(c.parent(), Some(&1), "one miss is noise");
    c.set_upstream(1);
    c.set_upstream(2);
    assert_eq!(c.parent(), Some(&1), "the parent delivered in between");
    c.set_upstream(2);
    assert_eq!(c.parent(), Some(&2), "two misses in a row");
}

#[test]
fn a_node_never_takes_its_own_child_as_parent() {
    let mut ns = vec![node(1), node(2), node(3)];
    for n in ns.iter_mut() {
        n.set_cluster_view(Some(&[1, 2, 3]), 3, 1);
    }
    ns[1].set_upstream(1);
    let _ = ns[1].acquire(&[(RPS, 1)]);
    step(&mut ns); // 1 now books 2
    ns[0].set_upstream(2);
    ns[0].set_upstream(2);
    assert_eq!(ns[0].parent(), None);
}

#[test]
fn a_move_releases_the_old_parent_and_the_new_one_adopts() {
    let mut ns = vec![node(1), node(2), node(3), node(4)];
    for n in ns.iter_mut() {
        n.set_cluster_view(Some(&[1, 2, 3, 4]), 1, 1);
    }
    ns[1].set_upstream(1);
    ns[2].set_upstream(1);
    ns[3].set_upstream(2);
    route(&mut ns);
    for n in ns[1..].iter_mut() {
        let _ = n.acquire(&[(RPS, 1)]);
    }
    for _ in 0..6 {
        step(&mut ns);
    }
    assert_eq!(ns[3].stats(&RPS).unwrap().granted, 2);
    assert_eq!(ns[1].stats(&RPS).unwrap().lent, 2, "2 books 4");
    ns[3].set_upstream(3);
    ns[3].set_upstream(3);
    route(&mut ns);
    assert_eq!(ns[1].stats(&RPS).unwrap().lent, 0, "the old parent let go");
    // The edge to the new parent starts at zero: the child asks it at its next
    // write, and is leased again within a round trip or two.
    assert_eq!(ns[3].stats(&RPS).unwrap().granted, 0);
    for _ in 0..4 {
        let _ = ns[3].acquire(&[(RPS, 1)]);
        step(&mut ns);
    }
    assert_eq!(ns[2].stats(&RPS).unwrap().lent, 2, "the new parent lends");
    assert_eq!(
        ns[3].stats(&RPS).unwrap().granted,
        2,
        "the child is leased again"
    );
}

#[test]
fn an_answer_from_anyone_but_the_parent_carries_only_the_term() {
    let mut ns = pair();
    let _ = ns[1].acquire(&[(RPS, 1)]);
    step(&mut ns);
    ns[1].on_response(
        9,
        LeaseResponse {
            term: 5,
            leader: Some(9),
            in_reply_to: 0,
            sent: 0,
            items: vec![ResponseItem {
                key: RPS,
                given: 500,
                returned: 0,
            }],
        },
    );
    assert_eq!(ns[1].stats(&RPS).unwrap().granted, 2);
    assert_eq!(ns[1].term(), 5);
}

#[test]
fn an_acquire_is_all_or_none() {
    let mut l = node(1);
    l.set_limit(
        "bps",
        Limit {
            limit: 5,
            chunk: 1,
            burst: 0,
        },
    );
    l.set_cluster_view(Some(&[1]), 1, 1);
    l.tick(1);
    assert!(l.acquire(&[(RPS, 1), ("bps", 100)]).is_err());
    assert_eq!(l.stats(&RPS).unwrap().tokens, 30, "nothing drawn");
    assert!(l.acquire(&[(RPS, 1), ("bps", 1)]).is_ok());
    assert_eq!(l.stats(&RPS).unwrap().tokens, 29);
}

#[test]
fn a_share_a_child_gave_back_goes_back_up() {
    let mut ns = vec![node(1), node(2), node(3)];
    for n in ns.iter_mut() {
        n.set_cluster_view(Some(&[1, 2, 3]), 1, 1);
    }
    ns[1].set_upstream(1);
    ns[2].set_upstream(2);
    route(&mut ns);
    let _ = ns[2].acquire(&[(RPS, 1)]);
    for _ in 0..6 {
        step(&mut ns);
    }
    assert_eq!(ns[2].stats(&RPS).unwrap().granted, 2);
    assert_eq!(ns[1].stats(&RPS).unwrap().lent, 2);
    assert_eq!(
        ns[0].stats(&RPS).unwrap().lent,
        2,
        "the leader lent 2 to the middle node"
    );
    // The grandchild moves under the leader; the middle node is told.
    ns[2].set_upstream(1);
    ns[2].set_upstream(1);
    route(&mut ns);
    assert_eq!(ns[1].stats(&RPS).unwrap().lent, 0);
    // The middle node does not keep the 2 for itself: at its next call it hands it up,
    // and the grandchild, writing on, is leased by the leader directly.
    for _ in 0..3 {
        let _ = ns[2].acquire(&[(RPS, 1)]);
        step(&mut ns);
    }
    assert_eq!(
        ns[1].stats(&RPS).unwrap().granted,
        0,
        "handed back, it wanted nothing"
    );
    assert_eq!(
        ns[0].stats(&RPS).unwrap().lent,
        2,
        "the leader books only the grandchild"
    );
}

#[test]
fn a_moved_share_is_needed_and_served_before_any_want() {
    // The rate is fully lent: A and B hold 2 each, D holds 2 under B. D moves under A: A
    // is over-committed by 2, B gives the 2 back up, and C wants 2 at the same time. A's
    // need is served first.
    let mut ns: Vec<Lease<u32, &'static str>> = (1..=5)
        .map(|id| {
            let mut n = Lease::new(id, Config { ttl: 40 });
            n.set_limit(
                RPS,
                Limit {
                    limit: 6,
                    chunk: 2,
                    burst: 0,
                },
            );
            n
        })
        .collect();
    for n in ns.iter_mut() {
        n.set_cluster_view(Some(&[1, 2, 3, 4, 5]), 1, 1);
    }
    ns[1].set_upstream(1); // A
    ns[2].set_upstream(1); // B
    ns[3].set_upstream(3); // D under B
    ns[4].set_upstream(1); // C
    route(&mut ns);
    // A, B and D keep writing, as real nodes do; a write that fails asks again.
    for _ in 0..16 {
        for i in [1, 2, 3] {
            let _ = ns[i].acquire(&[(RPS, 1)]);
        }
        step(&mut ns);
    }
    assert_eq!(
        ns[0].stats(&RPS).unwrap().lent,
        6,
        "fully lent\n{}",
        dump(&ns)
    );
    ns[3].set_upstream(2);
    ns[3].set_upstream(2); // D moves under A
    for _ in 0..12 {
        for i in [1, 2, 3, 4] {
            let _ = ns[i].acquire(&[(RPS, 1)]); // C wants too, and keeps asking
        }
        step(&mut ns);
    }
    let a = ns[1].stats(&RPS).unwrap();
    assert_eq!(a.overcommit, 0, "A's need was served\n{}", dump(&ns));
    // C is entitled to 2 of the 6 by the split, but A is over its own entitlement by one
    // chunk exactly, and a cut only comes past a chunk: C waits.
    assert_eq!(ns[4].stats(&RPS).unwrap().granted, 0, "C's want was not");
    let refills: u64 = ns
        .iter()
        .map(|n| {
            let s = n.stats(&RPS).unwrap();
            s.granted.saturating_sub(s.lent)
        })
        .sum();
    assert!(refills <= 6, "the rate is not over-allocated: {refills}");
}

#[test]
fn set_parent_switches_at_once_and_unbooks_a_child_that_becomes_the_parent() {
    let cfg = Config { ttl: 40 };
    let mut n = Lease::<u32, &str>::new(2, cfg);
    n.set_limit(
        "k",
        Limit {
            limit: 100,
            chunk: 10,
            burst: 0,
        },
    );
    n.set_cluster_view(Some(&[1, 2, 3]), 1, 1);
    // Node 3 leases from 2, so it is 2's child.
    let req = LeaseRequest {
        term: 1,
        leader: Some(1),
        sent: 1,
        items: vec![RequestItem {
            key: "k",
            given: 0,
            returned: 0,
            needed: 0,
            wanted: 10,
        }],
    };
    n.on_request(3, req);
    assert!(n.children().iter().any(|c| *c == 3));
    // `set_upstream` would wait for a second signal; `set_parent` does not.
    n.set_parent(1);
    assert_eq!(n.parent(), Some(&1));
    n.set_parent(3); // a reorder makes the child the parent
    assert_eq!(n.parent(), Some(&3));
    assert!(
        !n.children().iter().any(|c| *c == 3),
        "no longer our child: no cycle"
    );
    n.set_parent(3);
    assert_eq!(n.parent(), Some(&3), "already the parent: unchanged");
}

#[test]
fn a_lost_keepalive_is_retried_and_the_share_does_not_lapse() {
    let cfg = Config { ttl: 20 };
    let mut leader = Lease::<u32, &str>::new(1, cfg);
    let mut child = Lease::<u32, &str>::new(2, cfg);
    for l in [&mut leader, &mut child] {
        l.set_limit(
            "k",
            Limit {
                limit: 100,
                chunk: 10,
                burst: 0,
            },
        );
        l.set_cluster_view(Some(&[1, 2]), 1, 1);
    }
    child.set_parent(1);
    // The child gets a share.
    child.acquire(&[("k", 1)]).ok();
    let mut now = 0;
    child.tick(1);
    now += 1;
    let calls = child.ready();
    let Some(Action::Call(1, req)) = calls.into_iter().next() else {
        panic!("the child asks its parent");
    };
    let resp = leader.on_request(2, req);
    child.on_response(1, resp);
    assert!(child.stats(&"k").unwrap().granted > 0);
    assert!(child.stats(&"k").unwrap().good);
    // Keep the bucket busy so nothing is handed back; the keepalive at ttl/2 is lost.
    let mut lost = None;
    while lost.is_none() {
        child.tick(1);
        now += 1;
        child.acquire(&[("k", 1)]).ok();
        for a in child.ready() {
            let Action::Call(_, r) = a;
            lost = Some(r);
        }
    }
    let lost = lost.unwrap();
    // Without a retry the next call would be the next keepalive, at the TTL, and its
    // answer would land after the share had lapsed. The retry comes within a few ticks.
    let mut retried = None;
    for _ in 0..(cfg.ttl / 4) {
        child.tick(1);
        now += 1;
        child.acquire(&[("k", 1)]).ok();
        for a in child.ready() {
            let Action::Call(_, r) = a;
            retried = Some(r);
        }
        if retried.is_some() {
            break;
        }
    }
    let retried = retried.expect("the lost call is sent again");
    assert!(retried.sent > lost.sent);
    let resp = leader.on_request(2, retried);
    child.on_response(1, resp);
    // Past the old validity the share is still good, and never dropped to zero.
    while now <= lost.sent + cfg.ttl + 1 {
        child.tick(1);
        now += 1;
        child.acquire(&[("k", 1)]).ok();
        let _ = child.ready();
        assert!(
            child.stats(&"k").unwrap().granted > 0,
            "the share lapsed at {}",
            now
        );
    }
    assert!(child.stats(&"k").unwrap().good);
}

#[test]
fn water_fill_gives_demands_below_the_level_and_shares_the_rest_by_weight() {
    // The example: a root of 75, its own use 2, a 25-node child wanting 50, a leaf
    // wanting 100.
    assert_eq!(
        water_fill(75, &[(1, 2), (25, 50), (1, 100)]),
        vec![2, 50, 23]
    );
    // Everyone wants more than its level: by weight, remainder to the first.
    assert_eq!(water_fill(30, &[(1, 100), (3, 100)]), vec![8, 22]);
    assert_eq!(water_fill(10, &[(1, 3), (1, 3)]), vec![3, 3]);
    assert_eq!(water_fill(0, &[(1, 3)]), vec![0]);
}

fn leader_with(limit: u64) -> Lease<u32, &'static str> {
    let mut l = Lease::new(1, Config { ttl: 20 });
    l.set_limit(
        RPS,
        Limit {
            limit,
            chunk: 2,
            burst: 0,
        },
    );
    l.set_cluster_view(Some(&[1, 2, 3]), 1, 1);
    l
}

fn ask(needed: u64, wanted: u64, sent: u64) -> LeaseRequest<u32, &'static str> {
    LeaseRequest {
        term: 1,
        leader: Some(1),
        sent,
        items: vec![RequestItem {
            key: RPS,
            given: 0,
            returned: 0,
            needed,
            wanted,
        }],
    }
}

fn share(r: &LeaseResponse<u32, &'static str>) -> u64 {
    r.items[0].given - r.items[0].returned
}

#[test]
fn two_children_wanting_everything_get_half_each() {
    let mut l = leader_with(75);
    let _ = share(&l.on_request(2, ask(0, 100, 1)));
    let _ = share(&l.on_request(3, ask(0, 100, 1)));
    // The first asker took what its level allowed before the second was known; a
    // second keepalive settles both at half, the leader's own use taking nothing.
    let a2 = share(&l.on_request(2, ask(0, 100, 2)));
    let b2 = share(&l.on_request(3, ask(0, 100, 2)));
    assert!(a2.abs_diff(b2) <= 1, "{a2} vs {b2}");
    assert!((74..=75).contains(&(a2 + b2)), "{a2} + {b2}");
}

#[test]
fn a_child_s_share_follows_its_weight() {
    let mut l = leader_with(80);
    l.set_weights(&[(2, 1), (3, 3)]);
    let mut a = 0;
    let mut b = 0;
    for round in 1..4 {
        a = share(&l.on_request(2, ask(0, 100, round)));
        b = share(&l.on_request(3, ask(0, 100, round)));
    }
    assert_eq!((a, b), (20, 60), "one to three");
}

#[test]
fn a_root_never_gives_more_than_it_holds_and_settles_a_fair_split() {
    // After a leader change two children each need 48 for their subtrees, against a
    // limit of 75. The root gives what it holds, no more, and the keepalives settle
    // both at half.
    let mut l = leader_with(75);
    let a0 = share(&l.on_request(2, ask(48, 0, 1)));
    let b0 = share(&l.on_request(3, ask(48, 0, 1)));
    assert!(a0 + b0 <= 75, "{a0} + {b0}");
    assert_eq!(
        l.stats(&RPS).unwrap().overcommit,
        0,
        "a root cannot be overcommitted"
    );
    let a = share(&l.on_request(2, ask(48, 0, 2)));
    let b = share(&l.on_request(3, ask(48, 0, 2)));
    assert!(a.abs_diff(b) <= 1, "{a} vs {b}");
    assert!((74..=75).contains(&(a + b)), "{a} + {b}");
    assert!(l.stats(&RPS).unwrap().lent <= 75);
}

#[test]
fn a_re_sent_request_gets_the_same_total_and_lends_nothing_more() {
    let mut l = leader_with(75);
    let first = l.on_request(2, ask(0, 10, 1));
    let lent = l.stats(&RPS).unwrap().lent;
    // The same request again, as a retry sends it: the child has not seen the answer.
    let again = l.on_request(2, ask(0, 10, 1));
    assert_eq!(again.items, first.items);
    assert_eq!(l.stats(&RPS).unwrap().lent, lent);
}

#[test]
fn a_child_adopts_given_in_order_and_takes_the_larger_returned() {
    let mut ns = pair();
    let _ = ns[1].acquire(&[(RPS, 1)]);
    ns[1].tick(1);
    let Action::Call(_, req) = ns[1].ready().remove(0);
    let resp = ns[0].on_request(2, req);
    ns[1].on_response(1, resp.clone());
    let held = ns[1].stats(&RPS).unwrap().granted;
    assert!(held > 0);
    // A cut arrives as a larger `returned`: the share follows it down.
    let mut cut = resp.clone();
    cut.items[0].returned = cut.items[0].given - 1;
    ns[1].on_response(1, cut);
    assert_eq!(ns[1].stats(&RPS).unwrap().granted, 1);
    // An answer to an older request is ignored, however large.
    let mut stale = resp;
    stale.in_reply_to = 0;
    stale.items[0].given = 500;
    ns[1].on_response(1, stale);
    assert_eq!(ns[1].stats(&RPS).unwrap().granted, 1);
}

#[test]
fn a_node_cut_below_what_it_lent_waits_a_keepalive_round_before_cutting_its_children() {
    let cfg = Config { ttl: 20 };
    let mut mid = Lease::<u32, &str>::new(2, cfg);
    mid.set_limit(
        "k",
        Limit {
            limit: 60,
            chunk: 1,
            burst: 0,
        },
    );
    mid.set_cluster_view(Some(&[1, 2, 3, 4, 5]), 1, 1);
    mid.set_parent(1);
    let answer = |in_reply_to: u64, given: u64, returned: u64| LeaseResponse {
        term: 1,
        leader: Some(1),
        in_reply_to,
        sent: in_reply_to,
        items: vec![ResponseItem {
            key: "k",
            given,
            returned,
        }],
    };
    let report = |sent: u64| LeaseRequest {
        term: 1,
        leader: Some(1),
        sent,
        items: vec![RequestItem {
            key: "k",
            given: 0,
            returned: 0,
            needed: 0,
            wanted: 2,
        }],
    };
    // The mid node holds 6 and lends 2 to each of three children.
    mid.tick(1);
    mid.on_response(1, answer(1, 6, 0));
    for c in [3, 4, 5] {
        assert_eq!(share(&mid.on_request(c, report(1))), 2);
    }
    assert_eq!(mid.stats(&"k").unwrap().lent, 6);
    // Its parent cuts it to nothing. It is over by 6 and asks upward for the need.
    mid.on_response(1, answer(2, 6, 6));
    assert_eq!(mid.stats(&"k").unwrap().overcommit, 6);
    mid.tick(1);
    let Some(Action::Call(1, req)) = mid.ready().into_iter().next() else {
        panic!("the mid node asks upward");
    };
    assert!(req.items[0].needed >= 6, "{:?}", req.items[0]);
    // For a keepalive round the children keep what they hold.
    for c in [3, 4, 5] {
        assert_eq!(
            share(&mid.on_request(c, report(3))),
            2,
            "child {c} keeps its share"
        );
    }
    // Half a TTL later with nothing covered, they are cut to a fair split of nothing.
    mid.tick(cfg.ttl / 2);
    for c in [3, 4, 5] {
        assert_eq!(share(&mid.on_request(c, report(14))), 0, "child {c} is cut");
    }
    assert_eq!(mid.stats(&"k").unwrap().overcommit, 0);
}

#[test]
fn a_share_below_a_request_per_tick_saves_up_to_the_burst() {
    // A rate of 1 unit per tick, requests of 10 units: two ticks of share never fit
    // one; a burst of 10 does, once every ten ticks.
    let mut l = Lease::<u32, &str>::new(1, Config { ttl: 40 });
    l.set_limit(
        "k",
        Limit {
            limit: 1,
            chunk: 1,
            burst: 10,
        },
    );
    l.set_cluster_view(Some(&[1]), 1, 1);
    l.tick(9);
    assert!(l.acquire(&[("k", 10)]).is_err(), "nine ticks: nine units");
    l.tick(1);
    assert!(l.acquire(&[("k", 10)]).is_ok(), "ten ticks: one request");
    assert!(l.acquire(&[("k", 10)]).is_err());
    l.tick(100);
    assert!(l.acquire(&[("k", 10)]).is_ok());
    assert!(
        l.acquire(&[("k", 10)]).is_err(),
        "the bucket holds one request, not ten"
    );
}

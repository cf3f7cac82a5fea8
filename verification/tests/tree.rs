//! The tree over a cluster view.
use leasetree::tree::place;
use leasetree::tree::weights;
use leasetree::tree::Place;
use std::collections::BTreeMap;

/// Every node's parent, and the depth of the deepest node.
fn tree(members: &[(u64, u8)], leader: u64, k: usize) -> (BTreeMap<u64, Option<u64>>, usize) {
    let mut parents = BTreeMap::new();
    for (id, _) in members {
        let p = match place(id, &leader, members, k).expect("a member has a place") {
            Place::Root => None,
            Place::Under(p) => Some(p),
        };
        parents.insert(*id, p);
    }
    let mut deepest = 0;
    for id in parents.keys() {
        let mut depth = 0;
        let mut at = *id;
        while let Some(p) = parents[&at] {
            depth += 1;
            at = p;
            assert!(depth <= members.len(), "a cycle through {id}");
        }
        deepest = deepest.max(depth);
    }
    (parents, deepest)
}

fn by_mod(n: u64, domains: u64) -> Vec<(u64, u8)> {
    (1..=n).map(|id| (id, (id % domains) as u8)).collect()
}

#[test]
fn nine_nodes_in_three_domains_enter_each_domain_once() {
    // Domain = id mod 3, leader 5 in domain 2, radix 2.
    let members = by_mod(9, 3);
    let (parents, depth) = tree(&members, 5, 2);
    let edge = |c: u64| parents[&c];
    assert_eq!(edge(5), None, "the leader is the root");
    // The leader's domain {2, 5, 8}: the root is 2; 5 climbs 4, 0 to it. Re-rooted at
    // 5, the path 5 -> 2 flips; 8 climbs to 2.
    assert_eq!((edge(2), edge(8)), (Some(5), Some(2)));
    // Domain 0 {3, 6, 9}: root 3 under the leader; 6 and 9 climb past absent ids to 3.
    assert_eq!((edge(3), edge(6), edge(9)), (Some(5), Some(3), Some(3)));
    // Domain 1 {1, 4, 7}: root 1 under the leader; 4 climbs to 1; 7 -> 6 absent -> 4.
    assert_eq!((edge(1), edge(4), edge(7)), (Some(5), Some(1), Some(4)));
    assert_eq!(depth, 3);
    let domain = |id: u64| members[(id - 1) as usize].1;
    let cross = parents
        .iter()
        .filter(|(c, p)| p.is_some_and(|p| domain(**c) != domain(p)))
        .count();
    assert_eq!(cross, 2, "one entry per other domain");
}

#[test]
fn a_dead_gateway_is_replaced_by_the_next_id_and_only_its_domain_moves() {
    let mut members = by_mod(9, 3);
    let before = tree(&members, 5, 2).0;
    members.retain(|(id, _)| *id != 3);
    let after = tree(&members, 5, 2).0;
    assert_eq!(
        (after[&6], after[&9]),
        (Some(5), Some(6)),
        "6 is the root now, 9 under it"
    );
    for id in [1, 2, 4, 7, 8] {
        assert_eq!(after[&id], before[&id], "{id} did not move");
    }
}

#[test]
fn a_leader_change_flips_one_path_and_re_hangs_the_gateways() {
    let members = by_mod(9, 3);
    let before = tree(&members, 5, 2).0;
    let after = tree(&members, 6, 2).0; // the new leader is in domain 0
    assert_eq!(after[&6], None);
    assert_eq!(after[&3], Some(6), "the path 6 -> 3 flipped");
    assert_eq!(after[&9], Some(3), "9 did not move");
    assert_eq!(after[&1], Some(6), "domain 1's root follows the leader");
    assert_eq!((after[&4], after[&7]), (before[&4], before[&7]));
    // The old leader's domain goes back to its own shape: root 2 under the leader,
    // 5 and 8 under 2.
    assert_eq!(after[&2], Some(6));
    assert_eq!((after[&5], after[&8]), (Some(2), Some(2)));
    let moved = after.iter().filter(|(id, p)| before[id] != **p).count();
    assert_eq!(moved, 5, "6, 3, 1, 2 and 5 moved; {moved} did");
}

#[test]
fn two_hundred_nodes_in_one_domain_stay_shallow_and_a_join_moves_nobody() {
    let members = by_mod(200, 1);
    let (before, depth) = tree(&members, 7, 4);
    assert!(depth <= 6, "depth {depth}");
    let fan = |parents: &BTreeMap<u64, Option<u64>>, id: u64| {
        parents.values().filter(|p| **p == Some(id)).count()
    };
    assert!(
        fan(&before, 7) <= 16,
        "the root has {} children",
        fan(&before, 7)
    );
    let mut more = members.clone();
    more.push((201, 0));
    let (after, _) = tree(&more, 7, 4);
    for (id, p) in &before {
        assert_eq!(after[id], *p);
    }
    assert_eq!(after[&201], Some(200), "201 is 3021 in base 4: under 3020");
}

#[test]
fn a_join_takes_back_the_children_that_climbed_past_it() {
    // Ids 1..=15 but 4, radix 4: 5, 6 and 7 climb past the absent 4 to the root 1.
    let mut members: Vec<(u64, u8)> =
        (1..=15).filter(|id| *id != 4).map(|id| (id, 0)).collect();
    let before = tree(&members, 1, 4).0;
    assert_eq!(
        (before[&5], before[&6], before[&7]),
        (Some(1), Some(1), Some(1))
    );
    members.push((4, 0));
    let after = tree(&members, 1, 4).0;
    assert_eq!(
        (after[&5], after[&6], after[&7]),
        (Some(4), Some(4), Some(4))
    );
    assert_eq!(after[&4], Some(1));
    let moved = after
        .iter()
        .filter(|(id, p)| before.get(id) != Some(p))
        .count();
    assert_eq!(moved, 4, "4 and its three children");
}

#[test]
fn no_tree_without_a_member_leader_or_for_a_stranger() {
    let members = by_mod(4, 2);
    assert_eq!(
        place(&1, &9, &members, 2),
        None,
        "the leader is not a member"
    );
    assert_eq!(place(&9, &1, &members, 2), None, "we are not a member");
    assert_eq!(place(&1, &1, &members, 2), Some(Place::Root));
}

#[test]
fn weights_are_subtree_sizes() {
    // One domain, radix 4, root 1: 4 carries 5, 6, 7; 16 carries 17..=31; 2 is a leaf.
    let members = by_mod(31, 1);
    let w: BTreeMap<u64, u64> = weights(&1, &1, &members, 4).into_iter().collect();
    assert_eq!(w[&2], 1);
    assert_eq!(w[&4], 4);
    assert_eq!(w[&16], 16);
    assert_eq!(
        w.values().sum::<u64>(),
        30,
        "every other member is under one child"
    );
    // Nine nodes, three domains, leader 5: the gateways carry their domains.
    let members = by_mod(9, 3);
    let w: BTreeMap<u64, u64> = weights(&5, &5, &members, 2).into_iter().collect();
    assert_eq!((w[&3], w[&1], w[&2]), (3, 3, 2));
}

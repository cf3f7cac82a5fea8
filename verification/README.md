# leasetree

A pure state machine for distributed rate limits, with its behaviour proved in Verus. No I/O, no
clock: you feed it events; it returns calls to make.

The cluster's leader holds the whole rate of a limit and lends shares of it down a tree; every
node runs a token bucket from its share and admits against it locally. The whole protocol is one
call from a child to its parent. The crate's documentation, in `src/lib.rs`, says how it works and
what the caller supplies.

## Layout

| file | what it holds |
|---|---|
| `src/lease.rs` | `Lease`, one node, driven by events |
| `src/node.rs` | what a node stands for, and what each event makes of it |
| `src/quota.rs` | one limit on one node: the edges above and below, and the bucket |
| `src/fair.rs` | weighted max-min fairness in whole units |
| `src/messages.rs` | configuration, requests, answers, statistics |
| `src/tree.rs` | the tree as a function of a cluster view |
| `src/laws.rs`, `src/tree_laws.rs` | what holds across calls, across nodes and across views |
| `src/order.rs` | ordered names, sets in order, sums |
| `app/lib.rs` | the messages with `serde`'s derives, for the wire |

## Numbers

Everything is counted in whole units: shares, tokens, demands. A counter that runs full stays
full. A node's own use is the number of tokens drawn since the last tick, per tick, rounded up.

## Names

Nodes and limits are named by any type whose `Eq` and `Ord` are an equality and a total order on
its values, and whose clones are equal; `order::lawful` says so. The tree also wants ids that can
be read as numbers: `tree::Number`, which the unsigned integers up to `u64` are.

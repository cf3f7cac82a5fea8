//! A pure state machine for distributed rate limits.
//!
//! A rate limit is a flow: requests per tick, bytes per tick. The cluster's leader holds the
//! whole rate. It lends shares of it down a spanning tree: to its children, who lend out of what
//! they hold to their own. Every node runs a token bucket from its share and admits against it
//! locally, with no message on the request path. Shares have a TTL and lapse when not renewed.
//!
//! This crate is the algorithm only. It reads no clock and no socket, and it does not know who
//! the leader is or which peer is upstream: the caller tells it. It is meant to sit beside an
//! overlay network whose spanning tree it follows, but knows nothing of any network.
//!
//! # What a rate limit is for
//!
//! Availability first. A node without a share, because it has none yet, or its parent died, or
//! the leader changed, admits everything and asks for a share; it is throttled again once it has
//! one. So the limit can be overshot for a round trip or two around such events, and that is the
//! trade: a rate limit shapes load, it is not a boundary. A limit that must never be exceeded, a
//! stock of bytes or objects, is a different problem and not this crate.
//!
//! # One call
//!
//! The whole protocol is one RPC from a child to its parent: a [`LeaseRequest`] answered by a
//! [`LeaseResponse`]. The child calls every `ttl / 2`, at once when what it holds or wants
//! changed or the term did, and while it wants something: after a round trip at first, then
//! twice as long after each empty answer, up to `ttl / 8`. A request reports, per limit, what the
//! child holds from the parent (less than before is a release) and what more it wants, apart
//! from what it *needs*: what it has already lent beyond its share, a moved subtree it adopted. A
//! response grants. The parent serves needs before wants, from all the tree, and reserves room
//! for a child's need it could not fill; what it fetches for a waiting child it never hands back
//! as spare. Without that, a share that moved is counted twice for as long as the rate is
//! contended. The parent never calls the child.
//!
//! # The contract
//!
//! Every input mutates state; some append to one FIFO outbound queue of calls to make, drained
//! with [`ready`](Lease::ready), and those return `true` when they took the queue from empty to
//! non-empty: the edge on which to wake a caller. [`on_request`](Lease::on_request) returns the
//! response directly, for the RPC handler to send back. Enforcement,
//! [`acquire`](Lease::acquire), is local and never calls; a refusal only marks the limit wanted,
//! and the next [`tick`](Lease::tick) asks.
//!
//! What the caller supplies:
//!
//! - the limits, from its configuration: [`set_limit`](Lease::set_limit);
//! - the cluster view, from Raft: [`set_cluster_view`](Lease::set_cluster_view) -- members,
//!   leader and term;
//! - the upstream peer, from its overlay: [`set_upstream`](Lease::set_upstream) -- whichever peer
//!   last delivered the leader's traffic;
//! - liveness, from its failure detector: [`down`](Lease::down) and [`up`](Lease::up);
//! - the network and the clock: [`on_request`](Lease::on_request),
//!   [`on_response`](Lease::on_response) and [`tick`](Lease::tick).
//!
//! # The rules
//!
//! - A share is dated from the tick the request was *sent*, so a parent that lapses it (dated
//!   from arrival, later) never re-lends a share the child still considers its own. No clock is
//!   ever compared across nodes.
//! - A child calls whenever what it holds or wants changed, or the term did, and every `ttl / 2`
//!   as a keepalive. A parent books what the child reports.
//! - A node without a share admits everything and asks for one.
//! - A node's parent is the peer the overlay delivers the leader's traffic through; it moves to a
//!   new deliverer once that peer has delivered twice in a row, and never to its own child. The
//!   lease tree follows the overlay's tree and its changes, two deliveries behind, and does not
//!   follow a single detour.
//!
//! # What is proved
//!
//! [`node::LeaseState`] is what a node stands for, and each method of [`Lease`] is proved to make
//! of it exactly what its contract says, in terms of the transitions in [`node`] and [`quota`],
//! and to keep its invariant. Nothing panics, and no arithmetic overflows: a counter that runs
//! full stays full. What those transitions do to each field of a node is stated and proved in
//! plain numbers in [`effects`], and where they put each member of a tree in [`tree_effects`].
//! What holds across calls and across nodes is stated and proved in [`laws`], of the split among
//! claimants in [`fair`], and of the tree in [`tree_laws`].
pub mod effects;
pub mod fair;
pub mod laws;
pub mod lease;
pub mod messages;
pub mod node;
pub mod order;
pub mod quota;
pub mod tree;
pub mod tree_effects;
pub mod tree_laws;

pub use lease::Lease;
pub use messages::Action;
pub use messages::Config;
pub use messages::Denied;
pub use messages::LeaseRequest;
pub use messages::LeaseResponse;
pub use messages::Limit;
pub use messages::RequestItem;
pub use messages::ResponseItem;
pub use messages::Stats;

//! Configuration, and what nodes and callers say to each other.
use vstd::prelude::*;

verus! {

/// Timing, in ticks. The caller decides what a tick is, and drives
/// [`tick`](crate::Lease::tick) from a **monotonic** clock: a node compares only its own clock
/// readings, so skew between nodes is harmless, but a clock that steps back keeps a lapsed share
/// spendable for as long as it stepped. A pause or a forward jump is fine: a large `tick(n)`
/// lapses everything at once.
#[derive(Clone, Copy, Debug)]
pub struct Config {
    /// A share is good for this long without renewal. Renewed at `ttl / 2`. A request is
    /// repeated after `ttl / 8` at most.
    pub ttl: u64,
}

impl Default for Config {
    fn default() -> (r: Self)
        ensures
            r.ttl == 40,
    {
        Config { ttl: 40 }
    }
}

/// One rate limit, as configured. Every node needs `chunk`; only the leader uses `limit`.
#[derive(Clone, Copy, Debug, PartialEq, Eq)]
pub struct Limit {
    /// Units per tick, cluster-wide.
    pub limit: u64,
    /// How much a node asks for at a time, and keeps in hand when idle.
    pub chunk: u64,
    /// The bucket's capacity on this node, in units, when two ticks of its share are less: a
    /// share below one request per tick still serves a request, after saving up.
    pub burst: u64,
}

/// One limit in a [`LeaseRequest`].
///
/// Each edge of the tree carries two counters that only grow: `given`, kept by the parent, what
/// it ever handed this child; and `returned`, kept by the child, what it ever handed back. The
/// share is the difference. The parent merges `returned` by max, the child adopts `given` from
/// answers in order, so a re-sent request, a lost answer or a restarted parent all reconcile on
/// the next exchange with no ordering state.
#[derive(Clone, Debug, PartialEq, Eq)]
pub struct RequestItem<K> {
    /// The limit.
    pub key: K,
    /// What the child knows the parent has handed it, ever: the `given` it last adopted. The
    /// parent reads the wants below against this, so a want made before an answer arrived is
    /// not served twice.
    pub given: u64,
    /// What the child has handed back to this parent, ever. A release raises it; raising it to
    /// `given` lets the parent go entirely.
    pub returned: u64,
    /// What the child has already lent beyond its share: a moved subtree it adopted, or a cut
    /// from above it has not passed on yet. Demand like any other, served first within the
    /// child's entitlement.
    pub needed: u64,
    /// What more the child would take.
    pub wanted: u64,
}

/// child -> parent: the one call. A report and a request in one, for every limit in play.
#[derive(Clone, Debug, PartialEq, Eq)]
pub struct LeaseRequest<Id, K> {
    /// The child's term.
    pub term: u64,
    /// The child's leader.
    pub leader: Option<Id>,
    /// The child's tick. A share is dated from it.
    pub sent: u64,
    /// The limits.
    pub items: Vec<RequestItem<K>>,
}

/// One limit in a [`LeaseResponse`].
#[derive(Clone, Debug, PartialEq, Eq)]
pub struct ResponseItem<K> {
    /// The limit.
    pub key: K,
    /// What the parent has handed this child, ever. The child adopts it.
    pub given: u64,
    /// What the parent counts as handed back, ever: the child's own returns, and cuts the
    /// parent made. The child takes the larger of its own and this.
    pub returned: u64,
}

/// parent -> child: the answer. A stale leader learns of its successor from `term` on the first
/// answer it gets; so does a child from any ancestor's.
#[derive(Clone, Debug, PartialEq, Eq)]
pub struct LeaseResponse<Id, K> {
    /// The parent's term.
    pub term: u64,
    /// The parent's leader.
    pub leader: Option<Id>,
    /// The `sent` of the request answered. The child applies answers in this order.
    pub in_reply_to: u64,
    /// The parent's tick, for the log.
    pub sent: u64,
    /// The limits, in the request's order.
    pub items: Vec<ResponseItem<K>>,
}

/// Something the caller must do.
#[derive(Clone, Debug, PartialEq, Eq)]
pub enum Action<Id, K> {
    /// Call this peer, and feed its answer to [`on_response`](crate::Lease::on_response).
    Call(Id, LeaseRequest<Id, K>),
}

/// An `acquire` that could not be honoured.
#[derive(Clone, Debug, PartialEq, Eq)]
pub struct Denied<K> {
    /// The first limit that refused.
    pub key: K,
    /// Tokens it had.
    pub available: u64,
}

/// A limit as this node sees it, for metrics.
#[derive(Clone, Copy, Debug, Default, PartialEq, Eq)]
pub struct Stats {
    /// The share this node holds, in units per tick.
    pub granted: u64,
    /// What it lent to its children.
    pub lent: u64,
    /// What it lent beyond what it holds.
    pub overcommit: u64,
    /// What it still wants from its parent.
    pub wanted: u64,
    /// Children it books for this limit.
    pub children: usize,
    /// Tokens in the bucket.
    pub tokens: u64,
    /// Whether the share is good right now.
    pub good: bool,
}

// ------------------------------------------------------------ what messages say

/// What a [`LeaseRequest`] says.
#[verifier::ext_equal]
pub struct RequestView<Id, K> {
    pub term: u64,
    pub leader: Option<Id>,
    pub sent: u64,
    pub items: Seq<RequestItem<K>>,
}

impl<Id, K> View for LeaseRequest<Id, K> {
    type V = RequestView<Id, K>;

    open spec fn view(&self) -> RequestView<Id, K> {
        RequestView {
            term: self.term,
            leader: self.leader,
            sent: self.sent,
            items: self.items@,
        }
    }
}

/// What a [`LeaseResponse`] says.
#[verifier::ext_equal]
pub struct ResponseView<Id, K> {
    pub term: u64,
    pub leader: Option<Id>,
    pub in_reply_to: u64,
    pub sent: u64,
    pub items: Seq<ResponseItem<K>>,
}

impl<Id, K> View for LeaseResponse<Id, K> {
    type V = ResponseView<Id, K>;

    open spec fn view(&self) -> ResponseView<Id, K> {
        ResponseView {
            term: self.term,
            leader: self.leader,
            in_reply_to: self.in_reply_to,
            sent: self.sent,
            items: self.items@,
        }
    }
}

/// What an [`Action`] asks for: a call of `peer` with `request`.
#[verifier::ext_equal]
pub struct CallView<Id, K> {
    pub peer: Id,
    pub request: RequestView<Id, K>,
}

impl<Id, K> View for Action<Id, K> {
    type V = CallView<Id, K>;

    open spec fn view(&self) -> CallView<Id, K> {
        match self {
            Action::Call(peer, request) => CallView { peer: *peer, request: request@ },
        }
    }
}

} // verus!

//! The tree as a pure function of a cluster view.
//!
//! Membership, who is online and who leads are facts every node learns the same way, from the
//! same replicated source, so every node can compute the same tree from them and no messages are
//! needed to agree on it. Each node needs only its own place.
//!
//! The rule is a trie over the ids themselves, so that a node's position depends on its id alone
//! and a change moves as few nodes as possible:
//!
//! - Inside a failure domain, `parent(x)` is `x` with its lowest nonzero base-`radix` digit
//!   cleared, climbing past ids that are not present. An id with no present ancestor hangs under
//!   the domain's lowest id, which is the domain's root.
//! - The domain roots hang under the leader.
//! - In the leader's own domain the tree is re-rooted at the leader: the path from the leader up
//!   to the domain's root flips direction, and nothing else moves.
//!
//! So a leader change moves the gateways and the two leaders' paths; a node leaving moves only
//! its children, or only its domain if it was the domain's root; a node joining lands at its own
//! place and takes back the children that were climbing past it. Inside a domain a node is as
//! deep as its id has nonzero digits, at most, where ids are ordered as their numbers are.
//! [`tree_laws`](crate::tree_laws) states and proves these.
use crate::order::holds;
use crate::order::in_order;
use crate::order::lawful;
use crate::order::lemma_filter_none;
use crate::order::lemma_filter_push;
use crate::order::lemma_in_order;
use crate::order::lemma_order;
use crate::order::lemma_to_set_push;
use crate::order::less;
use crate::order::precedes;
use crate::order::same;
use crate::order::sum_along;
use crate::quota::clip;
use vstd::arithmetic::div_mod::lemma_div_decreases;
use vstd::arithmetic::div_mod::lemma_div_denominator;
use vstd::arithmetic::div_mod::lemma_fundamental_div_mod;
use vstd::arithmetic::div_mod::lemma_fundamental_div_mod_converse;
use vstd::arithmetic::div_mod::lemma_mod_decreases;
use vstd::laws_eq::obeys_concrete_eq;
use vstd::prelude::*;

verus! {

// ------------------------------------------------------------ ids as numbers

/// An id that can be read as a number, and told by it.
pub trait Number: Sized {
    /// The number.
    spec fn value(&self) -> u64;

    /// The number.
    fn number(&self) -> (r: u64)
        ensures
            r == self.value(),
    ;

    /// Two ids with the same number are the same id.
    proof fn told_by_number(a: Self, b: Self)
        requires
            a.value() == b.value(),
        ensures
            a == b,
    ;
}

impl Number for u8 {
    open spec fn value(&self) -> u64 {
        *self as u64
    }

    fn number(&self) -> (r: u64) {
        *self as u64
    }

    proof fn told_by_number(a: Self, b: Self) {
    }
}

impl Number for u16 {
    open spec fn value(&self) -> u64 {
        *self as u64
    }

    fn number(&self) -> (r: u64) {
        *self as u64
    }

    proof fn told_by_number(a: Self, b: Self) {
    }
}

impl Number for u32 {
    open spec fn value(&self) -> u64 {
        *self as u64
    }

    fn number(&self) -> (r: u64) {
        *self as u64
    }

    proof fn told_by_number(a: Self, b: Self) {
    }
}

impl Number for u64 {
    open spec fn value(&self) -> u64 {
        *self
    }

    fn number(&self) -> (r: u64) {
        *self
    }

    proof fn told_by_number(a: Self, b: Self) {
    }
}

/// A number with its lowest nonzero base-`k` digit cleared.
pub open spec fn cleared(x: nat, k: nat) -> nat
    decreases x,
{
    if x == 0 || k < 2 {
        0
    } else if x % k != 0 {
        (x - x % k) as nat
    } else {
        proof {
            lemma_div_decreases(x as int, k as int);
        }
        k * cleared(x / k, k)
    }
}

/// Clearing a digit makes a number smaller.
pub proof fn lemma_cleared(x: nat, k: nat)
    requires
        x > 0,
    ensures
        cleared(x, k) < x,
    decreases x,
{
    if k >= 2 && x % k == 0 {
        lemma_div_decreases(x as int, k as int);
        lemma_fundamental_div_mod(x as int, k as int);
        let y = x / k;
        assert(y > 0) by {
            if y == 0 {
                assert(k * y == 0) by (nonlinear_arith)
                    requires
                        y == 0,
                ;
            }
        }
        lemma_cleared(y, k);
        let z = cleared(y, k);
        assert(k * z < k * y) by (nonlinear_arith)
            requires
                z < y,
                k > 0,
        ;
    } else if k >= 2 {
        assert(x % k <= x) by {
            lemma_mod_decreases(x, k);
        }
    }
}

/// Clear the lowest nonzero base-`k` digit.
fn clear_digit(x: u64, k: u64) -> (r: u64)
    requires
        x > 0,
        k >= 2,
    ensures
        r == cleared(x as nat, k as nat),
{
    let mut p: u64 = 1;
    proof {
        assert(x as int / 1 == x as int);
        assert(x as int % 1 == 0);
    }
    while (x / p) % k == 0
        invariant
            x > 0,
            k >= 2,
            1 <= p <= x,
            x as int % p as int == 0,
            cleared(x as nat, k as nat) == p * cleared((x / p) as nat, k as nat),
        decreases x - p,
    {
        proof {
            let q = x / p;
            lemma_fundamental_div_mod(x as int, p as int);
            lemma_fundamental_div_mod(q as int, k as int);
            let d = q as int / k as int;
            assert(x == p * q);
            assert(q == k * d);
            assert(x == (p * k) * d) by (nonlinear_arith)
                requires
                    x == p * q,
                    q == k * d,
            ;
            assert(d >= 1) by {
                if d < 1 {
                    assert((p * k) * d <= 0) by (nonlinear_arith)
                        requires
                            d < 1,
                            p * k >= 0,
                    ;
                    assert(p * k >= 0) by (nonlinear_arith);
                }
            }
            assert(p < p * k <= x) by (nonlinear_arith)
                requires
                    x == (p * k) * d,
                    d >= 1,
                    k >= 2,
                    p >= 1,
            ;
            lemma_div_denominator(x as int, p as int, k as int);
            assert(x as int / (p * k) == d);
            lemma_fundamental_div_mod_converse(
                x as int,
                p * k,
                d,
                0,
            );
            let c = cleared(d as nat, k as nat);
            assert(cleared(q as nat, k as nat) == k * c);
            assert(p * (k * c) == (p * k) * c) by (nonlinear_arith);
        }
        p = p * k;
    }
    proof {
        lemma_fundamental_div_mod(x as int, p as int);
        let q = x / p;
        let m = q as int % k as int;
        assert(x == p * q);
        lemma_mod_decreases(q as nat, k as nat);
        assert(q as nat % k as nat == m);
        assert(cleared(q as nat, k as nat) == q - m);
        assert(m * p <= x && p * (q - m) == x - m * p) by (nonlinear_arith)
            requires
                x == p * q,
                0 <= m <= q,
                p >= 1,
        ;
    }
    x - (x / p % k) * p
}

// ------------------------------------------------------------ one domain

/// The domain's root: its lowest id.
pub open spec fn lowest<Id: Ord>(domain: Set<Id>) -> Id {
    in_order(domain)[0]
}

/// The id with this number, if it is present.
pub open spec fn numbered<Id: Number>(domain: Set<Id>, v: nat) -> Option<Id> {
    if exists|id: Id| #[trigger] domain.contains(id) && id.value() == v {
        Some(choose|id: Id| #[trigger] domain.contains(id) && id.value() == v)
    } else {
        None
    }
}

/// The nearest present ancestor of a number: the first present id met while its lowest nonzero
/// digits are cleared one by one.
pub open spec fn nearest<Id: Number>(domain: Set<Id>, v: nat, k: nat) -> Option<Id>
    decreases v,
{
    if v == 0 {
        None
    } else {
        proof {
            lemma_cleared(v, k);
        }
        match numbered(domain, cleared(v, k)) {
            Some(a) => Some(a),
            None => nearest(domain, cleared(v, k), k),
        }
    }
}

/// An id's parent inside its domain: the nearest present ancestor, else the domain's root.
/// `None` for the root itself.
pub open spec fn trie_parent<Id: Ord + Number>(domain: Set<Id>, id: Id, k: nat) -> Option<Id> {
    if id == lowest(domain) {
        None
    } else {
        match nearest(domain, id.value() as nat, k) {
            Some(a) => Some(a),
            None => Some(lowest(domain)),
        }
    }
}

/// What shrinks on the way up.
pub open spec fn height<Id: Ord + Number>(domain: Set<Id>, id: Id) -> nat {
    if id == lowest(domain) {
        0
    } else {
        (id.value() + 1) as nat
    }
}

/// The way from an id up to the domain's root, both included.
pub open spec fn path<Id: Ord + Number>(domain: Set<Id>, id: Id, k: nat) -> Seq<Id>
    decreases height(domain, id),
{
    match trie_parent(domain, id, k) {
        None => seq![id],
        Some(p) => {
            proof {
                lemma_nearest(domain, id.value() as nat, k);
            }
            seq![id] + path(domain, p, k)
        },
    }
}

/// The nearest present ancestor is present and has a smaller number.
pub proof fn lemma_nearest<Id: Number>(domain: Set<Id>, v: nat, k: nat)
    ensures
        nearest(domain, v, k) matches Some(a) ==> domain.contains(a) && a.value() < v,
    decreases v,
{
    if v > 0 {
        lemma_cleared(v, k);
        if numbered(domain, cleared(v, k)) is None {
            lemma_nearest(domain, cleared(v, k), k);
        }
    }
}

/// A domain's lowest id is in it, and comes before the others.
pub proof fn lemma_lowest<Id: Ord + Copy>(domain: Set<Id>)
    requires
        lawful::<Id>(),
        domain.finite(),
        exists|id: Id| domain.contains(id),
    ensures
        domain.contains(lowest(domain)),
        forall|id: Id| #[trigger]
            domain.contains(id) ==> id == lowest(domain) || precedes(lowest(domain), id),
        forall|low: Id|
            domain.contains(low) && (forall|id: Id| #[trigger]
                domain.contains(id) ==> id == low || precedes(low, id)) ==> low == lowest(domain),
{
    lemma_in_order(domain);
    lemma_order::<Id>();
    let o = in_order(domain);
    let x = choose|id: Id| domain.contains(id);
    assert(o.contains(x));
    assert(domain.contains(o[0]));
    assert forall|id: Id| #[trigger] domain.contains(id) implies id == o[0] || precedes(
        o[0],
        id,
    ) by {
        assert(o.contains(id));
        let i = choose|i: int| 0 <= i < o.len() && o[i] == id;
        if i > 0 {
            assert(precedes(o[0], o[i]));
        }
    }
}

/// The way up stays in the domain, ends at its root, and never comes by the same id twice.
pub proof fn lemma_path<Id: Ord + Copy + Number>(domain: Set<Id>, id: Id, k: nat)
    requires
        lawful::<Id>(),
        domain.finite(),
        domain.contains(id),
    ensures
        path(domain, id, k).len() > 0,
        path(domain, id, k)[0] == id,
        path(domain, id, k).last() == lowest(domain),
        path(domain, id, k).no_duplicates(),
        forall|i: int|
            0 <= i < path(domain, id, k).len() ==> domain.contains(#[trigger] path(domain, id, k)[i])
                && height(domain, path(domain, id, k)[i]) <= height(domain, id),
    decreases height(domain, id),
{
    lemma_lowest(domain);
    if let Some(p) = trie_parent(domain, id, k) {
        lemma_nearest(domain, id.value() as nat, k);
        lemma_path(domain, p, k);
        let w = path(domain, id, k);
        let r = path(domain, p, k);
        assert(w == seq![id] + r);
        assert forall|i: int| 0 <= i < w.len() implies domain.contains(#[trigger] w[i]) && height(
            domain,
            w[i],
        ) <= height(domain, id) by {
            if i > 0 {
                assert(w[i] == r[i - 1]);
            }
        }
        assert forall|i: int, j: int|
            0 <= i < w.len() && 0 <= j < w.len() && i != j implies w[i] != w[j] by {
            if i > 0 {
                assert(w[i] == r[i - 1]);
            }
            if j > 0 {
                assert(w[j] == r[j - 1]);
            }
        }
        assert(w.last() == r.last());
    }
}

/// The way up from a node on the way up is the rest of that way.
pub proof fn lemma_path_from<Id: Ord + Copy + Number>(domain: Set<Id>, id: Id, k: nat, i: int)
    requires
        lawful::<Id>(),
        domain.finite(),
        domain.contains(id),
        0 <= i < path(domain, id, k).len(),
    ensures
        path(domain, path(domain, id, k)[i], k) == path(domain, id, k).skip(i),
        i < path(domain, id, k).len() - 1 ==> trie_parent(domain, path(domain, id, k)[i], k)
            == Some(path(domain, id, k)[i + 1]),
        i == path(domain, id, k).len() - 1 ==> trie_parent(domain, path(domain, id, k)[i], k)
            is None,
    decreases i,
{
    let w = path(domain, id, k);
    lemma_path(domain, id, k);
    lemma_lowest(domain);
    if i == 0 {
        assert(w.skip(0) =~= w);
        if let Some(p) = trie_parent(domain, id, k) {
            lemma_nearest(domain, id.value() as nat, k);
            lemma_path(domain, p, k);
            assert(w[1] == path(domain, p, k)[0]);
        }
    } else {
        let p = trie_parent(domain, id, k)->0;
        let r = path(domain, p, k);
        assert(w == seq![id] + r);
        lemma_nearest(domain, id.value() as nat, k);
        lemma_path_from(domain, p, k, i - 1);
        assert(w[i] == r[i - 1]);
        if i < w.len() - 1 {
            assert(w[i + 1] == r[i]);
        }
        assert(w.skip(i) =~= r.skip(i - 1));
    }
}

// ------------------------------------------------------------ the cluster

/// Where a node stands.
#[derive(Clone, Debug, PartialEq, Eq)]
pub enum Place<Id> {
    /// The leader.
    Root,
    /// A child of this node.
    Under(Id),
}

/// The base that ids are read in.
pub open spec fn base(radix: usize) -> nat {
    if radix < 2 {
        2
    } else {
        radix as nat
    }
}

/// A member's failure domain: the first that the view gives for it. `None` for a stranger.
pub open spec fn domain_of<Id, D>(members: Seq<(Id, D)>, id: Id) -> Option<D>
    decreases members.len(),
{
    if members.len() == 0 {
        None
    } else if members[0].0 == id {
        Some(members[0].1)
    } else {
        domain_of(members.drop_first(), id)
    }
}

/// The members of a failure domain.
pub open spec fn domain<Id, D>(members: Seq<(Id, D)>, d: D) -> Set<Id> {
    Set::new(|id: Id| members.contains((id, d)))
}

/// Where `me` stands in a cluster with this leader, given its own domain, and whether it is the
/// leader's.
pub open spec fn standing<Id: Ord + Number>(
    me: Id,
    leader: Id,
    domain: Set<Id>,
    leaders: bool,
    k: nat,
) -> Place<Id> {
    if me == leader {
        Place::Root
    } else if !leaders {
        match trie_parent(domain, me, k) {
            None => Place::Under(leader),
            Some(p) => Place::Under(p),
        }
    } else {
        // The path from the leader up to the root flips direction.
        let up = path(domain, leader, k);
        if up.contains(me) {
            Place::Under(up[up.index_of(me) - 1])
        } else {
            Place::Under(trie_parent(domain, me, k)->0)
        }
    }
}

/// `me`'s place in the tree over `members`. `None` when `me` or `leader` is not a member.
pub open spec fn placed<Id: Ord + Number, D>(
    me: Id,
    leader: Id,
    members: Seq<(Id, D)>,
    radix: usize,
) -> Option<Place<Id>> {
    match (domain_of(members, me), domain_of(members, leader)) {
        (Some(a), Some(b)) => Some(
            standing(me, leader, domain(members, a), a == b, base(radix)),
        ),
        _ => None,
    }
}

/// A member's domain is one that the view gives for it.
pub proof fn lemma_domain_of<Id, D>(members: Seq<(Id, D)>, id: Id)
    ensures
        domain_of(members, id) matches Some(d) ==> members.contains((id, d)),
        domain_of(members, id) is None ==> forall|d: D| !members.contains((id, d)),
    decreases members.len(),
{
    if members.len() > 0 {
        let rest = members.drop_first();
        lemma_domain_of(rest, id);
        if members[0].0 == id {
            assert(members[0] == (id, members[0].1));
            assert(members.contains((id, members[0].1)));
        } else {
            if let Some(d) = domain_of(rest, id) {
                let i = choose|i: int| 0 <= i < rest.len() && rest[i] == (id, d);
                assert(members[i + 1] == (id, d));
            } else {
                assert forall|d: D| !members.contains((id, d)) by {
                    if members.contains((id, d)) {
                        let i = choose|i: int| 0 <= i < members.len() && members[i] == (id, d);
                        assert(rest[i - 1] == (id, d));
                        assert(rest.contains((id, d)));
                    }
                }
            }
        }
    }
}

/// Find a member's failure domain.
fn find_domain<'a, Id: Ord + Copy, D>(members: &'a [(Id, D)], id: &Id) -> (r: Option<&'a D>)
    requires
        lawful::<Id>(),
    ensures
        match r {
            Some(d) => domain_of(members@, *id) == Some(*d),
            None => domain_of(members@, *id) is None,
        },
{
    assert(members@.skip(0) =~= members@);
    for i in 0..members.len()
        invariant
            lawful::<Id>(),
            domain_of(members@, *id) == domain_of(members@.skip(i as int), *id),
    {
        let ghost rest = members@.skip(i as int);
        assert(rest[0] == members@[i as int]);
        assert(rest.drop_first() =~= members@.skip(i + 1));
        if same(&members[i].0, id) {
            return Some(&members[i].1);
        }
    }
    None
}

/// List the members of a failure domain.
fn list_domain<Id: Ord + Copy, D: Eq>(members: &[(Id, D)], d: &D) -> (r: Vec<Id>)
    requires
        obeys_concrete_eq::<D>(),
    ensures
        r@.to_set() == domain(members@, *d),
{
    let mut out: Vec<Id> = Vec::new();
    assert(out@.to_set() =~= domain(members@.take(0), *d));
    for i in 0..members.len()
        invariant
            obeys_concrete_eq::<D>(),
            out@.to_set() == domain(members@.take(i as int), *d),
    {
        let ghost done = members@.take(i as int);
        let ghost was = out@;
        proof {
            reveal(obeys_concrete_eq);
        }
        if members[i].1 == *d {
            proof {
                lemma_to_set_push(out@, members@[i as int].0);
            }
            out.push(members[i].0);
        }
        proof {
            let more = members@.take(i + 1);
            assert(more =~= done.push(members@[i as int]));
            assert forall|id: Id|
                domain(more, *d).contains(id) <==> domain(done, *d).contains(id) || (id
                    == members@[i as int].0 && members@[i as int].1 == *d) by {
                if done.contains((id, *d)) {
                    let j = choose|j: int| 0 <= j < done.len() && done[j] == (id, *d);
                    assert(more[j] == (id, *d));
                }
                if id == members@[i as int].0 && members@[i as int].1 == *d {
                    assert(more[i as int] == (id, *d));
                }
            }
            assert(out@.to_set() =~= domain(more, *d));
        }
    }
    assert(members@.take(members@.len() as int) =~= members@);
    out
}

/// The lowest id in a list.
fn lowest_of<Id: Ord + Copy>(ids: &[Id]) -> (r: Id)
    requires
        lawful::<Id>(),
        ids@.len() > 0,
    ensures
        r == lowest(ids@.to_set()),
{
    let mut low = ids[0];
    proof {
        lemma_order::<Id>();
    }
    for i in 0..ids.len()
        invariant
            lawful::<Id>(),
            ids@.contains(low),
            forall|j: int| 0 <= j < i ==> #[trigger] ids@[j] == low || precedes(low, ids@[j]),
    {
        proof {
            lemma_order::<Id>();
        }
        if less(&ids[i], &low) {
            low = ids[i];
        }
    }
    proof {
        let s = ids@.to_set();
        assert(s.contains(ids@[0])) by {
            assert(ids@.contains(ids@[0]));
        }
        lemma_lowest(s);
        assert forall|id: Id| #[trigger] s.contains(id) implies id == low || precedes(low, id) by {
            let j = choose|j: int| 0 <= j < ids@.len() && ids@[j] == id;
        }
        assert(s.contains(low));
    }
    low
}

/// Find the id with this number.
fn find_number<Id: Ord + Copy + Number>(ids: &[Id], v: u64) -> (r: Option<Id>)
    ensures
        r == numbered(ids@.to_set(), v as nat),
{
    let ghost s = ids@.to_set();
    for i in 0..ids.len()
        invariant
            s == ids@.to_set(),
            forall|j: int| 0 <= j < i ==> (#[trigger] ids@[j]).value() != v,
    {
        if ids[i].number() == v {
            proof {
                let id = ids@[i as int];
                assert(ids@.contains(id));
                assert(s.contains(id) && id.value() == v);
                Id::told_by_number(id, numbered(s, v as nat)->0);
            }
            return Some(ids[i]);
        }
    }
    proof {
        assert forall|id: Id| #[trigger] s.contains(id) implies id.value() != v by {
            let j = choose|j: int| 0 <= j < ids@.len() && ids@[j] == id;
        }
    }
    None
}

/// An id's parent inside its domain, whose root is `root`.
fn find_parent<Id: Ord + Copy + Number>(ids: &[Id], root: &Id, id: &Id, k: u64) -> (r: Option<Id>)
    requires
        lawful::<Id>(),
        *root == lowest(ids@.to_set()),
        k >= 2,
    ensures
        r == trie_parent(ids@.to_set(), *id, k as nat),
{
    if same(id, root) {
        return None;
    }
    let ghost s = ids@.to_set();
    let mut x: u64 = id.number();
    while x > 0
        invariant
            lawful::<Id>(),
            k >= 2,
            s == ids@.to_set(),
            *id != *root,
            *root == lowest(s),
            nearest(s, id.value() as nat, k as nat) == nearest(s, x as nat, k as nat),
        decreases x,
    {
        proof {
            lemma_cleared(x as nat, k as nat);
        }
        x = clear_digit(x, k);
        if let Some(a) = find_number(ids, x) {
            return Some(a);
        }
    }
    Some(*root)
}

/// The node just before `me` on the way from the leader up to the domain's root, if `me` is on
/// it.
fn find_below<Id: Ord + Copy + Number>(ids: &[Id], root: &Id, leader: &Id, me: &Id, k: u64) -> (r:
    Option<Id>)
    requires
        lawful::<Id>(),
        ids@.contains(*leader),
        *root == lowest(ids@.to_set()),
        *me != *leader,
        k >= 2,
    ensures
        match r {
            Some(below) => {
                let up = path(ids@.to_set(), *leader, k as nat);
                up.contains(*me) && below == up[up.index_of(*me) - 1]
            },
            None => !path(ids@.to_set(), *leader, k as nat).contains(*me),
        },
{
    let ghost s = ids@.to_set();
    let ghost up = path(s, *leader, k as nat);
    proof {
        lemma_path(s, *leader, k as nat);
    }
    let mut below = *leader;
    let ghost n = 0int;
    loop
        invariant
            lawful::<Id>(),
            s == ids@.to_set(),
            s.contains(*leader),
            *root == lowest(s),
            k >= 2,
            up == path(s, *leader, k as nat),
            up.no_duplicates(),
            0 <= n < up.len(),
            up[n] == below,
            forall|i: int| 0 <= i <= n ==> up[i] != *me,
        ensures
            !up.contains(*me),
        decreases up.len() - n,
    {
        proof {
            lemma_path_from(s, *leader, k as nat, n);
        }
        match find_parent(ids, root, &below, k) {
            None => {
                break;
            },
            Some(p) => {
                if same(&p, me) {
                    assert(up.contains(up[n + 1]));
                    return Some(below);
                }
                below = p;
                proof {
                    n = n + 1;
                }
            },
        }
    }
    None
}

/// `me`'s place in the tree over `members`, each with its failure domain, rooted at `leader`,
/// with ids read as base-`radix` numbers. `None` when `me` or `leader` is not a member: there is
/// no tree for `me`.
pub fn place<Id, D>(me: &Id, leader: &Id, members: &[(Id, D)], radix: usize) -> (r: Option<
    Place<Id>,
>) where Id: Ord + Copy + Number, D: Eq
    requires
        lawful::<Id>(),
        obeys_concrete_eq::<D>(),
    ensures
        r == placed(*me, *leader, members@, radix),
{
    let k: u64 = if radix < 2 {
        2
    } else {
        radix as u64
    };
    let my_domain = match find_domain(members, me) {
        Some(d) => d,
        None => {
            return None;
        },
    };
    let leader_domain = match find_domain(members, leader) {
        Some(d) => d,
        None => {
            return None;
        },
    };
    let mine = list_domain(members, my_domain);
    let ghost s = domain(members@, *my_domain);
    proof {
        reveal(obeys_concrete_eq);
        lemma_domain_of(members@, *me);
        lemma_domain_of(members@, *leader);
        assert(s.contains(*me));
        assert(mine@.contains(*me)) by {
            assert(mine@.to_set().contains(*me));
        }
    }
    let min = lowest_of(&mine);
    if same(me, leader) {
        return Some(Place::Root);
    }
    if *my_domain != *leader_domain {
        return Some(
            match find_parent(&mine, &min, me, k) {
                None => Place::Under(*leader),
                Some(p) => Place::Under(p),
            },
        );
    }
    // The leader's domain: the path from the leader up to the root flips direction.
    proof {
        assert(s.contains(*leader));
        lemma_path(s, *leader, k as nat);
    }
    if let Some(below) = find_below(&mine, &min, leader, me, k) {
        return Some(Place::Under(below));
    }
    match find_parent(&mine, &min, me, k) {
        None => {
            assert(path(s, *leader, k as nat).contains(path(s, *leader, k as nat).last()));
            None
        },
        Some(p) => Some(Place::Under(p)),
    }
}

// ------------------------------------------------------------ subtrees

/// A member's parent in the tree. `None` for the leader, and for a stranger.
pub open spec fn parent_in<Id: Ord + Number, D>(
    id: Id,
    leader: Id,
    members: Seq<(Id, D)>,
    radix: usize,
) -> Option<Id> {
    match placed(id, leader, members, radix) {
        Some(Place::Under(p)) => Some(p),
        _ => None,
    }
}

/// The members' ids, as the view lists them.
pub open spec fn ids_in<Id, D>(members: Seq<(Id, D)>) -> Seq<Id> {
    members.map_values(|m: (Id, D)| m.0)
}

/// Which members are children of `me`.
pub open spec fn hanging<Id: Ord + Number, D>(
    me: Id,
    leader: Id,
    members: Seq<(Id, D)>,
    radix: usize,
) -> spec_fn(Id) -> bool {
    |id: Id| parent_in(id, leader, members, radix) == Some(me)
}

/// The children of `me`, as the view lists them.
pub open spec fn children_in<Id: Ord + Number, D>(
    me: Id,
    leader: Id,
    members: Seq<(Id, D)>,
    radix: usize,
) -> Seq<Id> {
    ids_in(members).filter(hanging(me, leader, members, radix))
}

/// How often the way up from `at` comes by `c`, as far as it has `hops` nodes.
pub open spec fn visits<Id: Ord + Number, D>(
    at: Option<Id>,
    c: Id,
    leader: Id,
    members: Seq<(Id, D)>,
    radix: usize,
    hops: nat,
) -> nat
    decreases hops,
{
    match at {
        Some(x) if hops > 0 => (if x == c {
            1nat
        } else {
            0
        }) + visits(
            parent_in(x, leader, members, radix),
            c,
            leader,
            members,
            radix,
            (hops - 1) as nat,
        ),
        _ => 0,
    }
}

/// How often the way up from each member comes by `c`. No way up has more nodes than there are
/// members.
pub open spec fn visiting<Id: Ord + Number, D>(
    c: Id,
    leader: Id,
    members: Seq<(Id, D)>,
    radix: usize,
) -> spec_fn(Id) -> nat {
    |id: Id| visits(Some(id), c, leader, members, radix, members.len() + 1)
}

/// How many members' ways up come by `c`.
pub open spec fn passing<Id: Ord + Number, D>(
    c: Id,
    leader: Id,
    members: Seq<(Id, D)>,
    radix: usize,
) -> nat {
    sum_along(ids_in(members), visiting(c, leader, members, radix))
}

/// The children of `me`, each with how many members' ways up come by it. A child that the view
/// lists twice is counted where it is listed first.
pub open spec fn weighed<Id: Ord + Number, D>(
    me: Id,
    leader: Id,
    members: Seq<(Id, D)>,
    radix: usize,
) -> Seq<(Id, u64)> {
    let kids = children_in(me, leader, members, radix);
    Seq::new(
        kids.len(),
        |j: int|
            (
                kids[j],
                if kids.take(j).contains(kids[j]) {
                    0
                } else {
                    clip(passing(kids[j], leader, members, radix) as int)
                },
            ),
    )
}

/// The counts once the ways up from `done` are counted, but for what is left of the last one:
/// `hops` nodes from `at` on.
spec fn counted<Id: Ord + Number, D>(
    list: Seq<(Id, u64)>,
    kids: Seq<Id>,
    leader: Id,
    members: Seq<(Id, D)>,
    radix: usize,
    done: Seq<Id>,
    at: Option<Id>,
    hops: nat,
) -> bool {
    &&& list.len() == kids.len()
    &&& forall|j: int|
        #![trigger list[j]]
        0 <= j < kids.len() ==> {
            let sum = sum_along(done, visiting(kids[j], leader, members, radix));
            let rest = visits(at, kids[j], leader, members, radix, hops);
            &&& list[j].0 == kids[j]
            &&& rest <= sum
            &&& list[j].1 == if kids.take(j).contains(kids[j]) {
                0
            } else {
                clip(sum - rest)
            }
        }
}

proof fn lemma_counted_start<Id: Ord + Number, D>(
    list: Seq<(Id, u64)>,
    kids: Seq<Id>,
    leader: Id,
    members: Seq<(Id, D)>,
    radix: usize,
    done: Seq<Id>,
    id: Id,
)
    requires
        counted(list, kids, leader, members, radix, done, None, 0),
    ensures
        counted(
            list,
            kids,
            leader,
            members,
            radix,
            done.push(id),
            Some(id),
            (members.len() + 1) as nat,
        ),
{
    assert(done.push(id).drop_last() =~= done);
}

proof fn lemma_counted_step<Id: Ord + Number, D>(
    was: Seq<(Id, u64)>,
    list: Seq<(Id, u64)>,
    kids: Seq<Id>,
    leader: Id,
    members: Seq<(Id, D)>,
    radix: usize,
    done: Seq<Id>,
    x: Id,
    hops: nat,
)
    requires
        hops > 0,
        counted(was, kids, leader, members, radix, done, Some(x), hops),
        list.len() == was.len(),
        forall|j: int| 0 <= j < was.len() ==> (#[trigger] list[j]).0 == was[j].0,
        forall|j: int|
            0 <= j < was.len() ==> (#[trigger] list[j]).1 == if was[j].0 == x && (forall|i: int|
                0 <= i < j ==> (#[trigger] was[i]).0 != x) {
                clip(was[j].1 + 1)
            } else {
                was[j].1
            },
    ensures
        counted(
            list,
            kids,
            leader,
            members,
            radix,
            done,
            parent_in(x, leader, members, radix),
            (hops - 1) as nat,
        ),
        hops == 1 || parent_in(x, leader, members, radix) is None ==> counted(
            list,
            kids,
            leader,
            members,
            radix,
            done,
            None,
            0,
        ),
{
    assert forall|j: int| 0 <= j < kids.len() implies {
        let sum = sum_along(done, visiting(kids[j], leader, members, radix));
        let rest = visits(
            parent_in(x, leader, members, radix),
            kids[j],
            leader,
            members,
            radix,
            (hops - 1) as nat,
        );
        &&& (#[trigger] list[j]).0 == kids[j]
        &&& rest <= sum
        &&& list[j].1 == if kids.take(j).contains(kids[j]) {
            0
        } else {
            clip(sum - rest)
        }
    } by {
        assert(was[j].0 == kids[j]);
        if kids[j] == x {
            if kids.take(j).contains(x) {
                let i = choose|i: int| 0 <= i < j && kids.take(j)[i] == x;
                assert(was[i].0 == x);
            } else {
                assert forall|i: int| 0 <= i < j implies (#[trigger] was[i]).0 != x by {
                    assert(kids.take(j)[i] == kids[i]);
                }
            }
        }
    }
}

proof fn lemma_looked_up<Id: Ord + Number, D>(
    parents: Seq<(Id, Option<Id>)>,
    members: Seq<(Id, D)>,
    id: Id,
    leader: Id,
    radix: usize,
    found: Option<Id>,
)
    requires
        parents.len() == members.len(),
        forall|j: int|
            0 <= j < parents.len() ==> #[trigger] parents[j] == (
                members[j].0,
                parent_in(members[j].0, leader, members, radix),
            ),
        forall|i: int|
            0 <= i < parents.len() && (#[trigger] parents[i]).0 == id ==> found == parents[i].1,
        (forall|i: int| 0 <= i < parents.len() ==> (#[trigger] parents[i]).0 != id)
            ==> found is None,
    ensures
        found == parent_in(id, leader, members, radix),
{
    lemma_domain_of(members, id);
    if let Some(d) = domain_of(members, id) {
        let i = choose|i: int| 0 <= i < members.len() && members[i] == (id, d);
        assert(parents[i].0 == id);
    } else {
        assert forall|i: int| 0 <= i < parents.len() implies (#[trigger] parents[i]).0 != id by {
            if parents[i].0 == id {
                assert(members[i] == (id, members[i].1));
                assert(members.contains((id, members[i].1)));
            }
        }
    }
}

/// Find a member's parent in a list of members with their parents.
fn look_up<Id: Ord + Copy>(parents: &[(Id, Option<Id>)], id: &Id) -> (r: Option<Id>)
    requires
        lawful::<Id>(),
        forall|i: int, j: int|
            0 <= i < parents@.len() && 0 <= j < parents@.len() && (#[trigger] parents@[i]).0 == (
            #[trigger] parents@[j]).0 ==> parents@[i].1 == parents@[j].1,
    ensures
        forall|i: int| 0 <= i < parents@.len() && (#[trigger] parents@[i]).0 == *id ==> r == parents@[i].1,
        (forall|i: int| 0 <= i < parents@.len() ==> (#[trigger] parents@[i]).0 != *id) ==> r is None,
{
    for i in 0..parents.len()
        invariant
            lawful::<Id>(),
            forall|j: int| 0 <= j < i ==> (#[trigger] parents@[j]).0 != *id,
            forall|i: int, j: int|
                0 <= i < parents@.len() && 0 <= j < parents@.len() && (#[trigger] parents@[i]).0
                    == (#[trigger] parents@[j]).0 ==> parents@[i].1 == parents@[j].1,
    {
        if same(&parents[i].0, id) {
            return parents[i].1;
        }
    }
    None
}

/// Count one more for the first entry of this name, if there is one.
fn count_one<Id: Ord + Copy>(list: &mut Vec<(Id, u64)>, x: &Id)
    requires
        lawful::<Id>(),
    ensures
        final(list)@.len() == old(list)@.len(),
        forall|j: int|
            0 <= j < old(list)@.len() ==> (#[trigger] final(list)@[j]).0 == old(list)@[j].0,
        forall|j: int|
            0 <= j < old(list)@.len() ==> (#[trigger] final(list)@[j]).1 == if old(list)@[j].0 == *x
                && (forall|i: int| 0 <= i < j ==> (#[trigger] old(list)@[i]).0 != *x) {
                clip(old(list)@[j].1 + 1)
            } else {
                old(list)@[j].1
            },
{
    let ghost was = list@;
    let len = list.len();
    for i in 0..len
        invariant
            lawful::<Id>(),
            list@ == was,
            was == old(list)@,
            len == was.len(),
            forall|j: int| 0 <= j < i ==> (#[trigger] was[j]).0 != *x,
    {
        if same(&list[i].0, x) {
            let count = list[i].1.saturating_add(1);
            let id = list[i].0;
            list.set(i, (id, count));
            assert(was[i as int].0 == *x);
            return ;
        }
    }
}

/// The members with their parents, as the view lists them; none without a leader among them.
fn list_parents<Id, D>(leader: &Id, members: &[(Id, D)], radix: usize) -> (r: Vec<
    (Id, Option<Id>),
>) where Id: Ord + Copy + Number, D: Eq
    requires
        lawful::<Id>(),
        obeys_concrete_eq::<D>(),
    ensures
        domain_of(members@, *leader) is None ==> r@.len() == 0,
        domain_of(members@, *leader) is Some ==> r@.len() == members@.len(),
        forall|i: int|
            0 <= i < r@.len() ==> #[trigger] r@[i] == (
                members@[i].0,
                parent_in(members@[i].0, *leader, members@, radix),
            ),
{
    let mut parents: Vec<(Id, Option<Id>)> = Vec::new();
    for i in 0..members.len()
        invariant
            lawful::<Id>(),
            obeys_concrete_eq::<D>(),
            domain_of(members@, *leader) is None ==> parents@.len() == 0,
            domain_of(members@, *leader) is Some ==> parents@.len() == i,
            forall|j: int|
                0 <= j < parents@.len() ==> #[trigger] parents@[j] == (
                    members@[j].0,
                    parent_in(members@[j].0, *leader, members@, radix),
                ),
    {
        let id = members[i].0;
        proof {
            lemma_domain_of(members@, id);
            assert(members@[i as int] == (id, members@[i as int].1));
            assert(members@.contains((id, members@[i as int].1)));
        }
        match place(&id, leader, members, radix) {
            None => {},
            Some(Place::Root) => {
                parents.push((id, None));
            },
            Some(Place::Under(p)) => {
                parents.push((id, Some(p)));
            },
        }
    }
    parents
}

/// The subtree size of each of `me`'s children in the tree over `members` rooted at `leader`: the
/// number of members whose chain of parents passes through the child, the child included. The
/// weights for [`Lease::set_weights`](crate::Lease::set_weights).
pub fn weights<Id, D>(me: &Id, leader: &Id, members: &[(Id, D)], radix: usize) -> (r: Vec<
    (Id, u64),
>) where Id: Ord + Copy + Number, D: Eq
    requires
        lawful::<Id>(),
        obeys_concrete_eq::<D>(),
    ensures
        r@ == weighed(*me, *leader, members@, radix),
{
    let parents = list_parents(leader, members, radix);
    let ghost all = members@;
    let ghost ids = ids_in(all);
    let ghost kids = children_in(*me, *leader, all, radix);
    let ghost p = hanging(*me, *leader, all, radix);
    let mut out: Vec<(Id, u64)> = Vec::new();
    proof {
        assert(ids.take(0).filter(p) =~= Seq::<Id>::empty()) by {
            reveal(Seq::filter);
        }
        if domain_of(all, *leader) is None {
            assert forall|i: int| 0 <= i < ids.len() implies !p(#[trigger] ids[i]) by {}
            lemma_filter_none(ids, p);
        }
    }
    for i in 0..parents.len()
        invariant
            lawful::<Id>(),
            ids == ids_in(all),
            parents@.len() <= all.len(),
            p == hanging(*me, *leader, all, radix),
            forall|j: int|
                0 <= j < parents@.len() ==> #[trigger] parents@[j] == (
                    all[j].0,
                    parent_in(all[j].0, *leader, all, radix),
                ),
            out@ =~= ids.take(i as int).filter(p).map_values(|c: Id| (c, 0u64)),
    {
        proof {
            assert(ids.take(i + 1) =~= ids.take(i as int).push(ids[i as int]));
            lemma_filter_push(ids.take(i as int), ids[i as int], p);
            assert(parents@[i as int].0 == ids[i as int]);
        }
        if holds(&parents[i].1, me) {
            out.push((parents[i].0, 0));
        }
    }
    proof {
        if domain_of(all, *leader) is Some {
            assert(ids.take(ids.len() as int) =~= ids);
        }
        assert(out@ =~= kids.map_values(|c: Id| (c, 0u64)));
        assert(ids.take(0) =~= Seq::<Id>::empty());
    }
    for i in 0..parents.len()
        invariant
            lawful::<Id>(),
            all.len() == members@.len(),
            ids == ids_in(all),
            kids == children_in(*me, *leader, all, radix),
            parents@.len() == all.len() || parents@.len() == 0,
            forall|j: int|
                0 <= j < parents@.len() ==> #[trigger] parents@[j] == (
                    all[j].0,
                    parent_in(all[j].0, *leader, all, radix),
                ),
            counted(out@, kids, *leader, all, radix, ids.take(i as int), None, 0),
    {
        // Climb to the root; every child of `me` on the way counts this member once.
        let mut at: Id = parents[i].0;
        let mut left: usize = members.len();
        let ghost done = ids.take(i + 1);
        proof {
            assert(parents@[i as int].0 == ids[i as int]);
            assert(done =~= ids.take(i as int).push(ids[i as int]));
            lemma_counted_start(out@, kids, *leader, all, radix, ids.take(i as int), at);
        }
        loop
            invariant_except_break
                counted(out@, kids, *leader, all, radix, done, Some(at), (left + 1) as nat),
            invariant
                lawful::<Id>(),
                all.len() == members@.len(),
                parents@.len() == all.len(),
                forall|j: int|
                    0 <= j < parents@.len() ==> #[trigger] parents@[j] == (
                        all[j].0,
                        parent_in(all[j].0, *leader, all, radix),
                    ),
            ensures
                counted(out@, kids, *leader, all, radix, done, None, 0),
            decreases left,
        {
            let ghost was = out@;
            count_one(&mut out, &at);
            let up = look_up(&parents, &at);
            proof {
                lemma_looked_up(parents@, all, at, *leader, radix, up);
                lemma_counted_step(
                    was,
                    out@,
                    kids,
                    *leader,
                    all,
                    radix,
                    done,
                    at,
                    (left + 1) as nat,
                );
            }
            match up {
                None => {
                    break;
                },
                Some(p) => {
                    if left == 0 {
                        break;
                    }
                    left = left - 1;
                    at = p;
                },
            }
        }
    }
    proof {
        assert(ids.take(ids.len() as int) =~= ids);
        assert(out@ =~= weighed(*me, *leader, all, radix));
    }
    out
}

} // verus!

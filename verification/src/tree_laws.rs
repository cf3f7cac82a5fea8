//! What holds of the tree over a cluster view.
use crate::order::lawful;
use crate::order::lemma_filter_push;
use crate::order::lemma_sum_listing;
use crate::order::precedes;
use crate::order::sum_over;
use crate::quota::clip;
use crate::tree::Number;
use crate::tree::Place;
use crate::tree::base;
use crate::tree::children_in;
use crate::tree::cleared;
use crate::tree::domain;
use crate::tree::domain_of;
use crate::tree::hanging;
use crate::tree::height;
use crate::tree::ids_in;
use crate::tree::lemma_cleared;
use crate::tree::lemma_domain_of;
use crate::tree::lemma_lowest;
use crate::tree::lemma_nearest;
use crate::tree::lemma_path;
use crate::tree::lowest;
use crate::tree::nearest;
use crate::tree::numbered;
use crate::tree::parent_in;
use crate::tree::path;
use crate::tree::placed;
use crate::tree::trie_parent;
use crate::tree::visiting;
use crate::tree::visits;
use crate::tree::weighed;
use vstd::arithmetic::div_mod::lemma_div_decreases;
use vstd::arithmetic::div_mod::lemma_fundamental_div_mod;
use vstd::arithmetic::div_mod::lemma_fundamental_div_mod_converse;
use vstd::arithmetic::power::lemma_pow0;
use vstd::arithmetic::power::lemma_pow1;
use vstd::arithmetic::power::lemma_pow_adds;
use vstd::arithmetic::power::pow;
use vstd::prelude::*;
use vstd::relations::injective_on;
use vstd::seq_lib::seq_to_set_is_finite;
use vstd::set_lib::lemma_int_range;
use vstd::set_lib::lemma_len_subset;
use vstd::set_lib::lemma_len_union;
use vstd::set_lib::lemma_map_size;
use vstd::set_lib::set_int_range;

verus! {

// ------------------------------------------------------------ cluster views

/// No member is listed twice.
pub open spec fn distinct<Id, D>(members: Seq<(Id, D)>) -> bool {
    forall|i: int, j: int|
        0 <= i < j < members.len() ==> (#[trigger] members[i]).0 != (#[trigger] members[j]).0
}

/// Where no member is listed twice, each has the one domain that it is listed with.
pub proof fn lemma_one_domain<Id, D>(members: Seq<(Id, D)>, id: Id, d: D)
    requires
        distinct(members),
    ensures
        members.contains((id, d)) <==> domain_of(members, id) == Some(d),
{
    lemma_domain_of(members, id);
    if members.contains((id, d)) {
        let e = domain_of(members, id)->0;
        let i = choose|i: int| 0 <= i < members.len() && members[i] == (id, d);
        let j = choose|j: int| 0 <= j < members.len() && members[j] == (id, e);
        if i < j {
            assert(members[i].0 != members[j].0);
        } else if j < i {
            assert(members[j].0 != members[i].0);
        }
    }
}

pub proof fn lemma_domain_finite<Id, D>(members: Seq<(Id, D)>, d: D)
    ensures
        domain(members, d).finite(),
    decreases members.len(),
{
    if members.len() > 0 {
        let rest = members.drop_last();
        lemma_domain_finite(rest, d);
        let m = members.last();
        let s = if m.1 == d {
            domain(rest, d).insert(m.0)
        } else {
            domain(rest, d)
        };
        assert forall|id: Id| domain(members, d).contains(id) <==> s.contains(id) by {
            if members.contains((id, d)) {
                let i = choose|i: int| 0 <= i < members.len() && members[i] == (id, d);
                if i < members.len() - 1 {
                    assert(rest[i] == (id, d));
                }
            }
            if rest.contains((id, d)) {
                let i = choose|i: int| 0 <= i < rest.len() && rest[i] == (id, d);
                assert(members[i] == (id, d));
            }
            if m == (id, d) {
                assert(members[members.len() - 1] == (id, d));
            }
        }
        assert(domain(members, d) =~= s);
    } else {
        assert(domain(members, d) =~= Set::empty());
    }
}

/// What is known of a member's domain, and of the leader's.
proof fn lemma_member<Id: Ord + Copy + Number, D>(members: Seq<(Id, D)>, id: Id)
    requires
        lawful::<Id>(),
        domain_of(members, id) is Some,
    ensures
        domain(members, domain_of(members, id)->0).contains(id),
        domain(members, domain_of(members, id)->0).finite(),
        domain(members, domain_of(members, id)->0).contains(
            lowest(domain(members, domain_of(members, id)->0)),
        ),
{
    lemma_domain_of(members, id);
    lemma_domain_finite(members, domain_of(members, id)->0);
    assert(domain(members, domain_of(members, id)->0).contains(id));
    lemma_lowest(domain(members, domain_of(members, id)->0));
}

// ------------------------------------------------------------ places

/// There is a place exactly for members of a cluster whose leader is a member, and the root is
/// the leader's.
pub proof fn law_a_place_for_every_member<Id: Ord + Copy + Number, D>(
    me: Id,
    leader: Id,
    members: Seq<(Id, D)>,
    radix: usize,
)
    ensures
        placed(me, leader, members, radix) is Some <==> (exists|d: D| members.contains((me, d)))
            && (exists|d: D| members.contains((leader, d))),
        placed(me, leader, members, radix) is Some ==> (placed(me, leader, members, radix)
            == Some(Place::<Id>::Root) <==> me == leader),
{
    lemma_domain_of(members, me);
    lemma_domain_of(members, leader);
}

/// A parent is another member.
pub proof fn law_a_parent_is_another_member<Id: Ord + Copy + Number, D>(
    me: Id,
    leader: Id,
    members: Seq<(Id, D)>,
    radix: usize,
)
    requires
        lawful::<Id>(),
    ensures
        parent_in(me, leader, members, radix) matches Some(p) ==> p != me && domain_of(members, p)
            is Some,
{
    if placed(me, leader, members, radix) is Some && me != leader {
        let k = base(radix);
        let a = domain_of(members, me)->0;
        let s = domain(members, a);
        lemma_member(members, me);
        lemma_lowest(s);
        lemma_nearest(s, me.value() as nat, k);
        let p = parent_in(me, leader, members, radix)->0;
        if domain_of(members, leader) == Some(a) {
            lemma_member(members, leader);
            lemma_path(s, leader, k);
            let up = path(s, leader, k);
            if up.contains(me) {
                let j = up.index_of(me);
                assert(up[j] == me);
                assert(up[j - 1] == p);
                assert(s.contains(p));
            } else {
                assert(up.contains(up.last()));
            }
        }
        if s.contains(p) {
            lemma_domain_of(members, p);
            assert(members.contains((p, a)));
        }
    }
}

/// A member of the leader's domain has its parent in that domain. Of every other domain exactly
/// one member has its parent outside: its lowest, and that parent is the leader.
pub proof fn law_each_domain_is_entered_once<Id: Ord + Copy + Number, D>(
    me: Id,
    leader: Id,
    members: Seq<(Id, D)>,
    radix: usize,
)
    requires
        lawful::<Id>(),
        distinct(members),
        domain_of(members, me) is Some,
        domain_of(members, leader) is Some,
        me != leader,
    ensures
        ({
            let p = parent_in(me, leader, members, radix);
            let mine = domain_of(members, me);
            let s = domain(members, mine->0);
            &&& p is Some
            &&& mine == domain_of(members, leader) ==> domain_of(members, p->0) == mine
            &&& mine != domain_of(members, leader) && me == lowest(s) ==> p == Some(leader)
            &&& mine != domain_of(members, leader) && me != lowest(s) ==> domain_of(members, p->0)
                == mine
        }),
{
    let k = base(radix);
    let a = domain_of(members, me)->0;
    let s = domain(members, a);
    lemma_member(members, me);
    lemma_lowest(s);
    lemma_nearest(s, me.value() as nat, k);
    let p = parent_in(me, leader, members, radix)->0;
    if domain_of(members, leader) == Some(a) {
        lemma_member(members, leader);
        lemma_path(s, leader, k);
        let up = path(s, leader, k);
        if up.contains(me) {
            let j = up.index_of(me);
            assert(up[j] == me);
            assert(up[j - 1] == p);
        } else {
            assert(up.contains(up.last()));
        }
        assert(s.contains(p));
    }
    if s.contains(p) {
        assert(members.contains((p, a)));
        lemma_one_domain(members, p, a);
    }
}

// ------------------------------------------------------------ ways up

/// The node that is `n` steps up from `id`.
pub open spec fn ancestor<Id: Ord + Number, D>(
    id: Id,
    leader: Id,
    members: Seq<(Id, D)>,
    radix: usize,
    n: nat,
) -> Option<Id>
    decreases n,
{
    if n == 0 {
        Some(id)
    } else {
        match parent_in(id, leader, members, radix) {
            Some(p) => ancestor(p, leader, members, radix, (n - 1) as nat),
            None => None,
        }
    }
}

/// Steps up add.
proof fn lemma_ancestor_of_ancestor<Id: Ord + Number, D>(
    id: Id,
    leader: Id,
    members: Seq<(Id, D)>,
    radix: usize,
    m: nat,
    n: nat,
)
    requires
        ancestor(id, leader, members, radix, m) is Some,
    ensures
        ancestor(id, leader, members, radix, m + n) == ancestor(
            ancestor(id, leader, members, radix, m)->0,
            leader,
            members,
            radix,
            n,
        ),
    decreases m,
{
    if m > 0 {
        let p = parent_in(id, leader, members, radix)->0;
        lemma_ancestor_of_ancestor(p, leader, members, radix, (m - 1) as nat, n);
    }
}

/// From a node on the leader's own way up, it is that far to the leader.
proof fn lemma_down_to_the_leader<Id: Ord + Copy + Number, D>(
    leader: Id,
    members: Seq<(Id, D)>,
    radix: usize,
    j: nat,
)
    requires
        lawful::<Id>(),
        distinct(members),
        domain_of(members, leader) is Some,
        j < path(domain(members, domain_of(members, leader)->0), leader, base(radix)).len(),
    ensures
        ancestor(
            path(domain(members, domain_of(members, leader)->0), leader, base(radix))[j as int],
            leader,
            members,
            radix,
            j,
        ) == Some(leader),
    decreases j,
{
    let d = domain_of(members, leader)->0;
    let s = domain(members, d);
    let k = base(radix);
    let up = path(s, leader, k);
    lemma_member(members, leader);
    lemma_path(s, leader, k);
    if j > 0 {
        lemma_down_to_the_leader(leader, members, radix, (j - 1) as nat);
        let id = up[j as int];
        assert(s.contains(id));
        assert(members.contains((id, d)));
        lemma_one_domain(members, id, d);
        assert(up[0] == leader);
        assert(id != leader);
        assert(up.contains(id));
        assert(up[up.index_of(id)] == id);
        assert(up.index_of(id) == j);
        assert(parent_in(id, leader, members, radix) == Some(up[j - 1]));
    }
}

/// The number of steps from a member up to the leader.
proof fn lemma_up_to_the_leader<Id: Ord + Copy + Number, D>(
    me: Id,
    leader: Id,
    members: Seq<(Id, D)>,
    radix: usize,
) -> (n: nat)
    requires
        lawful::<Id>(),
        distinct(members),
        domain_of(members, me) is Some,
        domain_of(members, leader) is Some,
    ensures
        ancestor(me, leader, members, radix, n) == Some(leader),
        n < path(domain(members, domain_of(members, me)->0), me, base(radix)).len() + path(
            domain(members, domain_of(members, leader)->0),
            leader,
            base(radix),
        ).len(),
    decreases
            height(domain(members, domain_of(members, me)->0), me),
{
    let k = base(radix);
    let a = domain_of(members, me)->0;
    let d = domain_of(members, leader)->0;
    let s = domain(members, a);
    let up = path(domain(members, d), leader, k);
    let w = path(s, me, k);
    lemma_member(members, me);
    lemma_member(members, leader);
    lemma_path(s, me, k);
    lemma_path(domain(members, d), leader, k);
    lemma_lowest(s);
    lemma_nearest(s, me.value() as nat, k);
    if me == leader {
        0
    } else if a == d && up.contains(me) {
        let j = up.index_of(me);
        assert(up[j] == me);
        lemma_down_to_the_leader(leader, members, radix, j as nat);
        j as nat
    } else if trie_parent(s, me, k) is None {
        if a == d {
            assert(up.contains(up.last()));
        }
        assert(parent_in(me, leader, members, radix) == Some(leader));
        assert(ancestor(leader, leader, members, radix, 0) == Some(leader));
        assert(ancestor(me, leader, members, radix, 1) == ancestor(
            leader,
            leader,
            members,
            radix,
            0,
        ));
        1
    } else {
        let p = trie_parent(s, me, k)->0;
        assert(s.contains(p));
        assert(members.contains((p, a)));
        lemma_one_domain(members, p, a);
        assert(parent_in(me, leader, members, radix) == Some(p));
        assert(w == seq![me] + path(s, p, k));
        let n = lemma_up_to_the_leader(p, leader, members, radix);
        assert(ancestor(me, leader, members, radix, n + 1) == ancestor(
            p,
            leader,
            members,
            radix,
            n,
        ));
        n + 1
    }
}

/// Every member's chain of parents leads to the leader, in no more steps than there are from the
/// member up to its domain's root and from there down to the leader: the tree has no cycle.
pub proof fn law_every_way_up_leads_to_the_leader<Id: Ord + Copy + Number, D>(
    me: Id,
    leader: Id,
    members: Seq<(Id, D)>,
    radix: usize,
)
    requires
        lawful::<Id>(),
        distinct(members),
        domain_of(members, me) is Some,
        domain_of(members, leader) is Some,
    ensures
        exists|n: nat|
            #![trigger ancestor(me, leader, members, radix, n)]
            ancestor(me, leader, members, radix, n) == Some(leader) && n < path(
                domain(members, domain_of(members, me)->0),
                me,
                base(radix),
            ).len() + path(
                domain(members, domain_of(members, leader)->0),
                leader,
                base(radix),
            ).len(),
{
    let n = lemma_up_to_the_leader(me, leader, members, radix);
    assert(ancestor(me, leader, members, radix, n) == Some(leader));
}

// ------------------------------------------------------------ another leader

/// A change of leader moves the domain roots, and the nodes on the two leaders' ways up; nobody
/// else.
pub proof fn law_a_leader_change_moves_gateways_and_two_paths<Id: Ord + Copy + Number, D>(
    me: Id,
    old_leader: Id,
    new_leader: Id,
    members: Seq<(Id, D)>,
    radix: usize,
)
    requires
        lawful::<Id>(),
        domain_of(members, me) is Some,
        domain_of(members, old_leader) is Some,
        domain_of(members, new_leader) is Some,
        me != lowest(domain(members, domain_of(members, me)->0)),
        domain_of(members, old_leader) == domain_of(members, me) ==> !path(
            domain(members, domain_of(members, me)->0),
            old_leader,
            base(radix),
        ).contains(me),
        domain_of(members, new_leader) == domain_of(members, me) ==> !path(
            domain(members, domain_of(members, me)->0),
            new_leader,
            base(radix),
        ).contains(me),
    ensures
        placed(me, new_leader, members, radix) == placed(me, old_leader, members, radix),
{
    let s = domain(members, domain_of(members, me)->0);
    let k = base(radix);
    if me == old_leader {
        lemma_member(members, old_leader);
        lemma_path(s, old_leader, k);
        assert(path(s, old_leader, k).contains(path(s, old_leader, k)[0]));
    }
    if me == new_leader {
        lemma_member(members, new_leader);
        lemma_path(s, new_leader, k);
        assert(path(s, new_leader, k).contains(path(s, new_leader, k)[0]));
    }
}

/// The domain roots follow the leader.
pub proof fn law_the_gateways_hang_under_the_leader<Id: Ord + Copy + Number, D>(
    me: Id,
    leader: Id,
    members: Seq<(Id, D)>,
    radix: usize,
)
    requires
        domain_of(members, me) is Some,
        domain_of(members, leader) is Some,
        domain_of(members, leader) != domain_of(members, me),
        me == lowest(domain(members, domain_of(members, me)->0)),
    ensures
        placed(me, leader, members, radix) == Some(Place::Under(leader)),
{
}

// ------------------------------------------------------------ leaving and joining

/// `fewer` are the members of `more` without `x`.
pub open spec fn without<Id, D>(more: Seq<(Id, D)>, fewer: Seq<(Id, D)>, x: Id) -> bool {
    &&& distinct(more)
    &&& distinct(fewer)
    &&& domain_of(more, x) is Some
    &&& forall|id: Id, d: D| #[trigger]
        fewer.contains((id, d)) <==> more.contains((id, d)) && id != x
}

proof fn lemma_without<Id, D>(more: Seq<(Id, D)>, fewer: Seq<(Id, D)>, x: Id, id: Id)
    requires
        without(more, fewer, x),
        id != x,
    ensures
        domain_of(fewer, id) == domain_of(more, id),
{
    lemma_domain_of(more, id);
    lemma_domain_of(fewer, id);
    if let Some(d) = domain_of(more, id) {
        assert(fewer.contains((id, d)));
        lemma_one_domain(fewer, id, d);
    } else if let Some(d) = domain_of(fewer, id) {
        assert(more.contains((id, d)));
    }
}

proof fn lemma_domain_without<Id, D>(more: Seq<(Id, D)>, fewer: Seq<(Id, D)>, x: Id, d: D)
    requires
        without(more, fewer, x),
    ensures
        domain(fewer, d) == domain(more, d).remove(x),
        domain_of(more, x) != Some(d) ==> domain(fewer, d) == domain(more, d),
{
    assert(domain(fewer, d) =~= domain(more, d).remove(x));
    if domain_of(more, x) != Some(d) {
        lemma_one_domain(more, x, d);
        assert(!domain(more, d).contains(x));
        assert(domain(fewer, d) =~= domain(more, d));
    }
}

/// A member that leaves, or joins, moves nobody outside its domain.
pub proof fn law_a_leave_moves_only_its_domain<Id: Ord + Copy + Number, D>(
    me: Id,
    leader: Id,
    more: Seq<(Id, D)>,
    fewer: Seq<(Id, D)>,
    x: Id,
    radix: usize,
)
    requires
        without(more, fewer, x),
        me != x,
        leader != x,
        domain_of(more, me) != domain_of(more, x),
    ensures
        placed(me, leader, fewer, radix) == placed(me, leader, more, radix),
{
    lemma_without(more, fewer, x, me);
    lemma_without(more, fewer, x, leader);
    if let Some(d) = domain_of(more, me) {
        lemma_domain_without(more, fewer, x, d);
    }
}

/// The id with a number is the only one with it.
proof fn lemma_numbered<Id: Ord + Copy + Number>(s: Set<Id>, id: Id)
    requires
        s.contains(id),
    ensures
        numbered(s, id.value() as nat) == Some(id),
{
    Id::told_by_number(numbered(s, id.value() as nat)->0, id);
}

/// Without `x`, whoever met it first on the way up meets next whoever `x` meets.
proof fn lemma_nearest_without<Id: Ord + Copy + Number>(s: Set<Id>, x: Id, v: nat, k: nat)
    requires
        s.contains(x),
    ensures
        nearest(s.remove(x), v, k) == if nearest(s, v, k) == Some(x) {
            nearest(s, x.value() as nat, k)
        } else {
            nearest(s, v, k)
        },
        v <= x.value() ==> nearest(s, v, k) != Some(x),
    decreases v,
{
    let r = s.remove(x);
    lemma_nearest(s, v, k);
    if v > 0 {
        let u = cleared(v, k);
        lemma_cleared(v, k);
        lemma_nearest_without(s, x, u, k);
        if u == x.value() {
            lemma_numbered(s, x);
            assert(numbered(r, u) is None) by {
                if numbered(r, u) is Some {
                    let y = numbered(r, u)->0;
                    assert(r.contains(y) && y.value() == u);
                    Id::told_by_number(y, x);
                }
            }
        } else {
            if let Some(y) = numbered(s, u) {
                assert(s.contains(y) && y.value() == u);
                assert(r.contains(y));
                lemma_numbered(r, y);
            } else {
                if let Some(y) = numbered(r, u) {
                    assert(r.contains(y) && y.value() == u);
                    assert(s.contains(y));
                }
            }
        }
    }
}

/// Without `x`, its children hang under its parent.
proof fn lemma_trie_without<Id: Ord + Copy + Number>(s: Set<Id>, x: Id, id: Id, k: nat)
    requires
        lawful::<Id>(),
        s.finite(),
        s.contains(x),
        s.contains(id),
        x != lowest(s),
        id != x,
    ensures
        lowest(s.remove(x)) == lowest(s),
        trie_parent(s.remove(x), id, k) == if trie_parent(s, id, k) == Some(x) {
            trie_parent(s, x, k)
        } else {
            trie_parent(s, id, k)
        },
{
    let r = s.remove(x);
    lemma_lowest(s);
    assert(r.contains(lowest(s)));
    lemma_lowest(r);
    assert(lowest(r) == lowest(s)) by {
        assert forall|y: Id| #[trigger] r.contains(y) implies y == lowest(s) || precedes(
            lowest(s),
            y,
        ) by {
            assert(s.contains(y));
        }
    }
    lemma_nearest_without(s, x, id.value() as nat, k);
}

/// Without `x`, a way up that came by it goes on without it.
proof fn lemma_path_without<Id: Ord + Copy + Number>(s: Set<Id>, x: Id, id: Id, k: nat)
    requires
        lawful::<Id>(),
        s.finite(),
        s.contains(x),
        s.contains(id),
        x != lowest(s),
        id != x,
    ensures
        !path(s, id, k).contains(x) ==> path(s.remove(x), id, k) == path(s, id, k),
        path(s, id, k).contains(x) ==> path(s.remove(x), id, k) == path(s, id, k).remove(
            path(s, id, k).index_of(x),
        ),
    decreases height(s, id),
{
    let r = s.remove(x);
    let w = path(s, id, k);
    let v = path(r, id, k);
    lemma_trie_without(s, x, id, k);
    lemma_lowest(s);
    lemma_path(s, id, k);
    lemma_nearest(s, id.value() as nat, k);
    assert(r.contains(id));
    match trie_parent(s, id, k) {
        None => {
            assert(w =~= seq![id]);
            assert(v =~= seq![id]);
        },
        Some(p) => {
            lemma_path(s, p, k);
            let wp = path(s, p, k);
            assert(w == seq![id] + wp);
            if p == x {
                // x is the second node of the way up.
                let q = trie_parent(s, x, k)->0;
                assert(trie_parent(s, x, k) is Some);
                lemma_nearest(s, x.value() as nat, k);
                lemma_path(s, q, k);
                let wq = path(s, q, k);
                assert(wp == seq![x] + wq);
                assert(w[1] == x);
                assert(w.contains(x));
                assert(w[w.index_of(x)] == x);
                assert(w.index_of(x) == 1);
                assert(q != x) by {
                    assert(wp[1] == wq[0]);
                }
                lemma_path_without(s, x, q, k);
                assert(!wq.contains(x)) by {
                    if wq.contains(x) {
                        let i = choose|i: int| 0 <= i < wq.len() && wq[i] == x;
                        assert(wp[i + 1] == x && wp[0] == x);
                    }
                }
                assert(trie_parent(r, id, k) == Some(q));
                lemma_nearest(r, id.value() as nat, k);
                assert(v == seq![id] + path(r, q, k));
                assert(w.remove(1) =~= seq![id] + wq);
            } else {
                lemma_path_without(s, x, p, k);
                lemma_nearest(r, id.value() as nat, k);
                assert(trie_parent(r, id, k) == Some(p));
                assert(v == seq![id] + path(r, p, k));
                if wp.contains(x) {
                    let j = wp.index_of(x);
                    assert(wp[j] == x);
                    assert(w[j + 1] == x);
                    assert(w.contains(x));
                    assert(w[w.index_of(x)] == x);
                    assert(w.index_of(x) == j + 1);
                    assert(v =~= w.remove(j + 1));
                } else {
                    assert(!w.contains(x)) by {
                        if w.contains(x) {
                            let i = choose|i: int| 0 <= i < w.len() && w[i] == x;
                            assert(i > 0);
                            assert(wp[i - 1] == x);
                        }
                    }
                }
            }
        },
    }
}

/// When a member other than the leader and its domain's root leaves, only its children move; when
/// one joins, only those move that become its children.
pub proof fn law_a_leave_moves_only_children<Id: Ord + Copy + Number, D>(
    me: Id,
    leader: Id,
    more: Seq<(Id, D)>,
    fewer: Seq<(Id, D)>,
    x: Id,
    radix: usize,
)
    requires
        lawful::<Id>(),
        without(more, fewer, x),
        me != x,
        leader != x,
        domain_of(more, me) is Some,
        domain_of(more, leader) is Some,
        x != lowest(domain(more, domain_of(more, x)->0)),
    ensures
        placed(me, leader, fewer, radix) == placed(me, leader, more, radix) || placed(
            me,
            leader,
            more,
            radix,
        ) == Some(Place::Under(x)),
{
    if domain_of(more, me) != domain_of(more, x) {
        law_a_leave_moves_only_its_domain(me, leader, more, fewer, x, radix);
    } else {
        let k = base(radix);
        let d = domain_of(more, x)->0;
        let s = domain(more, d);
        lemma_without(more, fewer, x, me);
        lemma_without(more, fewer, x, leader);
        lemma_domain_without(more, fewer, x, d);
        lemma_member(more, x);
        lemma_member(more, me);
        lemma_trie_without(s, x, me, k);
        if domain_of(more, leader) == Some(d) && me != leader {
            lemma_member(more, leader);
            lemma_path_without(s, x, leader, k);
            lemma_path(s, leader, k);
            let up = path(s, leader, k);
            let after = path(s.remove(x), leader, k);
            if up.contains(x) {
                let i = up.index_of(x);
                assert(up[i] == x);
                assert(after == up.remove(i));
                lemma_removed(up, i, me);
            }
        }
    }
}

/// A node's place among the others once one is taken out of the row.
proof fn lemma_removed<T>(s: Seq<T>, i: int, y: T)
    requires
        s.no_duplicates(),
        0 < i < s.len(),
        y != s[i],
        y != s[0],
    ensures
        s.remove(i).no_duplicates(),
        s.remove(i).contains(y) <==> s.contains(y),
        s.contains(y) && s[s.index_of(y) - 1] != s[i] ==> s.remove(i)[s.remove(i).index_of(y) - 1]
            == s[s.index_of(y) - 1],
        s.contains(y) && s[s.index_of(y) - 1] == s[i] ==> s.remove(i)[s.remove(i).index_of(y) - 1]
            == s[i - 1],
{
    let t = s.remove(i);
    assert forall|a: int, b: int| 0 <= a < t.len() && 0 <= b < t.len() && a != b implies t[a]
        != t[b] by {}
    if s.contains(y) {
        let j = s.index_of(y);
        assert(s[j] == y);
        if j < i {
            assert(t[j] == y);
            assert(t.contains(y));
            assert(t[t.index_of(y)] == y);
            assert(t.index_of(y) == j);
        } else {
            assert(t[j - 1] == y);
            assert(t.contains(y));
            assert(t[t.index_of(y)] == y);
            assert(t.index_of(y) == j - 1);
        }
    }
    if t.contains(y) {
        let j = choose|j: int| 0 <= j < t.len() && t[j] == y;
        if j < i {
            assert(s[j] == y);
        } else {
            assert(s[j + 1] == y);
        }
    }
}

/// The children of a member that leaves, off the leader's way up, move up to their grandparent;
/// those of one that joins are those that climbed past it.
pub proof fn law_a_leaver_s_children_move_to_their_grandparent<Id: Ord + Copy + Number, D>(
    me: Id,
    leader: Id,
    more: Seq<(Id, D)>,
    fewer: Seq<(Id, D)>,
    x: Id,
    radix: usize,
)
    requires
        lawful::<Id>(),
        without(more, fewer, x),
        me != x,
        leader != x,
        domain_of(more, me) is Some,
        domain_of(more, leader) is Some,
        x != lowest(domain(more, domain_of(more, x)->0)),
        domain_of(more, leader) == domain_of(more, x) ==> !path(
            domain(more, domain_of(more, x)->0),
            leader,
            base(radix),
        ).contains(x),
        placed(me, leader, more, radix) == Some(Place::Under(x)),
    ensures
        placed(me, leader, fewer, radix) == placed(x, leader, more, radix),
{
    let k = base(radix);
    let d = domain_of(more, x)->0;
    let s = domain(more, d);
    lemma_member(more, x);
    lemma_member(more, me);
    lemma_member(more, leader);
    lemma_without(more, fewer, x, me);
    lemma_without(more, fewer, x, leader);
    law_each_domain_is_entered_once(me, leader, more, radix);
    assert(domain_of(more, me) == domain_of(more, x));
    lemma_domain_without(more, fewer, x, d);
    lemma_trie_without(s, x, me, k);
    if domain_of(more, leader) == Some(d) {
        lemma_path_without(s, x, leader, k);
        lemma_path(s, leader, k);
        let up = path(s, leader, k);
        if up.contains(me) {
            let j = up.index_of(me);
            assert(up[j] == me);
            assert(up[j - 1] == x);
            assert(up.contains(x));
        }
        assert(up.contains(up.last()));
    }
}

// ------------------------------------------------------------ depth and fan-out

/// How many digits of a number are nonzero in base `k`.
pub open spec fn nonzero_digits(v: nat, k: nat) -> nat
    decreases v,
{
    if v == 0 || k < 2 {
        0
    } else {
        proof {
            lemma_div_decreases(v as int, k as int);
        }
        nonzero_digits(v / k, k) + if v % k != 0 {
            1nat
        } else {
            0
        }
    }
}

/// Clearing a digit leaves one nonzero digit less.
proof fn lemma_one_digit_less(v: nat, k: nat)
    requires
        v > 0,
        k >= 2,
    ensures
        nonzero_digits(v, k) == nonzero_digits(cleared(v, k), k) + 1,
    decreases v,
{
    let (q, m) = (v / k, v % k);
    lemma_div_decreases(v as int, k as int);
    lemma_fundamental_div_mod(v as int, k as int);
    if m != 0 {
        let c = cleared(v, k);
        assert(c == k * q);
        lemma_fundamental_div_mod_converse(
            c as int,
            k as int,
            q as int,
            0,
        );
        if c == 0 {
            assert(q == 0) by (nonlinear_arith)
                requires
                    k * q == 0,
                    k >= 2,
                    q >= 0,
            ;
        }
    } else {
        assert(q > 0) by {
            if q == 0 {
                assert(k * q == 0) by (nonlinear_arith)
                    requires
                        q == 0,
                ;
            }
        }
        lemma_one_digit_less(q, k);
        let r = cleared(q, k);
        let c = cleared(v, k);
        assert(c == k * r);
        lemma_fundamental_div_mod_converse(
            c as int,
            k as int,
            r as int,
            0,
        );
        if c == 0 {
            assert(r == 0) by (nonlinear_arith)
                requires
                    k * r == 0,
                    k >= 2,
                    r >= 0,
            ;
        }
    }
}

proof fn lemma_nearest_digits<Id: Number>(s: Set<Id>, v: nat, k: nat)
    requires
        k >= 2,
    ensures
        nearest(s, v, k) matches Some(a) ==> nonzero_digits(a.value() as nat, k) < nonzero_digits(
            v,
            k,
        ),
    decreases v,
{
    if v > 0 {
        lemma_cleared(v, k);
        lemma_one_digit_less(v, k);
        if numbered(s, cleared(v, k)) is None {
            lemma_nearest_digits(s, cleared(v, k), k);
        }
    }
}

/// From an id up to its domain's root there are no more steps than the id has nonzero digits,
/// where the lowest id has the lowest number; and never more than one step beyond that.
pub proof fn law_depth_is_bounded_by_nonzero_digits<Id: Ord + Copy + Number>(
    s: Set<Id>,
    id: Id,
    k: nat,
)
    requires
        lawful::<Id>(),
        s.finite(),
        s.contains(id),
        k >= 2,
    ensures
        path(s, id, k).len() - 1 <= nonzero_digits(id.value() as nat, k) + 1,
        (forall|x: Id| #[trigger] s.contains(x) ==> lowest(s).value() <= x.value()) ==> path(
            s,
            id,
            k,
        ).len() - 1 <= nonzero_digits(id.value() as nat, k),
    decreases height(s, id),
{
    let v = id.value() as nat;
    lemma_lowest(s);
    lemma_nearest(s, v, k);
    lemma_nearest_digits(s, v, k);
    if let Some(p) = trie_parent(s, id, k) {
        assert(path(s, id, k) == seq![id] + path(s, p, k));
        if nearest(s, v, k) is Some {
            law_depth_is_bounded_by_nonzero_digits(s, p, k);
        } else {
            assert(p == lowest(s));
            assert(path(s, p, k).len() == 1);
            if forall|x: Id| #[trigger] s.contains(x) ==> lowest(s).value() <= x.value() {
                if v == 0 {
                    Id::told_by_number(id, lowest(s));
                }
                lemma_one_digit_less(v, k);
            }
        }
    }
}

/// The numbers with at most `n` digits that become `x` by clearing one digit.
pub open spec fn one_digit_above(x: nat, k: nat, n: nat) -> Set<int> {
    Set::new(
        |v: int|
            0 < v < pow(k as int, n) && cleared(v as nat, k) == x,
    )
}

proof fn lemma_few_above(x: nat, k: nat, n: nat)
    requires
        k >= 2,
    ensures
        one_digit_above(x, k, n).finite(),
        one_digit_above(x, k, n).len() <= (k - 1) * n,
    decreases n,
{
    let all = one_digit_above(x, k, n);
    if n == 0 {
        lemma_pow0(k as int);
        assert(all =~= Set::empty());
    } else {
        let below = one_digit_above(x / k, k, (n - 1) as nat);
        lemma_few_above(x / k, k, (n - 1) as nat);
        let f = |v: int| k * v;
        let shifted = below.map(f);
        assert(injective_on(f, below)) by {
            assert forall|a: int, b: int|
                below.contains(a) && below.contains(b) && #[trigger] f(a) == #[trigger] f(
                    b,
                ) implies a == b by {
                assert(a == b) by (nonlinear_arith)
                    requires
                        k * a == k * b,
                        k >= 2,
                ;
            }
        }
        lemma_map_size(below, shifted, f);
        let near = set_int_range(x as int + 1, x as int + k as int);
        lemma_int_range(x as int + 1, x as int + k as int);
        lemma_pow1(k as int);
        lemma_pow_adds(k as int, 1, (n - 1) as nat);
        let top = pow(k as int, (n - 1) as nat);
        assert forall|v: int| #[trigger] all.contains(v) implies near.union(shifted).contains(
            v,
        ) by {
            let (q, m) = (v / k as int, v % k as int);
            lemma_fundamental_div_mod(v, k as int);
            assert(v as nat / k == q && v as nat % k == m);
            if m != 0 {
                assert(near.contains(v));
            } else {
                assert(q > 0) by (nonlinear_arith)
                    requires
                        v == k * q,
                        v > 0,
                        k >= 2,
                ;
                assert(q < top) by (nonlinear_arith)
                    requires
                        v == k * q,
                        v < k * top,
                        k >= 2,
                ;
                let r = cleared(q as nat, k);
                assert(x == k * r);
                lemma_fundamental_div_mod_converse(
                    x as int,
                    k as int,
                    r as int,
                    0,
                );
                assert(below.contains(q));
                assert(f(q) == v);
                assert(shifted.contains(v));
            }
        }
        lemma_len_union(near, shifted);
        lemma_len_subset(all, near.union(shifted));
        assert((k - 1) + (k - 1) * (n - 1) == (k - 1) * n) by (nonlinear_arith);
    }
}

/// Where ids have at most `digits` digits, at most `(radix - 1) * digits` of them have a given
/// node for their parent without climbing past an absent id.
pub proof fn law_few_children_climb_past_nobody<Id: Ord + Copy + Number>(
    s: Set<Id>,
    x: Id,
    k: nat,
    digits: nat,
)
    requires
        s.finite(),
        k >= 2,
        forall|id: Id| #[trigger]
            s.contains(id) ==> id.value() < pow(k as int, digits),
    ensures
        s.filter(|id: Id| id.value() > 0 && cleared(id.value() as nat, k) == x.value()).len() <= (k
            - 1) * digits,
{
    let kids = s.filter(|id: Id| id.value() > 0 && cleared(id.value() as nat, k) == x.value());
    let f = |id: Id| id.value() as int;
    let numbers = kids.map(f);
    assert(injective_on(f, kids)) by {
        assert forall|a: Id, b: Id|
            kids.contains(a) && kids.contains(b) && #[trigger] f(a) == #[trigger] f(
                b,
            ) implies a == b by {
            Id::told_by_number(a, b);
        }
    }
    lemma_len_subset(kids, s);
    lemma_map_size(kids, numbers, f);
    lemma_few_above(x.value() as nat, k, digits);
    assert(numbers.subset_of(one_digit_above(x.value() as nat, k, digits)));
    lemma_len_subset(numbers, one_digit_above(x.value() as nat, k, digits));
}

// ------------------------------------------------------------ subtrees

/// `c` is on `id`'s way up, `id` itself included.
pub open spec fn under<Id: Ord + Number, D>(
    id: Id,
    c: Id,
    leader: Id,
    members: Seq<(Id, D)>,
    radix: usize,
) -> bool {
    exists|n: nat| #[trigger] ancestor(id, leader, members, radix, n) == Some(c)
}

/// The members under `c`, itself included.
pub open spec fn subtree<Id: Ord + Number, D>(
    c: Id,
    leader: Id,
    members: Seq<(Id, D)>,
    radix: usize,
) -> Set<Id> {
    Set::new(|id: Id| ids_in(members).contains(id) && under(id, c, leader, members, radix))
}

proof fn lemma_no_more_ancestors<Id: Ord + Number, D>(
    id: Id,
    leader: Id,
    members: Seq<(Id, D)>,
    radix: usize,
    m: nat,
    n: nat,
)
    requires
        m <= n,
        ancestor(id, leader, members, radix, m) is None,
    ensures
        ancestor(id, leader, members, radix, n) is None,
    decreases m,
{
    if let Some(p) = parent_in(id, leader, members, radix) {
        lemma_no_more_ancestors(p, leader, members, radix, (m - 1) as nat, (n - 1) as nat);
    }
}

/// On a way up that leads to the leader nobody is met twice, and the leader is its end.
proof fn lemma_met_once<Id: Ord + Number, D>(
    id: Id,
    leader: Id,
    members: Seq<(Id, D)>,
    radix: usize,
    n: nat,
    i: nat,
    j: nat,
)
    requires
        ancestor(id, leader, members, radix, n) == Some(leader),
        i < j,
        ancestor(id, leader, members, radix, j) is Some,
    ensures
        ancestor(id, leader, members, radix, i) != ancestor(id, leader, members, radix, j),
        j <= n,
{
    assert(parent_in(leader, leader, members, radix) is None);
    assert(ancestor(leader, leader, members, radix, 1) is None);
    if j > n {
        lemma_ancestor_of_ancestor(id, leader, members, radix, n, 1);
        lemma_no_more_ancestors(id, leader, members, radix, n + 1, j);
    } else if ancestor(id, leader, members, radix, i) == ancestor(id, leader, members, radix, j) {
        let rest = (n - j) as nat;
        lemma_ancestor_of_ancestor(id, leader, members, radix, j, rest);
        lemma_ancestor_of_ancestor(id, leader, members, radix, i, rest);
        assert(ancestor(id, leader, members, radix, i + rest) == Some(leader));
        lemma_ancestor_of_ancestor(id, leader, members, radix, i + rest, 1);
        lemma_no_more_ancestors(id, leader, members, radix, i + rest + 1, n);
    }
}

proof fn lemma_ids<Id, D>(members: Seq<(Id, D)>, id: Id)
    ensures
        ids_in(members).contains(id) <==> domain_of(members, id) is Some,
{
    lemma_domain_of(members, id);
    if ids_in(members).contains(id) {
        let i = choose|i: int| 0 <= i < ids_in(members).len() && ids_in(members)[i] == id;
        assert(members[i] == (id, members[i].1));
        assert(members.contains((id, members[i].1)));
    }
    if let Some(d) = domain_of(members, id) {
        let i = choose|i: int| 0 <= i < members.len() && members[i] == (id, d);
        assert(ids_in(members)[i] == id);
    }
}

proof fn lemma_ancestors_are_members<Id: Ord + Copy + Number, D>(
    id: Id,
    leader: Id,
    members: Seq<(Id, D)>,
    radix: usize,
    n: nat,
)
    requires
        lawful::<Id>(),
        domain_of(members, id) is Some,
    ensures
        ancestor(id, leader, members, radix, n) matches Some(a) ==> domain_of(members, a) is Some,
    decreases n,
{
    if n > 0 {
        if let Some(p) = parent_in(id, leader, members, radix) {
            law_a_parent_is_another_member(id, leader, members, radix);
            lemma_ancestors_are_members(p, leader, members, radix, (n - 1) as nat);
        }
    }
}

/// A way up has no more nodes than there are members.
proof fn lemma_short_way<Id: Ord + Copy + Number, D>(
    id: Id,
    leader: Id,
    members: Seq<(Id, D)>,
    radix: usize,
    n: nat,
)
    requires
        lawful::<Id>(),
        domain_of(members, id) is Some,
        ancestor(id, leader, members, radix, n) == Some(leader),
    ensures
        n < members.len(),
{
    let way = Seq::new(n + 1, |i: int| ancestor(id, leader, members, radix, i as nat)->0);
    let ids = ids_in(members);
    assert forall|i: int| 0 <= i <= n implies #[trigger] ancestor(
        id,
        leader,
        members,
        radix,
        i as nat,
    ) is Some by {
        if ancestor(id, leader, members, radix, i as nat) is None {
            lemma_no_more_ancestors(id, leader, members, radix, i as nat, n);
        }
    }
    assert forall|i: int, j: int| 0 <= i < way.len() && 0 <= j < way.len() && i != j implies way[i]
        != way[j] by {
        assert(ancestor(id, leader, members, radix, i as nat) is Some);
        assert(ancestor(id, leader, members, radix, j as nat) is Some);
        if i < j {
            lemma_met_once(id, leader, members, radix, n, i as nat, j as nat);
        } else {
            lemma_met_once(id, leader, members, radix, n, j as nat, i as nat);
        }
    }
    assert(way.no_duplicates());
    way.unique_seq_to_set();
    assert(way.to_set().subset_of(ids.to_set())) by {
        assert forall|a: Id| way.to_set().contains(a) implies ids.to_set().contains(a) by {
            let i = choose|i: int| 0 <= i < way.len() && way[i] == a;
            assert(ancestor(id, leader, members, radix, i as nat) is Some);
            lemma_ancestors_are_members(id, leader, members, radix, i as nat);
            lemma_ids(members, a);
        }
    }
    ids.lemma_cardinality_of_set();
    seq_to_set_is_finite(ids);
    lemma_len_subset(way.to_set(), ids.to_set());
}

/// A way up that leads to the leader comes by `c` once or never.
proof fn lemma_visits<Id: Ord + Copy + Number, D>(
    id: Id,
    c: Id,
    leader: Id,
    members: Seq<(Id, D)>,
    radix: usize,
    n: nat,
    hops: nat,
)
    requires
        ancestor(id, leader, members, radix, n) == Some(leader),
        hops > n,
    ensures
        visits(Some(id), c, leader, members, radix, hops) == if under(
            id,
            c,
            leader,
            members,
            radix,
        ) {
            1nat
        } else {
            0
        },
    decreases n,
{
    assert(parent_in(leader, leader, members, radix) is None);
    if id == c {
        assert(ancestor(id, leader, members, radix, 0) == Some(c));
    }
    match parent_in(id, leader, members, radix) {
        None => {
            assert(visits(None::<Id>, c, leader, members, radix, (hops - 1) as nat) == 0);
            if under(id, c, leader, members, radix) {
                let m = choose|m: nat| #[trigger] ancestor(id, leader, members, radix, m) == Some(c);
                if m > 0 {
                    assert(ancestor(id, leader, members, radix, m) is None);
                }
            }
        },
        Some(p) => {
            assert(n > 0) by {
                if n == 0 {
                    assert(id == leader);
                }
            }
            lemma_visits(p, c, leader, members, radix, (n - 1) as nat, (hops - 1) as nat);
            if under(p, c, leader, members, radix) {
                let m = choose|m: nat| #[trigger] ancestor(p, leader, members, radix, m) == Some(c);
                assert(ancestor(id, leader, members, radix, m + 1) == Some(c));
                if id == c {
                    lemma_met_once(id, leader, members, radix, n, 0, m + 1);
                }
            }
            if under(id, c, leader, members, radix) && id != c {
                let m = choose|m: nat| #[trigger] ancestor(id, leader, members, radix, m) == Some(c);
                assert(m > 0);
                assert(ancestor(p, leader, members, radix, (m - 1) as nat) == Some(c));
            }
        },
    }
}

proof fn lemma_count<T>(s: Set<T>, f: spec_fn(T) -> nat, p: spec_fn(T) -> bool)
    requires
        s.finite(),
        forall|x: T|
            s.contains(x) ==> #[trigger] f(x) == if p(x) {
                1nat
            } else {
                0
            },
    ensures
        s.filter(p).finite(),
        sum_over(s, f) == s.filter(p).len(),
    decreases s.len(),
{
    if s.len() > 0 {
        let x = s.choose();
        let r = s.remove(x);
        lemma_count(r, f, p);
        assert(f(x) == if p(x) {
            1nat
        } else {
            0
        });
        if p(x) {
            assert(s.filter(p) =~= r.filter(p).insert(x));
        } else {
            assert(s.filter(p) =~= r.filter(p));
        }
    } else {
        assert(s =~= Set::empty());
        assert(s.filter(p) =~= Set::empty());
    }
}

proof fn lemma_filter_distinct<T>(s: Seq<T>, p: spec_fn(T) -> bool)
    requires
        s.no_duplicates(),
    ensures
        s.filter(p).no_duplicates(),
        forall|x: T| s.filter(p).contains(x) <==> s.contains(x) && p(x),
    decreases s.len(),
{
    if s.len() > 0 {
        let r = s.drop_last();
        let y = s.last();
        assert(s =~= r.push(y));
        assert forall|i: int, j: int| 0 <= i < r.len() && 0 <= j < r.len() && i != j implies r[i]
            != r[j] by {
            assert(r[i] == s[i] && r[j] == s[j]);
        }
        lemma_filter_distinct(r, p);
        lemma_filter_push(r, y, p);
        let f = r.filter(p);
        let g = s.filter(p);
        assert(!r.contains(y)) by {
            if r.contains(y) {
                let i = choose|i: int| 0 <= i < r.len() && r[i] == y;
                assert(s[i] == s[s.len() - 1]);
            }
        }
        assert forall|x: T| g.contains(x) <==> s.contains(x) && p(x) by {
            assert(s.contains(x) <==> r.contains(x) || x == y) by {
                if r.contains(x) {
                    let i = choose|i: int| 0 <= i < r.len() && r[i] == x;
                    assert(s[i] == x);
                }
                assert(s[s.len() - 1] == y);
            }
            if f.contains(x) {
                let i = choose|i: int| 0 <= i < f.len() && f[i] == x;
                assert(g[i] == x);
            }
            if p(y) {
                assert(g[f.len() as int] == y);
            }
        }
        assert forall|i: int, j: int| 0 <= i < g.len() && 0 <= j < g.len() && i != j implies g[i]
            != g[j] by {
            if p(y) {
                if i < f.len() && j < f.len() {
                    assert(g[i] == f[i] && g[j] == f[j]);
                } else if i < f.len() {
                    assert(f.contains(f[i]));
                } else {
                    assert(f.contains(f[j]));
                }
            }
        }
    } else {
        reveal(Seq::filter);
    }
}

/// The weights of a node's children are the sizes of their subtrees.
pub proof fn law_weights_are_subtree_sizes<Id: Ord + Copy + Number, D>(
    me: Id,
    leader: Id,
    members: Seq<(Id, D)>,
    radix: usize,
)
    requires
        lawful::<Id>(),
        distinct(members),
        domain_of(members, leader) is Some,
    ensures
        ({
            let kids = children_in(me, leader, members, radix);
            let w = weighed(me, leader, members, radix);
            &&& kids.no_duplicates()
            &&& forall|c: Id|
                kids.contains(c) <==> ids_in(members).contains(c) && parent_in(
                    c,
                    leader,
                    members,
                    radix,
                ) == Some(me)
            &&& w.len() == kids.len()
            &&& forall|j: int|
                0 <= j < kids.len() ==> {
                    &&& (#[trigger] w[j]).0 == kids[j]
                    &&& subtree(kids[j], leader, members, radix).finite()
                    &&& w[j].1 == clip(subtree(kids[j], leader, members, radix).len() as int)
                }
        }),
{
    let ids = ids_in(members);
    let kids = children_in(me, leader, members, radix);
    let w = weighed(me, leader, members, radix);
    assert(ids.no_duplicates()) by {
        assert forall|i: int, j: int| 0 <= i < ids.len() && 0 <= j < ids.len() && i != j implies ids[i]
            != ids[j] by {
            if i < j {
                assert(members[i].0 != members[j].0);
            } else {
                assert(members[j].0 != members[i].0);
            }
        }
    }
    lemma_filter_distinct(ids, hanging(me, leader, members, radix));
    assert forall|j: int| 0 <= j < kids.len() implies {
        &&& (#[trigger] w[j]).0 == kids[j]
        &&& subtree(kids[j], leader, members, radix).finite()
        &&& w[j].1 == clip(subtree(kids[j], leader, members, radix).len() as int)
    } by {
        let c = kids[j];
        assert(!kids.take(j).contains(c)) by {
            if kids.take(j).contains(c) {
                let i = choose|i: int| 0 <= i < j && kids.take(j)[i] == c;
                assert(kids[i] == kids[j]);
            }
        }
        let f = visiting(c, leader, members, radix);
        let p = |id: Id| under(id, c, leader, members, radix);
        lemma_sum_listing(ids, f);
        seq_to_set_is_finite(ids);
        assert forall|id: Id| ids.to_set().contains(id) implies #[trigger] f(id) == if p(id) {
            1nat
        } else {
            0
        } by {
            lemma_ids(members, id);
            let n = lemma_up_to_the_leader(id, leader, members, radix);
            lemma_short_way(id, leader, members, radix, n);
            lemma_visits(id, c, leader, members, radix, n, members.len() + 1);
        }
        lemma_count(ids.to_set(), f, p);
        assert(ids.to_set().filter(p) =~= subtree(c, leader, members, radix));
    }
}

/// Every member but the leader is under exactly one child of the leader.
pub proof fn law_everyone_is_under_one_child_of_the_leader<Id: Ord + Copy + Number, D>(
    id: Id,
    leader: Id,
    members: Seq<(Id, D)>,
    radix: usize,
)
    requires
        lawful::<Id>(),
        distinct(members),
        domain_of(members, id) is Some,
        domain_of(members, leader) is Some,
        id != leader,
    ensures
        exists|c: Id| #[trigger]
            under(id, c, leader, members, radix) && parent_in(c, leader, members, radix) == Some(
                leader,
            ),
        forall|b: Id, c: Id| #[trigger]
            under(id, b, leader, members, radix) && #[trigger] under(
                id,
                c,
                leader,
                members,
                radix,
            ) && parent_in(b, leader, members, radix) == Some(leader) && parent_in(
                c,
                leader,
                members,
                radix,
            ) == Some(leader) ==> b == c,
{
    let n = lemma_up_to_the_leader(id, leader, members, radix);
    assert(n > 0) by {
        if n == 0 {
            assert(id == leader);
        }
    }
    let m = (n - 1) as nat;
    if ancestor(id, leader, members, radix, m) is None {
        lemma_no_more_ancestors(id, leader, members, radix, m, n);
    }
    let c = ancestor(id, leader, members, radix, m)->0;
    lemma_ancestor_of_ancestor(id, leader, members, radix, m, 1);
    lemma_first_step(c, leader, members, radix);
    assert(under(id, c, leader, members, radix));
    assert forall|b: Id, c: Id| #[trigger]
        under(id, b, leader, members, radix) && #[trigger] under(id, c, leader, members, radix)
            && parent_in(b, leader, members, radix) == Some(leader) && parent_in(
            c,
            leader,
            members,
            radix,
        ) == Some(leader) implies b == c by {
        let i = choose|i: nat| #[trigger] ancestor(id, leader, members, radix, i) == Some(b);
        let j = choose|j: nat| #[trigger] ancestor(id, leader, members, radix, j) == Some(c);
        lemma_ancestor_of_ancestor(id, leader, members, radix, i, 1);
        lemma_ancestor_of_ancestor(id, leader, members, radix, j, 1);
        lemma_first_step(b, leader, members, radix);
        lemma_first_step(c, leader, members, radix);
        if i < j {
            lemma_met_once(id, leader, members, radix, n, i + 1, j + 1);
        } else if j < i {
            lemma_met_once(id, leader, members, radix, n, j + 1, i + 1);
        }
    }
}

proof fn lemma_first_step<Id: Ord + Number, D>(
    id: Id,
    leader: Id,
    members: Seq<(Id, D)>,
    radix: usize,
)
    ensures
        ancestor(id, leader, members, radix, 1) == parent_in(id, leader, members, radix),
{
    if let Some(p) = parent_in(id, leader, members, radix) {
        assert(ancestor(p, leader, members, radix, 0) == Some(p));
    }
}

} // verus!

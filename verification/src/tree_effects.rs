//! What the tree over a cluster view is, in plain numbers: digits, listings and ways up.
use crate::effects::capped;
use crate::order::lawful;
use crate::order::lemma_filter_push;
use crate::order::precedes;
use crate::order::sum_along;
use crate::tree::Number;
use crate::tree::Place;
use crate::tree::base;
use crate::tree::children_in;
use crate::tree::cleared;
use crate::tree::domain;
use crate::tree::domain_of;
use crate::tree::hanging;
use crate::tree::ids_in;
use crate::tree::lemma_cleared;
use crate::tree::lemma_lowest;
use crate::tree::lemma_path;
use crate::tree::lemma_path_from;
use crate::tree::lowest;
use crate::tree::nearest;
use crate::tree::parent_in;
use crate::tree::path;
use crate::tree::placed;
use crate::tree::trie_parent;
use crate::tree::visiting;
use crate::tree::visits;
use crate::tree::weighed;
use crate::tree_laws::lemma_domain_finite;
use vstd::arithmetic::div_mod::lemma_div_decreases;
use vstd::arithmetic::div_mod::lemma_fundamental_div_mod;
use vstd::arithmetic::div_mod::lemma_fundamental_div_mod_converse;
use vstd::arithmetic::div_mod::lemma_fundamental_div_mod_converse_mod;
use vstd::arithmetic::div_mod::lemma_small_mod;
use vstd::arithmetic::power::lemma_pow0;
use vstd::arithmetic::power::lemma_pow1;
use vstd::arithmetic::power::lemma_pow_adds;
use vstd::arithmetic::power::lemma_pow_positive;
use vstd::arithmetic::power::pow;
use vstd::prelude::*;

verus! {

// ------------------------------------------------------------ digits

/// `v` with its lowest `e` digits in base `k` set to zero.
pub open spec fn rounded(v: int, k: int, e: nat) -> int {
    v - v % pow(k, e)
}

/// `u` is `v` with some of its lowest digits in base `k` set to zero, and another number.
pub open spec fn stem(u: int, v: int, k: int) -> bool {
    u < v && exists|e: nat| u == #[trigger] rounded(v, k, e)
}

/// Setting digits to zero commutes with a shift by one digit.
proof fn lemma_rounded_shift(q: int, k: int, e: nat)
    requires
        k >= 2,
        q >= 0,
    ensures
        rounded(k * q, k, e + 1) == k * rounded(q, k, e),
        k * rounded(q, k, e) >= 0,
{
    let m = pow(k, e);
    lemma_pow_positive(k, e);
    lemma_pow1(k);
    lemma_pow_adds(k, 1, e);
    assert(pow(k, e + 1) == k * m);
    let (a, r) = (q / m, q % m);
    lemma_fundamental_div_mod(q, m);
    assert(k * q == a * (k * m) + k * r) by (nonlinear_arith)
        requires
            q == m * a + r,
    ;
    assert(0 <= k * r < k * m) by (nonlinear_arith)
        requires
            0 <= r < m,
            k >= 2,
    ;
    assert(k * m > 0) by (nonlinear_arith)
        requires
            k >= 2,
            m > 0,
    ;
    lemma_fundamental_div_mod_converse_mod(k * q, k * m, a, k * r);
    assert(k * q - k * r == k * (q - r)) by (nonlinear_arith);
    assert(q - r >= 0) by (nonlinear_arith)
        requires
            q == m * a + r,
            q >= 0,
            m > 0,
            0 <= r < m,
    ;
    assert(k * (q - r) >= 0) by (nonlinear_arith)
        requires
            k >= 2,
            q - r >= 0,
    ;
}

/// The lowest digit does not matter once it is set to zero.
proof fn lemma_rounded_last(q: int, d: int, k: int, e: nat)
    requires
        k >= 2,
        q >= 0,
        0 <= d < k,
    ensures
        rounded(k * q + d, k, e + 1) == rounded(k * q, k, e + 1),
{
    let m = pow(k, e);
    lemma_pow_positive(k, e);
    lemma_pow1(k);
    lemma_pow_adds(k, 1, e);
    let (a, r) = (q / m, q % m);
    lemma_fundamental_div_mod(q, m);
    lemma_rounded_shift(q, k, e);
    assert(k * q + d == a * (k * m) + (k * r + d)) by (nonlinear_arith)
        requires
            q == m * a + r,
    ;
    assert(0 <= k * r + d < k * m) by (nonlinear_arith)
        requires
            0 <= r <= m - 1,
            0 <= d < k,
            k >= 2,
    ;
    lemma_fundamental_div_mod_converse_mod(k * q + d, k * m, a, k * r + d);
    assert(k * q - k * r == k * (q - r)) by (nonlinear_arith);
}

/// Setting lowest digits to zero leaves a number as it is, or does the same to it as to the number
/// with its lowest nonzero digit cleared; and what it does to that it does to the number.
proof fn lemma_rounded(v: nat, k: nat, e: nat) -> (f: nat)
    requires
        v > 0,
        k >= 2,
    ensures
        rounded(v as int, k as int, e) == v || rounded(v as int, k as int, e) == rounded(
            cleared(v, k) as int,
            k as int,
            e,
        ),
        rounded(cleared(v, k) as int, k as int, e) == rounded(v as int, k as int, f),
    decreases v,
{
    let (q, d) = (v as int / k as int, v as int % k as int);
    let c = cleared(v, k);
    lemma_fundamental_div_mod(v as int, k as int);
    lemma_div_decreases(v as int, k as int);
    lemma_pow0(k as int);
    lemma_pow1(k as int);
    assert(rounded(v as int, k as int, 0) == v);
    assert(rounded(c as int, k as int, 0) == c);
    if d != 0 {
        assert(c == k * q);
        if e == 0 {
            1
        } else {
            lemma_rounded_last(q, d, k as int, (e - 1) as nat);
            e
        }
    } else {
        assert(q > 0) by (nonlinear_arith)
            requires
                v == k * q,
                v > 0,
                k >= 2,
        ;
        let b = cleared(q as nat, k);
        assert(c == k * b);
        if e == 0 {
            let f = lemma_rounded(q as nat, k, 0);
            assert(rounded(b as int, k as int, 0) == b);
            lemma_rounded_shift(q, k as int, f);
            f + 1
        } else {
            let g = (e - 1) as nat;
            let f = lemma_rounded(q as nat, k, g);
            lemma_rounded_shift(q, k as int, g);
            lemma_rounded_shift(b as int, k as int, g);
            lemma_rounded_shift(q, k as int, f);
            f + 1
        }
    }
}

/// The stems of a number are the number with its lowest nonzero digit cleared, and the stems of
/// that.
proof fn lemma_stem(u: int, v: nat, k: nat)
    requires
        v > 0,
        k >= 2,
    ensures
        stem(u, v as int, k as int) <==> u == cleared(v, k) || stem(
            u,
            cleared(v, k) as int,
            k as int,
        ),
{
    let c = cleared(v, k);
    lemma_cleared(v, k);
    if stem(u, v as int, k as int) {
        let e = choose|e: nat| u == #[trigger] rounded(v as int, k as int, e);
        let f = lemma_rounded(v, k, e);
        assert(u == rounded(c as int, k as int, e));
        assert(u <= c) by {
            lemma_pow_positive(k as int, e);
            assert(c as int % pow(k as int, e) >= 0) by {
                lemma_fundamental_div_mod(c as int, pow(k as int, e));
            }
        }
    }
    if u == c {
        lemma_pow0(k as int);
        let f = lemma_rounded(v, k, 0);
        assert(u == rounded(v as int, k as int, f));
    }
    if stem(u, c as int, k as int) {
        let e = choose|e: nat| u == #[trigger] rounded(c as int, k as int, e);
        let f = lemma_rounded(v, k, e);
        assert(u == rounded(v as int, k as int, f));
    }
}

proof fn lemma_nearest_stem<Id: Number>(s: Set<Id>, v: nat, k: nat)
    requires
        k >= 2,
    ensures
        match nearest(s, v, k) {
            Some(a) => {
                &&& s.contains(a)
                &&& stem(a.value() as int, v as int, k as int)
                &&& forall|x: Id| #[trigger]
                    s.contains(x) && stem(x.value() as int, v as int, k as int) ==> x.value()
                        <= a.value()
            },
            None => forall|x: Id| #[trigger]
                s.contains(x) ==> !stem(x.value() as int, v as int, k as int),
        },
    decreases v,
{
    if v > 0 {
        let c = cleared(v, k);
        lemma_cleared(v, k);
        lemma_nearest_stem(s, c, k);
        assert forall|x: Id| #[trigger] s.contains(x) implies (stem(
            x.value() as int,
            v as int,
            k as int,
        ) <==> x.value() == c || stem(x.value() as int, c as int, k as int)) by {
            lemma_stem(x.value() as int, v, k);
        }
    } else {
        assert forall|x: Id| #[trigger] s.contains(x) implies !stem(
            x.value() as int,
            v as int,
            k as int,
        ) by {}
    }
}

/// An id of an unsigned type is its own number.
pub proof fn law_an_id_is_its_own_number(a: u8, b: u16, c: u32, d: u64)
    ensures
        a.value() == a,
        b.value() == b,
        c.value() == c,
        d.value() == d,
{
}

// ------------------------------------------------------------ a domain

/// `id` lives in `d`: the view lists it with that domain, and with no other before.
pub open spec fn lives<Id, D>(members: Seq<(Id, D)>, id: Id, d: D) -> bool {
    exists|i: int|
        0 <= i < members.len() && #[trigger] members[i] == (id, d) && forall|j: int|
            0 <= j < i ==> (#[trigger] members[j]).0 != id
}

/// `r` is the lowest of all that the view lists with `d`.
pub open spec fn heads<Id: Ord, D>(members: Seq<(Id, D)>, r: Id, d: D) -> bool {
    &&& members.contains((r, d))
    &&& forall|x: Id| #[trigger] members.contains((x, d)) ==> x == r || precedes(r, x)
}

proof fn lemma_lives<Id, D>(members: Seq<(Id, D)>, id: Id, d: D)
    ensures
        lives(members, id, d) <==> domain_of(members, id) == Some(d),
    decreases members.len(),
{
    if members.len() > 0 {
        let rest = members.drop_first();
        lemma_lives(rest, id, d);
        if members[0].0 == id {
            if lives(members, id, d) {
                let i = choose|i: int|
                    0 <= i < members.len() && #[trigger] members[i] == (id, d) && forall|j: int|
                        0 <= j < i ==> (#[trigger] members[j]).0 != id;
                if i > 0 {
                    assert(members[0].0 != id);
                }
            }
            if members[0].1 == d {
                assert(members[0] == (id, d));
            }
        } else {
            if lives(members, id, d) {
                let i = choose|i: int|
                    0 <= i < members.len() && #[trigger] members[i] == (id, d) && forall|j: int|
                        0 <= j < i ==> (#[trigger] members[j]).0 != id;
                assert(i > 0);
                assert(rest[i - 1] == (id, d));
                assert forall|j: int| 0 <= j < i - 1 implies (#[trigger] rest[j]).0 != id by {
                    assert(rest[j] == members[j + 1]);
                }
            }
            if lives(rest, id, d) {
                let i = choose|i: int|
                    0 <= i < rest.len() && #[trigger] rest[i] == (id, d) && forall|j: int|
                        0 <= j < i ==> (#[trigger] rest[j]).0 != id;
                assert(members[i + 1] == (id, d));
                assert forall|j: int| 0 <= j < i + 1 implies (#[trigger] members[j]).0 != id by {
                    if j > 0 {
                        assert(members[j] == rest[j - 1]);
                    }
                }
            }
        }
    }
}

proof fn lemma_heads<Id: Ord + Copy + Number, D>(members: Seq<(Id, D)>, r: Id, d: D)
    requires
        lawful::<Id>(),
        heads(members, r, d),
    ensures
        r == lowest(domain(members, d)),
        domain(members, d).finite(),
        domain(members, d).contains(r),
{
    let s = domain(members, d);
    lemma_domain_finite(members, d);
    assert(s.contains(r));
    lemma_lowest(s);
    assert forall|x: Id| #[trigger] s.contains(x) implies x == r || precedes(r, x) by {
        assert(members.contains((x, d)));
    }
}

// ------------------------------------------------------------ places

/// A radix below two is taken for two.
pub proof fn law_the_least_radix_is_two<Id: Ord + Copy + Number, D>(
    me: Id,
    leader: Id,
    members: Seq<(Id, D)>,
    radix: usize,
)
    requires
        radix < 2,
    ensures
        placed(me, leader, members, radix) == placed(me, leader, members, 2),
        weighed(me, leader, members, radix) == weighed(me, leader, members, 2),
{
    assert forall|id: Id|
        parent_in(id, leader, members, radix) == parent_in(id, leader, members, 2) by {}
    let (p, p2) = (
        hanging(me, leader, members, radix),
        hanging(me, leader, members, 2),
    );
    assert(p =~= p2);
    assert forall|at: Option<Id>, c: Id, hops: nat| #[trigger]
        visits(at, c, leader, members, radix, hops) == visits(
            at,
            c,
            leader,
            members,
            2,
            hops,
        ) by {
        lemma_visits_alike(at, c, leader, members, radix, hops);
    }
    assert forall|c: Id| #[trigger]
        visiting(c, leader, members, radix) == visiting(
            c,
            leader,
            members,
            2,
        ) by {
        assert(visiting(c, leader, members, radix) =~= visiting(
            c,
            leader,
            members,
            2,
        ));
    }
    assert(weighed(me, leader, members, radix) =~= weighed(me, leader, members, 2));
}

proof fn lemma_visits_alike<Id: Ord + Copy + Number, D>(
    at: Option<Id>,
    c: Id,
    leader: Id,
    members: Seq<(Id, D)>,
    radix: usize,
    hops: nat,
)
    requires
        radix < 2,
    ensures
        visits(at, c, leader, members, radix, hops) == visits(
            at,
            c,
            leader,
            members,
            2,
            hops,
        ),
    decreases hops,
{
    if hops > 0 {
        if let Some(x) = at {
            lemma_visits_alike(
                parent_in(x, leader, members, radix),
                c,
                leader,
                members,
                radix,
                (hops - 1) as nat,
            );
        }
    }
}

/// Under its domain's lowest id as the leader, a member's parent is the one with the greatest
/// number, of all that are listed with its domain, that is its own number with lowest digits in
/// base `radix` set to zero. Where there is none, it is the domain's lowest id.
pub proof fn law_at_home_a_parent_is_a_stem<Id: Ord + Copy + Number, D>(
    me: Id,
    root: Id,
    d: D,
    members: Seq<(Id, D)>,
    radix: usize,
)
    requires
        lawful::<Id>(),
        radix >= 2,
        lives(members, me, d),
        lives(members, root, d),
        heads(members, root, d),
    ensures
        me == root ==> placed(me, root, members, radix) == Some(Place::<Id>::Root),
        me != root ==> (placed(me, root, members, radix) matches Some(Place::Under(p)) && {
            let v = me.value() as int;
            let k = radix as int;
            &&& members.contains((p, d))
            &&& stem(p.value() as int, v, k) ==> forall|x: Id| #[trigger]
                members.contains((x, d)) && stem(x.value() as int, v, k) ==> x.value() <= p.value()
            &&& !stem(p.value() as int, v, k) ==> p == root && forall|x: Id| #[trigger]
                members.contains((x, d)) ==> !stem(x.value() as int, v, k)
        }),
{
    let s = domain(members, d);
    let k = base(radix);
    lemma_lives(members, me, d);
    lemma_lives(members, root, d);
    lemma_heads(members, root, d);
    if me != root {
        lemma_path(s, root, k);
        assert(trie_parent(s, root, k) is None);
        assert(path(s, root, k) == seq![root]);
        assert(!path(s, root, k).contains(me));
        lemma_nearest_stem(s, me.value() as nat, k);
        let p = trie_parent(s, me, k)->0;
        assert(placed(me, root, members, radix) == Some(Place::Under(p)));
        assert(s.contains(p));
        assert forall|x: Id| #[trigger] members.contains((x, d)) implies s.contains(x) by {}
        if nearest(s, me.value() as nat, k) is None {
            assert(!stem(p.value() as int, me.value() as int, radix as int)) by {
                assert(s.contains(p));
            }
        }
    }
}

/// A member whose number, with the one digit cleared that is its lowest that is not zero in base
/// `radix`, is that of another listed with its domain, has that one for its parent at home; and
/// one below `radix`, where nobody in its domain has number zero, hangs under the lowest.
pub proof fn law_a_digit_is_cleared_in_base_radix<Id: Ord + Copy + Number, D>(
    me: Id,
    root: Id,
    d: D,
    members: Seq<(Id, D)>,
    radix: usize,
    other: Id,
    high: int,
    digit: int,
    e: nat,
)
    requires
        lawful::<Id>(),
        radix >= 2,
        lives(members, me, d),
        lives(members, root, d),
        heads(members, root, d),
        me != root,
        high >= 0,
        0 < digit < radix,
        me.value() == (high * radix + digit) * pow(radix as int, e),
    ensures
        members.contains((other, d)) && other.value() == high * radix * pow(radix as int, e)
            ==> placed(me, root, members, radix) == Some(Place::Under(other)),
        me.value() < radix && (forall|x: Id| #[trigger]
            members.contains((x, d)) ==> x.value() != 0) ==> placed(me, root, members, radix)
            == Some(Place::Under(root)),
{
    law_at_home_a_parent_is_a_stem(me, root, d, members, radix);
    let v = me.value() as int;
    let k = radix as int;
    let p = placed(me, root, members, radix)->0->0;
    lemma_cleared_digit(high, digit, k, e);
    let c = high * k * pow(k, e);
    assert(v > 0) by {
        lemma_pow_positive(k, e);
        assert((high * k + digit) * pow(k, e) > 0) by (nonlinear_arith)
            requires
                high >= 0,
                digit > 0,
                k >= 2,
                pow(k, e) > 0,
        ;
    }
    assert(cleared(v as nat, k as nat) == c);
    if members.contains((other, d)) && other.value() == c {
        lemma_stem(c, v as nat, k as nat);
        assert(stem(other.value() as int, v, k));
        assert(stem(p.value() as int, v, k));
        assert(p.value() >= other.value());
        lemma_stem(p.value() as int, v as nat, k as nat);
        Id::told_by_number(p, other);
    }
    if v < k && (forall|x: Id| #[trigger] members.contains((x, d)) ==> x.value() != 0) {
        if stem(p.value() as int, v, k) {
            lemma_stem(p.value() as int, v as nat, k as nat);
            lemma_small(v as nat, k as nat);
            assert(p.value() != 0);
            assert(!stem(p.value() as int, 0, k));
        }
    }
}

proof fn lemma_small(v: nat, k: nat)
    requires
        0 < v < k,
        k >= 2,
    ensures
        cleared(v, k) == 0,
{
    lemma_small_mod(v, k);
}

/// What clearing the lowest nonzero digit does, written out.
proof fn lemma_cleared_digit(high: int, digit: int, k: int, e: nat)
    requires
        k >= 2,
        high >= 0,
        0 < digit < k,
    ensures
        (high * k + digit) * pow(k, e) > 0,
        high * k * pow(k, e) >= 0,
        cleared(((high * k + digit) * pow(k, e)) as nat, k as nat) == high * k * pow(k, e),
    decreases e,
{
    let x = high * k + digit;
    assert(x > 0 && high * k >= 0) by (nonlinear_arith)
        requires
            x == high * k + digit,
            high >= 0,
            digit > 0,
            k >= 2,
    ;
    if e == 0 {
        lemma_pow0(k);
        assert(x * 1 == x && high * k * 1 == high * k);
        lemma_fundamental_div_mod_converse_mod(x, k, high, digit);
        assert(x as nat % k as nat == digit);
    } else {
        let g = (e - 1) as nat;
        let m = pow(k, g);
        lemma_cleared_digit(high, digit, k, g);
        lemma_pow1(k);
        lemma_pow_adds(k, 1, g);
        lemma_pow_positive(k, g);
        assert(pow(k, e) == k * m);
        let y = x * m;
        let v = x * pow(k, e);
        assert(v == k * y) by (nonlinear_arith)
            requires
                v == x * (k * m),
                y == x * m,
        ;
        assert(v > 0) by (nonlinear_arith)
            requires
                v == k * y,
                y > 0,
                k >= 2,
        ;
        let c = high * k * m;
        assert(high * k * pow(k, e) == k * c) by (nonlinear_arith)
            requires
                pow(k, e) == k * m,
                c == high * k * m,
        ;
        assert(k * c >= 0) by (nonlinear_arith)
            requires
                k >= 2,
                c >= 0,
        ;
        assert(v == y * k + 0) by (nonlinear_arith)
            requires
                v == k * y,
        ;
        lemma_fundamental_div_mod_converse(v, k, y, 0);
        assert(v as nat % k as nat == 0 && v as nat / k as nat == y);
    }
}

/// What `x` hangs under in a domain headed by `root`: of all that are listed with the domain, the
/// one with the greatest number that is a stem of its own; the root if there is none.
pub open spec fn sits_under<Id: Ord + Number, D>(
    members: Seq<(Id, D)>,
    d: D,
    root: Id,
    radix: usize,
    x: Id,
    p: Id,
) -> bool {
    let v = x.value() as int;
    let k = radix as int;
    &&& members.contains((p, d))
    &&& stem(p.value() as int, v, k) ==> forall|y: Id| #[trigger]
        members.contains((y, d)) && stem(y.value() as int, v, k) ==> y.value() <= p.value()
    &&& !stem(p.value() as int, v, k) ==> p == root && forall|y: Id| #[trigger]
        members.contains((y, d)) ==> !stem(y.value() as int, v, k)
}

proof fn lemma_sits<Id: Ord + Copy + Number, D>(
    members: Seq<(Id, D)>,
    d: D,
    root: Id,
    radix: usize,
    x: Id,
)
    requires
        lawful::<Id>(),
        radix >= 2,
        heads(members, root, d),
        x != root,
    ensures
        ({
            let p = trie_parent(domain(members, d), x, base(radix));
            &&& p is Some
            &&& sits_under(members, d, root, radix, x, p->0)
            &&& forall|y: Id| #[trigger]
                sits_under(members, d, root, radix, x, y) ==> p == Some(y)
        }),
{
    let s = domain(members, d);
    let k = base(radix);
    lemma_heads(members, root, d);
    lemma_nearest_stem(s, x.value() as nat, k);
    let p = trie_parent(s, x, k)->0;
    assert forall|y: Id| #[trigger] members.contains((y, d)) implies s.contains(y) by {}
    assert forall|y: Id| #[trigger] s.contains(y) implies members.contains((y, d)) by {}
    assert(s.contains(p));
    assert forall|y: Id| #[trigger] sits_under(members, d, root, radix, x, y) implies p == y by {
        assert(s.contains(y));
        if stem(y.value() as int, x.value() as int, radix as int) {
            assert(nearest(s, x.value() as nat, k) is Some);
            assert(y.value() == p.value());
            Id::told_by_number(p, y);
        } else {
            assert(y == root);
            assert(nearest(s, x.value() as nat, k) is None);
        }
    }
}

/// Outside the leader's domain the lowest that is listed with a domain hangs under the leader,
/// and every other member under its nearest stem in the domain.
pub proof fn law_outside_the_leader_s_domain<Id: Ord + Copy + Number, D>(
    me: Id,
    root: Id,
    d: D,
    leader: Id,
    b: D,
    members: Seq<(Id, D)>,
    radix: usize,
)
    requires
        lawful::<Id>(),
        radix >= 2,
        lives(members, me, d),
        heads(members, root, d),
        lives(members, leader, b),
        b != d,
    ensures
        me == root ==> placed(me, leader, members, radix) == Some(Place::Under(leader)),
        me != root ==> (placed(me, leader, members, radix) matches Some(Place::Under(p))
            && sits_under(members, d, root, radix, me, p)),
{
    lemma_lives(members, me, d);
    lemma_lives(members, leader, b);
    lemma_heads(members, root, d);
    if me != root {
        lemma_sits(members, d, root, radix, me);
    }
}

/// The next on the way after the `i`th is the one that it hangs under.
pub open spec fn goes_on<Id: Ord + Number, D>(
    way: Seq<Id>,
    i: int,
    members: Seq<(Id, D)>,
    d: D,
    root: Id,
    radix: usize,
) -> bool {
    way[i] != root && sits_under(members, d, root, radix, way[i], way[i + 1])
}

/// `way` leads from the leader up its domain to the root, each next one the one that the one
/// before hangs under.
pub open spec fn leads_up<Id: Ord + Number, D>(
    way: Seq<Id>,
    members: Seq<(Id, D)>,
    d: D,
    leader: Id,
    root: Id,
    radix: usize,
) -> bool {
    &&& way.len() > 0
    &&& way[0] == leader
    &&& way.last() == root
    &&& forall|i: int|
        0 <= i < way.len() - 1 ==> #[trigger] goes_on(way, i, members, d, root, radix)
}

proof fn lemma_way<Id: Ord + Copy + Number, D>(
    way: Seq<Id>,
    members: Seq<(Id, D)>,
    d: D,
    leader: Id,
    root: Id,
    radix: usize,
    i: int,
)
    requires
        lawful::<Id>(),
        radix >= 2,
        heads(members, root, d),
        leads_up(way, members, d, leader, root, radix),
        0 <= i < way.len(),
    ensures
        path(domain(members, d), way[i], base(radix)) == way.skip(i),
    decreases way.len() - i,
{
    let s = domain(members, d);
    let k = base(radix);
    lemma_heads(members, root, d);
    if i == way.len() - 1 {
        assert(way[i] == root);
        assert(trie_parent(s, root, k) is None);
        assert(path(s, root, k) == seq![root]);
        assert(way.skip(i) =~= seq![root]);
    } else {
        lemma_way(way, members, d, leader, root, radix, i + 1);
        assert(goes_on(way, i, members, d, root, radix));
        lemma_sits(members, d, root, radix, way[i]);
        assert(trie_parent(s, way[i], k) == Some(way[i + 1]));
        assert(path(s, way[i], k) == seq![way[i]] + path(s, way[i + 1], k));
        assert(way.skip(i) =~= seq![way[i]] + way.skip(i + 1));
    }
}

/// In the leader's own domain the way from the leader up to the root flips: each on it hangs
/// under the one before it. Every other member hangs under its nearest stem, as elsewhere; and
/// there is such a way.
pub proof fn law_in_the_leader_s_domain<Id: Ord + Copy + Number, D>(
    me: Id,
    root: Id,
    d: D,
    leader: Id,
    members: Seq<(Id, D)>,
    radix: usize,
) -> (there: Seq<Id>)
    requires
        lawful::<Id>(),
        radix >= 2,
        lives(members, me, d),
        heads(members, root, d),
        lives(members, leader, d),
    ensures
        leads_up(there, members, d, leader, root, radix),
        me == leader ==> placed(me, leader, members, radix) == Some(Place::<Id>::Root),
        forall|way: Seq<Id>, i: int| #[trigger]
            leads_up(way, members, d, leader, root, radix) && 0 < i < way.len() && #[trigger] way[i]
                == me ==> placed(me, leader, members, radix) == Some(Place::Under(way[i - 1])),
        forall|way: Seq<Id>| #[trigger]
            leads_up(way, members, d, leader, root, radix) && !way.contains(me) ==> (placed(
                me,
                leader,
                members,
                radix,
            ) matches Some(Place::Under(p)) && sits_under(members, d, root, radix, me, p)),
{
    let s = domain(members, d);
    let k = base(radix);
    lemma_lives(members, me, d);
    lemma_lives(members, leader, d);
    lemma_heads(members, root, d);
    let i = choose|i: int|
        0 <= i < members.len() && #[trigger] members[i] == (leader, d) && forall|j: int|
            0 <= j < i ==> (#[trigger] members[j]).0 != leader;
    assert(members.contains((leader, d)));
    assert(s.contains(leader));
    lemma_path(s, leader, k);
    let up = path(s, leader, k);
    assert forall|way: Seq<Id>| #[trigger]
        leads_up(way, members, d, leader, root, radix) implies way == up by {
        lemma_way(way, members, d, leader, root, radix, 0);
        assert(way.skip(0) =~= way);
    }
    assert forall|i: int| 0 <= i < up.len() - 1 implies #[trigger] goes_on(
        up,
        i,
        members,
        d,
        root,
        radix,
    ) by {
        lemma_path_from(s, leader, k, i);
        assert(up[i] != up[up.len() - 1]);
        lemma_sits(members, d, root, radix, up[i]);
        let p = trie_parent(s, up[i], k)->0;
        assert(up.skip(i) == seq![up[i]] + path(s, p, k));
        lemma_path_from(s, leader, k, i + 1);
        assert(up.skip(i)[1] == path(s, p, k)[0]);
        lemma_lowest(s);
        assert(s.contains(p));
        lemma_path(s, p, k);
    }
    assert forall|way: Seq<Id>, i: int| #[trigger]
        leads_up(way, members, d, leader, root, radix) && 0 < i < way.len() && #[trigger] way[i]
            == me implies placed(me, leader, members, radix) == Some(Place::Under(way[i - 1])) by {
        assert(way == up);
        assert(up.contains(me));
        assert(up[up.index_of(me)] == me);
        assert(up.index_of(me) == i);
        assert(up[0] != up[i]);
    }
    assert forall|way: Seq<Id>| #[trigger]
        leads_up(way, members, d, leader, root, radix) && !way.contains(me) implies (placed(
        me,
        leader,
        members,
        radix,
    ) matches Some(Place::Under(p)) && sits_under(members, d, root, radix, me, p)) by {
        assert(up.contains(up[0]));
        assert(up.contains(up[up.len() - 1]));
        lemma_sits(members, d, root, radix, me);
    }
    up
}

// ------------------------------------------------------------ weights

/// The node `n` places up from `id`, in the tree under `leader`.
pub open spec fn up<Id: Ord + Number, D>(
    id: Id,
    leader: Id,
    members: Seq<(Id, D)>,
    radix: usize,
    n: nat,
) -> Option<Id>
    decreases n,
{
    if n == 0 {
        Some(id)
    } else {
        match placed(id, leader, members, radix) {
            Some(Place::Under(p)) => up(p, leader, members, radix, (n - 1) as nat),
            _ => None,
        }
    }
}

/// How often `c` is met in the first `n` places of the way up from `id`, `id` itself included.
pub open spec fn met_within<Id: Ord + Number, D>(
    id: Id,
    c: Id,
    leader: Id,
    members: Seq<(Id, D)>,
    radix: usize,
    n: nat,
) -> nat
    decreases n,
{
    if n == 0 {
        0
    } else if up(id, leader, members, radix, (n - 1) as nat) == Some(c) {
        met_within(id, c, leader, members, radix, (n - 1) as nat) + 1
    } else {
        met_within(id, c, leader, members, radix, (n - 1) as nat)
    }
}

/// How often `c` is met on the ways up from the first `m` of those listed, each way as long as
/// the list and one place more.
pub open spec fn carries<Id: Ord + Number, D>(
    c: Id,
    leader: Id,
    members: Seq<(Id, D)>,
    radix: usize,
    m: nat,
) -> nat
    decreases m,
{
    if m == 0 {
        0
    } else {
        carries(c, leader, members, radix, (m - 1) as nat) + met_within(
            members[m - 1].0,
            c,
            leader,
            members,
            radix,
            members.len() + 1,
        )
    }
}

proof fn lemma_met_from_the_front<Id: Ord + Number, D>(
    id: Id,
    c: Id,
    leader: Id,
    members: Seq<(Id, D)>,
    radix: usize,
    n: nat,
)
    requires
        n > 0,
    ensures
        met_within(id, c, leader, members, radix, n) == (if id == c {
            1nat
        } else {
            0
        }) + match placed(id, leader, members, radix) {
            Some(Place::Under(p)) => met_within(p, c, leader, members, radix, (n - 1) as nat),
            _ => 0,
        },
    decreases n,
{
    reveal_with_fuel(met_within, 2);
    reveal_with_fuel(up, 2);
    if n > 1 {
        lemma_met_from_the_front(id, c, leader, members, radix, (n - 1) as nat);
    }
}

proof fn lemma_visits_met<Id: Ord + Number, D>(
    id: Id,
    c: Id,
    leader: Id,
    members: Seq<(Id, D)>,
    radix: usize,
    n: nat,
)
    ensures
        visits(Some(id), c, leader, members, radix, n) == met_within(
            id,
            c,
            leader,
            members,
            radix,
            n,
        ),
    decreases n,
{
    if n > 0 {
        lemma_met_from_the_front(id, c, leader, members, radix, n);
        if let Some(p) = parent_in(id, leader, members, radix) {
            lemma_visits_met(p, c, leader, members, radix, (n - 1) as nat);
        } else {
            assert(visits(None::<Id>, c, leader, members, radix, (n - 1) as nat) == 0);
        }
    }
}

proof fn lemma_passing_met<Id: Ord + Number, D>(
    c: Id,
    leader: Id,
    members: Seq<(Id, D)>,
    radix: usize,
    m: nat,
)
    requires
        m <= members.len(),
    ensures
        sum_along(ids_in(members).take(m as int), visiting(c, leader, members, radix)) == carries(
            c,
            leader,
            members,
            radix,
            m,
        ),
    decreases m,
{
    let ids = ids_in(members);
    if m > 0 {
        lemma_passing_met(c, leader, members, radix, (m - 1) as nat);
        assert(ids.take(m as int).drop_last() =~= ids.take(m - 1));
        assert(ids.take(m as int).last() == members[m - 1].0);
        lemma_visits_met(members[m - 1].0, c, leader, members, radix, members.len() + 1);
    }
}

/// `at` tells which of `s` are kept.
proof fn lemma_filter_picks<T>(s: Seq<T>, p: spec_fn(T) -> bool) -> (at: Seq<int>)
    ensures
        at.len() == s.filter(p).len(),
        forall|i: int|
            #![trigger at[i]]
            0 <= i < at.len() ==> 0 <= at[i] < s.len() && p(s[at[i]]) && s[at[i]] == s.filter(p)[i],
        forall|i: int, j: int|
            #![trigger at[i], at[j]]
            0 <= i < j < at.len() ==> at[i] < at[j],
        forall|m: int| #![trigger s[m]] 0 <= m < s.len() && p(s[m]) ==> at.contains(m),
    decreases s.len(),
{
    if s.len() == 0 {
        reveal(Seq::filter);
        Seq::empty()
    } else {
        let r = s.drop_last();
        let y = s.last();
        assert(s =~= r.push(y));
        lemma_filter_push(r, y, p);
        let less = lemma_filter_picks(r, p);
        assert forall|i: int| #![trigger less[i]] 0 <= i < less.len() implies s[less[i]]
            == r[less[i]] by {}
        let at = if p(y) {
            less.push(s.len() - 1)
        } else {
            less
        };
        assert forall|m: int| #![trigger s[m]] 0 <= m < s.len() && p(s[m]) implies at.contains(
            m,
        ) by {
            if m < r.len() {
                assert(r[m] == s[m]);
                let i = choose|i: int| 0 <= i < less.len() && less[i] == m;
                assert(at[i] == m);
            } else {
                assert(at[less.len() as int] == m);
            }
        }
        at
    }
}

/// The weights name, in the order of the view, each listing of one whose parent is `me`. The first
/// that names someone gives how often they are met on the ways up from all that are listed; one
/// that names them again gives nothing.
pub proof fn law_weights_count_who_comes_by<Id: Ord + Number, D>(
    me: Id,
    leader: Id,
    members: Seq<(Id, D)>,
    radix: usize,
) -> (at: Seq<int>)
    ensures
        ({
            let w = weighed(me, leader, members, radix);
            &&& w.len() == at.len()
            &&& forall|i: int, j: int|
                #![trigger at[i], at[j]]
                0 <= i < j < at.len() ==> at[i] < at[j]
            &&& forall|m: int|
                #![trigger members[m]]
                0 <= m < members.len() ==> (at.contains(m) <==> placed(
                    members[m].0,
                    leader,
                    members,
                    radix,
                ) == Some(Place::Under(me)))
            &&& forall|j: int|
                #![trigger w[j]]
                0 <= j < w.len() ==> {
                    let again = exists|i: int| 0 <= i < j && (#[trigger] w[i]).0 == w[j].0;
                    &&& 0 <= at[j] < members.len()
                    &&& w[j].0 == members[at[j]].0
                    &&& again ==> w[j].1 == 0
                    &&& !again ==> w[j].1 == capped(
                        carries(w[j].0, leader, members, radix, members.len()) as int,
                    )
                }
        }),
{
    let ids = ids_in(members);
    let p = hanging(me, leader, members, radix);
    let w = weighed(me, leader, members, radix);
    let kids = children_in(me, leader, members, radix);
    let at = lemma_filter_picks(ids, p);
    assert forall|m: int| #![trigger members[m]] 0 <= m < members.len() implies (at.contains(m)
        <==> placed(members[m].0, leader, members, radix) == Some(Place::Under(me))) by {
        assert(ids[m] == members[m].0);
        if at.contains(m) {
            let i = choose|i: int| 0 <= i < at.len() && at[i] == m;
            assert(p(ids[at[i]]));
        }
    }
    assert forall|j: int| #![trigger w[j]] 0 <= j < w.len() implies {
        let again = exists|i: int| 0 <= i < j && (#[trigger] w[i]).0 == w[j].0;
        &&& 0 <= at[j] < members.len()
        &&& w[j].0 == members[at[j]].0
        &&& again ==> w[j].1 == 0
        &&& !again ==> w[j].1 == capped(
            carries(w[j].0, leader, members, radix, members.len()) as int,
        )
    } by {
        let c = kids[j];
        assert(ids[at[j]] == c);
        lemma_passing_met(c, leader, members, radix, members.len());
        assert(ids.take(members.len() as int) =~= ids);
        if kids.take(j).contains(c) {
            let i = choose|i: int| 0 <= i < j && kids.take(j)[i] == c;
            assert(w[i].0 == c);
        }
        if exists|i: int| 0 <= i < j && (#[trigger] w[i]).0 == c {
            let i = choose|i: int| 0 <= i < j && (#[trigger] w[i]).0 == c;
            assert(kids.take(j)[i] == c);
        }
    }
    at
}

} // verus!
